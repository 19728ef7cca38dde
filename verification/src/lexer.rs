//! The executable scanner, verified against the model in `model`.
use vstd::prelude::*;
use vstd::slice::slice_to_vec;

use crate::model::LexerError;
use crate::model::TokenModel;
use crate::model::all_digits;
use crate::model::digit_run_end;
use crate::model::digits_value;
use crate::model::is_ws;
use crate::model::lemma_digits_value_grows;
use crate::model::lemma_scan_number_pos;
use crate::model::lemma_scan_string_pos;
use crate::model::lemma_scan_symbol_pos;
use crate::model::number_token;
use crate::model::scan_number;
use crate::model::scan_string;
use crate::model::scan_symbol;
use crate::model::scan_tokens;
use crate::model::valid_float_lit;
use crate::model::with_prefix;

verus! {

/// A scanned token. Text is carried as bytes; a float literal is carried as
/// its validated text, to be converted by the caller where a numeric value
/// is wanted.
#[derive(Debug, PartialEq, Eq)]
pub enum Token {
    EOF,
    Function(Vec<u8>),
    Int(i64),
    Float(Vec<u8>),
    Symbol(Vec<u8>),
    String(Vec<u8>),
    OpeningBrace,
    ClosingBrace,
}

impl View for Token {
    type V = TokenModel;

    open spec fn view(&self) -> TokenModel {
        match self {
            Token::EOF => TokenModel::EOF,
            Token::Function(name) => TokenModel::Function(name@),
            Token::Int(v) => TokenModel::Int(*v as int),
            Token::Float(lit) => TokenModel::Float(lit@),
            Token::Symbol(name) => TokenModel::Symbol(name@),
            Token::String(text) => TokenModel::String(text@),
            Token::OpeningBrace => TokenModel::OpeningBrace,
            Token::ClosingBrace => TokenModel::ClosingBrace,
        }
    }
}

/// The models of a token sequence, in order.
pub open spec fn tokens_view(ts: Seq<Token>) -> Seq<TokenModel> {
    ts.map_values(|t: Token| t@)
}

proof fn lemma_tokens_view_push(ts: Seq<Token>, t: Token)
    ensures
        tokens_view(ts.push(t)) == tokens_view(ts).push(t@),
{
    assert(tokens_view(ts.push(t)) =~= tokens_view(ts).push(t@));
}

fn is_ws_exec(c: u8) -> (r: bool)
    ensures
        r == is_ws(c),
{
    c == 0x20 || c == 0x09 || c == 0x0a || c == 0x0c || c == 0x0d
}

/// First index at or after `i` in `v` that does not hold an ASCII digit.
#[verifier::loop_isolation(false)]
fn digit_run_end_exec(v: &Vec<u8>, i: usize) -> (j: usize)
    requires
        i <= v@.len(),
    ensures
        j as int == digit_run_end(v@, i as int),
        i <= j <= v@.len(),
{
    let mut k = i;
    loop
        invariant
            i <= k <= v@.len(),
            digit_run_end(v@, i as int) == digit_run_end(v@, k as int),
        decreases v@.len() - k,
    {
        if k >= v.len() {
            return k;
        }
        let c = v[k];
        if !(0x30 <= c && c <= 0x39) {
            return k;
        }
        k = k + 1;
    }
}

/// Whether a literal is a well-formed float text: digits, one dot, optional
/// fraction digits, optional exponent.
fn check_float_lit(lit: &Vec<u8>) -> (r: bool)
    ensures
        r == valid_float_lit(lit@),
{
    let n = lit.len();
    let d = digit_run_end_exec(lit, 0);
    if d >= n {
        return false;
    }
    if lit[d] != 0x2e {
        return false;
    }
    let f = digit_run_end_exec(lit, d + 1);
    if !(d > 0 || f > d + 1) {
        return false;
    }
    if f == n {
        return true;
    }
    let e = lit[f];
    if e != 0x65 && e != 0x45 {
        return false;
    }
    let j = if f + 1 < n && (lit[f + 1] == 0x2b || lit[f + 1] == 0x2d) {
        f + 2
    } else {
        f + 1
    };
    if j >= n {
        return false;
    }
    let k = digit_run_end_exec(lit, j);
    k == n
}

/// Integer literal parse: the value of a digit string, or `None` on a
/// non-digit byte or a value beyond the 64-bit signed range.
#[verifier::loop_isolation(false)]
fn parse_int(lit: &Vec<u8>) -> (r: Option<i64>)
    ensures
        match r {
            Some(v) => all_digits(lit@) && digits_value(lit@) <= i64::MAX && v as int
                == digits_value(lit@),
            None => !(all_digits(lit@) && digits_value(lit@) <= i64::MAX),
        },
{
    let n = lit.len();
    let mut k: usize = 0;
    while k < n
        invariant
            0 <= k <= n,
            forall|p: int| 0 <= p < k ==> crate::model::is_digit(lit@[p]),
        decreases n - k,
    {
        let c = lit[k];
        if !(0x30 <= c && c <= 0x39) {
            return None;
        }
        k = k + 1;
    }
    let mut v: i64 = 0;
    let mut m: usize = 0;
    while m < n
        invariant
            0 <= m <= n,
            all_digits(lit@),
            0 <= v,
            v as int == digits_value(lit@.subrange(0, m as int)),
        decreases n - m,
    {
        let c = lit[m];
        let d = (c - 0x30) as i64;
        proof {
            assert(lit@.subrange(0, m + 1).drop_last() =~= lit@.subrange(0, m as int));
            assert(lit@.subrange(0, m + 1).last() == lit@[m as int]);
        }
        let v10 = match v.checked_mul(10) {
            Some(x) => x,
            None => {
                proof {
                    lemma_digits_value_grows(lit@, m + 1);
                }
                return None;
            },
        };
        let w = match v10.checked_add(d) {
            Some(x) => x,
            None => {
                proof {
                    lemma_digits_value_grows(lit@, m + 1);
                }
                return None;
            },
        };
        v = w;
        m = m + 1;
    }
    proof {
        assert(lit@.subrange(0, n as int) =~= lit@);
    }
    Some(v)
}

/// The scanner: a forward-only cursor over the input bytes.
pub struct Lexer {
    text: Vec<u8>,
    pos: usize,
}

impl Lexer {
    /// The input under scan.
    pub closed spec fn input(&self) -> Seq<u8> {
        self.text@
    }

    /// The cursor position.
    pub closed spec fn at(&self) -> int {
        self.pos as int
    }

    /// The cursor stands inside the input or just past its end.
    pub open spec fn wf(&self) -> bool {
        0 <= self.at() <= self.input().len()
    }

    pub fn new(text: Vec<u8>) -> (l: Lexer)
        ensures
            l.input() == text@,
            l.at() == 0,
            l.wf(),
    {
        Lexer { text, pos: 0 }
    }

    /// Number recognition, seeded with the consumed leading digit or dot.
    #[verifier::loop_isolation(false)]
    fn make_number(&mut self, ch: u8) -> (r: Result<Token, LexerError>)
        requires
            old(self).wf(),
        ensures
            final(self).wf(),
            final(self).input() == old(self).input(),
            match scan_number(old(self).input(), old(self).at(), seq![ch], ch == 0x2e) {
                Ok(sr) => {
                    &&& final(self).at() == sr.2
                    &&& (match number_token(sr.0, sr.1) {
                        Ok(t) => r matches Ok(tok) && tok@ == t,
                        Err(e) => r == Err::<Token, LexerError>(e),
                    })
                },
                Err(e) => r == Err::<Token, LexerError>(e),
            },
            old(self).at() <= final(self).at(),
    {
        let ghost s = self.text@;
        let ghost i0 = self.pos as int;
        let mut lit: Vec<u8> = Vec::new();
        lit.push(ch);
        let mut has_dot = ch == 0x2e;
        proof {
            assert(lit@ =~= seq![ch]);
        }
        let mut done = false;
        while !done
            invariant
                self.wf(),
                self.text@ == s,
                i0 <= self.pos as int,
                !done ==> scan_number(s, i0, seq![ch], ch == 0x2e) == scan_number(
                    s,
                    self.pos as int,
                    lit@,
                    has_dot,
                ),
                done ==> scan_number(s, i0, seq![ch], ch == 0x2e) == Ok::<_, LexerError>(
                    (lit@, has_dot, self.pos as int),
                ),
            decreases s.len() - self.pos + (if done { 0int } else { 1int }),
        {
            if self.pos >= self.text.len() {
                done = true;
            } else {
                let c = self.text[self.pos];
                if c == 0x7d {
                    done = true;
                } else if c == 0x27 || c == 0x7b {
                    return Err(LexerError::InvalidNumber);
                } else {
                    self.pos = self.pos + 1;
                    if is_ws_exec(c) {
                        done = true;
                    } else if c == 0x2e {
                        if has_dot {
                            return Err(LexerError::InvalidNumber);
                        }
                        has_dot = true;
                        lit.push(0x2e);
                    } else {
                        lit.push(c);
                    }
                }
            }
        }
        if has_dot {
            if check_float_lit(&lit) {
                Ok(Token::Float(lit))
            } else {
                Err(LexerError::InvalidNumber)
            }
        } else {
            match parse_int(&lit) {
                Some(v) => Ok(Token::Int(v)),
                None => Err(LexerError::InvalidNumber),
            }
        }
    }

    /// String recognition: the opening quote has already been consumed.
    #[verifier::loop_isolation(false)]
    fn make_string(&mut self) -> (r: Result<Vec<u8>, LexerError>)
        requires
            old(self).wf(),
        ensures
            final(self).wf(),
            final(self).input() == old(self).input(),
            match scan_string(old(self).input(), old(self).at(), Seq::empty()) {
                Ok(sr) => r matches Ok(v) && v@ == sr.0 && final(self).at() == sr.1,
                Err(e) => r == Err::<Vec<u8>, LexerError>(e),
            },
            old(self).at() <= final(self).at(),
    {
        let ghost s = self.text@;
        let ghost i0 = self.pos as int;
        let mut acc: Vec<u8> = Vec::new();
        loop
            invariant
                self.wf(),
                self.text@ == s,
                i0 <= self.pos as int,
                scan_string(s, i0, Seq::empty()) == scan_string(s, self.pos as int, acc@),
            decreases s.len() - self.pos,
        {
            if self.pos >= self.text.len() {
                return Err(LexerError::UnterminatedString);
            }
            let c = self.text[self.pos];
            self.pos = self.pos + 1;
            if c == 0x22 {
                return Ok(acc);
            }
            acc.push(c);
        }
    }

    /// Symbol and word recognition, shared: seeded with the consumed leading
    /// byte for a word, unseeded for a symbol.
    #[verifier::loop_isolation(false)]
    fn make_symbol(&mut self, entry_char: Option<u8>) -> (r: Result<Vec<u8>, LexerError>)
        requires
            old(self).wf(),
        ensures
            final(self).wf(),
            final(self).input() == old(self).input(),
            match scan_symbol(
                old(self).input(),
                old(self).at(),
                match entry_char {
                    Some(c) => seq![c],
                    None => Seq::empty(),
                },
            ) {
                Ok(sr) => r matches Ok(v) && v@ == sr.0 && final(self).at() == sr.1,
                Err(e) => r == Err::<Vec<u8>, LexerError>(e),
            },
            old(self).at() <= final(self).at(),
    {
        let ghost s = self.text@;
        let ghost i0 = self.pos as int;
        let ghost seed = match entry_char {
            Some(c) => seq![c],
            None => Seq::<u8>::empty(),
        };
        let mut name: Vec<u8> = Vec::new();
        if let Some(c) = entry_char {
            name.push(c);
        }
        proof {
            assert(name@ =~= seed);
        }
        let mut done = false;
        while !done
            invariant
                self.wf(),
                self.text@ == s,
                i0 <= self.pos as int,
                !done ==> scan_symbol(s, i0, seed) == scan_symbol(s, self.pos as int, name@),
                done ==> scan_symbol(s, i0, seed) == Ok::<_, LexerError>(
                    (name@, self.pos as int),
                ),
            decreases s.len() - self.pos + (if done { 0int } else { 1int }),
        {
            if self.pos >= self.text.len() {
                done = true;
            } else {
                let c = self.text[self.pos];
                if c == 0x7d || is_ws_exec(c) {
                    done = true;
                } else if c == 0x27 || c == 0x7b {
                    return Err(LexerError::InvalidSymbolName);
                } else {
                    self.pos = self.pos + 1;
                    name.push(c);
                }
            }
        }
        Ok(name)
    }

    /// The whole scan: the token sequence the input denotes from the cursor
    /// on, ending in `EOF`, or the first lexical error, exactly as the model
    /// `scan_tokens` states.
    #[verifier::loop_isolation(false)]
    pub fn tokenize(&mut self) -> (r: Result<Vec<Token>, LexerError>)
        requires
            old(self).wf(),
        ensures
            final(self).wf(),
            final(self).input() == old(self).input(),
            match r {
                Ok(toks) => scan_tokens(old(self).input(), old(self).at()) == Ok::<
                    _,
                    LexerError,
                >(tokens_view(toks@)),
                Err(e) => scan_tokens(old(self).input(), old(self).at()) == Err::<
                    Seq<TokenModel>,
                    LexerError,
                >(e),
            },
    {
        let ghost s = self.text@;
        let ghost i0 = self.pos as int;
        let mut tokens: Vec<Token> = Vec::new();
        proof {
            assert(tokens_view(tokens@) =~= Seq::<TokenModel>::empty());
        }
        while self.pos < self.text.len()
            invariant
                self.wf(),
                self.text@ == s,
                i0 <= self.pos as int,
                scan_tokens(s, i0) == with_prefix(
                    tokens_view(tokens@),
                    scan_tokens(s, self.pos as int),
                ),
            decreases s.len() - self.pos,
        {
            let ghost pos0 = self.pos as int;
            let ghost toks0 = tokens@;
            let c = self.text[self.pos];
            self.pos = self.pos + 1;
            if is_ws_exec(c) {
                // skipped, no token emitted
            } else if (0x30 <= c && c <= 0x39) || c == 0x2e {
                let tok = match self.make_number(c) {
                    Ok(t) => t,
                    Err(e) => {
                        return Err(e);
                    },
                };
                proof {
                    lemma_scan_number_pos(s, pos0 + 1, seq![c], c == 0x2e);
                    lemma_tokens_view_push(toks0, tok);
                }
                tokens.push(tok);
                proof {
                    lemma_prefix_shift(toks0, tokens@.last(), s, self.pos as int);
                }
            } else if c == 0x27 {
                let name = match self.make_symbol(None) {
                    Ok(v) => v,
                    Err(e) => {
                        return Err(e);
                    },
                };
                proof {
                    lemma_scan_symbol_pos(s, pos0 + 1, Seq::empty());
                    lemma_tokens_view_push(toks0, Token::Symbol(name));
                }
                tokens.push(Token::Symbol(name));
                proof {
                    lemma_prefix_shift(toks0, tokens@.last(), s, self.pos as int);
                }
            } else if c == 0x22 {
                let text = match self.make_string() {
                    Ok(v) => v,
                    Err(e) => {
                        return Err(e);
                    },
                };
                proof {
                    lemma_scan_string_pos(s, pos0 + 1, Seq::empty());
                    lemma_tokens_view_push(toks0, Token::String(text));
                }
                tokens.push(Token::String(text));
                proof {
                    lemma_prefix_shift(toks0, tokens@.last(), s, self.pos as int);
                }
            } else if c == 0x7b {
                proof {
                    lemma_tokens_view_push(toks0, Token::OpeningBrace);
                }
                tokens.push(Token::OpeningBrace);
                proof {
                    lemma_prefix_shift(toks0, tokens@.last(), s, self.pos as int);
                }
            } else if c == 0x7d {
                proof {
                    lemma_tokens_view_push(toks0, Token::ClosingBrace);
                }
                tokens.push(Token::ClosingBrace);
                proof {
                    lemma_prefix_shift(toks0, tokens@.last(), s, self.pos as int);
                }
            } else if c < 0x80 {
                let name = match self.make_symbol(Some(c)) {
                    Ok(v) => v,
                    Err(e) => {
                        return Err(e);
                    },
                };
                proof {
                    lemma_scan_symbol_pos(s, pos0 + 1, seq![c]);
                    lemma_tokens_view_push(toks0, Token::Function(name));
                }
                tokens.push(Token::Function(name));
                proof {
                    lemma_prefix_shift(toks0, tokens@.last(), s, self.pos as int);
                }
            } else {
                return Err(LexerError::InvalidToken);
            }
        }
        proof {
            lemma_tokens_view_push(tokens@, Token::EOF);
            assert(tokens_view(tokens@).push(TokenModel::EOF) =~= tokens_view(tokens@) + seq![
                TokenModel::EOF,
            ]);
        }
        tokens.push(Token::EOF);
        Ok(tokens)
    }
}

/// Gluing step for the tokenize loop: prepending one freshly scanned token
/// onto the remaining scan commutes with sequence concatenation.
proof fn lemma_prefix_shift(pre: Seq<Token>, t: Token, s: Seq<u8>, j: int)
    ensures
        with_prefix(tokens_view(pre), with_prefix(seq![t@], scan_tokens(s, j))) == with_prefix(
            tokens_view(pre.push(t)),
            scan_tokens(s, j),
        ),
{
    lemma_tokens_view_push(pre, t);
    assert(tokens_view(pre).push(t@) =~= tokens_view(pre) + seq![t@]);
    match scan_tokens(s, j) {
        Ok(rest) => {
            assert((tokens_view(pre) + seq![t@]) + rest =~= tokens_view(pre) + (seq![t@] + rest));
        },
        Err(_) => {},
    }
}

/// Scan a whole script text: the token sequence it denotes, or the first
/// lexical error.
pub fn run(text: &[u8]) -> (r: Result<Vec<Token>, LexerError>)
    ensures
        match r {
            Ok(toks) => scan_tokens(text@, 0) == Ok::<_, LexerError>(tokens_view(toks@)),
            Err(e) => scan_tokens(text@, 0) == Err::<Seq<TokenModel>, LexerError>(e),
        },
{
    let mut lexer = Lexer::new(slice_to_vec(text));
    lexer.tokenize()
}

impl LexerError {
    /// The fixed human-readable message of each error kind.
    pub fn message(&self) -> (r: &'static str)
        ensures
            r@ == match self {
                LexerError::InvalidNumber => "invalid number"@,
                LexerError::InvalidToken => "invalid token"@,
                LexerError::InvalidSymbolName => "invalid symbol name"@,
                LexerError::UnterminatedString => "unterminated string"@,
            },
    {
        match self {
            LexerError::InvalidNumber => "invalid number",
            LexerError::InvalidToken => "invalid token",
            LexerError::InvalidSymbolName => "invalid symbol name",
            LexerError::UnterminatedString => "unterminated string",
        }
    }
}

} // verus!
