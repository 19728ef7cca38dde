//! Mathematical model of the lexical grammar: byte classes, the scan of each
//! lexeme kind, and the token sequence a whole input denotes.
use vstd::prelude::*;

verus! {

/// A token at the specification level: text is a byte sequence, integers are
/// unbounded. A float literal is carried as its validated text, since the
/// scanner itself never needs the numeric value.
pub enum TokenModel {
    EOF,
    Function(Seq<u8>),
    Int(int),
    Float(Seq<u8>),
    Symbol(Seq<u8>),
    String(Seq<u8>),
    OpeningBrace,
    ClosingBrace,
}

/// The four terminal lexical errors.
#[derive(Clone, Copy, Debug, PartialEq, Eq)]
pub enum LexerError {
    InvalidNumber,
    InvalidToken,
    InvalidSymbolName,
    UnterminatedString,
}

/// ASCII whitespace: space, tab, line feed, form feed, carriage return.
pub open spec fn is_ws(c: u8) -> bool {
    c == 0x20 || c == 0x09 || c == 0x0a || c == 0x0c || c == 0x0d
}

/// ASCII decimal digit.
pub open spec fn is_digit(c: u8) -> bool {
    0x30 <= c && c <= 0x39
}

/// Reserved bytes: legal only as a lexeme-starting marker; an error inside a
/// number, symbol or word body.
pub open spec fn is_reserved(c: u8) -> bool {
    c == 0x27 || c == 0x7b
}

/// The legal exit byte: silently terminates a number, symbol or word without
/// being consumed by it.
pub open spec fn is_exit(c: u8) -> bool {
    c == 0x7d
}

/// Scan of a number literal body, starting at `i` with the accumulated
/// literal `lit` and dot flag `has_dot`. Returns the final literal, the dot
/// flag, and the position after the scan.
pub open spec fn scan_number(s: Seq<u8>, i: int, lit: Seq<u8>, has_dot: bool) -> Result<
    (Seq<u8>, bool, int),
    LexerError,
>
    decreases s.len() - i,
{
    if !(0 <= i < s.len()) {
        Ok((lit, has_dot, i))
    } else if is_exit(s[i]) {
        Ok((lit, has_dot, i))
    } else if is_reserved(s[i]) {
        Err(LexerError::InvalidNumber)
    } else if is_ws(s[i]) {
        Ok((lit, has_dot, i + 1))
    } else if s[i] == 0x2e {
        if has_dot {
            Err(LexerError::InvalidNumber)
        } else {
            scan_number(s, i + 1, lit.push(0x2e), true)
        }
    } else {
        scan_number(s, i + 1, lit.push(s[i]), has_dot)
    }
}

/// Scan of a string literal body: everything up to the first closing quote,
/// which is consumed; an error if the input ends first.
pub open spec fn scan_string(s: Seq<u8>, i: int, acc: Seq<u8>) -> Result<
    (Seq<u8>, int),
    LexerError,
>
    decreases s.len() - i,
{
    if !(0 <= i < s.len()) {
        Err(LexerError::UnterminatedString)
    } else if s[i] == 0x22 {
        Ok((acc, i + 1))
    } else {
        scan_string(s, i + 1, acc.push(s[i]))
    }
}

/// Scan of a symbol or word body: stops before whitespace or the exit byte,
/// fails on a reserved byte.
pub open spec fn scan_symbol(s: Seq<u8>, i: int, name: Seq<u8>) -> Result<
    (Seq<u8>, int),
    LexerError,
>
    decreases s.len() - i,
{
    if !(0 <= i < s.len()) {
        Ok((name, i))
    } else if is_exit(s[i]) || is_ws(s[i]) {
        Ok((name, i))
    } else if is_reserved(s[i]) {
        Err(LexerError::InvalidSymbolName)
    } else {
        scan_symbol(s, i + 1, name.push(s[i]))
    }
}

/// Value of a digit string, most significant digit first.
pub open spec fn digits_value(s: Seq<u8>) -> int
    decreases s.len(),
{
    if s.len() == 0 {
        0
    } else {
        digits_value(s.drop_last()) * 10 + (s.last() - 0x30)
    }
}

/// Every byte of `s` is a decimal digit.
pub open spec fn all_digits(s: Seq<u8>) -> bool {
    forall|k: int| 0 <= k < s.len() ==> is_digit(s[k])
}

/// First index at or after `i` that does not hold a digit (the input length
/// if the digits run to the end).
pub open spec fn digit_run_end(s: Seq<u8>, i: int) -> int
    decreases s.len() - i,
{
    if 0 <= i < s.len() && is_digit(s[i]) {
        digit_run_end(s, i + 1)
    } else {
        i
    }
}

/// An exponent part beginning at `i`: either nothing, or `e`/`E`, an optional
/// sign, and at least one digit running to the end of the literal.
pub open spec fn valid_exp_at(s: Seq<u8>, i: int) -> bool {
    ||| i == s.len()
    ||| {
        &&& 0 <= i < s.len()
        &&& (s[i] == 0x65 || s[i] == 0x45)
        &&& {
            let j = if i + 1 < s.len() && (s[i + 1] == 0x2b || s[i + 1] == 0x2d) {
                i + 2
            } else {
                i + 1
            };
            j < s.len() && digit_run_end(s, j) == s.len()
        }
    }
}

/// A float literal as the scanner accepts it: digits, one dot, optional
/// fraction digits, optional exponent, with at least one digit on some side
/// of the dot. This is the unsigned, single-dot fragment of the textual
/// grammar that a 64-bit float parser accepts.
pub open spec fn valid_float_lit(s: Seq<u8>) -> bool {
    let d = digit_run_end(s, 0);
    &&& 0 <= d < s.len()
    &&& s[d] == 0x2e
    &&& {
        let f = digit_run_end(s, d + 1);
        &&& (d > 0 || f > d + 1)
        &&& valid_exp_at(s, f)
    }
}

/// The token a finished number literal denotes: an integer when no dot was
/// seen, a float otherwise; an error when the literal fails the numeric
/// format or exceeds the 64-bit signed range.
pub open spec fn number_token(lit: Seq<u8>, has_dot: bool) -> Result<TokenModel, LexerError> {
    if has_dot {
        if valid_float_lit(lit) {
            Ok(TokenModel::Float(lit))
        } else {
            Err(LexerError::InvalidNumber)
        }
    } else {
        if all_digits(lit) && digits_value(lit) <= i64::MAX {
            Ok(TokenModel::Int(digits_value(lit)))
        } else {
            Err(LexerError::InvalidNumber)
        }
    }
}

/// Prefixing an accumulated token sequence onto a scan result.
pub open spec fn with_prefix(pre: Seq<TokenModel>, r: Result<Seq<TokenModel>, LexerError>) -> Result<
    Seq<TokenModel>,
    LexerError,
> {
    match r {
        Ok(ts) => Ok(pre + ts),
        Err(e) => Err(e),
    }
}

/// The value of a digit string is never negative.
pub proof fn lemma_digits_value_nonneg(s: Seq<u8>)
    requires
        all_digits(s),
    ensures
        digits_value(s) >= 0,
    decreases s.len(),
{
    if s.len() > 0 {
        assert(all_digits(s.drop_last()));
        lemma_digits_value_nonneg(s.drop_last());
        assert(is_digit(s[s.len() - 1]));
    }
}

/// A digit string is worth at least any of its prefixes.
pub proof fn lemma_digits_value_grows(s: Seq<u8>, k: int)
    requires
        all_digits(s),
        0 <= k <= s.len(),
    ensures
        digits_value(s.subrange(0, k)) <= digits_value(s),
    decreases s.len() - k,
{
    if k == s.len() {
        assert(s.subrange(0, k) =~= s);
    } else {
        assert(s.subrange(0, k + 1).drop_last() =~= s.subrange(0, k));
        assert(s.subrange(0, k + 1).last() == s[k]);
        assert(all_digits(s.subrange(0, k)));
        lemma_digits_value_nonneg(s.subrange(0, k));
        assert(is_digit(s[k]));
        lemma_digits_value_grows(s, k + 1);
    }
}

/// Position bound for the number scan: the scan never moves backwards and
/// never passes the end of the input.
pub proof fn lemma_scan_number_pos(s: Seq<u8>, i: int, lit: Seq<u8>, has_dot: bool)
    ensures
        scan_number(s, i, lit, has_dot) matches Ok(r) ==> i <= r.2,
        i <= s.len() ==> (scan_number(s, i, lit, has_dot) matches Ok(r) ==> r.2 <= s.len()),
    decreases s.len() - i,
{
    if 0 <= i < s.len() {
        if !is_exit(s[i]) && !is_reserved(s[i]) && !is_ws(s[i]) {
            if s[i] == 0x2e {
                if !has_dot {
                    lemma_scan_number_pos(s, i + 1, lit.push(0x2e), true);
                }
            } else {
                lemma_scan_number_pos(s, i + 1, lit.push(s[i]), has_dot);
            }
        }
    }
}

/// Position bound for the string scan.
pub proof fn lemma_scan_string_pos(s: Seq<u8>, i: int, acc: Seq<u8>)
    ensures
        scan_string(s, i, acc) matches Ok(r) ==> i < r.1,
        i <= s.len() ==> (scan_string(s, i, acc) matches Ok(r) ==> r.1 <= s.len()),
    decreases s.len() - i,
{
    if 0 <= i < s.len() && s[i] != 0x22 {
        lemma_scan_string_pos(s, i + 1, acc.push(s[i]));
    }
}

/// Position bound for the symbol scan.
pub proof fn lemma_scan_symbol_pos(s: Seq<u8>, i: int, name: Seq<u8>)
    ensures
        scan_symbol(s, i, name) matches Ok(r) ==> i <= r.1,
        i <= s.len() ==> (scan_symbol(s, i, name) matches Ok(r) ==> r.1 <= s.len()),
    decreases s.len() - i,
{
    if 0 <= i < s.len() && !is_exit(s[i]) && !is_ws(s[i]) && !is_reserved(s[i]) {
        lemma_scan_symbol_pos(s, i + 1, name.push(s[i]));
    }
}

/// The token sequence the input denotes from position `i` on: the main
/// dispatch of the scanner, one lexeme per step, ending in `EOF`.
pub open spec fn scan_tokens(s: Seq<u8>, i: int) -> Result<Seq<TokenModel>, LexerError>
    decreases s.len() - i,
    via scan_tokens_decreases
{
    if !(0 <= i < s.len()) {
        Ok(seq![TokenModel::EOF])
    } else {
        let c = s[i];
        if is_ws(c) {
            scan_tokens(s, i + 1)
        } else if is_digit(c) || c == 0x2e {
            match scan_number(s, i + 1, seq![c], c == 0x2e) {
                Ok(r) => match number_token(r.0, r.1) {
                    Ok(t) => match scan_tokens(s, r.2) {
                        Ok(rest) => Ok(seq![t] + rest),
                        Err(e) => Err(e),
                    },
                    Err(e) => Err(e),
                },
                Err(e) => Err(e),
            }
        } else if c == 0x27 {
            match scan_symbol(s, i + 1, Seq::empty()) {
                Ok(r) => match scan_tokens(s, r.1) {
                    Ok(rest) => Ok(seq![TokenModel::Symbol(r.0)] + rest),
                    Err(e) => Err(e),
                },
                Err(e) => Err(e),
            }
        } else if c == 0x22 {
            match scan_string(s, i + 1, Seq::empty()) {
                Ok(r) => match scan_tokens(s, r.1) {
                    Ok(rest) => Ok(seq![TokenModel::String(r.0)] + rest),
                    Err(e) => Err(e),
                },
                Err(e) => Err(e),
            }
        } else if c == 0x7b {
            match scan_tokens(s, i + 1) {
                Ok(rest) => Ok(seq![TokenModel::OpeningBrace] + rest),
                Err(e) => Err(e),
            }
        } else if c == 0x7d {
            match scan_tokens(s, i + 1) {
                Ok(rest) => Ok(seq![TokenModel::ClosingBrace] + rest),
                Err(e) => Err(e),
            }
        } else if c < 0x80 {
            match scan_symbol(s, i + 1, seq![c]) {
                Ok(r) => match scan_tokens(s, r.1) {
                    Ok(rest) => Ok(seq![TokenModel::Function(r.0)] + rest),
                    Err(e) => Err(e),
                },
                Err(e) => Err(e),
            }
        } else {
            Err(LexerError::InvalidToken)
        }
    }
}

#[via_fn]
proof fn scan_tokens_decreases(s: Seq<u8>, i: int) {
    if 0 <= i < s.len() {
        let c = s[i];
        lemma_scan_number_pos(s, i + 1, seq![c], c == 0x2e);
        lemma_scan_symbol_pos(s, i + 1, Seq::empty());
        lemma_scan_symbol_pos(s, i + 1, seq![c]);
        lemma_scan_string_pos(s, i + 1, Seq::empty());
    }
}

} // verus!
