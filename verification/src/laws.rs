//! General properties of the scanner, stated over the model and proved once
//! for all inputs.
use vstd::arithmetic::div_mod::lemma_fundamental_div_mod;
use vstd::prelude::*;

use crate::model::LexerError;
use crate::model::TokenModel;
use crate::model::all_digits;
use crate::model::digit_run_end;
use crate::model::digits_value;
use crate::model::is_digit;
use crate::model::is_exit;
use crate::model::is_reserved;
use crate::model::is_ws;
use crate::model::lemma_scan_number_pos;
use crate::model::lemma_scan_string_pos;
use crate::model::lemma_scan_symbol_pos;
use crate::model::number_token;
use crate::model::scan_number;
use crate::model::scan_string;
use crate::model::scan_symbol;
use crate::model::scan_tokens;
use crate::model::valid_float_lit;
use crate::model::with_prefix;

verus! {

/// A byte that neither terminates nor is reserved inside a number, symbol or
/// word body.
pub open spec fn plain_byte(c: u8) -> bool {
    !is_ws(c) && !is_exit(c) && !is_reserved(c)
}

/// The number scan over a run of plain bytes with at most one dot, ending at
/// a terminator: it accumulates the run verbatim, records whether a dot was
/// seen, and consumes a whitespace terminator but not an exit byte.
proof fn lemma_scan_number_run(s: Seq<u8>, i: int, j: int, lit: Seq<u8>, has_dot: bool)
    requires
        0 <= i <= j <= s.len(),
        forall|k: int| i <= k < j ==> plain_byte(s[k]),
        j == s.len() || is_ws(s[j]) || is_exit(s[j]),
        has_dot ==> forall|k: int| i <= k < j ==> s[k] != 0x2e,
        forall|p: int, q: int| i <= p < q < j && s[p] == 0x2e ==> s[q] != 0x2e,
    ensures
        scan_number(s, i, lit, has_dot) == Ok::<_, LexerError>(
            (
                lit + s.subrange(i, j),
                has_dot || exists|k: int| i <= k < j && s[k] == 0x2e,
                if j < s.len() && is_ws(s[j]) {
                    j + 1
                } else {
                    j
                },
            ),
        ),
    decreases j - i,
{
    if i == j {
        assert(lit + s.subrange(i, j) =~= lit);
        assert(!(exists|k: int| i <= k < j && s[k] == 0x2e));
    } else {
        assert(plain_byte(s[i]));
        if s[i] == 0x2e {
            assert(!has_dot);
            lemma_scan_number_run(s, i + 1, j, lit.push(0x2e), true);
            assert(lit.push(0x2e) + s.subrange(i + 1, j) =~= lit + s.subrange(i, j));
            assert(i <= i < j && s[i] == 0x2e);
        } else {
            lemma_scan_number_run(s, i + 1, j, lit.push(s[i]), has_dot);
            assert(lit.push(s[i]) + s.subrange(i + 1, j) =~= lit + s.subrange(i, j));
            assert((exists|k: int| i <= k < j && s[k] == 0x2e) == (exists|k: int|
                i + 1 <= k < j && s[k] == 0x2e)) by {
                if exists|k: int| i <= k < j && s[k] == 0x2e {
                    let k = choose|k: int| i <= k < j && s[k] == 0x2e;
                    assert(k != i);
                    assert(i + 1 <= k < j && s[k] == 0x2e);
                }
            }
        }
    }
}

/// The number scan with the dot flag already set fails on the next dot in a
/// run of plain bytes.
proof fn lemma_scan_number_second_dot(s: Seq<u8>, i: int, lit: Seq<u8>, w: int)
    requires
        0 <= i <= w < s.len(),
        s[w] == 0x2e,
        forall|k: int| i <= k < s.len() ==> plain_byte(s[k]),
    ensures
        scan_number(s, i, lit, true) == Err::<(Seq<u8>, bool, int), LexerError>(
            LexerError::InvalidNumber,
        ),
    decreases w - i,
{
    assert(plain_byte(s[i]));
    if s[i] != 0x2e {
        assert(i != w);
        lemma_scan_number_second_dot(s, i + 1, lit.push(s[i]), w);
    }
}

/// The number scan without the dot flag fails when two dots lie ahead in a
/// run of plain bytes.
proof fn lemma_scan_number_two_dots(s: Seq<u8>, i: int, lit: Seq<u8>, p: int, q: int)
    requires
        0 <= i <= p < q < s.len(),
        s[p] == 0x2e,
        s[q] == 0x2e,
        forall|k: int| i <= k < s.len() ==> plain_byte(s[k]),
    ensures
        scan_number(s, i, lit, false) == Err::<(Seq<u8>, bool, int), LexerError>(
            LexerError::InvalidNumber,
        ),
    decreases p - i,
{
    assert(plain_byte(s[i]));
    if i == p {
        lemma_scan_number_second_dot(s, i + 1, lit.push(0x2e), q);
    } else if s[i] == 0x2e {
        lemma_scan_number_second_dot(s, i + 1, lit.push(0x2e), q);
    } else {
        lemma_scan_number_two_dots(s, i + 1, lit.push(s[i]), p, q);
    }
}

proof fn lemma_ws_only_from(s: Seq<u8>, i: int)
    requires
        0 <= i <= s.len(),
        forall|k: int| i <= k < s.len() ==> is_ws(s[k]),
    ensures
        scan_tokens(s, i) == Ok::<_, LexerError>(seq![TokenModel::EOF]),
    decreases s.len() - i,
{
    if i < s.len() {
        lemma_ws_only_from(s, i + 1);
    }
}

/// An input of nothing but ASCII whitespace denotes exactly `[EOF]`.
pub proof fn lemma_tokenize_whitespace(s: Seq<u8>)
    requires
        forall|k: int| 0 <= k < s.len() ==> is_ws(s[k]),
    ensures
        scan_tokens(s, 0) == Ok::<_, LexerError>(seq![TokenModel::EOF]),
{
    lemma_ws_only_from(s, 0);
}

/// A digit string within the 64-bit signed range denotes exactly
/// `[Int(value), EOF]`, the value read in base ten.
pub proof fn lemma_tokenize_int(s: Seq<u8>)
    requires
        s.len() > 0,
        all_digits(s),
        digits_value(s) <= i64::MAX,
    ensures
        scan_tokens(s, 0) == Ok::<_, LexerError>(
            seq![TokenModel::Int(digits_value(s)), TokenModel::EOF],
        ),
{
    assert(is_digit(s[0]));
    assert(forall|k: int| 1 <= k < s.len() ==> is_digit(s[k]) && plain_byte(s[k]) && s[k] != 0x2e);
    lemma_scan_number_run(s, 1, s.len() as int, seq![s[0]], false);
    assert(seq![s[0]] + s.subrange(1, s.len() as int) =~= s);
    assert(!(exists|k: int| 1 <= k < s.len() && s[k] == 0x2e));
    assert(scan_number(s, 1, seq![s[0]], false) == Ok::<_, LexerError>(
        (s, false, s.len() as int),
    ));
    assert(scan_tokens(s, s.len() as int) == Ok::<_, LexerError>(seq![TokenModel::EOF]));
    assert(seq![TokenModel::Int(digits_value(s))] + seq![TokenModel::EOF] =~= seq![
        TokenModel::Int(digits_value(s)),
        TokenModel::EOF,
    ]);
}

proof fn lemma_digit_run_end_facts(s: Seq<u8>, i: int)
    requires
        0 <= i <= s.len(),
    ensures
        i <= digit_run_end(s, i) <= s.len(),
        forall|k: int| i <= k < digit_run_end(s, i) ==> is_digit(s[k]),
        digit_run_end(s, i) < s.len() ==> !is_digit(s[digit_run_end(s, i)]),
    decreases s.len() - i,
{
    if i < s.len() && is_digit(s[i]) {
        lemma_digit_run_end_facts(s, i + 1);
    }
}

/// Byte classification of a well-formed float literal: every byte is plain,
/// and its single dot stands exactly at the end of the leading digit run.
proof fn lemma_float_lit_bytes(s: Seq<u8>)
    requires
        valid_float_lit(s),
    ensures
        forall|k: int| 0 <= k < s.len() ==> plain_byte(s[k]),
        forall|k: int| 0 <= k < s.len() && s[k] == 0x2e ==> k == digit_run_end(s, 0),
{
    let d = digit_run_end(s, 0);
    lemma_digit_run_end_facts(s, 0);
    let f = digit_run_end(s, d + 1);
    lemma_digit_run_end_facts(s, d + 1);
    if f == s.len() {
        assert forall|k: int| 0 <= k < s.len() implies plain_byte(s[k]) && (s[k] == 0x2e ==> k
            == d) by {
            if k < d {
                assert(is_digit(s[k]));
            } else if k == d {
            } else {
                assert(is_digit(s[k]));
            }
        }
    } else {
        let j = if f + 1 < s.len() && (s[f + 1] == 0x2b || s[f + 1] == 0x2d) {
            f + 2
        } else {
            f + 1
        };
        lemma_digit_run_end_facts(s, j);
        assert(digit_run_end(s, j) == s.len());
        assert forall|k: int| 0 <= k < s.len() implies plain_byte(s[k]) && (s[k] == 0x2e ==> k
            == d) by {
            if k < d {
                assert(is_digit(s[k]));
            } else if k == d {
            } else if k < f {
                assert(is_digit(s[k]));
            } else if k == f {
                assert(s[k] == 0x65 || s[k] == 0x45);
            } else if k < j {
                assert(s[k] == 0x2b || s[k] == 0x2d);
            } else {
                assert(is_digit(s[k]));
            }
        }
    }
}

/// A well-formed float text — digits with a single dot and an optional
/// exponent — denotes exactly `[Float(text), EOF]`, the literal kept
/// verbatim.
pub proof fn lemma_tokenize_float(s: Seq<u8>)
    requires
        valid_float_lit(s),
    ensures
        scan_tokens(s, 0) == Ok::<_, LexerError>(seq![TokenModel::Float(s), TokenModel::EOF]),
{
    let d = digit_run_end(s, 0);
    lemma_digit_run_end_facts(s, 0);
    lemma_float_lit_bytes(s);
    let c = s[0];
    if d == 0 {
        assert(c == 0x2e);
    } else {
        assert(is_digit(c));
    }
    lemma_scan_number_run(s, 1, s.len() as int, seq![c], c == 0x2e);
    assert(seq![c] + s.subrange(1, s.len() as int) =~= s);
    if d == 0 {
        assert(forall|k: int| 1 <= k < s.len() ==> s[k] != 0x2e);
    } else {
        assert(c != 0x2e);
        assert(1 <= d < s.len() && s[d] == 0x2e);
    }
    assert(scan_number(s, 1, seq![c], c == 0x2e) == Ok::<_, LexerError>(
        (s, true, s.len() as int),
    ));
    assert(number_token(s, true) == Ok::<_, LexerError>(TokenModel::Float(s)));
    assert(scan_tokens(s, s.len() as int) == Ok::<_, LexerError>(seq![TokenModel::EOF]));
    assert(seq![TokenModel::Float(s)] + seq![TokenModel::EOF] =~= seq![
        TokenModel::Float(s),
        TokenModel::EOF,
    ]);
}

/// A literal of digits and dots holding two or more dots is rejected with
/// `InvalidNumber`; `p` and `q` point at two of its dots.
pub proof fn lemma_tokenize_two_dots(s: Seq<u8>, p: int, q: int)
    requires
        forall|k: int| 0 <= k < s.len() ==> is_digit(s[k]) || s[k] == 0x2e,
        0 <= p < q < s.len(),
        s[p] == 0x2e,
        s[q] == 0x2e,
    ensures
        scan_tokens(s, 0) == Err::<Seq<TokenModel>, LexerError>(LexerError::InvalidNumber),
{
    assert(forall|k: int| 0 <= k < s.len() ==> plain_byte(s[k]));
    if s[0] == 0x2e {
        assert(1 <= q < s.len());
        lemma_scan_number_second_dot(s, 1, seq![s[0]], q);
    } else {
        assert(is_digit(s[0]));
        assert(p >= 1);
        lemma_scan_number_two_dots(s, 1, seq![s[0]], p, q);
    }
}

/// The canonical decimal text of a non-negative integer.
pub open spec fn int_text(v: int) -> Seq<u8>
    decreases v,
{
    if v < 0 {
        Seq::empty()
    } else if v < 10 {
        seq![(0x30 + v) as u8]
    } else {
        int_text(v / 10).push((0x30 + v % 10) as u8)
    }
}

proof fn lemma_int_text_value(v: int)
    requires
        v >= 0,
    ensures
        int_text(v).len() >= 1,
        all_digits(int_text(v)),
        digits_value(int_text(v)) == v,
    decreases v,
{
    if v < 10 {
        assert(int_text(v).drop_last() =~= Seq::<u8>::empty());
        assert((0x30 + v) as u8 == 0x30 + v);
        assert(digits_value(int_text(v)) == digits_value(Seq::<u8>::empty()) * 10 + ((0x30 + v) as u8
            - 0x30));
    } else {
        lemma_fundamental_div_mod(v, 10);
        lemma_int_text_value(v / 10);
        assert(int_text(v).drop_last() =~= int_text(v / 10));
        assert(0 <= v % 10 < 10);
        assert(int_text(v).last() == (0x30 + v % 10) as u8);
        assert((0x30 + v % 10) as u8 - 0x30 == v % 10);
        assert(digits_value(int_text(v)) == digits_value(int_text(v / 10)) * 10 + (v % 10));
    }
}

/// Well-formedness of a token for serialization: exactly the shapes the
/// scanner itself can emit, without `EOF` and without `String`.
pub open spec fn wf_token(t: TokenModel) -> bool {
    match t {
        TokenModel::Int(v) => 0 <= v <= i64::MAX,
        TokenModel::Float(lit) => valid_float_lit(lit),
        TokenModel::Symbol(name) => forall|k: int| 0 <= k < name.len() ==> plain_byte(name[k]),
        TokenModel::Function(name) => {
            &&& name.len() > 0
            &&& name[0] < 0x80
            &&& !is_ws(name[0])
            &&& !is_digit(name[0])
            &&& name[0] != 0x2e
            &&& name[0] != 0x27
            &&& name[0] != 0x22
            &&& name[0] != 0x7b
            &&& name[0] != 0x7d
            &&& forall|k: int| 0 <= k < name.len() ==> plain_byte(name[k])
        },
        TokenModel::OpeningBrace => true,
        TokenModel::ClosingBrace => true,
        TokenModel::EOF => false,
        TokenModel::String(_) => false,
    }
}

/// The canonical textual form of a token.
pub open spec fn token_text(t: TokenModel) -> Seq<u8> {
    match t {
        TokenModel::Int(v) => int_text(v),
        TokenModel::Float(lit) => lit,
        TokenModel::Symbol(name) => seq![0x27u8] + name,
        TokenModel::Function(name) => name,
        TokenModel::OpeningBrace => seq![0x7bu8],
        TokenModel::ClosingBrace => seq![0x7du8],
        TokenModel::EOF => Seq::empty(),
        TokenModel::String(text) => seq![0x22u8] + text + seq![0x22u8],
    }
}

/// A token sequence re-serialized to text, the tokens separated by single
/// spaces.
pub open spec fn serialize(ts: Seq<TokenModel>) -> Seq<u8>
    decreases ts.len(),
{
    if ts.len() == 0 {
        Seq::empty()
    } else if ts.len() == 1 {
        token_text(ts[0])
    } else {
        token_text(ts[0]) + seq![0x20u8] + serialize(ts.drop_first())
    }
}

/// The symbol scan over a run of body bytes ending at a terminator: it
/// accumulates the run verbatim and leaves the terminator unconsumed.
proof fn lemma_scan_symbol_run(s: Seq<u8>, i: int, j: int, name: Seq<u8>)
    requires
        0 <= i <= j <= s.len(),
        forall|k: int| i <= k < j ==> plain_byte(s[k]),
        j == s.len() || is_ws(s[j]) || is_exit(s[j]),
    ensures
        scan_symbol(s, i, name) == Ok::<_, LexerError>((name + s.subrange(i, j), j)),
    decreases j - i,
{
    if i == j {
        assert(name + s.subrange(i, j) =~= name);
    } else {
        assert(plain_byte(s[i]));
        lemma_scan_symbol_run(s, i + 1, j, name.push(s[i]));
        assert(name.push(s[i]) + s.subrange(i + 1, j) =~= name + s.subrange(i, j));
    }
}

/// Scanning one serialized token: at position `i` the text of a well-formed
/// token, followed by the end of input or a whitespace separator, yields
/// exactly that token and leaves the scan at the end of its text.
proof fn lemma_scan_one(s: Seq<u8>, i: int, t: TokenModel)
    requires
        wf_token(t),
        0 <= i,
        i + token_text(t).len() <= s.len(),
        s.subrange(i, i + token_text(t).len() as int) == token_text(t),
        i + token_text(t).len() == s.len() || is_ws(s[i + token_text(t).len()]),
    ensures
        scan_tokens(s, i) == with_prefix(
            seq![t],
            scan_tokens(s, i + token_text(t).len() as int),
        ),
{
    let text = token_text(t);
    let tl = text.len() as int;
    let e = i + tl;
    assert forall|k: int| 0 <= k < tl implies s[i + k] == text[k] by {
        assert(s.subrange(i, e)[k] == s[i + k]);
    }
    match t {
        TokenModel::OpeningBrace => {
            assert(s[i] == 0x7b);
        },
        TokenModel::ClosingBrace => {
            assert(s[i] == 0x7d);
        },
        TokenModel::Int(v) => {
            lemma_int_text_value(v);
            assert(s[i] == text[0]);
            assert(is_digit(s[i]));
            assert forall|k: int| i + 1 <= k < e implies is_digit(s[k]) && plain_byte(s[k]) && s[k]
                != 0x2e by {
                assert(s.subrange(i, e)[k - i] == s[k]);
                assert(text[k - i] == s[k]);
                assert(is_digit(text[k - i]));
            }
            lemma_scan_number_run(s, i + 1, e, seq![s[i]], false);
            assert(seq![s[i]] + s.subrange(i + 1, e) =~= s.subrange(i, e));
            assert(!(exists|k: int| i + 1 <= k < e && s[k] == 0x2e));
            assert(scan_number(s, i + 1, seq![s[i]], false) == Ok::<_, LexerError>(
                (
                    text,
                    false,
                    if e < s.len() && is_ws(s[e]) {
                        e + 1
                    } else {
                        e
                    },
                ),
            ));
            assert(number_token(text, false) == Ok::<_, LexerError>(TokenModel::Int(v)));
        },
        TokenModel::Float(lit) => {
            lemma_float_lit_bytes(lit);
            let d = digit_run_end(lit, 0);
            lemma_digit_run_end_facts(lit, 0);
            let c = s[i];
            assert(c == lit[0]);
            if d == 0 {
                assert(c == 0x2e);
            } else {
                assert(is_digit(c));
                assert(c != 0x2e);
            }
            assert forall|k: int| i + 1 <= k < e implies plain_byte(s[k]) && (s[k] == 0x2e ==> k
                == i + d) by {
                assert(s.subrange(i, e)[k - i] == s[k]);
                assert(lit[k - i] == s[k]);
            }
            if d == 0 {
                assert forall|k: int| i + 1 <= k < e implies s[k] != 0x2e by {
                    if s[k] == 0x2e {
                        assert(k == i);
                    }
                }
            } else {
                assert(s.subrange(i, e)[d] == s[i + d]);
                assert(s[i + d] == 0x2e);
                assert(i + 1 <= i + d < e);
            }
            assert forall|p: int, q: int|
                i + 1 <= p < q < e && s[p] == 0x2e implies s[q] != 0x2e by {
                if s[q] == 0x2e {
                    assert(p == i + d && q == i + d);
                }
            }
            lemma_scan_number_run(s, i + 1, e, seq![c], c == 0x2e);
            assert(seq![c] + s.subrange(i + 1, e) =~= s.subrange(i, e));
            assert(scan_number(s, i + 1, seq![c], c == 0x2e) == Ok::<_, LexerError>(
                (
                    lit,
                    true,
                    if e < s.len() && is_ws(s[e]) {
                        e + 1
                    } else {
                        e
                    },
                ),
            ));
            assert(number_token(lit, true) == Ok::<_, LexerError>(TokenModel::Float(lit)));
        },
        TokenModel::Symbol(name) => {
            assert(s[i] == text[0]);
            assert(text[0] == 0x27);
            assert forall|k: int| i + 1 <= k < e implies plain_byte(s[k]) by {
                assert(s.subrange(i, e)[k - i] == s[k]);
                assert(text[k - i] == s[k]);
                assert(text[k - i] == name[k - i - 1]);
            }
            lemma_scan_symbol_run(s, i + 1, e, Seq::empty());
            assert(Seq::<u8>::empty() + s.subrange(i + 1, e) =~= s.subrange(i + 1, e));
            assert forall|k: int| 0 <= k < name.len() implies s.subrange(i + 1, e)[k]
                == name[k] by {
                assert(s.subrange(i + 1, e)[k] == s[i + 1 + k]);
                assert(s[i + 1 + k] == text[k + 1]);
            }
            assert(s.subrange(i + 1, e) =~= name);
            assert(scan_symbol(s, i + 1, Seq::empty()) == Ok::<_, LexerError>((name, e)));
        },
        TokenModel::Function(name) => {
            let c = s[i];
            assert(c == name[0]);
            assert forall|k: int| i + 1 <= k < e implies plain_byte(s[k]) by {
                assert(s.subrange(i, e)[k - i] == s[k]);
                assert(text[k - i] == s[k]);
            }
            lemma_scan_symbol_run(s, i + 1, e, seq![c]);
            assert(seq![c] + s.subrange(i + 1, e) =~= s.subrange(i, e));
            assert(scan_symbol(s, i + 1, seq![c]) == Ok::<_, LexerError>((name, e)));
        },
        TokenModel::EOF => {
            assert(false);
        },
        TokenModel::String(_) => {
            assert(false);
        },
    }
}

proof fn lemma_round_trip_from(s: Seq<u8>, i: int, ts: Seq<TokenModel>)
    requires
        0 <= i <= s.len(),
        s.subrange(i, s.len() as int) == serialize(ts),
        forall|k: int| 0 <= k < ts.len() ==> wf_token(ts[k]),
    ensures
        scan_tokens(s, i) == Ok::<_, LexerError>(ts + seq![TokenModel::EOF]),
    decreases ts.len(),
{
    if ts.len() == 0 {
        assert(s.subrange(i, s.len() as int).len() == 0);
        assert(i == s.len());
        assert(ts + seq![TokenModel::EOF] =~= seq![TokenModel::EOF]);
    } else if ts.len() == 1 {
        let t = ts[0];
        assert(wf_token(t));
        let tl = token_text(t).len() as int;
        assert(s.len() - i == tl);
        assert(s.subrange(i, i + tl) == token_text(t));
        lemma_scan_one(s, i, t);
        assert(scan_tokens(s, s.len() as int) == Ok::<_, LexerError>(seq![TokenModel::EOF]));
        assert(seq![t] + seq![TokenModel::EOF] =~= ts + seq![TokenModel::EOF]);
    } else {
        let t = ts[0];
        assert(wf_token(t));
        let rest = ts.drop_first();
        let a = token_text(t);
        let tl = a.len() as int;
        let e = i + tl;
        let b = serialize(rest);
        assert(serialize(ts) == a + seq![0x20u8] + b);
        assert(s.len() as int - i == tl + 1 + b.len());
        assert forall|k: int| 0 <= k < tl implies s.subrange(i, e)[k] == a[k] by {
            assert(s.subrange(i, s.len() as int)[k] == s[i + k]);
            assert((a + seq![0x20u8] + b)[k] == a[k]);
            assert(s.subrange(i, e)[k] == s[i + k]);
        }
        assert(s.subrange(i, e) =~= a);
        assert(s.subrange(i, s.len() as int)[tl] == s[e]);
        assert((a + seq![0x20u8] + b)[tl] == 0x20);
        assert(is_ws(s[e]));
        lemma_scan_one(s, i, t);
        assert forall|k: int| 0 <= k < b.len() implies s.subrange(e + 1, s.len() as int)[k]
            == b[k] by {
            assert(s.subrange(i, s.len() as int)[tl + 1 + k] == s[i + tl + 1 + k]);
            assert((a + seq![0x20u8] + b)[tl + 1 + k] == b[k]);
            assert(s.subrange(e + 1, s.len() as int)[k] == s[e + 1 + k]);
        }
        assert(s.subrange(e + 1, s.len() as int) =~= b);
        assert forall|k: int| 0 <= k < rest.len() implies wf_token(rest[k]) by {
            assert(rest[k] == ts[k + 1]);
        }
        lemma_round_trip_from(s, e + 1, rest);
        assert(scan_tokens(s, e) == scan_tokens(s, e + 1));
        assert(seq![t] + (rest + seq![TokenModel::EOF]) =~= ts + seq![TokenModel::EOF]);
    }
}

/// Round trip: any sequence of well-formed `Int`, `Float`, `Symbol`,
/// `Function` and brace tokens, re-serialized to text with single-space
/// separators, tokenizes back to exactly the same sequence plus a trailing
/// `EOF`.
pub proof fn lemma_round_trip(ts: Seq<TokenModel>)
    requires
        forall|k: int| 0 <= k < ts.len() ==> wf_token(ts[k]),
    ensures
        scan_tokens(serialize(ts), 0) == Ok::<_, LexerError>(ts + seq![TokenModel::EOF]),
{
    let s = serialize(ts);
    assert(s.subrange(0, s.len() as int) =~= s);
    lemma_round_trip_from(s, 0, ts);
}

proof fn lemma_cons_keeps_eof_last(t: TokenModel, rest: Seq<TokenModel>)
    requires
        t != TokenModel::EOF,
        rest.len() >= 1,
        rest.last() == TokenModel::EOF,
        forall|k: int| 0 <= k < rest.len() - 1 ==> rest[k] != TokenModel::EOF,
    ensures
        (seq![t] + rest).len() >= 1,
        (seq![t] + rest).last() == TokenModel::EOF,
        forall|k: int| 0 <= k < (seq![t] + rest).len() - 1 ==> (seq![t] + rest)[k]
            != TokenModel::EOF,
{
    let ts = seq![t] + rest;
    assert(ts.last() == rest.last());
    assert forall|k: int| 0 <= k < ts.len() - 1 implies ts[k] != TokenModel::EOF by {
        if k == 0 {
            assert(ts[0] == t);
        } else {
            assert(ts[k] == rest[k - 1]);
        }
    }
}

/// A successful scan never yields an empty sequence: its one `EOF` sentinel
/// stands exactly at the end.
pub proof fn lemma_scan_tokens_eof(s: Seq<u8>, i: int)
    requires
        0 <= i <= s.len(),
    ensures
        scan_tokens(s, i) matches Ok(ts) ==> {
            &&& ts.len() >= 1
            &&& ts.last() == TokenModel::EOF
            &&& forall|k: int| 0 <= k < ts.len() - 1 ==> ts[k] != TokenModel::EOF
        },
    decreases s.len() - i,
{
    if i < s.len() {
        let c = s[i];
        if is_ws(c) {
            lemma_scan_tokens_eof(s, i + 1);
        } else if is_digit(c) || c == 0x2e {
            lemma_scan_number_pos(s, i + 1, seq![c], c == 0x2e);
            match scan_number(s, i + 1, seq![c], c == 0x2e) {
                Ok(r) => {
                    lemma_scan_tokens_eof(s, r.2);
                    match number_token(r.0, r.1) {
                        Ok(t) => match scan_tokens(s, r.2) {
                            Ok(rest) => {
                                lemma_cons_keeps_eof_last(t, rest);
                            },
                            Err(_) => {},
                        },
                        Err(_) => {},
                    }
                },
                Err(_) => {},
            }
        } else if c == 0x27 {
            lemma_scan_symbol_pos(s, i + 1, Seq::empty());
            match scan_symbol(s, i + 1, Seq::empty()) {
                Ok(r) => {
                    lemma_scan_tokens_eof(s, r.1);
                    match scan_tokens(s, r.1) {
                        Ok(rest) => {
                            lemma_cons_keeps_eof_last(TokenModel::Symbol(r.0), rest);
                        },
                        Err(_) => {},
                    }
                },
                Err(_) => {},
            }
        } else if c == 0x22 {
            lemma_scan_string_pos(s, i + 1, Seq::empty());
            match scan_string(s, i + 1, Seq::empty()) {
                Ok(r) => {
                    lemma_scan_tokens_eof(s, r.1);
                    match scan_tokens(s, r.1) {
                        Ok(rest) => {
                            lemma_cons_keeps_eof_last(TokenModel::String(r.0), rest);
                        },
                        Err(_) => {},
                    }
                },
                Err(_) => {},
            }
        } else if c == 0x7b {
            lemma_scan_tokens_eof(s, i + 1);
            match scan_tokens(s, i + 1) {
                Ok(rest) => {
                    lemma_cons_keeps_eof_last(TokenModel::OpeningBrace, rest);
                },
                Err(_) => {},
            }
        } else if c == 0x7d {
            lemma_scan_tokens_eof(s, i + 1);
            match scan_tokens(s, i + 1) {
                Ok(rest) => {
                    lemma_cons_keeps_eof_last(TokenModel::ClosingBrace, rest);
                },
                Err(_) => {},
            }
        } else if c < 0x80 {
            lemma_scan_symbol_pos(s, i + 1, seq![c]);
            match scan_symbol(s, i + 1, seq![c]) {
                Ok(r) => {
                    lemma_scan_tokens_eof(s, r.1);
                    match scan_tokens(s, r.1) {
                        Ok(rest) => {
                            lemma_cons_keeps_eof_last(TokenModel::Function(r.0), rest);
                        },
                        Err(_) => {},
                    }
                },
                Err(_) => {},
            }
        }
    }
}

} // verus!
