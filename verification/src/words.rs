//! Words of the evaluator: lower-casing, the closed set of reserved words,
//! and the numeric-literal grammar (the decimal forms a double accepts,
//! including sign, decimal point, exponent, and the infinity/NaN names).

use vstd::prelude::*;
use crate::scalar::{INF_BITS, NAN_BITS, NEG_INF_BITS, NEG_NAN_BITS};
use rustc_apfloat::Float;
use core::str::FromStr;

verus! {

/// ASCII lower-casing of one byte.
pub open spec fn lower_byte(b: u8) -> u8 {
    if 65 <= b <= 90 {
        (b + 32) as u8
    } else {
        b
    }
}

/// ASCII lower-casing of a token.
pub open spec fn lower_token(t: Seq<u8>) -> Seq<u8> {
    t.map_values(|b: u8| lower_byte(b))
}

/// Lower-cases a token byte-wise.
pub fn to_lower(t: &[u8]) -> (r: Vec<u8>)
    ensures
        r@ == lower_token(t@),
{
    let mut out: Vec<u8> = Vec::new();
    let mut i: usize = 0;
    while i < t.len()
        invariant
            0 <= i <= t@.len(),
            out@ =~= lower_token(t@).take(i as int),
        decreases t@.len() - i,
    {
        let b = t[i];
        if 65 <= b && b <= 90 {
            out.push(b + 32);
        } else {
            out.push(b);
        }
        proof {
            assert(out@ =~= lower_token(t@).take(i + 1 as int));
        }
        i += 1;
    }
    proof {
        assert(lower_token(t@).take(t@.len() as int) =~= lower_token(t@));
    }
    out
}

/// The dispatch classes of the reserved words; `Other` stands for every
/// token outside the closed set.
#[derive(Clone, Copy, PartialEq, Eq, Structural, Debug)]
pub enum Word {
    Plus,
    Minus,
    Times,
    Divide,
    Modulo,
    Power,
    Factorial,
    PiConst,
    EConst,
    ExpFn,
    SinFn,
    CosFn,
    SwapOp,
    PopOp,
    AbsFn,
    RealFn,
    ImagUnit,
    ImagFn,
    Other,
}

/// The reserved word a token denotes.  Byte values spell the words out:
/// `+ - * / ÷ % mod ^ ** pow ! fac pi sin sine cos cosine e exp swap pop
/// abs real re i imaginary im`; anything else is `Other`.
pub open spec fn spec_word_of(t: Seq<u8>) -> Word {
    if t == seq![43u8] {
        Word::Plus  // +
    } else if t == seq![45u8] {
        Word::Minus  // -
    } else if t == seq![42u8] {
        Word::Times  // *
    } else if t == seq![47u8] || t == seq![195u8, 183u8] {
        Word::Divide  // / and the division sign
    } else if t == seq![37u8] || t == seq![109u8, 111u8, 100u8] {
        Word::Modulo  // % mod
    } else if t == seq![94u8] || t == seq![42u8, 42u8] || t == seq![112u8, 111u8, 119u8] {
        Word::Power  // ^ ** pow
    } else if t == seq![33u8] || t == seq![102u8, 97u8, 99u8] {
        Word::Factorial  // ! fac
    } else if t == seq![112u8, 105u8] {
        Word::PiConst  // pi
    } else if t == seq![101u8] {
        Word::EConst  // e
    } else if t == seq![101u8, 120u8, 112u8] {
        Word::ExpFn  // exp
    } else if t == seq![115u8, 105u8, 110u8] || t == seq![115u8, 105u8, 110u8, 101u8] {
        Word::SinFn  // sin sine
    } else if t == seq![99u8, 111u8, 115u8] || t == seq![
        99u8,
        111u8,
        115u8,
        105u8,
        110u8,
        101u8,
    ] {
        Word::CosFn  // cos cosine
    } else if t == seq![115u8, 119u8, 97u8, 112u8] {
        Word::SwapOp  // swap
    } else if t == seq![112u8, 111u8, 112u8] {
        Word::PopOp  // pop
    } else if t == seq![97u8, 98u8, 115u8] {
        Word::AbsFn  // abs
    } else if t == seq![114u8, 101u8, 97u8, 108u8] || t == seq![114u8, 101u8] {
        Word::RealFn  // real re
    } else if t == seq![105u8] {
        Word::ImagUnit  // i
    } else if t == seq![105u8, 109u8, 97u8, 103u8, 105u8, 110u8, 97u8, 114u8, 121u8] || t
        == seq![105u8, 109u8] {
        Word::ImagFn  // imaginary im
    } else {
        Word::Other
    }
}

/// Membership in the closed reserved-word set.
pub open spec fn is_reserved(t: Seq<u8>) -> bool {
    spec_word_of(t) != Word::Other
}

fn eq1(t: &[u8], a0: u8) -> (r: bool)
    ensures
        r == (t@ == seq![a0]),
{
    if t.len() == 1 && t[0] == a0 {
        proof {
            assert(t@ =~= seq![a0]);
        }
        true
    } else {
        false
    }
}

fn eq2(t: &[u8], a0: u8, a1: u8) -> (r: bool)
    ensures
        r == (t@ == seq![a0, a1]),
{
    if t.len() == 2 && t[0] == a0 && t[1] == a1 {
        proof {
            assert(t@ =~= seq![a0, a1]);
        }
        true
    } else {
        false
    }
}

fn eq3(t: &[u8], a0: u8, a1: u8, a2: u8) -> (r: bool)
    ensures
        r == (t@ == seq![a0, a1, a2]),
{
    if t.len() == 3 && t[0] == a0 && t[1] == a1 && t[2] == a2 {
        proof {
            assert(t@ =~= seq![a0, a1, a2]);
        }
        true
    } else {
        false
    }
}

fn eq4(t: &[u8], a0: u8, a1: u8, a2: u8, a3: u8) -> (r: bool)
    ensures
        r == (t@ == seq![a0, a1, a2, a3]),
{
    if t.len() == 4 && t[0] == a0 && t[1] == a1 && t[2] == a2 && t[3] == a3 {
        proof {
            assert(t@ =~= seq![a0, a1, a2, a3]);
        }
        true
    } else {
        false
    }
}

fn eq6(t: &[u8], a0: u8, a1: u8, a2: u8, a3: u8, a4: u8, a5: u8) -> (r: bool)
    ensures
        r == (t@ == seq![a0, a1, a2, a3, a4, a5]),
{
    if t.len() == 6 && t[0] == a0 && t[1] == a1 && t[2] == a2 && t[3] == a3 && t[4] == a4 && t[5]
        == a5 {
        proof {
            assert(t@ =~= seq![a0, a1, a2, a3, a4, a5]);
        }
        true
    } else {
        false
    }
}

fn eq9(t: &[u8], a0: u8, a1: u8, a2: u8, a3: u8, a4: u8, a5: u8, a6: u8, a7: u8, a8: u8) -> (r:
    bool)
    ensures
        r == (t@ == seq![a0, a1, a2, a3, a4, a5, a6, a7, a8]),
{
    if t.len() == 9 && t[0] == a0 && t[1] == a1 && t[2] == a2 && t[3] == a3 && t[4] == a4 && t[5]
        == a5 && t[6] == a6 && t[7] == a7 && t[8] == a8 {
        proof {
            assert(t@ =~= seq![a0, a1, a2, a3, a4, a5, a6, a7, a8]);
        }
        true
    } else {
        false
    }
}

/// Classifies a token, as `spec_word_of` states.
pub fn word_of(t: &[u8]) -> (r: Word)
    ensures
        r == spec_word_of(t@),
{
    if eq1(t, 43) {
        Word::Plus
    } else if eq1(t, 45) {
        Word::Minus
    } else if eq1(t, 42) {
        Word::Times
    } else if eq1(t, 47) || eq2(t, 195, 183) {
        Word::Divide
    } else if eq1(t, 37) || eq3(t, 109, 111, 100) {
        Word::Modulo
    } else if eq1(t, 94) || eq2(t, 42, 42) || eq3(t, 112, 111, 119) {
        Word::Power
    } else if eq1(t, 33) || eq3(t, 102, 97, 99) {
        Word::Factorial
    } else if eq2(t, 112, 105) {
        Word::PiConst
    } else if eq1(t, 101) {
        Word::EConst
    } else if eq3(t, 101, 120, 112) {
        Word::ExpFn
    } else if eq3(t, 115, 105, 110) || eq4(t, 115, 105, 110, 101) {
        Word::SinFn
    } else if eq3(t, 99, 111, 115) || eq6(t, 99, 111, 115, 105, 110, 101) {
        Word::CosFn
    } else if eq4(t, 115, 119, 97, 112) {
        Word::SwapOp
    } else if eq3(t, 112, 111, 112) {
        Word::PopOp
    } else if eq3(t, 97, 98, 115) {
        Word::AbsFn
    } else if eq4(t, 114, 101, 97, 108) || eq2(t, 114, 101) {
        Word::RealFn
    } else if eq1(t, 105) {
        Word::ImagUnit
    } else if eq9(t, 105, 109, 97, 103, 105, 110, 97, 114, 121) || eq2(t, 105, 109) {
        Word::ImagFn
    } else {
        Word::Other
    }
}

/// An ASCII decimal digit.
pub open spec fn is_digit(b: u8) -> bool {
    48 <= b <= 57
}

/// Every byte of the token is a decimal digit.
pub open spec fn all_digits(t: Seq<u8>) -> bool {
    forall|i: int| 0 <= i < t.len() ==> is_digit(#[trigger] t[i])
}

/// A mantissa: plain digits, or digits around one decimal point, with at
/// least one digit present.
pub open spec fn is_mantissa(t: Seq<u8>) -> bool {
    ||| (t.len() > 0 && all_digits(t))
    ||| (t.len() > 1 && exists|i: int|
        0 <= i < t.len() && #[trigger] t[i] == 46 && all_digits(t.take(i)) && all_digits(
            t.skip(i + 1),
        ))
}

/// The token with one leading `+` or `-` removed, if present.
pub open spec fn strip_sign(t: Seq<u8>) -> Seq<u8> {
    if t.len() > 0 && (t[0] == 43 || t[0] == 45) {
        t.skip(1)
    } else {
        t
    }
}

/// An exponent part: an optional sign, then at least one digit.
pub open spec fn is_exponent(t: Seq<u8>) -> bool {
    strip_sign(t).len() > 0 && all_digits(strip_sign(t))
}

/// A decimal number body: a mantissa, optionally followed by `e` and an
/// exponent part.
pub open spec fn is_decimal(t: Seq<u8>) -> bool {
    ||| is_mantissa(t)
    ||| (exists|i: int|
        0 <= i < t.len() && #[trigger] t[i] == 101 && is_mantissa(t.take(i)) && is_exponent(
            t.skip(i + 1),
        ))
}

/// One of the named specials a double parses: `inf`, `infinity`, `nan`
/// (tokens are already lower-cased).
pub open spec fn is_special(t: Seq<u8>) -> bool {
    ||| t == seq![105u8, 110u8, 102u8]
    ||| t == seq![105u8, 110u8, 102u8, 105u8, 110u8, 105u8, 116u8, 121u8]
    ||| t == seq![110u8, 97u8, 110u8]
}

/// A numeric literal: an optional sign, then a special name or a decimal
/// number body.
pub open spec fn is_number(t: Seq<u8>) -> bool {
    ||| is_special(strip_sign(t))
    ||| is_decimal(strip_sign(t))
}

/// The double that a decimal numeric token parses to, rounded to nearest.
pub uninterp spec fn lit_bits(t: Seq<u8>) -> u64;

/// The double encoded by a numeric token: the named specials go to the
/// infinity and NaN patterns of their sign, and every decimal form to its
/// correctly rounded value `lit_bits`.
pub open spec fn num_bits(t: Seq<u8>) -> u64
    recommends
        is_number(t),
{
    let neg = t.len() > 0 && t[0] == 45;
    let body = strip_sign(t);
    if body == seq![105u8, 110u8, 102u8] || body == seq![
        105u8,
        110u8,
        102u8,
        105u8,
        110u8,
        105u8,
        116u8,
        121u8,
    ] {
        if neg {
            NEG_INF_BITS
        } else {
            INF_BITS
        }
    } else if body == seq![110u8, 97u8, 110u8] {
        if neg {
            NEG_NAN_BITS
        } else {
            NAN_BITS
        }
    } else {
        lit_bits(t)
    }
}

fn eq8(t: &[u8], a0: u8, a1: u8, a2: u8, a3: u8, a4: u8, a5: u8, a6: u8, a7: u8) -> (r: bool)
    ensures
        r == (t@ == seq![a0, a1, a2, a3, a4, a5, a6, a7]),
{
    if t.len() == 8 && t[0] == a0 && t[1] == a1 && t[2] == a2 && t[3] == a3 && t[4] == a4 && t[5]
        == a5 && t[6] == a6 && t[7] == a7 {
        proof {
            assert(t@ =~= seq![a0, a1, a2, a3, a4, a5, a6, a7]);
        }
        true
    } else {
        false
    }
}

/// Copies the byte range `[from, to)` of a token.
fn slice_range(t: &[u8], from: usize, to: usize) -> (r: Vec<u8>)
    requires
        from <= to <= t@.len(),
    ensures
        r@ == t@.subrange(from as int, to as int),
{
    let mut out: Vec<u8> = Vec::new();
    let mut i: usize = from;
    while i < to
        invariant
            from <= i <= to <= t@.len(),
            out@ =~= t@.subrange(from as int, i as int),
        decreases to - i,
    {
        out.push(t[i]);
        proof {
            assert(out@ =~= t@.subrange(from as int, i + 1 as int));
        }
        i += 1;
    }
    out
}

/// Finds the first occurrence of byte `b`.
fn find_byte(t: &[u8], b: u8) -> (r: Option<usize>)
    ensures
        match r {
            Some(i) => 0 <= i < t@.len() && t@[i as int] == b && forall|j: int|
                0 <= j < i ==> t@[j] != b,
            None => forall|j: int| 0 <= j < t@.len() ==> t@[j] != b,
        },
{
    let mut i: usize = 0;
    while i < t.len()
        invariant
            0 <= i <= t@.len(),
            forall|j: int| 0 <= j < i ==> t@[j] != b,
        decreases t@.len() - i,
    {
        if t[i] == b {
            return Some(i);
        }
        i += 1;
    }
    None
}

/// Decides `all_digits` of the whole token.
fn check_digits(t: &[u8]) -> (r: bool)
    ensures
        r == all_digits(t@),
{
    let mut i: usize = 0;
    while i < t.len()
        invariant
            0 <= i <= t@.len(),
            forall|j: int| 0 <= j < i ==> is_digit(#[trigger] t@[j]),
        decreases t@.len() - i,
    {
        let b = t[i];
        if b < 48 || b > 57 {
            return false;
        }
        i += 1;
    }
    true
}

/// Every byte of a mantissa is a digit or the decimal point.
proof fn lemma_mantissa_byte(t: Seq<u8>, i: int)
    requires
        is_mantissa(t),
        0 <= i < t.len(),
    ensures
        is_digit(t[i]) || t[i] == 46,
{
    if t.len() > 0 && all_digits(t) {
    } else {
        let d = choose|d: int|
            0 <= d < t.len() && #[trigger] t[d] == 46 && all_digits(t.take(d)) && all_digits(
                t.skip(d + 1),
            );
        if i < d {
            assert(t.take(d)[i] == t[i]);
        } else if i > d {
            assert(t.skip(d + 1)[i - d - 1] == t[i]);
        }
    }
}

/// Decides `is_mantissa` of the whole token.
fn is_mantissa_token(t: &[u8]) -> (r: bool)
    ensures
        r == is_mantissa(t@),
{
    match find_byte(t, 46) {
        None => {
            let ok = t.len() > 0 && check_digits(t);
            proof {
                if !ok && is_mantissa(t@) {
                    let d = choose|d: int|
                        0 <= d < t@.len() && #[trigger] t@[d] == 46 && all_digits(t@.take(d))
                            && all_digits(t@.skip(d + 1));
                }
            }
            ok
        },
        Some(i) => {
            let n = t.len();
            assert(i < n);
            let head = slice_range(t, 0, i);
            let tail = slice_range(t, i + 1, n);
            let ok = t.len() > 1 && check_digits(&head) && check_digits(&tail);
            proof {
                assert(head@ =~= t@.take(i as int));
                assert(tail@ =~= t@.skip(i + 1));
                if ok {
                    assert(is_mantissa(t@));
                } else if is_mantissa(t@) {
                    assert(!(t@.len() > 0 && all_digits(t@))) by {
                        assert(!is_digit(t@[i as int]));
                    }
                    let d = choose|d: int|
                        0 <= d < t@.len() && #[trigger] t@[d] == 46 && all_digits(t@.take(d))
                            && all_digits(t@.skip(d + 1));
                    if d > i {
                        assert(t@.take(d)[i as int] == t@[i as int]);
                        assert(false);
                    } else {
                        assert(d == i);
                        assert(false);
                    }
                }
            }
            ok
        },
    }
}

/// Decides `is_exponent` of the whole token.
fn is_exponent_token(t: &[u8]) -> (r: bool)
    ensures
        r == is_exponent(t@),
{
    let body = if t.len() > 0 && (t[0] == 43 || t[0] == 45) {
        slice_range(t, 1, t.len())
    } else {
        slice_range(t, 0, t.len())
    };
    proof {
        assert(t@.subrange(0, t@.len() as int) =~= t@);
        assert(body@ =~= strip_sign(t@));
    }
    body.len() > 0 && check_digits(&body)
}

/// Decides `is_decimal` of the whole token.
fn is_decimal_token(t: &[u8]) -> (r: bool)
    ensures
        r == is_decimal(t@),
{
    match find_byte(t, 101) {
        None => {
            let ok = is_mantissa_token(t);
            proof {
                if !ok && is_decimal(t@) {
                    let k = choose|k: int|
                        0 <= k < t@.len() && #[trigger] t@[k] == 101 && is_mantissa(t@.take(k))
                            && is_exponent(t@.skip(k + 1));
                }
            }
            ok
        },
        Some(i) => {
            let n = t.len();
            assert(i < n);
            let head = slice_range(t, 0, i);
            let tail = slice_range(t, i + 1, n);
            let ok = is_mantissa_token(&head) && is_exponent_token(&tail);
            proof {
                assert(head@ =~= t@.take(i as int));
                assert(tail@ =~= t@.skip(i + 1));
                if ok {
                    assert(is_decimal(t@));
                } else if is_decimal(t@) {
                    if is_mantissa(t@) {
                        lemma_mantissa_byte(t@, i as int);
                        assert(false);
                    } else {
                        let k = choose|k: int|
                            0 <= k < t@.len() && #[trigger] t@[k] == 101 && is_mantissa(t@.take(k))
                                && is_exponent(t@.skip(k + 1));
                        if k > i {
                            lemma_mantissa_byte(t@.take(k), i as int);
                            assert(false);
                        } else {
                            assert(k == i);
                            assert(false);
                        }
                    }
                }
            }
            ok
        },
    }
}

/// Decides `is_number` of a token.
pub fn is_number_token(t: &[u8]) -> (r: bool)
    ensures
        r == is_number(t@),
{
    let body = if t.len() > 0 && (t[0] == 43 || t[0] == 45) {
        slice_range(t, 1, t.len())
    } else {
        slice_range(t, 0, t.len())
    };
    proof {
        assert(t@.subrange(0, t@.len() as int) =~= t@);
        assert(body@ =~= strip_sign(t@));
    }
    if eq3(&body, 105, 110, 102) || eq8(&body, 105, 110, 102, 105, 110, 105, 116, 121) || eq3(
        &body,
        110,
        97,
        110,
    ) {
        true
    } else {
        is_decimal_token(&body)
    }
}

/// A byte vector's deep view is its view.
pub(crate) proof fn lemma_bytes_deep(v: Vec<u8>)
    ensures
        v.deep_view() =~= v@,
{
}

/// Splitting on single spaces, as the evaluator tokenizes: consecutive
/// separators give empty tokens, and the empty input gives one empty token.
pub open spec fn split_spaces(s: Seq<u8>) -> Seq<Seq<u8>>
    decreases s.len(),
{
    if s.len() == 0 {
        seq![Seq::<u8>::empty()]
    } else if s[0] == 32 {
        seq![Seq::<u8>::empty()] + split_spaces(s.skip(1))
    } else {
        let rest = split_spaces(s.skip(1));
        seq![seq![s[0]] + rest[0]] + rest.skip(1)
    }
}

proof fn lemma_split_len(s: Seq<u8>)
    ensures
        split_spaces(s).len() >= 1,
    decreases s.len(),
{
    if s.len() > 0 {
        lemma_split_len(s.skip(1));
    }
}

proof fn lemma_split_no_space(s: Seq<u8>)
    requires
        forall|i: int| 0 <= i < s.len() ==> s[i] != 32,
    ensures
        split_spaces(s) == seq![s],
    decreases s.len(),
{
    if s.len() > 0 {
        lemma_split_no_space(s.skip(1));
        lemma_split_len(s.skip(1));
        assert(seq![s[0]] + s.skip(1) =~= s);
        assert(split_spaces(s) =~~= seq![s]);
    } else {
        assert(s =~= Seq::<u8>::empty());
        assert(split_spaces(s) =~~= seq![s]);
    }
}

proof fn lemma_split_at_first(s: Seq<u8>, d: int)
    requires
        0 <= d < s.len(),
        s[d] == 32,
        forall|j: int| 0 <= j < d ==> s[j] != 32,
    ensures
        split_spaces(s) == seq![s.take(d)] + split_spaces(s.skip(d + 1)),
    decreases d,
{
    if d == 0 {
        assert(s.take(0) =~= Seq::<u8>::empty());
        assert(split_spaces(s) =~= seq![s.take(0)] + split_spaces(s.skip(1)));
    } else {
        lemma_split_at_first(s.skip(1), d - 1);
        lemma_split_len(s.skip(1).skip(d));
        let rest = split_spaces(s.skip(1));
        assert(rest == seq![s.skip(1).take(d - 1)] + split_spaces(s.skip(1).skip(d)));
        assert(rest[0] == s.skip(1).take(d - 1));
        assert(seq![s[0]] + s.skip(1).take(d - 1) =~= s.take(d));
        assert(rest.skip(1) =~= split_spaces(s.skip(1).skip(d)));
        assert(s.skip(1).skip(d) =~= s.skip(d + 1));
        assert(split_spaces(s) =~= seq![s.take(d)] + split_spaces(s.skip(d + 1)));
    }
}

/// The first space at or after `start`.
fn find_space_from(s: &[u8], start: usize) -> (r: Option<usize>)
    requires
        start <= s@.len(),
    ensures
        match r {
            Some(d) => start <= d < s@.len() && s@[d as int] == 32 && forall|j: int|
                start <= j < d ==> s@[j] != 32,
            None => forall|j: int| start <= j < s@.len() ==> s@[j] != 32,
        },
{
    let mut i: usize = start;
    while i < s.len()
        invariant
            start <= i <= s@.len(),
            forall|j: int| start <= j < i ==> s@[j] != 32,
        decreases s@.len() - i,
    {
        if s[i] == 32 {
            return Some(i);
        }
        i += 1;
    }
    None
}

/// Splits a byte string into its space-delimited tokens.
pub fn split_tokens(s: &[u8]) -> (r: Vec<Vec<u8>>)
    ensures
        r.deep_view() == split_spaces(s@),
{
    let mut out: Vec<Vec<u8>> = Vec::new();
    let mut start: usize = 0;
    proof {
        assert(out.deep_view() =~~= Seq::<Seq<u8>>::empty());
        assert(s@.skip(0) =~= s@);
    }
    loop
        invariant
            0 <= start <= s@.len(),
            split_spaces(s@) == out.deep_view() + split_spaces(s@.skip(start as int)),
        decreases s@.len() - start,
    {
        let ghost out0 = out.deep_view();
        match find_space_from(s, start) {
            Some(d) => {
                let n = s.len();
                assert(d < n);
                let tok = slice_range(s, start, d);
                proof {
                    lemma_split_at_first(s@.skip(start as int), d - start);
                    assert(s@.skip(start as int).take(d - start) =~= tok@);
                    assert(s@.skip(start as int).skip(d - start + 1) =~= s@.skip(d + 1));
                }
                out.push(tok);
                proof {
                    assert forall|x: int| 0 <= x < out@.len() implies out.deep_view()[x] == (
                    out0.push(tok@))[x] by {
                        lemma_bytes_deep(out@[x]);
                    }
                    assert(out.deep_view() =~~= out0.push(tok@));
                    assert(out0.push(tok@) + split_spaces(s@.skip(d + 1)) =~~= out0 + (seq![
                        tok@,
                    ] + split_spaces(s@.skip(d + 1))));
                }
                start = d + 1;
            },
            None => {
                let n = s.len();
                let tok = slice_range(s, start, n);
                proof {
                    lemma_split_no_space(s@.skip(start as int));
                    assert(s@.skip(start as int) =~= tok@);
                }
                out.push(tok);
                proof {
                    assert forall|x: int| 0 <= x < out@.len() implies out.deep_view()[x] == (
                    out0.push(tok@))[x] by {
                        lemma_bytes_deep(out@[x]);
                    }
                    assert(out.deep_view() =~~= out0.push(tok@));
                    assert(out0.push(tok@) =~~= out0 + seq![tok@]);
                }
                return out;
            },
        }
    }
}

/// Relies on rustc_apfloat `Double::from_str`: correctly rounded parsing of
/// a signed decimal token; the result depends on the token's bytes alone.
#[verifier::external_body]
fn parse_decimal(t: &[u8]) -> (r: u64)
    requires
        is_decimal(strip_sign(t@)),
    ensures
        r == lit_bits(t@),
{
    let s = core::str::from_utf8(t).unwrap_or("0");
    match rustc_apfloat::ieee::Double::from_str(s) {
        Ok(d) => d.to_bits() as u64,
        Err(_) => 0,
    }
}

/// Parses a numeric token to its double's bit pattern, as `num_bits`
/// states.
pub fn parse_number(t: &[u8]) -> (r: u64)
    requires
        is_number(t@),
    ensures
        r == num_bits(t@),
{
    let neg = t.len() > 0 && t[0] == 45;
    let body = if t.len() > 0 && (t[0] == 43 || t[0] == 45) {
        slice_range(t, 1, t.len())
    } else {
        slice_range(t, 0, t.len())
    };
    proof {
        assert(t@.subrange(0, t@.len() as int) =~= t@);
        assert(body@ =~= strip_sign(t@));
    }
    if eq3(&body, 105, 110, 102) || eq8(&body, 105, 110, 102, 105, 110, 105, 116, 121) {
        if neg {
            NEG_INF_BITS
        } else {
            INF_BITS
        }
    } else if eq3(&body, 110, 97, 110) {
        if neg {
            NEG_NAN_BITS
        } else {
            NAN_BITS
        }
    } else {
        parse_decimal(t)
    }
}

} // verus!
