//! Lossless conversion between human decimal strings and base-unit amounts.
//!
//! Parsing and rendering are exact integer computations: no floating point
//! is involved anywhere, and overflow beyond 256 bits is reported, never
//! truncated.

use vstd::prelude::*;
use vstd::string::StrSliceExecFns;
use crate::amount::{Amount, p256};
use vstd::arithmetic::div_mod::{
    lemma_div_basics, lemma_div_decreases, lemma_div_denominator, lemma_fundamental_div_mod,
    lemma_fundamental_div_mod_converse, lemma_hoist_over_denominator,
    lemma_mod_division_less_than_divisor, lemma_mod_multiples_vanish,
};

verus! {

/// A decimal digit character.
pub open spec fn is_digit(c: char) -> bool {
    48 <= c as int <= 57
}

/// The numeric value of a decimal digit character.
pub open spec fn digit_val(c: char) -> nat {
    (c as int - 48) as nat
}

/// The character for a decimal digit value below ten.
pub open spec fn digit_char(n: nat) -> char {
    if n == 0 {
        '0'
    } else if n == 1 {
        '1'
    } else if n == 2 {
        '2'
    } else if n == 3 {
        '3'
    } else if n == 4 {
        '4'
    } else if n == 5 {
        '5'
    } else if n == 6 {
        '6'
    } else if n == 7 {
        '7'
    } else if n == 8 {
        '8'
    } else {
        '9'
    }
}

pub proof fn lemma_digit_char_val(c: char)
    requires
        is_digit(c),
    ensures
        digit_char(digit_val(c)) == c,
        digit_val(c) < 10,
{
}

pub open spec fn all_digits(s: Seq<char>) -> bool {
    forall|i: int| 0 <= i < s.len() ==> is_digit(#[trigger] s[i])
}

/// The value of a sequence of digit characters read as a base-10 numeral.
pub open spec fn digits_val(s: Seq<char>) -> nat
    decreases s.len(),
{
    if s.len() == 0 {
        0
    } else {
        digits_val(s.drop_last()) * 10 + digit_val(s.last())
    }
}

/// Ten to the power `n`.
pub open spec fn pow10(n: nat) -> nat
    decreases n,
{
    if n == 0 {
        1
    } else {
        10 * pow10((n - 1) as nat)
    }
}

pub proof fn lemma_pow10_pos(n: nat)
    ensures
        pow10(n) >= 1,
    decreases n,
{
    if n > 0 {
        lemma_pow10_pos((n - 1) as nat);
    }
}

pub proof fn lemma_pow10_adds(a: nat, b: nat)
    ensures
        pow10(a) * pow10(b) == pow10(a + b),
    decreases a,
{
    if a == 0 {
        assert(pow10(0) * pow10(b) == pow10(b)) by (nonlinear_arith)
            requires
                pow10(0) == 1,
        ;
    } else {
        lemma_pow10_adds((a - 1) as nat, b);
        assert((10 * pow10((a - 1) as nat)) * pow10(b) == 10 * (pow10((a - 1) as nat) * pow10(b)))
            by (nonlinear_arith);
    }
}

/// Concatenating digit strings: the left part shifts by the length of the
/// right part.
pub proof fn lemma_digits_val_concat(a: Seq<char>, b: Seq<char>)
    ensures
        digits_val(a + b) == digits_val(a) * pow10(b.len()) + digits_val(b),
    decreases b.len(),
{
    if b.len() == 0 {
        assert(a + b =~= a);
        assert(digits_val(a) * 1 == digits_val(a)) by (nonlinear_arith);
    } else {
        lemma_digits_val_concat(a, b.drop_last());
        assert((a + b).drop_last() =~= a + b.drop_last());
        assert((a + b).last() == b.last());
        assert(digits_val(a + b) == digits_val(a + b.drop_last()) * 10 + digit_val(b.last()));
        assert((digits_val(a) * pow10((b.len() - 1) as nat) + digits_val(b.drop_last())) * 10
            == digits_val(a) * (10 * pow10((b.len() - 1) as nat)) + digits_val(b.drop_last()) * 10)
            by (nonlinear_arith);
    }
}

/// A digit string's value is bounded by ten to its length.
pub proof fn lemma_digits_val_bound(s: Seq<char>)
    requires
        all_digits(s),
    ensures
        digits_val(s) < pow10(s.len()),
    decreases s.len(),
{
    if s.len() == 0 {
    } else {
        assert(all_digits(s.drop_last())) by {
            assert(forall|i: int|
                0 <= i < s.len() - 1 ==> s.drop_last()[i] == #[trigger] s[i] && is_digit(s[i]));
        }
        lemma_digits_val_bound(s.drop_last());
        assert(is_digit(s.last()));
        assert(digits_val(s.drop_last()) * 10 + digit_val(s.last()) < 10 * pow10(
            (s.len() - 1) as nat,
        )) by (nonlinear_arith)
            requires
                digits_val(s.drop_last()) < pow10((s.len() - 1) as nat),
                digit_val(s.last()) < 10,
        ;
    }
}

/// A digit string whose first digit is not zero has a value of at least ten
/// to one less than its length.
pub proof fn lemma_digits_val_lower(s: Seq<char>)
    requires
        all_digits(s),
        s.len() >= 1,
        s[0] != '0',
    ensures
        digits_val(s) >= pow10((s.len() - 1) as nat),
        digits_val(s) >= 1,
    decreases s.len(),
{
    lemma_pow10_pos((s.len() - 1) as nat);
    if s.len() == 1 {
        assert(s.drop_last().len() == 0);
        assert(is_digit(s[0]));
        assert(digit_val(s.last()) >= 1);
    } else {
        assert(all_digits(s.drop_last())) by {
            assert(forall|i: int|
                0 <= i < s.len() - 1 ==> s.drop_last()[i] == #[trigger] s[i] && is_digit(s[i]));
        }
        lemma_digits_val_lower(s.drop_last());
        assert(digits_val(s.drop_last()) * 10 >= pow10((s.len() - 2) as nat) * 10)
            by (nonlinear_arith)
            requires
                digits_val(s.drop_last()) >= pow10((s.len() - 2) as nat),
        ;
        lemma_pow10_adds((s.len() - 2) as nat, 1);
        assert(pow10((s.len() - 2) as nat) * 10 == pow10((s.len() - 1) as nat)) by {
            reveal_with_fuel(pow10, 3);
            assert(pow10(1) == 10);
            assert(pow10((s.len() - 2) as nat) * pow10(1) == pow10((s.len() - 2) as nat + 1));
        }
    }
}

/// `p` splits `s` into a well-formed decimal numeral: a nonempty run of
/// digits, optionally followed by a dot at `p` and a nonempty run of
/// fractional digits.
pub open spec fn is_split_shape(s: Seq<char>, p: int) -> bool {
    &&& 1 <= p <= s.len()
    &&& all_digits(s.subrange(0, p))
    &&& (p < s.len() ==> {
        &&& s[p] == '.'
        &&& s.len() - p - 1 >= 1
        &&& all_digits(s.subrange(p + 1, s.len() as int))
    })
}

/// The number of fractional digits under split `p`.
pub open spec fn split_frac_len(s: Seq<char>, p: int) -> nat {
    if p == s.len() {
        0
    } else {
        (s.len() - p - 1) as nat
    }
}

/// `s` is a well-formed decimal numeral.
pub open spec fn decimal_shape(s: Seq<char>) -> bool {
    exists|p: int| is_split_shape(s, p)
}

/// The split position of a well-formed decimal numeral.
pub open spec fn the_split(s: Seq<char>) -> int {
    choose|p: int| is_split_shape(s, p)
}

/// `s` is a decimal numeral with at most `d` fractional digits.
pub open spec fn valid_decimal(s: Seq<char>, d: nat) -> bool {
    &&& decimal_shape(s)
    &&& split_frac_len(s, the_split(s)) <= d
}

/// The base-unit value of the numeral split at `p`, scaled to `d` decimals.
pub open spec fn split_value(s: Seq<char>, p: int, d: nat) -> nat {
    let ip = s.subrange(0, p);
    if p == s.len() {
        digits_val(ip) * pow10(d)
    } else {
        let fp = s.subrange(p + 1, s.len() as int);
        (digits_val(ip) * pow10(fp.len()) + digits_val(fp)) * pow10((d - fp.len()) as nat)
    }
}

/// The base-unit value of a well-formed decimal numeral at `d` decimals.
pub open spec fn decimal_value(s: Seq<char>, d: nat) -> nat {
    split_value(s, the_split(s), d)
}

/// A well-formed numeral has exactly one split position.
pub proof fn lemma_split_unique(s: Seq<char>, p1: int, p2: int)
    requires
        is_split_shape(s, p1),
        is_split_shape(s, p2),
    ensures
        p1 == p2,
{
    if p1 < p2 {
        assert(p1 < s.len());
        assert(s[p1] == '.');
        assert(s.subrange(0, p2)[p1] == s[p1]);
        assert(is_digit(s[p1]));
    } else if p2 < p1 {
        assert(p2 < s.len());
        assert(s[p2] == '.');
        assert(s.subrange(0, p1)[p2] == s[p2]);
        assert(is_digit(s[p2]));
    }
}

/// Failures of decimal parsing and of base-unit arithmetic.
#[derive(Clone, Copy, Debug, PartialEq, Eq, Structural)]
pub enum CodecError {
    /// The text is not a well-formed decimal numeral.
    MalformedDecimal,
    /// The numeral has more fractional digits than the token's decimals.
    TooManyFractionalDigits,
    /// The value does not fit in 256 bits.
    Overflow,
}

fn char_digit(c: char) -> (r: Option<u8>)
    ensures
        r is Some <==> is_digit(c),
        (r matches Some(x) ==> x == digit_val(c) && x < 10),
{
    let u = c as u32;
    if 48 <= u && u <= 57 {
        Some((u - 48) as u8)
    } else {
        None
    }
}

/// Parse a decimal numeral with at most `decimals` fractional digits into
/// its base-unit value, exactly.  Success happens exactly on well-formed
/// numerals within range; each error names the first reason the text is
/// rejected.
pub fn from_human(text: &str, decimals: u8) -> (r: Result<Amount, CodecError>)
    ensures
        (r matches Ok(v) ==> valid_decimal(text@, decimals as nat) && decimal_value(
            text@,
            decimals as nat,
        ) < p256() && v.val() == decimal_value(text@, decimals as nat)),
        r is Ok <==> valid_decimal(text@, decimals as nat) && decimal_value(
            text@,
            decimals as nat,
        ) < p256(),
        r == Err::<Amount, CodecError>(CodecError::MalformedDecimal) <==> !decimal_shape(text@),
        r == Err::<Amount, CodecError>(CodecError::TooManyFractionalDigits) <==> (decimal_shape(
            text@,
        ) && !valid_decimal(text@, decimals as nat)),
        r == Err::<Amount, CodecError>(CodecError::Overflow) <==> (valid_decimal(
            text@,
            decimals as nat,
        ) && decimal_value(text@, decimals as nat) >= p256()),
{
    let ghost s = text@;
    let n = text.unicode_len();
    // First pass: find the dot and reject anything but digits around it.
    let mut dot: Option<usize> = None;
    let mut i: usize = 0;
    while i < n
        invariant
            0 <= i <= n,
            n == s.len(),
            s == text@,
            (dot matches Some(pd) ==> i > 0 && 0 <= pd < i && s[pd as int] == '.'),
            forall|j: int|
                0 <= j < i && (dot matches Some(pd) ==> j != pd) ==> is_digit(#[trigger] s[j]),
        decreases n - i,
    {
        let c = text.get_char(i);
        if c == '.' {
            match dot {
                Some(pd) => {
                    proof {
                        lemma_not_shape_two_dots(s, pd as int, i as int);
                    }
                    return Err(CodecError::MalformedDecimal);
                },
                None => {
                    dot = Some(i);
                },
            }
        } else {
            if char_digit(c).is_none() {
                proof {
                    lemma_not_shape_bad_char(s, i as int);
                }
                return Err(CodecError::MalformedDecimal);
            }
        }
        i = i + 1;
    }
    // Establish the shape, or reject.
    if n == 0 {
        proof {
            assert(forall|q: int| !is_split_shape(s, q));
        }
        return Err(CodecError::MalformedDecimal);
    }
    let p: usize = match dot {
        None => n,
        Some(pd) => pd,
    };
    if p == 0 || (p < n && p + 1 == n) {
        proof {
            lemma_not_shape_dot_at_edge(s, p as int);
        }
        return Err(CodecError::MalformedDecimal);
    }
    proof {
        assert(forall|j: int| 0 <= j < p ==> is_digit(#[trigger] s[j]));
        assert(all_digits(s.subrange(0, p as int)));
        if (p as int) < s.len() {
            assert(all_digits(s.subrange(p as int + 1, s.len() as int)));
        }
        assert(is_split_shape(s, p as int));
        lemma_split_unique(s, p as int, the_split(s));
    }
    let frac_len: usize = if p == n {
        0
    } else {
        n - p - 1
    };
    if frac_len > decimals as usize {
        return Err(CodecError::TooManyFractionalDigits);
    }
    // Second pass: accumulate the digits, then scale to `decimals`.
    let scale: usize = decimals as usize - frac_len;
    let mut acc = Amount::zero();
    let ghost digits_all = if p == n {
        s
    } else {
        s.subrange(0, p as int) + s.subrange(p as int + 1, s.len() as int)
    };
    let mut k: usize = 0;
    proof {
        assert(s.subrange(0, 0int) =~= Seq::<char>::empty());
        if p == n {
            assert(digits_all.subrange(0, 0int) =~= Seq::<char>::empty());
        }
    }
    while k < n
        invariant
            0 <= k <= n,
            n == s.len(),
            s == text@,
            1 <= p <= n,
            (p < n ==> s[p as int] == '.'),
            digits_all == (if p == n {
                s
            } else {
                s.subrange(0, p as int) + s.subrange(p as int + 1, s.len() as int)
            }),
            all_digits(digits_all),
            digits_all.len() == (if p == n {
                n as int
            } else {
                n - 1
            }),
            acc.val() == digits_val(digits_all.subrange(0, scanned_digits(k as int, p as int))),
            k != p || p == n ==> scanned_digits(k as int, p as int) <= digits_all.len(),
            scanned_digits(k as int, p as int) <= digits_all.len(),
            is_split_shape(s, p as int),
            valid_decimal(s, decimals as nat),
            the_split(s) == p as int,
        decreases n - k,
    {
        let ghost before = digits_all.subrange(0, scanned_digits(k as int, p as int));
        if k != p {
            let c = text.get_char(k);
            let dg = match char_digit(c) {
                Some(x) => x,
                None => {
                    proof {
                        assert(is_digit(s[k as int])) by {
                            if k < p {
                                assert(digits_all[k as int] == s[k as int]);
                            } else {
                                assert(digits_all[k as int - 1] == s[k as int]);
                            }
                        }
                    }
                    unreached()
                },
            };
            let ghost after = digits_all.subrange(0, scanned_digits(k as int, p as int) + 1);
            proof {
                assert(after =~= before.push(digits_all[scanned_digits(k as int, p as int)]));
                assert(digits_all[scanned_digits(k as int, p as int)] == s[k as int]) by {
                    if k < p {
                        assert(digits_all[k as int] == s[k as int]);
                    } else {
                        assert(digits_all[k as int - 1] == s[k as int]);
                    }
                }
                assert(after.drop_last() =~= before);
                assert(digits_val(after) == digits_val(before) * 10 + digit_val(s[k as int]));
            }
            match acc.mul_add_small(10, dg as u64) {
                Some(v) => {
                    acc = v;
                },
                None => {
                    proof {
                        lemma_prefix_le_value(s, p as int, decimals as nat, after);
                    }
                    return Err(CodecError::Overflow);
                },
            }
        }
        proof {
            if k == p && p < n {
                assert(digits_all.subrange(0, scanned_digits(k as int + 1, p as int)) =~= before);
            } else {
                assert(scanned_digits(k as int + 1, p as int) == scanned_digits(k as int, p as int)
                    + 1);
            }
        }
        k = k + 1;
    }
    proof {
        assert(digits_all.subrange(0, scanned_digits(n as int, p as int)) =~= digits_all);
        lemma_split_whole_value(s, p as int, decimals as nat);
        assert(pow10(0) == 1);
        assert(digits_val(digits_all) * 1 == digits_val(digits_all)) by (nonlinear_arith);
    }
    // Scale by ten for each unused fractional place.
    let mut t: usize = 0;
    while t < scale
        invariant
            0 <= t <= scale,
            acc.val() == digits_val(digits_all) * pow10(t as nat),
            valid_decimal(s, decimals as nat),
            the_split(s) == p as int,
            s == text@,
            n == s.len(),
            1 <= p <= n,
            scale == decimals as int - split_frac_len(s, p as int),
            digits_all == (if p == n {
                s
            } else {
                s.subrange(0, p as int) + s.subrange(p as int + 1, s.len() as int)
            }),
            decimal_value(s, decimals as nat) == digits_val(digits_all) * pow10(scale as nat),
        decreases scale - t,
    {
        match acc.mul_add_small(10, 0) {
            Some(v) => {
                proof {
                    assert(digits_val(digits_all) * pow10(t as nat) * 10 == digits_val(digits_all)
                        * pow10(t as nat + 1)) by (nonlinear_arith)
                        requires
                            pow10(t as nat + 1) == 10 * pow10(t as nat),
                    ;
                }
                acc = v;
            },
            None => {
                proof {
                    assert(digits_val(digits_all) * pow10(t as nat) * 10 == digits_val(digits_all)
                        * pow10(t as nat + 1)) by (nonlinear_arith)
                        requires
                            pow10(t as nat + 1) == 10 * pow10(t as nat),
                    ;
                    lemma_scale_le_value(digits_val(digits_all), (t + 1) as nat, scale as nat);
                }
                return Err(CodecError::Overflow);
            },
        }
        t = t + 1;
    }
    proof {
        acc.lemma_val_bound();
    }
    Ok(acc)
}

/// How many pure digit characters lie strictly before position `k`, when the
/// dot (if any) sits at `p`.
spec fn scanned_digits(k: int, p: int) -> int {
    if k <= p {
        k
    } else {
        k - 1
    }
}

proof fn lemma_not_shape_bad_char(s: Seq<char>, i: int)
    requires
        0 <= i < s.len(),
        !is_digit(s[i]),
        s[i] != '.',
    ensures
        !decimal_shape(s),
{
    assert forall|p: int| !is_split_shape(s, p) by {
        if is_split_shape(s, p) {
            if i < p {
                assert(s.subrange(0, p)[i] == s[i]);
            } else if i == p {
                assert(p < s.len());
            } else {
                assert(p < s.len());
                assert(s.subrange(p + 1, s.len() as int)[i - p - 1] == s[i]);
            }
        }
    }
}

proof fn lemma_not_shape_two_dots(s: Seq<char>, i1: int, i2: int)
    requires
        0 <= i1 < i2 < s.len(),
        s[i1] == '.',
        s[i2] == '.',
    ensures
        !decimal_shape(s),
{
    assert forall|p: int| !is_split_shape(s, p) by {
        if is_split_shape(s, p) {
            if i1 < p {
                assert(s.subrange(0, p)[i1] == s[i1]);
                assert(is_digit(s[i1]));
            } else if i1 == p {
                assert(p < s.len());
                assert(s.subrange(p + 1, s.len() as int)[i2 - p - 1] == s[i2]);
                assert(is_digit(s[i2]));
            } else {
                assert(p < s.len());
                assert(s.subrange(p + 1, s.len() as int)[i1 - p - 1] == s[i1]);
                assert(is_digit(s[i1]));
            }
        }
    }
}

proof fn lemma_not_shape_dot_at_edge(s: Seq<char>, p0: int)
    requires
        0 <= p0 <= s.len(),
        p0 == 0 || p0 == s.len() - 1,
        p0 < s.len(),
        s[p0] == '.',
        forall|j: int| 0 <= j < s.len() && j != p0 ==> is_digit(#[trigger] s[j]),
    ensures
        !decimal_shape(s),
{
    assert forall|p: int| !is_split_shape(s, p) by {
        if is_split_shape(s, p) {
            if p0 < p {
                assert(s.subrange(0, p)[p0] == s[p0]);
                assert(is_digit(s[p0]));
            } else if p0 == p {
                assert(p >= 1 && s.len() - p - 1 >= 1);
            } else {
                assert(p < s.len());
                assert(s[p] == '.');
                assert(is_digit(s[p]));
            }
        }
    }
}

/// The value of a prefix of the digit string is no more than the numeral's
/// whole value.
proof fn lemma_prefix_le_value(s: Seq<char>, p: int, d: nat, prefix: Seq<char>)
    requires
        is_split_shape(s, p),
        the_split(s) == p,
        valid_decimal(s, d),
        prefix.len() <= (if p == s.len() {
            s.len() as int
        } else {
            s.len() - 1
        }),
        prefix =~= (if p == s.len() {
            s
        } else {
            s.subrange(0, p) + s.subrange(p + 1, s.len() as int)
        }).subrange(0, prefix.len() as int),
    ensures
        digits_val(prefix) <= decimal_value(s, d),
{
    let whole = if p == s.len() {
        s
    } else {
        s.subrange(0, p) + s.subrange(p + 1, s.len() as int)
    };
    let rest = whole.subrange(prefix.len() as int, whole.len() as int);
    assert(whole =~= prefix + rest);
    lemma_digits_val_concat(prefix, rest);
    lemma_pow10_pos(rest.len());
    assert(digits_val(prefix) <= digits_val(prefix) * pow10(rest.len())) by (nonlinear_arith)
        requires
            pow10(rest.len()) >= 1,
    ;
    assert(digits_val(whole) >= digits_val(prefix));
    let f = split_frac_len(s, p);
    assert(decimal_value(s, d) == digits_val(whole) * pow10((d - f) as nat)) by {
        lemma_split_whole_value(s, p, d);
    }
    lemma_pow10_pos((d - f) as nat);
    assert(digits_val(whole) <= digits_val(whole) * pow10((d - f) as nat)) by (nonlinear_arith)
        requires
            pow10((d - f) as nat) >= 1,
    ;
}

/// The split value equals the concatenated digit string's value scaled by
/// the unused fractional places.
proof fn lemma_split_whole_value(s: Seq<char>, p: int, d: nat)
    requires
        is_split_shape(s, p),
        split_frac_len(s, p) <= d,
    ensures
        split_value(s, p, d) == digits_val(
            if p == s.len() {
                s
            } else {
                s.subrange(0, p) + s.subrange(p + 1, s.len() as int)
            },
        ) * pow10((d - split_frac_len(s, p)) as nat),
{
    if p == s.len() {
        assert(s.subrange(0, p) =~= s);
    } else {
        let ip = s.subrange(0, p);
        let fp = s.subrange(p + 1, s.len() as int);
        lemma_digits_val_concat(ip, fp);
    }
}

/// The digit characters of `n`, most significant first; empty for zero.
pub open spec fn nat_digits(n: nat) -> Seq<char>
    decreases n,
{
    if n == 0 {
        Seq::empty()
    } else {
        nat_digits(n / 10).push(digit_char(n % 10))
    }
}

/// The rendering of an integer part: at least one digit.
pub open spec fn render_int(n: nat) -> Seq<char> {
    if n == 0 {
        seq!['0']
    } else {
        nat_digits(n)
    }
}

/// Exactly `d` digit characters for `r`'s lowest `d` decimal places, most
/// significant first.
pub open spec fn frac_digits(r: nat, d: nat) -> Seq<char>
    decreases d,
{
    if d == 0 {
        Seq::empty()
    } else {
        frac_digits(r / 10, (d - 1) as nat).push(digit_char(r % 10))
    }
}

/// Drop trailing zero characters.
pub open spec fn trim_zeros(f: Seq<char>) -> Seq<char>
    decreases f.len(),
{
    if f.len() > 0 && f.last() == '0' {
        trim_zeros(f.drop_last())
    } else {
        f
    }
}

/// The canonical decimal rendering of `v` base units at `d` decimals: the
/// integer part, then the fractional digits with trailing zeros trimmed,
/// with no dot at all when the fraction is zero.
pub open spec fn human_render(v: nat, d: nat) -> Seq<char> {
    let q = v / pow10(d);
    let f = trim_zeros(frac_digits(v % pow10(d), d));
    if f.len() == 0 {
        render_int(q)
    } else {
        render_int(q) + seq!['.'] + f
    }
}

/// Each of the `d` fractional digit characters, by index.
proof fn lemma_frac_digits_index(r: nat, d: nat)
    ensures
        frac_digits(r, d).len() == d,
        forall|i: int|
            0 <= i < d ==> frac_digits(r, d)[i] == digit_char(
                (r / pow10((d - 1 - i) as nat)) % 10,
            ),
    decreases d,
{
    if d == 0 {
    } else {
        lemma_frac_digits_index(r / 10, (d - 1) as nat);
        let f = frac_digits(r, d);
        let fp = frac_digits(r / 10, (d - 1) as nat);
        assert forall|i: int| 0 <= i < d implies f[i] == digit_char(
            (r / pow10((d - 1 - i) as nat)) % 10,
        ) by {
            if i < d - 1 {
                assert(f[i] == fp[i]);
                assert(fp[i] == digit_char(((r / 10) / pow10((d - 2 - i) as nat)) % 10));
                lemma_pow10_pos((d - 2 - i) as nat);
                lemma_div_denominator(r as int, 10, pow10((d - 2 - i) as nat) as int);
                assert(10 * pow10((d - 2 - i) as nat) == pow10((d - 1 - i) as nat));
            } else {
                assert(f[i] == digit_char(r % 10));
                assert(pow10((d - 1 - i) as nat) == 1);
                lemma_div_basics(r as int);
            }
        }
    }
}

/// Digits below place `d` agree between `v` and `v % 10^d`.
proof fn lemma_mod_div_digit(v: nat, j: nat, d: nat)
    requires
        j < d,
    ensures
        ((v % pow10(d)) / pow10(j)) % 10 == (v / pow10(j)) % 10,
{
    let p = pow10(d) as int;
    let q = pow10(j) as int;
    let e = pow10((d - j) as nat) as int;
    lemma_pow10_pos(d);
    lemma_pow10_pos(j);
    lemma_pow10_pos((d - j) as nat);
    lemma_pow10_adds(j, (d - j) as nat);
    lemma_fundamental_div_mod(v as int, p);
    lemma_mod_division_less_than_divisor(v as int, p);
    let a = v as int / p;
    let r = (v as int) % p;
    lemma_hoist_over_denominator(r, a * e, pow10(j));
    assert(r / q + a * e == (r + (a * e) * q) / q);
    assert(r + (a * e) * q == v as int) by (nonlinear_arith)
        requires
            v as int == p * a + r,
            q * e == p,
    ;
    assert((v as int) / q == r / q + a * e);
    assert(e == 10 * pow10((d - j - 1) as nat));
    assert((v as int) / q == 10 * (a * pow10((d - j - 1) as nat)) + r / q) by (nonlinear_arith)
        requires
            (v as int) / q == r / q + a * e,
            e == 10 * pow10((d - j - 1) as nat),
    ;
    lemma_mod_multiples_vanish(a * pow10((d - j - 1) as nat) as int, r / q, 10);
}

/// Trimming takes the prefix that ends at the last nonzero character.
proof fn lemma_trim_take(f: Seq<char>, t: int)
    requires
        0 <= t <= f.len(),
        forall|j: int| t <= j < f.len() ==> f[j] == '0',
        t > 0 ==> f[t - 1] != '0',
    ensures
        trim_zeros(f) == f.subrange(0, t),
    decreases f.len(),
{
    if t == f.len() {
        if f.len() == 0 {
            assert(f.subrange(0, 0) =~= f);
        } else {
            assert(f.last() != '0');
            assert(f.subrange(0, t) =~= f);
        }
    } else {
        assert(f.last() == '0');
        assert(f.len() > 0);
        lemma_trim_take(f.drop_last(), t);
        assert(f.drop_last().subrange(0, t) =~= f.subrange(0, t));
    }
}

pub(crate) fn digit_to_char(x: u64) -> (c: char)
    requires
        x < 10,
    ensures
        c == digit_char(x as nat),
{
    if x == 0 {
        '0'
    } else if x == 1 {
        '1'
    } else if x == 2 {
        '2'
    } else if x == 3 {
        '3'
    } else if x == 4 {
        '4'
    } else if x == 5 {
        '5'
    } else if x == 6 {
        '6'
    } else if x == 7 {
        '7'
    } else if x == 8 {
        '8'
    } else {
        '9'
    }
}

/// Relies on `String::push`: appends exactly the one character.
#[verifier::external_body]
pub(crate) fn push_char(s: &mut String, c: char)
    ensures
        final(s)@ == old(s)@.push(c),
{
    s.push(c);
}

/// Render a base-unit value as a decimal numeral at `decimals` decimals,
/// exactly, trimming trailing fractional zeros.
pub fn to_human(value: &Amount, decimals: u8) -> (r: String)
    ensures
        r@ == human_render(value.val(), decimals as nat),
{
    let ghost v0 = value.val();
    let d = decimals as usize;
    let mut q = *value;
    let mut frev: Vec<char> = Vec::new();
    let mut k: usize = 0;
    proof {
        assert(pow10(0) == 1);
        lemma_div_basics(v0 as int);
    }
    while k < d
        invariant
            0 <= k <= d,
            v0 == value.val(),
            d == decimals as int,
            q.val() == v0 / pow10(k as nat),
            frev@.len() == k,
            forall|j: int|
                0 <= j < k ==> frev@[j] == digit_char((v0 / pow10(j as nat)) % 10),
        decreases d - k,
    {
        let (q2, rem) = q.divmod_small(10);
        frev.push(digit_to_char(rem));
        proof {
            lemma_pow10_pos(k as nat);
            lemma_div_denominator(v0 as int, pow10(k as nat) as int, 10);
            assert(pow10(k as nat) * 10 == pow10(k as nat + 1)) by (nonlinear_arith)
                requires
                    pow10(k as nat + 1) == 10 * pow10(k as nat),
            ;
        }
        q = q2;
        k = k + 1;
    }
    // Count the trailing zeros of the fraction, which sit first in `frev`.
    let mut z: usize = 0;
    while z < d && frev[z] == '0'
        invariant
            0 <= z <= d,
            frev@.len() == d,
            forall|j: int| 0 <= j < z ==> frev@[j] == '0',
        decreases d - z,
    {
        z = z + 1;
    }
    // Extract the integer part's digits, least significant first.
    let ghost qi = v0 / pow10(d as nat);
    let mut irev: Vec<char> = Vec::new();
    let ghost mut itail: Seq<char> = Seq::empty();
    proof {
        assert(nat_digits(qi) + itail =~= nat_digits(qi));
    }
    while !q.is_zero()
        invariant
            qi == v0 / pow10(d as nat),
            nat_digits(qi) == nat_digits(q.val()) + itail,
            irev@.len() == itail.len(),
            forall|j: int|
                0 <= j < itail.len() ==> itail[j] == irev@[itail.len() - 1 - j],
        decreases q.val(),
    {
        let (q2, rem) = q.divmod_small(10);
        let c = digit_to_char(rem);
        irev.push(c);
        proof {
            lemma_div_decreases(q.val() as int, 10);
            assert(nat_digits(q.val()) == nat_digits(q.val() / 10).push(
                digit_char(q.val() % 10),
            ));
            assert(nat_digits(q.val() / 10) + (seq![c] + itail) =~= (nat_digits(q.val() / 10).push(
                digit_char(q.val() % 10),
            )) + itail);
            itail = seq![c] + itail;
        }
        q = q2;
    }
    proof {
        assert(nat_digits(qi) =~= itail);
    }
    // Assemble the result.
    let mut out = String::new();
    if irev.len() == 0 {
        push_char(&mut out, '0');
        proof {
            assert(itail.len() == 0);
            assert(qi == 0) by {
                if qi != 0 {
                    assert(nat_digits(qi).len() > 0);
                }
            }
            assert(out@ =~= render_int(qi));
        }
    } else {
        let mut idx: usize = irev.len();
        proof {
            assert(out@ =~= itail.subrange(0, 0));
        }
        while idx > 0
            invariant
                0 <= idx <= irev@.len(),
                irev@.len() == itail.len(),
                forall|j: int|
                    0 <= j < itail.len() ==> itail[j] == irev@[itail.len() - 1 - j],
                out@ == itail.subrange(0, itail.len() - idx),
            decreases idx,
        {
            let c = irev[idx - 1];
            push_char(&mut out, c);
            proof {
                assert(itail[itail.len() - idx] == irev@[idx - 1]);
                assert(itail.subrange(0, itail.len() - idx + 1) =~= itail.subrange(
                    0,
                    itail.len() - idx,
                ).push(itail[itail.len() - idx]));
            }
            idx = idx - 1;
        }
        proof {
            assert(out@ =~= itail);
            assert(qi != 0) by {
                if qi == 0 {
                    assert(nat_digits(qi).len() == 0);
                }
            }
            assert(out@ =~= render_int(qi));
        }
    }
    // Relate the collected fraction digits to the specification's rendering.
    let ghost fs = frac_digits(v0 % pow10(d as nat), d as nat);
    proof {
        lemma_frac_digits_index(v0 % pow10(d as nat), d as nat);
        assert forall|i: int| 0 <= i < d implies fs[i] == frev@[d - 1 - i] by {
            lemma_mod_div_digit(v0, (d - 1 - i) as nat, d as nat);
        }
        assert forall|j: int| d - z <= j < d implies fs[j] == '0' by {
            assert(frev@[d - 1 - j] == '0');
        }
        if z < d {
            assert(fs[d - z - 1] == frev@[z as int]);
        }
        lemma_trim_take(fs, d - z);
    }
    if z < d {
        push_char(&mut out, '.');
        let ghost base = render_int(qi) + seq!['.'];
        proof {
            assert(out@ =~= base + fs.subrange(0, 0));
        }
        let mut w: usize = d;
        while w > z
            invariant
                z <= w <= d,
                d == decimals as int,
                frev@.len() == d,
                fs.len() == d,
                forall|i: int| 0 <= i < d ==> fs[i] == frev@[d - 1 - i],
                out@ == base + fs.subrange(0, d - w),
            decreases w - z,
        {
            let c = frev[w - 1];
            push_char(&mut out, c);
            proof {
                assert(fs[d - w] == frev@[w - 1]);
                assert(fs.subrange(0, d - w + 1) =~= fs.subrange(0, d - w).push(fs[d - w]));
            }
            w = w - 1;
        }
        proof {
            assert(out@ =~= base + fs.subrange(0, d - z));
            assert(trim_zeros(fs).len() == d - z);
            assert(out@ =~= render_int(qi) + seq!['.'] + trim_zeros(fs));
        }
    } else {
        proof {
            assert(trim_zeros(fs) =~= fs.subrange(0, 0));
            assert(trim_zeros(fs).len() == 0);
        }
    }
    out
}

/// `k` zero characters.
pub open spec fn zeros(k: nat) -> Seq<char> {
    Seq::new(k, |i: int| '0')
}

/// A numeral is canonical when its integer part has no superfluous leading
/// zero and its fraction, if present, has no trailing zero.
pub open spec fn canonical_decimal(s: Seq<char>) -> bool {
    &&& decimal_shape(s)
    &&& (the_split(s) == 1 || s[0] != '0')
    &&& (the_split(s) < s.len() ==> s.last() != '0')
}

/// Rendering the value of a digit string with no leading zero gives the
/// string back.
proof fn lemma_nat_digits_inverse(a: Seq<char>)
    requires
        all_digits(a),
        a.len() >= 1,
        a[0] != '0',
    ensures
        nat_digits(digits_val(a)) == a,
    decreases a.len(),
{
    let n = digits_val(a);
    assert(is_digit(a.last()));
    lemma_digit_char_val(a.last());
    lemma_fundamental_div_mod_converse(
        n as int,
        10,
        digits_val(a.drop_last()) as int,
        digit_val(a.last()) as int,
    );
    assert(n % 10 == digit_val(a.last()) && n / 10 == digits_val(a.drop_last()));
    if a.len() == 1 {
        assert(a.drop_last().len() == 0);
        assert(is_digit(a[0]));
        assert(digit_val(a[0]) >= 1);
        assert(n != 0);
        assert(nat_digits(0) =~= Seq::<char>::empty());
        assert(nat_digits(n) =~= Seq::<char>::empty().push(digit_char(n % 10)));
        assert(nat_digits(n) =~= a);
    } else {
        assert(all_digits(a.drop_last())) by {
            assert(forall|i: int|
                0 <= i < a.len() - 1 ==> a.drop_last()[i] == #[trigger] a[i] && is_digit(a[i]));
        }
        assert(a.drop_last()[0] == a[0]);
        lemma_nat_digits_inverse(a.drop_last());
        lemma_digits_val_lower(a.drop_last());
        assert(n != 0);
        assert(nat_digits(n) =~= a.drop_last().push(a.last()));
        assert(nat_digits(n) =~= a);
    }
}

/// Rendering the value of a digit string at exactly its length gives the
/// string back, leading zeros included.
proof fn lemma_frac_digits_inverse(a: Seq<char>)
    requires
        all_digits(a),
    ensures
        frac_digits(digits_val(a), a.len()) == a,
    decreases a.len(),
{
    if a.len() == 0 {
        assert(frac_digits(0, 0) =~= a);
    } else {
        let n = digits_val(a);
        assert(is_digit(a.last()));
        lemma_digit_char_val(a.last());
        lemma_fundamental_div_mod_converse(
            n as int,
            10,
            digits_val(a.drop_last()) as int,
            digit_val(a.last()) as int,
        );
        assert(all_digits(a.drop_last())) by {
            assert(forall|i: int|
                0 <= i < a.len() - 1 ==> a.drop_last()[i] == #[trigger] a[i] && is_digit(a[i]));
        }
        lemma_frac_digits_inverse(a.drop_last());
        assert(frac_digits(n, a.len()) =~= a.drop_last().push(a.last()));
        assert(frac_digits(n, a.len()) =~= a);
    }
}

/// Scaling by a power of ten appends that many zero characters to the
/// fractional rendering.
proof fn lemma_frac_digits_shift(x: nat, e: nat, k: nat)
    requires
        k <= e,
    ensures
        frac_digits(x * pow10(k), e) == frac_digits(x, (e - k) as nat) + zeros(k),
    decreases k,
{
    if k == 0 {
        assert(x * pow10(0) == x) by (nonlinear_arith)
            requires
                pow10(0) == 1,
        ;
        assert(frac_digits(x, e) + zeros(0) =~= frac_digits(x, e));
    } else {
        let r = x * pow10(k);
        assert(x * pow10(k) == (x * pow10((k - 1) as nat)) * 10) by (nonlinear_arith)
            requires
                pow10(k) == 10 * pow10((k - 1) as nat),
        ;
        assert(r == (x * pow10((k - 1) as nat)) * 10);
        lemma_fundamental_div_mod_converse(r as int, 10, (x * pow10((k - 1) as nat)) as int, 0);
        assert(r % 10 == 0 && r / 10 == x * pow10((k - 1) as nat));
        assert(e >= 1);
        lemma_frac_digits_shift(x, (e - 1) as nat, (k - 1) as nat);
        assert(frac_digits(r, e) == frac_digits(x * pow10((k - 1) as nat), (e - 1) as nat).push(
            digit_char(0),
        ));
        assert((frac_digits(x, (e - k) as nat) + zeros((k - 1) as nat)).push('0') =~= frac_digits(
            x,
            (e - k) as nat,
        ) + zeros(k));
    }
}

/// Trailing zero characters do not change the trimmed fraction.
proof fn lemma_trim_append_zeros(g: Seq<char>, k: nat)
    ensures
        trim_zeros(g + zeros(k)) == trim_zeros(g),
    decreases k,
{
    if k == 0 {
        assert(g + zeros(0) =~= g);
    } else {
        let w = g + zeros(k);
        assert(w.last() == '0');
        assert(w.len() > 0);
        assert(w.drop_last() =~= g + zeros((k - 1) as nat));
        lemma_trim_append_zeros(g, (k - 1) as nat);
    }
}

/// The round-trip law: parsing a canonical decimal numeral to base units
/// and rendering the result reproduces the numeral exactly, at any decimal
/// count the numeral fits in.
pub proof fn lemma_round_trip(s: Seq<char>, d: nat)
    requires
        valid_decimal(s, d),
        canonical_decimal(s),
    ensures
        human_render(decimal_value(s, d), d) == s,
{
    let p = the_split(s);
    assert(is_split_shape(s, p));
    let ip = s.subrange(0, p);
    let v = decimal_value(s, d);
    lemma_pow10_pos(d);
    assert(all_digits(ip));
    if p == s.len() {
        assert(v == digits_val(ip) * pow10(d));
        lemma_fundamental_div_mod_converse(v as int, pow10(d) as int, digits_val(ip) as int, 0);
        assert(v / pow10(d) == digits_val(ip) && v % pow10(d) == 0);
        assert(0 * pow10(d) == 0) by (nonlinear_arith);
        lemma_frac_digits_shift(0, d, d);
        assert(frac_digits(0, 0) =~= Seq::<char>::empty());
        assert(Seq::<char>::empty() + zeros(d) =~= zeros(d));
        assert(frac_digits(v % pow10(d), d) == zeros(d));
        lemma_trim_append_zeros(Seq::<char>::empty(), d);
        assert(trim_zeros(Seq::<char>::empty()) =~= Seq::<char>::empty());
        assert(trim_zeros(zeros(d)).len() == 0);
        assert(human_render(v, d) == render_int(digits_val(ip)));
        if ip.len() == 1 && s[0] == '0' {
            assert(ip =~= seq!['0']);
            assert(ip.drop_last() =~= Seq::<char>::empty());
            assert(digits_val(ip.drop_last()) == 0);
            assert(ip.last() == '0');
            assert(digit_val('0') == 0);
            assert(digits_val(ip) == 0);
            assert(render_int(0) =~= ip);
        } else {
            assert(ip[0] == s[0]);
            assert(ip[0] != '0');
            lemma_nat_digits_inverse(ip);
            lemma_digits_val_lower(ip);
            assert(render_int(digits_val(ip)) == ip);
        }
        assert(ip =~= s);
    } else {
        let fp = s.subrange(p + 1, s.len() as int);
        let f = fp.len();
        assert(f >= 1);
        assert(all_digits(fp));
        assert(v == (digits_val(ip) * pow10(f) + digits_val(fp)) * pow10((d - f) as nat));
        lemma_pow10_adds(f, (d - f) as nat);
        lemma_pow10_pos((d - f) as nat);
        lemma_pow10_pos(f);
        lemma_digits_val_bound(fp);
        assert(v == digits_val(ip) * pow10(d) + digits_val(fp) * pow10((d - f) as nat) && digits_val(
            fp,
        ) * pow10((d - f) as nat) < pow10(d)) by (nonlinear_arith)
            requires
                v == (digits_val(ip) * pow10(f) + digits_val(fp)) * pow10((d - f) as nat),
                pow10(f) * pow10((d - f) as nat) == pow10(d),
                digits_val(fp) < pow10(f),
                pow10((d - f) as nat) >= 1,
                pow10(f) >= 1,
                pow10(d) >= 1,
        ;
        lemma_pow10_pos((d - f) as nat);
        lemma_fundamental_div_mod_converse(
            v as int,
            pow10(d) as int,
            digits_val(ip) as int,
            (digits_val(fp) * pow10((d - f) as nat)) as int,
        );
        assert(v / pow10(d) == digits_val(ip));
        assert(v % pow10(d) == digits_val(fp) * pow10((d - f) as nat));
        lemma_frac_digits_shift(digits_val(fp), d, (d - f) as nat);
        lemma_frac_digits_inverse(fp);
        assert(frac_digits(v % pow10(d), d) == fp + zeros((d - f) as nat));
        lemma_trim_append_zeros(fp, (d - f) as nat);
        assert(fp.last() == s.last());
        assert(fp.last() != '0');
        assert(trim_zeros(fp) == fp);
        assert(trim_zeros(frac_digits(v % pow10(d), d)) == fp);
        assert(human_render(v, d) == render_int(digits_val(ip)) + seq!['.'] + fp);
        if ip.len() == 1 && s[0] == '0' {
            assert(ip =~= seq!['0']);
            assert(ip.drop_last() =~= Seq::<char>::empty());
            assert(digits_val(ip.drop_last()) == 0);
            assert(ip.last() == '0');
            assert(digit_val('0') == 0);
            assert(digits_val(ip) == 0);
            assert(render_int(0) =~= ip);
        } else {
            assert(p == 1 ==> ip.len() == 1);
            assert(ip[0] == s[0]);
            assert(ip[0] != '0');
            lemma_nat_digits_inverse(ip);
            lemma_digits_val_lower(ip);
            assert(render_int(digits_val(ip)) == ip);
        }
        assert(ip + seq!['.'] + fp =~= s);
    }
}

/// A partially scaled value is no more than the fully scaled value.
proof fn lemma_scale_le_value(base: nat, t: nat, scale: nat)
    requires
        t <= scale,
    ensures
        base * pow10(t) <= base * pow10(scale),
{
    lemma_pow10_adds(t, (scale - t) as nat);
    lemma_pow10_pos((scale - t) as nat);
    assert(base * pow10(t) <= base * (pow10(t) * pow10((scale - t) as nat))) by (nonlinear_arith)
        requires
            pow10((scale - t) as nat) >= 1,
            pow10(t) >= 0,
            base >= 0,
    ;
}

} // verus!
