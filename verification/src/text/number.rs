//! Decimal numerals.
//!
//! Price and indicator-value tokens are decimal numerals: an optional sign,
//! then digits with at most one decimal point (`"368.850000"`, `"-70.0"`,
//! `".5"`, `"+3."`).  This module defines the grammar, the mathematical
//! value of a digit string, and the exact integer value of a numeral when
//! its fractional part is zero.

use vstd::prelude::*;

verus! {

/// `c` is a decimal digit, `'0'` through `'9'`.
pub open spec fn is_digit(c: char) -> bool {
    48 <= c as u32 && c as u32 <= 57
}

/// Numeric value of a decimal digit.
pub open spec fn digit_val(c: char) -> int {
    c as u32 - 48
}

/// Every character of `s` is a decimal digit.
pub open spec fn all_digits(s: Seq<char>) -> bool {
    forall|i: int| 0 <= i < s.len() ==> is_digit(s[i])
}

/// Value of a string of decimal digits, most significant digit first.
pub open spec fn num_val(s: Seq<char>) -> int
    decreases s.len(),
{
    if s.len() == 0 {
        0
    } else {
        num_val(s.drop_last()) * 10 + digit_val(s.last())
    }
}

/// Ten to the power `n`.
pub open spec fn pow10(n: nat) -> int
    decreases n,
{
    if n == 0 {
        1
    } else {
        10 * pow10((n - 1) as nat)
    }
}

pub proof fn lemma_pow10_pos(n: nat)
    ensures
        pow10(n) >= 1,
    decreases n,
{
    if n > 0 {
        lemma_pow10_pos((n - 1) as nat);
    }
}

/// A digit string's value is non-negative and below ten to its length.
pub proof fn lemma_num_val_bounds(s: Seq<char>)
    requires
        all_digits(s),
    ensures
        0 <= num_val(s) < pow10(s.len()),
    decreases s.len(),
{
    if s.len() > 0 {
        assert(all_digits(s.drop_last()));
        lemma_num_val_bounds(s.drop_last());
        lemma_pow10_pos((s.len() - 1) as nat);
        assert(is_digit(s.last()));
    }
}

/// Concrete values of the powers of ten that the overflow arguments use.
pub proof fn lemma_pow10_values()
    ensures
        pow10(2) == 100,
        pow10(3) == 1000,
        pow10(4) == 10000,
        pow10(18) == 1000000000000000000,
        pow10(19) == 10000000000000000000,
{
    assert(pow10(0) == 1);
    assert(pow10(1) == 10);
    assert(pow10(2) == 100);
    assert(pow10(3) == 1000);
    assert(pow10(4) == 10000);
    assert(pow10(5) == 100000);
    assert(pow10(6) == 1000000);
    assert(pow10(7) == 10000000);
    assert(pow10(8) == 100000000);
    assert(pow10(9) == 1000000000);
    assert(pow10(10) == 10000000000);
    assert(pow10(11) == 100000000000);
    assert(pow10(12) == 1000000000000);
    assert(pow10(13) == 10000000000000);
    assert(pow10(14) == 100000000000000);
    assert(pow10(15) == 1000000000000000);
    assert(pow10(16) == 10000000000000000);
    assert(pow10(17) == 100000000000000000);
    assert(pow10(18) == 1000000000000000000);
    assert(pow10(19) == 10000000000000000000);
}

pub proof fn lemma_pow10_mono(a: nat, b: nat)
    requires
        a <= b,
    ensures
        pow10(a) <= pow10(b),
    decreases b - a,
{
    if a < b {
        lemma_pow10_mono(a, (b - 1) as nat);
        lemma_pow10_pos((b - 1) as nat);
    }
}

/// Appending a digit multiplies the value by ten and adds the digit.
pub proof fn lemma_num_val_push(s: Seq<char>, c: char)
    ensures
        num_val(s.push(c)) == num_val(s) * 10 + digit_val(c),
{
    assert(s.push(c).drop_last() =~= s);
    assert(s.push(c).last() == c);
}

/// A digit string's value is zero exactly when every digit is zero.
pub proof fn lemma_num_val_zero(s: Seq<char>)
    requires
        all_digits(s),
    ensures
        num_val(s) == 0 <==> (forall|i: int| 0 <= i < s.len() ==> digit_val(s[i]) == 0),
    decreases s.len(),
{
    if s.len() > 0 {
        assert(all_digits(s.drop_last()));
        lemma_num_val_zero(s.drop_last());
        lemma_num_val_bounds(s.drop_last());
        assert(is_digit(s.last()));
        if num_val(s) == 0 {
            assert(num_val(s.drop_last()) == 0 && digit_val(s.last()) == 0);
            assert forall|i: int| 0 <= i < s.len() implies digit_val(s[i]) == 0 by {
                if i < s.len() - 1 {
                    assert(s[i] == s.drop_last()[i]);
                } else {
                    assert(s[i] == s.last());
                }
            }
        } else {
            if forall|i: int| 0 <= i < s.len() ==> digit_val(s[i]) == 0 {
                assert(s.last() == s[s.len() - 1]);
                assert(digit_val(s.last()) == 0);
                assert forall|i: int|
                    0 <= i < s.drop_last().len() implies digit_val(s.drop_last()[i]) == 0 by {
                    assert(s.drop_last()[i] == s[i]);
                }
                assert(num_val(s.drop_last()) == 0);
                assert(false);
            }
        }
    }
}

/// A leading zero digit does not change the value.
pub proof fn lemma_num_val_leading_zero(s: Seq<char>)
    requires
        s.len() > 0,
        digit_val(s[0]) == 0,
    ensures
        num_val(s) == num_val(s.drop_first()),
    decreases s.len(),
{
    if s.len() == 1 {
        assert(s.drop_last() =~= Seq::<char>::empty());
        assert(s.drop_first() =~= Seq::<char>::empty());
        assert(s.last() == s[0]);
    } else {
        lemma_num_val_leading_zero(s.drop_last());
        assert(s.drop_last().drop_first() =~= s.drop_first().drop_last());
        assert(s.drop_first().last() == s.last());
    }
}

/// Leading zero digits do not change the value.
pub proof fn lemma_num_val_strip_zeros(s: Seq<char>, k: int)
    requires
        0 <= k <= s.len(),
        forall|i: int| 0 <= i < k ==> digit_val(s[i]) == 0,
    ensures
        num_val(s) == num_val(s.skip(k)),
    decreases k,
{
    if k == 0 {
        assert(s.skip(0) =~= s);
    } else {
        lemma_num_val_leading_zero(s);
        assert(forall|i: int| 0 <= i < k - 1 ==> #[trigger] s.drop_first()[i] == s[i + 1]);
        lemma_num_val_strip_zeros(s.drop_first(), k - 1);
        assert(s.drop_first().skip(k - 1) =~= s.skip(k));
    }
}

/// A digit string with a non-zero leading digit is at least ten to the
/// power of one less than its length.
pub proof fn lemma_num_val_first_digit(s: Seq<char>)
    requires
        all_digits(s),
        s.len() > 0,
        digit_val(s[0]) != 0,
    ensures
        num_val(s) >= pow10((s.len() - 1) as nat),
    decreases s.len(),
{
    assert(is_digit(s[0]));
    if s.len() == 1 {
        assert(num_val(s) == num_val(s.drop_last()) * 10 + digit_val(s.last()));
        assert(s.drop_last() =~= Seq::<char>::empty());
        assert(s.last() == s[0]);
        assert(digit_val(s[0]) >= 1);
    } else {
        assert(all_digits(s.drop_last()));
        assert(s.drop_last()[0] == s[0]);
        lemma_num_val_first_digit(s.drop_last());
        assert(is_digit(s.last()));
    }
}

/// Index of the first occurrence of `c` in `s` (the length of `s` when `c`
/// does not occur).
pub open spec fn seek(s: Seq<char>, c: char) -> nat
    decreases s.len(),
{
    if s.len() == 0 {
        0
    } else if s[0] == c {
        0
    } else {
        (1 + seek(s.drop_first(), c)) as nat
    }
}

pub proof fn lemma_seek_le(s: Seq<char>, c: char)
    ensures
        seek(s, c) <= s.len(),
    decreases s.len(),
{
    if s.len() > 0 && s[0] != c {
        lemma_seek_le(s.drop_first(), c);
    }
}

/// When `c` occurs, `seek` lands on it.
pub proof fn lemma_seek_hits(s: Seq<char>, c: char)
    requires
        seek(s, c) < s.len(),
    ensures
        s[seek(s, c) as int] == c,
    decreases s.len(),
{
    if s.len() > 0 && s[0] != c {
        lemma_seek_hits(s.drop_first(), c);
        assert(s.drop_first()[seek(s.drop_first(), c) as int] == s[1 + seek(s.drop_first(), c) as int]);
    }
}

pub proof fn lemma_seek_at(s: Seq<char>, c: char, j: int)
    requires
        0 <= j <= s.len(),
        forall|k: int| 0 <= k < j ==> s[k] != c,
        j == s.len() || s[j] == c,
    ensures
        seek(s, c) == j,
    decreases j,
{
    if j > 0 {
        assert(s[0] != c);
        assert(forall|k: int| 0 <= k < j - 1 ==> #[trigger] s.drop_first()[k] == s[k + 1]);
        lemma_seek_at(s.drop_first(), c, j - 1);
    }
}

/// The pieces of a decimal numeral: its sign and its digit strings on
/// either side of the decimal point.
pub struct NumeralParts {
    pub neg: bool,
    pub whole: Seq<char>,
    pub frac: Seq<char>,
}

/// Reads token `t` as a decimal numeral: an optional `'+'` or `'-'` sign,
/// then decimal digits with at most one `'.'` and at least one digit.
pub open spec fn numeral_parts(t: Seq<char>) -> Option<NumeralParts> {
    let signed = t.len() > 0 && (t[0] == '-' || t[0] == '+');
    let neg = t.len() > 0 && t[0] == '-';
    let body = if signed {
        t.drop_first()
    } else {
        t
    };
    let dot = seek(body, '.') as int;
    if dot == body.len() {
        if body.len() > 0 && all_digits(body) {
            Option::Some(NumeralParts { neg, whole: body, frac: Seq::empty() })
        } else {
            Option::None
        }
    } else {
        let whole = body.subrange(0, dot);
        let frac = body.subrange(dot + 1, body.len() as int);
        if whole.len() + frac.len() > 0 && all_digits(whole) && all_digits(frac) {
            Option::Some(NumeralParts { neg, whole, frac })
        } else {
            Option::None
        }
    }
}

/// `t` is a decimal numeral.
pub open spec fn is_numeral(t: Seq<char>) -> bool {
    numeral_parts(t) is Some
}

/// The exact integer value of numeral `t`, defined when its fractional
/// part is zero (`"-70.0"` yields `-70`; `"-70.5"` yields nothing).
pub open spec fn whole_value(t: Seq<char>) -> Option<int> {
    match numeral_parts(t) {
        Option::None => Option::None,
        Option::Some(p) => if num_val(p.frac) == 0 {
            Option::Some(
                if p.neg {
                    -num_val(p.whole)
                } else {
                    num_val(p.whole)
                },
            )
        } else {
            Option::None
        },
    }
}

/// Checks that every character of `t[from..to]` is a decimal digit.
pub fn digits_between(t: &Vec<char>, from: usize, to: usize) -> (b: bool)
    requires
        from <= to <= t.len(),
    ensures
        b == all_digits(t@.subrange(from as int, to as int)),
{
    let mut i: usize = from;
    while i < to
        invariant
            from <= i <= to <= t.len(),
            forall|k: int| from <= k < i ==> is_digit(t@[k]),
        decreases to - i,
    {
        let u = t[i] as u32;
        if !(48 <= u && u <= 57) {
            proof {
                assert(t@.subrange(from as int, to as int)[i - from] == t@[i as int]);
            }
            return false;
        }
        i = i + 1;
    }
    proof {
        assert forall|j: int|
            0 <= j < t@.subrange(from as int, to as int).len() implies is_digit(
            t@.subrange(from as int, to as int)[j],
        ) by {
            assert(t@.subrange(from as int, to as int)[j] == t@[from + j]);
        }
    }
    true
}

/// Locates the parts of numeral `t`: the sign, and the index ranges of the
/// whole digits (`off..dot`) and of the fraction digits (after `dot`).
fn split_numeral(t: &Vec<char>) -> (r: Option<(bool, usize, usize)>)
    ensures
        match r {
            Option::Some(p) => {
                &&& numeral_parts(t@) is Some
                &&& p.1 <= p.2 <= t@.len()
                &&& numeral_parts(t@).unwrap().neg == p.0
                &&& numeral_parts(t@).unwrap().whole == t@.subrange(p.1 as int, p.2 as int)
                &&& numeral_parts(t@).unwrap().frac == (if p.2 < t@.len() {
                    t@.subrange(p.2 + 1, t@.len() as int)
                } else {
                    Seq::<char>::empty()
                })
            },
            Option::None => numeral_parts(t@) is None,
        },
{
    let n = t.len();
    let signed: bool = n > 0 && (t[0] == '-' || t[0] == '+');
    let neg: bool = n > 0 && t[0] == '-';
    let off: usize = if signed {
        1
    } else {
        0
    };
    let ghost body: Seq<char> = t@.subrange(off as int, n as int);
    proof {
        if signed {
            assert(body =~= t@.drop_first());
        } else {
            assert(body =~= t@);
        }
    }
    let mut dot: usize = off;
    while dot < n && t[dot] != '.'
        invariant
            off <= dot <= n == t.len(),
            forall|k: int| off <= k < dot ==> t@[k] != '.',
        decreases n - dot,
    {
        dot = dot + 1;
    }
    proof {
        assert forall|k: int| 0 <= k < dot - off implies body[k] != '.' by {
            assert(body[k] == t@[off + k]);
        }
        if dot < n {
            assert(body[dot - off] == t@[dot as int]);
        }
        lemma_seek_at(body, '.', dot - off);
    }
    if !digits_between(t, off, dot) {
        proof {
            assert(t@.subrange(off as int, dot as int) =~= body.subrange(0, dot - off));
            if dot == n {
                assert(body.subrange(0, dot - off) =~= body);
            }
        }
        return Option::None;
    }
    if dot < n {
        if !digits_between(t, dot + 1, n) {
            proof {
                assert(t@.subrange(dot + 1, n as int) =~= body.subrange(
                    dot - off + 1,
                    body.len() as int,
                ));
            }
            return Option::None;
        }
    }
    proof {
        assert(t@.subrange(off as int, dot as int) =~= body.subrange(0, dot - off));
        if dot == n {
            assert(body.subrange(0, dot - off) =~= body);
        } else {
            assert(t@.subrange(dot + 1, n as int) =~= body.subrange(
                dot - off + 1,
                body.len() as int,
            ));
        }
    }
    if dot == off && (dot == n || dot + 1 == n) {
        return Option::None;
    }
    Option::Some((neg, off, dot))
}

/// `t` is a decimal numeral.
pub fn numeral_check(t: &Vec<char>) -> (b: bool)
    ensures
        b == is_numeral(t@),
{
    split_numeral(t).is_some()
}

/// The outcome of reading a numeral as an integer.
pub enum NumeralVerdict {
    /// Not a decimal numeral at all.
    NotNumeral,
    /// A numeral whose fractional part is not zero.
    Fractional,
    /// A whole number that does not fit a 64-bit signed integer.
    TooLarge,
    /// The exact integer value.
    Whole(i64),
}

/// Reads numeral `t` as an integer, insisting on a zero fractional part.
#[verifier::loop_isolation(false)]
pub fn numeral_whole(t: &Vec<char>) -> (r: NumeralVerdict)
    ensures
        match r {
            NumeralVerdict::NotNumeral => !is_numeral(t@),
            NumeralVerdict::Fractional => is_numeral(t@) && whole_value(t@) is None,
            NumeralVerdict::TooLarge => match whole_value(t@) {
                Option::Some(v) => v < i64::MIN || v > i64::MAX,
                Option::None => false,
            },
            NumeralVerdict::Whole(x) => whole_value(t@) == Option::Some(x as int),
        },
{
    let parts = split_numeral(t);
    match parts {
        Option::None => NumeralVerdict::NotNumeral,
        Option::Some((neg, off, dot)) => {
            let n = t.len();
            let ghost whole: Seq<char> = numeral_parts(t@).unwrap().whole;
            let ghost frac: Seq<char> = numeral_parts(t@).unwrap().frac;
            // The fractional digits must all be zero.
            if dot < n {
                let mut i: usize = dot + 1;
                while i < n
                    invariant
                        dot + 1 <= i <= n == t.len(),
                        frac == t@.subrange(dot + 1, n as int),
                        all_digits(frac),
                        forall|k: int| dot + 1 <= k < i ==> digit_val(t@[k]) == 0,
                    decreases n - i,
                {
                    let u = t[i] as u32;
                    if u != 48 {
                        proof {
                            assert(frac[i - (dot + 1)] == t@[i as int]);
                            assert(digit_val(frac[i - (dot + 1)]) != 0);
                            lemma_num_val_zero(frac);
                            assert(num_val(frac) != 0);
                        }
                        return NumeralVerdict::Fractional;
                    }
                    i = i + 1;
                }
                proof {
                    assert forall|k: int| 0 <= k < frac.len() implies digit_val(frac[k]) == 0 by {
                        assert(frac[k] == t@[dot + 1 + k]);
                    }
                    lemma_num_val_zero(frac);
                }
            }
            proof {
                assert(num_val(frac) == 0);
            }
            // Skip leading zero digits of the whole part.
            let mut z: usize = off;
            while z < dot && t[z] as u32 == 48
                invariant
                    off <= z <= dot,
                    dot <= t.len(),
                    forall|k: int| off <= k < z ==> digit_val(t@[k]) == 0,
                decreases dot - z,
            {
                z = z + 1;
            }
            proof {
                assert forall|k: int| 0 <= k < z - off implies digit_val(whole[k]) == 0 by {
                    assert(whole[k] == t@[off + k]);
                }
                lemma_num_val_strip_zeros(whole, z - off);
                assert(whole.skip(z - off) =~= t@.subrange(z as int, dot as int));
            }
            let ghost sig: Seq<char> = t@.subrange(z as int, dot as int);
            if dot - z > 19 {
                proof {
                    assert(all_digits(sig)) by {
                        assert forall|k: int| 0 <= k < sig.len() implies is_digit(sig[k]) by {
                            assert(sig[k] == whole[z - off + k]);
                        }
                    }
                    assert(sig[0] == t@[z as int]);
                    lemma_num_val_first_digit(sig);
                    lemma_pow10_mono(19, (sig.len() - 1) as nat);
                    lemma_pow10_values();
                }
                return NumeralVerdict::TooLarge;
            }
            let mag: u64 = match read_digits(t, z, dot) {
                Option::Some(m) => m,
                Option::None => {
                    proof {
                        assert forall|k: int| 0 <= k < sig.len() implies is_digit(sig[k]) by {
                            assert(sig[k] == whole[z - off + k]);
                        }
                    }
                    0
                },
            };
            proof {
                assert(num_val(whole) == mag);
            }
            if neg {
                if mag > 9223372036854775808u64 {
                    NumeralVerdict::TooLarge
                } else if mag == 9223372036854775808u64 {
                    NumeralVerdict::Whole(i64::MIN)
                } else {
                    NumeralVerdict::Whole(-(mag as i64))
                }
            } else {
                if mag > 9223372036854775807u64 {
                    NumeralVerdict::TooLarge
                } else {
                    NumeralVerdict::Whole(mag as i64)
                }
            }
        },
    }
}

/// Reads the digits `t[from..to]` as an integer, most significant first.
pub fn read_digits(t: &Vec<char>, from: usize, to: usize) -> (r: Option<u64>)
    requires
        from <= to <= t.len(),
        to - from <= 19,
    ensures
        match r {
            Option::Some(n) => all_digits(t@.subrange(from as int, to as int)) && n == num_val(
                t@.subrange(from as int, to as int),
            ),
            Option::None => !all_digits(t@.subrange(from as int, to as int)),
        },
{
    let mut acc: u64 = 0;
    let mut i: usize = from;
    proof {
        assert(t@.subrange(from as int, from as int) =~= Seq::<char>::empty());
    }
    while i < to
        invariant
            from <= i <= to <= t.len(),
            to - from <= 19,
            all_digits(t@.subrange(from as int, i as int)),
            acc == num_val(t@.subrange(from as int, i as int)),
        decreases to - i,
    {
        let c = t[i];
        let u = c as u32;
        if !(48 <= u && u <= 57) {
            proof {
                assert(t@.subrange(from as int, to as int)[i - from] == c);
            }
            return Option::None;
        }
        proof {
            lemma_num_val_bounds(t@.subrange(from as int, i as int));
            lemma_pow10_mono((i - from) as nat, 18);
            lemma_pow10_values();
            assert(t@.subrange(from as int, i as int).push(t@[i as int]) =~= t@.subrange(
                from as int,
                (i + 1) as int,
            ));
            lemma_num_val_push(t@.subrange(from as int, i as int), t@[i as int]);
        }
        acc = acc * 10 + ((u - 48) as u64);
        i = i + 1;
    }
    proof {
        assert(t@.subrange(from as int, i as int) =~= t@.subrange(from as int, to as int));
    }
    Option::Some(acc)
}

} // verus!

