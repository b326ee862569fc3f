//! The line classifier/decoder.
//!
//! A line is split on runs of whitespace.  Seven tokens in the order
//! `date time event open high close low` decode as a [`Candle`]; five
//! tokens in the order `date time event property value` decode as an
//! [`Indicator`].  Dates are `YYYY-MM-DD`, times `HH:MM:SS`, both read in
//! the fixed UTC+9 offset; prices are decimal numerals kept verbatim; the
//! indicator value must be a numeral with a zero fractional part.  A line
//! that fits neither shape is simply not that shape: decode failure is an
//! outcome, not a fault.

use vstd::prelude::*;

use crate::model::candle::Candle;
use crate::model::candle::CandleModel;
use crate::model::indicator::Indicator;
use crate::model::indicator::IndicatorModel;
use crate::text::datetime::kst_epoch;
use crate::text::datetime::month_days;
use crate::text::datetime::valid_date;
use crate::text::datetime::valid_time;
use crate::text::number::all_digits;
use crate::text::number::digit_val;
use crate::text::number::is_digit;
use crate::text::number::is_numeral;
use crate::text::number::lemma_num_val_bounds;
use crate::text::number::lemma_num_val_push;
use crate::text::number::lemma_pow10_values;
use crate::text::number::lemma_seek_hits;
use crate::text::number::lemma_seek_le;
use crate::text::number::num_val;
use crate::text::number::numeral_check;
use crate::text::number::numeral_whole;
use crate::text::number::read_digits;
use crate::text::number::seek;
use crate::text::number::whole_value;
use crate::text::number::NumeralVerdict;
use crate::text::datetime::civil_from_epoch;
use crate::text::datetime::epoch_from_civil;
use crate::text::datetime::lemma_max_epoch;
use crate::text::datetime::max_epoch;
use vstd::arithmetic::div_mod::lemma_div_denominator;
use vstd::arithmetic::div_mod::lemma_div_is_ordered;
use vstd::arithmetic::div_mod::lemma_fundamental_div_mod;
use vstd::arithmetic::div_mod::lemma_fundamental_div_mod_converse;
use vstd::arithmetic::div_mod::lemma_mod_bound;

verus! {

broadcast use vstd::string::axiom_spec_iter, vstd::string::next_postcondition;

/// The whitespace characters that separate tokens (the Unicode
/// `White_Space` set).
pub open spec fn is_space(c: char) -> bool {
    c == ' ' || c == '\t' || c == '\n' || c == '\u{b}' || c == '\u{c}' || c == '\r' || c
        == '\u{85}' || c == '\u{a0}' || c == '\u{1680}' || (0x2000 <= c as u32 && c as u32
        <= 0x200a) || c == '\u{2028}' || c == '\u{2029}' || c == '\u{202f}' || c == '\u{205f}' || c
        == '\u{3000}'
}

fn space_char(c: char) -> (b: bool)
    ensures
        b == is_space(c),
{
    c == ' ' || c == '\t' || c == '\n' || c == '\u{b}' || c == '\u{c}' || c == '\r' || c
        == '\u{85}' || c == '\u{a0}' || c == '\u{1680}' || (0x2000 <= c as u32 && c as u32
        <= 0x200a) || c == '\u{2028}' || c == '\u{2029}' || c == '\u{202f}' || c == '\u{205f}' || c
        == '\u{3000}'
}

/// Length of the maximal leading run of non-whitespace characters.
pub open spec fn until_space(s: Seq<char>) -> nat
    decreases s.len(),
{
    if s.len() == 0 {
        0
    } else if is_space(s[0]) {
        0
    } else {
        (1 + until_space(s.drop_first())) as nat
    }
}

pub proof fn lemma_until_space_at(s: Seq<char>, j: int)
    requires
        0 <= j <= s.len(),
        forall|k: int| 0 <= k < j ==> !is_space(s[k]),
        j == s.len() || is_space(s[j]),
    ensures
        until_space(s) == j,
    decreases j,
{
    if j > 0 {
        assert(!is_space(s[0]));
        assert(forall|k: int| 0 <= k < j - 1 ==> #[trigger] s.drop_first()[k] == s[k + 1]);
        lemma_until_space_at(s.drop_first(), j - 1);
    }
}

pub proof fn lemma_until_space_le(s: Seq<char>)
    ensures
        until_space(s) <= s.len(),
    decreases s.len(),
{
    if s.len() > 0 && !is_space(s[0]) {
        lemma_until_space_le(s.drop_first());
    }
}

/// The whitespace-separated tokens of a line, in order.
pub open spec fn tokenize(s: Seq<char>) -> Seq<Seq<char>>
    decreases s.len(),
    via tokenize_dec
{
    if s.len() == 0 {
        Seq::empty()
    } else if is_space(s[0]) {
        tokenize(s.drop_first())
    } else {
        seq![s.subrange(0, until_space(s) as int)] + tokenize(
            s.subrange(until_space(s) as int, s.len() as int),
        )
    }
}

#[via_fn]
proof fn tokenize_dec(s: Seq<char>) {
    if s.len() > 0 && !is_space(s[0]) {
        lemma_until_space_le(s);
        assert(until_space(s) >= 1);
    }
}

/// The views of a vector of character vectors.
pub open spec fn views_of(toks: Seq<Vec<char>>) -> Seq<Seq<char>> {
    toks.map_values(|t: Vec<char>| t@)
}

proof fn lemma_views_push(s: Seq<Vec<char>>, t: Vec<char>)
    ensures
        views_of(s.push(t)) =~= views_of(s).push(t@),
{
}

/// Collects the characters of a string.
fn chars_vec(s: &str) -> (v: Vec<char>)
    ensures
        v@ == s@,
{
    let mut v: Vec<char> = Vec::new();
    for c in it: s.chars()
        invariant
            it.seq() == s@,
            v@ == it.seq().take(it.index() as int),
    {
        v.push(c);
    }
    proof {
        assert(v@ =~= s@);
    }
    v
}

/// Relies on `String: FromIterator<char>`: collecting an iterator of
/// characters yields the string of exactly those characters, in order.
#[verifier::external_body]
fn string_from_chars(v: &Vec<char>) -> (s: String)
    ensures
        s@ == v@,
{
    v.iter().collect()
}

/// Splits a line into its whitespace-separated tokens.
#[verifier::loop_isolation(false)]
fn split_tokens(line: &Vec<char>) -> (toks: Vec<Vec<char>>)
    ensures
        views_of(toks@) == tokenize(line@),
{
    let n = line.len();
    let mut toks: Vec<Vec<char>> = Vec::new();
    let mut i: usize = 0;
    proof {
        assert(views_of(Seq::<Vec<char>>::empty()) =~= Seq::<Seq<char>>::empty());
        assert(line@.subrange(0, n as int) =~= line@);
    }
    while i < n
        invariant
            i <= n,
            tokenize(line@) == views_of(toks@) + tokenize(line@.subrange(i as int, n as int)),
        decreases n - i,
    {
        let c = line[i];
        if space_char(c) {
            proof {
                let rest = line@.subrange(i as int, n as int);
                assert(rest[0] == line@[i as int]);
                assert(rest.drop_first() =~= line@.subrange(i + 1, n as int));
            }
            i = i + 1;
        } else {
            let start = i;
            let mut tok: Vec<char> = Vec::new();
            while i < n && !space_char(line[i])
                invariant
                    start <= i <= n,
                    tok@ == line@.subrange(start as int, i as int),
                    forall|k: int| start <= k < i ==> !is_space(line@[k]),
                decreases n - i,
            {
                let d = line[i];
                tok.push(d);
                proof {
                    assert(line@.subrange(start as int, i + 1) =~= line@.subrange(
                        start as int,
                        i as int,
                    ).push(line@[i as int]));
                }
                i = i + 1;
            }
            proof {
                let rest = line@.subrange(start as int, n as int);
                assert forall|k: int| 0 <= k < i - start implies !is_space(rest[k]) by {
                    assert(rest[k] == line@[start + k]);
                }
                if i < n {
                    assert(rest[i - start] == line@[i as int]);
                }
                lemma_until_space_at(rest, i - start);
                assert(rest.subrange(0, i - start) =~= line@.subrange(start as int, i as int));
                assert(rest.subrange(i - start, rest.len() as int) =~= line@.subrange(
                    i as int,
                    n as int,
                ));
                assert(!is_space(rest[0]));
                assert(tokenize(rest) == seq![tok@] + tokenize(line@.subrange(i as int, n as int)));
                lemma_views_push(toks@, tok);
                assert(views_of(toks@.push(tok)) + tokenize(line@.subrange(i as int, n as int))
                    =~= views_of(toks@) + tokenize(rest));
            }
            toks.push(tok);
        }
    }
    proof {
        assert(line@.subrange(n as int, n as int) =~= Seq::<char>::empty());
        assert(views_of(toks@) =~= tokenize(line@));
    }
    toks
}

/// Reads a date token `YYYY-MM-DD` as a valid calendar date.
pub open spec fn date_parts(t: Seq<char>) -> Option<(int, int, int)> {
    if t.len() == 10 && all_digits(t.subrange(0, 4)) && t[4] == '-' && all_digits(
        t.subrange(5, 7),
    ) && t[7] == '-' && all_digits(t.subrange(8, 10)) {
        let y = num_val(t.subrange(0, 4));
        let m = num_val(t.subrange(5, 7));
        let d = num_val(t.subrange(8, 10));
        if valid_date(y, m, d) {
            Option::Some((y, m, d))
        } else {
            Option::None
        }
    } else {
        Option::None
    }
}

/// Reads a time token `HH:MM:SS` as a valid time of day.
pub open spec fn time_parts(t: Seq<char>) -> Option<(int, int, int)> {
    if t.len() == 8 && all_digits(t.subrange(0, 2)) && t[2] == ':' && all_digits(
        t.subrange(3, 5),
    ) && t[5] == ':' && all_digits(t.subrange(6, 8)) {
        let h = num_val(t.subrange(0, 2));
        let mi = num_val(t.subrange(3, 5));
        let s = num_val(t.subrange(6, 8));
        if valid_time(h, mi, s) {
            Option::Some((h, mi, s))
        } else {
            Option::None
        }
    } else {
        Option::None
    }
}

fn parse_date_token(t: &Vec<char>) -> (r: Option<(u64, u64, u64)>)
    ensures
        match r {
            Option::Some(ymd) => {
                &&& date_parts(t@) == Option::Some(
                    (ymd.0 as int, ymd.1 as int, ymd.2 as int),
                )
                &&& valid_date(ymd.0 as int, ymd.1 as int, ymd.2 as int)
                &&& ymd.0 <= 9999
            },
            Option::None => date_parts(t@) is None,
        },
{
    if t.len() != 10 {
        return Option::None;
    }
    if !(t[4] == '-' && t[7] == '-') {
        return Option::None;
    }
    let y = match read_digits(t, 0, 4) {
        Option::Some(n) => n,
        Option::None => {
            return Option::None;
        },
    };
    let m = match read_digits(t, 5, 7) {
        Option::Some(n) => n,
        Option::None => {
            return Option::None;
        },
    };
    let d = match read_digits(t, 8, 10) {
        Option::Some(n) => n,
        Option::None => {
            return Option::None;
        },
    };
    proof {
        lemma_num_val_bounds(t@.subrange(0, 4));
        lemma_pow10_values();
    }
    if !(1 <= m && m <= 12) {
        return Option::None;
    }
    if !(1 <= d && d <= month_days(y, m)) {
        return Option::None;
    }
    Option::Some((y, m, d))
}

fn parse_time_token(t: &Vec<char>) -> (r: Option<(u64, u64, u64)>)
    ensures
        match r {
            Option::Some(hms) => {
                &&& time_parts(t@) == Option::Some(
                    (hms.0 as int, hms.1 as int, hms.2 as int),
                )
                &&& valid_time(hms.0 as int, hms.1 as int, hms.2 as int)
            },
            Option::None => time_parts(t@) is None,
        },
{
    if t.len() != 8 {
        return Option::None;
    }
    if !(t[2] == ':' && t[5] == ':') {
        return Option::None;
    }
    let h = match read_digits(t, 0, 2) {
        Option::Some(n) => n,
        Option::None => {
            return Option::None;
        },
    };
    let mi = match read_digits(t, 3, 5) {
        Option::Some(n) => n,
        Option::None => {
            return Option::None;
        },
    };
    let s = match read_digits(t, 6, 8) {
        Option::Some(n) => n,
        Option::None => {
            return Option::None;
        },
    };
    if !(h <= 23 && mi <= 59 && s <= 59) {
        return Option::None;
    }
    Option::Some((h, mi, s))
}

/// Why a line failed to decode as one of the two record shapes.
#[derive(Debug, PartialEq, Eq, Clone, Copy)]
pub enum DecodeError {
    /// Not 7 tokens (candle) or not 5 tokens (indicator).
    WrongTokenCount,
    /// The first token is not a valid `YYYY-MM-DD` calendar date.
    InvalidDate,
    /// The second token is not a valid `HH:MM:SS` time of day.
    InvalidTime,
    /// The instant lies before the epoch (or cannot be represented).
    TimestampOutOfRange,
    /// A price or value token is not a decimal numeral.
    InvalidNumber,
    /// The indicator value has a non-zero fractional part.
    FractionalValue,
    /// The indicator value does not fit a 64-bit signed integer.
    ValueOutOfRange,
}

/// What a line means as a candle: the decoded record, or why not.
pub open spec fn candle_of(line: Seq<char>) -> Result<CandleModel, DecodeError> {
    let toks = tokenize(line);
    if toks.len() != 7 {
        Result::Err(DecodeError::WrongTokenCount)
    } else {
        match date_parts(toks[0]) {
            Option::None => Result::Err(DecodeError::InvalidDate),
            Option::Some(ymd) => match time_parts(toks[1]) {
                Option::None => Result::Err(DecodeError::InvalidTime),
                Option::Some(hms) => {
                    let e = kst_epoch(ymd.0, ymd.1, ymd.2, hms.0, hms.1, hms.2);
                    if e < 0 {
                        Result::Err(DecodeError::TimestampOutOfRange)
                    } else if !(is_numeral(toks[3]) && is_numeral(toks[4]) && is_numeral(toks[5])
                        && is_numeral(toks[6])) {
                        Result::Err(DecodeError::InvalidNumber)
                    } else {
                        Result::Ok(
                            CandleModel {
                                event: toks[2],
                                timestamp: e,
                                open: toks[3],
                                high: toks[4],
                                close: toks[5],
                                low: toks[6],
                            },
                        )
                    }
                },
            },
        }
    }
}

/// What a line means as an indicator: the decoded record, or why not.
pub open spec fn indicator_of(line: Seq<char>) -> Result<IndicatorModel, DecodeError> {
    let toks = tokenize(line);
    if toks.len() != 5 {
        Result::Err(DecodeError::WrongTokenCount)
    } else {
        match date_parts(toks[0]) {
            Option::None => Result::Err(DecodeError::InvalidDate),
            Option::Some(ymd) => match time_parts(toks[1]) {
                Option::None => Result::Err(DecodeError::InvalidTime),
                Option::Some(hms) => {
                    let e = kst_epoch(ymd.0, ymd.1, ymd.2, hms.0, hms.1, hms.2);
                    if e < 0 {
                        Result::Err(DecodeError::TimestampOutOfRange)
                    } else if !is_numeral(toks[4]) {
                        Result::Err(DecodeError::InvalidNumber)
                    } else {
                        match whole_value(toks[4]) {
                            Option::None => Result::Err(DecodeError::FractionalValue),
                            Option::Some(v) => if v < i64::MIN || v > i64::MAX {
                                Result::Err(DecodeError::ValueOutOfRange)
                            } else {
                                Result::Ok(
                                    IndicatorModel {
                                        timestamp: e,
                                        event: toks[2],
                                        property: toks[3],
                                        value: v,
                                    },
                                )
                            },
                        }
                    }
                },
            },
        }
    }
}

/// No line is both a candle and an indicator: the shapes ask for
/// different token counts.
pub proof fn lemma_shapes_exclusive(line: Seq<char>)
    ensures
        !(candle_of(line) is Ok && indicator_of(line) is Ok),
{
}

/// Decodes a line as a candle: `date time event open high close low`,
/// exactly 7 whitespace-separated tokens (close before low).
pub fn parse_candle(input: String) -> (r: Result<Candle, DecodeError>)
    ensures
        r is Ok <==> candle_of(input@) is Ok,
        r is Ok ==> r.unwrap()@ == candle_of(input@).unwrap(),
        r is Err ==> r.unwrap_err() == candle_of(input@)->Err_0,
{
    let chars = chars_vec(input.as_str());
    let toks = split_tokens(&chars);
    proof {
        assert(views_of(toks@).len() == toks@.len());
    }
    if toks.len() != 7 {
        return Result::Err(DecodeError::WrongTokenCount);
    }
    proof {
        assert forall|k: int| 0 <= k < 7 implies views_of(toks@)[k] == toks@[k]@ by {}
    }
    let ymd = match parse_date_token(&toks[0]) {
        Option::Some(p) => p,
        Option::None => {
            return Result::Err(DecodeError::InvalidDate);
        },
    };
    let hms = match parse_time_token(&toks[1]) {
        Option::Some(p) => p,
        Option::None => {
            return Result::Err(DecodeError::InvalidTime);
        },
    };
    let ts = match epoch_from_civil(ymd.0, ymd.1, ymd.2, hms.0, hms.1, hms.2) {
        Option::Some(t) => t,
        Option::None => {
            return Result::Err(DecodeError::TimestampOutOfRange);
        },
    };
    if !(numeral_check(&toks[3]) && numeral_check(&toks[4]) && numeral_check(&toks[5])
        && numeral_check(&toks[6])) {
        return Result::Err(DecodeError::InvalidNumber);
    }
    let candle = Candle {
        event: string_from_chars(&toks[2]),
        timestamp: ts,
        open: string_from_chars(&toks[3]),
        high: string_from_chars(&toks[4]),
        close: string_from_chars(&toks[5]),
        low: string_from_chars(&toks[6]),
    };
    Result::Ok(candle)
}

/// Decodes a line as an indicator: `date time event property value`,
/// exactly 5 whitespace-separated tokens, `value` a whole number.
pub fn parse_indicator(input: String) -> (r: Result<Indicator, DecodeError>)
    ensures
        r is Ok <==> indicator_of(input@) is Ok,
        r is Ok ==> r.unwrap()@ == indicator_of(input@).unwrap(),
        r is Err ==> r.unwrap_err() == indicator_of(input@)->Err_0,
{
    let chars = chars_vec(input.as_str());
    let toks = split_tokens(&chars);
    proof {
        assert(views_of(toks@).len() == toks@.len());
    }
    if toks.len() != 5 {
        return Result::Err(DecodeError::WrongTokenCount);
    }
    proof {
        assert forall|k: int| 0 <= k < 5 implies views_of(toks@)[k] == toks@[k]@ by {}
    }
    let ymd = match parse_date_token(&toks[0]) {
        Option::Some(p) => p,
        Option::None => {
            return Result::Err(DecodeError::InvalidDate);
        },
    };
    let hms = match parse_time_token(&toks[1]) {
        Option::Some(p) => p,
        Option::None => {
            return Result::Err(DecodeError::InvalidTime);
        },
    };
    let ts = match epoch_from_civil(ymd.0, ymd.1, ymd.2, hms.0, hms.1, hms.2) {
        Option::Some(t) => t,
        Option::None => {
            return Result::Err(DecodeError::TimestampOutOfRange);
        },
    };
    let value: i64 = match numeral_whole(&toks[4]) {
        NumeralVerdict::NotNumeral => {
            return Result::Err(DecodeError::InvalidNumber);
        },
        NumeralVerdict::Fractional => {
            return Result::Err(DecodeError::FractionalValue);
        },
        NumeralVerdict::TooLarge => {
            return Result::Err(DecodeError::ValueOutOfRange);
        },
        NumeralVerdict::Whole(x) => x,
    };
    let indicator = Indicator {
        timestamp: ts,
        event: string_from_chars(&toks[2]),
        property: string_from_chars(&toks[3]),
        value,
    };
    Result::Ok(indicator)
}

/// Reads a numeral token as an exact integer, rejecting a non-zero
/// fractional part rather than truncating it.
pub fn parse_integer_value(token: &str) -> (r: Result<i64, DecodeError>)
    ensures
        match whole_value(token@) {
            Option::None => r == (if is_numeral(token@) {
                Result::<i64, DecodeError>::Err(DecodeError::FractionalValue)
            } else {
                Result::<i64, DecodeError>::Err(DecodeError::InvalidNumber)
            }),
            Option::Some(v) => r == (if i64::MIN <= v <= i64::MAX {
                Result::<i64, DecodeError>::Ok(v as i64)
            } else {
                Result::<i64, DecodeError>::Err(DecodeError::ValueOutOfRange)
            }),
        },
{
    let chars = chars_vec(token);
    match numeral_whole(&chars) {
        NumeralVerdict::NotNumeral => Result::Err(DecodeError::InvalidNumber),
        NumeralVerdict::Fractional => Result::Err(DecodeError::FractionalValue),
        NumeralVerdict::TooLarge => Result::Err(DecodeError::ValueOutOfRange),
        NumeralVerdict::Whole(x) => Result::Ok(x),
    }
}

/// A non-empty run of non-whitespace characters: what survives
/// tokenizing unchanged.
pub open spec fn is_token(t: Seq<char>) -> bool {
    t.len() > 0 && forall|i: int| 0 <= i < t.len() ==> !is_space(t[i])
}

pub proof fn lemma_digit_not_space(c: char)
    requires
        is_digit(c),
    ensures
        !is_space(c),
{
}

/// A decimal numeral holds only signs, digits and a point: never
/// whitespace.
pub proof fn lemma_numeral_is_token(t: Seq<char>)
    requires
        is_numeral(t),
    ensures
        is_token(t),
{
    let signed = t.len() > 0 && (t[0] == '-' || t[0] == '+');
    let body = if signed {
        t.drop_first()
    } else {
        t
    };
    let off: int = if signed {
        1
    } else {
        0
    };
    let dot = seek(body, '.') as int;
    lemma_seek_le(body, '.');
    assert(t.len() > 0);
    assert forall|i: int| 0 <= i < t.len() implies !is_space(t[i]) by {
        if signed && i == 0 {
            assert(!is_space(t[0]));
        } else {
            let j = i - off;
            assert(body[j] == t[i]);
            if dot == body.len() {
                assert(is_digit(body[j]));
                lemma_digit_not_space(body[j]);
            } else if j < dot {
                assert(body.subrange(0, dot)[j] == body[j]);
                assert(is_digit(body[j]));
                lemma_digit_not_space(body[j]);
            } else if j == dot {
                lemma_seek_hits(body, '.');
                assert(body[j] == '.');
            } else {
                assert(body.subrange(dot + 1, body.len() as int)[j - dot - 1] == body[j]);
                assert(is_digit(body[j]));
                lemma_digit_not_space(body[j]);
            }
        }
    }
}

/// The tokens joined by single spaces, in order.
pub open spec fn join_spaced(ts: Seq<Seq<char>>) -> Seq<char>
    decreases ts.len(),
{
    if ts.len() == 0 {
        Seq::empty()
    } else if ts.len() == 1 {
        ts[0]
    } else {
        ts[0] + seq![' '] + join_spaced(ts.drop_first())
    }
}

/// Tokenizing a space-joined list of tokens gives back the list.
pub proof fn lemma_tokenize_join(ts: Seq<Seq<char>>)
    requires
        forall|i: int| 0 <= i < ts.len() ==> is_token(#[trigger] ts[i]),
    ensures
        tokenize(join_spaced(ts)) == ts,
    decreases ts.len(),
{
    if ts.len() == 0 {
        assert(tokenize(join_spaced(ts)) =~= ts);
    } else {
        let s = join_spaced(ts);
        let t0 = ts[0];
        assert(is_token(t0));
        if ts.len() == 1 {
            assert(s == t0);
            lemma_until_space_at(s, t0.len() as int);
            assert(s.subrange(0, t0.len() as int) =~= t0);
            assert(s.subrange(t0.len() as int, s.len() as int) =~= Seq::<char>::empty());
            assert(tokenize(s) == seq![t0] + tokenize(Seq::<char>::empty()));
            assert(seq![t0] + Seq::<Seq<char>>::empty() =~= ts);
        } else {
            let rest = seq![' '] + join_spaced(ts.drop_first());
            assert(s =~= t0 + rest);
            assert forall|k: int| 0 <= k < t0.len() implies !is_space(s[k]) by {
                assert(s[k] == t0[k]);
            }
            assert(s[t0.len() as int] == rest[0]);
            assert(rest[0] == ' ');
            lemma_until_space_at(s, t0.len() as int);
            assert(s.subrange(0, t0.len() as int) =~= t0);
            assert(s.subrange(t0.len() as int, s.len() as int) =~= rest);
            assert(tokenize(s) == seq![t0] + tokenize(rest));
            assert(rest.drop_first() =~= join_spaced(ts.drop_first()));
            assert(tokenize(rest) == tokenize(join_spaced(ts.drop_first())));
            lemma_tokenize_join(ts.drop_first());
            assert(seq![t0] + ts.drop_first() =~= ts);
        }
    }
}

/// The character of a decimal digit.
fn digit_char(d: u64) -> (c: char)
    requires
        d <= 9,
    ensures
        is_digit(c),
        digit_val(c) == d,
{
    match d {
        0 => '0',
        1 => '1',
        2 => '2',
        3 => '3',
        4 => '4',
        5 => '5',
        6 => '6',
        7 => '7',
        8 => '8',
        _ => '9',
    }
}

/// `n` as exactly two decimal digits, zero-padded.
fn two_digits(n: u64) -> (v: Vec<char>)
    requires
        n <= 99,
    ensures
        v@.len() == 2,
        all_digits(v@),
        num_val(v@) == n,
{
    proof {
        lemma_fundamental_div_mod(n as int, 10);
        lemma_mod_bound(n as int, 10);
        lemma_div_is_ordered(n as int, 99, 10);
        lemma_fundamental_div_mod_converse(99, 10, 9, 9);
    }
    let d0 = digit_char(n / 10);
    let d1 = digit_char(n % 10);
    let mut v: Vec<char> = Vec::new();
    v.push(d0);
    v.push(d1);
    proof {
        assert(v@ =~= Seq::<char>::empty().push(d0).push(d1));
        lemma_num_val_push(Seq::<char>::empty(), d0);
        lemma_num_val_push(Seq::<char>::empty().push(d0), d1);
        assert(all_digits(v@)) by {
            assert(v@[0] == d0 && v@[1] == d1);
        }
    }
    v
}

/// `n` as exactly four decimal digits, zero-padded.
fn four_digits(n: u64) -> (v: Vec<char>)
    requires
        n <= 9999,
    ensures
        v@.len() == 4,
        all_digits(v@),
        num_val(v@) == n,
{
    proof {
        lemma_fundamental_div_mod(n as int, 10);
        lemma_fundamental_div_mod((n as int) / 10, 10);
        lemma_fundamental_div_mod((n as int) / 100, 10);
        lemma_mod_bound(n as int, 10);
        lemma_mod_bound((n as int) / 10, 10);
        lemma_mod_bound((n as int) / 100, 10);
        lemma_div_denominator(n as int, 10, 10);
        lemma_div_denominator(n as int, 100, 10);
        lemma_div_is_ordered(n as int, 9999, 1000);
        lemma_fundamental_div_mod_converse(9999, 1000, 9, 999);
        assert((n as int) / 1000 <= 9);
    }
    let d0 = digit_char(n / 1000);
    let d1 = digit_char((n / 100) % 10);
    let d2 = digit_char((n / 10) % 10);
    let d3 = digit_char(n % 10);
    let mut v: Vec<char> = Vec::new();
    v.push(d0);
    v.push(d1);
    v.push(d2);
    v.push(d3);
    proof {
        let s0 = Seq::<char>::empty();
        let s1 = s0.push(d0);
        let s2 = s1.push(d1);
        let s3 = s2.push(d2);
        assert(v@ =~= s3.push(d3));
        lemma_num_val_push(s0, d0);
        lemma_num_val_push(s1, d1);
        lemma_num_val_push(s2, d2);
        lemma_num_val_push(s3, d3);
        assert(num_val(s2) == (n as int) / 100);
        assert(num_val(s3) == (n as int) / 10);
        assert(all_digits(v@)) by {
            assert(v@[0] == d0 && v@[1] == d1 && v@[2] == d2 && v@[3] == d3);
        }
    }
    v
}

/// A `YYYY-MM-DD` token for a valid date.
fn date_token(y: u64, m: u64, d: u64) -> (v: Vec<char>)
    requires
        valid_date(y as int, m as int, d as int),
        1970 <= y <= 9999,
    ensures
        date_parts(v@) == Option::Some((y as int, m as int, d as int)),
        is_token(v@),
{
    let mut v = four_digits(y);
    let ghost gy = v@;
    v.push('-');
    let mut mm = two_digits(m);
    let ghost gm = mm@;
    v.append(&mut mm);
    v.push('-');
    let mut dd = two_digits(d);
    let ghost gd = dd@;
    v.append(&mut dd);
    proof {
        assert(v@ =~= gy.push('-') + gm + seq!['-'] + gd);
        assert(v@.len() == 10);
        assert(v@.subrange(0, 4) =~= gy);
        assert(v@.subrange(5, 7) =~= gm);
        assert(v@.subrange(8, 10) =~= gd);
        assert(v@[4] == '-' && v@[7] == '-');
        assert(date_parts(v@) == Option::Some((y as int, m as int, d as int)));
        assert forall|i: int| 0 <= i < v@.len() implies !is_space(v@[i]) by {
            if i == 4 || i == 7 {
                assert(v@[i] == '-');
            } else if i < 4 {
                assert(v@[i] == gy[i]);
                lemma_digit_not_space(gy[i]);
            } else if i < 7 {
                assert(v@[i] == gm[i - 5]);
                lemma_digit_not_space(gm[i - 5]);
            } else {
                assert(v@[i] == gd[i - 8]);
                lemma_digit_not_space(gd[i - 8]);
            }
        }
    }
    v
}

/// An `HH:MM:SS` token for a valid time of day.
fn time_token(h: u64, mi: u64, s: u64) -> (v: Vec<char>)
    requires
        valid_time(h as int, mi as int, s as int),
    ensures
        time_parts(v@) == Option::Some((h as int, mi as int, s as int)),
        is_token(v@),
{
    let mut v = two_digits(h);
    let ghost gh = v@;
    v.push(':');
    let mut m2 = two_digits(mi);
    let ghost gm = m2@;
    v.append(&mut m2);
    v.push(':');
    let mut s2 = two_digits(s);
    let ghost gs = s2@;
    v.append(&mut s2);
    proof {
        assert(v@ =~= gh.push(':') + gm + seq![':'] + gs);
        assert(v@.len() == 8);
        assert(v@.subrange(0, 2) =~= gh);
        assert(v@.subrange(3, 5) =~= gm);
        assert(v@.subrange(6, 8) =~= gs);
        assert(v@[2] == ':' && v@[5] == ':');
        assert(time_parts(v@) == Option::Some((h as int, mi as int, s as int)));
        assert forall|i: int| 0 <= i < v@.len() implies !is_space(v@[i]) by {
            if i == 2 || i == 5 {
                assert(v@[i] == ':');
            } else if i < 2 {
                assert(v@[i] == gh[i]);
                lemma_digit_not_space(gh[i]);
            } else if i < 5 {
                assert(v@[i] == gm[i - 3]);
                lemma_digit_not_space(gm[i - 3]);
            } else {
                assert(v@[i] == gs[i - 6]);
                lemma_digit_not_space(gs[i - 6]);
            }
        }
    }
    v
}

/// A well-formed candle: one the 7-token line shape can carry.  The
/// event is a single non-empty token, the prices are decimal numerals,
/// and the timestamp is between the epoch and 9999-12-31 23:59:59 UTC+9.
pub open spec fn candle_wf(c: CandleModel) -> bool {
    &&& is_token(c.event)
    &&& is_numeral(c.open)
    &&& is_numeral(c.high)
    &&& is_numeral(c.close)
    &&& is_numeral(c.low)
    &&& 0 <= c.timestamp <= max_epoch()
}

/// Formats a candle as the 7-token line shape, `date time event open
/// high close low` in the fixed UTC+9 offset.  Succeeds exactly on
/// well-formed candles, and the line decodes back to the same candle:
/// the classifier round-trip.
#[verifier::loop_isolation(false)]
pub fn format_candle(c: &Candle) -> (r: Option<String>)
    ensures
        r is Some <==> candle_wf(c@),
        match r {
            Option::Some(line) => candle_of(line@) == Result::<CandleModel, DecodeError>::Ok(c@),
            Option::None => true,
        },
{
    let event = chars_vec(c.event.as_str());
    let open = chars_vec(c.open.as_str());
    let high = chars_vec(c.high.as_str());
    let close = chars_vec(c.close.as_str());
    let low = chars_vec(c.low.as_str());
    proof {
        lemma_max_epoch();
    }
    if c.timestamp > 253402268399 {
        return Option::None;
    }
    if event.len() == 0 {
        return Option::None;
    }
    let mut i: usize = 0;
    while i < event.len()
        invariant
            i <= event@.len(),
            forall|k: int| 0 <= k < i ==> !is_space(event@[k]),
        decreases event@.len() - i,
    {
        if space_char(event[i]) {
            return Option::None;
        }
        i = i + 1;
    }
    if !(numeral_check(&open) && numeral_check(&high) && numeral_check(&close) && numeral_check(
        &low,
    )) {
        return Option::None;
    }
    let (y, m, d, h, mi, s) = civil_from_epoch(c.timestamp);
    let date = date_token(y, m, d);
    let time = time_token(h, mi, s);
    let ghost toks: Seq<Seq<char>> = seq![date@, time@, event@, open@, high@, close@, low@];
    let mut line: Vec<char> = Vec::new();
    let mut piece = date;
    line.append(&mut piece);
    line.push(' ');
    let mut piece = time;
    line.append(&mut piece);
    line.push(' ');
    let mut piece = event;
    line.append(&mut piece);
    line.push(' ');
    let mut piece = open;
    line.append(&mut piece);
    line.push(' ');
    let mut piece = high;
    line.append(&mut piece);
    line.push(' ');
    let mut piece = close;
    line.append(&mut piece);
    line.push(' ');
    let mut piece = low;
    line.append(&mut piece);
    proof {
        let t6 = seq![toks[6]];
        let t5 = seq![toks[5], toks[6]];
        let t4 = seq![toks[4], toks[5], toks[6]];
        let t3 = seq![toks[3], toks[4], toks[5], toks[6]];
        let t2 = seq![toks[2], toks[3], toks[4], toks[5], toks[6]];
        let t1 = seq![toks[1], toks[2], toks[3], toks[4], toks[5], toks[6]];
        assert(join_spaced(t6) == toks[6]);
        assert(t5.drop_first() =~= t6);
        assert(join_spaced(t5) == toks[5] + seq![' '] + join_spaced(t6));
        assert(t4.drop_first() =~= t5);
        assert(join_spaced(t4) == toks[4] + seq![' '] + join_spaced(t5));
        assert(t3.drop_first() =~= t4);
        assert(join_spaced(t3) == toks[3] + seq![' '] + join_spaced(t4));
        assert(t2.drop_first() =~= t3);
        assert(join_spaced(t2) == toks[2] + seq![' '] + join_spaced(t3));
        assert(t1.drop_first() =~= t2);
        assert(join_spaced(t1) == toks[1] + seq![' '] + join_spaced(t2));
        assert(toks.drop_first() =~= t1);
        assert(join_spaced(toks) == toks[0] + seq![' '] + join_spaced(t1));
        assert(line@ =~= join_spaced(toks));
        assert forall|k: int| 0 <= k < toks.len() implies is_token(#[trigger] toks[k]) by {
            if k == 3 {
                lemma_numeral_is_token(toks[3]);
            } else if k == 4 {
                lemma_numeral_is_token(toks[4]);
            } else if k == 5 {
                lemma_numeral_is_token(toks[5]);
            } else if k == 6 {
                lemma_numeral_is_token(toks[6]);
            }
        }
        lemma_tokenize_join(toks);
        assert(candle_of(line@) == Result::<CandleModel, DecodeError>::Ok(c@)) by {
            assert(tokenize(line@).len() == 7);
            assert(tokenize(line@)[0] == date@ && tokenize(line@)[1] == time@ && tokenize(line@)[2]
                == event@ && tokenize(line@)[3] == open@ && tokenize(line@)[4] == high@ && tokenize(
                line@,
            )[5] == close@ && tokenize(line@)[6] == low@);
        }
    }
    let out = string_from_chars(&line);
    Option::Some(out)
}

} // verus!
