//! The recurrence-token grammar: an optional leading `.`, one or more `+`,
//! a decimal amount and a unit letter, with the amount clamped to at least 1;
//! and the secondary classification of the same token into a frequency.

use vstd::prelude::*;
use crate::text::{
    digits_val, all_digits, is_digit, is_ws, numeral_body, parse_u32_s, parse_u32, scan_len,
    lemma_scan_len, trim_s, trim, str_chars, slice_to_vec_chars,
};

verus! {

#[derive(Clone, Copy, PartialEq, Eq, Structural, Debug)]
pub enum RepeaterUnit {
    Day,
    Week,
    Month,
    Year,
}

#[derive(Clone, Copy, PartialEq, Eq, Structural, Debug)]
pub struct Repeater {
    pub amount: u32,
    pub unit: RepeaterUnit,
}

pub open spec fn unit_of_char(c: char) -> Option<RepeaterUnit> {
    if c == 'd' || c == 'D' {
        Some(RepeaterUnit::Day)
    } else if c == 'w' || c == 'W' {
        Some(RepeaterUnit::Week)
    } else if c == 'm' || c == 'M' {
        Some(RepeaterUnit::Month)
    } else if c == 'y' || c == 'Y' {
        Some(RepeaterUnit::Year)
    } else {
        None
    }
}

pub open spec fn clamp_amount(n: u32) -> u32 {
    if n == 0 {
        1u32
    } else {
        n
    }
}

/// After trimming: an optional `.`, then one or more `+`, an optional `/`,
/// one or more digits that fit `u32`, and a unit letter; anything after the
/// unit letter is ignored. The amount is clamped to at least 1.
pub open spec fn parse_repeater_s(seg: Seq<char>) -> Option<Repeater> {
    let t0 = trim_s(seg);
    let t1 = if t0.len() > 0 && t0[0] == '.' {
        t0.drop_first()
    } else {
        t0
    };
    let plus = scan_len(t1, |c: char| c != '+');
    let t2 = t1.skip(plus);
    let t3 = if t2.len() > 0 && t2[0] == '/' {
        t2.drop_first()
    } else {
        t2
    };
    let d = scan_len(t3, |c: char| !is_digit(c));
    if t0.len() == 0 || plus == 0 || d == 0 || digits_val(t3.take(d)) > u32::MAX || d >= t3.len() {
        None
    } else {
        match unit_of_char(t3[d]) {
            None => None,
            Some(unit) => Some(
                Repeater { amount: clamp_amount(digits_val(t3.take(d)) as u32), unit },
            ),
        }
    }
}

/// Parses a repeater token such as `++2w` or `.+1d`.
pub fn parse_repeater(segment: &str) -> (r: Option<Repeater>)
    ensures
        r == parse_repeater_s(segment@),
{
    let chars = str_chars(segment);
    parse_repeater_chars(&chars)
}

/// As `parse_repeater`, from a character buffer.
pub fn parse_repeater_chars(seg: &Vec<char>) -> (r: Option<Repeater>)
    ensures
        r == parse_repeater_s(seg@),
{
    let t0 = trim(seg);
    if t0.len() == 0 {
        return None;
    }
    let t1: Vec<char> = if t0[0] == '.' {
        slice_to_vec_chars(&t0, 1, t0.len())
    } else {
        t0
    };
    proof {
        assert(t1@ =~= if trim_s(seg@).len() > 0 && trim_s(seg@)[0] == '.' {
            trim_s(seg@).drop_first()
        } else {
            trim_s(seg@)
        });
    }
    let n1 = t1.len();
    let mut plus: usize = 0;
    while plus < n1 && t1[plus] == '+'
        invariant
            0 <= plus <= n1,
            n1 == t1@.len(),
            forall|j: int| 0 <= j < plus ==> t1@[j] == '+',
        decreases n1 - plus,
    {
        plus = plus + 1;
    }
    proof {
        lemma_scan_len(t1@, |c: char| c != '+', plus as int);
    }
    if plus == 0 {
        return None;
    }
    let t2 = slice_to_vec_chars(&t1, plus, n1);
    proof {
        assert(t2@ =~= t1@.skip(plus as int));
    }
    let t3: Vec<char> = if t2.len() > 0 && t2[0] == '/' {
        slice_to_vec_chars(&t2, 1, t2.len())
    } else {
        t2
    };
    proof {
        assert(t3@ =~= if t1@.skip(plus as int).len() > 0 && t1@.skip(plus as int)[0] == '/' {
            t1@.skip(plus as int).drop_first()
        } else {
            t1@.skip(plus as int)
        });
    }
    let n3 = t3.len();
    let mut d: usize = 0;
    while d < n3 && '0' <= t3[d] && t3[d] <= '9'
        invariant
            0 <= d <= n3,
            n3 == t3@.len(),
            forall|j: int| 0 <= j < d ==> is_digit(t3@[j]),
        decreases n3 - d,
    {
        d = d + 1;
    }
    proof {
        lemma_scan_len(t3@, |c: char| !is_digit(c), d as int);
    }
    if d == 0 {
        return None;
    }
    let digits = slice_to_vec_chars(&t3, 0, d);
    proof {
        assert(digits@ =~= t3@.take(d as int));
        assert(numeral_body(digits@) == digits@);
    }
    let amount_opt = parse_u32(&digits);
    let amount: u32;
    match amount_opt {
        None => {
            return None;
        },
        Some(a) => {
            amount = a;
        },
    }
    if d >= n3 {
        return None;
    }
    let unit: RepeaterUnit;
    match unit_char_value(t3[d]) {
        None => {
            return None;
        },
        Some(u) => {
            unit = u;
        },
    }
    let clamped: u32 = if amount == 0 {
        1
    } else {
        amount
    };
    Some(Repeater { amount: clamped, unit })
}

/// Law: every token the grammar accepts carries a positive amount, so the
/// advance laws apply to every parsed repeater.
pub proof fn lemma_parsed_amount_positive(seg: Seq<char>)
    ensures
        parse_repeater_s(seg) matches Some(rep) ==> rep.amount >= 1,
{
}

fn unit_char_value(c: char) -> (r: Option<RepeaterUnit>)
    ensures
        r == unit_of_char(c),
{
    if c == 'd' || c == 'D' {
        Some(RepeaterUnit::Day)
    } else if c == 'w' || c == 'W' {
        Some(RepeaterUnit::Week)
    } else if c == 'm' || c == 'M' {
        Some(RepeaterUnit::Month)
    } else if c == 'y' || c == 'Y' {
        Some(RepeaterUnit::Year)
    } else {
        None
    }
}

#[derive(Clone, Copy, PartialEq, Eq, Structural, Debug)]
pub enum HabitFrequency {
    Daily(u32),
    Weekly(u32),
    Monthly(u32),
    Yearly(u32),
}

/// The frequency a token classifies into: leading `+`s dropped, then leading
/// `.`s, then the last character is the unit letter and the rest is the
/// amount as the standard integer parser reads it, clamped to at least 1.
pub open spec fn parse_frequency_s(token: Seq<char>) -> Option<HabitFrequency> {
    let n0 = token.skip(scan_len(token, |c: char| c != '+'));
    let n1 = n0.skip(scan_len(n0, |c: char| c != '.'));
    if n1.len() == 0 {
        None
    } else {
        match parse_u32_s(n1.drop_last()) {
            None => None,
            Some(q) => {
                let c = n1.last();
                if c == 'd' || c == 'D' {
                    Some(HabitFrequency::Daily(clamp_amount(q)))
                } else if c == 'w' || c == 'W' {
                    Some(HabitFrequency::Weekly(clamp_amount(q)))
                } else if c == 'm' || c == 'M' {
                    Some(HabitFrequency::Monthly(clamp_amount(q)))
                } else if c == 'y' || c == 'Y' {
                    Some(HabitFrequency::Yearly(clamp_amount(q)))
                } else {
                    None
                }
            },
        }
    }
}

/// Classifies a repeater token into a frequency.
pub fn parse_frequency(token: &str) -> (r: Option<HabitFrequency>)
    ensures
        r == parse_frequency_s(token@),
{
    let chars = str_chars(token);
    parse_frequency_chars(&chars)
}

/// As `parse_frequency`, from a character buffer.
pub fn parse_frequency_chars(token: &Vec<char>) -> (r: Option<HabitFrequency>)
    ensures
        r == parse_frequency_s(token@),
{
    let n = token.len();
    let mut p: usize = 0;
    while p < n && token[p] == '+'
        invariant
            0 <= p <= n,
            n == token@.len(),
            forall|j: int| 0 <= j < p ==> token@[j] == '+',
        decreases n - p,
    {
        p = p + 1;
    }
    proof {
        lemma_scan_len(token@, |c: char| c != '+', p as int);
    }
    let ghost n0 = token@.skip(p as int);
    let mut q: usize = p;
    while q < n && token[q] == '.'
        invariant
            p <= q <= n,
            n == token@.len(),
            forall|j: int| p <= j < q ==> token@[j] == '.',
        decreases n - q,
    {
        q = q + 1;
    }
    proof {
        assert(forall|j: int| 0 <= j < q - p ==> n0[j] == '.');
        lemma_scan_len(n0, |c: char| c != '.', q - p);
        assert(n0.skip(q - p) =~= token@.skip(q as int));
    }
    let ghost n1 = n0.skip(q - p);
    if q == n {
        return None;
    }
    let value_part = slice_to_vec_chars(token, q, n - 1);
    proof {
        assert(value_part@ =~= n1.drop_last());
    }
    let parsed = parse_u32(&value_part);
    let amount: u32;
    match parsed {
        None => {
            return None;
        },
        Some(a) => {
            amount = a;
        },
    }
    let clamped: u32 = if amount == 0 {
        1
    } else {
        amount
    };
    let c = token[n - 1];
    proof {
        assert(n1.last() == token@[n - 1]);
    }
    if c == 'd' || c == 'D' {
        Some(HabitFrequency::Daily(clamped))
    } else if c == 'w' || c == 'W' {
        Some(HabitFrequency::Weekly(clamped))
    } else if c == 'm' || c == 'M' {
        Some(HabitFrequency::Monthly(clamped))
    } else if c == 'y' || c == 'Y' {
        Some(HabitFrequency::Yearly(clamped))
    } else {
        None
    }
}

#[derive(Clone, PartialEq, Eq, Debug)]
pub struct HabitRepeater {
    pub raw: String,
    pub frequency: Option<HabitFrequency>,
}

impl HabitRepeater {
    /// Keeps the raw token and its best-effort frequency classification.
    pub fn from_token(token: &str) -> (r: HabitRepeater)
        ensures
            r.raw@ == token@,
            r.frequency == parse_frequency_s(token@),
    {
        let frequency = parse_frequency(token);
        HabitRepeater { raw: token.to_owned(), frequency }
    }

    /// As `from_token`, from an owned character buffer.
    pub fn from_token_chars(token: &Vec<char>) -> (r: HabitRepeater)
        ensures
            r.raw@ == token@,
            r.frequency == parse_frequency_s(token@),
    {
        let frequency = parse_frequency_chars(token);
        HabitRepeater { raw: crate::text::chars_string(token), frequency }
    }
}

} // verus!
