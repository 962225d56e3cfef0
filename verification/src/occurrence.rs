//! The occurrence calculus: where a fixed or repeating date falls relative
//! to a target day and to today, with warning windows, overdue rules, and a
//! bounded catch-up search over repeater steps.

use vstd::prelude::*;
use crate::date::{
    Date, date_valid, day_number, date_of_day_number, max_day_number, lemma_date_of_day_number,
    lemma_date_order, date_lex_lt, add_months_spec, add_years_spec, add_days, add_months,
    add_years, date_lt,
};
use crate::repeater::{Repeater, RepeaterUnit};
use crate::agenda::{AgendaItem, AgendaKind, ItemModel, item_wf};
use crate::text::{dec_digits, dec_int, str_chars, push_all, u64_digits, i64_digits, chars_string};

verus! {

/// Hard cap on catch-up steps: a repeater that cannot reach the target day
/// within this many steps yields no occurrence instead of looping.
pub const ADVANCE_STEP_LIMIT: u32 = 2048;

/// One repeater step: day and week amounts add fixed day counts; month and
/// year amounts use calendar-aware addition.
pub open spec fn advance_once_spec(d: Date, rep: Repeater) -> Option<Date> {
    match rep.unit {
        RepeaterUnit::Day => {
            if day_number(d) + rep.amount <= max_day_number() {
                Some(date_of_day_number(day_number(d) + rep.amount))
            } else {
                None
            }
        },
        RepeaterUnit::Week => {
            if day_number(d) + 7 * rep.amount <= max_day_number() {
                Some(date_of_day_number(day_number(d) + 7 * rep.amount))
            } else {
                None
            }
        },
        RepeaterUnit::Month => add_months_spec(d, rep.amount as int),
        RepeaterUnit::Year => add_years_spec(d, rep.amount as int),
    }
}

pub proof fn lemma_advance_once_valid(d: Date, rep: Repeater)
    requires
        date_valid(d),
        advance_once_spec(d, rep) is Some,
    ensures
        date_valid(advance_once_spec(d, rep).unwrap()),
{
    crate::date::lemma_day_number_range(d);
    match rep.unit {
        RepeaterUnit::Day => {
            lemma_date_of_day_number(day_number(d) + rep.amount);
        },
        RepeaterUnit::Week => {
            lemma_date_of_day_number(day_number(d) + 7 * rep.amount);
        },
        RepeaterUnit::Month => {
            let total = d.year * 12 + (d.month - 1) + rep.amount;
            assert(0 <= total % 12 < 12) by (nonlinear_arith)
                requires
                    total >= 0,
            ;
        },
        RepeaterUnit::Year => {},
    }
}

/// Law: one repeater step with a positive amount moves a valid date
/// strictly forward.
pub proof fn lemma_advance_once_monotone(d: Date, rep: Repeater)
    requires
        date_valid(d),
        rep.amount >= 1,
        advance_once_spec(d, rep) is Some,
    ensures
        date_valid(advance_once_spec(d, rep).unwrap()),
        day_number(advance_once_spec(d, rep).unwrap()) > day_number(d),
{
    lemma_advance_once_valid(d, rep);
    crate::date::lemma_day_number_range(d);
    let e = advance_once_spec(d, rep).unwrap();
    match rep.unit {
        RepeaterUnit::Day => {
            lemma_date_of_day_number(day_number(d) + rep.amount);
        },
        RepeaterUnit::Week => {
            lemma_date_of_day_number(day_number(d) + 7 * rep.amount);
        },
        RepeaterUnit::Month => {
            let total = d.year * 12 + (d.month - 1) + rep.amount;
            let ty = total / 12;
            let tm = total % 12 + 1;
            assert(total == 12 * ty + (tm - 1) && 1 <= tm <= 12) by (nonlinear_arith)
                requires
                    total >= 0,
                    ty == total / 12,
                    tm == total % 12 + 1,
            ;
            assert(ty >= d.year);
            assert(date_lex_lt(d, e));
            lemma_date_order(d, e);
        },
        RepeaterUnit::Year => {
            assert(date_lex_lt(d, e));
            lemma_date_order(d, e);
        },
    }
}

/// `k` repeater steps from `d`, absent as soon as one step leaves the
/// representable range.
pub open spec fn advance_iter(d: Date, rep: Repeater, k: nat) -> Option<Date>
    decreases k,
{
    if k == 0 {
        Some(d)
    } else {
        match advance_iter(d, rep, (k - 1) as nat) {
            None => None,
            Some(e) => advance_once_spec(e, rep),
        }
    }
}

/// Law: iterating a positive repeater is monotonically non-decreasing in
/// the step count.
pub proof fn lemma_advance_iter_monotone(d: Date, rep: Repeater, k: nat)
    requires
        date_valid(d),
        rep.amount >= 1,
        advance_iter(d, rep, k + 1) is Some,
    ensures
        advance_iter(d, rep, k) is Some,
        date_valid(advance_iter(d, rep, k).unwrap()),
        date_valid(advance_iter(d, rep, (k + 1) as nat).unwrap()),
        day_number(advance_iter(d, rep, (k + 1) as nat).unwrap()) >= day_number(
            advance_iter(d, rep, k).unwrap(),
        ),
    decreases k,
{
    if k == 0 {
        lemma_advance_once_monotone(d, rep);
    } else {
        lemma_advance_iter_monotone(d, rep, (k - 1) as nat);
        lemma_advance_once_monotone(advance_iter(d, rep, k).unwrap(), rep);
    }
}

/// The first iterate of `rep` from `cur` that is on or after `target`,
/// giving up after `fuel` steps.
pub open spec fn advance_search(cur: Date, rep: Repeater, target: Date, fuel: nat) -> Option<Date>
    decreases fuel,
{
    if day_number(cur) >= day_number(target) {
        Some(cur)
    } else if fuel == 0 {
        None
    } else {
        match advance_once_spec(cur, rep) {
            None => None,
            Some(nxt) => advance_search(nxt, rep, target, (fuel - 1) as nat),
        }
    }
}

/// Law: a start already on or past the target comes back unchanged.
pub proof fn lemma_advance_search_fixed(d: Date, rep: Repeater, target: Date, fuel: nat)
    requires
        day_number(d) >= day_number(target),
    ensures
        advance_search(d, rep, target, fuel) == Some(d),
{
}

pub proof fn lemma_advance_search_result(cur: Date, rep: Repeater, target: Date, fuel: nat)
    requires
        date_valid(cur),
    ensures
        advance_search(cur, rep, target, fuel) matches Some(o) ==> date_valid(o) && day_number(o)
            >= day_number(target),
    decreases fuel,
{
    if day_number(cur) >= day_number(target) {
    } else if fuel == 0 {
    } else {
        match advance_once_spec(cur, rep) {
            None => {},
            Some(nxt) => {
                lemma_advance_once_valid(cur, rep);
                lemma_advance_search_result(nxt, rep, target, (fuel - 1) as nat);
            },
        }
    }
}

/// Advances `start` by whole repeater steps until it is on or after
/// `target`, bounded by `ADVANCE_STEP_LIMIT` steps.
pub fn advance_to_on_or_after(start: &Date, rep: &Repeater, target: &Date) -> (r: Option<Date>)
    requires
        date_valid(*start),
        date_valid(*target),
    ensures
        r == advance_search(*start, *rep, *target, ADVANCE_STEP_LIMIT as nat),
        r matches Some(o) ==> date_valid(o) && day_number(o) >= day_number(*target),
{
    proof {
        lemma_advance_search_result(*start, *rep, *target, ADVANCE_STEP_LIMIT as nat);
    }
    let mut cur: Date = *start;
    let mut fuel: u32 = ADVANCE_STEP_LIMIT;
    while date_lt(&cur, target)
        invariant
            date_valid(cur),
            date_valid(*target),
            fuel <= ADVANCE_STEP_LIMIT,
            advance_search(*start, *rep, *target, ADVANCE_STEP_LIMIT as nat) == advance_search(
                cur,
                *rep,
                *target,
                fuel as nat,
            ),
        decreases fuel,
    {
        if fuel == 0 {
            return None;
        }
        match advance_once(&cur, rep) {
            None => {
                return None;
            },
            Some(nxt) => {
                cur = nxt;
            },
        }
        fuel = fuel - 1;
    }
    Some(cur)
}

/// One repeater step from a valid date.
pub fn advance_once(date: &Date, repeater: &Repeater) -> (r: Option<Date>)
    requires
        date_valid(*date),
    ensures
        r == advance_once_spec(*date, *repeater),
        r matches Some(e) ==> date_valid(e),
{
    proof {
        if advance_once_spec(*date, *repeater) is Some {
            lemma_advance_once_valid(*date, *repeater);
        }
        crate::date::lemma_max_day_number_bound();
        crate::date::lemma_day_number_range(*date);
    }
    match repeater.unit {
        RepeaterUnit::Day => add_days(date, repeater.amount),
        RepeaterUnit::Week => {
            let total: u64 = 7 * (repeater.amount as u64);
            if total > 0xffff_ffff {
                None
            } else {
                add_days(date, total as u32)
            }
        },
        RepeaterUnit::Month => add_months(date, repeater.amount),
        RepeaterUnit::Year => add_years(date, repeater.amount),
    }
}

pub open spec fn opt_repeater(rep: Option<&Repeater>) -> Option<Repeater> {
    match rep {
        Some(r) => Some(*r),
        None => None,
    }
}

/// A deadline's resolved occurrence: the fixed date if there is no repeater
/// or it has not yet passed the target day; otherwise the first repeat on or
/// after the target day, clamped to not precede today.
pub open spec fn deadline_occurrence_spec(due: Date, rep: Option<Repeater>, day: Date, today: Date) -> Option<
    Date,
> {
    match rep {
        None => Some(due),
        Some(r) => {
            if day_number(due) >= day_number(day) {
                Some(due)
            } else {
                match advance_search(due, r, day, ADVANCE_STEP_LIMIT as nat) {
                    None => None,
                    Some(o) => {
                        if day_number(o) < day_number(today) {
                            Some(today)
                        } else {
                            Some(o)
                        }
                    },
                }
            }
        },
    }
}

/// Resolves a deadline's occurrence for a target day.
pub fn deadline_occurrence_for_day(
    due: &Date,
    repeater: Option<&Repeater>,
    day: &Date,
    today: &Date,
) -> (r: Option<Date>)
    requires
        date_valid(*due),
        date_valid(*day),
        date_valid(*today),
    ensures
        r == deadline_occurrence_spec(*due, opt_repeater(repeater), *day, *today),
        r matches Some(o) ==> date_valid(o),
{
    match repeater {
        None => Some(*due),
        Some(rep) => {
            if !date_lt(due, day) {
                Some(*due)
            } else {
                match advance_to_on_or_after(due, rep, day) {
                    None => None,
                    Some(o) => {
                        if date_lt(&o, today) {
                            Some(*today)
                        } else {
                            Some(o)
                        }
                    },
                }
            }
        },
    }
}

/// The label of a deadline `diff` days from the target day.
pub open spec fn deadline_prefix(diff: int) -> Seq<char> {
    if diff < 0 {
        "Due "@ + dec_digits(-diff) + " d. ago"@
    } else if diff == 0 {
        "Due"@
    } else if diff == 1 {
        "Due in 1 day"@
    } else {
        "Due in "@ + dec_digits(diff) + " d."@
    }
}

fn build_deadline_prefix(diff: i64) -> (r: String)
    requires
        -4611686018427387904 <= diff <= 4611686018427387904,
    ensures
        r@ == deadline_prefix(diff as int),
{
    if diff < 0 {
        let mut v = str_chars("Due ");
        let digits = u64_digits((-diff) as u64);
        push_all(&mut v, &digits);
        let tail = str_chars(" d. ago");
        push_all(&mut v, &tail);
        chars_string(&v)
    } else if diff == 0 {
        let v = str_chars("Due");
        chars_string(&v)
    } else if diff == 1 {
        let v = str_chars("Due in 1 day");
        chars_string(&v)
    } else {
        let mut v = str_chars("Due in ");
        let digits = u64_digits(diff as u64);
        push_all(&mut v, &digits);
        let tail = str_chars(" d.");
        push_all(&mut v, &tail);
        chars_string(&v)
    }
}

/// The label of an item scheduled `n` days ago.
pub open spec fn scheduled_ago_prefix(n: int) -> Seq<char> {
    "Scheduled "@ + dec_digits(n) + " d. ago"@
}

fn build_scheduled_ago_prefix(n: i64) -> (r: String)
    requires
        0 <= n,
    ensures
        r@ == scheduled_ago_prefix(n as int),
{
    let mut v = str_chars("Scheduled ");
    let digits = u64_digits(n as u64);
    push_all(&mut v, &digits);
    let tail = str_chars(" d. ago");
    push_all(&mut v, &tail);
    chars_string(&v)
}

/// The label of an item scheduled `diff` days ahead.
pub open spec fn scheduled_future_prefix(diff: int) -> Seq<char> {
    if diff == 1 {
        "Scheduled for tomorrow"@
    } else {
        "Scheduled in "@ + dec_int(diff) + " d."@
    }
}

/// Writes the label of an item scheduled `diff` days ahead.
pub fn format_scheduled_future(diff: i64) -> (r: String)
    ensures
        r@ == scheduled_future_prefix(diff as int),
{
    if diff == 1 {
        let v = str_chars("Scheduled for tomorrow");
        chars_string(&v)
    } else {
        let mut v = str_chars("Scheduled in ");
        let digits = i64_digits(diff);
        push_all(&mut v, &digits);
        let tail = str_chars(" d.");
        push_all(&mut v, &tail);
        chars_string(&v)
    }
}

/// A resolved occurrence: an optional display prefix, whether the item is
/// overdue, and the date the occurrence fell on.
#[derive(Clone, PartialEq, Eq, Debug)]
pub struct AgendaItemOccurrence {
    pub prefix: Option<String>,
    pub is_overdue: bool,
    pub occurrence_date: Date,
}

pub struct OccurrenceModel {
    pub prefix: Option<Seq<char>>,
    pub is_overdue: bool,
    pub occurrence_date: Date,
}

impl View for AgendaItemOccurrence {
    type V = OccurrenceModel;

    open spec fn view(&self) -> OccurrenceModel {
        OccurrenceModel {
            prefix: match self.prefix {
                Some(ref p) => Some(p@),
                None => None,
            },
            is_overdue: self.is_overdue,
            occurrence_date: self.occurrence_date,
        }
    }
}

pub open spec fn view_occ(r: Option<AgendaItemOccurrence>) -> Option<OccurrenceModel> {
    match r {
        Some(o) => Some(o@),
        None => None,
    }
}

/// What a deadline item shows on `day`: nothing outside the warning window,
/// nothing when past-due off today's view, otherwise a prefix describing the
/// distance, overdue exactly when the occurrence precedes the target day.
pub open spec fn describe_deadline_spec(m: ItemModel, day: Date, today: Date, warning_days: int) -> Option<
    OccurrenceModel,
> {
    match m.date {
        None => None,
        Some(due) => {
            match deadline_occurrence_spec(due, m.repeater, day, today) {
                None => None,
                Some(occ) => {
                    let diff = day_number(occ) - day_number(day);
                    if diff > warning_days {
                        None
                    } else if diff < 0 && day != today {
                        None
                    } else {
                        Some(
                            OccurrenceModel {
                                prefix: Some(deadline_prefix(diff)),
                                is_overdue: diff < 0,
                                occurrence_date: occ,
                            },
                        )
                    }
                },
            }
        },
    }
}

/// Resolves and labels a deadline item's occurrence on `day`.
pub fn describe_deadline_for_day(
    item: &AgendaItem,
    day: &Date,
    today: &Date,
    warning_days: i64,
) -> (r: Option<AgendaItemOccurrence>)
    requires
        item_wf(item@),
        date_valid(*day),
        date_valid(*today),
    ensures
        view_occ(r) == describe_deadline_spec(item@, *day, *today, warning_days as int),
{
    let due: Date = match item.date {
        None => {
            return None;
        },
        Some(d) => d,
    };
    let rep_ref: Option<&Repeater> = match item.repeater {
        Some(ref rp) => Some(rp),
        None => None,
    };
    let occ: Date = match deadline_occurrence_for_day(&due, rep_ref, day, today) {
        None => {
            return None;
        },
        Some(o) => o,
    };
    proof {
        crate::date::lemma_max_day_number_bound();
        crate::date::lemma_day_number_range(occ);
        crate::date::lemma_day_number_range(*day);
        lemma_date_order(occ, *day);
    }
    let diff: i64 = crate::date::days_between(&occ, day);
    if diff > warning_days {
        return None;
    }
    if diff < 0 && !(day.year == today.year && day.month == today.month && day.day == today.day) {
        return None;
    }
    let prefix = build_deadline_prefix(diff);
    Some(AgendaItemOccurrence { prefix: Some(prefix), is_overdue: diff < 0, occurrence_date: occ })
}

/// What a scheduled item shows on `day`, per the warning-window and
/// past-due rules of the calculus.
pub open spec fn describe_scheduled_spec(m: ItemModel, day: Date, today: Date, warning_days: int) -> Option<
    OccurrenceModel,
> {
    match m.date {
        None => None,
        Some(scheduled) => {
            if m.repeater is None && day_number(scheduled) < day_number(day) {
                if day == today {
                    Some(
                        OccurrenceModel {
                            prefix: Some(
                                scheduled_ago_prefix(day_number(day) - day_number(scheduled)),
                            ),
                            is_overdue: true,
                            occurrence_date: scheduled,
                        },
                    )
                } else {
                    None
                }
            } else {
                let occ_opt = match m.repeater {
                    Some(rep) => advance_search(scheduled, rep, day, ADVANCE_STEP_LIMIT as nat),
                    None => Some(scheduled),
                };
                match occ_opt {
                    None => None,
                    Some(occ) => {
                        let diff = day_number(occ) - day_number(day);
                        if diff == 0 {
                            Some(
                                OccurrenceModel {
                                    prefix: None,
                                    is_overdue: day_number(day) < day_number(today),
                                    occurrence_date: occ,
                                },
                            )
                        } else if day == today && 0 < diff <= warning_days {
                            Some(
                                OccurrenceModel {
                                    prefix: Some(scheduled_future_prefix(diff)),
                                    is_overdue: false,
                                    occurrence_date: occ,
                                },
                            )
                        } else if day == today && diff < 0 {
                            Some(
                                OccurrenceModel {
                                    prefix: Some(scheduled_ago_prefix(-diff)),
                                    is_overdue: true,
                                    occurrence_date: occ,
                                },
                            )
                        } else {
                            None
                        }
                    },
                }
            }
        },
    }
}

/// Resolves and labels a scheduled item's occurrence on `day`.
pub fn describe_scheduled_for_day(
    item: &AgendaItem,
    day: &Date,
    today: &Date,
    warning_days: i64,
) -> (r: Option<AgendaItemOccurrence>)
    requires
        item_wf(item@),
        date_valid(*day),
        date_valid(*today),
    ensures
        view_occ(r) == describe_scheduled_spec(item@, *day, *today, warning_days as int),
{
    let scheduled: Date = match item.date {
        None => {
            return None;
        },
        Some(d) => d,
    };
    proof {
        crate::date::lemma_max_day_number_bound();
    }
    let is_today: bool = day.year == today.year && day.month == today.month && day.day
        == today.day;
    if item.repeater.is_none() && date_lt(&scheduled, day) {
        if is_today {
            let n = crate::date::days_between(day, &scheduled);
            let prefix = build_scheduled_ago_prefix(n);
            return Some(
                AgendaItemOccurrence {
                    prefix: Some(prefix),
                    is_overdue: true,
                    occurrence_date: scheduled,
                },
            );
        }
        return None;
    }
    let occ: Date = match item.repeater {
        Some(ref rep) => {
            match advance_to_on_or_after(&scheduled, rep, day) {
                None => {
                    return None;
                },
                Some(o) => o,
            }
        },
        None => scheduled,
    };
    let diff: i64 = crate::date::days_between(&occ, day);
    if diff == 0 {
        return Some(
            AgendaItemOccurrence {
                prefix: None,
                is_overdue: date_lt(day, today),
                occurrence_date: occ,
            },
        );
    }
    if is_today && 0 < diff && diff <= warning_days {
        let prefix = format_scheduled_future(diff);
        return Some(
            AgendaItemOccurrence { prefix: Some(prefix), is_overdue: false, occurrence_date: occ },
        );
    }
    if is_today && diff < 0 {
        let prefix = build_scheduled_ago_prefix(-diff);
        return Some(
            AgendaItemOccurrence { prefix: Some(prefix), is_overdue: true, occurrence_date: occ },
        );
    }
    None
}

/// What an item shows on `day`: deadlines and scheduled items by their own
/// rules, floating items never.
pub open spec fn describe_item_spec(m: ItemModel, day: Date, today: Date, warning_days: int) -> Option<
    OccurrenceModel,
> {
    match m.kind {
        AgendaKind::Deadline => describe_deadline_spec(m, day, today, warning_days),
        AgendaKind::Scheduled => describe_scheduled_spec(m, day, today, warning_days),
        AgendaKind::Floating => None,
    }
}

/// Resolves and labels an item's occurrence on `day`, by its kind.
pub fn describe_item_for_day(item: &AgendaItem, day: &Date, today: &Date, warning_days: i64) -> (r:
    Option<AgendaItemOccurrence>)
    requires
        item_wf(item@),
        date_valid(*day),
        date_valid(*today),
    ensures
        view_occ(r) == describe_item_spec(item@, *day, *today, warning_days as int),
{
    match item.kind {
        AgendaKind::Deadline => describe_deadline_for_day(item, day, today, warning_days),
        AgendaKind::Scheduled => describe_scheduled_for_day(item, day, today, warning_days),
        AgendaKind::Floating => None,
    }
}

} // verus!
