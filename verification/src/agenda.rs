//! Timed items harvested from outline documents: each heading yields one
//! item per scheduling timestamp present (or one floating item with none),
//! and the collected items are sorted by date, time, kind, title, source
//! path and heading line.

use vstd::prelude::*;
use vstd::multiset::Multiset;
use crate::date::{Date, date_valid, days_in_month_s};
use crate::repeater::{Repeater, parse_repeater_s, parse_repeater_chars};
use crate::text::{
    is_ws, is_digit, digits_val, all_digits, scan_len, lemma_scan_len, trim_s, trim_start_s, trim,
    str_chars, slice_to_vec_chars, chars_string, eq_icase_s, eq_icase, tokens_s, tokens,
    lines_of, split_lines, find_char, push_all, has_prefix,
};

verus! {

#[derive(Clone, Copy, PartialEq, Eq, Structural, Debug)]
pub enum AgendaKind {
    Scheduled,
    Deadline,
    Floating,
}

/// Order used by the sorting contract: Scheduled before Deadline before
/// Floating.
pub open spec fn kind_rank(k: AgendaKind) -> int {
    match k {
        AgendaKind::Scheduled => 0,
        AgendaKind::Deadline => 1,
        AgendaKind::Floating => 2,
    }
}

/// A clock time within a day.
#[derive(Clone, Copy, PartialEq, Eq, Structural, Debug)]
pub struct TimeOfDay {
    pub hour: u32,
    pub minute: u32,
}

pub open spec fn time_valid(t: TimeOfDay) -> bool {
    t.hour <= 23 && t.minute <= 59
}

pub open spec fn time_minutes(t: TimeOfDay) -> int {
    t.hour * 60 + t.minute
}

/// One scheduling row of a heading.
#[derive(Clone, PartialEq, Eq, Debug)]
pub struct AgendaItem {
    pub title: String,
    pub date: Option<Date>,
    pub time: Option<TimeOfDay>,
    pub context: String,
    pub path: String,
    pub headline_line: usize,
    pub todo_keyword: Option<String>,
    pub kind: AgendaKind,
    pub timestamp_raw: Option<String>,
    pub repeater: Option<Repeater>,
}

/// The mathematical shadow of an `AgendaItem`.
#[verifier::ext_equal]
pub struct ItemModel {
    pub title: Seq<char>,
    pub date: Option<Date>,
    pub time: Option<TimeOfDay>,
    pub context: Seq<char>,
    pub path: Seq<char>,
    pub headline_line: int,
    pub todo_keyword: Option<Seq<char>>,
    pub kind: AgendaKind,
    pub timestamp_raw: Option<Seq<char>>,
    pub repeater: Option<Repeater>,
}

pub open spec fn view_opt_string(s: Option<String>) -> Option<Seq<char>> {
    match s {
        Some(x) => Some(x@),
        None => None,
    }
}

impl View for AgendaItem {
    type V = ItemModel;

    open spec fn view(&self) -> ItemModel {
        ItemModel {
            title: self.title@,
            date: self.date,
            time: self.time,
            context: self.context@,
            path: self.path@,
            headline_line: self.headline_line as int,
            todo_keyword: view_opt_string(self.todo_keyword),
            kind: self.kind,
            timestamp_raw: view_opt_string(self.timestamp_raw),
            repeater: self.repeater,
        }
    }
}

/// An item is well formed when its date and time are calendar values.
pub open spec fn item_wf(m: ItemModel) -> bool {
    &&& (m.date matches Some(d) ==> crate::date::date_valid(d))
    &&& (m.time matches Some(t) ==> time_valid(t))
}

/// A date token of the fixed grammar: exactly `YYYY-MM-DD`, and a calendar
/// day.
pub open spec fn parse_date_s(t: Seq<char>) -> Option<Date> {
    if t.len() == 10 && is_digit(t[0]) && is_digit(t[1]) && is_digit(t[2]) && is_digit(t[3])
        && t[4] == '-' && is_digit(t[5]) && is_digit(t[6]) && t[7] == '-' && is_digit(t[8])
        && is_digit(t[9]) {
        let d = Date {
            year: digits_val(t.subrange(0, 4)) as u32,
            month: digits_val(t.subrange(5, 7)) as u32,
            day: digits_val(t.subrange(8, 10)) as u32,
        };
        if date_valid(d) {
            Some(d)
        } else {
            None
        }
    } else {
        None
    }
}

/// Parses a `YYYY-MM-DD` token.
pub fn parse_date_chars(t: &Vec<char>) -> (r: Option<Date>)
    ensures
        r == parse_date_s(t@),
        r matches Some(d) ==> date_valid(d),
{
    if !(t.len() == 10) {
        return None;
    }
    let mut k: usize = 0;
    while k < 10
        invariant
            0 <= k <= 10,
            t@.len() == 10,
            forall|j: int| 0 <= j < k && j != 4 && j != 7 ==> is_digit(t@[j]),
            forall|j: int| 0 <= j < k && (j == 4 || j == 7) ==> t@[j] == '-',
        decreases 10 - k,
    {
        let c = t[k];
        if k == 4 || k == 7 {
            if c != '-' {
                return None;
            }
        } else {
            if !('0' <= c && c <= '9') {
                return None;
            }
        }
        k = k + 1;
    }
    let year = digit_pair(t[0], t[1]) * 100 + digit_pair(t[2], t[3]);
    let month = digit_pair(t[5], t[6]);
    let day = digit_pair(t[8], t[9]);
    proof {
        let s4 = t@.subrange(0, 4);
        assert(s4.drop_last() =~= t@.subrange(0, 3));
        assert(t@.subrange(0, 3).drop_last() =~= t@.subrange(0, 2));
        assert(t@.subrange(0, 2).drop_last() =~= t@.subrange(0, 1));
        assert(t@.subrange(0, 1).drop_last() =~= t@.subrange(0, 0));
        assert(digits_val(t@.subrange(0, 0)) == 0);
        assert(digits_val(t@.subrange(0, 1)) == digit_at(t@, 0));
        assert(digits_val(t@.subrange(0, 2)) == digit_at(t@, 0) * 10 + digit_at(t@, 1));
        assert(digits_val(t@.subrange(0, 3)) == digits_val(t@.subrange(0, 2)) * 10 + digit_at(
            t@,
            2,
        ));
        assert(digits_val(s4) == digits_val(t@.subrange(0, 3)) * 10 + digit_at(t@, 3));
        assert(year == digits_val(s4));
        assert(t@.subrange(5, 7).drop_last() =~= t@.subrange(5, 6));
        assert(t@.subrange(5, 6).drop_last() =~= t@.subrange(5, 5));
        assert(digits_val(t@.subrange(5, 5)) == 0);
        assert(digits_val(t@.subrange(5, 6)) == digit_at(t@, 5));
        assert(digits_val(t@.subrange(5, 7)) == digits_val(t@.subrange(5, 6)) * 10 + digit_at(
            t@,
            6,
        ));
        assert(t@.subrange(8, 10).drop_last() =~= t@.subrange(8, 9));
        assert(t@.subrange(8, 9).drop_last() =~= t@.subrange(8, 8));
        assert(digits_val(t@.subrange(8, 8)) == 0);
        assert(digits_val(t@.subrange(8, 9)) == digit_at(t@, 8));
        assert(digits_val(t@.subrange(8, 10)) == digits_val(t@.subrange(8, 9)) * 10 + digit_at(
            t@,
            9,
        ));
    }
    let dim = crate::date::days_in_month(year as i32, month);
    if 1 <= month && month <= 12 && 1 <= day && day <= dim {
        Some(Date { year, month, day })
    } else {
        None
    }
}

pub open spec fn digit_at(s: Seq<char>, i: int) -> int {
    crate::text::digit_val(s[i])
}

fn digit_pair(a: char, b: char) -> (r: u32)
    requires
        is_digit(a),
        is_digit(b),
    ensures
        r == crate::text::digit_val(a) * 10 + crate::text::digit_val(b),
        r <= 99,
{
    ((a as u32) - 48) * 10 + ((b as u32) - 48)
}

/// A clock-time token: the part before any `-` must be `H:MM`-shaped with a
/// one- or two-digit hour and minute, in range.
pub open spec fn parse_time_s(t: Seq<char>) -> Option<TimeOfDay> {
    let cand = t.take(scan_len(t, |c: char| c == '-'));
    let i = scan_len(cand, |c: char| c == ':');
    if i >= cand.len() {
        None
    } else {
        let hp = cand.take(i);
        let mp = cand.skip(i + 1);
        if 1 <= hp.len() <= 2 && all_digits(hp) && 1 <= mp.len() <= 2 && all_digits(mp)
            && digits_val(hp) <= 23 && digits_val(mp) <= 59 {
            Some(TimeOfDay { hour: digits_val(hp) as u32, minute: digits_val(mp) as u32 })
        } else {
            None
        }
    }
}

/// Reads a clock-time token.
pub fn parse_time_chars(t: &Vec<char>) -> (r: Option<TimeOfDay>)
    ensures
        r == parse_time_s(t@),
        r matches Some(x) ==> time_valid(x),
{
    let n = t.len();
    let mut dash: usize = 0;
    while dash < n && t[dash] != '-'
        invariant
            0 <= dash <= n,
            n == t@.len(),
            forall|j: int| 0 <= j < dash ==> t@[j] != '-',
        decreases n - dash,
    {
        dash = dash + 1;
    }
    proof {
        lemma_scan_len(t@, |c: char| c == '-', dash as int);
    }
    let ghost cand = t@.take(dash as int);
    let mut i: usize = 0;
    while i < dash && t[i] != ':'
        invariant
            0 <= i <= dash <= n,
            n == t@.len(),
            forall|j: int| 0 <= j < i ==> t@[j] != ':',
        decreases dash - i,
    {
        i = i + 1;
    }
    proof {
        assert(forall|j: int| 0 <= j < i ==> cand[j] != ':');
        lemma_scan_len(cand, |c: char| c == ':', i as int);
    }
    if i >= dash {
        return None;
    }
    let hp = slice_to_vec_chars(t, 0, i);
    let mp = slice_to_vec_chars(t, i + 1, dash);
    proof {
        assert(hp@ =~= cand.take(i as int));
        assert(mp@ =~= cand.skip(i + 1));
    }
    if !(1 <= hp.len() && hp.len() <= 2 && 1 <= mp.len() && mp.len() <= 2) {
        return None;
    }
    let hv = match small_number(&hp) {
        None => {
            return None;
        },
        Some(v) => v,
    };
    let mv = match small_number(&mp) {
        None => {
            return None;
        },
        Some(v) => v,
    };
    if hv <= 23 && mv <= 59 {
        Some(TimeOfDay { hour: hv, minute: mv })
    } else {
        None
    }
}

/// Value of a one- or two-digit numeral, absent on any other character.
fn small_number(v: &Vec<char>) -> (r: Option<u32>)
    requires
        1 <= v@.len() <= 2,
    ensures
        r is Some <==> all_digits(v@),
        r matches Some(x) ==> x == digits_val(v@) && x <= 99,
{
    let c0 = v[0];
    if !('0' <= c0 && c0 <= '9') {
        return None;
    }
    if v.len() == 1 {
        proof {
            assert(v@.drop_last() =~= Seq::<char>::empty());
            assert(digits_val(Seq::<char>::empty()) == 0);
            assert(v@.last() == v@[0]);
        }
        Some((c0 as u32) - 48)
    } else {
        let c1 = v[1];
        if !('0' <= c1 && c1 <= '9') {
            return None;
        }
        proof {
            assert(v@.drop_last() =~= v@.subrange(0, 1));
            assert(v@.subrange(0, 1).drop_last() =~= Seq::<char>::empty());
            assert(digits_val(Seq::<char>::empty()) == 0);
            assert(v@.subrange(0, 1).last() == v@[0]);
            assert(digits_val(v@.subrange(0, 1)) == crate::text::digit_val(v@[0]));
            assert(digits_val(v@) == digits_val(v@.subrange(0, 1)) * 10 + crate::text::digit_val(
                v@[1],
            ));
        }
        Some(((c0 as u32) - 48) * 10 + ((c1 as u32) - 48))
    }
}

/// A parsed bracketed timestamp: date, clock time, raw inner text and
/// repeater, each best-effort.
#[verifier::ext_equal]
pub struct TsModel {
    pub date: Option<Date>,
    pub time: Option<TimeOfDay>,
    pub raw: Option<Seq<char>>,
    pub repeater: Option<Repeater>,
}

pub open spec fn ts_wf(t: TsModel) -> bool {
    &&& (t.date matches Some(d) ==> date_valid(d))
    &&& (t.time matches Some(x) ==> time_valid(x))
}

/// Walks the words after the date: the first time-shaped word becomes the
/// time, the first repeater-shaped word among the rest the repeater.
pub open spec fn ts_fold(
    toks: Seq<Seq<char>>,
    time: Option<TimeOfDay>,
    rep: Option<Repeater>,
) -> (Option<TimeOfDay>, Option<Repeater>)
    decreases toks.len(),
{
    if toks.len() == 0 {
        (time, rep)
    } else {
        let t = toks[0];
        if time is None && parse_time_s(t) is Some {
            ts_fold(toks.drop_first(), parse_time_s(t), rep)
        } else if rep is None && parse_repeater_s(t) is Some {
            ts_fold(toks.drop_first(), time, parse_repeater_s(t))
        } else {
            ts_fold(toks.drop_first(), time, rep)
        }
    }
}

/// A bracketed timestamp `<date [weekday] [HH:MM[-HH:MM]] [repeater]>`: the
/// text between the first `<` and the next `>`, its first word read as the
/// date, the rest folded for time and repeater; the inner text kept raw.
pub open spec fn parse_timestamp_s(seg: Seq<char>) -> Option<TsModel> {
    let a = scan_len(seg, |c: char| c == '<');
    if a >= seg.len() {
        None
    } else {
        let tail = seg.skip(a + 1);
        let e = scan_len(tail, |c: char| c == '>');
        if e >= tail.len() {
            None
        } else {
            let inner = tail.take(e);
            let toks = tokens_s(inner);
            let date = if toks.len() > 0 {
                parse_date_s(toks[0])
            } else {
                None
            };
            let tr = ts_fold(
                if toks.len() > 0 {
                    toks.drop_first()
                } else {
                    toks
                },
                None,
                None,
            );
            Some(TsModel { date, time: tr.0, raw: Some(inner), repeater: tr.1 })
        }
    }
}

/// The timestamp of a `SCHEDULED:`/`DEADLINE:` line: what follows the first
/// colon, trimmed, read as a bracketed timestamp.
pub open spec fn parse_timestamp_line_s(line: Seq<char>) -> Option<TsModel> {
    let i = scan_len(line, |c: char| c == ':');
    if i >= line.len() {
        None
    } else {
        parse_timestamp_s(trim_s(line.skip(i + 1)))
    }
}

pub struct TimestampInfo {
    pub date: Option<Date>,
    pub time: Option<TimeOfDay>,
    pub raw: Option<Vec<char>>,
    pub repeater: Option<Repeater>,
}

impl View for TimestampInfo {
    type V = TsModel;

    open spec fn view(&self) -> TsModel {
        TsModel {
            date: self.date,
            time: self.time,
            raw: match self.raw {
                Some(ref v) => Some(v@),
                None => None,
            },
            repeater: self.repeater,
        }
    }
}

/// Parses a bracketed timestamp.
pub fn parse_timestamp_chars(seg: &Vec<char>) -> (r: Option<TimestampInfo>)
    ensures
        (match r {
            Some(info) => parse_timestamp_s(seg@) == Some(info@) && ts_wf(info@),
            None => parse_timestamp_s(seg@) is None,
        }),
{
    let n = seg.len();
    let a = match find_char(seg, '<', 0) {
        None => {
            proof {
                lemma_scan_len(seg@, |c: char| c == '<', n as int);
            }
            return None;
        },
        Some(i) => i,
    };
    proof {
        lemma_scan_len(seg@, |c: char| c == '<', a as int);
    }
    let tail = slice_to_vec_chars(seg, a + 1, n);
    proof {
        assert(tail@ =~= seg@.skip(a + 1));
    }
    let e = match find_char(&tail, '>', 0) {
        None => {
            proof {
                lemma_scan_len(tail@, |c: char| c == '>', tail@.len() as int);
            }
            return None;
        },
        Some(i) => i,
    };
    proof {
        lemma_scan_len(tail@, |c: char| c == '>', e as int);
    }
    let inner = slice_to_vec_chars(&tail, 0, e);
    proof {
        assert(inner@ =~= tail@.take(e as int));
    }
    let toks = tokens(&inner);
    let ghost tokv = toks@.map_values(|t: Vec<char>| t@);
    let date: Option<Date> = if toks.len() > 0 {
        parse_date_chars(&toks[0])
    } else {
        None
    };
    let mut time: Option<TimeOfDay> = None;
    let mut rep: Option<Repeater> = None;
    let m = toks.len();
    if m == 0 {
        return Some(TimestampInfo { date, time: None, raw: Some(inner), repeater: None });
    }
    let ghost rest = tokv.drop_first();
    let mut k: usize = 1;
    proof {
        assert(rest =~= tokv.skip(1));
    }
    while k < m
        invariant
            1 <= k <= m,
            m == tokv.len(),
            tokv == toks@.map_values(|t: Vec<char>| t@),
            rest =~= tokv.skip(1),
            ts_fold(rest, None, None) == ts_fold(tokv.skip(k as int), time, rep),
            time matches Some(x) ==> time_valid(x),
        decreases m - k,
    {
        let tok = &toks[k];
        proof {
            assert(tokv.skip(k as int)[0] == tok@);
            assert(tokv.skip(k as int).drop_first() =~= tokv.skip(k + 1));
        }
        if time.is_none() {
            match parse_time_chars(tok) {
                Some(t) => {
                    time = Some(t);
                    k = k + 1;
                    continue ;
                },
                None => {},
            }
        }
        if rep.is_none() {
            match parse_repeater_chars(tok) {
                Some(rp) => {
                    rep = Some(rp);
                    k = k + 1;
                    continue ;
                },
                None => {},
            }
        }
        k = k + 1;
    }
    proof {
        assert(tokv.skip(m as int) =~= Seq::<Seq<char>>::empty());
    }
    Some(TimestampInfo { date, time, raw: Some(inner), repeater: rep })
}

/// Parses the timestamp of a scheduling line.
pub fn parse_timestamp_from_line(line: &Vec<char>) -> (r: Option<TimestampInfo>)
    ensures
        (match r {
            Some(info) => parse_timestamp_line_s(line@) == Some(info@) && ts_wf(info@),
            None => parse_timestamp_line_s(line@) is None,
        }),
{
    let n = line.len();
    let i = match find_char(line, ':', 0) {
        None => {
            proof {
                lemma_scan_len(line@, |c: char| c == ':', n as int);
            }
            return None;
        },
        Some(i) => i,
    };
    proof {
        lemma_scan_len(line@, |c: char| c == ':', i as int);
    }
    let after = slice_to_vec_chars(line, i + 1, n);
    proof {
        assert(after@ =~= line@.skip(i + 1));
    }
    let rest = trim(&after);
    parse_timestamp_chars(&rest)
}

/// The scan state between lines: the open heading's fields, if any.
#[verifier::ext_equal]
pub struct ScanModel {
    pub title: Option<Seq<char>>,
    pub todo: Option<Seq<char>>,
    pub line_index: int,
    pub body: Seq<Seq<char>>,
    pub sched: Option<TsModel>,
    pub dead: Option<TsModel>,
}

pub open spec fn init_scan() -> ScanModel {
    ScanModel {
        title: None,
        todo: None,
        line_index: 0,
        body: Seq::empty(),
        sched: None,
        dead: None,
    }
}

pub open spec fn non_blank(l: Seq<char>) -> bool {
    trim_s(l).len() > 0
}

pub open spec fn join_lines(ls: Seq<Seq<char>>) -> Seq<char>
    decreases ls.len(),
{
    if ls.len() == 0 {
        Seq::empty()
    } else if ls.len() == 1 {
        ls[0]
    } else {
        ls[0] + seq!['\n'] + join_lines(ls.drop_first())
    }
}

pub proof fn lemma_join_lines_push(ls: Seq<Seq<char>>, l: Seq<char>)
    ensures
        join_lines(ls.push(l)) =~= if ls.len() == 0 {
            l
        } else {
            join_lines(ls) + seq!['\n'] + l
        },
    decreases ls.len(),
{
    if ls.len() == 0 {
        assert(ls.push(l).len() == 1);
        assert(ls.push(l)[0] == l);
    } else {
        assert(ls.push(l).drop_first() =~= ls.drop_first().push(l));
        lemma_join_lines_push(ls.drop_first(), l);
        assert(ls.push(l)[0] == ls[0]);
    }
}

/// A heading's context: its non-blank body lines joined by newlines.
pub open spec fn context_of(body: Seq<Seq<char>>) -> Seq<char> {
    join_lines(body.filter(|l: Seq<char>| non_blank(l)))
}

pub open spec fn ts_item(
    title: Seq<char>,
    ctx: Seq<char>,
    path: Seq<char>,
    line: int,
    todo: Option<Seq<char>>,
    kind: AgendaKind,
    ts: TsModel,
) -> ItemModel {
    ItemModel {
        title,
        date: ts.date,
        time: ts.time,
        context: ctx,
        path,
        headline_line: line,
        todo_keyword: todo,
        kind,
        timestamp_raw: ts.raw,
        repeater: ts.repeater,
    }
}

/// Closing a heading emits one item per timestamp kind present, or one
/// floating item with neither.
pub open spec fn emit_items(st: ScanModel, path: Seq<char>) -> Seq<ItemModel> {
    match st.title {
        None => Seq::empty(),
        Some(title) => {
            let ctx = context_of(st.body);
            if st.sched is None && st.dead is None {
                seq![
                    ItemModel {
                        title,
                        date: None,
                        time: None,
                        context: ctx,
                        path,
                        headline_line: st.line_index,
                        todo_keyword: st.todo,
                        kind: AgendaKind::Floating,
                        timestamp_raw: None,
                        repeater: None,
                    },
                ]
            } else {
                let sched_items: Seq<ItemModel> = match st.sched {
                    Some(ts) => seq![
                        ts_item(title, ctx, path, st.line_index, st.todo, AgendaKind::Scheduled, ts),
                    ],
                    None => Seq::empty(),
                };
                let dead_items: Seq<ItemModel> = match st.dead {
                    Some(ts) => seq![
                        ts_item(title, ctx, path, st.line_index, st.todo, AgendaKind::Deadline, ts),
                    ],
                    None => Seq::empty(),
                };
                sched_items + dead_items
            }
        },
    }
}

pub open spec fn is_drawer_close(tr: Seq<char>) -> bool {
    eq_icase_s(tr, ":END:"@)
}

/// A drawer delimiter `:NAME:`: colon-wrapped and not the closing `:END:`.
pub open spec fn is_drawer_open(tr: Seq<char>) -> bool {
    tr.len() > 1 && tr[0] == ':' && tr.last() == ':' && !is_drawer_close(tr)
}

pub open spec fn starts_sched(tr: Seq<char>) -> bool {
    "SCHEDULED:"@.is_prefix_of(tr)
}

pub open spec fn starts_dead(tr: Seq<char>) -> bool {
    "DEADLINE:"@.is_prefix_of(tr)
}

/// One line of the scan: drawer delimiters toggle the drawer flag, a star
/// line closes the open heading and opens a new one, drawer lines are
/// dropped, scheduling lines set the pending timestamps, and the rest is
/// body text.
pub open spec fn scan_step(st: ScanModel, dr: bool, line: Seq<char>, idx: int, path: Seq<char>) -> (
    ScanModel,
    bool,
    Seq<ItemModel>,
) {
    let tr = trim_s(line);
    if is_drawer_open(tr) {
        (st, true, Seq::empty())
    } else if is_drawer_close(tr) && dr {
        (st, false, Seq::empty())
    } else if line.len() > 0 && line[0] == '*' {
        let emitted = emit_items(st, path);
        let hp = parse_headline_s(line);
        (
            ScanModel {
                title: Some(hp.1),
                todo: hp.0,
                line_index: idx,
                body: Seq::empty(),
                sched: None,
                dead: None,
            },
            false,
            emitted,
        )
    } else if dr {
        (st, dr, Seq::empty())
    } else if starts_sched(tr) {
        match parse_timestamp_line_s(tr) {
            Some(info) => (
                ScanModel {
                    title: st.title,
                    todo: st.todo,
                    line_index: st.line_index,
                    body: st.body,
                    sched: Some(info),
                    dead: st.dead,
                },
                dr,
                Seq::empty(),
            ),
            None => (st, dr, Seq::empty()),
        }
    } else if starts_dead(tr) {
        match parse_timestamp_line_s(tr) {
            Some(info) => (
                ScanModel {
                    title: st.title,
                    todo: st.todo,
                    line_index: st.line_index,
                    body: st.body,
                    sched: st.sched,
                    dead: Some(info),
                },
                dr,
                Seq::empty(),
            ),
            None => (st, dr, Seq::empty()),
        }
    } else {
        (
            ScanModel {
                title: st.title,
                todo: st.todo,
                line_index: st.line_index,
                body: st.body.push(line),
                sched: st.sched,
                dead: st.dead,
            },
            dr,
            Seq::empty(),
        )
    }
}

/// The whole scan: each line steps the state, and the end of input flushes
/// the last open heading.
pub open spec fn scan_fold(
    lines: Seq<Seq<char>>,
    idx: int,
    st: ScanModel,
    dr: bool,
    acc: Seq<ItemModel>,
    path: Seq<char>,
) -> Seq<ItemModel>
    decreases lines.len(),
{
    if lines.len() == 0 {
        acc + emit_items(st, path)
    } else {
        let step = scan_step(st, dr, lines[0], idx, path);
        scan_fold(lines.drop_first(), idx + 1, step.0, step.1, acc + step.2, path)
    }
}

/// The items of one document, in scan order, before sorting.
pub open spec fn timed_items_spec(text: Seq<char>, path: Seq<char>) -> Seq<ItemModel> {
    scan_fold(lines_of(text), 0, init_scan(), false, Seq::empty(), path)
}

pub open spec fn is_upper(c: char) -> bool {
    'A' <= c && c <= 'Z'
}

/// Splits a heading line into its optional todo keyword and title: after the
/// leading stars and surrounding whitespace, the first word is the keyword
/// exactly when every character in it is an uppercase ASCII letter.
pub open spec fn parse_headline_s(line: Seq<char>) -> (Option<Seq<char>>, Seq<char>) {
    let content = trim_s(line.skip(scan_len(line, |c: char| c != '*')));
    if content.len() == 0 {
        (None, Seq::empty())
    } else {
        let h = scan_len(content, |c: char| is_ws(c));
        let first = content.take(h);
        if forall|j: int| 0 <= j < first.len() ==> is_upper(first[j]) {
            (Some(first), trim_start_s(content.skip(h)))
        } else {
            (None, content)
        }
    }
}

/// Parses a heading line into its todo keyword and title.
pub fn parse_headline(line: &str) -> (r: (Option<String>, String))
    ensures
        view_opt_string(r.0) == parse_headline_s(line@).0,
        r.1@ == parse_headline_s(line@).1,
{
    let chars = str_chars(line);
    let (t, title) = parse_headline_chars(&chars);
    (t, title)
}

/// As `parse_headline`, from a character buffer.
pub fn parse_headline_chars(line: &Vec<char>) -> (r: (Option<String>, String))
    ensures
        view_opt_string(r.0) == parse_headline_s(line@).0,
        r.1@ == parse_headline_s(line@).1,
{
    let n = line.len();
    let mut stars: usize = 0;
    while stars < n && line[stars] == '*'
        invariant
            0 <= stars <= n,
            n == line@.len(),
            forall|j: int| 0 <= j < stars ==> line@[j] == '*',
        decreases n - stars,
    {
        stars = stars + 1;
    }
    proof {
        lemma_scan_len(line@, |c: char| c != '*', stars as int);
    }
    let after = slice_to_vec_chars(line, stars, n);
    proof {
        assert(after@ =~= line@.skip(stars as int));
    }
    let content = trim(&after);
    let m = content.len();
    if m == 0 {
        let empty_title = String::new();
        proof {
            assert(empty_title@ =~= parse_headline_s(line@).1);
        }
        return (None, empty_title);
    }
    let mut h: usize = 0;
    while h < m && content[h] != ' ' && content[h] != '\t' && content[h] != '\r' && content[h]
        != '\n'
        invariant
            0 <= h <= m,
            m == content@.len(),
            forall|j: int| 0 <= j < h ==> !is_ws(content@[j]),
        decreases m - h,
    {
        h = h + 1;
    }
    proof {
        lemma_scan_len(content@, |c: char| is_ws(c), h as int);
    }
    let mut k: usize = 0;
    let mut upper: bool = true;
    while k < h
        invariant
            0 <= k <= h <= m,
            m == content@.len(),
            upper == forall|j: int| 0 <= j < k ==> is_upper(content@[j]),
        decreases h - k,
    {
        let c = content[k];
        if !('A' <= c && c <= 'Z') {
            upper = false;
        }
        k = k + 1;
    }
    let ghost first = content@.take(h as int);
    proof {
        assert(forall|j: int| 0 <= j < first.len() ==> first[j] == content@[j]);
    }
    if upper {
        let first_vec = slice_to_vec_chars(&content, 0, h);
        let mut r: usize = h;
        while r < m && (content[r] == ' ' || content[r] == '\t' || content[r] == '\r' || content[r]
            == '\n')
            invariant
                h <= r <= m,
                m == content@.len(),
                forall|j: int| h <= j < r ==> is_ws(content@[j]),
            decreases m - r,
        {
            r = r + 1;
        }
        proof {
            let rest = content@.skip(h as int);
            assert(forall|j: int| 0 <= j < r - h ==> is_ws(rest[j]));
            crate::text::lemma_trim_start_skip(rest, r - h);
            assert(rest.skip(r - h) =~= content@.subrange(r as int, m as int));
        }
        let title_vec = slice_to_vec_chars(&content, r, m);
        (Some(chars_string(&first_vec)), chars_string(&title_vec))
    } else {
        proof {
            if forall|j: int| 0 <= j < first.len() ==> is_upper(first[j]) {
                assert forall|j: int| 0 <= j < h implies is_upper(content@[j]) by {
                    assert(first[j] == content@[j]);
                    assert(is_upper(first[j]));
                }
                assert(false);
            }
        }
        (None, chars_string(&content))
    }
}

pub open spec fn items_view(s: Seq<AgendaItem>) -> Seq<ItemModel> {
    s.map_values(|it: AgendaItem| it@)
}

pub open spec fn st_wf(m: ScanModel) -> bool {
    &&& (m.sched matches Some(ts) ==> ts_wf(ts))
    &&& (m.dead matches Some(ts) ==> ts_wf(ts))
}

/// The scan state while walking a document's lines.
pub struct HeadingState {
    pub title: Option<String>,
    pub todo_keyword: Option<String>,
    pub line_index: usize,
    pub lines: Vec<Vec<char>>,
    pub schedule: Option<TimestampInfo>,
    pub deadline: Option<TimestampInfo>,
}

impl View for HeadingState {
    type V = ScanModel;

    open spec fn view(&self) -> ScanModel {
        ScanModel {
            title: match self.title {
                Some(ref t) => Some(t@),
                None => None,
            },
            todo: match self.todo_keyword {
                Some(ref t) => Some(t@),
                None => None,
            },
            line_index: self.line_index as int,
            body: self.lines@.map_values(|l: Vec<char>| l@),
            sched: match self.schedule {
                Some(ref ts) => Some(ts@),
                None => None,
            },
            dead: match self.deadline {
                Some(ref ts) => Some(ts@),
                None => None,
            },
        }
    }
}

/// Joins the non-blank body lines with newlines.
fn build_context(body: &Vec<Vec<char>>) -> (r: Vec<char>)
    ensures
        r@ == context_of(body@.map_values(|l: Vec<char>| l@)),
{
    let ghost bodyv = body@.map_values(|l: Vec<char>| l@);
    let pred = Ghost(|l: Seq<char>| non_blank(l));
    let mut ctx: Vec<char> = Vec::new();
    let mut started: bool = false;
    let n = body.len();
    let mut i: usize = 0;
    proof {
        reveal(Seq::filter);
        assert(bodyv.take(0) =~= Seq::<Seq<char>>::empty());
        assert(bodyv.take(0).filter(pred@) =~= Seq::<Seq<char>>::empty());
    }
    while i < n
        invariant
            0 <= i <= n,
            n == bodyv.len(),
            bodyv == body@.map_values(|l: Vec<char>| l@),
            pred@ == (|l: Seq<char>| non_blank(l)),
            ctx@ =~= join_lines(bodyv.take(i as int).filter(pred@)),
            started == (bodyv.take(i as int).filter(pred@).len() > 0),
        decreases n - i,
    {
        let line = &body[i];
        let t = trim(line);
        let ghost pre = bodyv.take(i as int);
        proof {
            reveal(Seq::filter);
            assert(bodyv.take(i + 1) =~= pre.push(bodyv[i as int]));
            assert(pre.push(bodyv[i as int]).drop_last() =~= pre);
            assert(bodyv[i as int] == line@);
        }
        if t.len() > 0 {
            proof {
                reveal(Seq::filter);
                assert(non_blank(line@));
                assert(bodyv.take(i + 1).filter(pred@) =~= pre.filter(pred@).push(line@));
                lemma_join_lines_push(pre.filter(pred@), line@);
            }
            if started {
                ctx.push('\n');
            }
            push_all(&mut ctx, line);
            started = true;
        } else {
            proof {
                reveal(Seq::filter);
                assert(!non_blank(line@));
                assert(bodyv.take(i + 1).filter(pred@) =~= pre.filter(pred@));
            }
        }
        i = i + 1;
    }
    proof {
        assert(bodyv.take(n as int) =~= bodyv);
    }
    ctx
}

fn view_of_raw(raw: Option<Vec<char>>) -> (r: Option<String>)
    ensures
        view_opt_string(r) == (match raw {
            Some(v) => Some(v@),
            None => None::<Seq<char>>,
        }),
{
    match raw {
        Some(v) => Some(chars_string(&v)),
        None => None,
    }
}

/// Flushes the open heading, if any, into `out`.
fn emit_state(st: HeadingState, path: &Vec<char>, out: &mut Vec<AgendaItem>)
    requires
        st_wf(st@),
        forall|i: int| 0 <= i < old(out)@.len() ==> item_wf(#[trigger] old(out)@[i]@),
    ensures
        items_view(final(out)@) =~= items_view(old(out)@) + emit_items(st@, path@),
        forall|i: int| 0 <= i < final(out)@.len() ==> item_wf(#[trigger] final(out)@[i]@),
{
    let ghost stv = st@;
    let HeadingState { title, todo_keyword, line_index, lines, schedule, deadline } = st;
    let title_str: String = match title {
        None => {
            proof {
                assert(items_view(out@) =~= items_view(out@) + emit_items(stv, path@));
            }
            return ;
        },
        Some(t) => t,
    };
    let ctx = build_context(&lines);
    let context_str = chars_string(&ctx);
    let path_str = chars_string(path);
    let ghost title_seq = title_str@;
    if schedule.is_none() && deadline.is_none() {
        let item = AgendaItem {
            title: title_str,
            date: None,
            time: None,
            context: context_str,
            path: path_str,
            headline_line: line_index,
            todo_keyword,
            kind: AgendaKind::Floating,
            timestamp_raw: None,
            repeater: None,
        };
        let ghost prev = out@;
        out.push(item);
        proof {
            assert(items_view(out@) =~= items_view(prev) + seq![item@]);
            assert(item@ == emit_items(stv, path@)[0]);
            assert(items_view(out@) =~= items_view(prev) + emit_items(stv, path@));
        }
        return ;
    }
    let mut emitted_first = false;
    let ghost sched_items: Seq<ItemModel> = match stv.sched {
        Some(ts) => seq![
            ts_item(
                title_seq,
                context_of(stv.body),
                path@,
                stv.line_index,
                stv.todo,
                AgendaKind::Scheduled,
                ts,
            ),
        ],
        None => Seq::empty(),
    };
    let ghost dead_items: Seq<ItemModel> = match stv.dead {
        Some(ts) => seq![
            ts_item(
                title_seq,
                context_of(stv.body),
                path@,
                stv.line_index,
                stv.todo,
                AgendaKind::Deadline,
                ts,
            ),
        ],
        None => Seq::empty(),
    };
    proof {
        assert(emit_items(stv, path@) =~= sched_items + dead_items);
    }
    match schedule {
        Some(info) => {
            let item = AgendaItem {
                title: title_str.clone(),
                date: info.date,
                time: info.time,
                context: context_str.clone(),
                path: path_str.clone(),
                headline_line: line_index,
                todo_keyword: clone_opt_string(&todo_keyword),
                kind: AgendaKind::Scheduled,
                timestamp_raw: view_of_raw(info.raw),
                repeater: info.repeater,
            };
            let ghost prev = out@;
            out.push(item);
            proof {
                assert(items_view(out@) =~= items_view(prev) + seq![item@]);
                assert(item@ == sched_items[0]);
            }
        },
        None => {},
    }
    match deadline {
        Some(info) => {
            let item = AgendaItem {
                title: title_str,
                date: info.date,
                time: info.time,
                context: context_str,
                path: path_str,
                headline_line: line_index,
                todo_keyword,
                kind: AgendaKind::Deadline,
                timestamp_raw: view_of_raw(info.raw),
                repeater: info.repeater,
            };
            let ghost prev = out@;
            out.push(item);
            proof {
                assert(items_view(out@) =~= items_view(prev) + seq![item@]);
                assert(item@ == dead_items[0]);
            }
        },
        None => {},
    }
    proof {
        assert(items_view(out@) =~= items_view(old(out)@) + (sched_items + dead_items));
    }
}

fn clone_opt_string(s: &Option<String>) -> (r: Option<String>)
    ensures
        view_opt_string(r) == view_opt_string(*s),
{
    match s {
        Some(t) => Some(t.clone()),
        None => None,
    }
}

/// Scans one document into its timed items, in scan order.
pub fn scan_timed_items(path: &str, text: &str) -> (r: Vec<AgendaItem>)
    ensures
        items_view(r@) == timed_items_spec(text@, path@),
        forall|i: int| 0 <= i < r@.len() ==> item_wf(#[trigger] r@[i]@),
{
    let pathv = str_chars(path);
    let textv = str_chars(text);
    let lines = split_lines(&textv);
    let ghost linesv = lines@.map_values(|l: Vec<char>| l@);
    let pat_props = str_chars(":PROPERTIES:");
    let pat_log = str_chars(":LOGBOOK:");
    let pat_end = str_chars(":END:");
    let pat_sched = str_chars("SCHEDULED:");
    let pat_dead = str_chars("DEADLINE:");
    let mut out: Vec<AgendaItem> = Vec::new();
    let mut st = HeadingState {
        title: None,
        todo_keyword: None,
        line_index: 0,
        lines: Vec::new(),
        schedule: None,
        deadline: None,
    };
    let mut dr: bool = false;
    let n = lines.len();
    let mut i: usize = 0;
    proof {
        assert(st@ =~= init_scan());
        assert(linesv.skip(0) =~= linesv);
        assert(items_view(out@) =~= Seq::<ItemModel>::empty());
        assert(st@.body =~= Seq::<Seq<char>>::empty());
    }
    while i < n
        invariant
            0 <= i <= n,
            n == linesv.len(),
            linesv == lines@.map_values(|l: Vec<char>| l@),
            pathv@ == path@,
            pat_props@ == ":PROPERTIES:"@,
            pat_log@ == ":LOGBOOK:"@,
            pat_end@ == ":END:"@,
            pat_sched@ == "SCHEDULED:"@,
            pat_dead@ == "DEADLINE:"@,
            st_wf(st@),
            forall|j: int| 0 <= j < out@.len() ==> item_wf(#[trigger] out@[j]@),
            scan_fold(linesv.skip(i as int), i as int, st@, dr, items_view(out@), path@)
                == timed_items_spec(text@, path@),
        decreases n - i,
    {
        let ghost old_st = st@;
        let ghost old_dr = dr;
        let ghost old_items = items_view(out@);
        let line = &lines[i];
        proof {
            assert(linesv.skip(i as int)[0] == line@);
            assert(linesv.skip(i as int).drop_first() =~= linesv.skip(i + 1));
        }
        let tr = trim(line);
        if tr.len() > 1 && tr[0] == ':' && tr[tr.len() - 1] == ':' && !eq_icase(&tr, &pat_end) {
            dr = true;
        } else if eq_icase(&tr, &pat_end) && dr {
            dr = false;
        } else if line.len() > 0 && line[0] == '*' {
            let ghost emitted = emit_items(old_st, path@);
            emit_state(st, &pathv, &mut out);
            let (todo, title) = parse_headline_chars(line);
            st = HeadingState {
                title: Some(title),
                todo_keyword: todo,
                line_index: i,
                lines: Vec::new(),
                schedule: None,
                deadline: None,
            };
            dr = false;
            proof {
                assert(st@.body =~= Seq::<Seq<char>>::empty());
                assert(st@ == scan_step(old_st, old_dr, line@, i as int, path@).0);
                assert(items_view(out@) =~= old_items + emitted);
            }
        } else if dr {
        } else if has_prefix(&tr, &pat_sched) {
            match parse_timestamp_from_line(&tr) {
                Some(info) => {
                    st.schedule = Some(info);
                },
                None => {},
            }
        } else if has_prefix(&tr, &pat_dead) {
            match parse_timestamp_from_line(&tr) {
                Some(info) => {
                    st.deadline = Some(info);
                },
                None => {},
            }
        } else {
            let owned = slice_to_vec_chars(line, 0, line.len());
            proof {
                assert(owned@ =~= line@);
            }
            st.lines.push(owned);
            proof {
                assert(st@.body =~= old_st.body.push(line@));
            }
        }
        proof {
            let step = scan_step(old_st, old_dr, line@, i as int, path@);
            assert(st@ == step.0);
            assert(dr == step.1);
            assert(items_view(out@) =~= old_items + step.2);
            assert(scan_fold(linesv.skip(i as int), i as int, old_st, old_dr, old_items, path@)
                == scan_fold(linesv.skip(i + 1), i + 1, st@, dr, items_view(out@), path@));
        }
        i = i + 1;
    }
    proof {
        assert(linesv.skip(n as int) =~= Seq::<Seq<char>>::empty());
    }
    let ghost final_st = st@;
    emit_state(st, &pathv, &mut out);
    proof {
        assert(items_view(out@) =~= timed_items_spec(text@, path@));
    }
    out
}

/// Strict lexicographic order on character sequences, by code point.
pub open spec fn seq_lex_lt(a: Seq<char>, b: Seq<char>) -> bool
    decreases a.len(),
{
    if b.len() == 0 {
        false
    } else if a.len() == 0 {
        true
    } else if a[0] != b[0] {
        a[0] < b[0]
    } else {
        seq_lex_lt(a.drop_first(), b.drop_first())
    }
}

pub open spec fn opt_date_lt(a: Option<Date>, b: Option<Date>) -> bool {
    match (a, b) {
        (Option::None, Option::Some(_)) => true,
        (Option::Some(x), Option::Some(y)) => crate::date::date_lex_lt(x, y),
        _ => false,
    }
}

pub open spec fn time_lt(a: TimeOfDay, b: TimeOfDay) -> bool {
    a.hour < b.hour || (a.hour == b.hour && a.minute < b.minute)
}

pub open spec fn opt_time_lt(a: Option<TimeOfDay>, b: Option<TimeOfDay>) -> bool {
    match (a, b) {
        (Option::None, Option::Some(_)) => true,
        (Option::Some(x), Option::Some(y)) => time_lt(x, y),
        _ => false,
    }
}

/// The ordering contract on items: by date, then time, then kind, then
/// title, then source path, then heading line.
pub open spec fn item_le(a: ItemModel, b: ItemModel) -> bool {
    if a.date != b.date {
        opt_date_lt(a.date, b.date)
    } else if a.time != b.time {
        opt_time_lt(a.time, b.time)
    } else if a.kind != b.kind {
        kind_rank(a.kind) < kind_rank(b.kind)
    } else if a.title != b.title {
        seq_lex_lt(a.title, b.title)
    } else if a.path != b.path {
        seq_lex_lt(a.path, b.path)
    } else {
        a.headline_line <= b.headline_line
    }
}

pub open spec fn item_leq() -> spec_fn(ItemModel, ItemModel) -> bool {
    |x: ItemModel, y: ItemModel| item_le(x, y)
}

pub proof fn lemma_seq_lex_connected(a: Seq<char>, b: Seq<char>)
    requires
        a != b,
    ensures
        seq_lex_lt(a, b) || seq_lex_lt(b, a),
    decreases a.len(),
{
    if a.len() == 0 && b.len() == 0 {
        assert(a =~= b);
    } else if a.len() > 0 && b.len() > 0 && a[0] == b[0] {
        if a.drop_first() == b.drop_first() {
            assert(a.drop_first().len() == b.drop_first().len());
            assert(a.len() == b.len());
            assert forall|i: int| 0 <= i < a.len() implies a[i] == b[i] by {
                if i > 0 {
                    assert(a[i] == a.drop_first()[i - 1]);
                    assert(b[i] == b.drop_first()[i - 1]);
                }
            }
            assert(a =~= b);
        }
        lemma_seq_lex_connected(a.drop_first(), b.drop_first());
    }
}

pub proof fn lemma_seq_lex_irrefl(a: Seq<char>)
    ensures
        !seq_lex_lt(a, a),
    decreases a.len(),
{
    if a.len() > 0 {
        lemma_seq_lex_irrefl(a.drop_first());
    }
}

pub proof fn lemma_seq_lex_trans(a: Seq<char>, b: Seq<char>, c: Seq<char>)
    requires
        seq_lex_lt(a, b),
        seq_lex_lt(b, c),
    ensures
        seq_lex_lt(a, c),
    decreases a.len(),
{
    if a.len() > 0 && b.len() > 0 && c.len() > 0 {
        if a[0] == b[0] && b[0] == c[0] {
            lemma_seq_lex_trans(a.drop_first(), b.drop_first(), c.drop_first());
        }
    }
}

pub proof fn lemma_seq_lex_asym(a: Seq<char>, b: Seq<char>)
    requires
        seq_lex_lt(a, b),
    ensures
        !seq_lex_lt(b, a),
        a != b,
    decreases a.len(),
{
    lemma_seq_lex_irrefl(a);
    if a.len() > 0 && b.len() > 0 && a[0] == b[0] {
        lemma_seq_lex_asym(a.drop_first(), b.drop_first());
        if a == b {
        } else {
        }
    } else {
        if a == b {
            assert(seq_lex_lt(a, a));
        }
    }
}

/// Law: the item ordering is total.
pub proof fn lemma_item_le_connected(a: ItemModel, b: ItemModel)
    ensures
        item_le(a, b) || item_le(b, a),
{
    if a.title != b.title {
        lemma_seq_lex_connected(a.title, b.title);
    }
    if a.path != b.path {
        lemma_seq_lex_connected(a.path, b.path);
    }
}

/// Law: the item ordering is transitive.
pub proof fn lemma_item_le_trans(a: ItemModel, b: ItemModel, c: ItemModel)
    requires
        item_le(a, b),
        item_le(b, c),
    ensures
        item_le(a, c),
{
    if a.title != b.title && seq_lex_lt(a.title, b.title) {
        lemma_seq_lex_asym(a.title, b.title);
    }
    if b.title != c.title && seq_lex_lt(b.title, c.title) {
        lemma_seq_lex_asym(b.title, c.title);
    }
    if a.title != b.title && b.title != c.title && seq_lex_lt(a.title, b.title) && seq_lex_lt(
        b.title,
        c.title,
    ) {
        lemma_seq_lex_trans(a.title, b.title, c.title);
        lemma_seq_lex_asym(a.title, c.title);
    }
    if a.path != b.path && seq_lex_lt(a.path, b.path) {
        lemma_seq_lex_asym(a.path, b.path);
    }
    if b.path != c.path && seq_lex_lt(b.path, c.path) {
        lemma_seq_lex_asym(b.path, c.path);
    }
    if a.path != b.path && b.path != c.path && seq_lex_lt(a.path, b.path) && seq_lex_lt(
        b.path,
        c.path,
    ) {
        lemma_seq_lex_trans(a.path, b.path, c.path);
        lemma_seq_lex_asym(a.path, c.path);
    }
}

fn date_field_lt(a: &Option<Date>, b: &Option<Date>) -> (r: bool)
    ensures
        r == opt_date_lt(*a, *b),
{
    match (a, b) {
        (Option::None, Option::Some(_)) => true,
        (Option::Some(x), Option::Some(y)) => {
            if x.year != y.year {
                x.year < y.year
            } else if x.month != y.month {
                x.month < y.month
            } else {
                x.day < y.day
            }
        },
        _ => false,
    }
}

fn seq_lex_lt_exec(a: &String, b: &String) -> (r: bool)
    ensures
        r == seq_lex_lt(a@, b@),
{
    let av = str_chars(a.as_str());
    let bv = str_chars(b.as_str());
    let na = av.len();
    let nb = bv.len();
    let mut k: usize = 0;
    proof {
        assert(av@.skip(0) =~= av@);
        assert(bv@.skip(0) =~= bv@);
    }
    while k < na && k < nb && av[k] == bv[k]
        invariant
            0 <= k <= na,
            0 <= k <= nb,
            na == av@.len(),
            nb == bv@.len(),
            av@ == a@,
            bv@ == b@,
            forall|j: int| 0 <= j < k ==> av@[j] == bv@[j],
            seq_lex_lt(a@, b@) == seq_lex_lt(av@.skip(k as int), bv@.skip(k as int)),
        decreases na - k,
    {
        proof {
            assert(av@.skip(k as int)[0] == av@[k as int]);
            assert(bv@.skip(k as int)[0] == bv@[k as int]);
            assert(av@.skip(k as int).drop_first() =~= av@.skip(k + 1));
            assert(bv@.skip(k as int).drop_first() =~= bv@.skip(k + 1));
        }
        k = k + 1;
    }
    let r: bool;
    if k == na {
        r = k < nb;
        proof {
            assert(av@.skip(k as int).len() == 0);
            assert(seq_lex_lt(av@.skip(k as int), bv@.skip(k as int)) == (k < nb));
        }
    } else if k == nb {
        r = false;
        proof {
            assert(bv@.skip(k as int).len() == 0);
            assert(!seq_lex_lt(av@.skip(k as int), bv@.skip(k as int)));
        }
    } else {
        r = av[k] < bv[k];
        proof {
            assert(av@.skip(k as int)[0] == av@[k as int]);
            assert(bv@.skip(k as int)[0] == bv@[k as int]);
            assert(av@[k as int] != bv@[k as int]);
            assert(seq_lex_lt(av@.skip(k as int), bv@.skip(k as int)) == (av@[k as int]
                < bv@[k as int]));
        }
    }
    r
}

/// Compares two items in the ordering contract.
pub fn item_le_exec(a: &AgendaItem, b: &AgendaItem) -> (r: bool)
    ensures
        r == item_le(a@, b@),
{
    if !opt_date_eq(&a.date, &b.date) {
        date_field_lt(&a.date, &b.date)
    } else if !opt_time_eq(&a.time, &b.time) {
        match (&a.time, &b.time) {
            (Option::None, Option::Some(_)) => true,
            (Option::Some(x), Option::Some(y)) => {
                if x.hour != y.hour {
                    x.hour < y.hour
                } else {
                    x.minute < y.minute
                }
            },
            _ => false,
        }
    } else if kind_rank_exec(&a.kind) != kind_rank_exec(&b.kind) {
        kind_rank_exec(&a.kind) < kind_rank_exec(&b.kind)
    } else if !str_eq(&a.title, &b.title) {
        seq_lex_lt_exec(&a.title, &b.title)
    } else if !str_eq(&a.path, &b.path) {
        seq_lex_lt_exec(&a.path, &b.path)
    } else {
        a.headline_line <= b.headline_line
    }
}

fn kind_rank_exec(k: &AgendaKind) -> (r: u32)
    ensures
        r == kind_rank(*k),
{
    match k {
        AgendaKind::Scheduled => 0,
        AgendaKind::Deadline => 1,
        AgendaKind::Floating => 2,
    }
}

fn opt_date_eq(a: &Option<Date>, b: &Option<Date>) -> (r: bool)
    ensures
        r == (*a == *b),
{
    match (a, b) {
        (Option::None, Option::None) => true,
        (Option::Some(x), Option::Some(y)) => x.year == y.year && x.month == y.month && x.day
            == y.day,
        _ => false,
    }
}

fn opt_time_eq(a: &Option<TimeOfDay>, b: &Option<TimeOfDay>) -> (r: bool)
    ensures
        r == (*a == *b),
{
    match (a, b) {
        (Option::None, Option::None) => true,
        (Option::Some(x), Option::Some(y)) => x.hour == y.hour && x.minute == y.minute,
        _ => false,
    }
}

fn str_eq(a: &String, b: &String) -> (r: bool)
    ensures
        r == (a@ == b@),
{
    a.eq(b)
}

proof fn lemma_multiset_insert_mid(s: Seq<ItemModel>, j: int, x: ItemModel)
    requires
        0 <= j <= s.len(),
    ensures
        s.insert(j, x).to_multiset() =~= s.to_multiset().insert(x),
{
    broadcast use vstd::seq_lib::group_seq_properties;

    assert(s.insert(j, x) =~= s.take(j) + (seq![x] + s.skip(j)));
    vstd::seq_lib::lemma_multiset_commutative(s.take(j), seq![x] + s.skip(j));
    vstd::seq_lib::lemma_multiset_commutative(seq![x], s.skip(j));
    vstd::seq_lib::lemma_multiset_commutative(s.take(j), s.skip(j));
    assert(s.take(j) + s.skip(j) =~= s);
    assert(seq![x] =~= Seq::<ItemModel>::empty().push(x));
    Seq::<ItemModel>::empty().to_multiset_ensures();
    vstd::multiset::lemma_multiset_empty_len(Seq::<ItemModel>::empty().to_multiset());
    assert(seq![x].to_multiset() =~= Multiset::<ItemModel>::empty().insert(x));
}

/// Sorts items by the ordering contract, keeping exactly the same items.
pub fn sort_items(input: Vec<AgendaItem>) -> (r: Vec<AgendaItem>)
    ensures
        items_view(r@).to_multiset() == items_view(input@).to_multiset(),
        vstd::relations::sorted_by(items_view(r@), item_leq()),
        (forall|i: int| 0 <= i < input@.len() ==> item_wf(#[trigger] input@[i]@)) ==> forall|
            i: int,
        |
            0 <= i < r@.len() ==> item_wf(#[trigger] r@[i]@),
{
    let ghost orig = items_view(input@);
    let ghost wf_in = forall|i: int| 0 <= i < input@.len() ==> item_wf(#[trigger] input@[i]@);
    let mut rest = input;
    let mut out: Vec<AgendaItem> = Vec::new();
    proof {
        broadcast use vstd::seq_lib::group_to_multiset_ensures;

        assert(items_view(out@) =~= Seq::<ItemModel>::empty());
    }
    while rest.len() > 0
        invariant
            items_view(out@).to_multiset().add(items_view(rest@).to_multiset())
                =~= orig.to_multiset(),
            vstd::relations::sorted_by(items_view(out@), item_leq()),
            wf_in == (forall|i: int| 0 <= i < input@.len() ==> item_wf(#[trigger] input@[i]@)),
            orig == items_view(input@),
            wf_in ==> forall|i: int| 0 <= i < out@.len() ==> item_wf(#[trigger] out@[i]@),
            wf_in ==> forall|i: int| 0 <= i < rest@.len() ==> item_wf(#[trigger] rest@[i]@),
        decreases rest@.len(),
    {
        let ghost pre_rest = items_view(rest@);
        let x = rest.pop().unwrap();
        proof {
            broadcast use vstd::seq_lib::group_to_multiset_ensures;

            assert(items_view(rest@) =~= pre_rest.drop_last());
            assert(pre_rest =~= items_view(rest@).push(x@));
        }
        let n = out.len();
        let mut j: usize = 0;
        while j < n && item_le_exec(&out[j], &x)
            invariant
                0 <= j <= n,
                n == out@.len(),
                forall|k: int| 0 <= k < j ==> item_le(#[trigger] items_view(out@)[k], x@),
            decreases n - j,
        {
            proof {
                assert(items_view(out@)[j as int] == out@[j as int]@);
            }
            j = j + 1;
        }
        let ghost old_out = items_view(out@);
        proof {
            if j < n {
                lemma_item_le_connected(old_out[j as int], x@);
            }
            assert forall|k: int| j <= k < n implies item_le(x@, #[trigger] old_out[k]) by {
                assert(item_le(x@, old_out[j as int]));
                if k > j {
                    assert(item_leq()(old_out[j as int], old_out[k]));
                    assert(item_le(old_out[j as int], old_out[k]));
                    lemma_item_le_trans(x@, old_out[j as int], old_out[k]);
                }
            }
        }
        out.insert(j, x);
        proof {
            assert(items_view(out@) =~= old_out.insert(j as int, x@));
            lemma_multiset_insert_mid(old_out, j as int, x@);
            assert forall|i1: int, i2: int|
                0 <= i1 < i2 < items_view(out@).len() implies item_leq()(
                items_view(out@)[i1],
                items_view(out@)[i2],
            ) by {
                let nw = items_view(out@);
                old_out.insert_ensures(j as int, x@);
                if i1 < j && i2 < j {
                    assert(item_leq()(old_out[i1], old_out[i2]));
                    assert(item_le(old_out[i1], old_out[i2]));
                } else if i1 < j && i2 == j {
                    assert(item_le(old_out[i1], x@));
                } else if i1 < j && i2 > j {
                    assert(item_leq()(old_out[i1], old_out[i2 - 1]));
                    assert(item_le(old_out[i1], old_out[i2 - 1]));
                } else if i1 == j && i2 > j {
                    assert(item_le(x@, old_out[i2 - 1]));
                } else if i1 > j {
                    assert(item_leq()(old_out[i1 - 1], old_out[i2 - 1]));
                    assert(item_le(old_out[i1 - 1], old_out[i2 - 1]));
                }
            }
        }
    }
    proof {
        broadcast use vstd::seq_lib::group_to_multiset_ensures;

        assert(items_view(rest@) =~= Seq::<ItemModel>::empty());
        vstd::multiset::lemma_multiset_empty_len(items_view(rest@).to_multiset());
        assert(items_view(out@).to_multiset() =~= orig.to_multiset());
    }
    out
}

/// The timed items of one document, sorted by the ordering contract.
pub fn parse_timed_items(path: &str, text: &str) -> (r: Vec<AgendaItem>)
    ensures
        items_view(r@).to_multiset() == timed_items_spec(text@, path@).to_multiset(),
        vstd::relations::sorted_by(items_view(r@), item_leq()),
        forall|i: int| 0 <= i < r@.len() ==> item_wf(#[trigger] r@[i]@),
{
    let items = scan_timed_items(path, text);
    sort_items(items)
}

/// The items of every document in `documents`, before sorting.
pub open spec fn all_timed_items(ds: Seq<(String, String)>) -> Seq<ItemModel>
    decreases ds.len(),
{
    if ds.len() == 0 {
        Seq::empty()
    } else {
        timed_items_spec(ds[0].1@, ds[0].0@) + all_timed_items(ds.drop_first())
    }
}

/// Scans every `(path, text)` document and returns all their timed items,
/// sorted by the ordering contract.
pub fn build_agenda(documents: &Vec<(String, String)>) -> (r: Vec<AgendaItem>)
    ensures
        items_view(r@).to_multiset() == all_timed_items(documents@).to_multiset(),
        vstd::relations::sorted_by(items_view(r@), item_leq()),
        forall|i: int| 0 <= i < r@.len() ==> item_wf(#[trigger] r@[i]@),
{
    let mut collected: Vec<AgendaItem> = Vec::new();
    let n = documents.len();
    let mut i: usize = 0;
    proof {
        broadcast use vstd::seq_lib::group_to_multiset_ensures;

        assert(items_view(collected@) =~= Seq::<ItemModel>::empty());
        assert(documents@.skip(0) =~= documents@);
    }
    while i < n
        invariant
            0 <= i <= n,
            n == documents@.len(),
            items_view(collected@).to_multiset().add(
                all_timed_items(documents@.skip(i as int)).to_multiset(),
            ) =~= all_timed_items(documents@).to_multiset(),
            forall|k: int| 0 <= k < collected@.len() ==> item_wf(#[trigger] collected@[k]@),
        decreases n - i,
    {
        let doc = &documents[i];
        let mut items = scan_timed_items(doc.0.as_str(), doc.1.as_str());
        let ghost pre = items_view(collected@);
        let ghost part = timed_items_spec(doc.1@, doc.0@);
        proof {
            assert(items_view(collected@).skip(pre.len() as int) =~= Seq::<ItemModel>::empty());
            assert(items_view(collected@).take(pre.len() as int) =~= pre);
            assert(part =~= items_view(collected@).skip(pre.len() as int) + items_view(items@));
        }
        while items.len() > 0
            invariant
                part == items_view(collected@).skip(pre.len() as int) + items_view(items@),
                forall|t: int| 0 <= t < items@.len() ==> item_wf(#[trigger] items@[t]@),
                forall|t: int| 0 <= t < collected@.len() ==> item_wf(#[trigger] collected@[t]@),
                items_view(collected@).take(pre.len() as int) == pre,
                pre.len() <= collected@.len(),
            decreases items@.len(),
        {
            let ghost old_items = items_view(items@);
            let ghost before = items_view(collected@);
            let it = items.remove(0);
            proof {
                assert(items_view(items@) =~= old_items.drop_first());
                assert(it@ == old_items[0]);
            }
            collected.push(it);
            proof {
                assert(items_view(collected@) =~= before.push(old_items[0]));
                assert(items_view(collected@).take(pre.len() as int) =~= before.take(
                    pre.len() as int,
                ));
                assert(items_view(collected@).skip(pre.len() as int) + items_view(items@)
                    =~= before.skip(pre.len() as int) + old_items);
            }
        }
        proof {
            broadcast use vstd::seq_lib::group_to_multiset_ensures;

            assert(items_view(items@) =~= Seq::<ItemModel>::empty());
            assert(items_view(collected@).skip(pre.len() as int) + items_view(items@)
                =~= items_view(collected@).skip(pre.len() as int));
            assert(items_view(collected@).take(pre.len() as int) + items_view(collected@).skip(
                pre.len() as int,
            ) =~= items_view(collected@));
            assert(items_view(collected@) =~= pre + part);
            vstd::seq_lib::lemma_multiset_commutative(pre, part);
            let rest_docs = documents@.skip(i as int);
            assert(rest_docs[0] == documents@[i as int]);
            assert(all_timed_items(rest_docs) == part + all_timed_items(rest_docs.drop_first()));
            assert(rest_docs.drop_first() =~= documents@.skip(i + 1));
            vstd::seq_lib::lemma_multiset_commutative(part, all_timed_items(documents@.skip(i + 1)));
        }
        i = i + 1;
    }
    proof {
        broadcast use vstd::seq_lib::group_to_multiset_ensures;

        assert(documents@.skip(n as int) =~= Seq::<(String, String)>::empty());
        vstd::multiset::lemma_multiset_empty_len(
            all_timed_items(documents@.skip(n as int)).to_multiset(),
        );
        assert(items_view(collected@).to_multiset() =~= all_timed_items(documents@).to_multiset());
    }
    sort_items(collected)
}

} // verus!
