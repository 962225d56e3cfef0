//! Habits harvested from outline documents: headings whose properties
//! declare `STYLE: habit`, with their anchor date, repeater token,
//! completion log, and the expectation and streak calculus over them.

use vstd::prelude::*;
use crate::date::{
    Date, date_valid, date_lex_lt, day_number, date_of_day_number, max_day_number,
    lemma_date_of_day_number, lemma_date_order, lemma_day_number_range, lemma_max_day_number_bound,
    months_between_spec,
};
use crate::repeater::{HabitRepeater, HabitFrequency, parse_frequency_s};
use crate::text::{
    is_ws, scan_len, lemma_scan_len, trim_s, trim, str_chars, slice_to_vec_chars,
    chars_string, eq_icase_s, eq_icase, tokens_s, tokens, lines_of, split_lines, find_char,
    push_all, has_prefix,
};
use crate::agenda::{
    parse_date_s, parse_date_chars, view_opt_string, join_lines, is_drawer_close, is_drawer_open,
};

verus! {

/// The shadow of a `HabitRepeater`: the raw token and its classification.
#[verifier::ext_equal]
pub struct RepModel {
    pub raw: Seq<char>,
    pub frequency: Option<HabitFrequency>,
}

pub open spec fn view_repeater(r: Option<HabitRepeater>) -> Option<RepModel> {
    match r {
        Some(x) => Some(RepModel { raw: x.raw@, frequency: x.frequency }),
        None => None,
    }
}

/// One completion-log line: the logged date and the quoted state.
#[derive(Clone, PartialEq, Eq, Debug)]
pub struct HabitLogEntry {
    pub date: Date,
    pub state: String,
}

#[verifier::ext_equal]
pub struct LogModel {
    pub date: Date,
    pub state: Seq<char>,
}

impl View for HabitLogEntry {
    type V = LogModel;

    open spec fn view(&self) -> LogModel {
        LogModel { date: self.date, state: self.state@ }
    }
}

/// A habit heading: title, anchor date, description, repeater, completion
/// log, and the date of the most recent repeat.
#[derive(Clone, PartialEq, Eq, Debug)]
pub struct Habit {
    pub title: String,
    pub scheduled: Option<Date>,
    pub description: String,
    pub repeater: Option<HabitRepeater>,
    pub log_entries: Vec<HabitLogEntry>,
    pub last_repeat: Option<Date>,
}

#[verifier::ext_equal]
pub struct HabitModel {
    pub title: Seq<char>,
    pub scheduled: Option<Date>,
    pub description: Seq<char>,
    pub repeater: Option<RepModel>,
    pub log_entries: Seq<LogModel>,
    pub last_repeat: Option<Date>,
}

impl View for Habit {
    type V = HabitModel;

    open spec fn view(&self) -> HabitModel {
        HabitModel {
            title: self.title@,
            scheduled: self.scheduled,
            description: self.description@,
            repeater: view_repeater(self.repeater),
            log_entries: self.log_entries@.map_values(|e: HabitLogEntry| e@),
            last_repeat: self.last_repeat,
        }
    }
}

pub open spec fn freq_amount(f: HabitFrequency) -> int {
    match f {
        HabitFrequency::Daily(n) => n as int,
        HabitFrequency::Weekly(n) => n as int,
        HabitFrequency::Monthly(n) => n as int,
        HabitFrequency::Yearly(n) => n as int,
    }
}

/// Well-formedness of a habit: calendar dates, and a classified frequency
/// with a positive amount.
pub open spec fn habit_wf(h: HabitModel) -> bool {
    &&& (h.scheduled matches Some(d) ==> date_valid(d))
    &&& (h.last_repeat matches Some(d) ==> date_valid(d))
    &&& (forall|i: int| 0 <= i < h.log_entries.len() ==> date_valid(
        #[trigger] h.log_entries[i].date,
    ))
    &&& (match h.repeater {
        Some(r) => match r.frequency {
            Some(f) => freq_amount(f) >= 1,
            None => true,
        },
        None => true,
    })
}

/// A property line `:KEY: value`: the key and value pieces, if shaped so.
pub open spec fn prop_kv(tr: Seq<char>) -> Option<(Seq<char>, Seq<char>)> {
    if tr.len() > 0 && tr[0] == ':' {
        let rest = tr.drop_first();
        let i = scan_len(rest, |c: char| c == ':');
        if i >= rest.len() {
            None
        } else {
            Some((rest.take(i), rest.skip(i + 1)))
        }
    } else {
        None
    }
}

pub open spec fn trailing_count(s: Seq<char>, ch: char) -> int
    decreases s.len(),
{
    if s.len() > 0 && s.last() == ch {
        1 + trailing_count(s.drop_last(), ch)
    } else {
        0
    }
}

proof fn lemma_trailing_count(s: Seq<char>, ch: char, k: int)
    requires
        0 <= k <= s.len(),
        forall|j: int| s.len() - k <= j < s.len() ==> s[j] == ch,
        k == s.len() || s[s.len() - k - 1] != ch,
    ensures
        trailing_count(s, ch) == k,
    decreases s.len(),
{
    if k > 0 {
        lemma_trailing_count(s.drop_last(), ch, k - 1);
    }
}

/// A `[YYYY-MM-DD ...]` value: brackets stripped, the first word read as a
/// date.
pub open spec fn date_from_brackets_s(input: Seq<char>) -> Option<Date> {
    let t = trim_s(input);
    let a = scan_len(t, |c: char| c != '[');
    let mid = t.skip(a);
    let inner = trim_s(mid.take(mid.len() - trailing_count(mid, ']')));
    let toks = tokens_s(inner);
    if toks.len() == 0 {
        None
    } else {
        parse_date_s(toks[0])
    }
}

/// Parses the date of a bracketed property value.
pub fn extract_date_from_brackets(input: &Vec<char>) -> (r: Option<Date>)
    ensures
        r == date_from_brackets_s(input@),
        r matches Some(d) ==> date_valid(d),
{
    let t = trim(input);
    let n = t.len();
    let mut a: usize = 0;
    while a < n && t[a] == '['
        invariant
            0 <= a <= n,
            n == t@.len(),
            forall|j: int| 0 <= j < a ==> t@[j] == '[',
        decreases n - a,
    {
        a = a + 1;
    }
    proof {
        lemma_scan_len(t@, |c: char| c != '[', a as int);
    }
    let mut b: usize = n;
    while b > a && t[b - 1] == ']'
        invariant
            a <= b <= n,
            n == t@.len(),
            forall|j: int| b <= j < n ==> t@[j] == ']',
        decreases b,
    {
        b = b - 1;
    }
    let ghost mid = t@.skip(a as int);
    proof {
        assert(forall|j: int| b - a <= j < mid.len() ==> mid[j] == ']');
        if b > a {
            assert(mid[b - a - 1] == t@[b - 1]);
        }
        lemma_trailing_count(mid, ']', n - b);
        assert(mid.take(mid.len() - (n - b)) =~= t@.subrange(a as int, b as int));
    }
    let middle = slice_to_vec_chars(&t, a, b);
    let inner = trim(&middle);
    let toks = tokens(&inner);
    if toks.len() == 0 {
        return None;
    }
    proof {
        assert(toks@.map_values(|x: Vec<char>| x@)[0] == toks@[0]@);
    }
    parse_date_chars(&toks[0])
}

/// A LOGBOOK line `- State "X" from "Y" [date ...]`: the first quoted text
/// and the first bracketed date.
pub open spec fn parse_logbook_entry_s(tr: Seq<char>) -> Option<LogModel> {
    if tr.len() == 0 || tr[0] != '-' {
        None
    } else {
        let q1 = scan_len(tr, |c: char| c == '"');
        if q1 >= tr.len() {
            None
        } else {
            let after_q = tr.skip(q1 + 1);
            let state = trim_s(after_q.take(scan_len(after_q, |c: char| c == '"')));
            let b1 = scan_len(tr, |c: char| c == '[');
            if b1 >= tr.len() {
                None
            } else {
                let after_b = tr.skip(b1 + 1);
                let section = after_b.take(scan_len(after_b, |c: char| c == ']'));
                let toks = tokens_s(section);
                if toks.len() == 0 {
                    None
                } else {
                    match parse_date_s(toks[0]) {
                        None => None,
                        Some(d) => Some(LogModel { date: d, state }),
                    }
                }
            }
        }
    }
}

/// Reads one completion-log line.
pub fn parse_logbook_entry(tr: &Vec<char>) -> (r: Option<HabitLogEntry>)
    ensures
        (match r {
            Some(e) => parse_logbook_entry_s(tr@) == Some(e@) && date_valid(e.date),
            None => parse_logbook_entry_s(tr@) is None,
        }),
{
    let n = tr.len();
    if n == 0 || tr[0] != '-' {
        return None;
    }
    let q1 = match find_char(tr, '"', 0) {
        None => {
            proof {
                lemma_scan_len(tr@, |c: char| c == '"', n as int);
            }
            return None;
        },
        Some(i) => i,
    };
    proof {
        lemma_scan_len(tr@, |c: char| c == '"', q1 as int);
    }
    let after_q = slice_to_vec_chars(tr, q1 + 1, n);
    proof {
        assert(after_q@ =~= tr@.skip(q1 + 1));
    }
    let q2 = match find_char(&after_q, '"', 0) {
        None => {
            proof {
                lemma_scan_len(after_q@, |c: char| c == '"', after_q@.len() as int);
            }
            after_q.len()
        },
        Some(i) => {
            proof {
                lemma_scan_len(after_q@, |c: char| c == '"', i as int);
            }
            i
        },
    };
    let state_part = slice_to_vec_chars(&after_q, 0, q2);
    proof {
        assert(state_part@ =~= after_q@.take(q2 as int));
    }
    let state_v = trim(&state_part);
    let b1 = match find_char(tr, '[', 0) {
        None => {
            proof {
                lemma_scan_len(tr@, |c: char| c == '[', n as int);
            }
            return None;
        },
        Some(i) => i,
    };
    proof {
        lemma_scan_len(tr@, |c: char| c == '[', b1 as int);
    }
    let after_b = slice_to_vec_chars(tr, b1 + 1, n);
    proof {
        assert(after_b@ =~= tr@.skip(b1 + 1));
    }
    let e = match find_char(&after_b, ']', 0) {
        None => {
            proof {
                lemma_scan_len(after_b@, |c: char| c == ']', after_b@.len() as int);
            }
            after_b.len()
        },
        Some(i) => {
            proof {
                lemma_scan_len(after_b@, |c: char| c == ']', i as int);
            }
            i
        },
    };
    let section = slice_to_vec_chars(&after_b, 0, e);
    proof {
        assert(section@ =~= after_b@.take(e as int));
    }
    let toks = tokens(&section);
    if toks.len() == 0 {
        return None;
    }
    proof {
        assert(toks@.map_values(|x: Vec<char>| x@)[0] == toks@[0]@);
    }
    match parse_date_chars(&toks[0]) {
        None => None,
        Some(d) => Some(HabitLogEntry { date: d, state: chars_string(&state_v) }),
    }
}

/// A `SCHEDULED: <date ... [repeater]>` line of a habit heading: the date,
/// and the first word after it beginning with `+` or `.` as the repeater
/// token.
pub open spec fn parse_scheduled_s(tr: Seq<char>) -> Option<(Date, Option<RepModel>)> {
    let rest = trim_s(tr.skip("SCHEDULED:"@.len() as int));
    if rest.len() < 2 || rest[0] != '<' || rest.last() != '>' {
        None
    } else {
        let inner = rest.subrange(1, rest.len() - 1);
        let toks = tokens_s(inner);
        if toks.len() == 0 {
            None
        } else {
            match parse_date_s(toks[0]) {
                None => None,
                Some(d) => Some((d, sched_repeater(toks.drop_first()))),
            }
        }
    }
}

/// The first token beginning with `+` or `.`, classified.
pub open spec fn sched_repeater(toks: Seq<Seq<char>>) -> Option<RepModel>
    decreases toks.len(),
{
    if toks.len() == 0 {
        None
    } else {
        let t = toks[0];
        if t.len() > 0 && (t[0] == '+' || t[0] == '.') {
            Some(RepModel { raw: t, frequency: parse_frequency_s(t) })
        } else {
            sched_repeater(toks.drop_first())
        }
    }
}

fn parse_scheduled(tr: &Vec<char>) -> (r: Option<(Date, Option<HabitRepeater>)>)
    requires
        tr@.len() >= "SCHEDULED:"@.len(),
    ensures
        (match r {
            Some((d, rep)) => parse_scheduled_s(tr@) == Some((d, view_repeater(rep)))
                && date_valid(d),
            None => parse_scheduled_s(tr@) is None,
        }),
{
    let prefix_len: usize = 10;
    proof {
        reveal_strlit("SCHEDULED:");
    }
    let after = slice_to_vec_chars(tr, prefix_len, tr.len());
    proof {
        assert(after@ =~= tr@.skip("SCHEDULED:"@.len() as int));
    }
    let rest = trim(&after);
    let n = rest.len();
    if n < 2 {
        return None;
    }
    if !(rest[0] == '<' && rest[n - 1] == '>') {
        return None;
    }
    let inner = slice_to_vec_chars(&rest, 1, n - 1);
    proof {
        assert(inner@ =~= trim_s(tr@.skip("SCHEDULED:"@.len() as int)).subrange(1, n - 1));
    }
    let toks = tokens(&inner);
    let ghost tokv = toks@.map_values(|t: Vec<char>| t@);
    if toks.len() == 0 {
        return None;
    }
    proof {
        assert(tokv[0] == toks@[0]@);
    }
    let d = match parse_date_chars(&toks[0]) {
        None => {
            return None;
        },
        Some(d) => d,
    };
    let m = toks.len();
    let mut k: usize = 1;
    let ghost rest_toks = tokv.drop_first();
    proof {
        assert(rest_toks =~= tokv.skip(1));
        assert(parse_scheduled_s(tr@) == Some((d, sched_repeater(rest_toks))));
    }
    while k < m
        invariant
            1 <= k <= m,
            m == tokv.len(),
            tokv == toks@.map_values(|t: Vec<char>| t@),
            rest_toks =~= tokv.skip(1),
            sched_repeater(rest_toks) == sched_repeater(tokv.skip(k as int)),
            parse_scheduled_s(tr@) == Some((d, sched_repeater(rest_toks))),
            date_valid(d),
        decreases m - k,
    {
        let t = &toks[k];
        proof {
            assert(tokv.skip(k as int)[0] == t@);
            assert(tokv.skip(k as int).drop_first() =~= tokv.skip(k + 1));
        }
        if t.len() > 0 && (t[0] == '+' || t[0] == '.') {
            let rep = HabitRepeater::from_token_chars(t);
            proof {
                assert(sched_repeater(tokv.skip(k as int)) == Some(
                    RepModel { raw: t@, frequency: parse_frequency_s(t@) },
                ));
                assert(view_repeater(Some(rep)) == Some(
                    RepModel { raw: rep.raw@, frequency: rep.frequency },
                ));
                assert(RepModel { raw: rep.raw@, frequency: rep.frequency } =~= RepModel {
                    raw: t@,
                    frequency: parse_frequency_s(t@),
                });
            }
            return Some((d, Some(rep)));
        }
        k = k + 1;
    }
    proof {
        assert(tokv.skip(m as int) =~= Seq::<Seq<char>>::empty());
    }
    Some((d, None))
}

pub open spec fn rep_clamped(rep: Option<RepModel>) -> bool {
    match rep {
        Some(rm) => match rm.frequency {
            Some(f) => freq_amount(f) >= 1,
            None => true,
        },
        None => true,
    }
}

proof fn lemma_frequency_clamped(t: Seq<char>)
    ensures
        (match parse_frequency_s(t) {
            Some(f) => freq_amount(f) >= 1,
            None => true,
        }),
{
}

proof fn lemma_sched_repeater_clamped(toks: Seq<Seq<char>>)
    ensures
        rep_clamped(sched_repeater(toks)),
    decreases toks.len(),
{
    if toks.len() > 0 {
        let t = toks[0];
        if t.len() > 0 && (t[0] == '+' || t[0] == '.') {
            lemma_frequency_clamped(t);
        } else {
            lemma_sched_repeater_clamped(toks.drop_first());
        }
    }
}

proof fn lemma_parse_scheduled_clamped(tr: Seq<char>)
    ensures
        (match parse_scheduled_s(tr) {
            Some((d, rep)) => date_valid(d) && rep_clamped(rep),
            None => true,
        }),
{
    let rest = trim_s(tr.skip("SCHEDULED:"@.len() as int));
    if rest.len() >= 2 && rest[0] == '<' && rest.last() == '>' {
        let inner = rest.subrange(1, rest.len() - 1);
        let toks = tokens_s(inner);
        if toks.len() > 0 {
            lemma_sched_repeater_clamped(toks.drop_first());
        }
    }
}

/// Which drawer the scan currently stands in.
#[derive(Clone, Copy, PartialEq, Eq, Structural, Debug)]
pub enum DrawerKind {
    Closed,
    Properties,
    Logbook,
    Other,
}

/// The per-heading accumulator of the habit scan.
#[verifier::ext_equal]
pub struct BuilderModel {
    pub title: Seq<char>,
    pub scheduled: Option<Date>,
    pub desc_lines: Seq<Seq<char>>,
    pub is_habit: bool,
    pub repeater: Option<RepModel>,
    pub log_entries: Seq<LogModel>,
    pub last_repeat: Option<Date>,
}

pub open spec fn init_builder(title: Seq<char>) -> BuilderModel {
    BuilderModel {
        title,
        scheduled: None,
        desc_lines: Seq::empty(),
        is_habit: false,
        repeater: None,
        log_entries: Seq::empty(),
        last_repeat: None,
    }
}

/// The latest date among the log entries.
pub open spec fn max_log_date(s: Seq<LogModel>) -> Option<Date>
    decreases s.len(),
{
    if s.len() == 0 {
        None
    } else {
        match max_log_date(s.drop_last()) {
            None => Some(s.last().date),
            Some(m) => {
                if date_lex_lt(m, s.last().date) {
                    Some(s.last().date)
                } else {
                    Some(m)
                }
            },
        }
    }
}

/// A closed heading becomes a habit only if its properties declared
/// `STYLE: habit`; `last_repeat` falls back to the latest log date.
pub open spec fn into_habit_s(b: BuilderModel) -> Option<HabitModel> {
    if !b.is_habit {
        None
    } else {
        Some(
            HabitModel {
                title: b.title,
                scheduled: b.scheduled,
                description: trim_s(join_lines(b.desc_lines)),
                repeater: b.repeater,
                log_entries: b.log_entries,
                last_repeat: if b.last_repeat is Some {
                    b.last_repeat
                } else {
                    max_log_date(b.log_entries)
                },
            },
        )
    }
}

pub open spec fn flush_habit(b: BuilderModel) -> Seq<HabitModel> {
    match into_habit_s(b) {
        Some(h) => seq![h],
        None => Seq::empty(),
    }
}

/// One line of the habit scan.
pub open spec fn habit_step(b: BuilderModel, dk: DrawerKind, line: Seq<char>) -> (
    BuilderModel,
    DrawerKind,
    Seq<HabitModel>,
) {
    let tr = trim_s(line);
    if line.len() > 0 && line[0] == '*' {
        let title = trim_s(line.skip(scan_len(line, |c: char| c != '*')));
        (init_builder(title), DrawerKind::Closed, flush_habit(b))
    } else if is_drawer_open(tr) {
        let kind = if eq_icase_s(tr, ":PROPERTIES:"@) {
            DrawerKind::Properties
        } else if eq_icase_s(tr, ":LOGBOOK:"@) {
            DrawerKind::Logbook
        } else {
            DrawerKind::Other
        };
        (b, kind, Seq::empty())
    } else if is_drawer_close(tr) && dk != DrawerKind::Closed {
        (b, DrawerKind::Closed, Seq::empty())
    } else if dk == DrawerKind::Properties {
        (prop_step(b, tr), dk, Seq::empty())
    } else if dk == DrawerKind::Logbook {
        match parse_logbook_entry_s(tr) {
            Some(e) => (
                BuilderModel { log_entries: b.log_entries.push(e), ..b },
                dk,
                Seq::empty(),
            ),
            None => (b, dk, Seq::empty()),
        }
    } else if dk == DrawerKind::Other {
        (b, dk, Seq::empty())
    } else if "SCHEDULED:"@.is_prefix_of(tr) {
        match parse_scheduled_s(tr) {
            Some((d, rep)) => (
                BuilderModel { scheduled: Some(d), repeater: rep, ..b },
                dk,
                Seq::empty(),
            ),
            None => (b, dk, Seq::empty()),
        }
    } else if tr.len() > 0 {
        (BuilderModel { desc_lines: b.desc_lines.push(line), ..b }, dk, Seq::empty())
    } else {
        (b, dk, Seq::empty())
    }
}

/// A properties line: `STYLE: habit` marks the habit, `LAST_REPEAT` sets
/// the explicit last-repeat date; both keys case-insensitive.
pub open spec fn prop_step(b: BuilderModel, tr: Seq<char>) -> BuilderModel {
    match prop_kv(tr) {
        None => b,
        Some((k, v)) => {
            let kt = trim_s(k);
            let vt = trim_s(v);
            if eq_icase_s(kt, "STYLE"@) && eq_icase_s(vt, "habit"@) {
                BuilderModel { is_habit: true, ..b }
            } else if eq_icase_s(kt, "LAST_REPEAT"@) {
                match date_from_brackets_s(vt) {
                    Some(d) => BuilderModel { last_repeat: Some(d), ..b },
                    None => b,
                }
            } else {
                b
            }
        },
    }
}

pub open spec fn habit_fold(
    lines: Seq<Seq<char>>,
    b: BuilderModel,
    dk: DrawerKind,
    acc: Seq<HabitModel>,
) -> Seq<HabitModel>
    decreases lines.len(),
{
    if lines.len() == 0 {
        acc + flush_habit(b)
    } else {
        let step = habit_step(b, dk, lines[0]);
        habit_fold(lines.drop_first(), step.0, step.1, acc + step.2)
    }
}

/// The habits of one document, in scan order.
pub open spec fn extract_habits_spec(text: Seq<char>) -> Seq<HabitModel> {
    habit_fold(lines_of(text), init_builder(Seq::empty()), DrawerKind::Closed, Seq::empty())
}

pub open spec fn habits_view(s: Seq<Habit>) -> Seq<HabitModel> {
    s.map_values(|h: Habit| h@)
}

/// The exec scan state.
pub struct HabitBuilder {
    pub title: String,
    pub scheduled: Option<Date>,
    pub description_lines: Vec<Vec<char>>,
    pub is_habit: bool,
    pub repeater: Option<HabitRepeater>,
    pub log_entries: Vec<HabitLogEntry>,
    pub last_repeat: Option<Date>,
}

impl View for HabitBuilder {
    type V = BuilderModel;

    open spec fn view(&self) -> BuilderModel {
        BuilderModel {
            title: self.title@,
            scheduled: self.scheduled,
            desc_lines: self.description_lines@.map_values(|l: Vec<char>| l@),
            is_habit: self.is_habit,
            repeater: view_repeater(self.repeater),
            log_entries: self.log_entries@.map_values(|e: HabitLogEntry| e@),
            last_repeat: self.last_repeat,
        }
    }
}

pub open spec fn builder_wf(b: BuilderModel) -> bool {
    &&& (b.scheduled matches Some(d) ==> date_valid(d))
    &&& (b.last_repeat matches Some(d) ==> date_valid(d))
    &&& (forall|i: int| 0 <= i < b.log_entries.len() ==> date_valid(
        #[trigger] b.log_entries[i].date,
    ))
    &&& (match b.repeater {
        Some(r) => match r.frequency {
            Some(f) => freq_amount(f) >= 1,
            None => true,
        },
        None => true,
    })
}

/// Joins lines with newlines.
fn join_all(body: &Vec<Vec<char>>) -> (r: Vec<char>)
    ensures
        r@ == join_lines(body@.map_values(|l: Vec<char>| l@)),
{
    let ghost bodyv = body@.map_values(|l: Vec<char>| l@);
    let mut outv: Vec<char> = Vec::new();
    let n = body.len();
    let mut i: usize = 0;
    proof {
        assert(bodyv.take(0) =~= Seq::<Seq<char>>::empty());
    }
    while i < n
        invariant
            0 <= i <= n,
            n == bodyv.len(),
            bodyv == body@.map_values(|l: Vec<char>| l@),
            outv@ =~= join_lines(bodyv.take(i as int)),
        decreases n - i,
    {
        let line = &body[i];
        proof {
            assert(bodyv.take(i + 1) =~= bodyv.take(i as int).push(line@));
            crate::agenda::lemma_join_lines_push(bodyv.take(i as int), line@);
        }
        if i > 0 {
            outv.push('\n');
        }
        push_all(&mut outv, line);
        proof {
            assert(bodyv.take(i as int).len() == i);
        }
        i = i + 1;
    }
    proof {
        assert(bodyv.take(n as int) =~= bodyv);
    }
    outv
}

fn max_log_date_exec(entries: &Vec<HabitLogEntry>) -> (r: Option<Date>)
    ensures
        r == max_log_date(entries@.map_values(|e: HabitLogEntry| e@)),
{
    let ghost ev = entries@.map_values(|e: HabitLogEntry| e@);
    let mut best: Option<Date> = None;
    let n = entries.len();
    let mut i: usize = 0;
    proof {
        assert(ev.take(0) =~= Seq::<LogModel>::empty());
    }
    while i < n
        invariant
            0 <= i <= n,
            n == ev.len(),
            ev == entries@.map_values(|e: HabitLogEntry| e@),
            best == max_log_date(ev.take(i as int)),
        decreases n - i,
    {
        let d = entries[i].date;
        proof {
            assert(ev.take(i + 1).drop_last() =~= ev.take(i as int));
            assert(ev.take(i + 1).last() == ev[i as int]);
            assert(ev[i as int].date == d);
        }
        best = match best {
            None => Some(d),
            Some(m) => {
                if m.year < d.year || (m.year == d.year && m.month < d.month) || (m.year == d.year
                    && m.month == d.month && m.day < d.day) {
                    Some(d)
                } else {
                    Some(m)
                }
            },
        };
        i = i + 1;
    }
    proof {
        assert(ev.take(n as int) =~= ev);
    }
    best
}

/// Flushes the scan state into `out` if it is a habit heading.
fn emit_habit(b: HabitBuilder, out: &mut Vec<Habit>)
    requires
        builder_wf(b@),
        forall|i: int| 0 <= i < old(out)@.len() ==> habit_wf(#[trigger] old(out)@[i]@),
    ensures
        habits_view(final(out)@) =~= habits_view(old(out)@) + flush_habit(b@),
        forall|i: int| 0 <= i < final(out)@.len() ==> habit_wf(#[trigger] final(out)@[i]@),
{
    let ghost bv = b@;
    let HabitBuilder {
        title,
        scheduled,
        description_lines,
        is_habit,
        repeater,
        log_entries,
        last_repeat,
    } = b;
    if !is_habit {
        proof {
            assert(habits_view(out@) =~= habits_view(out@) + flush_habit(bv));
        }
        return ;
    }
    let joined = join_all(&description_lines);
    let desc = trim(&joined);
    let last = match last_repeat {
        Some(d) => Some(d),
        None => max_log_date_exec(&log_entries),
    };
    let habit = Habit {
        title,
        scheduled,
        description: chars_string(&desc),
        repeater,
        log_entries,
        last_repeat: last,
    };
    let ghost prev = out@;
    proof {
        assert(habit_wf(habit@)) by {
            if habit@.last_repeat is Some && bv.last_repeat is None {
                lemma_max_log_date_valid(bv.log_entries);
            }
        }
    }
    out.push(habit);
    proof {
        assert(habits_view(out@) =~= habits_view(prev) + seq![habit@]);
        assert(habit@ =~= flush_habit(bv)[0]);
    }
}

proof fn lemma_max_log_date_valid(s: Seq<LogModel>)
    requires
        forall|i: int| 0 <= i < s.len() ==> date_valid(#[trigger] s[i].date),
    ensures
        max_log_date(s) matches Some(d) ==> date_valid(d),
    decreases s.len(),
{
    if s.len() > 0 {
        assert(forall|i: int| 0 <= i < s.drop_last().len() ==> s.drop_last()[i] == s[i]);
        lemma_max_log_date_valid(s.drop_last());
        assert(s.last() == s[s.len() - 1]);
    }
}

/// Scans one document for habit headings.
pub fn extract_habits(text: &str) -> (r: Vec<Habit>)
    ensures
        habits_view(r@) == extract_habits_spec(text@),
        forall|i: int| 0 <= i < r@.len() ==> habit_wf(#[trigger] r@[i]@),
{
    let textv = str_chars(text);
    let lines = split_lines(&textv);
    let ghost linesv = lines@.map_values(|l: Vec<char>| l@);
    let pat_props = str_chars(":PROPERTIES:");
    let pat_log = str_chars(":LOGBOOK:");
    let pat_end = str_chars(":END:");
    let pat_sched = str_chars("SCHEDULED:");
    let mut out: Vec<Habit> = Vec::new();
    let mut b = HabitBuilder {
        title: String::new(),
        scheduled: None,
        description_lines: Vec::new(),
        is_habit: false,
        repeater: None,
        log_entries: Vec::new(),
        last_repeat: None,
    };
    let mut dk = DrawerKind::Closed;
    let n = lines.len();
    let mut i: usize = 0;
    proof {
        assert(b@ =~= init_builder(Seq::empty()));
        assert(linesv.skip(0) =~= linesv);
        assert(habits_view(out@) =~= Seq::<HabitModel>::empty());
    }
    while i < n
        invariant
            0 <= i <= n,
            n == linesv.len(),
            linesv == lines@.map_values(|l: Vec<char>| l@),
            pat_props@ == ":PROPERTIES:"@,
            pat_log@ == ":LOGBOOK:"@,
            pat_end@ == ":END:"@,
            pat_sched@ == "SCHEDULED:"@,
            builder_wf(b@),
            forall|j: int| 0 <= j < out@.len() ==> habit_wf(#[trigger] out@[j]@),
            habit_fold(linesv.skip(i as int), b@, dk, habits_view(out@)) == extract_habits_spec(
                text@,
            ),
        decreases n - i,
    {
        let ghost old_b = b@;
        let ghost old_dk = dk;
        let ghost old_acc = habits_view(out@);
        let line = &lines[i];
        proof {
            assert(linesv.skip(i as int)[0] == line@);
            assert(linesv.skip(i as int).drop_first() =~= linesv.skip(i + 1));
        }
        let tr = trim(line);
        if line.len() > 0 && line[0] == '*' {
            let mut stars: usize = 0;
            let ln = line.len();
            while stars < ln && line[stars] == '*'
                invariant
                    0 <= stars <= ln,
                    ln == line@.len(),
                    forall|j: int| 0 <= j < stars ==> line@[j] == '*',
                decreases ln - stars,
            {
                stars = stars + 1;
            }
            proof {
                lemma_scan_len(line@, |c: char| c != '*', stars as int);
            }
            let after = slice_to_vec_chars(line, stars, ln);
            proof {
                assert(after@ =~= line@.skip(stars as int));
            }
            let title_v = trim(&after);
            let ghost emitted = flush_habit(old_b);
            emit_habit(b, &mut out);
            b = HabitBuilder {
                title: chars_string(&title_v),
                scheduled: None,
                description_lines: Vec::new(),
                is_habit: false,
                repeater: None,
                log_entries: Vec::new(),
                last_repeat: None,
            };
            dk = DrawerKind::Closed;
            proof {
                assert(b@ =~= init_builder(trim_s(line@.skip(scan_len(
                    line@,
                    |c: char| c != '*',
                )))));
                assert(habits_view(out@) =~= old_acc + emitted);
            }
        } else if tr.len() > 1 && tr[0] == ':' && tr[tr.len() - 1] == ':' && !eq_icase(
            &tr,
            &pat_end,
        ) {
            if eq_icase(&tr, &pat_props) {
                dk = DrawerKind::Properties;
            } else if eq_icase(&tr, &pat_log) {
                dk = DrawerKind::Logbook;
            } else {
                dk = DrawerKind::Other;
            }
        } else if eq_icase(&tr, &pat_end) && !matches!(dk, DrawerKind::Closed) {
            dk = DrawerKind::Closed;
        } else if matches!(dk, DrawerKind::Properties) {
            prop_line(&mut b, &tr);
        } else if matches!(dk, DrawerKind::Logbook) {
            match parse_logbook_entry(&tr) {
                Some(e) => {
                    let ghost old_logs = b@.log_entries;
                    b.log_entries.push(e);
                    proof {
                        assert(b@.log_entries =~= old_logs.push(e@));
                        assert(b@ =~= BuilderModel { log_entries: old_b.log_entries.push(e@), ..old_b });
                        assert forall|j: int| 0 <= j < b@.log_entries.len() implies date_valid(
                            #[trigger] b@.log_entries[j].date,
                        ) by {
                            if j < old_logs.len() {
                                assert(b@.log_entries[j] == old_logs[j]);
                            } else {
                                assert(b@.log_entries[j] == e@);
                            }
                        }
                    }
                },
                None => {},
            }
        } else if matches!(dk, DrawerKind::Other) {
        } else if has_prefix(&tr, &pat_sched) {
            proof {
                reveal_strlit("SCHEDULED:");
            }
            match parse_scheduled(&tr) {
                Some((d, rep)) => {
                    proof {
                        lemma_parse_scheduled_clamped(tr@);
                    }
                    b.scheduled = Some(d);
                    b.repeater = rep;
                    proof {
                        assert(b@ =~= BuilderModel {
                            scheduled: Some(d),
                            repeater: view_repeater(rep),
                            ..old_b
                        });
                    }
                },
                None => {},
            }
        } else if tr.len() > 0 {
            let owned = slice_to_vec_chars(line, 0, line.len());
            proof {
                assert(owned@ =~= line@);
            }
            let ghost old_desc = b@.desc_lines;
            b.description_lines.push(owned);
            proof {
                assert(b@.desc_lines =~= old_desc.push(line@));
                assert(b@ =~= BuilderModel { desc_lines: old_b.desc_lines.push(line@), ..old_b });
            }
        }
        proof {
            let step = habit_step(old_b, old_dk, line@);
            assert(b@ =~= step.0);
            assert(dk == step.1);
            assert(habits_view(out@) =~= old_acc + step.2);
            assert(habit_fold(linesv.skip(i as int), old_b, old_dk, old_acc) == habit_fold(
                linesv.skip(i + 1),
                b@,
                dk,
                habits_view(out@),
            ));
        }
        i = i + 1;
    }
    proof {
        assert(linesv.skip(n as int) =~= Seq::<Seq<char>>::empty());
    }
    emit_habit(b, &mut out);
    proof {
        assert(habits_view(out@) =~= extract_habits_spec(text@));
    }
    out
}

/// The habit's anchor: its scheduled date, or else its last repeat.
pub open spec fn habit_anchor(h: HabitModel) -> Option<Date> {
    if h.scheduled is Some {
        h.scheduled
    } else {
        h.last_repeat
    }
}

/// Whether a frequency expects activity on `day`, anchored at `base`: the
/// anchor day itself always; earlier days never; later days by whole
/// day, week, month or year strides.
pub open spec fn expected_from(f: HabitFrequency, base: Date, day: Date) -> bool {
    if day == base {
        true
    } else if day_number(day) < day_number(base) {
        false
    } else {
        match f {
            HabitFrequency::Daily(n) => (day_number(day) - day_number(base)) % (n as int) == 0,
            HabitFrequency::Weekly(n) => (day_number(day) - day_number(base)) % (7 * (n as int))
                == 0,
            HabitFrequency::Monthly(n) => day.day == base.day && months_between_spec(base, day)
                >= 0 && months_between_spec(base, day) % (n as int) == 0,
            HabitFrequency::Yearly(n) => day.month == base.month && day.day == base.day
                && day.year >= base.year && (day.year - base.year) % (n as int) == 0,
        }
    }
}

/// Whether the habit expects activity on `day`: requires a classified
/// repeater and an anchor date.
pub open spec fn habit_expected_spec(h: HabitModel, day: Date) -> bool {
    match h.repeater {
        None => false,
        Some(rep) => match rep.frequency {
            None => false,
            Some(f) => match habit_anchor(h) {
                None => false,
                Some(base) => expected_from(f, base, day),
            },
        },
    }
}

/// Decides whether the habit expects activity on `day`.
pub fn habit_expected_on(habit: &Habit, day: &Date) -> (r: bool)
    requires
        habit_wf(habit@),
        date_valid(*day),
    ensures
        r == habit_expected_spec(habit@, *day),
{
    let freq: HabitFrequency = match &habit.repeater {
        None => {
            return false;
        },
        Some(rep) => match &rep.frequency {
            None => {
                return false;
            },
            Some(f) => *f,
        },
    };
    proof {
        assert(view_repeater(habit.repeater) matches Some(rm) && rm.frequency == Some(freq));
    }
    let base: Date = match habit.scheduled {
        Some(b) => b,
        None => match habit.last_repeat {
            Some(b) => b,
            None => {
                return false;
            },
        },
    };
    if day.year == base.year && day.month == base.month && day.day == base.day {
        return true;
    }
    proof {
        lemma_date_order(*day, base);
        lemma_day_number_range(*day);
        lemma_day_number_range(base);
    }
    if crate::date::date_lt(day, &base) {
        return false;
    }
    let diff: i64 = crate::date::days_between(day, &base);
    match freq {
        HabitFrequency::Daily(n) => diff % (n as i64) == 0,
        HabitFrequency::Weekly(n) => diff % (7 * (n as i64)) == 0,
        HabitFrequency::Monthly(n) => {
            if day.day != base.day {
                return false;
            }
            let md = crate::date::months_between(&base, day);
            md >= 0 && md % (n as i64) == 0
        },
        HabitFrequency::Yearly(n) => {
            if day.month != base.month || day.day != base.day || day.year < base.year {
                return false;
            }
            ((day.year - base.year) as i64) % (n as i64) == 0
        },
    }
}

/// A completion was logged for the day with this day number.
pub open spec fn logged_on(h: HabitModel, dn: int) -> bool {
    exists|i: int|
        0 <= i < h.log_entries.len() && day_number(#[trigger] h.log_entries[i].date) == dn
}

/// Expectation lifted to day numbers; days outside the representable
/// range expect nothing.
pub open spec fn expected_num(h: HabitModel, dn: int) -> bool {
    0 <= dn <= max_day_number() && habit_expected_spec(h, date_of_day_number(dn))
}

/// For the history view, a day also counts as expected when it was logged
/// and the habit has no repeater.
pub open spec fn hist_expected(h: HabitModel, dn: int) -> bool {
    expected_num(h, dn) || (h.repeater is None && logged_on(h, dn))
}

/// One history cell: `X` expected and done, `o` done only, `.` expected
/// only, `_` neither.
pub open spec fn glyph(h: HabitModel, dn: int) -> char {
    if logged_on(h, dn) && hist_expected(h, dn) {
        'X'
    } else if logged_on(h, dn) {
        'o'
    } else if hist_expected(h, dn) {
        '.'
    } else {
        '_'
    }
}

/// The last `window` days, oldest first.
pub open spec fn history_graph(h: HabitModel, today: Date, window: int) -> Seq<char> {
    Seq::new(window as nat, |i: int| glyph(h, day_number(today) - (window - 1 - i)))
}

/// Consecutive expected-and-done days walking backward; an expected day
/// without a completion ends the walk, unexpected days do not.
pub open spec fn streak_from(h: HabitModel, dn: int, remaining: nat) -> int
    decreases remaining,
{
    if remaining == 0 {
        0
    } else if hist_expected(h, dn) {
        if logged_on(h, dn) {
            1 + streak_from(h, dn - 1, (remaining - 1) as nat)
        } else {
            0
        }
    } else {
        streak_from(h, dn - 1, (remaining - 1) as nat)
    }
}

/// The glyph row and streak over the last `window` days, absent for a
/// habit with neither repeater nor log, or an empty window.
pub open spec fn history_summary_spec(h: HabitModel, window: int, today: Date) -> Option<
    (Seq<char>, int),
> {
    if window == 0 || (h.repeater is None && h.log_entries.len() == 0) {
        None
    } else {
        Some((history_graph(h, today, window), streak_from(h, day_number(today), window as nat)))
    }
}

fn logged_exec(habit: &Habit, d: &Date) -> (r: bool)
    requires
        habit_wf(habit@),
        date_valid(*d),
    ensures
        r == logged_on(habit@, day_number(*d)),
{
    let n = habit.log_entries.len();
    let mut i: usize = 0;
    while i < n
        invariant
            0 <= i <= n,
            n == habit@.log_entries.len(),
            habit_wf(habit@),
            date_valid(*d),
            forall|j: int| 0 <= j < i ==> day_number(#[trigger] habit@.log_entries[j].date)
                != day_number(*d),
        decreases n - i,
    {
        let e = &habit.log_entries[i];
        proof {
            assert(habit@.log_entries[i as int] == habit.log_entries@[i as int]@);
            lemma_date_order(habit@.log_entries[i as int].date, *d);
        }
        if e.date.year == d.year && e.date.month == d.month && e.date.day == d.day {
            return true;
        }
        i = i + 1;
    }
    false
}

proof fn lemma_no_log_below_zero(h: HabitModel, dn: int)
    requires
        dn < 0,
        forall|i: int| 0 <= i < h.log_entries.len() ==> date_valid(#[trigger] h.log_entries[i].date),
    ensures
        !logged_on(h, dn),
        !hist_expected(h, dn),
{
    assert forall|i: int| 0 <= i < h.log_entries.len() implies day_number(
        #[trigger] h.log_entries[i].date,
    ) != dn by {
        lemma_day_number_range(h.log_entries[i].date);
    }
}

/// The habit's recent history: a cell per day over the window ending
/// today, and the current streak.
pub fn habit_history_summary(habit: &Habit, days: usize, today: &Date) -> (r: Option<
    (String, usize),
>)
    requires
        habit_wf(habit@),
        date_valid(*today),
    ensures
        (match r {
            Some((g, s)) => history_summary_spec(habit@, days as int, *today) == Some(
                (g@, s as int),
            ),
            None => history_summary_spec(habit@, days as int, *today) is None,
        }),
{
    if days == 0 {
        return None;
    }
    if habit.repeater.is_none() && habit.log_entries.len() == 0 {
        return None;
    }
    let ghost h = habit@;
    let tn: u32 = crate::date::day_number_of(today);
    proof {
        lemma_day_number_range(*today);
        lemma_max_day_number_bound();
    }
    let mut graph_v: Vec<char> = Vec::new();
    let mut i: usize = 0;
    while i < days
        invariant
            0 <= i <= days,
            h == habit@,
            habit_wf(h),
            date_valid(*today),
            tn == day_number(*today),
            tn <= max_day_number() < 4000000,
            graph_v@ =~= history_graph(h, *today, days as int).take(i as int),
        decreases days - i,
    {
        let back: usize = days - 1 - i;
        let cell: char;
        if (back as u64) > (tn as u64) {
            proof {
                lemma_no_log_below_zero(h, tn - (back as int));
            }
            cell = '_';
        } else {
            let dn: u32 = tn - (back as u32);
            let d = crate::date::date_from_day_number(dn);
            let done = logged_exec(habit, &d);
            let expected = habit_expected_on(habit, &d) || (habit.repeater.is_none() && done);
            proof {
                assert(expected_num(h, dn as int) == habit_expected_spec(h, d));
                assert(done == logged_on(h, dn as int));
                assert(expected == hist_expected(h, dn as int));
            }
            if done && expected {
                cell = 'X';
            } else if done {
                cell = 'o';
            } else if expected {
                cell = '.';
            } else {
                cell = '_';
            }
        }
        graph_v.push(cell);
        proof {
            assert(cell == glyph(h, tn - ((days - 1 - i) as int)));
            assert(graph_v@ =~= history_graph(h, *today, days as int).take(i + 1));
        }
        i = i + 1;
    }
    proof {
        assert(history_graph(h, *today, days as int).take(days as int) =~= history_graph(
            h,
            *today,
            days as int,
        ));
    }
    let mut streak: usize = 0;
    let mut off: usize = 0;
    while off < days
        invariant
            0 <= off <= days,
            streak <= off,
            h == habit@,
            habit_wf(h),
            date_valid(*today),
            tn == day_number(*today),
            tn <= max_day_number() < 4000000,
            days >= 1,
            !(h.repeater is None && h.log_entries.len() == 0),
            graph_v@ =~= history_graph(h, *today, days as int),
            streak_from(h, tn as int, days as nat) == streak + streak_from(
                h,
                tn - (off as int),
                (days - off) as nat,
            ),
        decreases days - off,
    {
        let expected: bool;
        let done: bool;
        if (off as u64) > (tn as u64) {
            proof {
                lemma_no_log_below_zero(h, tn - (off as int));
            }
            expected = false;
            done = false;
        } else {
            let dn: u32 = tn - (off as u32);
            let d = crate::date::date_from_day_number(dn);
            done = logged_exec(habit, &d);
            expected = habit_expected_on(habit, &d) || (habit.repeater.is_none() && done);
            proof {
                assert(done == logged_on(h, dn as int));
                assert(expected == hist_expected(h, dn as int));
            }
        }
        if expected {
            if done {
                streak = streak + 1;
            } else {
                proof {
                    assert(streak_from(h, tn - (off as int), (days - off) as nat) == 0);
                }
                return Some((chars_string(&graph_v), streak));
            }
        }
        off = off + 1;
    }
    proof {
        assert(streak_from(h, tn - (days as int), 0nat) == 0);
    }
    Some((chars_string(&graph_v), streak))
}

/// Applies one properties-drawer line to the scan state.
fn prop_line(b: &mut HabitBuilder, tr: &Vec<char>)
    requires
        builder_wf(old(b)@),
    ensures
        final(b)@ =~= prop_step(old(b)@, tr@),
        builder_wf(final(b)@),
{
    let n = tr.len();
    if n == 0 || tr[0] != ':' {
        return ;
    }
    let rest = slice_to_vec_chars(tr, 1, n);
    proof {
        assert(rest@ =~= tr@.drop_first());
    }
    let i = match find_char(&rest, ':', 0) {
        None => {
            proof {
                lemma_scan_len(rest@, |c: char| c == ':', rest@.len() as int);
            }
            return ;
        },
        Some(i) => i,
    };
    proof {
        lemma_scan_len(rest@, |c: char| c == ':', i as int);
    }
    let key = slice_to_vec_chars(&rest, 0, i);
    let value = slice_to_vec_chars(&rest, i + 1, rest.len());
    proof {
        assert(key@ =~= rest@.take(i as int));
        assert(value@ =~= rest@.skip(i + 1));
    }
    let kt = trim(&key);
    let vt = trim(&value);
    let pat_style = str_chars("STYLE");
    let pat_habit = str_chars("habit");
    let pat_last = str_chars("LAST_REPEAT");
    if eq_icase(&kt, &pat_style) && eq_icase(&vt, &pat_habit) {
        b.is_habit = true;
        proof {
            assert(b@ =~= BuilderModel { is_habit: true, ..old(b)@ });
        }
    } else if eq_icase(&kt, &pat_last) {
        match extract_date_from_brackets(&vt) {
            Some(d) => {
                b.last_repeat = Some(d);
                proof {
                    assert(b@ =~= BuilderModel { last_repeat: Some(d), ..old(b)@ });
                }
            },
            None => {},
        }
    }
}

} // verus!
