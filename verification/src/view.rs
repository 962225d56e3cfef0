//! The per-day agenda view: which items and habits appear on a given day,
//! their display rows, and the order the rows are shown in.

use vstd::prelude::*;
use crate::date::{Date, date_valid, day_number, lemma_day_number_range, lemma_max_day_number_bound};
use crate::agenda::{
    AgendaItem, AgendaKind, ItemModel, TimeOfDay, item_wf, items_view, view_opt_string,
    opt_time_lt, seq_lex_lt, lemma_seq_lex_connected, lemma_seq_lex_trans, lemma_seq_lex_asym,
};
use crate::habit::{Habit, HabitModel, habit_wf, habit_expected_spec, history_summary_spec};
use crate::occurrence::{
    AgendaItemOccurrence, OccurrenceModel, describe_item_spec, describe_item_for_day,
};
use crate::text::{dec_digits, str_chars, chars_string, push_all, u64_digits};
use crate::roam::{file_name_of, stem_of};

verus! {

/// A number padded to two digits.
pub open spec fn two_digit(n: int) -> Seq<char> {
    if 0 <= n < 10 {
        seq!['0'] + dec_digits(n)
    } else {
        dec_digits(n)
    }
}

/// A year padded to four digits.
pub open spec fn four_digit(n: int) -> Seq<char> {
    if 0 <= n < 10 {
        seq!['0', '0', '0'] + dec_digits(n)
    } else if 10 <= n < 100 {
        seq!['0', '0'] + dec_digits(n)
    } else if 100 <= n < 1000 {
        seq!['0'] + dec_digits(n)
    } else {
        dec_digits(n)
    }
}

/// `HH:MM`.
pub open spec fn time_text(t: TimeOfDay) -> Seq<char> {
    two_digit(t.hour as int) + seq![':'] + two_digit(t.minute as int)
}

/// `YYYY-MM-DD`.
pub open spec fn date_text(d: Date) -> Seq<char> {
    four_digit(d.year as int) + seq!['-'] + two_digit(d.month as int) + seq!['-'] + two_digit(
        d.day as int,
    )
}

fn two_digit_exec(n: u32) -> (r: Vec<char>)
    ensures
        r@ == two_digit(n as int),
{
    if n < 10 {
        let mut out: Vec<char> = Vec::new();
        out.push('0');
        let d = u64_digits(n as u64);
        push_all(&mut out, &d);
        proof {
            assert(out@ =~= seq!['0'] + dec_digits(n as int));
        }
        out
    } else {
        u64_digits(n as u64)
    }
}

fn four_digit_exec(n: u32) -> (r: Vec<char>)
    ensures
        r@ == four_digit(n as int),
{
    let d = u64_digits(n as u64);
    let mut out: Vec<char> = Vec::new();
    if n < 10 {
        out.push('0');
        out.push('0');
        out.push('0');
        push_all(&mut out, &d);
        proof {
            assert(out@ =~= seq!['0', '0', '0'] + dec_digits(n as int));
        }
        out
    } else if n < 100 {
        out.push('0');
        out.push('0');
        push_all(&mut out, &d);
        proof {
            assert(out@ =~= seq!['0', '0'] + dec_digits(n as int));
        }
        out
    } else if n < 1000 {
        out.push('0');
        push_all(&mut out, &d);
        proof {
            assert(out@ =~= seq!['0'] + dec_digits(n as int));
        }
        out
    } else {
        d
    }
}

fn time_text_exec(t: &TimeOfDay) -> (r: Vec<char>)
    ensures
        r@ == time_text(*t),
{
    let mut out = two_digit_exec(t.hour);
    out.push(':');
    let m = two_digit_exec(t.minute);
    push_all(&mut out, &m);
    proof {
        assert(out@ =~= time_text(*t));
    }
    out
}

/// Writes a date as `YYYY-MM-DD`.
pub fn date_text_exec(d: &Date) -> (r: Vec<char>)
    ensures
        r@ == date_text(*d),
{
    let mut out = four_digit_exec(d.year);
    out.push('-');
    let m = two_digit_exec(d.month);
    push_all(&mut out, &m);
    out.push('-');
    let dd = two_digit_exec(d.day);
    push_all(&mut out, &dd);
    proof {
        assert(out@ =~= date_text(*d));
    }
    out
}

/// One display row of a day.
#[derive(Clone, PartialEq, Eq, Debug)]
pub struct AgendaEntryView {
    pub item: Option<AgendaItem>,
    pub summary: String,
    pub metadata: Vec<String>,
    pub context: Option<String>,
    pub can_mark_done: bool,
    pub is_overdue: bool,
    pub time: Option<TimeOfDay>,
}

#[verifier::ext_equal]
pub struct EntryModel {
    pub item: Option<ItemModel>,
    pub summary: Seq<char>,
    pub metadata: Seq<Seq<char>>,
    pub context: Option<Seq<char>>,
    pub can_mark_done: bool,
    pub is_overdue: bool,
    pub time: Option<TimeOfDay>,
}

impl View for AgendaEntryView {
    type V = EntryModel;

    open spec fn view(&self) -> EntryModel {
        EntryModel {
            item: match self.item {
                Some(ref it) => Some(it@),
                None => None,
            },
            summary: self.summary@,
            metadata: self.metadata@.map_values(|s: String| s@),
            context: match self.context {
                Some(ref c) => Some(c@),
                None => None,
            },
            can_mark_done: self.can_mark_done,
            is_overdue: self.is_overdue,
            time: self.time,
        }
    }
}

pub open spec fn entries_view(s: Seq<AgendaEntryView>) -> Seq<EntryModel> {
    s.map_values(|e: AgendaEntryView| e@)
}

/// The row of a resolved occurrence: its prefix, clock time and todo
/// keyword joined before the title, the item's context when non-blank.
pub open spec fn entry_of_occurrence(occ: OccurrenceModel, m: ItemModel) -> EntryModel {
    let s0 = match occ.prefix {
        Some(p) => p + seq![':', ' ', ' '],
        None => Seq::<char>::empty(),
    };
    let s1 = match m.time {
        Some(t) => s0 + time_text(t) + seq![' '],
        None => s0,
    };
    let s2 = match m.todo_keyword {
        Some(k) => s1 + k + seq![' '],
        None => s1,
    };
    EntryModel {
        item: Some(m),
        summary: s2 + m.title,
        metadata: metadata_of(m, occ.occurrence_date),
        context: if crate::text::trim_s(m.context).len() == 0 {
            None
        } else {
            Some(m.context)
        },
        can_mark_done: m.todo_keyword is Some,
        is_overdue: occ.is_overdue,
        time: m.time,
    }
}

/// The metadata cells of an item's row: its kind, its raw timestamp, the
/// resolved date when it differs from the item's date, and the source
/// file's stem.
pub open spec fn metadata_of(m: ItemModel, occ_date: Date) -> Seq<Seq<char>> {
    let kind_part: Seq<Seq<char>> = match m.kind {
        AgendaKind::Deadline => seq!["Deadline"@],
        AgendaKind::Scheduled => seq!["Scheduled"@],
        AgendaKind::Floating => Seq::empty(),
    };
    let raw_part: Seq<Seq<char>> = match m.timestamp_raw {
        Some(raw) => seq![seq!['<'] + raw + seq!['>']],
        None => Seq::empty(),
    };
    let target_part: Seq<Seq<char>> = if m.date != Some(occ_date) {
        seq!["Target "@ + date_text(occ_date)]
    } else {
        Seq::empty()
    };
    let name = file_name_of(m.path);
    let stem_part: Seq<Seq<char>> = if name.len() > 0 {
        seq![seq!['['] + stem_of(name) + seq![']']]
    } else {
        Seq::empty()
    };
    kind_part + raw_part + target_part + stem_part
}

fn push_string(out: &mut Vec<String>, s: Vec<char>)
    ensures
        final(out)@.map_values(|x: String| x@) =~= old(out)@.map_values(|x: String| x@).push(s@),
{
    let ghost prev = out@;
    let st = chars_string(&s);
    out.push(st);
    proof {
        assert(out@.map_values(|x: String| x@) =~= prev.map_values(|x: String| x@).push(s@));
    }
}

/// Builds the display row of an item occurrence.
pub fn entry_from_occurrence(occurrence: AgendaItemOccurrence, item: &AgendaItem) -> (r:
    AgendaEntryView)
    ensures
        r@ =~~= entry_of_occurrence(occurrence@, item@),
{
    let mut sv: Vec<char> = Vec::new();
    match &occurrence.prefix {
        Some(p) => {
            let pv = str_chars(p.as_str());
            push_all(&mut sv, &pv);
            sv.push(':');
            sv.push(' ');
            sv.push(' ');
        },
        None => {},
    }
    match &item.time {
        Some(t) => {
            let tv = time_text_exec(t);
            push_all(&mut sv, &tv);
            sv.push(' ');
        },
        None => {},
    }
    match &item.todo_keyword {
        Some(k) => {
            let kv = str_chars(k.as_str());
            push_all(&mut sv, &kv);
            sv.push(' ');
        },
        None => {},
    }
    let titlev = str_chars(item.title.as_str());
    push_all(&mut sv, &titlev);
    let metadata = build_metadata(item, &occurrence.occurrence_date);
    let ctxv = str_chars(item.context.as_str());
    let trimmed = crate::text::trim(&ctxv);
    let context: Option<String> = if trimmed.len() == 0 {
        None
    } else {
        Some(crate::text::copy_string(item.context.as_str()))
    };
    let r = AgendaEntryView {
        item: Some(clone_item(item)),
        summary: chars_string(&sv),
        metadata,
        context,
        can_mark_done: item.todo_keyword.is_some(),
        is_overdue: occurrence.is_overdue,
        time: item.time,
    };
    proof {
        assert(r@ =~~= entry_of_occurrence(occurrence@, item@));
    }
    r
}

fn clone_opt_str(s: &Option<String>) -> (r: Option<String>)
    ensures
        view_opt_string(r) == view_opt_string(*s),
{
    match s {
        Some(t) => Some(t.clone()),
        None => None,
    }
}

fn clone_item(it: &AgendaItem) -> (r: AgendaItem)
    ensures
        r@ == it@,
{
    let r = AgendaItem {
        title: it.title.clone(),
        date: it.date,
        time: it.time,
        context: it.context.clone(),
        path: it.path.clone(),
        headline_line: it.headline_line,
        todo_keyword: clone_opt_str(&it.todo_keyword),
        kind: it.kind,
        timestamp_raw: clone_opt_str(&it.timestamp_raw),
        repeater: it.repeater,
    };
    proof {
        assert(r@ =~~= it@);
    }
    r
}

fn build_metadata(item: &AgendaItem, occ_date: &Date) -> (r: Vec<String>)
    ensures
        r@.map_values(|s: String| s@) =~= metadata_of(item@, *occ_date),
{
    let mut out: Vec<String> = Vec::new();
    match item.kind {
        AgendaKind::Deadline => {
            let v = str_chars("Deadline");
            push_string(&mut out, v);
        },
        AgendaKind::Scheduled => {
            let v = str_chars("Scheduled");
            push_string(&mut out, v);
        },
        AgendaKind::Floating => {},
    }
    match &item.timestamp_raw {
        Some(raw) => {
            let mut v: Vec<char> = Vec::new();
            v.push('<');
            let rv = str_chars(raw.as_str());
            push_all(&mut v, &rv);
            v.push('>');
            proof {
                assert(v@ =~= seq!['<'] + raw@ + seq!['>']);
            }
            push_string(&mut out, v);
        },
        None => {},
    }
    let same: bool = match &item.date {
        Some(d) => d.year == occ_date.year && d.month == occ_date.month && d.day == occ_date.day,
        None => false,
    };
    if !same {
        let mut v = str_chars("Target ");
        let dv = date_text_exec(occ_date);
        push_all(&mut v, &dv);
        proof {
            assert(v@ =~= "Target "@ + date_text(*occ_date));
        }
        push_string(&mut out, v);
    }
    let pathv = str_chars(item.path.as_str());
    let n = pathv.len();
    let mut k: usize = n;
    while k > 0 && pathv[k - 1] != '/'
        invariant
            0 <= k <= n,
            n == pathv@.len(),
            forall|j: int| k <= j < n ==> pathv@[j] != '/',
        decreases k,
    {
        k = k - 1;
    }
    proof {
        crate::roam::lemma_after_last(pathv@, '/', k as int);
    }
    let name = crate::text::slice_to_vec_chars(&pathv, k, n);
    let m = name.len();
    if m > 0 {
        let mut d: usize = m;
        while d > 0 && name[d - 1] != '.'
            invariant
                0 <= d <= m,
                m == name@.len(),
                forall|j: int| d <= j < m ==> name@[j] != '.',
            decreases d,
        {
            d = d - 1;
        }
        let stem: Vec<char>;
        if d <= 1 {
            proof {
                if d == 0 {
                    crate::roam::lemma_last_dot(name@, -1);
                } else {
                    crate::roam::lemma_last_dot(name@, 0);
                }
            }
            stem = name;
        } else {
            proof {
                crate::roam::lemma_last_dot(name@, d - 1);
            }
            stem = crate::text::slice_to_vec_chars(&name, 0, d - 1);
        }
        let mut v: Vec<char> = Vec::new();
        v.push('[');
        push_all(&mut v, &stem);
        v.push(']');
        proof {
            assert(v@ =~= seq!['['] + stem_of(file_name_of(item@.path)) + seq![']']);
        }
        push_string(&mut out, v);
    }
    out
}

/// How many history days a habit row shows.
pub const HISTORY_WINDOW_DAYS: usize = 21;

/// The metadata cells of a habit's row: its repeater token, its last
/// repeat, and its recent history and streak.
pub open spec fn habit_metadata(h: HabitModel, today: Date) -> Seq<Seq<char>> {
    let rep_part: Seq<Seq<char>> = match h.repeater {
        Some(r) => seq!["Repeats "@ + r.raw],
        None => Seq::empty(),
    };
    let last_part: Seq<Seq<char>> = match h.last_repeat {
        Some(d) => seq!["Last repeat "@ + date_text(d)],
        None => Seq::empty(),
    };
    let hist_part: Seq<Seq<char>> = match history_summary_spec(
        h,
        HISTORY_WINDOW_DAYS as int,
        today,
    ) {
        Some(gs) => seq![
            "History "@ + gs.0,
            "Streak "@ + dec_digits(gs.1) + " day"@ + (if gs.1 == 1 {
                Seq::<char>::empty()
            } else {
                seq!['s']
            }),
        ],
        None => Seq::empty(),
    };
    rep_part + last_part + hist_part
}

/// The display row of an expected habit.
pub open spec fn entry_of_habit(h: HabitModel, today: Date) -> EntryModel {
    EntryModel {
        item: None,
        summary: "Habit · "@ + h.title,
        metadata: habit_metadata(h, today),
        context: if crate::text::trim_s(h.description).len() == 0 {
            None
        } else {
            Some(h.description)
        },
        can_mark_done: false,
        is_overdue: false,
        time: None,
    }
}

/// Builds the display row of a habit.
pub fn entry_from_habit(habit: &Habit, today: &Date) -> (r: AgendaEntryView)
    requires
        habit_wf(habit@),
        date_valid(*today),
    ensures
        r@ =~~= entry_of_habit(habit@, *today),
{
    let mut metadata: Vec<String> = Vec::new();
    match &habit.repeater {
        Some(rep) => {
            let mut v = str_chars("Repeats ");
            let rv = str_chars(rep.raw.as_str());
            push_all(&mut v, &rv);
            proof {
                assert(v@ =~= "Repeats "@ + habit@.repeater->0.raw);
            }
            push_string(&mut metadata, v);
        },
        None => {},
    }
    match &habit.last_repeat {
        Some(d) => {
            let mut v = str_chars("Last repeat ");
            let dv = date_text_exec(d);
            push_all(&mut v, &dv);
            proof {
                assert(v@ =~= "Last repeat "@ + date_text(habit@.last_repeat->0));
            }
            push_string(&mut metadata, v);
        },
        None => {},
    }
    match crate::habit::habit_history_summary(habit, HISTORY_WINDOW_DAYS, today) {
        Some((graph, streak)) => {
            let mut v = str_chars("History ");
            let gv = str_chars(graph.as_str());
            push_all(&mut v, &gv);
            push_string(&mut metadata, v);
            let mut w = str_chars("Streak ");
            let sv = u64_digits(streak as u64);
            push_all(&mut w, &sv);
            let day_word = str_chars(" day");
            push_all(&mut w, &day_word);
            if streak != 1 {
                w.push('s');
            }
            proof {
                let gs = history_summary_spec(habit@, HISTORY_WINDOW_DAYS as int, *today)->0;
                assert(w@ =~= "Streak "@ + dec_digits(gs.1) + " day"@ + (if gs.1 == 1 {
                    Seq::<char>::empty()
                } else {
                    seq!['s']
                }));
            }
            push_string(&mut metadata, w);
        },
        None => {},
    }
    let mut sv = str_chars("Habit · ");
    let tv = str_chars(habit.title.as_str());
    push_all(&mut sv, &tv);
    let descv = str_chars(habit.description.as_str());
    let trimmed = crate::text::trim(&descv);
    let context: Option<String> = if trimmed.len() == 0 {
        None
    } else {
        Some(crate::text::copy_string(habit.description.as_str()))
    };
    let r = AgendaEntryView {
        item: None,
        summary: chars_string(&sv),
        metadata,
        context,
        can_mark_done: false,
        is_overdue: false,
        time: None,
    };
    proof {
        assert(r@.metadata =~= habit_metadata(habit@, *today));
        assert(r@ =~~= entry_of_habit(habit@, *today));
    }
    r
}

/// The rows of the items that resolve to an occurrence on `day`.
pub open spec fn item_entries(
    items: Seq<ItemModel>,
    day: Date,
    today: Date,
    warning_days: int,
) -> Seq<EntryModel>
    decreases items.len(),
{
    if items.len() == 0 {
        Seq::empty()
    } else {
        let head: Seq<EntryModel> = match describe_item_spec(items[0], day, today, warning_days) {
            Some(occ) => seq![entry_of_occurrence(occ, items[0])],
            None => Seq::empty(),
        };
        head + item_entries(items.drop_first(), day, today, warning_days)
    }
}

/// The rows of the habits expected on `day`.
pub open spec fn habit_entries(habits: Seq<HabitModel>, day: Date, today: Date) -> Seq<EntryModel>
    decreases habits.len(),
{
    if habits.len() == 0 {
        Seq::empty()
    } else {
        let head: Seq<EntryModel> = if habit_expected_spec(habits[0], day) {
            seq![entry_of_habit(habits[0], today)]
        } else {
            Seq::empty()
        };
        head + habit_entries(habits.drop_first(), day, today)
    }
}

/// Everything a day shows, before ordering.
pub open spec fn day_entries_spec(
    items: Seq<ItemModel>,
    habits: Seq<HabitModel>,
    day: Date,
    today: Date,
    warning_days: int,
) -> Seq<EntryModel> {
    item_entries(items, day, today, warning_days) + habit_entries(habits, day, today)
}

/// Rows are ordered by clock time, then by their summary text.
pub open spec fn entry_le(a: EntryModel, b: EntryModel) -> bool {
    if a.time != b.time {
        opt_time_lt(a.time, b.time)
    } else if a.summary != b.summary {
        seq_lex_lt(a.summary, b.summary)
    } else {
        true
    }
}

pub open spec fn entry_leq() -> spec_fn(EntryModel, EntryModel) -> bool {
    |x: EntryModel, y: EntryModel| entry_le(x, y)
}

/// Law: the row ordering is total.
pub proof fn lemma_entry_le_connected(a: EntryModel, b: EntryModel)
    ensures
        entry_le(a, b) || entry_le(b, a),
{
    if a.summary != b.summary {
        lemma_seq_lex_connected(a.summary, b.summary);
    }
}

/// Law: the row ordering is transitive.
pub proof fn lemma_entry_le_trans(a: EntryModel, b: EntryModel, c: EntryModel)
    requires
        entry_le(a, b),
        entry_le(b, c),
    ensures
        entry_le(a, c),
{
    if a.summary != b.summary && seq_lex_lt(a.summary, b.summary) {
        lemma_seq_lex_asym(a.summary, b.summary);
    }
    if b.summary != c.summary && seq_lex_lt(b.summary, c.summary) {
        lemma_seq_lex_asym(b.summary, c.summary);
    }
    if a.summary != b.summary && b.summary != c.summary && seq_lex_lt(a.summary, b.summary)
        && seq_lex_lt(b.summary, c.summary) {
        lemma_seq_lex_trans(a.summary, b.summary, c.summary);
        lemma_seq_lex_asym(a.summary, c.summary);
    }
}

fn entry_le_exec(a: &AgendaEntryView, b: &AgendaEntryView) -> (r: bool)
    ensures
        r == entry_le(a@, b@),
{
    let time_eq: bool = match (&a.time, &b.time) {
        (Option::None, Option::None) => true,
        (Option::Some(x), Option::Some(y)) => x.hour == y.hour && x.minute == y.minute,
        _ => false,
    };
    if !time_eq {
        match (&a.time, &b.time) {
            (Option::None, Option::Some(_)) => true,
            (Option::Some(x), Option::Some(y)) => {
                if x.hour != y.hour {
                    x.hour < y.hour
                } else {
                    x.minute < y.minute
                }
            },
            _ => false,
        }
    } else {
        let av = str_chars(a.summary.as_str());
        let bv = str_chars(b.summary.as_str());
        if crate::text::chars_eq(&av, &bv) {
            true
        } else {
            seq_lex_lt_chars(&av, &bv)
        }
    }
}

fn seq_lex_lt_chars(av: &Vec<char>, bv: &Vec<char>) -> (r: bool)
    ensures
        r == seq_lex_lt(av@, bv@),
{
    let na = av.len();
    let nb = bv.len();
    let mut k: usize = 0;
    proof {
        assert(av@.skip(0) =~= av@);
        assert(bv@.skip(0) =~= bv@);
    }
    while k < na && k < nb && av[k] == bv[k]
        invariant
            0 <= k <= na,
            0 <= k <= nb,
            na == av@.len(),
            nb == bv@.len(),
            seq_lex_lt(av@, bv@) == seq_lex_lt(av@.skip(k as int), bv@.skip(k as int)),
        decreases na - k,
    {
        proof {
            assert(av@.skip(k as int)[0] == av@[k as int]);
            assert(bv@.skip(k as int)[0] == bv@[k as int]);
            assert(av@.skip(k as int).drop_first() =~= av@.skip(k + 1));
            assert(bv@.skip(k as int).drop_first() =~= bv@.skip(k + 1));
        }
        k = k + 1;
    }
    let r: bool;
    if k == na {
        r = k < nb;
        proof {
            assert(av@.skip(k as int).len() == 0);
        }
    } else if k == nb {
        r = false;
        proof {
            assert(bv@.skip(k as int).len() == 0);
        }
    } else {
        r = av[k] < bv[k];
        proof {
            assert(av@.skip(k as int)[0] == av@[k as int]);
            assert(bv@.skip(k as int)[0] == bv@[k as int]);
            assert(av@[k as int] != bv@[k as int]);
        }
    }
    r
}

proof fn lemma_entry_multiset_insert(s: Seq<EntryModel>, j: int, x: EntryModel)
    requires
        0 <= j <= s.len(),
    ensures
        s.insert(j, x).to_multiset() =~= s.to_multiset().insert(x),
{
    broadcast use vstd::seq_lib::group_seq_properties;

    assert(s.insert(j, x) =~= s.take(j) + (seq![x] + s.skip(j)));
    vstd::seq_lib::lemma_multiset_commutative(s.take(j), seq![x] + s.skip(j));
    vstd::seq_lib::lemma_multiset_commutative(seq![x], s.skip(j));
    vstd::seq_lib::lemma_multiset_commutative(s.take(j), s.skip(j));
    assert(s.take(j) + s.skip(j) =~= s);
    assert(seq![x] =~= Seq::<EntryModel>::empty().push(x));
    Seq::<EntryModel>::empty().to_multiset_ensures();
    vstd::multiset::lemma_multiset_empty_len(Seq::<EntryModel>::empty().to_multiset());
    assert(seq![x].to_multiset() =~= vstd::multiset::Multiset::<EntryModel>::empty().insert(x));
}

/// Sorts rows by time then summary, keeping exactly the same rows.
fn sort_entries(input: Vec<AgendaEntryView>) -> (r: Vec<AgendaEntryView>)
    ensures
        entries_view(r@).to_multiset() == entries_view(input@).to_multiset(),
        vstd::relations::sorted_by(entries_view(r@), entry_leq()),
{
    let ghost orig = entries_view(input@);
    let mut rest = input;
    let mut out: Vec<AgendaEntryView> = Vec::new();
    proof {
        broadcast use vstd::seq_lib::group_to_multiset_ensures;

        assert(entries_view(out@) =~= Seq::<EntryModel>::empty());
    }
    while rest.len() > 0
        invariant
            entries_view(out@).to_multiset().add(entries_view(rest@).to_multiset())
                =~= orig.to_multiset(),
            vstd::relations::sorted_by(entries_view(out@), entry_leq()),
        decreases rest@.len(),
    {
        let ghost pre_rest = entries_view(rest@);
        let x = rest.pop().unwrap();
        proof {
            broadcast use vstd::seq_lib::group_to_multiset_ensures;

            assert(entries_view(rest@) =~= pre_rest.drop_last());
            assert(pre_rest =~= entries_view(rest@).push(x@));
        }
        let n = out.len();
        let mut j: usize = 0;
        while j < n && entry_le_exec(&out[j], &x)
            invariant
                0 <= j <= n,
                n == out@.len(),
                forall|k: int| 0 <= k < j ==> entry_le(#[trigger] entries_view(out@)[k], x@),
            decreases n - j,
        {
            proof {
                assert(entries_view(out@)[j as int] == out@[j as int]@);
            }
            j = j + 1;
        }
        let ghost old_out = entries_view(out@);
        proof {
            if j < n {
                lemma_entry_le_connected(old_out[j as int], x@);
            }
            assert forall|k: int| j <= k < n implies entry_le(x@, #[trigger] old_out[k]) by {
                assert(entry_le(x@, old_out[j as int]));
                if k > j {
                    assert(entry_leq()(old_out[j as int], old_out[k]));
                    assert(entry_le(old_out[j as int], old_out[k]));
                    lemma_entry_le_trans(x@, old_out[j as int], old_out[k]);
                }
            }
        }
        out.insert(j, x);
        proof {
            assert(entries_view(out@) =~= old_out.insert(j as int, x@));
            lemma_entry_multiset_insert(old_out, j as int, x@);
            assert forall|i1: int, i2: int|
                0 <= i1 < i2 < entries_view(out@).len() implies entry_leq()(
                entries_view(out@)[i1],
                entries_view(out@)[i2],
            ) by {
                old_out.insert_ensures(j as int, x@);
                if i1 < j && i2 < j {
                    assert(entry_leq()(old_out[i1], old_out[i2]));
                    assert(entry_le(old_out[i1], old_out[i2]));
                } else if i1 < j && i2 == j {
                    assert(entry_le(old_out[i1], x@));
                } else if i1 < j && i2 > j {
                    assert(entry_leq()(old_out[i1], old_out[i2 - 1]));
                    assert(entry_le(old_out[i1], old_out[i2 - 1]));
                } else if i1 == j && i2 > j {
                    assert(entry_le(x@, old_out[i2 - 1]));
                } else if i1 > j {
                    assert(entry_leq()(old_out[i1 - 1], old_out[i2 - 1]));
                    assert(entry_le(old_out[i1 - 1], old_out[i2 - 1]));
                }
            }
        }
    }
    proof {
        broadcast use vstd::seq_lib::group_to_multiset_ensures;

        assert(entries_view(rest@) =~= Seq::<EntryModel>::empty());
        vstd::multiset::lemma_multiset_empty_len(entries_view(rest@).to_multiset());
        assert(entries_view(out@).to_multiset() =~= orig.to_multiset());
    }
    out
}

/// Collects one day's rows: each item's resolved occurrence and each
/// expected habit, sorted by time then summary.
pub fn build_day_entries(
    items: &Vec<AgendaItem>,
    habits: &Vec<Habit>,
    day: &Date,
    today: &Date,
    warning_days: i64,
) -> (r: Vec<AgendaEntryView>)
    requires
        forall|i: int| 0 <= i < items@.len() ==> item_wf(#[trigger] items@[i]@),
        forall|i: int| 0 <= i < habits@.len() ==> habit_wf(#[trigger] habits@[i]@),
        date_valid(*day),
        date_valid(*today),
    ensures
        entries_view(r@).to_multiset() == day_entries_spec(
            items_view(items@),
            crate::habit::habits_view(habits@),
            *day,
            *today,
            warning_days as int,
        ).to_multiset(),
        vstd::relations::sorted_by(entries_view(r@), entry_leq()),
{
    let ghost iv = items_view(items@);
    let ghost hv = crate::habit::habits_view(habits@);
    let mut entries: Vec<AgendaEntryView> = Vec::new();
    let n = items.len();
    let mut i: usize = 0;
    proof {
        assert(iv.skip(0) =~= iv);
        assert(entries_view(entries@) =~= Seq::<EntryModel>::empty());
    }
    while i < n
        invariant
            0 <= i <= n,
            n == iv.len(),
            iv == items_view(items@),
            hv == crate::habit::habits_view(habits@),
            forall|k: int| 0 <= k < items@.len() ==> item_wf(#[trigger] items@[k]@),
            date_valid(*day),
            date_valid(*today),
            entries_view(entries@) + item_entries(iv.skip(i as int), *day, *today, warning_days as int)
                =~= item_entries(iv, *day, *today, warning_days as int),
        decreases n - i,
    {
        let item = &items[i];
        proof {
            assert(iv.skip(i as int)[0] == item@);
            assert(iv.skip(i as int).drop_first() =~= iv.skip(i + 1));
        }
        match describe_item_for_day(item, day, today, warning_days) {
            Some(occ) => {
                let entry = entry_from_occurrence(occ, item);
                let ghost prev = entries_view(entries@);
                entries.push(entry);
                proof {
                    assert(entries_view(entries@) =~= prev.push(entry@));
                }
            },
            None => {},
        }
        i = i + 1;
    }
    proof {
        assert(item_entries(iv.skip(n as int), *day, *today, warning_days as int) =~= Seq::<
            EntryModel,
        >::empty());
        assert(entries_view(entries@) =~= item_entries(iv, *day, *today, warning_days as int));
    }
    let ghost after_items = entries_view(entries@);
    let hn = habits.len();
    let mut h: usize = 0;
    proof {
        assert(hv.skip(0) =~= hv);
    }
    while h < hn
        invariant
            0 <= h <= hn,
            hn == hv.len(),
            hv == crate::habit::habits_view(habits@),
            forall|k: int| 0 <= k < habits@.len() ==> habit_wf(#[trigger] habits@[k]@),
            date_valid(*day),
            date_valid(*today),
            entries_view(entries@) + habit_entries(hv.skip(h as int), *day, *today) =~= after_items
                + habit_entries(hv, *day, *today),
        decreases hn - h,
    {
        let habit = &habits[h];
        proof {
            assert(hv.skip(h as int)[0] == habit@);
            assert(hv.skip(h as int).drop_first() =~= hv.skip(h + 1));
        }
        if crate::habit::habit_expected_on(habit, day) {
            let entry = entry_from_habit(habit, today);
            let ghost prev = entries_view(entries@);
            entries.push(entry);
            proof {
                assert(entries_view(entries@) =~= prev.push(entry@));
            }
        }
        h = h + 1;
    }
    proof {
        assert(habit_entries(hv.skip(hn as int), *day, *today) =~= Seq::<EntryModel>::empty());
        assert(entries_view(entries@) =~= after_items + habit_entries(hv, *day, *today));
        assert(entries_view(entries@) =~= day_entries_spec(iv, hv, *day, *today, warning_days as int));
    }
    sort_entries(entries)
}

/// The relative word for a day `diff` days from today.
pub open spec fn relative_label(diff: int) -> Seq<char> {
    if diff == -1 {
        "Yesterday"@
    } else if diff == 0 {
        "Today"@
    } else if diff == 1 {
        "Tomorrow"@
    } else if diff < 0 {
        dec_digits(-diff) + " days ago"@
    } else {
        "In "@ + dec_digits(diff) + " days"@
    }
}

/// Writes the relative label of `date` against `today`.
pub fn format_relative_label(date: &Date, today: &Date) -> (r: String)
    requires
        date_valid(*date),
        date_valid(*today),
    ensures
        r@ == relative_label(day_number(*date) - day_number(*today)),
{
    proof {
        lemma_day_number_range(*date);
        lemma_day_number_range(*today);
        lemma_max_day_number_bound();
    }
    let diff: i64 = crate::date::days_between(date, today);
    if diff == -1 {
        chars_string(&str_chars("Yesterday"))
    } else if diff == 0 {
        chars_string(&str_chars("Today"))
    } else if diff == 1 {
        chars_string(&str_chars("Tomorrow"))
    } else if diff < 0 {
        let mut v = u64_digits((-diff) as u64);
        let tail = str_chars(" days ago");
        push_all(&mut v, &tail);
        chars_string(&v)
    } else {
        let mut v = str_chars("In ");
        let d = u64_digits(diff as u64);
        push_all(&mut v, &d);
        let tail = str_chars(" days");
        push_all(&mut v, &tail);
        chars_string(&v)
    }
}

/// The weekday of a day number.
pub open spec fn weekday_name(dn: int) -> Seq<char> {
    let w = dn % 7;
    if w == 0 {
        "Saturday"@
    } else if w == 1 {
        "Sunday"@
    } else if w == 2 {
        "Monday"@
    } else if w == 3 {
        "Tuesday"@
    } else if w == 4 {
        "Wednesday"@
    } else if w == 5 {
        "Thursday"@
    } else {
        "Friday"@
    }
}

pub open spec fn month_name(m: int) -> Seq<char> {
    if m == 1 {
        "January"@
    } else if m == 2 {
        "February"@
    } else if m == 3 {
        "March"@
    } else if m == 4 {
        "April"@
    } else if m == 5 {
        "May"@
    } else if m == 6 {
        "June"@
    } else if m == 7 {
        "July"@
    } else if m == 8 {
        "August"@
    } else if m == 9 {
        "September"@
    } else if m == 10 {
        "October"@
    } else if m == 11 {
        "November"@
    } else {
        "December"@
    }
}

/// A day's heading: its relative word, then weekday, month name, padded
/// day and year.
pub open spec fn day_heading(date: Date, today: Date) -> Seq<char> {
    relative_label(day_number(date) - day_number(today)) + " — "@ + weekday_name(day_number(date))
        + ", "@ + month_name(date.month as int) + seq![' '] + two_digit(date.day as int) + ", "@
        + four_digit(date.year as int)
}

/// Writes a day's heading.
pub fn format_day_heading(date: &Date, today: &Date) -> (r: String)
    requires
        date_valid(*date),
        date_valid(*today),
    ensures
        r@ == day_heading(*date, *today),
{
    let rel = format_relative_label(date, today);
    let mut v = str_chars(rel.as_str());
    let dash = str_chars(" — ");
    push_all(&mut v, &dash);
    proof {
        lemma_day_number_range(*date);
    }
    let dn = crate::date::day_number_of(date);
    let w = dn % 7;
    let wd: &str = if w == 0 {
        "Saturday"
    } else if w == 1 {
        "Sunday"
    } else if w == 2 {
        "Monday"
    } else if w == 3 {
        "Tuesday"
    } else if w == 4 {
        "Wednesday"
    } else if w == 5 {
        "Thursday"
    } else {
        "Friday"
    };
    let wv = str_chars(wd);
    push_all(&mut v, &wv);
    let comma = str_chars(", ");
    push_all(&mut v, &comma);
    let mn: &str = if date.month == 1 {
        "January"
    } else if date.month == 2 {
        "February"
    } else if date.month == 3 {
        "March"
    } else if date.month == 4 {
        "April"
    } else if date.month == 5 {
        "May"
    } else if date.month == 6 {
        "June"
    } else if date.month == 7 {
        "July"
    } else if date.month == 8 {
        "August"
    } else if date.month == 9 {
        "September"
    } else if date.month == 10 {
        "October"
    } else if date.month == 11 {
        "November"
    } else {
        "December"
    };
    let mv = str_chars(mn);
    push_all(&mut v, &mv);
    v.push(' ');
    let dv = two_digit_exec(date.day);
    push_all(&mut v, &dv);
    let comma2 = str_chars(", ");
    push_all(&mut v, &comma2);
    let yv = four_digit_exec(date.year);
    push_all(&mut v, &yv);
    proof {
        assert(wv@ == weekday_name(day_number(*date)));
        assert(mv@ == month_name(date.month as int));
        assert(v@ =~= day_heading(*date, *today));
    }
    chars_string(&v)
}

} // verus!
