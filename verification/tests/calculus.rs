use org_planner::agenda::{AgendaItem, AgendaKind};
use org_planner::date::{
    Date, add_days, add_months, add_years, days_between, days_in_month, is_leap_year,
};
use org_planner::habit::{extract_habits, habit_expected_on, habit_history_summary};
use org_planner::occurrence::{
    advance_once, advance_to_on_or_after, describe_deadline_for_day, describe_item_for_day,
    describe_scheduled_for_day, format_scheduled_future,
};
use org_planner::repeater::{Repeater, RepeaterUnit};

fn d(year: u32, month: u32, day: u32) -> Date {
    Date { year, month, day }
}

fn deadline_item(date: Date, repeater: Option<Repeater>) -> AgendaItem {
    AgendaItem {
        title: "Pay rent".to_string(),
        date: Some(date),
        time: None,
        context: String::new(),
        path: "agenda.org".to_string(),
        headline_line: 0,
        todo_keyword: Some("TODO".to_string()),
        kind: AgendaKind::Deadline,
        timestamp_raw: None,
        repeater,
    }
}

fn scheduled_item(date: Date, repeater: Option<Repeater>) -> AgendaItem {
    AgendaItem {
        kind: AgendaKind::Scheduled,
        ..deadline_item(date, repeater)
    }
}

#[test]
fn leap_year_rule_and_month_lengths() {
    assert!(is_leap_year(2024));
    assert!(!is_leap_year(2025));
    assert!(!is_leap_year(1900));
    assert!(is_leap_year(2000));
    assert_eq!(days_in_month(2024, 2), 29);
    assert_eq!(days_in_month(2025, 2), 28);
    assert_eq!(days_in_month(2025, 11), 30);
    assert_eq!(days_in_month(2025, 12), 31);
}

#[test]
fn day_arithmetic_crosses_month_and_year_ends() {
    assert_eq!(add_days(&d(2024, 2, 28), 1), Some(d(2024, 2, 29)));
    assert_eq!(add_days(&d(2025, 2, 28), 1), Some(d(2025, 3, 1)));
    assert_eq!(add_days(&d(2025, 12, 31), 1), Some(d(2026, 1, 1)));
    assert_eq!(days_between(&d(2025, 11, 12), &d(2025, 11, 10)), 2);
    assert_eq!(days_between(&d(2025, 1, 1), &d(2024, 1, 1)), 366);
}

#[test]
fn month_addition_clamps_to_month_length() {
    assert_eq!(add_months(&d(2025, 1, 31), 1), Some(d(2025, 2, 28)));
    assert_eq!(add_months(&d(2024, 1, 31), 1), Some(d(2024, 2, 29)));
    assert_eq!(add_months(&d(2025, 3, 31), 1), Some(d(2025, 4, 30)));
    assert_eq!(add_months(&d(2025, 12, 15), 1), Some(d(2026, 1, 15)));
}

#[test]
fn year_addition_demotes_leap_day() {
    assert_eq!(add_years(&d(2024, 2, 29), 1), Some(d(2025, 2, 28)));
    assert_eq!(add_years(&d(2024, 2, 29), 4), Some(d(2028, 2, 29)));
}

#[test]
fn yearly_advance_from_leap_day_reaches_demoted_date() {
    let rep = Repeater { amount: 1, unit: RepeaterUnit::Year };
    let got = advance_to_on_or_after(&d(2024, 2, 29), &rep, &d(2025, 2, 28));
    assert_eq!(got, Some(d(2025, 2, 28)));
}

#[test]
fn advance_returns_start_when_already_on_or_after_target() {
    let rep = Repeater { amount: 3, unit: RepeaterUnit::Week };
    let got = advance_to_on_or_after(&d(2025, 11, 10), &rep, &d(2025, 11, 1));
    assert_eq!(got, Some(d(2025, 11, 10)));
}

#[test]
fn single_steps_follow_each_unit() {
    assert_eq!(
        advance_once(&d(2025, 11, 1), &Repeater { amount: 2, unit: RepeaterUnit::Day }),
        Some(d(2025, 11, 3))
    );
    assert_eq!(
        advance_once(&d(2025, 11, 1), &Repeater { amount: 1, unit: RepeaterUnit::Week }),
        Some(d(2025, 11, 8))
    );
    assert_eq!(
        advance_once(&d(2025, 1, 31), &Repeater { amount: 1, unit: RepeaterUnit::Month }),
        Some(d(2025, 2, 28))
    );
    assert_eq!(
        advance_once(&d(2024, 2, 29), &Repeater { amount: 1, unit: RepeaterUnit::Year }),
        Some(d(2025, 2, 28))
    );
}

#[test]
fn deadline_warning_window_and_overdue_rules() {
    let item = deadline_item(d(2025, 11, 10), None);

    let upcoming = describe_deadline_for_day(&item, &d(2025, 11, 5), &d(2025, 11, 1), 14)
        .expect("occurrence in window");
    assert_eq!(upcoming.prefix.as_deref(), Some("Due in 5 d."));
    assert!(!upcoming.is_overdue);
    assert_eq!(upcoming.occurrence_date, d(2025, 11, 10));

    let overdue = describe_deadline_for_day(&item, &d(2025, 11, 12), &d(2025, 11, 12), 14)
        .expect("past-due surfaces on today");
    assert_eq!(overdue.prefix.as_deref(), Some("Due 2 d. ago"));
    assert!(overdue.is_overdue);

    let suppressed = describe_deadline_for_day(&item, &d(2025, 11, 12), &d(2025, 11, 1), 14);
    assert!(suppressed.is_none());
}

#[test]
fn deadline_prefix_wording_at_each_distance() {
    let item = deadline_item(d(2025, 11, 10), None);
    let today = d(2025, 11, 9);
    let due_day = describe_deadline_for_day(&item, &d(2025, 11, 10), &today, 14).unwrap();
    assert_eq!(due_day.prefix.as_deref(), Some("Due"));
    let due_tomorrow = describe_deadline_for_day(&item, &d(2025, 11, 9), &today, 14).unwrap();
    assert_eq!(due_tomorrow.prefix.as_deref(), Some("Due in 1 day"));
    let beyond = describe_deadline_for_day(&item, &d(2025, 10, 20), &today, 14);
    assert!(beyond.is_none(), "outside the warning window");
}

#[test]
fn repeating_deadline_catches_up_and_clamps_to_today() {
    let rep = Repeater { amount: 1, unit: RepeaterUnit::Week };
    let item = deadline_item(d(2025, 10, 6), Some(rep));

    let ahead = describe_item_for_day(&item, &d(2025, 11, 4), &d(2025, 11, 4), 14)
        .expect("repeat resolves");
    assert_eq!(ahead.occurrence_date, d(2025, 11, 10), "next weekly repeat");
    assert_eq!(ahead.prefix.as_deref(), Some("Due in 6 d."));

    let clamped = describe_item_for_day(&item, &d(2025, 10, 14), &d(2025, 10, 22), 14)
        .expect("clamped occurrence resolves");
    assert_eq!(
        clamped.occurrence_date,
        d(2025, 10, 22),
        "an elapsed repeat never lands before today"
    );
    assert_eq!(clamped.prefix.as_deref(), Some("Due in 8 d."));
}

#[test]
fn scheduled_rules_per_day() {
    let item = scheduled_item(d(2025, 11, 7), None);

    let on_day = describe_scheduled_for_day(&item, &d(2025, 11, 7), &d(2025, 11, 5), 14)
        .expect("shown on its day");
    assert_eq!(on_day.prefix, None);
    assert!(!on_day.is_overdue);

    let past = describe_scheduled_for_day(&item, &d(2025, 11, 10), &d(2025, 11, 10), 14)
        .expect("past scheduled shows on today");
    assert_eq!(past.prefix.as_deref(), Some("Scheduled 3 d. ago"));
    assert!(past.is_overdue);

    let hidden = describe_scheduled_for_day(&item, &d(2025, 11, 10), &d(2025, 11, 9), 14);
    assert!(hidden.is_none());

    let future_today = describe_scheduled_for_day(&item, &d(2025, 11, 5), &d(2025, 11, 5), 14)
        .expect("upcoming shows on today");
    assert_eq!(future_today.prefix.as_deref(), Some("Scheduled in 2 d."));
}

#[test]
fn scheduled_future_prefix_wording() {
    assert_eq!(format_scheduled_future(1), "Scheduled for tomorrow");
    assert_eq!(format_scheduled_future(3), "Scheduled in 3 d.");
}

#[test]
fn floating_items_never_occur() {
    let mut item = deadline_item(d(2025, 11, 10), None);
    item.kind = AgendaKind::Floating;
    let today = d(2025, 11, 10);
    assert!(describe_item_for_day(&item, &today, &today, 14).is_none());
}

fn habit_fixture() -> org_planner::habit::Habit {
    let raw = "* TODO Meditate\nSCHEDULED: <2025-10-20 Mon +1d>\n:PROPERTIES:\n:STYLE: habit\n:END:\n:LOGBOOK:\n- State \"DONE\" from \"TODO\" [2025-10-22 Wed]\n- State \"DONE\" from \"TODO\" [2025-10-21 Tue]\n:END:\n";
    extract_habits(raw).remove(0)
}

#[test]
fn daily_habit_history_ends_with_two_completions() {
    let habit = habit_fixture();
    assert_eq!(habit.last_repeat, Some(d(2025, 10, 22)));
    let (graph, streak) = habit_history_summary(&habit, 21, &d(2025, 10, 22))
        .expect("habit has a repeater");
    assert_eq!(graph.chars().count(), 21);
    let tail: Vec<char> = graph.chars().rev().take(2).collect();
    assert_eq!(tail, vec!['X', 'X']);
    assert_eq!(streak, 2);
}

#[test]
fn expectation_follows_each_frequency() {
    let habit = habit_fixture();
    assert!(habit_expected_on(&habit, &d(2025, 10, 20)), "anchor day");
    assert!(habit_expected_on(&habit, &d(2025, 10, 25)), "daily stride");
    assert!(!habit_expected_on(&habit, &d(2025, 10, 19)), "before anchor");

    let weekly_raw = "* W\nSCHEDULED: <2025-10-20 Mon +1w>\n:PROPERTIES:\n:STYLE: habit\n:END:\n";
    let weekly = extract_habits(weekly_raw).remove(0);
    assert!(habit_expected_on(&weekly, &d(2025, 10, 27)));
    assert!(!habit_expected_on(&weekly, &d(2025, 10, 26)));

    let monthly_raw = "* M\nSCHEDULED: <2025-01-15 Wed +2m>\n:PROPERTIES:\n:STYLE: habit\n:END:\n";
    let monthly = extract_habits(monthly_raw).remove(0);
    assert!(habit_expected_on(&monthly, &d(2025, 3, 15)));
    assert!(!habit_expected_on(&monthly, &d(2025, 2, 15)));
    assert!(!habit_expected_on(&monthly, &d(2025, 3, 16)));

    let yearly_raw = "* Y\nSCHEDULED: <2024-05-01 Wed +1y>\n:PROPERTIES:\n:STYLE: habit\n:END:\n";
    let yearly = extract_habits(yearly_raw).remove(0);
    assert!(habit_expected_on(&yearly, &d(2026, 5, 1)));
    assert!(!habit_expected_on(&yearly, &d(2026, 5, 2)));
}

#[test]
fn history_absent_without_repeater_or_log() {
    let raw = "* Bare\n:PROPERTIES:\n:STYLE: habit\n:END:\n";
    let habit = extract_habits(raw).remove(0);
    assert!(habit_history_summary(&habit, 21, &d(2025, 10, 22)).is_none());
    assert!(habit_history_summary(&habit_fixture(), 0, &d(2025, 10, 22)).is_none());
}

#[test]
fn bounded_search_gives_up_past_the_step_cap() {
    let rep = Repeater { amount: 1, unit: RepeaterUnit::Day };
    let start = d(2025, 1, 1);
    let far = d(2031, 1, 1);
    assert_eq!(advance_to_on_or_after(&start, &rep, &far), None);
    let near = d(2025, 3, 1);
    assert_eq!(advance_to_on_or_after(&start, &rep, &near), Some(near));
}
