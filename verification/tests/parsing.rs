use org_planner::agenda::{build_agenda, parse_timed_items, parse_headline, AgendaKind, TimeOfDay};
use org_planner::date::Date;
use org_planner::habit::extract_habits;
use org_planner::repeater::{parse_repeater, parse_frequency, HabitFrequency, Repeater, RepeaterUnit};
use org_planner::roam::{compute_node_id, parse_roam_link, extract_links, is_roam_file};
use org_planner::slate::{document_to_slate, parse_list_item, SlateNode};

fn docs(path: &str, raw: &str) -> Vec<(String, String)> {
    vec![(path.to_string(), raw.to_string())]
}

#[test]
fn parses_repeater_information() {
    let raw = "\n* TODO Daily Stretch\nSCHEDULED: <2025-10-24 Fri 06:30 ++1d>\n";
    let items = build_agenda(&docs("repeat_test.org", raw));
    assert_eq!(items.len(), 1);
    let item = &items[0];
    assert_eq!(item.kind, AgendaKind::Scheduled);
    assert_eq!(item.date, Some(Date { year: 2025, month: 10, day: 24 }));
    let repeater = item.repeater.expect("repeater parsed");
    assert_eq!(repeater.amount, 1);
    assert_eq!(repeater.unit, RepeaterUnit::Day);
}

#[test]
fn builds_agenda_with_scheduled_deadline_and_floating_items() {
    let raw = "\n* TODO Morning Run\nSCHEDULED: <2025-10-24 Fri 06:30>\n\n* NEXT File Taxes\nDEADLINE: <2025-10-25 Sat>\n\n* Read a book\n";
    let items = build_agenda(&docs("agenda_test.org", raw));
    assert_eq!(items.len(), 3);

    let scheduled = items
        .iter()
        .find(|item| item.title == "Morning Run")
        .expect("scheduled item present");
    assert_eq!(scheduled.kind, AgendaKind::Scheduled);
    assert_eq!(scheduled.todo_keyword.as_deref(), Some("TODO"));
    assert_eq!(scheduled.date, Some(Date { year: 2025, month: 10, day: 24 }));
    assert_eq!(scheduled.time, Some(TimeOfDay { hour: 6, minute: 30 }));
    assert_eq!(scheduled.timestamp_raw.as_deref(), Some("2025-10-24 Fri 06:30"));

    let deadline = items
        .iter()
        .find(|item| item.title == "File Taxes")
        .expect("deadline item present");
    assert_eq!(deadline.kind, AgendaKind::Deadline);
    assert_eq!(deadline.todo_keyword.as_deref(), Some("NEXT"));
    assert_eq!(deadline.date, Some(Date { year: 2025, month: 10, day: 25 }));
    assert_eq!(deadline.time, None);

    let floating = items
        .iter()
        .find(|item| item.title == "Read a book")
        .expect("floating item present");
    assert_eq!(floating.kind, AgendaKind::Floating);
    assert!(floating.date.is_none());
    assert!(floating.todo_keyword.is_none());
}

#[test]
fn ignores_drawer_content_in_context() {
    let raw = "\n* TODO Weekly Review\n:PROPERTIES:\n:CUSTOM_ID: review\n:END:\nSCHEDULED: <2025-10-24 Fri>\nNotes line that should appear.\n:LOGBOOK:\n- State \"DONE\"       from \"TODO\"       [2025-10-23 Thu]\n:END:\n";
    let items = build_agenda(&docs("drawer_test.org", raw));
    assert_eq!(items.len(), 1);
    let item = &items[0];
    assert!(item.context.contains("Notes line"));
    assert!(
        !item.context.contains("CUSTOM_ID"),
        "drawer content should be omitted"
    );
    assert!(
        !item.context.contains("State \"DONE\""),
        "logbook entries should be omitted"
    );
}

#[test]
fn extracts_habit_with_repeater_and_logbook() {
    let raw = "\n* TODO Meditate\nSCHEDULED: <2025-10-20 Mon +1d>\n:PROPERTIES:\n:STYLE: habit\n:LAST_REPEAT: [2025-10-22 Wed]\n:END:\n:LOGBOOK:\n- State \"DONE\"       from \"TODO\"       [2025-10-22 Wed]\n- State \"DONE\"       from \"TODO\"       [2025-10-21 Tue]\n:END:\nTake a short mindful break.\n";
    let habits = extract_habits(raw);
    assert_eq!(habits.len(), 1);
    let habit = &habits[0];
    assert_eq!(habit.title, "TODO Meditate");
    assert_eq!(habit.scheduled, Some(Date { year: 2025, month: 10, day: 20 }));
    assert_eq!(habit.log_entries.len(), 2);
    assert_eq!(habit.last_repeat, Some(Date { year: 2025, month: 10, day: 22 }));
    assert!(habit
        .repeater
        .as_ref()
        .and_then(|rep| rep.frequency)
        .is_some());
    assert_eq!(habit.repeater.as_ref().unwrap().raw, "+1d");
    assert!(habit.description.contains("mindful"));
}

#[test]
fn compute_node_id_from_path() {
    assert_eq!(compute_node_id("/tmp/2025-01-01-daily.org"), "2025-01-01-daily");
}

#[test]
fn parse_link_extracts_target() {
    assert_eq!(parse_roam_link("[[target]]"), Some("target".into()));
    assert_eq!(parse_roam_link("No link"), None);
}

#[test]
fn extract_links_scans_document_lines() {
    let links = extract_links("source", "[[alpha]]\n[[beta]]");
    assert_eq!(links.len(), 2);
    assert_eq!(links[0], ("source".to_string(), "alpha".to_string()));
    assert_eq!(links[1], ("source".to_string(), "beta".to_string()));
}

#[test]
fn one_heading_with_both_lines_yields_two_items() {
    let raw = "* TODO Pay rent\nSCHEDULED: <2025-11-03 Mon>\nDEADLINE: <2025-11-10 Mon>\n";
    let items = parse_timed_items("both.org", raw);
    assert_eq!(items.len(), 2);
    assert_eq!(items[0].title, items[1].title);
    assert_eq!(items[0].todo_keyword, items[1].todo_keyword);
    assert_eq!(items[0].title, "Pay rent");
    let kinds: Vec<AgendaKind> = items.iter().map(|i| i.kind).collect();
    assert!(kinds.contains(&AgendaKind::Scheduled));
    assert!(kinds.contains(&AgendaKind::Deadline));
}

#[test]
fn scheduled_heading_parses_date_time_and_keyword() {
    let raw = "* TODO Call Mom\nSCHEDULED: <2025-11-07 Fri 09:00>\n";
    let items = parse_timed_items("call.org", raw);
    assert_eq!(items.len(), 1);
    let item = &items[0];
    assert_eq!(item.kind, AgendaKind::Scheduled);
    assert_eq!(item.date, Some(Date { year: 2025, month: 11, day: 7 }));
    assert_eq!(item.time, Some(TimeOfDay { hour: 9, minute: 0 }));
    assert_eq!(item.todo_keyword.as_deref(), Some("TODO"));
}

#[test]
fn headline_keyword_must_be_all_uppercase() {
    let (kw, title) = parse_headline("** TODO Water plants");
    assert_eq!(kw.as_deref(), Some("TODO"));
    assert_eq!(title, "Water plants");

    let (kw2, title2) = parse_headline("* Todo not a keyword");
    assert_eq!(kw2, None);
    assert_eq!(title2, "Todo not a keyword");

    let (kw3, title3) = parse_headline("*");
    assert_eq!(kw3, None);
    assert_eq!(title3, "");
}

#[test]
fn repeater_grammar_accepts_and_rejects_tokens() {
    assert_eq!(
        parse_repeater("++2w"),
        Some(Repeater { amount: 2, unit: RepeaterUnit::Week })
    );
    assert_eq!(
        parse_repeater(".+1d"),
        Some(Repeater { amount: 1, unit: RepeaterUnit::Day })
    );
    assert_eq!(
        parse_repeater("+0m"),
        Some(Repeater { amount: 1, unit: RepeaterUnit::Month })
    );
    assert_eq!(
        parse_repeater("+3Y"),
        Some(Repeater { amount: 3, unit: RepeaterUnit::Year })
    );
    assert_eq!(parse_repeater("abc"), None);
    assert_eq!(parse_repeater("+d"), None);
    assert_eq!(parse_repeater("1d"), None);
    assert_eq!(parse_repeater(""), None);
}

#[test]
fn frequency_classification_follows_token_shape() {
    assert_eq!(parse_frequency("+1d"), Some(HabitFrequency::Daily(1)));
    assert_eq!(parse_frequency(".+1d"), Some(HabitFrequency::Daily(1)));
    assert_eq!(parse_frequency("++2w"), Some(HabitFrequency::Weekly(2)));
    assert_eq!(parse_frequency("+0y"), Some(HabitFrequency::Yearly(1)));
    assert_eq!(parse_frequency(".++1d"), None);
    assert_eq!(parse_frequency("+1x"), None);
    assert_eq!(parse_frequency(""), None);
}

#[test]
fn habit_requires_style_property() {
    let raw = "* TODO Jog\nSCHEDULED: <2025-10-20 Mon +1d>\n:LOGBOOK:\n- State \"DONE\" from \"TODO\" [2025-10-21 Tue]\n:END:\n";
    let habits = extract_habits(raw);
    assert_eq!(habits.len(), 0);
}

#[test]
fn malformed_timestamp_leaves_date_absent() {
    let raw = "* TODO Guess\nSCHEDULED: <not-a-date>\n";
    let items = parse_timed_items("bad.org", raw);
    assert_eq!(items.len(), 1);
    assert_eq!(items[0].kind, AgendaKind::Scheduled);
    assert_eq!(items[0].date, None);
    assert_eq!(items[0].timestamp_raw.as_deref(), Some("not-a-date"));
}

#[test]
fn any_colon_wrapped_drawer_is_excluded_from_context() {
    let raw = "* Notes\n:MYDRAWER:\nhidden text\n:END:\nvisible text\n";
    let items = parse_timed_items("drawers.org", raw);
    assert_eq!(items.len(), 1);
    assert!(!items[0].context.contains("hidden"));
    assert!(items[0].context.contains("visible"));
}

#[test]
fn slate_outline_splits_headings_paragraphs_and_lists() {
    let raw = "* Plans\nFirst line.\nSecond line.\n\n- one\n2. two\n";
    let nodes = document_to_slate(raw);
    assert_eq!(nodes.len(), 4);
    assert_eq!(
        nodes[0],
        SlateNode::Heading { depth: 1, text: "Plans".to_string() }
    );
    assert_eq!(
        nodes[1],
        SlateNode::Paragraph { text: "First line. Second line.".to_string() }
    );
    assert_eq!(
        nodes[2],
        SlateNode::ListItem { depth: 1, ordered: false, text: "one".to_string() }
    );
    assert_eq!(
        nodes[3],
        SlateNode::ListItem { depth: 1, ordered: true, text: "two".to_string() }
    );
}

#[test]
fn list_items_detect_bullets_and_numbers() {
    assert_eq!(
        parse_list_item("  - water"),
        Some(SlateNode::ListItem { depth: 2, ordered: false, text: "water".to_string() })
    );
    assert_eq!(
        parse_list_item("3) fire"),
        Some(SlateNode::ListItem { depth: 1, ordered: true, text: "fire".to_string() })
    );
    assert_eq!(parse_list_item("plain words"), None);
}

#[test]
fn ranged_time_keeps_only_the_start() {
    let raw = "* TODO Standup\nSCHEDULED: <2025-11-07 Fri 10:00-11:30>\n";
    let items = parse_timed_items("range.org", raw);
    assert_eq!(items[0].time, Some(TimeOfDay { hour: 10, minute: 0 }));
    assert_eq!(items[0].timestamp_raw.as_deref(), Some("2025-11-07 Fri 10:00-11:30"));
}

#[test]
fn repeater_amount_overflow_is_rejected() {
    assert_eq!(parse_repeater("+99999999999d"), None);
    assert_eq!(parse_frequency("+99999999999d"), None);
}

#[test]
fn explicit_last_repeat_property_wins_over_log_dates() {
    let raw = "* Hydrate\nSCHEDULED: <2025-10-20 Mon +1d>\n:PROPERTIES:\n:STYLE: habit\n:LAST_REPEAT: [2025-10-25 Sat]\n:END:\n:LOGBOOK:\n- State \"DONE\" from \"TODO\" [2025-10-22 Wed]\n:END:\n";
    let habit = &extract_habits(raw)[0];
    assert_eq!(habit.last_repeat, Some(Date { year: 2025, month: 10, day: 25 }));
}

#[test]
fn agenda_orders_by_date_then_time() {
    let raw = "* Beta late\nSCHEDULED: <2025-11-08 Sat 10:00>\n* Alpha early\nSCHEDULED: <2025-11-07 Fri 09:00>\n* Alpha later same day\nSCHEDULED: <2025-11-07 Fri 10:00>\n";
    let items = parse_timed_items("order.org", raw);
    let titles: Vec<&str> = items.iter().map(|i| i.title.as_str()).collect();
    assert_eq!(titles, vec!["Alpha early", "Alpha later same day", "Beta late"]);
}

#[test]
fn roam_files_are_recognised_by_name() {
    assert!(is_roam_file("/notes/20250101-x.org"));
    assert!(!is_roam_file("/notes/readme.txt"));
    assert!(!is_roam_file("/notes/org"));
}
