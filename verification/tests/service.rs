use org_planner::agenda::parse_timed_items;
use org_planner::bridge::{extract_roam_roots, SyncState};
use org_planner::config::{is_org_file, AppConfig};
use org_planner::date::Date;
use org_planner::edit::{
    complete_headline_text, ensure_trailing_newline, set_headline_status_text, EditError,
};
use org_planner::habit::extract_habits;
use org_planner::roam::build_roam_graph;
use org_planner::sync::{OrgSyncService, StorageBackend, SyncJob, SyncJobKind, SyncRoot};
use org_planner::view::{build_day_entries, format_day_heading, format_relative_label};

fn d(year: u32, month: u32, day: u32) -> Date {
    Date { year, month, day }
}

fn local_root(id: &str) -> SyncRoot {
    SyncRoot {
        id: id.to_string(),
        backend: StorageBackend::Local { path: "./".to_string() },
        display_name: "Local".to_string(),
        org_roam: false,
    }
}

#[test]
fn register_root_queues_initial_scan() {
    let mut service = OrgSyncService::new();
    service.register_root(local_root("local"));

    assert!(matches!(
        service.dequeue_job(),
        Some(SyncJob {
            job_kind: SyncJobKind::InitialScan,
            ..
        })
    ));
}

#[test]
fn duplicate_root_registers_once_and_queue_is_fifo() {
    let mut service = OrgSyncService::new();
    service.register_root(local_root("a"));
    service.register_root(local_root("a"));
    service.register_root(local_root("b"));
    service.schedule_drive_delta("a");
    service.schedule_local_watch("b");
    assert_eq!(service.list_roots().len(), 2);
    let kinds: Vec<SyncJobKind> = std::iter::from_fn(|| service.dequeue_job())
        .map(|j| j.job_kind)
        .collect();
    assert_eq!(
        kinds,
        vec![
            SyncJobKind::InitialScan,
            SyncJobKind::InitialScan,
            SyncJobKind::DriveDelta,
            SyncJobKind::LocalWatcher,
        ]
    );
    assert!(service.dequeue_job().is_none());
}

#[test]
fn find_root_index_locates_registered_roots() {
    let mut service = OrgSyncService::new();
    service.register_root(local_root("alpha"));
    service.register_root(local_root("beta"));
    assert_eq!(service.find_root_index("beta"), Some(1));
    assert_eq!(service.find_root_index("gamma"), None);
}

#[test]
fn sync_state_registers_roots_and_drains_jobs() {
    let mut state = SyncState::new();
    let docs = vec!["/org".to_string(), "/org".to_string()];
    let roams = vec!["/roam".to_string()];
    let jobs = state.ensure_roots_registered(&docs, &roams);
    assert_eq!(jobs.len(), 2);
    assert!(jobs.iter().all(|j| j.job_kind == SyncJobKind::InitialScan));
    assert_eq!(jobs[0].root_id, "/org");
    assert_eq!(jobs[1].root_id, "roam:/roam");
    let again = state.ensure_roots_registered(&docs, &roams);
    assert!(again.is_empty(), "roots register once");
}

#[test]
fn roam_roots_default_to_empty() {
    assert!(extract_roam_roots(&None).is_empty());
    let some = extract_roam_roots(&Some(vec!["x".to_string()]));
    assert_eq!(some, vec!["x".to_string()]);
}

#[test]
fn app_config_defaults_and_dedup() {
    let mut config = AppConfig::default();
    assert_eq!(config.agenda_span_days, 10);
    assert_eq!(config.agenda_start_offset_days, 0);
    assert_eq!(config.deadline_warning_days, 14);
    config.push_root("/org".to_string());
    config.push_root("/org".to_string());
    assert_eq!(config.roots.len(), 1);
    config.bootstrap_mobile_defaults(Some("/data".to_string()));
    assert_eq!(config.roots, vec!["/org".to_string(), "/data/org".to_string()]);
}

#[test]
fn org_extension_is_case_insensitive() {
    assert!(is_org_file("notes/plan.org"));
    assert!(is_org_file("notes/plan.ORG"));
    assert!(!is_org_file("notes/plan.txt"));
    assert!(!is_org_file("notes/org"));
    assert!(!is_org_file("notes/.org"));
}

#[test]
fn completing_a_heading_rewrites_the_keyword() {
    let text = "* TODO Call Mom\nSCHEDULED: <2025-11-07 Fri 09:00>";
    let done = complete_headline_text(text, 0, &Some("TODO".to_string())).unwrap();
    assert_eq!(done, "*DONE Call Mom\nSCHEDULED: <2025-11-07 Fri 09:00>");

    let custom = complete_headline_text("* NEXT File Taxes", 0, &Some("NEXT".to_string())).unwrap();
    assert_eq!(custom, "*DONE File Taxes");

    let bare = complete_headline_text("* Read a book", 0, &None).unwrap();
    assert_eq!(bare, "*DONE Read a book");

    let already = complete_headline_text("* DONE Read a book", 0, &Some("DONE".to_string()))
        .unwrap();
    assert_eq!(already, "*DONE Read a book");
}

#[test]
fn completing_a_missing_heading_reports_failure() {
    let got = complete_headline_text("* TODO Only", 3, &None);
    assert_eq!(got, Err(EditError::HeadlineNotFound));
}

#[test]
fn setting_status_replaces_the_first_word() {
    let text = "** TODO Water plants\nbody";
    let got = set_headline_status_text(text, 0, "WAIT").unwrap();
    assert_eq!(got, "**WAIT Water plants\nbody");

    let same = set_headline_status_text("* WAIT Water", 0, "wait").unwrap();
    assert_eq!(same, "*WAIT Water");
}

#[test]
fn capture_payload_gains_a_final_newline() {
    assert_eq!(ensure_trailing_newline("* TODO x"), "* TODO x\n");
    assert_eq!(ensure_trailing_newline("* TODO x\n"), "* TODO x\n");
}

#[test]
fn roam_graph_links_notes_and_answers_backlinks() {
    let docs = vec![
        (
            "roam/20250101090000-daily.org".to_string(),
            "* Daily Note\n[[20250102090000-review]]".to_string(),
        ),
        (
            "roam/20250102090000-review.org".to_string(),
            "* Review\n[[20250101090000-daily]]\n[[20250101090000-daily]]\n[[missing]]\n[[20250102090000-review]]".to_string(),
        ),
        ("roam/skip.txt".to_string(), "[[nowhere]]".to_string()),
    ];
    let graph = build_roam_graph(&docs);
    let nodes = graph.node_data();
    assert_eq!(nodes.len(), 2);
    assert!(nodes.iter().any(|n| n.id == "20250101090000-daily"));
    assert!(nodes.iter().any(|n| n.id == "20250102090000-review"));

    let links = graph.link_data();
    assert_eq!(links.len(), 2, "self links, repeats and unknown targets drop");

    let back = graph.backlinks_for("20250101090000-daily");
    assert_eq!(back.len(), 1);
    assert_eq!(back[0].id, "20250102090000-review");
    assert!(graph.backlinks_for("missing").is_empty());
}

#[test]
fn day_view_collects_sorts_and_labels_rows() {
    let items = parse_timed_items(
        "agenda.org",
        "* TODO Call Mom\nSCHEDULED: <2025-11-07 Fri 09:00>\n* TODO Dentist\nSCHEDULED: <2025-11-07 Fri 08:00>\n",
    );
    let habits = extract_habits(
        "* NEXT Morning routine\nSCHEDULED: <2025-11-01 Sat +1d>\n:PROPERTIES:\n:STYLE: habit\n:END:\n",
    );
    let day = d(2025, 11, 7);
    let entries = build_day_entries(&items, &habits, &day, &day, 14);
    assert_eq!(entries.len(), 3);
    assert_eq!(entries[0].summary, "Habit · NEXT Morning routine");
    assert_eq!(entries[1].summary, "08:00 TODO Dentist");
    assert_eq!(entries[2].summary, "09:00 TODO Call Mom");
    assert!(entries[1].can_mark_done);
    assert!(!entries[0].can_mark_done);
    assert!(entries[1].metadata.iter().any(|m| m == "Scheduled"));
    assert!(entries[1].metadata.iter().any(|m| m == "[agenda]"));
}

#[test]
fn headings_spell_out_the_calendar_day() {
    let today = d(2025, 10, 24);
    assert_eq!(format_relative_label(&today, &today), "Today");
    assert_eq!(format_relative_label(&d(2025, 10, 25), &today), "Tomorrow");
    assert_eq!(format_relative_label(&d(2025, 10, 23), &today), "Yesterday");
    assert_eq!(format_relative_label(&d(2025, 10, 20), &today), "4 days ago");
    assert_eq!(format_relative_label(&d(2025, 10, 30), &today), "In 6 days");
    assert_eq!(
        format_day_heading(&today, &today),
        "Today — Friday, October 24, 2025"
    );
}
