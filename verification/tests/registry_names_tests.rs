//! The status registry, the rendered status page, and the unique-name set.

use controller::names::UniqueNameSet;
use controller::registry::{render_status_lines, ComputerStatus, GlobalComputerMap};

#[test]
fn set_status_keeps_entries_sorted_by_name() {
    let mut m = GlobalComputerMap::new();
    m.set_status("lobby-0", ComputerStatus::Online);
    m.set_status("brain", ComputerStatus::Online);
    m.set_status("m-1", ComputerStatus::Starting);
    m.set_status("m-0", ComputerStatus::Online);
    let snapshot = m.list_statuses();
    let names: Vec<&str> = snapshot.iter().map(|(n, _)| n.as_str()).collect();
    assert_eq!(names, vec!["brain", "lobby-0", "m-0", "m-1"]);
}

#[test]
fn set_status_overwrites_and_offline_removes() {
    let mut m = GlobalComputerMap::new();
    m.set_status("m-0", ComputerStatus::Starting);
    m.set_status("m-0", ComputerStatus::Online);
    let snapshot = m.list_statuses();
    assert_eq!(snapshot.len(), 1);
    assert_eq!(snapshot[0].1, ComputerStatus::Online);

    m.set_status("m-0", ComputerStatus::Offline);
    assert!(m.list_statuses().is_empty());
    // removing an absent entry is a no-op
    m.set_status("m-0", ComputerStatus::Offline);
    assert!(m.list_statuses().is_empty());
}

#[test]
fn status_page_reports_starting_and_online_only() {
    let mut m = GlobalComputerMap::new();
    m.set_status("proxy", ComputerStatus::Online);
    m.set_status("minigame-bedwars-0", ComputerStatus::Starting);
    m.set_status("gone", ComputerStatus::Online);
    m.set_status("gone", ComputerStatus::Offline);
    let snapshot = m.list_statuses();
    let page = render_status_lines(&snapshot);
    assert_eq!(page, "minigame-bedwars-0,starting\nproxy,online\n");
    assert!(!page.contains("offline"));
}

#[test]
fn status_page_of_empty_registry_is_empty() {
    let m = GlobalComputerMap::new();
    assert_eq!(render_status_lines(&m.list_statuses()), "");
}

#[test]
fn record_and_unrecord_report_membership() {
    let mut names = UniqueNameSet::new();
    assert!(names.record("m-0"));
    assert!(!names.record("m-0"));
    assert!(names.unrecord("m-0"));
    assert!(!names.unrecord("m-0"));
    assert!(names.record("m-0"));
}

#[test]
fn next_free_name_allocates_smallest_free_index() {
    let mut names = UniqueNameSet::new();
    assert_eq!(names.next_free_name("lobby"), "lobby-0");
    assert_eq!(names.next_free_name("lobby"), "lobby-1");
    names.record("lobby-3");
    assert_eq!(names.next_free_name("lobby"), "lobby-2");
    // 3 is taken, so the next one skips it
    assert_eq!(names.next_free_name("lobby"), "lobby-4");
    names.unrecord("lobby-1");
    assert_eq!(names.next_free_name("lobby"), "lobby-1");
}

#[test]
fn next_free_name_then_record_reports_already_recorded() {
    let mut names = UniqueNameSet::new();
    let fresh = names.next_free_name("minigame-bedwars");
    assert_eq!(fresh, "minigame-bedwars-0");
    assert!(!names.record(fresh.as_str()));
}
