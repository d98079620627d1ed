use winebridge::errors::BridgeError;
use winebridge::process::{
    classify_os_error, find, PriorityClass, Process, ProcessEntry, ProcessIdentifier,
};
use winebridge::snapshot::{
    collect_records, SnapshotCall, SnapshotCursor, SnapshotEvent, SnapshotStep,
};
use winebridge::spawn::build_command_line;

fn utf16(s: &str) -> Vec<u16> {
    s.encode_utf16().collect()
}

fn entry(pid: u32, name: &str) -> ProcessEntry {
    ProcessEntry {
        pid,
        parent_pid: 4,
        thread_count: 2,
        priority_code: 0x20,
        image: utf16(name),
    }
}

#[test]
fn priority_class_codes() {
    assert_eq!(PriorityClass::from(0x40), PriorityClass::Idle);
    assert_eq!(PriorityClass::from(0x4000), PriorityClass::BelowNormal);
    assert_eq!(PriorityClass::from(0x20), PriorityClass::Normal);
    assert_eq!(PriorityClass::from(0x8000), PriorityClass::AboveNormal);
    assert_eq!(PriorityClass::from(0x80), PriorityClass::High);
    assert_eq!(PriorityClass::from(0x100), PriorityClass::Realtime);
    assert_eq!(PriorityClass::try_from_code(7), None);
    assert_eq!(PriorityClass::try_from_code(-1), None);
}

#[test]
fn record_fields_survive() {
    let p = Process::from_entry(entry(17, "app.exe")).unwrap();
    assert_eq!(p.pid(), 17);
    assert_eq!(p.parent_pid(), 4);
    assert_eq!(p.thread_count(), 2);
    assert_eq!(p.priority_class(), PriorityClass::Normal);
    assert_eq!(p.name(), "app.exe");
}

#[test]
fn record_with_bad_priority_is_rejected() {
    let mut e = entry(1, "x.exe");
    e.priority_code = 3;
    assert!(Process::from_entry(e).is_none());
}

#[test]
fn name_truncates_at_first_terminator() {
    let mut units = utf16("wine.exe");
    units.push(0);
    units.extend(utf16("garbage"));
    let p = Process::from_entry(ProcessEntry {
        pid: 1,
        parent_pid: 0,
        thread_count: 1,
        priority_code: 0x20,
        image: units,
    })
    .unwrap();
    assert_eq!(p.name(), "wine.exe");
}

#[test]
fn name_decoding_replaces_lone_surrogates() {
    let p = Process::from_entry(ProcessEntry {
        pid: 1,
        parent_pid: 0,
        thread_count: 1,
        priority_code: 0x20,
        image: vec![0xd800],
    })
    .unwrap();
    assert_eq!(p.name(), "\u{fffd}");
}

#[test]
fn find_matches_name_case_insensitively_and_first_wins() {
    let list = vec![
        Process::from_entry(entry(1, "Explorer.EXE")).unwrap(),
        Process::from_entry(entry(2, "explorer.exe")).unwrap(),
        Process::from_entry(entry(3, "other.exe")).unwrap(),
    ];
    let by_name = find(&list, &ProcessIdentifier::Name(String::from("EXPLORER.exe")));
    assert_eq!(by_name, Some(0));
    let by_pid = find(&list, &ProcessIdentifier::PID(3));
    assert_eq!(by_pid, Some(2));
    assert_eq!(find(&list, &ProcessIdentifier::PID(9)), None);
    assert_eq!(
        find(&list, &ProcessIdentifier::Name(String::from("missing.exe"))),
        None
    );
}

#[test]
fn terminated_pid_is_no_longer_found() {
    let mut list = vec![
        Process::from_entry(entry(10, "a.exe")).unwrap(),
        Process::from_entry(entry(11, "b.exe")).unwrap(),
    ];
    assert_eq!(find(&list, &ProcessIdentifier::PID(10)), Some(0));
    list.remove(0);
    assert_eq!(find(&list, &ProcessIdentifier::PID(10)), None);
}

#[test]
fn os_error_classification() {
    assert_eq!(classify_os_error(5), BridgeError::PermissionDenied(5));
    assert_eq!(classify_os_error(87), BridgeError::NotFound);
    assert_eq!(classify_os_error(1), BridgeError::OsFailure(1));
}

#[test]
fn cursor_two_phase_protocol() {
    let mut cursor = SnapshotCursor::new();
    assert_eq!(cursor.request(), SnapshotCall::First);
    let step = cursor.advance(SnapshotEvent::Entry(entry(1, "a.exe")));
    match step {
        SnapshotStep::Record(p) => assert_eq!(p.pid(), 1),
        _ => panic!("expected a record"),
    }
    assert_eq!(cursor.request(), SnapshotCall::Next);
    match cursor.advance(SnapshotEvent::End) {
        SnapshotStep::Finished => {}
        _ => panic!("expected the end"),
    }
}

#[test]
fn cursor_surfaces_faults() {
    let mut cursor = SnapshotCursor::new();
    match cursor.advance(SnapshotEvent::Fault(5)) {
        SnapshotStep::Failed(e) => assert_eq!(e, BridgeError::PermissionDenied(5)),
        _ => panic!("expected a failure"),
    }
}

#[test]
fn collect_records_yields_one_record_per_row_in_order() {
    let events = vec![
        SnapshotEvent::Entry(entry(1, "a.exe")),
        SnapshotEvent::Entry(entry(2, "b.exe")),
        SnapshotEvent::End,
    ];
    let records = collect_records(&events).unwrap();
    assert_eq!(records.len(), 2);
    assert_eq!(records[0].pid(), 1);
    assert_eq!(records[0].name(), "a.exe");
    assert_eq!(records[1].pid(), 2);
    assert_eq!(records[1].name(), "b.exe");
}

#[test]
fn collect_records_of_empty_table_is_empty_not_an_error() {
    let records = collect_records(&vec![SnapshotEvent::End]).unwrap();
    assert!(records.is_empty());
}

#[test]
fn collect_records_surfaces_mid_enumeration_faults() {
    let events = vec![
        SnapshotEvent::Entry(entry(1, "a.exe")),
        SnapshotEvent::Fault(5),
    ];
    assert_eq!(
        collect_records(&events).unwrap_err(),
        BridgeError::PermissionDenied(5)
    );
}

#[test]
fn collect_records_rejects_out_of_range_priority() {
    let mut bad = entry(2, "b.exe");
    bad.priority_code = 9;
    let events = vec![SnapshotEvent::Entry(bad), SnapshotEvent::End];
    assert_eq!(collect_records(&events).unwrap_err(), BridgeError::OsFailure(9));
}

#[test]
fn command_line_joins_with_single_spaces() {
    let args = vec![String::from("--flag"), String::from("value")];
    assert_eq!(build_command_line("C:\\app.exe", &args), "C:\\app.exe --flag value");
    assert_eq!(build_command_line("app.exe", &Vec::new()), "app.exe");
    let one = vec![String::from("only")];
    assert_eq!(build_command_line("p", &one), "p only");
}
