use zone_reconcile::reconcile::{update_forward_zonefile, update_reverse_zonefile, update_zonefile};
use zone_reconcile::records::RecordType;
use zone_reconcile::serial::ZoneError;
use zone_reconcile::update_map::UpdateMap;

fn lines(v: &[&str]) -> Vec<String> {
    v.iter().map(|s| s.to_string()).collect()
}

#[test]
fn rewrites_changed_record_and_bumps_serial() {
    let body = lines(&["3600 ;Serial", "frodo\t\tIN\tA\t192.168.11.25"]);
    let mut updates = UpdateMap::new();
    updates.insert("frodo", "192.168.11.26");
    let (out, changed) = update_zonefile(&body, &updates, RecordType::A).unwrap();
    assert_eq!(out, lines(&["3601 ;Serial", "frodo\t\tIN\tA\t192.168.11.26"]));
    assert!(changed);
}

#[test]
fn empty_updates_leave_record_untouched() {
    let body = lines(&["camera IN PTR oldname.home.arpa."]);
    let updates = UpdateMap::new();
    let (out, changed) = update_zonefile(&body, &updates, RecordType::Ptr).unwrap();
    assert_eq!(out, body);
    assert!(!changed);
}

#[test]
fn appends_record_for_new_name() {
    let body = lines(&["3600 ;Serial", "frodo\t\tIN\tA\t192.168.11.25"]);
    let mut updates = UpdateMap::new();
    updates.insert("newhost", "192.168.11.30");
    let (out, changed) = update_zonefile(&body, &updates, RecordType::A).unwrap();
    assert_eq!(
        out,
        lines(&[
            "3601 ;Serial",
            "frodo\t\tIN\tA\t192.168.11.25",
            "newhost\t\tIN\tA\t192.168.11.30",
        ])
    );
    assert!(changed);
}

#[test]
fn appends_follow_insertion_order() {
    let body = lines(&["10 ;Serial"]);
    let mut updates = UpdateMap::new();
    updates.insert("bravo", "192.168.11.2");
    updates.insert("alpha", "192.168.11.1");
    let (out, changed) = update_zonefile(&body, &updates, RecordType::A).unwrap();
    assert_eq!(
        out,
        lines(&[
            "11 ;Serial",
            "bravo\t\tIN\tA\t192.168.11.2",
            "alpha\t\tIN\tA\t192.168.11.1",
        ])
    );
    assert!(changed);
}

#[test]
fn only_first_duplicate_survives() {
    let body = lines(&[
        "pi\t\tIN\tA\t192.168.11.7",
        "pi\t\tIN\tA\t192.168.11.8",
        "pi\t\tIN\tA\t192.168.11.9",
    ]);
    let updates = UpdateMap::new();
    let (out, changed) = update_zonefile(&body, &updates, RecordType::A).unwrap();
    assert_eq!(out, lines(&["pi\t\tIN\tA\t192.168.11.7"]));
    assert!(!changed);
}

#[test]
fn drops_stale_record_pointing_at_reassigned_value() {
    let body = lines(&[
        "old\t\tIN\tA\t192.168.11.40",
        "keep\t\tIN\tA\t192.168.11.41",
    ]);
    let mut updates = UpdateMap::new();
    updates.insert("new", "192.168.11.40");
    let (out, changed) = update_zonefile(&body, &updates, RecordType::A).unwrap();
    assert_eq!(
        out,
        lines(&["keep\t\tIN\tA\t192.168.11.41", "new\t\tIN\tA\t192.168.11.40"])
    );
    assert!(changed);
}

#[test]
fn matching_value_is_idempotent_for_records() {
    let body = lines(&["3600 ;Serial", "frodo\t\tIN\tA\t192.168.11.26"]);
    let mut updates = UpdateMap::new();
    updates.insert("frodo", "192.168.11.26");
    let (out, changed) = update_zonefile(&body, &updates, RecordType::A).unwrap();
    assert_eq!(out, lines(&["3601 ;Serial", "frodo\t\tIN\tA\t192.168.11.26"]));
    assert!(!changed);
}

#[test]
fn second_pass_reports_no_change() {
    let body = lines(&[
        "3600 ;Serial",
        "frodo\t\tIN\tA\t192.168.11.25",
        "stale\t\tIN\tA\t192.168.11.30",
    ]);
    let mut updates = UpdateMap::new();
    updates.insert("frodo", "192.168.11.26");
    updates.insert("newhost", "192.168.11.30");
    let (first, changed_first) = update_zonefile(&body, &updates, RecordType::A).unwrap();
    assert!(changed_first);
    let (second, changed_second) = update_zonefile(&first, &updates, RecordType::A).unwrap();
    assert!(!changed_second);
    // only the serial transform fires again
    assert_eq!(second[0], "3602 ;Serial");
    assert_eq!(&second[1..], &first[1..]);
}

#[test]
fn unreadable_serial_is_corrupt() {
    let body = lines(&["not a number ;Serial"]);
    let updates = UpdateMap::new();
    let err = update_zonefile(&body, &updates, RecordType::A).unwrap_err();
    assert_eq!(err, ZoneError::CorruptZoneFile);
}

#[test]
fn padded_serial_line_is_never_a_record_line() {
    // trimmed, this line ends with the marker: the serial pass claims it
    // (and fails on the unreadable number) before the record matcher can
    // touch it, even though it splits into four tokens
    let body = lines(&["pi IN A 2;Serial "]);
    let mut updates = UpdateMap::new();
    updates.insert("pi", "192.168.11.9");
    let err = update_zonefile(&body, &updates, RecordType::A).unwrap_err();
    assert_eq!(err, ZoneError::CorruptZoneFile);
}

#[test]
fn padded_serial_line_increments_in_place() {
    let body = lines(&["3600 ;Serial ", "frodo\t\tIN\tA\t192.168.11.25"]);
    let updates = UpdateMap::new();
    let (out, changed) = update_zonefile(&body, &updates, RecordType::A).unwrap();
    assert_eq!(out, lines(&["3601 ;Serial", "frodo\t\tIN\tA\t192.168.11.25"]));
    assert!(!changed);
}

#[test]
fn opaque_lines_pass_through_verbatim() {
    let body = lines(&[
        "$ORIGIN home.arpa.",
        "; a comment",
        "",
        "ns\t\tIN\tNS\tns.home.arpa.",
    ]);
    let updates = UpdateMap::new();
    let (out, changed) = update_zonefile(&body, &updates, RecordType::A).unwrap();
    assert_eq!(out, body);
    assert!(!changed);
}

#[test]
fn forward_zonefile_publishes_only_on_change() {
    let body = lines(&["3600 ;Serial", "frodo\t\tIN\tA\t192.168.11.25"]);
    let mut updates = UpdateMap::new();
    updates.insert("frodo", "192.168.11.26");
    let published = update_forward_zonefile(&body, &updates).unwrap();
    assert_eq!(
        published,
        Some(lines(&["3601 ;Serial", "frodo\t\tIN\tA\t192.168.11.26"]))
    );
    let unchanged = update_forward_zonefile(&body, &UpdateMap::new()).unwrap();
    assert_eq!(unchanged, None);
}

#[test]
fn reverse_zonefile_uses_ptr_records() {
    let body = lines(&["7 ;Serial"]);
    let mut updates = UpdateMap::new();
    updates.insert("25", "frodo.home.arpa.");
    let published = update_reverse_zonefile(&body, &updates).unwrap();
    assert_eq!(
        published,
        Some(lines(&["8 ;Serial", "25\t\tIN\tPTR\tfrodo.home.arpa."]))
    );
}

#[test]
fn reverse_zonefile_reports_corruption() {
    let body = lines(&["oops ;Serial"]);
    let err = update_reverse_zonefile(&body, &UpdateMap::new()).unwrap_err();
    assert_eq!(err, ZoneError::CorruptZoneFile);
}
