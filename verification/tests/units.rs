use zone_reconcile::digits::{format_u64, parse_u64};
use zone_reconcile::hostname::clean_hostname;
use zone_reconcile::leases::add_lease;
use zone_reconcile::records::{render_record_line, update_record};
use zone_reconcile::serial::{update_serial, ZoneError};
use zone_reconcile::text::{split_ws, str_eq, trim};
use zone_reconcile::update_map::UpdateMap;

#[test]
fn serial_line_increments_by_one() {
    let (line, was_serial) = update_serial("3600 ;Serial").unwrap();
    assert_eq!(line, "3601 ;Serial");
    assert!(was_serial);
}

#[test]
fn serial_line_with_padding_still_parses() {
    let (line, was_serial) = update_serial("  42   ;Serial").unwrap();
    assert_eq!(line, "43 ;Serial");
    assert!(was_serial);
}

#[test]
fn serial_line_with_trailing_whitespace_still_increments() {
    let (line, was_serial) = update_serial("1 ;Serial  ").unwrap();
    assert_eq!(line, "2 ;Serial");
    assert!(was_serial);
}

#[test]
fn corrupt_serial_with_trailing_whitespace_is_detected() {
    assert_eq!(update_serial("x ;Serial ").unwrap_err(), ZoneError::CorruptZoneFile);
}

#[test]
fn non_serial_line_passes_through() {
    let (line, was_serial) = update_serial("frodo\t\tIN\tA\t192.168.11.25").unwrap();
    assert_eq!(line, "frodo\t\tIN\tA\t192.168.11.25");
    assert!(!was_serial);
}

#[test]
fn unparsable_serial_is_corrupt() {
    assert_eq!(update_serial("x1 ;Serial").unwrap_err(), ZoneError::CorruptZoneFile);
    assert_eq!(update_serial(" ;Serial").unwrap_err(), ZoneError::CorruptZoneFile);
}

#[test]
fn serial_at_limit_is_corrupt() {
    let line = format!("{} ;Serial", u64::MAX);
    assert_eq!(update_serial(&line).unwrap_err(), ZoneError::CorruptZoneFile);
}

#[test]
fn decimal_round_trip() {
    assert_eq!(format_u64(0), "0");
    assert_eq!(format_u64(3601), "3601");
    assert_eq!(format_u64(u64::MAX), "18446744073709551615");
    assert_eq!(parse_u64("0"), Some(0));
    assert_eq!(parse_u64("3600"), Some(3600));
    assert_eq!(parse_u64("18446744073709551615"), Some(u64::MAX));
    assert_eq!(parse_u64("18446744073709551616"), None);
    assert_eq!(parse_u64(""), None);
    assert_eq!(parse_u64("12a"), None);
}

#[test]
fn splitting_and_trimming() {
    assert_eq!(split_ws("frodo\t\tIN\tA\t192.168.11.25"), vec![
        "frodo".to_string(),
        "IN".to_string(),
        "A".to_string(),
        "192.168.11.25".to_string(),
    ]);
    assert_eq!(split_ws("   "), Vec::<String>::new());
    assert_eq!(trim("  3600  "), "3600");
    assert_eq!(trim(""), "");
    assert!(str_eq("abc", "abc"));
    assert!(!str_eq("abc", "abd"));
}

#[test]
fn record_rendering_is_tab_separated() {
    assert_eq!(
        render_record_line("newhost", "A", "192.168.11.30"),
        "newhost\t\tIN\tA\t192.168.11.30"
    );
}

#[test]
fn matcher_passes_through_foreign_lines() {
    let updates = UpdateMap::new();
    let values = updates.values();
    let mut done: Vec<String> = Vec::new();
    let (line, changed) = update_record("; comment", &updates, &values, &mut done);
    assert_eq!(line.as_deref(), Some("; comment"));
    assert!(!changed);
    let (line, changed) = update_record("host IN CNAME other", &updates, &values, &mut done);
    assert_eq!(line.as_deref(), Some("host IN CNAME other"));
    assert!(!changed);
    assert!(done.is_empty());
}

#[test]
fn matcher_rewrites_on_pending_update() {
    let mut updates = UpdateMap::new();
    updates.insert("frodo", "192.168.11.26");
    let values = updates.values();
    let mut done: Vec<String> = Vec::new();
    let (line, changed) = update_record("frodo\t\tIN\tA\t192.168.11.25", &updates, &values, &mut done);
    assert_eq!(line.as_deref(), Some("frodo\t\tIN\tA\t192.168.11.26"));
    assert!(changed);
    assert_eq!(done, vec!["frodo".to_string()]);
}

#[test]
fn matcher_drops_names_already_done() {
    let updates = UpdateMap::new();
    let values = updates.values();
    let mut done: Vec<String> = vec!["frodo".to_string()];
    let (line, changed) = update_record("frodo\t\tIN\tA\t192.168.11.25", &updates, &values, &mut done);
    assert_eq!(line, None);
    assert!(!changed);
    assert_eq!(done, vec!["frodo".to_string()]);
}

#[test]
fn matcher_drops_reassigned_values() {
    let mut updates = UpdateMap::new();
    updates.insert("new", "192.168.11.40");
    let values = updates.values();
    let mut done: Vec<String> = Vec::new();
    let (line, changed) = update_record("old\t\tIN\tA\t192.168.11.40", &updates, &values, &mut done);
    assert_eq!(line, None);
    assert!(!changed);
}

#[test]
fn hostname_is_cut_at_first_dot() {
    assert_eq!(clean_hostname("frodo.home.arpa", "aa:bb"), "frodo");
    assert_eq!(clean_hostname("frodo", "aa:bb"), "frodo");
}

#[test]
fn empty_hostname_falls_back_to_hardware_address() {
    assert_eq!(clean_hostname("", "aa:bb:cc:dd:ee:ff"), "aa_bb_cc_dd_ee_ff");
}

#[test]
fn empty_hostname_uses_friendly_name_when_mapped() {
    assert_eq!(clean_hostname("", "24:46:c8:8b:bb:f1"), "motoG7");
}

#[test]
fn lease_fills_both_maps() {
    let mut forwards = UpdateMap::new();
    let mut reverses = UpdateMap::new();
    let ok = add_lease(
        &mut forwards,
        &mut reverses,
        "frodo.home.arpa",
        "192.168.11.25",
        "aa:bb",
        ".home.arpa.",
    );
    assert!(ok);
    assert_eq!(forwards.get("frodo"), Some("192.168.11.25".to_string()));
    assert_eq!(reverses.get("25"), Some("frodo.home.arpa.".to_string()));
}

#[test]
fn lease_without_dotted_address_is_refused() {
    let mut forwards = UpdateMap::new();
    let mut reverses = UpdateMap::new();
    let ok = add_lease(&mut forwards, &mut reverses, "frodo", "localhost", "aa:bb", "");
    assert!(!ok);
    assert_eq!(forwards.len(), 0);
    assert_eq!(reverses.len(), 0);
}

#[test]
fn update_map_insert_replaces_in_place() {
    let mut m = UpdateMap::new();
    m.insert("a", "1");
    m.insert("b", "2");
    m.insert("a", "3");
    assert_eq!(m.len(), 2);
    assert_eq!(m.get("a"), Some("3".to_string()));
    assert_eq!(m.get("b"), Some("2".to_string()));
    assert_eq!(m.get("c"), None);
    assert_eq!(m.values(), vec!["3".to_string(), "2".to_string()]);
}
