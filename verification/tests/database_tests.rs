use routefinder_api::database::{
    decode_bcd_freq, nav_config_from_rows, non_empty_fixes, order_airway_waypoints,
    procedure_header, procedure_type_code, terminal_fixes, waypoint_display_name,
};
use routefinder_api::models::{NavConfig, NavRef};

#[test]
fn decode_bcd_freq_vor() {
    assert_eq!(decode_bcd_freq(0x0118_3500), "118.35");
}

#[test]
fn decode_bcd_freq_ils() {
    assert_eq!(decode_bcd_freq(0x0110_9000), "110.90");
}

#[test]
fn decode_bcd_freq_drops_first_digit() {
    assert_eq!(decode_bcd_freq(0x1183_5000), "183.50");
}

#[test]
fn decode_bcd_freq_zero() {
    assert_eq!(decode_bcd_freq(0), "000.00");
}

#[test]
fn decode_bcd_freq_nibble_above_nine() {
    // the high nibble 0xA is written "10", so the digits are "0100000"
    assert_eq!(decode_bcd_freq(0x0A00_0000), "100.00");
}

#[test]
fn decode_bcd_freq_ignores_low_byte() {
    assert_eq!(decode_bcd_freq(0x0118_35FF), "118.35");
}

#[test]
fn decode_bcd_freq_shape() {
    for raw in [0, 0x0118_3500, 0x7FFF_FFFF, -1, 0x0ABC_DEF0] {
        let s = decode_bcd_freq(raw);
        assert_eq!(s.chars().count(), 6);
        assert_eq!(s.chars().nth(3), Some('.'));
    }
}

fn row(k: &str, v: &str) -> (String, String) {
    (k.to_string(), v.to_string())
}

#[test]
fn nav_config_reads_cycle() {
    let rows = vec![
        row("CycleName", "2401"),
        row("Other", "x"),
        row("CycleStartDate", "2024-01-25"),
        row("CycleEndDate", "2024-02-21"),
    ];
    let cfg = nav_config_from_rows(&rows);
    assert_eq!(cfg.cycle_name, "2401");
    assert_eq!(cfg.cycle_start, "2024-01-25");
    assert_eq!(cfg.cycle_end, "2024-02-21");
}

#[test]
fn nav_config_last_row_wins_and_missing_is_empty() {
    let rows = vec![row("CycleName", "2401"), row("CycleName", "2402")];
    let cfg = nav_config_from_rows(&rows);
    assert_eq!(cfg.cycle_name, "2402");
    assert_eq!(cfg.cycle_start, "");
    assert_eq!(cfg.cycle_end, "");
}

#[test]
fn nav_config_default_is_empty() {
    let cfg = NavConfig::default();
    assert_eq!(cfg.cycle_name, "");
    let r = NavRef { ident: "HOK".to_string(), type_desc: "VOR".to_string(), freq_mhz: "113.50".to_string() };
    assert_eq!(r.clone().ident, "HOK");
}

#[test]
fn terminal_fixes_split_by_type() {
    let terms = vec![
        ("1".to_string(), vec![10, 11]),
        ("2".to_string(), vec![20]),
        ("3".to_string(), vec![30]),
        ("1".to_string(), vec![12]),
    ];
    let (sid, star) = terminal_fixes(7, &terms);
    assert_eq!(sid, vec![(7, 10), (7, 11), (7, 12)]);
    assert_eq!(star, vec![(20, 7)]);
}

#[test]
fn display_name_rules() {
    let ident = "DUGEB".to_string();
    assert_eq!(waypoint_display_name(Some("Dugeb Point".to_string()), &ident), Some("Dugeb Point".to_string()));
    assert_eq!(waypoint_display_name(Some("DUGEB".to_string()), &ident), None);
    assert_eq!(waypoint_display_name(Some(String::new()), &ident), None);
    assert_eq!(waypoint_display_name(None, &ident), None);
}

#[test]
fn procedure_header_rules() {
    let (name, full, kind) = procedure_header(&"DUGEB1A".to_string(), &String::new(), &"1".to_string());
    assert_eq!((name.as_str(), full.as_str(), kind.as_str()), ("DUGEB1A", "DUGEB1A", "SID"));
    let (name, _, kind) = procedure_header(&"ATAGA2B RW01".to_string(), &"ATAGA2B".to_string(), &"2".to_string());
    assert_eq!((name.as_str(), kind.as_str()), ("ATAGA2B", "STAR"));
}

#[test]
fn fixes_drop_empty() {
    let fixes = vec!["A".to_string(), String::new(), "B".to_string()];
    assert_eq!(non_empty_fixes(&fixes), vec!["A".to_string(), "B".to_string()]);
}

#[test]
fn airway_chain_in_order() {
    // legs listed out of order: 3->4, 1->2, 2->3
    let legs = vec![(3, 4), (1, 2), (2, 3)];
    assert_eq!(order_airway_waypoints(&legs), vec![1, 2, 3, 4]);
}

#[test]
fn airway_chain_last_leg_wins() {
    // the chain from 1 follows the last leg leaving 1; 2 and 3 come after
    let legs = vec![(1, 2), (1, 5), (2, 3)];
    assert_eq!(order_airway_waypoints(&legs), vec![1, 5, 2, 3]);
}

#[test]
fn airway_without_head_lists_ends_in_leg_order() {
    let legs = vec![(1, 2), (2, 1), (1, 3)];
    assert_eq!(order_airway_waypoints(&legs), vec![1, 2, 3]);
}

#[test]
fn airway_cycle_lists_first_ends_in_row_order() {
    let legs = vec![(1, 2), (4, 5), (2, 3), (3, 4), (5, 1)];
    assert_eq!(order_airway_waypoints(&legs), vec![1, 4, 2, 3, 5]);
}

#[test]
fn airway_chain_into_cycle_stops_at_first_repeat() {
    let legs = vec![(1, 2), (2, 3), (3, 2)];
    assert_eq!(order_airway_waypoints(&legs), vec![1, 2, 3]);
}

#[test]
fn airway_in_two_pieces_lists_both() {
    let legs = vec![(1, 2), (3, 4)];
    assert_eq!(order_airway_waypoints(&legs), vec![1, 2, 3, 4]);
    let legs = vec![(30, 40), (10, 20), (20, 30), (7, 8)];
    assert_eq!(order_airway_waypoints(&legs), vec![10, 20, 30, 40, 7, 8]);
}

#[test]
fn airway_empty_legs() {
    assert_eq!(order_airway_waypoints(&vec![]), Vec::<i32>::new());
}

#[test]
fn procedure_type_codes() {
    assert_eq!(procedure_type_code("STAR"), "2");
    assert_eq!(procedure_type_code("star"), "2");
    assert_eq!(procedure_type_code("StAr"), "2");
    assert_eq!(procedure_type_code("SID"), "1");
    assert_eq!(procedure_type_code("STARS"), "1");
    assert_eq!(procedure_type_code(""), "1");
}
