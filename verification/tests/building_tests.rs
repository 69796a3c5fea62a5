use logscan::building::building_changes;
use logscan::registry::build_registry;
use logscan::LogError;

fn log_line(ts: u64, dev: &str, ap: &str) -> Vec<u8> {
    format!("{:010},{},{},{},{}", ts, dev, ap, "000100", "upload").into_bytes()
}

fn reg_line(ap: &str, building: &str) -> Vec<u8> {
    format!("{},{}", ap, building).into_bytes()
}

fn log_header() -> Vec<u8> {
    b"timestamp,device,access_point,bytes,direction".to_vec()
}

fn reg_header() -> Vec<u8> {
    b"access_point,building".to_vec()
}

const DEV: &str = "4C3C16:46:65:62";
const AP_A1: &str = "000001:AA:BB:CC";
const AP_A2: &str = "000002:AA:BB:CC";
const AP_B1: &str = "000003:AA:BB:CC";

fn registry() -> Vec<Vec<u8>> {
    vec![
        reg_header(),
        reg_line(AP_A1, "11A"),
        reg_line(AP_A2, "11A"),
        reg_line(AP_B1, "24B"),
    ]
}

#[test]
fn registry_reads_fixed_offsets() {
    let reg = build_registry(&registry()).unwrap();
    let lines = vec![log_header(), log_line(1607173201, DEV, AP_B1)];
    let r = building_changes(&lines, &reg, &DEV.as_bytes().to_vec()).unwrap();
    assert_eq!(r.len(), 1);
}

#[test]
fn registry_short_line_is_fatal() {
    let lines = vec![reg_header(), b"000001:AA:BB:CC,".to_vec()];
    assert!(matches!(build_registry(&lines), Err(LogError::ShortLine)));
}

#[test]
fn repeated_access_point_keeps_last_binding() {
    let reg_lines = vec![
        reg_header(),
        reg_line(AP_A1, "11A"),
        reg_line(AP_A1, "24B"),
    ];
    let reg = build_registry(&reg_lines).unwrap();
    let lines = vec![
        log_header(),
        log_line(1607173201, DEV, AP_A1),
    ];
    // one transition into the last-bound building; a second row in the
    // same access point adds nothing
    let r = building_changes(&lines, &reg, &DEV.as_bytes().to_vec()).unwrap();
    assert_eq!(r.len(), 1);
}

#[test]
fn transitions_are_reported_with_formatted_timestamps() {
    let reg = build_registry(&registry()).unwrap();
    // 1607173201 is 2020-12-05 13:00:01 UTC
    let lines = vec![
        log_header(),
        log_line(1607173201, DEV, AP_A1),     // into 11A
        log_line(1607173202, DEV, AP_A2),     // still 11A: nothing
        log_line(1607173203, DEV, AP_B1),     // into 24B
        log_line(1607173204, DEV, AP_B1),     // still 24B: nothing
        log_line(1607173205, DEV, AP_A1),     // back into 11A
    ];
    let r = building_changes(&lines, &reg, &DEV.as_bytes().to_vec()).unwrap();
    assert_eq!(
        r,
        vec![
            "2020-Dec-05 13:00:01".to_string(),
            "2020-Dec-05 13:00:03".to_string(),
            "2020-Dec-05 13:00:05".to_string(),
        ]
    );
}

#[test]
fn same_building_emits_at_most_one_entry() {
    let reg = build_registry(&registry()).unwrap();
    let lines = vec![
        log_header(),
        log_line(1607173201, DEV, AP_A1),
        log_line(1607173202, DEV, AP_A2),
        log_line(1607173203, DEV, AP_A1),
        log_line(1607173204, DEV, AP_A2),
    ];
    let r = building_changes(&lines, &reg, &DEV.as_bytes().to_vec()).unwrap();
    assert_eq!(r, vec!["2020-Dec-05 13:00:01".to_string()]);
}

#[test]
fn other_devices_are_ignored() {
    let reg = build_registry(&registry()).unwrap();
    let lines = vec![
        log_header(),
        log_line(1607173201, "AABBCC:11:22:33", AP_A1),
        log_line(1607173202, "AABBCC:11:22:33", AP_B1),
    ];
    let r = building_changes(&lines, &reg, &DEV.as_bytes().to_vec()).unwrap();
    assert_eq!(r, Vec::<String>::new());
}

#[test]
fn unknown_access_point_is_fatal_and_named() {
    let reg = build_registry(&registry()).unwrap();
    let lines = vec![
        log_header(),
        log_line(1607173201, DEV, "FFFFFF:00:00:00"),
    ];
    match building_changes(&lines, &reg, &DEV.as_bytes().to_vec()) {
        Err(LogError::UnknownAccessPoint(ap)) => {
            assert_eq!(ap, b"FFFFFF:00:00:00".to_vec())
        },
        other => panic!("expected UnknownAccessPoint, got {:?}", other),
    }
}

#[test]
fn short_log_line_is_fatal_for_building_scan() {
    let reg = build_registry(&registry()).unwrap();
    let lines = vec![log_header(), b"1607173201,4C3C".to_vec()];
    assert_eq!(
        building_changes(&lines, &reg, &DEV.as_bytes().to_vec()),
        Err(LogError::ShortLine)
    );
}

#[test]
fn bad_timestamp_on_target_row_is_fatal() {
    let reg = build_registry(&registry()).unwrap();
    let mut bad = log_line(1607173201, DEV, AP_A1);
    bad[0] = b'x';
    let lines = vec![log_header(), bad];
    assert_eq!(
        building_changes(&lines, &reg, &DEV.as_bytes().to_vec()),
        Err(LogError::BadNumber)
    );
}

#[test]
fn interior_nondigit_timestamp_on_target_row_is_fatal() {
    let reg = build_registry(&registry()).unwrap();
    let mut bad = log_line(1607173201, DEV, AP_A1);
    bad[7] = b'x';
    let lines = vec![log_header(), bad];
    assert_eq!(
        building_changes(&lines, &reg, &DEV.as_bytes().to_vec()),
        Err(LogError::BadNumber)
    );
}
