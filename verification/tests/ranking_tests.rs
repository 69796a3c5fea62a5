use logscan::ranking::top_vendors;
use logscan::vendor::VendorTable;
use logscan::LogError;

fn line(ts: &str, dev: &str, ap: &str, bytes: &str, dir: &str) -> Vec<u8> {
    format!("{},{},{},{},{}", ts, dev, ap, bytes, dir).into_bytes()
}

fn header() -> Vec<u8> {
    b"timestamp,device,access_point,bytes,direction".to_vec()
}

fn table(entries: &[(&str, &str)]) -> VendorTable {
    let mut t = VendorTable::new();
    for (k, v) in entries {
        t.insert(k.as_bytes().to_vec(), v.to_string());
    }
    t
}

#[test]
fn counts_each_device_once() {
    let t = table(&[("AABBCC", "Acme")]);
    let lines = vec![
        header(),
        line("1607173201", "AABBCC:11:22:33", "001122:AA:BB:CC", "000500", "upload"),
        line("1607173202", "AABBCC:11:22:33", "001122:AA:BB:CC", "000600", "upload"),
        line("1607173203", "AABBCC:11:22:33", "001122:AA:BB:CC", "000700", "downld"),
    ];
    let r = top_vendors(&lines, &t).unwrap();
    assert_eq!(r, vec![("Acme".to_string(), 1u64)]);
}

#[test]
fn dedup_sum_equals_distinct_devices() {
    // four rows, three distinct devices over two vendors
    let t = table(&[("AABBCC", "Acme"), ("DDEEFF", "Bolt")]);
    let lines = vec![
        header(),
        line("1607173201", "AABBCC:11:22:33", "001122:AA:BB:CC", "000500", "upload"),
        line("1607173202", "DDEEFF:44:55:66", "001122:AA:BB:CC", "000600", "upload"),
        line("1607173203", "AABBCC:11:22:33", "001122:AA:BB:CC", "000700", "upload"),
        line("1607173204", "AABBCC:77:88:99", "001122:AA:BB:CC", "000800", "upload"),
    ];
    let r = top_vendors(&lines, &t).unwrap();
    let total: u64 = r.iter().map(|p| p.1).sum();
    assert_eq!(total, 3);
    assert_eq!(r, vec![("Acme".to_string(), 2u64), ("Bolt".to_string(), 1u64)]);
}

#[test]
fn ranking_sorts_descending() {
    let t = table(&[("AAAAAA", "One"), ("BBBBBB", "Two"), ("CCCCCC", "Three")]);
    // Two: 3 devices, Three: 2 devices, One: 1 device
    let lines = vec![
        header(),
        line("1607173201", "AAAAAA:00:00:01", "001122:AA:BB:CC", "000001", "upload"),
        line("1607173202", "BBBBBB:00:00:01", "001122:AA:BB:CC", "000001", "upload"),
        line("1607173203", "BBBBBB:00:00:02", "001122:AA:BB:CC", "000001", "upload"),
        line("1607173204", "BBBBBB:00:00:03", "001122:AA:BB:CC", "000001", "upload"),
        line("1607173205", "CCCCCC:00:00:01", "001122:AA:BB:CC", "000001", "upload"),
        line("1607173206", "CCCCCC:00:00:02", "001122:AA:BB:CC", "000001", "upload"),
    ];
    let r = top_vendors(&lines, &t).unwrap();
    assert_eq!(
        r,
        vec![
            ("Two".to_string(), 3u64),
            ("Three".to_string(), 2u64),
            ("One".to_string(), 1u64),
        ]
    );
}

#[test]
fn equal_counts_keep_first_encounter_order() {
    let t = table(&[("AAAAAA", "Late"), ("BBBBBB", "Early")]);
    // Early's first device appears before Late's second sighting ties them
    let lines = vec![
        header(),
        line("1607173201", "BBBBBB:00:00:01", "001122:AA:BB:CC", "000001", "upload"),
        line("1607173202", "AAAAAA:00:00:01", "001122:AA:BB:CC", "000001", "upload"),
    ];
    let r = top_vendors(&lines, &t).unwrap();
    assert_eq!(
        r,
        vec![("Early".to_string(), 1u64), ("Late".to_string(), 1u64)]
    );
}

#[test]
fn ranking_truncates_to_ten() {
    let vendor_ids = [
        "AAAAA0", "AAAAA1", "AAAAA2", "AAAAA3", "AAAAA4", "AAAAA5", "AAAAA6", "AAAAA7",
        "AAAAA8", "AAAAA9", "AAAAB0", "AAAAB1",
    ];
    let mut entries: Vec<(String, String)> = Vec::new();
    for id in vendor_ids {
        entries.push((id.to_string(), format!("Vendor {}", id)));
    }
    let mut t = VendorTable::new();
    for (k, v) in &entries {
        t.insert(k.as_bytes().to_vec(), v.clone());
    }
    let mut lines = vec![header()];
    for (i, id) in vendor_ids.iter().enumerate() {
        lines.push(line(
            "1607173201",
            &format!("{}:00:00:0{:x}", id, i),
            "001122:AA:BB:CC",
            "000001",
            "upload",
        ));
    }
    let r = top_vendors(&lines, &t).unwrap();
    assert_eq!(r.len(), 10);
}

#[test]
fn unknown_vendor_is_fatal_and_named() {
    let t = table(&[("AABBCC", "Acme")]);
    let lines = vec![
        header(),
        line("1607173201", "AABBCC:11:22:33", "001122:AA:BB:CC", "000500", "upload"),
        line("1607173202", "123456:11:22:33", "001122:AA:BB:CC", "000500", "upload"),
    ];
    match top_vendors(&lines, &t) {
        Err(LogError::UnknownVendor(v)) => assert_eq!(v, b"123456".to_vec()),
        other => panic!("expected UnknownVendor, got {:?}", other),
    }
}

#[test]
fn short_line_is_fatal_for_ranking() {
    let t = table(&[("AABBCC", "Acme")]);
    let lines = vec![header(), b"1607173201,AABB".to_vec()];
    assert_eq!(top_vendors(&lines, &t), Err(LogError::ShortLine));
}

#[test]
fn header_only_log_ranks_nothing() {
    let t = table(&[("AABBCC", "Acme")]);
    let lines = vec![header()];
    assert_eq!(top_vendors(&lines, &t), Ok(vec![]));
}

#[test]
fn empty_log_ranks_nothing() {
    let t = table(&[("AABBCC", "Acme")]);
    let lines: Vec<Vec<u8>> = Vec::new();
    assert_eq!(top_vendors(&lines, &t), Ok(vec![]));
}

#[test]
fn header_is_skipped_even_if_short() {
    let t = table(&[("AABBCC", "Acme")]);
    let lines = vec![
        b"hdr".to_vec(),
        line("1607173201", "AABBCC:11:22:33", "001122:AA:BB:CC", "000500", "upload"),
    ];
    let r = top_vendors(&lines, &t).unwrap();
    assert_eq!(r, vec![("Acme".to_string(), 1u64)]);
}
