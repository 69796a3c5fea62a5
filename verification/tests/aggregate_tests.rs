use logscan::aggregate::{aggregate, Cube};
use logscan::record::Direction;
use logscan::LogError;

fn line(ts: &str, dev: &str, ap: &str, bytes: &str, dir: &str) -> Vec<u8> {
    format!("{},{},{},{},{}", ts, dev, ap, bytes, dir).into_bytes()
}

fn header() -> Vec<u8> {
    b"timestamp,device,access_point,bytes,direction".to_vec()
}

fn total(c: &Cube, date: &str, ap: &[u8], dir: Direction) -> u64 {
    c.total(&date.to_string(), &ap.to_vec(), dir)
}

#[test]
fn round_trip_single_row() {
    // timestamp 1607173201 is 2020-12-05 13:00:01 UTC
    let lines = vec![
        header(),
        line("1607173201", "AABBCC:11:22:33", "001122:AA:BB:CC", "000500", "upload"),
    ];
    let c = aggregate(&lines).unwrap();
    assert_eq!(c.len(), 1);
    assert_eq!(total(&c, "2020-12-05", b"001122:AA:BB:CC", Direction::Received), 500);
    let e = c.entry_at(0);
    assert_eq!(e.date, "2020-12-05");
    assert_eq!(e.ap, b"001122:AA:BB:CC".to_vec());
    assert_eq!(e.dir, Direction::Received);
    assert_eq!(e.total, 500);
}

#[test]
fn upload_counts_as_received_everything_else_as_sent() {
    let lines = vec![
        header(),
        line("1607173201", "AABBCC:11:22:33", "001122:AA:BB:CC", "000500", "upload"),
        line("1607173202", "AABBCC:11:22:33", "001122:AA:BB:CC", "000300", "downld"),
    ];
    let c = aggregate(&lines).unwrap();
    assert_eq!(total(&c, "2020-12-05", b"001122:AA:BB:CC", Direction::Received), 500);
    assert_eq!(total(&c, "2020-12-05", b"001122:AA:BB:CC", Direction::Sent), 300);
}

#[test]
fn totals_accumulate_per_key() {
    let lines = vec![
        header(),
        line("1607173201", "AABBCC:11:22:33", "001122:AA:BB:CC", "000500", "upload"),
        line("1607173202", "DDEEFF:44:55:66", "001122:AA:BB:CC", "000250", "upload"),
        line("1607173203", "AABBCC:11:22:33", "665544:AA:BB:CC", "000100", "upload"),
        // 1607299201 is 2020-12-07 00:00:01 UTC: another date
        line("1607299201", "AABBCC:11:22:33", "001122:AA:BB:CC", "000042", "upload"),
    ];
    let c = aggregate(&lines).unwrap();
    assert_eq!(total(&c, "2020-12-05", b"001122:AA:BB:CC", Direction::Received), 750);
    assert_eq!(total(&c, "2020-12-05", b"665544:AA:BB:CC", Direction::Received), 100);
    assert_eq!(total(&c, "2020-12-07", b"001122:AA:BB:CC", Direction::Received), 42);
    assert_eq!(total(&c, "2020-12-05", b"001122:AA:BB:CC", Direction::Sent), 0);
    assert_eq!(total(&c, "2020-12-06", b"001122:AA:BB:CC", Direction::Received), 0);
    // the cube lists exactly the keys the rows carry: three here
    assert_eq!(c.len(), 3);
}

#[test]
fn partitioned_aggregation_merges_to_the_same_totals() {
    let r1 = line("1607173201", "AABBCC:11:22:33", "001122:AA:BB:CC", "000500", "upload");
    let r2 = line("1607173202", "DDEEFF:44:55:66", "001122:AA:BB:CC", "000250", "downld");
    let r3 = line("1607173203", "AABBCC:11:22:33", "665544:AA:BB:CC", "000100", "upload");
    let r4 = line("1607299201", "AABBCC:11:22:33", "001122:AA:BB:CC", "000042", "upload");

    let whole = vec![header(), r1.clone(), r2.clone(), r3.clone(), r4.clone()];
    let part1 = vec![header(), r1, r2];
    let part2 = vec![header(), r3, r4];

    let c_whole = aggregate(&whole).unwrap();
    let mut c_merged = aggregate(&part1).unwrap();
    let c2 = aggregate(&part2).unwrap();
    c_merged.merge(&c2).unwrap();

    for (date, ap, dir) in [
        ("2020-12-05", b"001122:AA:BB:CC" as &[u8], Direction::Received),
        ("2020-12-05", b"001122:AA:BB:CC", Direction::Sent),
        ("2020-12-05", b"665544:AA:BB:CC", Direction::Received),
        ("2020-12-07", b"001122:AA:BB:CC", Direction::Received),
        ("2020-12-07", b"001122:AA:BB:CC", Direction::Sent),
    ] {
        assert_eq!(
            total(&c_whole, date, ap, dir),
            total(&c_merged, date, ap, dir),
            "totals differ under {date} {dir:?}"
        );
    }
    assert_eq!(total(&c_merged, "2020-12-05", b"001122:AA:BB:CC", Direction::Received), 500);
}

#[test]
fn merge_into_empty_and_from_empty() {
    let lines = vec![
        header(),
        line("1607173201", "AABBCC:11:22:33", "001122:AA:BB:CC", "000500", "upload"),
    ];
    let c = aggregate(&lines).unwrap();
    let mut empty = Cube::new();
    empty.merge(&c).unwrap();
    assert_eq!(total(&empty, "2020-12-05", b"001122:AA:BB:CC", Direction::Received), 500);
    let mut c = c;
    c.merge(&Cube::new()).unwrap();
    assert_eq!(total(&c, "2020-12-05", b"001122:AA:BB:CC", Direction::Received), 500);
}

#[test]
fn add_count_overflow_is_an_error() {
    let mut c = Cube::new();
    c.add_count("2020-12-05".to_string(), b"ap".to_vec(), Direction::Received, u64::MAX)
        .unwrap();
    let r = c.add_count("2020-12-05".to_string(), b"ap".to_vec(), Direction::Received, 1);
    assert_eq!(r, Err(LogError::Overflow));
    // the failed addition changed nothing
    assert_eq!(c.total(&"2020-12-05".to_string(), &b"ap".to_vec(), Direction::Received), u64::MAX);
}

#[test]
fn merge_overflow_is_an_error() {
    let mut a = Cube::new();
    a.add_count("2020-12-05".to_string(), b"ap".to_vec(), Direction::Received, u64::MAX)
        .unwrap();
    let mut b = Cube::new();
    b.add_count("2020-12-05".to_string(), b"ap".to_vec(), Direction::Received, 2)
        .unwrap();
    assert_eq!(a.merge(&b), Err(LogError::Overflow));
}

#[test]
fn short_line_aborts_aggregation() {
    let lines = vec![header(), b"1607173201,AABBCC:11:22:33".to_vec()];
    assert!(matches!(aggregate(&lines), Err(LogError::ShortLine)));
}

#[test]
fn bad_timestamp_aborts_aggregation() {
    let lines = vec![
        header(),
        line("xx07173201", "AABBCC:11:22:33", "001122:AA:BB:CC", "000500", "upload"),
    ];
    assert!(matches!(aggregate(&lines), Err(LogError::BadNumber)));
}

#[test]
fn interior_nondigit_in_timestamp_aborts_aggregation() {
    let lines = vec![
        header(),
        line("16071x3201", "AABBCC:11:22:33", "001122:AA:BB:CC", "000500", "upload"),
    ];
    assert!(matches!(aggregate(&lines), Err(LogError::BadNumber)));
}

#[test]
fn bad_byte_count_aborts_aggregation() {
    let lines = vec![
        header(),
        line("1607173201", "AABBCC:11:22:33", "001122:AA:BB:CC", "x00500", "upload"),
    ];
    assert!(matches!(aggregate(&lines), Err(LogError::BadNumber)));
}

#[test]
fn interior_nondigit_in_byte_count_aborts_aggregation() {
    let lines = vec![
        header(),
        line("1607173201", "AABBCC:11:22:33", "001122:AA:BB:CC", "5005x0", "upload"),
    ];
    assert!(matches!(aggregate(&lines), Err(LogError::BadNumber)));
}

#[test]
fn first_bad_line_wins() {
    let lines = vec![
        header(),
        line("1607173201", "AABBCC:11:22:33", "001122:AA:BB:CC", "x00500", "upload"),
        b"short".to_vec(),
    ];
    assert!(matches!(aggregate(&lines), Err(LogError::BadNumber)));
}

#[test]
fn empty_and_header_only_logs_aggregate_to_nothing() {
    let c = aggregate(&Vec::new()).unwrap();
    assert_eq!(c.len(), 0);
    let c = aggregate(&vec![header()]).unwrap();
    assert_eq!(c.len(), 0);
}
