use logscan::window::unique_clients;
use logscan::LogError;

fn line(ts: u64, dev: &str, ap: &str, dir: &str) -> Vec<u8> {
    format!("{:010},{},{},{},{}", ts, dev, ap, "000100", dir).into_bytes()
}

fn header() -> Vec<u8> {
    b"timestamp,device,access_point,bytes,direction".to_vec()
}

const AP: &str = "40A6E8:6C:5B:05";
const OTHER_AP: &str = "001122:AA:BB:CC";
const T0: u64 = 1607173201;

#[test]
fn window_boundaries() {
    let lines = vec![
        header(),
        line(T0, "AAAAAA:00:00:01", AP, "upload"),           // at T: in
        line(T0 + 10800, "AAAAAA:00:00:02", AP, "upload"),   // at T+10800: in
        line(T0 + 10801, "AAAAAA:00:00:03", AP, "upload"),   // one past: out
        line(T0 - 1, "AAAAAA:00:00:04", AP, "upload"),       // one before: out
    ];
    let r = unique_clients(&lines, &AP.as_bytes().to_vec(), T0).unwrap();
    assert_eq!(
        r,
        vec![b"AAAAAA:00:00:01".to_vec(), b"AAAAAA:00:00:02".to_vec()]
    );
}

#[test]
fn first_upload_row_alone_decides_membership() {
    // the device's first upload row to the target lies outside the window;
    // a later row inside the window does not revive it
    let lines = vec![
        header(),
        line(T0 - 100, "AAAAAA:00:00:01", AP, "upload"),
        line(T0 + 100, "AAAAAA:00:00:01", AP, "upload"),
    ];
    let r = unique_clients(&lines, &AP.as_bytes().to_vec(), T0).unwrap();
    assert_eq!(r, Vec::<Vec<u8>>::new());
}

#[test]
fn each_device_reported_once_in_first_appearance_order() {
    let lines = vec![
        header(),
        line(T0 + 10, "BBBBBB:00:00:02", AP, "upload"),
        line(T0 + 20, "AAAAAA:00:00:01", AP, "upload"),
        line(T0 + 30, "BBBBBB:00:00:02", AP, "upload"),
    ];
    let r = unique_clients(&lines, &AP.as_bytes().to_vec(), T0).unwrap();
    assert_eq!(
        r,
        vec![b"BBBBBB:00:00:02".to_vec(), b"AAAAAA:00:00:01".to_vec()]
    );
}

#[test]
fn other_access_points_and_downloads_are_ignored() {
    let lines = vec![
        header(),
        line(T0 + 10, "AAAAAA:00:00:01", OTHER_AP, "upload"),
        line(T0 + 20, "BBBBBB:00:00:02", AP, "downld"),
        line(T0 + 30, "CCCCCC:00:00:03", AP, "upload"),
    ];
    let r = unique_clients(&lines, &AP.as_bytes().to_vec(), T0).unwrap();
    assert_eq!(r, vec![b"CCCCCC:00:00:03".to_vec()]);
}

#[test]
fn short_line_aborts_window_scan() {
    let lines = vec![header(), b"1607173201,AAAAAA:00:00:01".to_vec()];
    let r = unique_clients(&lines, &AP.as_bytes().to_vec(), T0);
    assert_eq!(r, Err(LogError::ShortLine));
}

#[test]
fn bad_timestamp_on_candidate_row_aborts() {
    let mut bad = line(T0, "AAAAAA:00:00:01", AP, "upload");
    bad[0] = b'x';
    let lines = vec![header(), bad];
    let r = unique_clients(&lines, &AP.as_bytes().to_vec(), T0);
    assert_eq!(r, Err(LogError::BadNumber));
}

#[test]
fn interior_nondigit_timestamp_on_candidate_row_aborts() {
    let mut bad = line(T0, "AAAAAA:00:00:01", AP, "upload");
    bad[5] = b'x';
    let lines = vec![header(), bad];
    let r = unique_clients(&lines, &AP.as_bytes().to_vec(), T0);
    assert_eq!(r, Err(LogError::BadNumber));
}

#[test]
fn bad_timestamp_on_noncandidate_row_is_ignored() {
    let mut bad = line(T0, "AAAAAA:00:00:01", OTHER_AP, "upload");
    bad[0] = b'x';
    let lines = vec![
        header(),
        bad,
        line(T0 + 10, "BBBBBB:00:00:02", AP, "upload"),
    ];
    let r = unique_clients(&lines, &AP.as_bytes().to_vec(), T0).unwrap();
    assert_eq!(r, vec![b"BBBBBB:00:00:02".to_vec()]);
}

#[test]
fn empty_window_scan() {
    let r = unique_clients(&Vec::new(), &AP.as_bytes().to_vec(), T0).unwrap();
    assert_eq!(r, Vec::<Vec<u8>>::new());
}
