use logscan::vendor::{parse_vendor_line, trim_bytes, VendorTable};

#[test]
fn vendor_table_lookup() {
    let mut t = VendorTable::new();
    t.insert(b"AABBCC".to_vec(), "Acme".to_string());
    t.insert(b"DDEEFF".to_vec(), "Bolt".to_string());
    assert_eq!(t.lookup(b"AABBCC"), Some(&"Acme".to_string()));
    assert_eq!(t.lookup(b"DDEEFF"), Some(&"Bolt".to_string()));
    assert_eq!(t.lookup(b"123456"), None);
    assert_eq!(t.len(), 2);
}

#[test]
fn vendor_table_insert_overwrites() {
    let mut t = VendorTable::new();
    t.insert(b"AABBCC".to_vec(), "Old".to_string());
    t.insert(b"AABBCC".to_vec(), "New".to_string());
    assert_eq!(t.lookup(b"AABBCC"), Some(&"New".to_string()));
    assert_eq!(t.len(), 1);
}

#[test]
fn registry_snapshot_line_yields_id_and_trimmed_name() {
    let line = b"000000     (base 16)\t\tXEROX CORPORATION   \r".to_vec();
    let (key, name) = parse_vendor_line(&line).unwrap();
    assert_eq!(key, b"000000".to_vec());
    assert_eq!(name, b"XEROX CORPORATION".to_vec());
}

#[test]
fn non_marker_lines_yield_nothing() {
    assert_eq!(parse_vendor_line(&b"00-00-00   (hex)\t\tXEROX CORPORATION".to_vec()), None);
    assert_eq!(parse_vendor_line(&b"".to_vec()), None);
    assert_eq!(parse_vendor_line(&b"short".to_vec()), None);
}

#[test]
fn marker_line_without_name_bytes_yields_empty_name() {
    let line = b"000000     (base 16)".to_vec();
    let (key, name) = parse_vendor_line(&line).unwrap();
    assert_eq!(key, b"000000".to_vec());
    assert_eq!(name, Vec::<u8>::new());
}

#[test]
fn trim_strips_surrounding_whitespace_only() {
    assert_eq!(trim_bytes(&b"  a b \t\r\n".to_vec()), b"a b".to_vec());
    assert_eq!(trim_bytes(&b"abc".to_vec()), b"abc".to_vec());
    assert_eq!(trim_bytes(&b"   ".to_vec()), Vec::<u8>::new());
    assert_eq!(trim_bytes(&b"".to_vec()), Vec::<u8>::new());
}
