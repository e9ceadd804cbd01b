use lsmtree::commitlog::CommitLogEntry;

#[test]
fn test_cl_put_encode() {
    let entry = CommitLogEntry::new("PUT", "key", Some("value"));
    let buf = entry.encode();
    assert_eq!(buf, vec![
        1,
        3, 0, 0, 0, 0, 0, 0, 0,
        107, 101, 121,
        5, 0, 0, 0, 0, 0, 0, 0,
        118, 97, 108, 117, 101
    ]);
}

#[test]
fn test_cl_utf8() {
    let value = "バリュー";
    let value_bytes = value.as_bytes();

    assert_eq!(value_bytes, &[227, 131, 144, 227, 131, 170, 227, 131, 165, 227, 131, 188]);
}

#[test]
fn test_cl_put_encode_key_utf8() {
    let entry = CommitLogEntry::new("PUT", "キー", Some("バリュー"));
    let buf = entry.encode();
    assert_eq!(buf, vec![
        1,
        6, 0, 0, 0, 0, 0, 0, 0,
        227, 130, 173, 227, 131, 188,
        12, 0, 0, 0, 0, 0, 0, 0,
        227, 131, 144, 227, 131, 170, 227, 131, 165, 227, 131, 188
    ]);
}

#[test]
fn test_cl_delete_encode() {
    let entry = CommitLogEntry::new("DELETE", "key", None);
    let buf = entry.encode();
    assert_eq!(buf, vec![
        2,
        3, 0, 0, 0, 0, 0, 0, 0,
        107, 101, 121
    ]);
}

#[test]
fn test_cl_delete_encode_key_utf8() {
    let entry = CommitLogEntry::new("DELETE", "キー", None);
    let buf = entry.encode();
    assert_eq!(buf, vec![
        2,
        6, 0, 0, 0, 0, 0, 0, 0,
        227, 130, 173, 227, 131, 188
    ]);
}

#[test]
fn commitlog_record_ends_with_timestamp() {
    let entry = CommitLogEntry::new("DELETE", "k", None);
    let buf = entry.encode_with_timestamp(258);
    assert_eq!(buf, vec![2, 1, 0, 0, 0, 0, 0, 0, 0, 107, 2, 1, 0, 0, 0, 0, 0, 0]);
}

#[test]
fn commitlog_entry_text() {
    assert_eq!(CommitLogEntry::new("PUT", "k", Some("v")).to_string(), "PUT k v");
    assert_eq!(CommitLogEntry::new("DELETE", "k", None).to_string(), "DELETE k");
}
