use appointment_reminders::ledger::{decode_ids, encode_ids, LedgerError, NotifiedIds};

#[test]
fn encode_joins_with_newlines() {
    assert_eq!(encode_ids(&[12, 0, 4294967295]), b"12\n0\n4294967295".to_vec());
}

#[test]
fn encode_empty_is_empty() {
    assert_eq!(encode_ids(&[]), Vec::<u8>::new());
}

#[test]
fn decode_reads_lines() {
    assert_eq!(decode_ids(b"1\n22\n333"), Ok(vec![1, 22, 333]));
}

#[test]
fn decode_ignores_final_newline() {
    assert_eq!(decode_ids(b"7\n8\n"), Ok(vec![7, 8]));
}

#[test]
fn decode_empty_text() {
    assert_eq!(decode_ids(b""), Ok(vec![]));
}

#[test]
fn decode_accepts_plus_and_leading_zeros() {
    assert_eq!(decode_ids(b"+5\n007"), Ok(vec![5, 7]));
}

#[test]
fn decode_rejects_non_numeric_line() {
    assert_eq!(decode_ids(b"1\nabc\n3"), Err(LedgerError::Corrupt));
}

#[test]
fn decode_rejects_empty_line() {
    assert_eq!(decode_ids(b"1\n\n3"), Err(LedgerError::Corrupt));
    assert_eq!(decode_ids(b"\n"), Err(LedgerError::Corrupt));
}

#[test]
fn decode_rejects_overflow() {
    assert_eq!(decode_ids(b"4294967296"), Err(LedgerError::Corrupt));
    assert_eq!(decode_ids(b"4294967295"), Ok(vec![4294967295]));
}

#[test]
fn decode_rejects_sign_alone_and_minus() {
    assert_eq!(decode_ids(b"+"), Err(LedgerError::Corrupt));
    assert_eq!(decode_ids(b"-1"), Err(LedgerError::Corrupt));
}

#[test]
fn save_then_load_gives_same_set() {
    let mut n = NotifiedIds::new();
    n.insert(41);
    n.insert(7);
    n.insert(1000);
    let text = n.to_text();
    let back = NotifiedIds::load(Some(text.as_slice())).unwrap();
    assert_eq!(back.as_slice(), &[41, 7, 1000]);
}

#[test]
fn load_absent_is_empty() {
    let n = NotifiedIds::load(None).unwrap();
    assert_eq!(n.len(), 0);
}

#[test]
fn load_corrupt_fails() {
    assert!(matches!(NotifiedIds::load(Some(b"12\nx".as_slice())), Err(LedgerError::Corrupt)));
}

#[test]
fn insert_does_not_duplicate() {
    let mut n = NotifiedIds::new();
    n.insert(3);
    n.insert(3);
    assert_eq!(n.as_slice(), &[3]);
    assert!(n.contains(3));
    assert!(!n.contains(4));
}
