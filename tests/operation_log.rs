use qdrant_segment::wal::{append_record, read_records, WalError};

#[test]
fn records_read_back_in_order() {
    let mut log = Vec::new();
    append_record(&mut log, b"first");
    append_record(&mut log, b"");
    append_record(&mut log, &[7u8; 300]);
    assert_eq!(&log[..4], &[5, 0, 0, 0]);
    assert_eq!(&log[13..17], &[44, 1, 0, 0]);
    let records = read_records(&log).unwrap();
    assert_eq!(records, vec![b"first".to_vec(), Vec::new(), vec![7u8; 300]]);
    assert!(read_records(&[]).unwrap().is_empty());
}

#[test]
fn torn_logs_are_refused() {
    let mut log = Vec::new();
    append_record(&mut log, b"abc");
    append_record(&mut log, b"defgh");
    assert_eq!(read_records(&log[..log.len() - 1]), Err(WalError::TruncatedRecord { at: 7 }));
    assert_eq!(read_records(&log[..9]), Err(WalError::TruncatedLength { at: 7 }));
    assert_eq!(read_records(&log[..7]).unwrap(), vec![b"abc".to_vec()]);
}
