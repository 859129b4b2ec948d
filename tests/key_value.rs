use rlvldb::{encode_record, process_buffer, KvError, KvKey, KvStore, KvValue, Pair, Scanner, Step};

fn record(key: &[u8], value: &[u8]) -> Vec<u8> {
    match encode_record(&KvKey::new(key.to_vec()), &KvValue::new(value.to_vec())) {
        Ok(bytes) => bytes,
        Err(e) => panic!("{:?}", e),
    }
}

fn log_of(records: &[(Vec<u8>, Vec<u8>)]) -> Vec<u8> {
    let mut log = Vec::new();
    for (k, v) in records {
        log.extend_from_slice(&record(k, v));
    }
    log
}

fn get(log: &[u8], key: &[u8]) -> Result<Option<Pair>, KvError> {
    process_buffer(log, &KvKey::new(key.to_vec()))
}

fn validate_results_should_find(log: &[u8], key: &KvKey, target_val: &KvValue) {
    match process_buffer(log, key) {
        Ok(Some(pair)) => {
            assert_eq!(pair.key, key.clone());
            assert_eq!(pair.value, target_val.clone());
        }
        Ok(None) => panic!("No value found for key: {:?}", key),
        Err(e) => panic!("Error retrieving value for key: {:?}", e),
    };
}

/// Drives a scanner over `log` as a reader of a byte stream would, skipping
/// the values that it asks to skip.
fn stream_get(log: &[u8], key: &[u8]) -> Result<Option<Pair>, KvError> {
    let mut scanner = Scanner::new(&KvKey::new(key.to_vec()));
    let mut pos = 0;
    while pos < log.len() {
        let step = scanner.feed(log[pos]);
        pos += 1;
        match step {
            Step::Next => {}
            Step::Found => break,
            Step::Skip(n) => {
                let k = n.min(log.len() - pos);
                if k > 0 {
                    scanner.skipped(k);
                    pos += k;
                }
            }
        }
    }
    scanner.finish()
}

fn expect_found(r: Result<Option<Pair>, KvError>, key: &[u8], value: &[u8]) {
    match r {
        Ok(Some(pair)) => {
            assert_eq!(pair.key.as_slice(), key);
            assert_eq!(pair.value.as_slice(), value);
        }
        Ok(None) => panic!("nothing found"),
        Err(e) => panic!("{:?}", e),
    }
}

fn expect_corrupt(r: Result<Option<Pair>, KvError>) {
    match r {
        Err(KvError::Serialization(_)) => (),
        Ok(Some(_)) => panic!("found a record in a corrupt log"),
        Ok(None) => panic!("a corrupt log scanned as absent"),
        Err(e) => panic!("wrong error: {:?}", e),
    }
}

#[test]
fn write_read_several_keys() {
    let key1 = KvKey::new(vec![1, 1]);
    let key2 = KvKey::new(vec![0xaa]);
    let key3 = KvKey::new(vec![12, 34]);
    let key4 = KvKey::new(vec![1, 3]);

    let val1 = KvValue::new(vec![81, 32]);
    let val2 = KvValue::new(vec![16u8; 300]);
    let val3 = KvValue::new(vec![255, 15]);
    let val4 = KvValue::new(vec![0x77; 15]);

    let mut log: Vec<u8> = Vec::new();
    for (k, v) in [(&key1, &val1), (&key2, &val2), (&key3, &val3), (&key4, &val4)] {
        match encode_record(k, v) {
            Ok(bytes) => log.extend_from_slice(&bytes),
            Err(e) => panic!("{:?}", e),
        }
    }

    // get a key after a single key
    validate_results_should_find(&log, &key3, &val3);
    // get last key
    validate_results_should_find(&log, &key4, &val4);
    // just the first element
    validate_results_should_find(&log, &key1, &val1);

    // key not found should return None
    let fake_key = KvKey::new(vec![255u8, 255u8, 255u8]);
    match process_buffer(&log, &fake_key) {
        Ok(Some(pair)) => {
            println!("searched key: {:?}", fake_key);
            println!("found key: {:?}", pair.key);
            println!("found value: {:?}", pair.value);
            panic!("nothing should have been found here")
        }
        Ok(None) => (),
        Err(e) => panic!("Error retrieving value for key: {:?}", e),
    };
}

#[test]
fn empty_db() {
    let key = KvKey::new(vec![1, 2, 3]);
    assert!(matches!(process_buffer(&[], &key), Ok(None)));
    let scanner = Scanner::new(&key);
    assert!(matches!(scanner.finish(), Ok(None)));
}

#[test]
fn record_layout_is_little_endian() {
    assert_eq!(record(&[1, 1], &[81, 32]), vec![2, 0, 0, 0, 1, 1, 2, 0, 0, 0, 81, 32]);
    let long = record(&[0xaa], &[16u8; 300]);
    assert_eq!(&long[..9], &[1, 0, 0, 0, 0xaa, 0x2c, 0x01, 0, 0]);
    assert_eq!(long.len(), 4 + 1 + 4 + 300);
    assert_eq!(record(&[], &[]), vec![0u8; 8]);
}

#[test]
fn round_trip_after_other_records() {
    let mut log = log_of(&[(vec![9], vec![1, 2, 3]), (vec![8, 8], vec![])]);
    log.extend_from_slice(&record(&[7, 7, 7], &[42; 20]));
    expect_found(get(&log, &[7, 7, 7]), &[7, 7, 7], &[42; 20]);
    expect_found(stream_get(&log, &[7, 7, 7]), &[7, 7, 7], &[42; 20]);
}

#[test]
fn round_trip_empty_key_and_value() {
    let log = record(&[], &[]);
    expect_found(get(&log, &[]), &[], &[]);
    expect_found(stream_get(&log, &[]), &[], &[]);
}

#[test]
fn absent_key_gives_none() {
    let log = log_of(&[(vec![1], vec![2]), (vec![3], vec![4]), (vec![1, 2], vec![5])]);
    assert!(matches!(get(&log, &[2]), Ok(None)));
    assert!(matches!(get(&log, &[1, 2, 3]), Ok(None)));
    assert!(matches!(stream_get(&log, &[2]), Ok(None)));
}

#[test]
fn many_records_first_middle_last() {
    let records: Vec<(Vec<u8>, Vec<u8>)> =
        (0u8..50).map(|i| (vec![i, i ^ 0x5a], vec![i; i as usize])).collect();
    let log = log_of(&records);
    for i in [0usize, 25, 49] {
        expect_found(get(&log, &records[i].0), &records[i].0, &records[i].1);
        expect_found(stream_get(&log, &records[i].0), &records[i].0, &records[i].1);
    }
}

#[test]
fn skips_values_of_length_zero_and_one() {
    let log = log_of(&[
        (vec![1], vec![]),
        (vec![2], vec![0xff]),
        (vec![3], vec![]),
        (vec![4], vec![9]),
        (vec![5], vec![6, 7]),
    ]);
    expect_found(get(&log, &[5]), &[5], &[6, 7]);
    expect_found(get(&log, &[3]), &[3], &[]);
    expect_found(get(&log, &[4]), &[4], &[9]);
    expect_found(stream_get(&log, &[5]), &[5], &[6, 7]);
    expect_found(stream_get(&log, &[4]), &[4], &[9]);
    assert!(matches!(get(&log, &[6]), Ok(None)));
    assert!(matches!(stream_get(&log, &[6]), Ok(None)));
}

#[test]
fn concrete_scenario() {
    let log = log_of(&[
        (vec![1, 1], vec![81, 32]),
        (vec![0xaa], vec![16; 300]),
        (vec![12, 34], vec![255, 15]),
        (vec![1, 3], vec![0x77; 15]),
    ]);
    expect_found(get(&log, &[12, 34]), &[12, 34], &[255, 15]);
    expect_found(get(&log, &[1, 3]), &[1, 3], &[0x77; 15]);
    assert!(matches!(get(&log, &[255, 255, 255]), Ok(None)));
    expect_found(stream_get(&log, &[1, 3]), &[1, 3], &[0x77; 15]);
}

#[test]
fn truncated_log_is_corrupt() {
    let full = log_of(&[(vec![1, 1], vec![81, 32]), (vec![0xaa], vec![16; 30])]);
    let first_len = 4 + 2 + 4 + 2;
    for cut in first_len + 1..full.len() {
        expect_corrupt(get(&full[..cut], &[0xaa]));
        expect_corrupt(get(&full[..cut], &[9, 9]));
        expect_corrupt(stream_get(&full[..cut], &[9, 9]));
    }
    for cut in 1..first_len {
        expect_corrupt(get(&full[..cut], &[1, 1]));
        expect_corrupt(stream_get(&full[..cut], &[1, 1]));
    }
    // a record that was found before the cut stays found
    expect_found(get(&full[..first_len + 3], &[1, 1]), &[1, 1], &[81, 32]);
}

#[test]
fn oversized_length_field_is_corrupt() {
    let mut log = vec![0xff, 0xff, 0xff, 0xff];
    log.extend_from_slice(&[1, 2, 3]);
    expect_corrupt(get(&log, &[1]));
    expect_corrupt(stream_get(&log, &[1]));
}

#[test]
fn first_record_of_a_key_wins() {
    let log = log_of(&[(vec![5], vec![1]), (vec![5], vec![2])]);
    expect_found(get(&log, &[5]), &[5], &[1]);
    expect_found(stream_get(&log, &[5]), &[5], &[1]);
}

#[test]
fn scanner_asks_to_skip_unmatched_values() {
    let log = record(&[1], &[7, 7, 7]);
    let mut scanner = Scanner::new(&KvKey::new(vec![2]));
    let mut last = Step::Next;
    for b in &log[..9] {
        last = scanner.feed(*b);
    }
    assert!(matches!(last, Step::Skip(3)));
    assert_eq!(scanner.pending_skip(), 3);
    scanner.skipped(2);
    assert_eq!(scanner.pending_skip(), 1);
    expect_corrupt(scanner.finish());
    scanner.skipped(1);
    assert_eq!(scanner.pending_skip(), 0);
    assert!(matches!(scanner.finish(), Ok(None)));
}

#[test]
fn pair_and_store_constructors() {
    let pair = Pair::new(vec![1, 2], vec![3]);
    assert_eq!(pair.key, KvKey::new(vec![1, 2]));
    assert_eq!(pair.value, KvValue::new(vec![3]));
    assert_eq!(pair.key.as_slice(), &[1, 2]);
    let store = KvStore::new("/tmp/data-test/rlvldb-test".to_owned());
    assert_eq!(store.path(), "/tmp/data-test/rlvldb-test");
}
