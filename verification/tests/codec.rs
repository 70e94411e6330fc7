use pqueue::codec::decode_front_record;
use pqueue::codec::decode_priority;
use pqueue::codec::encode_priority;
use pqueue::codec::encode_record;
use pqueue::get_highest_priority;
use pqueue::QueueError;

#[test]
fn priority_key_is_big_endian() {
    assert_eq!(encode_priority(0), vec![0; 8]);
    assert_eq!(encode_priority(1), vec![0, 0, 0, 0, 0, 0, 0, 1]);
    assert_eq!(
        encode_priority(0x0102_0304_0506_0708),
        vec![1, 2, 3, 4, 5, 6, 7, 8]
    );
    assert_eq!(encode_priority(u64::MAX), vec![0xff; 8]);
}

#[test]
fn key_order_equals_priority_order() {
    // byte-wise lexicographic order on keys follows numeric order
    let pairs: [(u64, u64); 4] = [(0, 1), (9, 10), (255, 256), (10000, 25000)];
    for (lo, hi) in pairs {
        assert!(encode_priority(lo) < encode_priority(hi));
    }
    assert!(encode_priority(u64::MAX - 1) < encode_priority(u64::MAX));
}

#[test]
fn priority_key_round_trips() {
    for p in [0u64, 1, 255, 256, 10000, 25000, u64::MAX] {
        assert_eq!(decode_priority(&encode_priority(p)), Ok(p));
    }
    assert_eq!(
        decode_priority(&vec![1, 2, 3, 4, 5, 6, 7, 8]),
        Ok(0x0102_0304_0506_0708)
    );
}

#[test]
fn short_or_long_key_is_malformed() {
    assert_eq!(decode_priority(&vec![]), Err(QueueError::MalformedKey));
    assert_eq!(decode_priority(&vec![5]), Err(QueueError::MalformedKey));
    assert_eq!(decode_priority(&vec![1; 10]), Err(QueueError::MalformedKey));
}

#[test]
fn record_is_length_prefixed() {
    assert_eq!(encode_record(&vec![0, 0]), Ok(vec![2, 0, 0]));
    assert_eq!(encode_record(&vec![]), Ok(vec![0]));
    assert_eq!(encode_record(&vec![9; 255]).unwrap().len(), 256);
    assert_eq!(
        encode_record(&vec![9; 256]),
        Err(QueueError::PayloadTooLarge)
    );
}

#[test]
fn record_round_trips() {
    for payload in [vec![], vec![7], vec![1, 2, 3], vec![0xab; 255]] {
        let rec = encode_record(&payload).unwrap();
        let (out, rest) = decode_front_record(&rec).unwrap();
        assert_eq!(out, payload);
        assert_eq!(rest, vec![]);
        assert_eq!(encode_record(&out).unwrap(), rec);
    }
}

#[test]
fn front_record_leaves_the_rest() {
    // two records: [1, 2, 3] then [4]
    let bucket = vec![2, 1, 2, 1, 4];
    let (payload, rest) = decode_front_record(&bucket).unwrap();
    assert_eq!(payload, vec![1, 2]);
    assert_eq!(rest, vec![1, 4]);
    let (payload2, rest2) = decode_front_record(&rest).unwrap();
    assert_eq!(payload2, vec![4]);
    assert_eq!(rest2, vec![]);
}

#[test]
fn truncated_record_is_malformed() {
    assert_eq!(
        decode_front_record(&vec![]),
        Err(QueueError::MalformedRecord)
    );
    assert_eq!(
        decode_front_record(&vec![3, 1]),
        Err(QueueError::MalformedRecord)
    );
    assert_eq!(
        decode_front_record(&vec![255]),
        Err(QueueError::MalformedRecord)
    );
}

#[test]
fn highest_priority_scan_finds_the_maximum_key() {
    let store = vec![
        (encode_priority(7), vec![1, 9]),
        (encode_priority(10000), vec![1, 3]),
        (encode_priority(42), vec![1, 5]),
    ];
    assert_eq!(get_highest_priority(&store), encode_priority(10000));
}

#[test]
fn highest_priority_scan_of_empty_store_is_the_zero_key() {
    let store = Vec::new();
    assert_eq!(get_highest_priority(&store), vec![0; 8]);
}
