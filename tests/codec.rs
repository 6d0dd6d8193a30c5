use libsql_wal_s3::error::DecodeError;
use libsql_wal_s3::key::SegmentKey;
use libsql_wal_s3::layout::{
    folder_key, segment_data_key, segment_from_listing, segment_index_key,
    segment_index_lookup_key,
};

#[test]
fn segment_key_encodes_complements() {
    let k = SegmentKey::new(0, 64);
    assert_eq!(k.to_string(), "18446744073709551615-18446744073709551551");
    let k = SegmentKey::new(64, 128);
    assert_eq!(k.to_string(), "18446744073709551551-18446744073709551487");
}

#[test]
fn segment_key_pads_to_twenty_digits() {
    let k = SegmentKey::new(u64::MAX, u64::MAX - 5);
    assert_eq!(k.to_string(), "00000000000000000000-00000000000000000005");
    let k = SegmentKey::new(u64::MAX - 9999999999999999999, 8446744073709551615);
    assert_eq!(k.to_string(), "09999999999999999999-10000000000000000000");
    for (s, e) in [(0u64, 0u64), (u64::MAX, u64::MAX), (8446744073709551616, 3)] {
        assert_eq!(SegmentKey::new(s, e).to_string().len(), 41);
    }
}

#[test]
fn segment_key_round_trips() {
    let pairs = [
        (0u64, 1u64),
        (0, 64),
        (64, 128),
        (1, u64::MAX),
        (12345678901234, 12345678909999),
        (8446744073709551615, 8446744073709551616),
        (u64::MAX - 1, u64::MAX),
    ];
    for (s, e) in pairs {
        let k = SegmentKey::new(s, e);
        assert_eq!(SegmentKey::from_str(&k.to_string()), Ok(k));
    }
}

#[test]
fn segment_key_order_is_reversed() {
    let starts = [0u64, 1, 63, 64, 1000, 8446744073709551615];
    for w in starts.windows(2) {
        let a = SegmentKey::new(w[0], 5).to_string();
        let b = SegmentKey::new(w[1], 900).to_string();
        assert!(a > b, "{a} should sort after {b}");
    }
    let a = SegmentKey::new(8446744073709551616, 0).to_string();
    let b = SegmentKey::new(u64::MAX, 0).to_string();
    assert!(a > b);
    let a = SegmentKey::new(0, 7).to_string();
    let b = SegmentKey::new(8446744073709551616, 7).to_string();
    assert!(a > b);
}

#[test]
fn segment_key_includes_is_half_open() {
    let k = SegmentKey::new(64, 128);
    assert!(!k.includes(63));
    assert!(k.includes(64));
    assert!(k.includes(127));
    assert!(!k.includes(128));
}

#[test]
fn segment_key_rejects_malformed() {
    let bad = [
        "",
        "abc",
        "18446744073709551615",
        "18446744073709551615-",
        "18446744073709551615_18446744073709551551",
        "1844674407370955161x-18446744073709551551",
        "18446744073709551615-184467440737095515",
        "18446744073709551615-184467440737095515510",
        "99999999999999999999-18446744073709551551",
        "000000000000000000-18446744073709551551",
        "00000000000000000000-0000000000000000000",
        "9999999999999999999-18446744073709551551",
        "18446744073709551615-9999999999999999999",
        "0000000000000000000-0000000000000000005",
        "18446744073709551615-18446744073709551551x",
    ];
    for s in bad {
        assert_eq!(SegmentKey::from_str(s), Err(DecodeError::InvalidKeyFormat), "{s}");
    }
}

#[test]
fn folder_and_object_keys() {
    let folder = folder_key("123456789", "foobarbaz");
    assert_eq!(folder, "ns-123456789:foobarbaz-v2");
    let k = SegmentKey::new(0, 64);
    assert_eq!(
        segment_data_key(&folder, &k),
        "ns-123456789:foobarbaz-v2/segments/18446744073709551615-18446744073709551551"
    );
    assert_eq!(
        segment_index_key(&folder, &k),
        "ns-123456789:foobarbaz-v2/indexes/18446744073709551615-18446744073709551551"
    );
    assert_eq!(
        segment_index_lookup_key(&folder, 63),
        "ns-123456789:foobarbaz-v2/indexes/18446744073709551552"
    );
    assert_eq!(
        segment_index_lookup_key(&folder, u64::MAX),
        "ns-123456789:foobarbaz-v2/indexes/00000000000000000000"
    );
}

#[test]
fn listing_is_read_within_the_folder() {
    let folder = folder_key("c", "ns");
    assert_eq!(segment_from_listing(&folder, None), Ok(None));
    let k = SegmentKey::new(10, 20);
    let idx = segment_index_key(&folder, &k);
    assert_eq!(segment_from_listing(&folder, Some(&idx)), Ok(Some(k)));
    let data = segment_data_key(&folder, &k);
    assert_eq!(segment_from_listing(&folder, Some(&data)), Ok(None));
    let other = segment_index_key(&folder_key("c", "other"), &k);
    assert_eq!(segment_from_listing(&folder, Some(&other)), Ok(None));
    assert_eq!(
        segment_from_listing(&folder, Some("ns-c:ns-v2/indexes/garbage")),
        Err(DecodeError::InvalidKeyFormat)
    );
}

#[test]
fn decoded_key_re_encodes_to_input() {
    let good = [
        "18446744073709551615-18446744073709551551",
        "00000000000000000000-00000000000000000005",
        "09999999999999999999-10000000000000000000",
        "10000000000000000000-00000000000000000000",
    ];
    for s in good {
        let k = SegmentKey::from_str(s).unwrap();
        assert_eq!(k.to_string(), s);
    }
}

#[test]
fn larger_end_sorts_first_for_equal_start() {
    let a = SegmentKey::new(64, 128).to_string();
    let b = SegmentKey::new(64, 100).to_string();
    assert!(a < b);
    let a = SegmentKey::new(5, 8446744073709551616).to_string();
    let b = SegmentKey::new(5, 10).to_string();
    assert!(a < b);
}
