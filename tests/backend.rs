use std::collections::BTreeMap;
use std::ops::Bound;

use fst::MapBuilder;
use libsql_wal_s3::backend::{
    bucket_ready, meta_from_listing, meta_lookup_key, namespace_folder, parse_index, plan_fetch,
    plan_store, BucketCreation, DbMeta, S3Config, SegmentMeta,
};
use libsql_wal_s3::error::{DecodeError, StorageError};
use libsql_wal_s3::key::SegmentKey;
use libsql_wal_s3::layout::segment_index_lookup_key;

/// An in-memory bucket standing in for the object store.
struct Bucket {
    objects: BTreeMap<String, Vec<u8>>,
}

impl Bucket {
    fn new() -> Self {
        Bucket { objects: BTreeMap::new() }
    }

    fn first_after(&self, after: &str) -> Option<String> {
        self.objects
            .range::<str, _>((Bound::Excluded(after), Bound::Unbounded))
            .next()
            .map(|(k, _)| k.clone())
    }

    fn store(&mut self, config: &S3Config, meta: &SegmentMeta, data: Vec<u8>, index: Vec<u8>) {
        let plan = plan_store(config, meta);
        self.objects.insert(plan.data_key, data);
        self.objects.insert(plan.index_key, index);
    }

    fn meta(&self, config: &S3Config, namespace: &str) -> Result<DbMeta, StorageError> {
        let folder = namespace_folder(config, namespace);
        let first = self.first_after(&meta_lookup_key(&folder));
        meta_from_listing(&folder, first.as_deref())
    }

    fn fetch(
        &self,
        config: &S3Config,
        namespace: &str,
        frame_no: u64,
    ) -> Result<(Vec<u8>, fst::Map<Vec<u8>>), StorageError> {
        let folder = namespace_folder(config, namespace);
        let first = self.first_after(&segment_index_lookup_key(&folder, frame_no));
        let plan = plan_fetch(&folder, first.as_deref(), frame_no)?;
        let data = self.objects[&plan.data_key].clone();
        let index = parse_index(self.objects[&plan.index_key].clone())?;
        Ok((data, index))
    }
}

fn index_of(key: u32, value: u64) -> Vec<u8> {
    let mut builder = MapBuilder::memory();
    builder.insert(key.to_be_bytes(), value).unwrap();
    builder.into_inner().unwrap()
}

fn meta(namespace: &str, start: u64, end: u64) -> SegmentMeta {
    SegmentMeta { namespace: namespace.into(), start_frame_no: start, end_frame_no: end }
}

#[test]
fn s3_basic() {
    let config = S3Config::new("testbucket".into(), "123456789".into());
    let mut bucket = Bucket::new();
    let ns = "foobarbaz";
    let payload = vec![123u8; 8092];

    bucket.store(&config, &meta(ns, 0, 64), payload.clone(), index_of(42, 42));
    assert_eq!(bucket.meta(&config, ns).unwrap().max_frame_no, 64);

    bucket.store(&config, &meta(ns, 64, 128), payload.clone(), index_of(44, 44));
    assert_eq!(bucket.meta(&config, ns).unwrap().max_frame_no, 128);

    let (_, index) = bucket.fetch(&config, ns, 1).unwrap();
    assert_eq!(index.get(42u32.to_be_bytes()).unwrap(), 42);
    let (_, index) = bucket.fetch(&config, ns, 63).unwrap();
    assert_eq!(index.get(42u32.to_be_bytes()).unwrap(), 42);
    let (_, index) = bucket.fetch(&config, ns, 64).unwrap();
    assert_eq!(index.get(44u32.to_be_bytes()).unwrap(), 44);
    let (_, index) = bucket.fetch(&config, ns, 65).unwrap();
    assert_eq!(index.get(44u32.to_be_bytes()).unwrap(), 44);
}

#[test]
fn lookup_finds_covering_segment() {
    let config = S3Config::new("b".into(), "c".into());
    let mut bucket = Bucket::new();
    bucket.store(&config, &meta("n", 0, 64), vec![1], index_of(1, 1));
    bucket.store(&config, &meta("n", 64, 128), vec![2], index_of(2, 2));
    let folder = namespace_folder(&config, "n");
    for (frame, want) in [(1u64, (0u64, 64u64)), (63, (0, 64)), (64, (64, 128)), (65, (64, 128))] {
        let first = bucket.first_after(&segment_index_lookup_key(&folder, frame));
        let plan = plan_fetch(&folder, first.as_deref(), frame).unwrap();
        assert_eq!(plan.segment, SegmentKey::new(want.0, want.1));
    }
}

#[test]
fn fetch_past_last_segment_is_a_gap() {
    let config = S3Config::new("b".into(), "c".into());
    let mut bucket = Bucket::new();
    bucket.store(&config, &meta("n", 0, 64), vec![1], index_of(1, 1));
    bucket.store(&config, &meta("n", 64, 128), vec![2], index_of(2, 2));
    match bucket.fetch(&config, "n", 500) {
        Err(StorageError::SegmentGap { frame_no, segment }) => {
            assert_eq!(frame_no, 500);
            assert_eq!(segment, SegmentKey::new(64, 128));
        }
        other => panic!("unexpected {:?}", other.map(|(d, _)| d)),
    }
}

#[test]
fn fetch_in_empty_namespace_is_not_found() {
    let config = S3Config::new("b".into(), "c".into());
    let mut bucket = Bucket::new();
    bucket.store(&config, &meta("other", 0, 64), vec![1], index_of(1, 1));
    match bucket.fetch(&config, "n", 5) {
        Err(e) => assert_eq!(e, StorageError::FrameNotFound(5)),
        Ok(_) => panic!("found a segment in an empty namespace"),
    }
    assert_eq!(bucket.meta(&config, "n").unwrap(), DbMeta { max_frame_no: 0 });
}

#[test]
fn meta_reports_latest_segment_end() {
    let config = S3Config::new("b".into(), "c".into());
    let mut bucket = Bucket::new();
    assert_eq!(bucket.meta(&config, "n").unwrap().max_frame_no, 0);
    bucket.store(&config, &meta("n", 0, 64), vec![1], index_of(1, 1));
    bucket.store(&config, &meta("n", 64, 128), vec![2], index_of(2, 2));
    assert_eq!(bucket.meta(&config, "n").unwrap().max_frame_no, 128);
}

#[test]
fn store_twice_keeps_second_payload() {
    let config = S3Config::new("b".into(), "c".into());
    let mut bucket = Bucket::new();
    let m = meta("n", 0, 64);
    let first = plan_store(&config, &m);
    bucket.store(&config, &m, vec![1, 1, 1], index_of(7, 7));
    bucket.store(&config, &m, vec![2, 2], index_of(9, 9));
    let second = plan_store(&config, &m);
    assert_eq!(first.data_key, second.data_key);
    assert_eq!(first.index_key, second.index_key);
    assert_eq!(bucket.objects.len(), 2);
    let (data, index) = bucket.fetch(&config, "n", 10).unwrap();
    assert_eq!(data, vec![2, 2]);
    assert_eq!(index.get(9u32.to_be_bytes()), Some(9));
    assert_eq!(index.get(7u32.to_be_bytes()), None);
}

#[test]
fn fetch_reports_malformed_key() {
    let folder = namespace_folder(&S3Config::new("b".into(), "c".into()), "n");
    let listed = format!("{folder}/indexes/not-a-key");
    match plan_fetch(&folder, Some(&listed), 3) {
        Err(e) => assert_eq!(e, StorageError::Decode(DecodeError::InvalidKeyFormat)),
        Ok(p) => panic!("unexpected plan {:?}", p),
    }
    assert_eq!(
        meta_from_listing(&folder, Some(&listed)),
        Err(StorageError::Decode(DecodeError::InvalidKeyFormat))
    );
}

#[test]
fn index_parse_refuses_garbage() {
    match parse_index(vec![1, 2, 3]) {
        Err(e) => assert_eq!(e, StorageError::Decode(DecodeError::InvalidIndex)),
        Ok(_) => panic!("accepted three bytes"),
    }
    match parse_index(vec![0u8; 64]) {
        Err(e) => assert_eq!(e, StorageError::Decode(DecodeError::InvalidIndex)),
        Ok(_) => panic!("accepted zeroes"),
    }
    let index = parse_index(index_of(42, 4242)).unwrap();
    assert_eq!(index.get(42u32.to_be_bytes()), Some(4242));
}

#[test]
fn bucket_creation_outcomes() {
    assert_eq!(bucket_ready(BucketCreation::Created), Ok(()));
    assert_eq!(bucket_ready(BucketCreation::AlreadyExists), Ok(()));
    assert_eq!(bucket_ready(BucketCreation::AlreadyOwnedByYou), Ok(()));
    assert_eq!(
        bucket_ready(BucketCreation::Failed("denied".into())),
        Err(StorageError::Configuration("denied".into()))
    );
}

#[test]
fn lookup_and_meta_across_all_frame_numbers() {
    let config = S3Config::new("b".into(), "c".into());
    let mut bucket = Bucket::new();
    bucket.store(&config, &meta("n", 0, 10), vec![1], index_of(1, 1));
    match bucket.fetch(&config, "n", 8446744073709551621) {
        Err(StorageError::SegmentGap { segment, .. }) => {
            assert_eq!(segment, SegmentKey::new(0, 10))
        }
        other => panic!("unexpected {:?}", other.map(|(d, _)| d)),
    }
    bucket.store(
        &config,
        &meta("n", 8446744073709551616, 8446744073709551700),
        vec![2],
        index_of(2, 2),
    );
    assert_eq!(bucket.meta(&config, "n").unwrap().max_frame_no, 8446744073709551700);
    let (data, _) = bucket.fetch(&config, "n", 8446744073709551620).unwrap();
    assert_eq!(data, vec![2]);
    let (data, _) = bucket.fetch(&config, "n", 9).unwrap();
    assert_eq!(data, vec![1]);
}
