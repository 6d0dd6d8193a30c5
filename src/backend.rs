//! The decisions of the segment store around its object-store calls: which
//! keys a segment is written under, what a lookup listing means for a fetch or
//! for the namespace's metadata, and how an index object is read.
use vstd::prelude::*;

use crate::error::{DecodeError, StorageError};
use crate::key::SegmentKey;
use crate::layout::{
    data_key_spec, folder_key, folder_spec, index_key_spec, key_view, located, lookup_key_spec,
    segment_data_key, segment_from_listing, segment_index_key, segment_index_lookup_key,
};

verus! {

/// Bucket and cluster that objects are stored for.
#[derive(Debug, Clone)]
pub struct S3Config {
    pub bucket: String,
    pub cluster_id: String,
}

impl S3Config {
    pub fn new(bucket: String, cluster_id: String) -> (r: S3Config)
        ensures
            r.bucket == bucket,
            r.cluster_id == cluster_id,
    {
        S3Config { bucket, cluster_id }
    }
}

/// The part of a segment's metadata that decides where it is stored.
#[derive(Debug, Clone)]
pub struct SegmentMeta {
    pub namespace: String,
    pub start_frame_no: u64,
    pub end_frame_no: u64,
}

/// Metadata of a namespace, derived from its most recent segment.
#[derive(Debug, Clone, Copy, PartialEq, Eq, Structural)]
pub struct DbMeta {
    pub max_frame_no: u64,
}

/// The two objects that storing a segment writes.
#[derive(Debug)]
pub struct StorePlan {
    pub data_key: String,
    pub index_key: String,
}

/// The segment that a fetch reads, and its two objects.
#[derive(Debug)]
pub struct FetchPlan {
    pub segment: SegmentKey,
    pub data_key: String,
    pub index_key: String,
}

/// How the creation of the bucket went.
#[derive(Debug)]
pub enum BucketCreation {
    Created,
    AlreadyExists,
    AlreadyOwnedByYou,
    Failed(String),
}

pub open spec fn meta_key(meta: SegmentMeta) -> SegmentKey {
    SegmentKey { start_frame_no: meta.start_frame_no, end_frame_no: meta.end_frame_no }
}

pub open spec fn store_data_key(config: S3Config, meta: SegmentMeta) -> Seq<char> {
    data_key_spec(folder_spec(config.cluster_id@, meta.namespace@), meta_key(meta))
}

pub open spec fn store_index_key(config: S3Config, meta: SegmentMeta) -> Seq<char> {
    index_key_spec(folder_spec(config.cluster_id@, meta.namespace@), meta_key(meta))
}

/// The outcome of a fetch of `frame_no` once the lookup listing answered:
/// the located segment when it holds the frame.
pub open spec fn fetch_outcome(
    folder: Seq<char>,
    first_key: Option<Seq<char>>,
    frame_no: u64,
) -> Result<SegmentKey, StorageError> {
    match located(folder, first_key) {
        Err(e) => Err(StorageError::Decode(e)),
        Ok(None) => Err(StorageError::FrameNotFound(frame_no)),
        Ok(Some(seg)) => if seg.spec_includes(frame_no) {
            Ok(seg)
        } else {
            Err(StorageError::SegmentGap { frame_no, segment: seg })
        },
    }
}

/// The metadata of a namespace once the listing for the last frame answered.
pub open spec fn meta_outcome(folder: Seq<char>, first_key: Option<Seq<char>>) -> Result<
    DbMeta,
    StorageError,
> {
    match located(folder, first_key) {
        Err(e) => Err(StorageError::Decode(e)),
        Ok(None) => Ok(DbMeta { max_frame_no: 0 }),
        Ok(Some(seg)) => Ok(DbMeta { max_frame_no: seg.end_frame_no }),
    }
}

impl SegmentKey {
    pub fn from_meta(meta: &SegmentMeta) -> (r: SegmentKey)
        ensures
            r == meta_key(*meta),
    {
        SegmentKey { start_frame_no: meta.start_frame_no, end_frame_no: meta.end_frame_no }
    }
}

/// The folder that `namespace` is stored in under `config`.
pub fn namespace_folder(config: &S3Config, namespace: &str) -> (r: String)
    ensures
        r@ == folder_spec(config.cluster_id@, namespace@),
{
    folder_key(config.cluster_id.as_str(), namespace)
}

/// Where the data and the index of the segment `meta` are written.
pub fn plan_store(config: &S3Config, meta: &SegmentMeta) -> (r: StorePlan)
    ensures
        r.data_key@ == store_data_key(*config, *meta),
        r.index_key@ == store_index_key(*config, *meta),
{
    let folder = namespace_folder(config, meta.namespace.as_str());
    let key = SegmentKey::from_meta(meta);
    let data_key = segment_data_key(folder.as_str(), &key);
    let index_key = segment_index_key(folder.as_str(), &key);
    StorePlan { data_key, index_key }
}

/// The key after which the lookup listing for `frame_no` starts.
pub fn fetch_lookup_key(folder: &str, frame_no: u64) -> (r: String)
    ensures
        r@ == lookup_key_spec(folder@, frame_no),
{
    segment_index_lookup_key(folder, frame_no)
}

/// The key after which the listing for the most recent segment starts: every
/// index key of the folder sorts after it (`lemma_meta_anchor_before_all`).
pub fn meta_lookup_key(folder: &str) -> (r: String)
    ensures
        r@ == lookup_key_spec(folder@, u64::MAX),
{
    segment_index_lookup_key(folder, u64::MAX)
}

/// Decides a fetch of `frame_no` from the first key of its lookup listing:
/// the segment to read with its two objects, `FrameNotFound` when none was
/// located, `SegmentGap` when the located one does not hold the frame.
pub fn plan_fetch(folder: &str, first_key: Option<&str>, frame_no: u64) -> (r: Result<
    FetchPlan,
    StorageError,
>)
    ensures
        match fetch_outcome(folder@, key_view(first_key), frame_no) {
            Ok(seg) => r is Ok && r->Ok_0.segment == seg && r->Ok_0.data_key@ == data_key_spec(
                folder@,
                seg,
            ) && r->Ok_0.index_key@ == index_key_spec(folder@, seg),
            Err(e) => r == Err::<FetchPlan, StorageError>(e),
        },
{
    match segment_from_listing(folder, first_key) {
        Err(e) => Err(StorageError::Decode(e)),
        Ok(None) => Err(StorageError::FrameNotFound(frame_no)),
        Ok(Some(segment)) => {
            if segment.includes(frame_no) {
                let data_key = segment_data_key(folder, &segment);
                let index_key = segment_index_key(folder, &segment);
                Ok(FetchPlan { segment, data_key, index_key })
            } else {
                Err(StorageError::SegmentGap { frame_no, segment })
            }
        },
    }
}

/// The metadata of a namespace from the first key of the listing that starts
/// at `meta_lookup_key`: the end frame of the most recent segment, or 0 when
/// the namespace has none.
pub fn meta_from_listing(folder: &str, first_key: Option<&str>) -> (r: Result<
    DbMeta,
    StorageError,
>)
    ensures
        r == meta_outcome(folder@, key_view(first_key)),
{
    match segment_from_listing(folder, first_key) {
        Err(e) => Err(StorageError::Decode(e)),
        Ok(None) => Ok(DbMeta { max_frame_no: 0 }),
        Ok(Some(segment)) => Ok(DbMeta { max_frame_no: segment.end_frame_no }),
    }
}

/// A bucket that exists already is fine; any other failure to create it is a
/// configuration error.
pub fn bucket_ready(outcome: BucketCreation) -> (r: Result<(), StorageError>)
    ensures
        match outcome {
            BucketCreation::Failed(m) => r == Err::<(), StorageError>(
                StorageError::Configuration(m),
            ),
            _ => r == Ok::<(), StorageError>(()),
        },
{
    match outcome {
        BucketCreation::Failed(m) => Err(StorageError::Configuration(m)),
        _ => Ok(()),
    }
}

#[verifier::external_type_specification]
#[verifier::external_body]
#[verifier::reject_recursive_types(D)]
pub struct ExFstMap<D>(fst::Map<D>);

#[verifier::external_type_specification]
#[verifier::external_body]
pub struct ExFstError(fst::Error);

/// Whether `fst::Map::new` accepts these bytes as a map.
pub uninterp spec fn fst_accepts(bytes: Seq<u8>) -> bool;

/// Relies on `fst::Map::new`: its verdict depends on the bytes alone, and it
/// refuses anything shorter than 36 bytes.
#[verifier::external_body]
fn fst_map_new(bytes: Vec<u8>) -> (r: Result<fst::Map<Vec<u8>>, fst::Error>)
    ensures
        r is Ok <==> fst_accepts(bytes@),
        bytes@.len() < 36 ==> r is Err,
{
    fst::Map::new(bytes)
}

/// Reads an index object as a sorted index map.
pub fn parse_index(bytes: Vec<u8>) -> (r: Result<fst::Map<Vec<u8>>, StorageError>)
    ensures
        r is Ok <==> fst_accepts(bytes@),
        bytes@.len() < 36 ==> r is Err,
        r is Err ==> r == Err::<fst::Map<Vec<u8>>, StorageError>(
            StorageError::Decode(DecodeError::InvalidIndex),
        ),
{
    match fst_map_new(bytes) {
        Ok(map) => Ok(map),
        Err(_) => Err(StorageError::Decode(DecodeError::InvalidIndex)),
    }
}

/// Storing the same (namespace, start, end) twice writes both times to the
/// same two objects, so the second store replaces the first; and the fetch of
/// a frame that this segment holds reads exactly those objects.
pub proof fn lemma_store_overwrites(config: S3Config, first: SegmentMeta, second: SegmentMeta)
    requires
        first.namespace@ == second.namespace@,
        first.start_frame_no == second.start_frame_no,
        first.end_frame_no == second.end_frame_no,
    ensures
        store_data_key(config, first) == store_data_key(config, second),
        store_index_key(config, first) == store_index_key(config, second),
        store_data_key(config, second) == data_key_spec(
            folder_spec(config.cluster_id@, second.namespace@),
            meta_key(second),
        ),
        store_index_key(config, second) == index_key_spec(
            folder_spec(config.cluster_id@, second.namespace@),
            meta_key(second),
        ),
{
}

} // verus!
