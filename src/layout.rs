//! Where segments live in the bucket, and how a listing is read back.
//!
//! ```text
//! {folder}/segments/{segment key}   raw segment bytes
//! {folder}/indexes/{segment key}    sorted index of the segment
//! folder = ns-{cluster id}:{namespace}-v2
//! ```
use vstd::prelude::*;
use vstd::string::StrSliceExecFns;
use vstd::string::StringExecFns;

use crate::error::DecodeError;
use crate::key::{
    complement, decoded_key, encode_key, key_field, lemma_end_order_reversed,
    lemma_key_after_anchor, lemma_sorts_after_asymmetric, lemma_sorts_after_prefixed,
    lemma_start_order_reversed, sorts_after, well_formed_key, SegmentKey,
};

verus! {

pub open spec fn folder_spec(cluster_id: Seq<char>, namespace: Seq<char>) -> Seq<char> {
    seq!['n', 's', '-'] + cluster_id + seq![':'] + namespace + seq!['-', 'v', '2']
}

pub open spec fn segments_dir(folder: Seq<char>) -> Seq<char> {
    folder + seq!['/', 's', 'e', 'g', 'm', 'e', 'n', 't', 's', '/']
}

pub open spec fn indexes_dir(folder: Seq<char>) -> Seq<char> {
    folder + seq!['/', 'i', 'n', 'd', 'e', 'x', 'e', 's', '/']
}

pub open spec fn data_key_spec(folder: Seq<char>, k: SegmentKey) -> Seq<char> {
    segments_dir(folder) + encode_key(k.start_frame_no, k.end_frame_no)
}

pub open spec fn index_key_spec(folder: Seq<char>, k: SegmentKey) -> Seq<char> {
    indexes_dir(folder) + encode_key(k.start_frame_no, k.end_frame_no)
}

/// The anchor of the listing that looks for the segment of `frame_no`: a
/// partial index key holding only the start field.
pub open spec fn lookup_key_spec(folder: Seq<char>, frame_no: u64) -> Seq<char> {
    indexes_dir(folder) + key_field(complement(frame_no))
}

/// The segment that a listed object key names: `None` when the key lies
/// outside the index directory of `folder`, `Some(Err)` when the rest of it is
/// not a segment key.
pub open spec fn listed_segment(folder: Seq<char>, object_key: Seq<char>) -> Option<
    Result<SegmentKey, DecodeError>,
> {
    let dir = indexes_dir(folder);
    if dir.len() <= object_key.len() && object_key.subrange(0, dir.len() as int) == dir {
        let rest = object_key.subrange(dir.len() as int, object_key.len() as int);
        if well_formed_key(rest) {
            Some(Ok(decoded_key(rest)))
        } else {
            Some(Err(DecodeError::InvalidKeyFormat))
        }
    } else {
        None
    }
}

/// The folder of one namespace of one cluster.
pub fn folder_key(cluster_id: &str, namespace: &str) -> (r: String)
    ensures
        r@ == folder_spec(cluster_id@, namespace@),
{
    let mut out = String::new();
    out.append("ns-");
    out.append(cluster_id);
    out.append(":");
    out.append(namespace);
    out.append("-v2");
    proof {
        reveal_strlit("ns-");
        reveal_strlit(":");
        reveal_strlit("-v2");
        assert(out@ =~= folder_spec(cluster_id@, namespace@));
    }
    out
}

fn segments_dir_of(folder: &str) -> (r: String)
    ensures
        r@ == segments_dir(folder@),
{
    let mut out = String::from_str(folder);
    out.append("/segments/");
    proof {
        reveal_strlit("/segments/");
        assert(out@ =~= segments_dir(folder@));
    }
    out
}

fn indexes_dir_of(folder: &str) -> (r: String)
    ensures
        r@ == indexes_dir(folder@),
{
    let mut out = String::from_str(folder);
    out.append("/indexes/");
    proof {
        reveal_strlit("/indexes/");
        assert(out@ =~= indexes_dir(folder@));
    }
    out
}

/// Object key of the raw bytes of a segment.
pub fn segment_data_key(folder: &str, key: &SegmentKey) -> (r: String)
    ensures
        r@ == data_key_spec(folder@, *key),
{
    let mut out = segments_dir_of(folder);
    let k = key.to_string();
    out.append(k.as_str());
    out
}

/// Object key of the index of a segment.
pub fn segment_index_key(folder: &str, key: &SegmentKey) -> (r: String)
    ensures
        r@ == index_key_spec(folder@, *key),
{
    let mut out = indexes_dir_of(folder);
    let k = key.to_string();
    out.append(k.as_str());
    out
}

/// Listing anchor for `frame_no`: every index key of a segment starting at or
/// below `frame_no` sorts after it.
pub fn segment_index_lookup_key(folder: &str, frame_no: u64) -> (r: String)
    ensures
        r@ == lookup_key_spec(folder@, frame_no),
{
    let mut out = indexes_dir_of(folder);
    crate::key::push_key_field(&mut out, u64::MAX - frame_no);
    out
}

pub open spec fn key_view(k: Option<&str>) -> Option<Seq<char>> {
    match k {
        Some(k) => Some(k@),
        None => None,
    }
}

/// What the first key of a listing says: no segment, a segment, or a name
/// under the index directory that is not a segment key.
pub open spec fn located(folder: Seq<char>, first_key: Option<Seq<char>>) -> Result<
    Option<SegmentKey>,
    DecodeError,
> {
    match first_key {
        None => Ok(None),
        Some(k) => match listed_segment(folder, k) {
            None => Ok(None),
            Some(Ok(seg)) => Ok(Some(seg)),
            Some(Err(e)) => Err(e),
        },
    }
}

/// Reads the first key of a listing that started after a lookup key of
/// `folder`: the segment it names, `None` when the listing was empty or went
/// past the index directory of `folder`, and an error when the name under that
/// directory is not a segment key.
pub fn segment_from_listing(folder: &str, first_key: Option<&str>) -> (r: Result<
    Option<SegmentKey>,
    DecodeError,
>)
    ensures
        r == located(folder@, key_view(first_key)),
{
    match first_key {
        None => Ok(None),
        Some(k) => {
            let dir = indexes_dir_of(folder);
            if !starts_with(k, dir.as_str()) {
                return Ok(None);
            }
            let n = k.unicode_len();
            let d = dir.as_str().unicode_len();
            let rest = k.substring_char(d, n);
            match SegmentKey::from_str(rest) {
                Ok(seg) => Ok(Some(seg)),
                Err(e) => Err(e),
            }
        },
    }
}

fn starts_with(s: &str, prefix: &str) -> (r: bool)
    ensures
        r == (prefix@.len() <= s@.len() && s@.subrange(0, prefix@.len() as int) == prefix@),
{
    let n = s.unicode_len();
    let m = prefix.unicode_len();
    if m > n {
        return false;
    }
    let mut i: usize = 0;
    while i < m
        invariant
            i <= m <= n,
            n == s@.len(),
            m == prefix@.len(),
            s@.subrange(0, i as int) == prefix@.subrange(0, i as int),
        decreases m - i,
    {
        if s.get_char(i) != prefix.get_char(i) {
            assert(s@.subrange(0, m as int)[i as int] != prefix@[i as int]);
            return false;
        }
        assert(s@.subrange(0, i + 1) =~= s@.subrange(0, i as int).push(s@[i as int]));
        assert(prefix@.subrange(0, i + 1) =~= prefix@.subrange(0, i as int).push(prefix@[i as int]));
        i = i + 1;
    }
    assert(prefix@.subrange(0, m as int) =~= prefix@);
    true
}

/// The listing that starts after the lookup anchor of `frame_no` reaches the
/// index key of a segment exactly when the segment starts at or below
/// `frame_no`; the index key of a later segment sorts before the anchor.
pub proof fn lemma_lookup_reaches(folder: Seq<char>, k: SegmentKey, frame_no: u64)
    ensures
        sorts_after(index_key_spec(folder, k), lookup_key_spec(folder, frame_no))
            <==> k.start_frame_no <= frame_no,
        k.start_frame_no > frame_no ==> sorts_after(
            lookup_key_spec(folder, frame_no),
            index_key_spec(folder, k),
        ),
{
    lemma_key_after_anchor(k.start_frame_no, k.end_frame_no, frame_no);
    lemma_sorts_after_prefixed(
        indexes_dir(folder),
        encode_key(k.start_frame_no, k.end_frame_no),
        key_field(complement(frame_no)),
    );
    lemma_sorts_after_prefixed(
        indexes_dir(folder),
        key_field(complement(frame_no)),
        encode_key(k.start_frame_no, k.end_frame_no),
    );
}

/// Among the index keys of one folder, a segment that starts later is listed
/// first.
pub proof fn lemma_later_start_listed_first(folder: Seq<char>, earlier: SegmentKey, later: SegmentKey)
    requires
        earlier.start_frame_no < later.start_frame_no,
    ensures
        sorts_after(index_key_spec(folder, earlier), index_key_spec(folder, later)),
{
    lemma_start_order_reversed(
        earlier.start_frame_no,
        earlier.end_frame_no,
        later.start_frame_no,
        later.end_frame_no,
    );
    lemma_sorts_after_prefixed(
        indexes_dir(folder),
        encode_key(earlier.start_frame_no, earlier.end_frame_no),
        encode_key(later.start_frame_no, later.end_frame_no),
    );
}

/// Every index key of a folder sorts after the lookup anchor of the last frame.
pub proof fn lemma_meta_anchor_before_all(folder: Seq<char>, k: SegmentKey)
    ensures
        sorts_after(index_key_spec(folder, k), lookup_key_spec(folder, u64::MAX)),
{
    lemma_lookup_reaches(folder, k, u64::MAX);
}

/// `k` is the segment of `stored` that a lookup of `frame_no` is after: it
/// starts at or below `frame_no`, and no stored segment at or below
/// `frame_no` starts later, or starts as late and ends later.
pub open spec fn latest_at_or_below(stored: Set<SegmentKey>, k: SegmentKey, frame_no: u64) -> bool {
    &&& stored.contains(k)
    &&& k.start_frame_no <= frame_no
    &&& forall|o: SegmentKey|
        stored.contains(o) && o.start_frame_no <= frame_no ==> o.start_frame_no < k.start_frame_no
            || (o.start_frame_no == k.start_frame_no && o.end_frame_no <= k.end_frame_no)
}

/// Lookup correctness: of the index keys of the segments `stored` in a
/// folder, the first that sorts after the lookup anchor of `frame_no` is the
/// key of the latest segment at or below `frame_no`. Its key sorts after the
/// anchor, and the key of every other stored segment sorts either before the
/// anchor or after that key.
pub proof fn lemma_lookup_finds_latest(
    folder: Seq<char>,
    stored: Set<SegmentKey>,
    k: SegmentKey,
    frame_no: u64,
)
    requires
        latest_at_or_below(stored, k, frame_no),
    ensures
        sorts_after(index_key_spec(folder, k), lookup_key_spec(folder, frame_no)),
        forall|o: SegmentKey|
            stored.contains(o) && o != k ==> sorts_after(
                lookup_key_spec(folder, frame_no),
                #[trigger] index_key_spec(folder, o),
            ) || sorts_after(index_key_spec(folder, o), index_key_spec(folder, k)),
{
    lemma_lookup_reaches(folder, k, frame_no);
    assert forall|o: SegmentKey| stored.contains(o) && o != k implies sorts_after(
        lookup_key_spec(folder, frame_no),
        #[trigger] index_key_spec(folder, o),
    ) || sorts_after(index_key_spec(folder, o), index_key_spec(folder, k)) by {
        lemma_lookup_reaches(folder, o, frame_no);
        if o.start_frame_no <= frame_no {
            if o.start_frame_no < k.start_frame_no {
                lemma_later_start_listed_first(folder, o, k);
            } else {
                lemma_end_order_reversed(k.start_frame_no, o.end_frame_no, k.end_frame_no);
                lemma_sorts_after_prefixed(
                    indexes_dir(folder),
                    encode_key(o.start_frame_no, o.end_frame_no),
                    encode_key(k.start_frame_no, k.end_frame_no),
                );
            }
        }
    }
}

/// Meta correctness: the listing from the anchor of the last frame reaches
/// every index key of the folder, and the first of them is the key of the
/// segment that starts last (and, of those, ends last).
pub proof fn lemma_meta_finds_latest(folder: Seq<char>, stored: Set<SegmentKey>, k: SegmentKey)
    requires
        latest_at_or_below(stored, k, u64::MAX),
    ensures
        sorts_after(index_key_spec(folder, k), lookup_key_spec(folder, u64::MAX)),
        forall|o: SegmentKey|
            stored.contains(o) && o != k ==> sorts_after(
                #[trigger] index_key_spec(folder, o),
                index_key_spec(folder, k),
            ),
{
    lemma_lookup_finds_latest(folder, stored, k, u64::MAX);
    assert forall|o: SegmentKey| stored.contains(o) && o != k implies sorts_after(
        #[trigger] index_key_spec(folder, o),
        index_key_spec(folder, k),
    ) by {
        lemma_meta_anchor_before_all(folder, o);
        lemma_sorts_after_asymmetric(
            index_key_spec(folder, o),
            lookup_key_spec(folder, u64::MAX),
        );
    }
}

} // verus!
