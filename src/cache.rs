//! The decisions of a cache lookup-or-extract. The caller performs each store
//! operation and the extraction and hands the outcome to the next step:
//! `on_lookup` with what the store returned, then, on a miss, `on_extracted`
//! with the extracted features, then `on_stored` with the outcome of writing
//! the new entry.
use vstd::prelude::*;
use crate::codec::{CacheEntry, EntryView, MyKeyPoint, entry_bytes, lemma_cache_round_trip};
use crate::descriptor::Descriptor;

verus! {

/// A failure of the persistent store. It ends the run.
#[derive(Debug)]
pub struct StorageError {
    pub message: String,
}

/// The image at `path` could not be opened or decoded. The run goes on
/// without it.
#[derive(Debug)]
pub struct ExtractionError {
    pub path: String,
}

/// The keypoints and descriptors of one image, and whether they came from
/// the cache.
pub struct Features {
    pub keypoints: Vec<MyKeyPoint>,
    pub descriptors: Vec<Descriptor>,
    pub was_cached: bool,
}

/// What a cache lookup leads to.
pub enum Lookup {
    /// The stored entry, decoded.
    Cached(Features),
    /// Nothing usable is stored: the features must be extracted.
    Extract,
}

/// An extraction whose entry is still to be written to the store.
pub struct PendingStore {
    pub key: String,
    pub bytes: Vec<u8>,
    pub features: Features,
}

/// The entry that stored `bytes` encode, if any. An encoding determines its
/// entry (see `lemma_cache_round_trip`), so the choice is unique.
pub open spec fn cached_entry(bytes: Seq<u8>) -> Option<EntryView> {
    if exists|e: EntryView| entry_bytes(e) == bytes {
        Some(choose|e: EntryView| entry_bytes(e) == bytes)
    } else {
        None
    }
}

/// The entry written for `path` after extracting `keypoints` and `descriptors`.
pub open spec fn extracted_entry(
    path: Seq<char>,
    keypoints: Seq<MyKeyPoint>,
    descriptors: Seq<Descriptor>,
) -> EntryView {
    EntryView { path, keypoints, descriptors }
}

/// First step of a lookup-or-extract: decides from what the store returned
/// for the path. A store failure is passed on; a stored entry is decoded and
/// returned as cached; a missing entry, or one in a format that cannot be
/// decoded, asks for an extraction.
pub fn on_lookup(stored: Result<Option<Vec<u8>>, StorageError>) -> (r: Result<Lookup, StorageError>)
    ensures
        stored is Err <==> r is Err,
        stored matches Err(e) ==> r matches Err(e2) && e2.message@ == e.message@,
        stored matches Ok(None) ==> r matches Ok(Lookup::Extract),
        stored matches Ok(Some(b)) ==> match cached_entry(b@) {
            None => r matches Ok(Lookup::Extract),
            Some(v) => r matches Ok(Lookup::Cached(f)) && f.was_cached && f.keypoints@
                == v.keypoints && f.descriptors@ == v.descriptors,
        },
{
    match stored {
        Err(e) => Err(e),
        Ok(None) => Ok(Lookup::Extract),
        Ok(Some(bytes)) => match CacheEntry::deserialize(&bytes) {
            None => Ok(Lookup::Extract),
            Some(entry) => {
                let _n = bytes.len();
                proof {
                    let v = choose|e: EntryView| entry_bytes(e) == bytes@;
                    assert(entry_bytes(v) == bytes@);
                    lemma_cache_round_trip(entry@, v);
                }
                let CacheEntry { path: _, keypoints, descriptors } = entry;
                Ok(Lookup::Cached(Features { keypoints, descriptors, was_cached: true }))
            },
        },
    }
}

/// Second step, after a miss: the outcome of decoding the image and extracting
/// its features. A decoding failure becomes an `ExtractionError` for the path;
/// extracted features become the entry to write under the path.
pub fn on_extracted(
    path: String,
    extracted: Option<(Vec<MyKeyPoint>, Vec<Descriptor>)>,
) -> (r: Result<PendingStore, ExtractionError>)
    ensures
        extracted is None <==> r is Err,
        r matches Err(e) ==> e.path@ == path@,
        extracted matches Some(x) ==> r matches Ok(p) && p.key@ == path@ && p.bytes@ == entry_bytes(
            extracted_entry(path@, x.0@, x.1@),
        ) && p.features.keypoints@ == x.0@ && p.features.descriptors@ == x.1@
            && !p.features.was_cached,
{
    match extracted {
        None => Err(ExtractionError { path }),
        Some((keypoints, descriptors)) => {
            let key = path.clone();
            let entry = CacheEntry { path, keypoints, descriptors };
            let bytes = entry.serialize();
            let CacheEntry { path: _, keypoints, descriptors } = entry;
            Ok(PendingStore { key, bytes, features: Features { keypoints, descriptors, was_cached: false } })
        },
    }
}

/// Last step, after the write-through: a store failure is passed on, otherwise
/// the extracted features are the answer.
pub fn on_stored(pending: PendingStore, written: Result<(), StorageError>) -> (r: Result<
    Features,
    StorageError,
>)
    ensures
        written is Err <==> r is Err,
        written matches Err(e) ==> r matches Err(e2) && e2.message@ == e.message@,
        r matches Ok(f) ==> f.keypoints@ == pending.features.keypoints@ && f.descriptors@
            == pending.features.descriptors@ && f.was_cached == pending.features.was_cached,
{
    match written {
        Err(e) => Err(e),
        Ok(()) => Ok(pending.features),
    }
}

/// Idempotence: once the entry written after an extraction is in the store,
/// the next lookup of the path finds it and answers `Cached` with the same
/// keypoints and descriptors, so no second extraction takes place.
pub proof fn lemma_lookup_after_store(
    path: Seq<char>,
    keypoints: Seq<MyKeyPoint>,
    descriptors: Seq<Descriptor>,
)
    requires
        entry_bytes(extracted_entry(path, keypoints, descriptors)).len() <= usize::MAX,
    ensures
        cached_entry(entry_bytes(extracted_entry(path, keypoints, descriptors))) == Some(
            extracted_entry(path, keypoints, descriptors),
        ),
{
    let v = extracted_entry(path, keypoints, descriptors);
    let b = entry_bytes(v);
    assert(exists|e: EntryView| entry_bytes(e) == b);
    let c = choose|e: EntryView| entry_bytes(e) == b;
    lemma_cache_round_trip(v, c);
}

} // verus!
