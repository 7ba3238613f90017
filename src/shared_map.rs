use vstd::prelude::*;

use shared_hashmap::SharedMemoryHashMap;

verus! {

#[verifier::external_type_specification]
#[verifier::external_body]
#[verifier::reject_recursive_types(K)]
#[verifier::reject_recursive_types(V)]
pub struct ExSharedMemoryHashMap<K, V>(SharedMemoryHashMap<K, V>);

#[verifier::external_type_specification]
#[verifier::external_body]
pub struct ExSharedMapError(shared_hashmap::Error);

/// The rows that a shared map holds: key text to value text. The model
/// follows the map through the calls made on this handle; each call runs
/// under the map's cross-process lock, and rows written by other processes
/// between calls are outside what the contracts below describe.
pub uninterp spec fn stored_rows(m: SharedMemoryHashMap<String, String>) -> Map<Seq<char>, Seq<char>>;

/// Bytes of the segment in use: the lock, the map header and the stored
/// rows (what `SharedMemoryHashMap::used` reports).
pub uninterp spec fn stored_used(m: SharedMemoryHashMap<String, String>) -> nat;

/// Bytes of the row area still free (what `SharedMemoryHashMap::free`
/// reports).
pub uninterp spec fn stored_free(m: SharedMemoryHashMap<String, String>) -> nat;

/// Bytes that a row with this key and value occupies in the map (what
/// `SharedMemoryHashMap::size_of` reports in this build).
pub uninterp spec fn entry_bytes(key: Seq<char>, value: Seq<char>) -> nat;

/// Removing a row is memory-safe in the shared map: the map closes the gap
/// with a copy as long as everything in use, starting after the removed
/// row, and that copy stays inside the segment only while no more than
/// half of it is in use.
pub open spec fn removal_safe_at(m: SharedMemoryHashMap<String, String>) -> bool {
    stored_used(m) <= stored_free(m)
}

/// Relies on `SharedMemoryHashMap::contains_key`: under the map's lock it
/// compares the key with every stored key, and changes nothing. (Like every
/// method of the map, it panics if the lock cannot be taken.)
#[verifier::external_body]
pub(crate) fn map_contains_key(m: &mut SharedMemoryHashMap<String, String>, key: &String) -> (r: bool)
    ensures
        r == stored_rows(*old(m)).contains_key(key@),
        stored_rows(*final(m)) == stored_rows(*old(m)),
        stored_used(*final(m)) == stored_used(*old(m)),
        stored_free(*final(m)) == stored_free(*old(m)),
{
    m.contains_key(key)
}

/// Relies on `SharedMemoryHashMap::size_of`: the bytes a row takes.
#[verifier::external_body]
pub(crate) fn map_entry_bytes(key: &String, value: &String) -> (r: usize)
    ensures
        r == entry_bytes(key@, value@),
{
    SharedMemoryHashMap::<String, String>::size_of(key, value)
}

/// Relies on `SharedMemoryHashMap::used`.
#[verifier::external_body]
pub(crate) fn map_used(m: &SharedMemoryHashMap<String, String>) -> (r: usize)
    ensures
        r == stored_used(*m),
{
    m.used()
}

/// Relies on `SharedMemoryHashMap::free`.
#[verifier::external_body]
pub(crate) fn map_free(m: &SharedMemoryHashMap<String, String>) -> (r: usize)
    ensures
        r == stored_free(*m),
{
    m.free()
}

/// Relies on `SharedMemoryHashMap::try_insert` for a new key whose row
/// fits in the free space: then it neither drops an existing row nor
/// evicts any (so it never reaches the map's row removal), stores the row
/// after the others, and reports `Ok(None)`.
#[verifier::external_body]
pub(crate) fn map_try_insert(m: &mut SharedMemoryHashMap<String, String>, key: String, value: String) -> (r:
    Result<Option<String>, shared_hashmap::Error>)
    requires
        !stored_rows(*old(m)).contains_key(key@),
        entry_bytes(key@, value@) <= stored_free(*old(m)),
    ensures
        r matches Ok(None),
        stored_rows(*final(m)) == stored_rows(*old(m)).insert(key@, value@),
        stored_used(*final(m)) == stored_used(*old(m)) + entry_bytes(key@, value@),
        stored_free(*final(m)) == stored_free(*old(m)) - entry_bytes(key@, value@),
{
    m.try_insert(key, value)
}

/// Relies on `SharedMemoryHashMap::remove`: takes out the row with that key,
/// if any, shifting the rows stored after it down over it, and frees its
/// bytes. The value it returns is read after that shift, so it is not the
/// removed row's value whenever a later row exists; only whether a row was
/// there is relied on.
#[verifier::external_body]
pub(crate) fn map_remove(m: &mut SharedMemoryHashMap<String, String>, key: &String) -> (r: Option<String>)
    requires
        removal_safe_at(*old(m)),
    ensures
        stored_rows(*final(m)) == stored_rows(*old(m)).remove(key@),
        r is Some <==> stored_rows(*old(m)).contains_key(key@),
        stored_used(*final(m)) <= stored_used(*old(m)),
        stored_free(*final(m)) >= stored_free(*old(m)),
{
    m.remove(key)
}

/// Relies on `SharedMemoryHashMap::peak`: under the map's lock it returns
/// the value stored with that key, if any, and changes nothing.
#[verifier::external_body]
pub(crate) fn map_peek(m: &SharedMemoryHashMap<String, String>, key: &String) -> (r: Option<String>)
    ensures
        match r {
            Some(v) => stored_rows(*m).contains_key(key@) && v@ == stored_rows(*m)[key@],
            None => !stored_rows(*m).contains_key(key@),
        },
{
    m.peak(key)
}

/// Relies on `SharedMemoryHashMap::iter`: under the map's lock it yields
/// every stored row once; keys are unique in the map.
#[verifier::external_body]
pub(crate) fn map_snapshot(m: &SharedMemoryHashMap<String, String>) -> (r: Vec<(String, String)>)
    ensures
        forall|i: int|
            0 <= i < r.len() ==> {
                &&& stored_rows(*m).contains_key((#[trigger] r@[i]).0@)
                &&& stored_rows(*m)[r@[i].0@] == r@[i].1@
            },
        forall|k: Seq<char>|
            #[trigger] stored_rows(*m).contains_key(k) ==> exists|i: int| 0 <= i < r.len() && (#[trigger] r@[i]).0@ == k,
        forall|i: int, j: int| 0 <= i < j < r.len() ==> (#[trigger] r@[i]).0@ != (#[trigger] r@[j]).0@,
{
    m.iter().collect()
}

/// How an attempt to open or create the named segment went wrong.
#[derive(Clone, Copy, Debug, PartialEq, Eq, Structural)]
pub enum SegmentFailure {
    /// No segment of that name exists (yet).
    NotFound,
    /// A segment of that name already exists.
    AlreadyExists,
    /// Anything else.
    Other,
}

/// The stage of opening the shared segment.
#[derive(Clone, Copy, Debug, PartialEq, Eq, Structural)]
pub enum OpenStage {
    /// Attaching to an existing segment, before any creation was tried.
    FirstAttach,
    /// Creating the segment after attaching found none.
    Create,
    /// Attaching again after losing the creation race.
    RetryAttach,
}

/// What to do after a failed stage.
#[derive(Clone, Copy, Debug, PartialEq, Eq, Structural)]
pub enum OpenAction {
    Create,
    Attach,
    Fail,
}

/// Attach first; create when nothing is there; if creation loses the race
/// to another process, attach to the segment that process made. Every other
/// failure ends the attempt.
pub open spec fn open_action_spec(stage: OpenStage, failure: SegmentFailure) -> OpenAction {
    match (stage, failure) {
        (OpenStage::FirstAttach, SegmentFailure::NotFound) => OpenAction::Create,
        (OpenStage::Create, SegmentFailure::AlreadyExists) => OpenAction::Attach,
        _ => OpenAction::Fail,
    }
}

/// The next step of `open_or_create` after `stage` failed with `failure`.
pub fn next_open_action(stage: OpenStage, failure: SegmentFailure) -> (r: OpenAction)
    ensures
        r == open_action_spec(stage, failure),
{
    match (stage, failure) {
        (OpenStage::FirstAttach, SegmentFailure::NotFound) => OpenAction::Create,
        (OpenStage::Create, SegmentFailure::AlreadyExists) => OpenAction::Attach,
        _ => OpenAction::Fail,
    }
}

/// Whether a mapping of `total_len` bytes holds the lock region followed by
/// the map header.
pub fn region_fits(total_len: usize, lock_len: usize, header_len: usize) -> (r: bool)
    ensures
        r == (total_len as int >= lock_len as int + header_len as int),
{
    total_len >= lock_len && total_len - lock_len >= header_len
}

} // verus!
