use vstd::prelude::*;
use crate::object::bytes_equal;

verus! {

/// Lazy borrowed access to blob data.
pub trait ReadDataOnce<'a, E> {
    /// Returns the contents of this blob.
    ///
    /// This potentially performs IO and other expensive operations
    /// and should only be called when necessary.
    fn read_data(self) -> Result<&'a [u8], E>;
}

/// What a comparison reads of an index entry: the size recorded when the file
/// was staged and the id of the staged blob, SHA-256 if it has 32 bytes, else SHA-1.
pub struct IndexEntry {
    pub size: u32,
    pub id: Vec<u8>,
}

/// Whether `id` is a SHA-256 id rather than a SHA-1 one.
pub open spec fn is_sha256_id(id: Seq<u8>) -> bool {
    id.len() == 32
}

/// The id of the empty blob, under SHA-256 or under SHA-1.
pub open spec fn empty_blob_id(sha256: bool) -> Seq<u8> {
    if sha256 {
        seq![
            0x47u8, 0x3au8, 0x0fu8, 0x4cu8, 0x3bu8, 0xe8u8, 0xa9u8, 0x36u8, 0x81u8, 0xa2u8,
            0x67u8, 0xe3u8, 0xb1u8, 0xe9u8, 0xa7u8, 0xdcu8, 0xdau8, 0x11u8, 0x85u8, 0x43u8,
            0x6fu8, 0xe1u8, 0x41u8, 0xf7u8, 0x74u8, 0x91u8, 0x20u8, 0xa3u8, 0x03u8, 0x72u8,
            0x18u8, 0x13u8,
        ]
    } else {
        seq![
            0xe6u8, 0x9du8, 0xe2u8, 0x9bu8, 0xb2u8, 0xd1u8, 0xd6u8, 0x43u8, 0x4bu8, 0x8bu8,
            0x29u8, 0xaeu8, 0x77u8, 0x5au8, 0xd8u8, 0xc2u8, 0xe4u8, 0x8cu8, 0x53u8, 0x91u8,
        ]
    }
}

/// Whether `id` is the id of the empty blob under its own hash kind.
pub fn is_empty_blob(id: &Vec<u8>) -> (r: bool)
    ensures
        r == (id@ == empty_blob_id(is_sha256_id(id@))),
{
    if id.len() == 32 {
        let empty: Vec<u8> = vec![
            0x47u8, 0x3au8, 0x0fu8, 0x4cu8, 0x3bu8, 0xe8u8, 0xa9u8, 0x36u8, 0x81u8, 0xa2u8,
            0x67u8, 0xe3u8, 0xb1u8, 0xe9u8, 0xa7u8, 0xdcu8, 0xdau8, 0x11u8, 0x85u8, 0x43u8,
            0x6fu8, 0xe1u8, 0x41u8, 0xf7u8, 0x74u8, 0x91u8, 0x20u8, 0xa3u8, 0x03u8, 0x72u8,
            0x18u8, 0x13u8,
        ];
        assert(empty@ =~= empty_blob_id(true));
        bytes_equal(id, &empty)
    } else {
        let empty: Vec<u8> = vec![
            0xe6u8, 0x9du8, 0xe2u8, 0x9bu8, 0xb2u8, 0xd1u8, 0xd6u8, 0x43u8, 0x4bu8, 0x8bu8,
            0x29u8, 0xaeu8, 0x77u8, 0x5au8, 0xd8u8, 0xc2u8, 0xe4u8, 0x8cu8, 0x53u8, 0x91u8,
        ];
        assert(empty@ =~= empty_blob_id(false));
        bytes_equal(id, &empty)
    }
}

/// The id git gives a blob holding `data`, under SHA-256 if `sha256` holds, else
/// under SHA-1; or `None` where the hasher rejects `data` (SHA-1 collision detection).
pub uninterp spec fn blob_hash_of(sha256: bool, data: Seq<u8>) -> Option<Seq<u8>>;

/// The contract view of an optional id.
pub open spec fn opt_id_view(id: Option<Vec<u8>>) -> Option<Seq<u8>> {
    match id {
        Some(v) => Some(v@),
        None => None,
    }
}

/// Relies on gix_object::compute_hash: the SHA-256 or SHA-1 id of a blob object
/// holding `data`, or an error where SHA-1 collision detection rejects the input;
/// both depend on the hash kind and `data` alone.
#[verifier::external_body]
fn hash_blob(sha256: bool, data: &[u8]) -> (r: Option<Vec<u8>>)
    ensures
        opt_id_view(r) == blob_hash_of(sha256, data@),
{
    let kind = if sha256 { gix_hash::Kind::Sha256 } else { gix_hash::Kind::Sha1 };
    match gix_object::compute_hash(kind, gix_object::Kind::Blob, data) {
        Ok(id) => Some(id.as_bytes().to_vec()),
        Err(_) => None,
    }
}

/// Whether the sizes alone show that the file differs from the entry. A recorded
/// size of zero on an entry of a non-empty blob is not trusted: such an entry may
/// have been smudged racily, and only its content can tell.
pub open spec fn size_shows_change(entry_size: u32, entry_id: Seq<u8>, worktree_size: usize) -> bool {
    entry_size as int != worktree_size as int && (entry_id == empty_blob_id(is_sha256_id(entry_id)) || entry_size != 0)
}

/// Whether the sizes alone show that the file differs from the entry.
pub fn sizes_differ(entry: &IndexEntry, worktree_blob_size: usize) -> (r: bool)
    ensures
        r == size_shows_change(entry.size, entry.id@, worktree_blob_size),
{
    entry.size as usize != worktree_blob_size && (is_empty_blob(&entry.id) || entry.size != 0)
}

/// Whether a file whose blob id came out as `computed` differs from the entry.
/// A file whose id could not be computed counts as changed.
pub open spec fn hash_differs(entry_id: Seq<u8>, computed: Option<Seq<u8>>) -> bool {
    match computed {
        Some(id) => id != entry_id,
        None => true,
    }
}

/// Whether a file whose blob id came out as `computed` differs from the entry.
pub fn differs_from_entry(entry_id: &Vec<u8>, computed: &Option<Vec<u8>>) -> (r: bool)
    ensures
        r == hash_differs(entry_id@, opt_id_view(*computed)),
{
    match computed {
        Some(id) => !bytes_equal(id, entry_id),
        None => true,
    }
}

/// What a hash comparison reports for a file whose id came out as `computed`:
/// `None` if it is the entry's id, else the computed id, or an empty id where
/// none could be computed.
pub open spec fn hash_eq_result(entry_id: Seq<u8>, computed: Option<Seq<u8>>) -> Option<Seq<u8>> {
    match computed {
        Some(id) => if id == entry_id { None } else { Some(id) },
        None => Some(Seq::empty()),
    }
}

/// What a hash comparison reports for a file whose id came out as `computed`.
pub fn hash_eq_outcome(entry_id: &Vec<u8>, computed: Option<Vec<u8>>) -> (r: Option<Vec<u8>>)
    ensures
        opt_id_view(r) == hash_eq_result(entry_id@, opt_id_view(computed)),
{
    match computed {
        Some(id) => if bytes_equal(&id, entry_id) { None } else { Some(id) },
        None => Some(Vec::new()),
    }
}

/// What [`FastEq`] reports once the sizes left the question open and the file's
/// contents `data` were read: `Some(())` if they differ from the entry.
pub fn fast_eq_contents(entry: &IndexEntry, data: &[u8]) -> (r: Option<()>)
    ensures
        r.is_some() == hash_differs(entry.id@, blob_hash_of(is_sha256_id(entry.id@), data@)),
{
    let file_hash = hash_blob(entry.id.len() == 32, data);
    if differs_from_entry(&entry.id, &file_hash) {
        Some(())
    } else {
        None
    }
}

/// What [`HashEq`] reports for a file whose contents `data` were read.
pub fn hash_eq_contents(entry: &IndexEntry, data: &[u8]) -> (r: Option<Vec<u8>>)
    ensures
        opt_id_view(r) == hash_eq_result(entry.id@, blob_hash_of(is_sha256_id(entry.id@), data@)),
{
    let file_hash = hash_blob(entry.id.len() == 32, data);
    hash_eq_outcome(&entry.id, file_hash)
}

/// Compares files to blobs by their size and id, and only reads the file where
/// the sizes match, which makes it very fast.
#[derive(Clone, Copy)]
pub struct FastEq;

impl FastEq {
    /// `Some(())` if the file differs from the entry, `None` if it is unchanged.
    pub fn compare_blobs<'a, E, W: ReadDataOnce<'a, E>, B: ReadDataOnce<'a, E>>(
        &mut self,
        entry: &IndexEntry,
        worktree_blob_size: usize,
        worktree_blob: W,
        _entry_blob: B,
    ) -> (r: Result<Option<()>, E>)
        ensures
            size_shows_change(entry.size, entry.id@, worktree_blob_size) ==> r matches Ok(Some(())),
            !size_shows_change(entry.size, entry.id@, worktree_blob_size) ==> (r matches Ok(o) ==> exists|d: Seq<u8>|
                o.is_some() == hash_differs(entry.id@, #[trigger] blob_hash_of(is_sha256_id(entry.id@), d))),
    {
        if sizes_differ(entry, worktree_blob_size) {
            return Ok(Some(()));
        }
        let blob = match worktree_blob.read_data() {
            Ok(b) => b,
            Err(e) => return Err(e),
        };
        Ok(fast_eq_contents(entry, blob))
    }
}

/// Compares files to blobs by always computing the file's id.
///
/// Same as [`FastEq`] without the shortcut on sizes: a changed file's id comes
/// back for reuse. Where the id cannot be computed the file counts as changed
/// and the id that comes back is empty.
#[derive(Clone, Copy)]
pub struct HashEq;

impl HashEq {
    /// `Some(id)` with the file's blob id if it differs from the entry, `None` if it is unchanged.
    pub fn compare_blobs<'a, E, W: ReadDataOnce<'a, E>, B: ReadDataOnce<'a, E>>(
        &mut self,
        entry: &IndexEntry,
        _worktree_blob_size: usize,
        worktree_blob: W,
        _entry_blob: B,
    ) -> (r: Result<Option<Vec<u8>>, E>)
        ensures
            r matches Ok(o) ==> exists|d: Seq<u8>| opt_id_view(o) == hash_eq_result(entry.id@, #[trigger] blob_hash_of(is_sha256_id(entry.id@), d)),
    {
        let blob = match worktree_blob.read_data() {
            Ok(b) => b,
            Err(e) => return Err(e),
        };
        Ok(hash_eq_contents(entry, blob))
    }
}

} // verus!
