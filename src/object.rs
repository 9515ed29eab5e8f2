use vstd::prelude::*;

verus! {

/// The value of an entry as the contracts see it: its mode and object id.
pub struct EntryModel {
    pub mode: u32,
    pub id: Seq<u8>,
}

/// A tree entry's mode and the id of the object it points to.
pub struct Entry {
    pub mode: u32,
    pub id: Vec<u8>,
}

impl View for Entry {
    type V = EntryModel;

    open spec fn view(&self) -> EntryModel {
        EntryModel { mode: self.mode, id: self.id@ }
    }
}

/// Mode of a regular file.
pub const MODE_BLOB: u32 = 0o100644;

/// Mode of an executable file.
pub const MODE_BLOB_EXECUTABLE: u32 = 0o100755;

/// Mode of a symbolic link.
pub const MODE_LINK: u32 = 0o120000;

/// Mode of a sub-tree.
pub const MODE_TREE: u32 = 0o040000;

/// Mode of a submodule commit.
pub const MODE_COMMIT: u32 = 0o160000;

/// The object kind encoded in a mode: its bits above the permission bits.
pub open spec fn mode_kind(mode: u32) -> u32 {
    mode / 4096
}

/// Regular and executable files, whose contents a text merge may combine.
pub open spec fn is_mergeable_mode(mode: u32) -> bool {
    mode_kind(mode) == 8
}

/// The object kind bits of `mode`.
pub fn kind_of_mode(mode: u32) -> (r: u32)
    ensures
        r == mode_kind(mode),
{
    mode / 4096
}

/// Whether `mode` is a regular or executable file.
pub fn is_mergeable(mode: u32) -> (r: bool)
    ensures
        r == is_mergeable_mode(mode),
{
    mode / 4096 == 8
}

/// Byte-wise equality of two buffers.
pub fn bytes_equal(a: &Vec<u8>, b: &Vec<u8>) -> (r: bool)
    ensures
        r == (a@ == b@),
{
    if a.len() != b.len() {
        return false;
    }
    let mut i: usize = 0;
    while i < a.len()
        invariant
            a@.len() == b@.len(),
            i <= a@.len(),
            forall|k: int| 0 <= k < i ==> a@[k] == b@[k],
        decreases a@.len() - i,
    {
        if a[i] != b[i] {
            return false;
        }
        i = i + 1;
    }
    assert(a@ =~= b@);
    true
}

/// Equality of two entries: same mode and same id.
pub fn entries_equal(a: &Entry, b: &Entry) -> (r: bool)
    ensures
        r == (a@ == b@),
{
    a.mode == b.mode && bytes_equal(&a.id, &b.id)
}

/// A copy of `bytes` with the same contents.
pub fn copy_bytes(bytes: &Vec<u8>) -> (r: Vec<u8>)
    ensures
        r@ == bytes@,
{
    let mut r: Vec<u8> = Vec::new();
    let mut i: usize = 0;
    while i < bytes.len()
        invariant
            i <= bytes@.len(),
            r@ == bytes@.subrange(0, i as int),
        decreases bytes@.len() - i,
    {
        r.push(bytes[i]);
        i = i + 1;
        assert(r@ =~= bytes@.subrange(0, i as int));
    }
    assert(r@ =~= bytes@);
    r
}

impl Entry {
    /// A copy of this entry.
    pub fn duplicate(&self) -> (r: Entry)
        ensures
            r@ == self@,
    {
        Entry { mode: self.mode, id: copy_bytes(&self.id) }
    }
}

} // verus!
