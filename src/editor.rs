use vstd::prelude::*;
use crate::object::{Entry, EntryModel, bytes_equal, copy_bytes};

verus! {

/// An entry of a flat tree: the slash-separated path and what it holds.
pub struct TreeEntry {
    pub path: Vec<u8>,
    pub entry: Entry,
}

/// An editable tree, addressed by slash-separated paths, each present at most once.
pub struct Editor {
    entries: Vec<TreeEntry>,
    model: Ghost<Map<Seq<u8>, EntryModel>>,
}

impl View for Editor {
    type V = Map<Seq<u8>, EntryModel>;

    closed spec fn view(&self) -> Map<Seq<u8>, EntryModel> {
        self.model@
    }
}

/// The entry at `p` in `m`, if there is one.
pub open spec fn entry_at(m: Map<Seq<u8>, EntryModel>, p: Seq<u8>) -> Option<EntryModel> {
    if m.contains_key(p) {
        Some(m[p])
    } else {
        None
    }
}

/// `q` lies inside the directory `d`: it starts with `d` followed by a slash.
pub open spec fn is_under(d: Seq<u8>, q: Seq<u8>) -> bool {
    d.len() < q.len() && q.subrange(0, d.len() as int) == d && q[d.len() as int] == 47u8
}

/// Some entry of `m` lies inside `p`, or `p` lies inside one of them.
pub open spec fn overlaps(m: Map<Seq<u8>, EntryModel>, p: Seq<u8>) -> bool {
    exists|q: Seq<u8>| #[trigger] m.contains_key(q) && (is_under(p, q) || is_under(q, p))
}

/// No entry of `m` lies inside another: a path is a file or a directory, never both.
pub open spec fn is_valid_tree(m: Map<Seq<u8>, EntryModel>) -> bool {
    forall|p: Seq<u8>, q: Seq<u8>| m.contains_key(p) && m.contains_key(q) ==> !#[trigger] is_under(p, q)
}

/// Whether `q` lies inside the directory `d`.
pub fn path_is_under(d: &Vec<u8>, q: &Vec<u8>) -> (r: bool)
    ensures
        r == is_under(d@, q@),
{
    if d.len() >= q.len() {
        return false;
    }
    let mut i: usize = 0;
    while i < d.len()
        invariant
            d@.len() < q@.len(),
            i <= d@.len(),
            forall|k: int| 0 <= k < i ==> q@[k] == d@[k],
        decreases d@.len() - i,
    {
        if d[i] != q[i] {
            assert(q@.subrange(0, d@.len() as int)[i as int] != d@[i as int]);
            return false;
        }
        i = i + 1;
    }
    assert(q@.subrange(0, d@.len() as int) =~= d@);
    q[d.len()] == 47u8
}

impl Editor {
    /// The stored entries match the model one for one, with distinct paths.
    pub closed spec fn well_formed(&self) -> bool {
        &&& forall|i: int, j: int|
            0 <= i < j < self.entries@.len() ==> self.entries@[i].path@ != self.entries@[j].path@
        &&& forall|i: int|
            0 <= i < self.entries@.len() ==> #[trigger] self.model@.contains_key(
                self.entries@[i].path@,
            ) && self.model@[self.entries@[i].path@] == self.entries@[i].entry@
        &&& forall|p: Seq<u8>|
            #[trigger] self.model@.contains_key(p) ==> exists|i: int|
                0 <= i < self.entries@.len() && self.entries@[i].path@ == p
    }

    /// An empty tree.
    pub fn new() -> (r: Editor)
        ensures
            r.well_formed(),
            r@ == Map::<Seq<u8>, EntryModel>::empty(),
    {
        Editor { entries: Vec::new(), model: Ghost(Map::empty()) }
    }

    /// The number of entries.
    pub fn len(&self) -> (r: usize)
        requires
            self.well_formed(),
        ensures
            r as nat == self@.len(),
    {
        proof {
            self.lemma_len();
        }
        self.entries.len()
    }

    proof fn lemma_len(&self)
        requires
            self.well_formed(),
        ensures
            self.entries@.len() == self@.len(),
        decreases self.entries@.len(),
    {
        let paths = self.entries@.map_values(|e: TreeEntry| e.path@);
        assert forall|i: int, j: int| 0 <= i < j < paths.len() implies paths[i] != paths[j] by {}
        paths.unique_seq_to_set();
        assert(paths.to_set() =~= self.model@.dom()) by {
            assert forall|p: Seq<u8>| #[trigger] self.model@.contains_key(p) implies paths.contains(p) by {
                let i = choose|i: int| 0 <= i < self.entries@.len() && self.entries@[i].path@ == p;
                assert(paths[i] == p);
            }
            assert forall|p: Seq<u8>| paths.contains(p) implies #[trigger] self.model@.contains_key(p) by {
                let i = choose|i: int| 0 <= i < paths.len() && paths[i] == p;
                assert(self.model@.contains_key(self.entries@[i].path@));
            }
        }
    }

    /// The index of the entry at `p`, if there is one.
    fn position(&self, p: &Vec<u8>) -> (r: Option<usize>)
        requires
            self.well_formed(),
        ensures
            match r {
                Some(i) => i < self.entries@.len() && self.entries@[i as int].path@ == p@,
                None => !self@.contains_key(p@),
            },
    {
        let mut i: usize = 0;
        while i < self.entries.len()
            invariant
                self.well_formed(),
                i <= self.entries@.len(),
                forall|k: int| 0 <= k < i ==> self.entries@[k].path@ != p@,
            decreases self.entries@.len() - i,
        {
            if bytes_equal(&self.entries[i].path, p) {
                return Some(i);
            }
            i = i + 1;
        }
        None
    }

    /// A copy of the entry at `p`, if there is one.
    pub fn get(&self, p: &Vec<u8>) -> (r: Option<Entry>)
        requires
            self.well_formed(),
        ensures
            match r {
                Some(e) => self@.contains_key(p@) && self@[p@] == e@,
                None => !self@.contains_key(p@),
            },
    {
        match self.position(p) {
            Some(i) => {
                proof {
                    assert(self.model@.contains_key(self.entries@[i as int].path@));
                }
                Some(self.entries[i].entry.duplicate())
            },
            None => None,
        }
    }

    /// Inserts `entry` at `p`, replacing what was there.
    pub fn upsert(&mut self, p: &Vec<u8>, entry: Entry)
        requires
            old(self).well_formed(),
        ensures
            final(self).well_formed(),
            final(self)@ == old(self)@.insert(p@, entry@),
    {
        let ghost m = self.model@.insert(p@, entry@);
        let ghost e = entry@;
        match self.position(p) {
            Some(i) => {
                let ghost olds = self.entries@;
                self.entries.set(i, TreeEntry { path: copy_bytes(p), entry });
                self.model = Ghost(m);
                assert forall|k: int| 0 <= k < self.entries@.len() implies
                    #[trigger] self.model@.contains_key(self.entries@[k].path@)
                    && self.model@[self.entries@[k].path@] == self.entries@[k].entry@ by {
                    if k != i {
                        assert(olds[k].path@ != olds[i as int].path@);
                        assert(old(self).model@.contains_key(olds[k].path@));
                    }
                }
                assert forall|a: int, b: int| 0 <= a < b < self.entries@.len() implies
                    self.entries@[a].path@ != self.entries@[b].path@ by {
                    assert(olds[a].path@ != olds[b].path@);
                }
                assert forall|q: Seq<u8>| #[trigger] self.model@.contains_key(q) implies exists|k: int|
                    0 <= k < self.entries@.len() && self.entries@[k].path@ == q by {
                    if q != p@ {
                        let k = choose|k: int| 0 <= k < old(self).entries@.len() && old(self).entries@[k].path@ == q;
                        assert(self.entries@[k].path@ == q);
                    } else {
                        assert(self.entries@[i as int].path@ == q);
                    }
                }
            },
            None => {
                let ghost n = self.entries@.len();
                self.entries.push(TreeEntry { path: copy_bytes(p), entry });
                self.model = Ghost(m);
                assert(self.entries@[n as int].path@ == p@);
                assert forall|k: int| 0 <= k < n implies self.entries@[k].path@ != p@ by {
                    assert(old(self).model@.contains_key(old(self).entries@[k].path@));
                }
                assert forall|k: int| 0 <= k < self.entries@.len() implies
                    #[trigger] self.model@.contains_key(self.entries@[k].path@)
                    && self.model@[self.entries@[k].path@] == self.entries@[k].entry@ by {
                    if k < n {
                        assert(old(self).model@.contains_key(old(self).entries@[k].path@));
                    }
                }
                assert forall|q: Seq<u8>| #[trigger] self.model@.contains_key(q) implies exists|k: int|
                    0 <= k < self.entries@.len() && self.entries@[k].path@ == q by {
                    if q != p@ {
                        let k = choose|k: int| 0 <= k < old(self).entries@.len() && old(self).entries@[k].path@ == q;
                        assert(self.entries@[k].path@ == q);
                    } else {
                        assert(self.entries@[n as int].path@ == q);
                    }
                }
            },
        }
    }

    /// Removes the entry at `p`, if there is one.
    pub fn remove(&mut self, p: &Vec<u8>)
        requires
            old(self).well_formed(),
        ensures
            final(self).well_formed(),
            final(self)@ == old(self)@.remove(p@),
    {
        match self.position(p) {
            Some(i) => {
                let ghost olds = self.entries@;
                self.entries.remove(i);
                self.model = Ghost(self.model@.remove(p@));
                assert forall|k: int| 0 <= k < self.entries@.len() implies
                    #[trigger] self.entries@[k] == (if k < i { olds[k] } else { olds[k + 1] }) by {}
                assert forall|q: Seq<u8>| #[trigger] self.model@.contains_key(q) implies exists|k: int|
                    0 <= k < self.entries@.len() && self.entries@[k].path@ == q by {
                    let k = choose|k: int| 0 <= k < olds.len() && olds[k].path@ == q;
                    assert(k != i);
                    if k < i {
                        assert(self.entries@[k].path@ == q);
                    } else {
                        assert(self.entries@[k - 1].path@ == q);
                    }
                }
                assert forall|k: int| 0 <= k < self.entries@.len() implies
                    #[trigger] self.model@.contains_key(self.entries@[k].path@)
                    && self.model@[self.entries@[k].path@] == self.entries@[k].entry@ by {
                    assert(self.entries@[k] == (if k < i { olds[k] } else { olds[k + 1] }));
                    if k < i {
                        assert(olds[k].path@ != olds[i as int].path@);
                        assert(old(self).model@.contains_key(olds[k].path@));
                    } else {
                        assert(olds[k + 1].path@ != olds[i as int].path@);
                        assert(old(self).model@.contains_key(olds[k + 1].path@));
                    }
                }
            },
            None => {
                assert(self.model@.remove(p@) =~= self.model@);
            },
        }
    }

    /// A copy of this tree.
    #[verifier::spinoff_prover]
    pub fn duplicate(&self) -> (r: Editor)
        requires
            self.well_formed(),
        ensures
            r.well_formed(),
            r@ == self@,
    {
        let mut entries: Vec<TreeEntry> = Vec::new();
        let mut i: usize = 0;
        while i < self.entries.len()
            invariant
                i <= self.entries@.len(),
                entries@.len() == i,
                forall|k: int| 0 <= k < i ==> #[trigger] entries@[k].path@ == self.entries@[k].path@
                    && entries@[k].entry@ == self.entries@[k].entry@,
            decreases self.entries@.len() - i,
        {
            let e = &self.entries[i];
            entries.push(TreeEntry { path: copy_bytes(&e.path), entry: e.entry.duplicate() });
            i = i + 1;
        }
        let r = Editor { entries, model: Ghost(self.model@) };
        assert forall|a: int, b: int| 0 <= a < b < r.entries@.len() implies r.entries@[a].path@ != r.entries@[b].path@ by {
            assert(r.entries@[a].path@ == self.entries@[a].path@);
            assert(r.entries@[b].path@ == self.entries@[b].path@);
        }
        assert forall|k: int| 0 <= k < r.entries@.len() implies #[trigger] r.model@.contains_key(r.entries@[k].path@)
            && r.model@[r.entries@[k].path@] == r.entries@[k].entry@ by {
            assert(r.entries@[k].path@ == self.entries@[k].path@);
            assert(self.model@.contains_key(self.entries@[k].path@));
        }
        assert forall|p: Seq<u8>| #[trigger] r.model@.contains_key(p) implies exists|k: int|
            0 <= k < r.entries@.len() && r.entries@[k].path@ == p by {
            let k = choose|k: int| 0 <= k < self.entries@.len() && self.entries@[k].path@ == p;
            assert(r.entries@[k].path@ == p);
        }
        r
    }

    /// Whether an entry lies inside `p`, or `p` inside one of them.
    pub fn overlaps_at(&self, p: &Vec<u8>) -> (r: bool)
        requires
            self.well_formed(),
        ensures
            r == overlaps(self@, p@),
    {
        let mut i: usize = 0;
        while i < self.entries.len()
            invariant
                self.well_formed(),
                i <= self.entries@.len(),
                forall|k: int| 0 <= k < i ==> !is_under(p@, #[trigger] self.entries@[k].path@)
                    && !is_under(self.entries@[k].path@, p@),
            decreases self.entries@.len() - i,
        {
            let q = &self.entries[i].path;
            if path_is_under(p, q) || path_is_under(q, p) {
                assert(self.model@.contains_key(self.entries@[i as int].path@));
                return true;
            }
            i = i + 1;
        }
        assert forall|q: Seq<u8>| #[trigger] self@.contains_key(q) implies !(is_under(p@, q) || is_under(q, p@)) by {
            let k = choose|k: int| 0 <= k < self.entries@.len() && self.entries@[k].path@ == q;
        }
        false
    }

    /// Whether no entry lies inside another.
    pub fn is_valid(&self) -> (r: bool)
        requires
            self.well_formed(),
        ensures
            r == is_valid_tree(self@),
    {
        let mut i: usize = 0;
        while i < self.entries.len()
            invariant
                self.well_formed(),
                i <= self.entries@.len(),
                forall|k: int| 0 <= k < i ==> !overlaps(self@, #[trigger] self.entries@[k].path@),
            decreases self.entries@.len() - i,
        {
            if self.overlaps_at(&self.entries[i].path) {
                proof {
                    let p = self.entries@[i as int].path@;
                    let q = choose|q: Seq<u8>| #[trigger] self@.contains_key(q) && (is_under(p, q) || is_under(q, p));
                    assert(self@.contains_key(p));
                }
                return false;
            }
            i = i + 1;
        }
        assert forall|p: Seq<u8>, q: Seq<u8>| self@.contains_key(p) && self@.contains_key(q) implies !#[trigger] is_under(p, q) by {
            let k = choose|k: int| 0 <= k < self.entries@.len() && self.entries@[k].path@ == p;
            assert(!overlaps(self@, self.entries@[k].path@));
        }
        true
    }

    /// The entries, each path once.
    pub fn entries(&self) -> (r: &Vec<TreeEntry>)
        requires
            self.well_formed(),
        ensures
            forall|i: int| 0 <= i < r@.len() ==> #[trigger] self@.contains_key(r@[i].path@)
                && self@[r@[i].path@] == r@[i].entry@,
            forall|p: Seq<u8>| #[trigger] self@.contains_key(p) ==> exists|i: int|
                0 <= i < r@.len() && r@[i].path@ == p,
            forall|i: int, j: int| 0 <= i < j < r@.len() ==> r@[i].path@ != r@[j].path@,
    {
        &self.entries
    }
}

} // verus!
