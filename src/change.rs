use vstd::prelude::*;
use crate::object::{Entry, EntryModel, bytes_equal, copy_bytes};

verus! {

/// One side's edit to one path, as a tree diff reports it.
pub enum Change {
    /// `path` did not exist in the ancestor and now holds `id` with `mode`.
    Addition { path: Vec<u8>, id: Vec<u8>, mode: u32 },
    /// `path` held `id` with `mode` in the ancestor and is gone.
    Deletion { path: Vec<u8>, id: Vec<u8>, mode: u32 },
    /// `path` changed from `previous_id`/`previous_mode` to `id`/`mode`.
    Modification { path: Vec<u8>, previous_id: Vec<u8>, previous_mode: u32, id: Vec<u8>, mode: u32 },
    /// The entry at `source_path` moved to `path`, where it now holds `id` with `mode`.
    Rewrite { source_path: Vec<u8>, path: Vec<u8>, id: Vec<u8>, mode: u32 },
}

/// What one change does to `p`: `None` if it does not touch `p`,
/// `Some(None)` if it removes `p`, `Some(Some(e))` if it leaves `e` at `p`.
pub open spec fn change_effect(c: Change, p: Seq<u8>) -> Option<Option<EntryModel>> {
    match c {
        Change::Addition { path, id, mode } =>
            if path@ == p { Some(Some(EntryModel { mode, id: id@ })) } else { None },
        Change::Deletion { path, .. } =>
            if path@ == p { Some(None) } else { None },
        Change::Modification { path, id, mode, .. } =>
            if path@ == p { Some(Some(EntryModel { mode, id: id@ })) } else { None },
        Change::Rewrite { source_path, path, id, mode } =>
            if path@ == p {
                Some(Some(EntryModel { mode, id: id@ }))
            } else if source_path@ == p {
                Some(None)
            } else {
                None
            },
    }
}

/// What a sequence of changes does to `p`: the effect of the last change that touches it.
pub open spec fn side_effect(cs: Seq<Change>, p: Seq<u8>) -> Option<Option<EntryModel>>
    decreases cs.len(),
{
    if cs.len() == 0 {
        None
    } else {
        match change_effect(cs.last(), p) {
            Some(e) => Some(e),
            None => side_effect(cs.drop_last(), p),
        }
    }
}

/// The paths a change touches, in order: the source of a rewrite before its destination.
pub open spec fn change_paths(c: Change) -> Seq<Seq<u8>> {
    match c {
        Change::Addition { path, .. } => seq![path@],
        Change::Deletion { path, .. } => seq![path@],
        Change::Modification { path, .. } => seq![path@],
        Change::Rewrite { source_path, path, .. } => seq![source_path@, path@],
    }
}

/// Every path touched by a sequence of changes, in order, repetitions included.
pub open spec fn all_paths(cs: Seq<Change>) -> Seq<Seq<u8>>
    decreases cs.len(),
{
    if cs.len() == 0 {
        Seq::empty()
    } else {
        all_paths(cs.drop_last()) + change_paths(cs.last())
    }
}

/// Whether `a` comes before `b` in byte-wise order, comparing from index `i` on.
pub open spec fn less_from(a: Seq<u8>, b: Seq<u8>, i: int) -> bool
    decreases a.len() - i,
{
    if i >= a.len() {
        i < b.len()
    } else if i >= b.len() {
        false
    } else if a[i] != b[i] {
        a[i] < b[i]
    } else {
        less_from(a, b, i + 1)
    }
}

/// Byte-wise lexicographic order of paths, the order of entries in a git tree listing.
pub open spec fn path_less(a: Seq<u8>, b: Seq<u8>) -> bool {
    less_from(a, b, 0)
}

/// `s` with `x` placed before the first element that `x` comes before.
pub open spec fn insert_in_order(s: Seq<Seq<u8>>, x: Seq<u8>) -> Seq<Seq<u8>>
    decreases s.len(),
{
    if s.len() == 0 {
        seq![x]
    } else if path_less(x, s[0]) {
        seq![x] + s
    } else {
        seq![s[0]] + insert_in_order(s.drop_first(), x)
    }
}

/// The elements of `s`, each once, in path order.
pub open spec fn path_index(s: Seq<Seq<u8>>) -> Seq<Seq<u8>>
    decreases s.len(),
{
    if s.len() == 0 {
        Seq::empty()
    } else if path_index(s.drop_last()).contains(s.last()) {
        path_index(s.drop_last())
    } else {
        insert_in_order(path_index(s.drop_last()), s.last())
    }
}

/// The change index: each path touched by either side once, in path order.
pub open spec fn touched_paths(ours: Seq<Change>, theirs: Seq<Change>) -> Seq<Seq<u8>> {
    path_index(all_paths(ours) + all_paths(theirs))
}

impl Change {
    /// The effect of this change on `p`.
    pub fn effect_on(&self, p: &Vec<u8>) -> (r: Option<Option<Entry>>)
        ensures
            opt_opt_view(r) == change_effect(*self, p@),
    {
        match self {
            Change::Addition { path, id, mode } | Change::Modification { path, id, mode, .. } => {
                if bytes_equal(path, p) {
                    Some(Some(Entry { mode: *mode, id: copy_bytes(id) }))
                } else {
                    None
                }
            },
            Change::Deletion { path, .. } => {
                if bytes_equal(path, p) {
                    Some(None)
                } else {
                    None
                }
            },
            Change::Rewrite { source_path, path, id, mode } => {
                if bytes_equal(path, p) {
                    Some(Some(Entry { mode: *mode, id: copy_bytes(id) }))
                } else if bytes_equal(source_path, p) {
                    Some(None)
                } else {
                    None
                }
            },
        }
    }
}

/// The contract view of an optional entry.
pub open spec fn opt_view(e: Option<Entry>) -> Option<EntryModel> {
    match e {
        Some(x) => Some(x@),
        None => None,
    }
}

/// The contract view of a side's effect on a path.
pub open spec fn opt_opt_view(e: Option<Option<Entry>>) -> Option<Option<EntryModel>> {
    match e {
        Some(x) => Some(opt_view(x)),
        None => None,
    }
}

/// What the changes of one side do to `p`.
pub fn effect_of_side(changes: &Vec<Change>, p: &Vec<u8>) -> (r: Option<Option<Entry>>)
    ensures
        opt_opt_view(r) == side_effect(changes@, p@),
{
    let mut r: Option<Option<Entry>> = None;
    let mut i: usize = 0;
    while i < changes.len()
        invariant
            i <= changes@.len(),
            opt_opt_view(r) == side_effect(changes@.take(i as int), p@),
        decreases changes@.len() - i,
    {
        let e = changes[i].effect_on(p);
        proof {
            assert(changes@.take(i + 1).drop_last() =~= changes@.take(i as int));
        }
        if e.is_some() {
            r = e;
        }
        i = i + 1;
    }
    assert(changes@.take(i as int) =~= changes@);
    r
}

/// The contract view of a list of paths.
pub open spec fn paths_view(v: Seq<Vec<u8>>) -> Seq<Seq<u8>> {
    v.map_values(|x: Vec<u8>| x@)
}

/// An element of `f.push(l)` is `l` or an element of `f`.
pub proof fn lemma_push_contains(f: Seq<Seq<u8>>, l: Seq<u8>)
    ensures
        forall|x: Seq<u8>| #[trigger] f.push(l).contains(x) <==> (f.contains(x) || x == l),
{
    assert forall|x: Seq<u8>| #[trigger] f.push(l).contains(x) <==> (f.contains(x) || x == l) by {
        if f.push(l).contains(x) && x != l {
            let k = choose|k: int| 0 <= k < f.len() + 1 && f.push(l)[k] == x;
            assert(f[k] == x);
        }
        if f.contains(x) {
            let k = choose|k: int| 0 <= k < f.len() && f[k] == x;
            assert(f.push(l)[k] == x);
        }
        if x == l {
            assert(f.push(l)[f.len() as int] == x);
        }
    }
}

/// Placing `x` in order inserts it at some index.
pub proof fn lemma_insert_in_order(s: Seq<Seq<u8>>, x: Seq<u8>)
    ensures
        exists|i: int| 0 <= i <= s.len() && insert_in_order(s, x) == s.insert(i, x),
    decreases s.len(),
{
    if s.len() == 0 {
        assert(insert_in_order(s, x) =~= s.insert(0, x));
    } else if path_less(x, s[0]) {
        assert(insert_in_order(s, x) =~= s.insert(0, x));
    } else {
        lemma_insert_in_order(s.drop_first(), x);
        let i = choose|i: int| 0 <= i <= s.drop_first().len() && insert_in_order(s.drop_first(), x) == s.drop_first().insert(i, x);
        assert(insert_in_order(s, x) =~= s.insert(i + 1, x));
    }
}

/// What `s.insert(i, x)` holds, and that it stays free of repeats.
pub proof fn lemma_seq_insert(s: Seq<Seq<u8>>, i: int, x: Seq<u8>)
    requires
        0 <= i <= s.len(),
    ensures
        forall|y: Seq<u8>| #[trigger] s.insert(i, x).contains(y) <==> (s.contains(y) || y == x),
        (forall|a: int, b: int| 0 <= a < b < s.len() ==> s[a] != s[b]) && !s.contains(x) ==>
            forall|a: int, b: int| 0 <= a < b < s.len() + 1 ==> s.insert(i, x)[a] != s.insert(i, x)[b],
{
    let t = s.insert(i, x);
    assert forall|k: int| 0 <= k < t.len() implies #[trigger] t[k] == (if k < i { s[k] } else if k == i { x } else { s[k - 1] }) by {}
    assert forall|y: Seq<u8>| #[trigger] t.contains(y) <==> (s.contains(y) || y == x) by {
        if t.contains(y) {
            let k = choose|k: int| 0 <= k < t.len() && t[k] == y;
            if k < i { assert(s[k] == y); } else if k > i { assert(s[k - 1] == y); }
        }
        if s.contains(y) {
            let k = choose|k: int| 0 <= k < s.len() && s[k] == y;
            if k < i { assert(t[k] == y); } else { assert(t[k + 1] == y); }
        }
        if y == x {
            assert(t[i] == y);
        }
    }
    if (forall|a: int, b: int| 0 <= a < b < s.len() ==> s[a] != s[b]) && !s.contains(x) {
        assert forall|a: int, b: int| 0 <= a < b < s.len() + 1 implies t[a] != t[b] by {
            if a == i { assert(s.contains(t[b])); }
            else if b == i { assert(s.contains(t[a])); }
        }
    }
}

/// Each element of `s` is in `path_index(s)`, nothing else is, and none twice.
pub proof fn lemma_path_index(s: Seq<Seq<u8>>)
    ensures
        forall|x: Seq<u8>| #[trigger] path_index(s).contains(x) <==> s.contains(x),
        forall|i: int, j: int| 0 <= i < j < path_index(s).len() ==> path_index(s)[i] != path_index(s)[j],
    decreases s.len(),
{
    if s.len() > 0 {
        let d = s.drop_last();
        let l = s.last();
        lemma_path_index(d);
        assert(d.push(l) =~= s);
        lemma_push_contains(d, l);
        let f = path_index(d);
        if !f.contains(l) {
            lemma_insert_in_order(f, l);
            let i = choose|i: int| 0 <= i <= f.len() && insert_in_order(f, l) == f.insert(i, l);
            lemma_seq_insert(f, i, l);
        }
    }
}

/// A path that a side's changes affect is among the paths they touch.
pub proof fn lemma_effect_is_touched(cs: Seq<Change>, p: Seq<u8>)
    ensures
        side_effect(cs, p).is_some() ==> all_paths(cs).contains(p),
    decreases cs.len(),
{
    if cs.len() > 0 {
        lemma_effect_is_touched(cs.drop_last(), p);
        let a = all_paths(cs.drop_last());
        let b = change_paths(cs.last());
        if change_effect(cs.last(), p).is_some() {
            if b[0] == p {
                assert((a + b)[a.len() as int] == p);
            } else {
                assert((a + b)[a.len() as int + 1] == p);
            }
        } else if side_effect(cs, p).is_some() {
            let k = choose|k: int| 0 <= k < a.len() && a[k] == p;
            assert((a + b)[k] == p);
        }
    }
}

/// A path among those a side's changes touch is one they affect.
pub proof fn lemma_touched_has_effect(cs: Seq<Change>, p: Seq<u8>)
    ensures
        all_paths(cs).contains(p) ==> side_effect(cs, p).is_some(),
    decreases cs.len(),
{
    if cs.len() > 0 {
        lemma_touched_has_effect(cs.drop_last(), p);
        let a = all_paths(cs.drop_last());
        let b = change_paths(cs.last());
        if (a + b).contains(p) && change_effect(cs.last(), p).is_none() {
            let k = choose|k: int| 0 <= k < (a + b).len() && (a + b)[k] == p;
            if k < a.len() {
                assert(a[k] == p);
            } else {
                assert(b[k - a.len()] == p);
            }
        }
    }
}

/// Whether `a` comes before `b` in byte-wise order.
pub fn path_before(a: &Vec<u8>, b: &Vec<u8>) -> (r: bool)
    ensures
        r == path_less(a@, b@),
{
    let mut i: usize = 0;
    while i < a.len() && i < b.len() && a[i] == b[i]
        invariant
            i <= a@.len(),
            i <= b@.len(),
            path_less(a@, b@) == less_from(a@, b@, i as int),
        decreases a@.len() - i,
    {
        i = i + 1;
    }
    if i >= a.len() {
        i < b.len()
    } else if i >= b.len() {
        false
    } else {
        a[i] < b[i]
    }
}

/// Adds `p` to `list` in path order, unless it is there already.
fn add_path(list: &mut Vec<Vec<u8>>, p: &Vec<u8>, Ghost(s): Ghost<Seq<Seq<u8>>>)
    requires
        paths_view(old(list)@) == path_index(s),
    ensures
        paths_view(final(list)@) == path_index(s.push(p@)),
{
    proof {
        assert(s.push(p@).drop_last() =~= s);
        assert(s.push(p@).last() == p@);
    }
    let ghost l = paths_view(list@);
    let mut i: usize = 0;
    while i < list.len()
        invariant
            i <= list@.len(),
            paths_view(list@) == l,
            l == path_index(s),
            forall|k: int| 0 <= k < i ==> list@[k]@ != p@,
        decreases list@.len() - i,
    {
        if bytes_equal(&list[i], p) {
            proof {
                assert(l[i as int] == p@);
                assert(l.contains(p@));
                assert(s.push(p@).drop_last() =~= s);
                assert(s.push(p@).last() == p@);
            }
            return;
        }
        i = i + 1;
    }
    proof {
        if l.contains(p@) {
            let k = choose|k: int| 0 <= k < l.len() && l[k] == p@;
            assert(list@[k]@ == p@);
        }
    }
    let mut j: usize = 0;
    assert(l.skip(0) =~= l);
    while j < list.len() && !path_before(p, &list[j])
        invariant
            j <= list@.len(),
            paths_view(list@) == l,
            insert_in_order(l, p@) == l.take(j as int) + insert_in_order(l.skip(j as int), p@),
        decreases list@.len() - j,
    {
        proof {
            let t = l.skip(j as int);
            assert(t[0] == l[j as int]);
            assert(t.drop_first() =~= l.skip(j + 1));
            assert(l.take(j + 1) =~= l.take(j as int).push(l[j as int]));
            assert(l.take(j as int) + insert_in_order(t, p@) =~= l.take(j + 1) + insert_in_order(l.skip(j + 1), p@));
        }
        j = j + 1;
    }
    proof {
        if j < l.len() {
            assert(l.skip(j as int)[0] == l[j as int]);
        }
    }
    list.insert(j, copy_bytes(p));
    assert(paths_view(list@) =~= l.take(j as int) + insert_in_order(l.skip(j as int), p@));
}

/// Adds the paths of `c` to `list`.
fn add_change_paths(list: &mut Vec<Vec<u8>>, c: &Change, Ghost(s): Ghost<Seq<Seq<u8>>>)
    requires
        paths_view(old(list)@) == path_index(s),
    ensures
        paths_view(final(list)@) == path_index(s + change_paths(*c)),
{
    match c {
        Change::Addition { path, .. } | Change::Deletion { path, .. } | Change::Modification { path, .. } => {
            add_path(list, path, Ghost(s));
            assert(s + change_paths(*c) =~= s.push(path@));
        },
        Change::Rewrite { source_path, path, .. } => {
            add_path(list, source_path, Ghost(s));
            add_path(list, path, Ghost(s.push(source_path@)));
            assert(s + change_paths(*c) =~= s.push(source_path@).push(path@));
        },
    }
}

/// Adds the paths of every change of `cs` to `list`.
fn add_side_paths(list: &mut Vec<Vec<u8>>, cs: &Vec<Change>, Ghost(s): Ghost<Seq<Seq<u8>>>)
    requires
        paths_view(old(list)@) == path_index(s),
    ensures
        paths_view(final(list)@) == path_index(s + all_paths(cs@)),
{
    let mut i: usize = 0;
    while i < cs.len()
        invariant
            i <= cs@.len(),
            paths_view(list@) == path_index(s + all_paths(cs@.take(i as int))),
        decreases cs@.len() - i,
    {
        let ghost before = s + all_paths(cs@.take(i as int));
        add_change_paths(list, &cs[i], Ghost(before));
        proof {
            assert(cs@.take(i + 1).drop_last() =~= cs@.take(i as int));
            assert(before + change_paths(cs@[i as int]) =~= s + all_paths(cs@.take(i + 1)));
        }
        i = i + 1;
    }
    assert(cs@.take(i as int) =~= cs@);
}

/// The change index: every path touched by either side, once, in path order.
pub fn touched_path_list(ours: &Vec<Change>, theirs: &Vec<Change>) -> (r: Vec<Vec<u8>>)
    ensures
        paths_view(r@) == touched_paths(ours@, theirs@),
{
    let mut list: Vec<Vec<u8>> = Vec::new();
    assert(paths_view(list@) =~= path_index(Seq::empty()));
    add_side_paths(&mut list, ours, Ghost(Seq::empty()));
    assert(Seq::<Seq<u8>>::empty() + all_paths(ours@) =~= all_paths(ours@));
    add_side_paths(&mut list, theirs, Ghost(all_paths(ours@)));
    list
}

} // verus!
