use vstd::prelude::*;
use crate::object::{
    Entry, EntryModel, mode_kind, is_mergeable_mode, kind_of_mode, is_mergeable, bytes_equal,
    entries_equal, copy_bytes,
};
use crate::change::{
    Change, side_effect, touched_paths, opt_view, opt_opt_view, effect_of_side, touched_path_list,
    paths_view, all_paths, lemma_effect_is_touched, lemma_path_index, lemma_touched_has_effect,
};
use crate::editor::{Editor, entry_at, overlaps, is_valid_tree, is_under};

verus! {

/// What kind of issue left a path without an automatic resolution.
#[derive(PartialEq, Eq, Structural, Clone, Copy, Debug)]
pub enum ConflictKind {
    /// Both sides changed a file's content and the content merge left markers.
    Content,
    /// Both sides added different entries at the same path.
    AddAdd,
    /// One side deleted the path, the other changed it.
    ModifyDelete,
    /// Both sides renamed the same source to different destinations; recorded at each destination.
    RenameRename,
    /// The two sides left objects of different kinds at the path.
    Type,
}

/// A path that the merge could not resolve on its own.
pub struct Conflict {
    pub kind: ConflictKind,
    pub path: Vec<u8>,
}

impl View for Conflict {
    type V = (ConflictKind, Seq<u8>);

    open spec fn view(&self) -> (ConflictKind, Seq<u8>) {
        (self.kind, self.path@)
    }
}

/// What the content merge of the file at `path` produced: the id of the merged
/// blob, and whether it merged cleanly or holds conflict markers.
pub struct BlobMerge {
    pub path: Vec<u8>,
    pub resolved: bool,
    pub id: Vec<u8>,
}

/// The merged tree and the conflicts met on the way, in the order of the change index.
pub struct Outcome {
    pub tree: Editor,
    pub conflicts: Vec<Conflict>,
}

/// The contract view of a list of conflicts.
pub open spec fn conflicts_view(v: Seq<Conflict>) -> Seq<(ConflictKind, Seq<u8>)> {
    v.map_values(|c: Conflict| c@)
}

/// The content merge result given for `p`: the last one in `merges` that names it.
pub open spec fn blob_merge_at(merges: Seq<BlobMerge>, p: Seq<u8>) -> Option<(bool, Seq<u8>)>
    decreases merges.len(),
{
    if merges.len() == 0 {
        None
    } else if merges.last().path@ == p {
        Some((merges.last().resolved, merges.last().id@))
    } else {
        blob_merge_at(merges.drop_last(), p)
    }
}

/// The mode of a merged file: the side that changed the mode wins, ours if both did.
pub open spec fn merged_mode(base: Option<EntryModel>, ours: EntryModel, theirs: EntryModel) -> u32 {
    match base {
        Some(b) => if ours.mode == b.mode { theirs.mode } else { ours.mode },
        None => ours.mode,
    }
}

/// The conflict of two sides that both leave an entry, and differ.
pub open spec fn content_conflict(base: Option<EntryModel>) -> ConflictKind {
    if base.is_none() { ConflictKind::AddAdd } else { ConflictKind::Content }
}

/// Both sides leave a different entry at the path.
pub open spec fn resolve_both_present(
    base: Option<EntryModel>,
    ours: EntryModel,
    theirs: EntryModel,
    blob: Option<(bool, Seq<u8>)>,
) -> (Option<EntryModel>, Option<ConflictKind>) {
    if mode_kind(ours.mode) != mode_kind(theirs.mode) {
        (Some(ours), Some(ConflictKind::Type))
    } else if ours.id == theirs.id {
        (Some(EntryModel { mode: merged_mode(base, ours, theirs), id: ours.id }), None)
    } else if is_mergeable_mode(ours.mode) && blob.is_some() {
        let merged = EntryModel { mode: merged_mode(base, ours, theirs), id: blob.unwrap().1 };
        if base.is_some() && blob.unwrap().0 {
            (Some(merged), None)
        } else {
            (Some(merged), Some(content_conflict(base)))
        }
    } else {
        (Some(ours), Some(content_conflict(base)))
    }
}

/// The decision table: the entry left at a path and the conflict recorded for it,
/// given the ancestor's entry, each side's effect, and the content merge result.
pub open spec fn resolve(
    base: Option<EntryModel>,
    ours: Option<Option<EntryModel>>,
    theirs: Option<Option<EntryModel>>,
    blob: Option<(bool, Seq<u8>)>,
) -> (Option<EntryModel>, Option<ConflictKind>) {
    match (ours, theirs) {
        (None, None) => (base, None),
        (Some(o), None) => (o, None),
        (None, Some(t)) => (t, None),
        (Some(o), Some(t)) => if o == t {
            (o, None)
        } else {
            match (o, t) {
                (Some(a), Some(b)) => resolve_both_present(base, a, b, blob),
                _ => (None, Some(ConflictKind::ModifyDelete)),
            }
        },
    }
}

/// The resolution of path `p` in a merge.
pub open spec fn merge_at(
    base: Map<Seq<u8>, EntryModel>,
    ours: Seq<Change>,
    theirs: Seq<Change>,
    merges: Seq<BlobMerge>,
    p: Seq<u8>,
) -> (Option<EntryModel>, Option<ConflictKind>) {
    resolve(entry_at(base, p), side_effect(ours, p), side_effect(theirs, p), blob_merge_at(merges, p))
}

/// The tree that the decision table gives, path by path.
pub open spec fn merged_map(
    base: Map<Seq<u8>, EntryModel>,
    ours: Seq<Change>,
    theirs: Seq<Change>,
    merges: Seq<BlobMerge>,
) -> Map<Seq<u8>, EntryModel> {
    Map::new(
        |p: Seq<u8>| merge_at(base, ours, theirs, merges, p).0.is_some(),
        |p: Seq<u8>| merge_at(base, ours, theirs, merges, p).0.unwrap(),
    )
}

/// Whether either side's changes touch `p`.
pub open spec fn is_touched(ours: Seq<Change>, theirs: Seq<Change>, p: Seq<u8>) -> bool {
    side_effect(ours, p).is_some() || side_effect(theirs, p).is_some()
}

/// A touched path whose entry would share its place with a file or directory of
/// the table's tree: it is left out and reported as a type conflict.
pub open spec fn is_blocked(
    base: Map<Seq<u8>, EntryModel>,
    ours: Seq<Change>,
    theirs: Seq<Change>,
    merges: Seq<BlobMerge>,
    p: Seq<u8>,
) -> bool {
    is_touched(ours, theirs, p) && merge_at(base, ours, theirs, merges, p).0.is_some() && overlaps(
        merged_map(base, ours, theirs, merges),
        p,
    )
}

/// The entry the merged tree holds at `p`.
pub open spec fn final_entry(
    base: Map<Seq<u8>, EntryModel>,
    ours: Seq<Change>,
    theirs: Seq<Change>,
    merges: Seq<BlobMerge>,
    p: Seq<u8>,
) -> Option<EntryModel> {
    if is_blocked(base, ours, theirs, merges, p) {
        None
    } else {
        merge_at(base, ours, theirs, merges, p).0
    }
}

/// Whether `c` renames some source to `p`, and `other` renames that source elsewhere.
pub open spec fn rename_clash(c: Change, other: Seq<Change>, p: Seq<u8>) -> bool {
    match c {
        Change::Rewrite { source_path, path, .. } => path@ == p && exists|j: int|
            0 <= j < other.len() && renames_elsewhere(other[j], source_path@, p),
        _ => false,
    }
}

/// `side` leaves an entry at `p` that it renamed there from a source that `other`
/// renamed to another place.
pub open spec fn side_clash(side: Seq<Change>, other: Seq<Change>, p: Seq<u8>) -> bool {
    &&& side_effect(side, p) matches Some(Some(_))
    &&& exists|i: int| 0 <= i < side.len() && rename_clash(#[trigger] side[i], other, p)
}

/// `p` is the destination of a rename whose source the other side renamed to
/// another place.
pub open spec fn renamed_apart(ours: Seq<Change>, theirs: Seq<Change>, p: Seq<u8>) -> bool {
    side_clash(ours, theirs, p) || side_clash(theirs, ours, p)
}

/// The conflict recorded at `p`: the table's, a type conflict for a blocked path,
/// or a rename/rename conflict at each destination of a source that the sides
/// renamed apart.
pub open spec fn final_conflict(
    base: Map<Seq<u8>, EntryModel>,
    ours: Seq<Change>,
    theirs: Seq<Change>,
    merges: Seq<BlobMerge>,
    p: Seq<u8>,
) -> Option<ConflictKind> {
    if merge_at(base, ours, theirs, merges, p).1.is_some() {
        merge_at(base, ours, theirs, merges, p).1
    } else if is_blocked(base, ours, theirs, merges, p) {
        Some(ConflictKind::Type)
    } else if renamed_apart(ours, theirs, p) {
        Some(ConflictKind::RenameRename)
    } else {
        None
    }
}

/// The conflicts of the paths in `paths`, in that order.
pub open spec fn path_conflicts(
    paths: Seq<Seq<u8>>,
    base: Map<Seq<u8>, EntryModel>,
    ours: Seq<Change>,
    theirs: Seq<Change>,
    merges: Seq<BlobMerge>,
) -> Seq<(ConflictKind, Seq<u8>)>
    decreases paths.len(),
{
    if paths.len() == 0 {
        Seq::empty()
    } else {
        let rest = path_conflicts(paths.drop_last(), base, ours, theirs, merges);
        match final_conflict(base, ours, theirs, merges, paths.last()) {
            Some(k) => rest.push((k, paths.last())),
            None => rest,
        }
    }
}

/// What a merge of `ours` and `theirs` onto `base` yields: the tree, path by path,
/// and the conflicts in order.
pub open spec fn is_merge_of(
    base: Map<Seq<u8>, EntryModel>,
    ours: Seq<Change>,
    theirs: Seq<Change>,
    merges: Seq<BlobMerge>,
    tree: Map<Seq<u8>, EntryModel>,
    conflicts: Seq<(ConflictKind, Seq<u8>)>,
) -> bool {
    &&& forall|p: Seq<u8>| #[trigger] entry_at(tree, p) == final_entry(base, ours, theirs, merges, p)
    &&& conflicts == path_conflicts(touched_paths(ours, theirs), base, ours, theirs, merges)
}

/// Whether `c` renames `source` to somewhere other than `dest`.
pub open spec fn renames_elsewhere(c: Change, source: Seq<u8>, dest: Seq<u8>) -> bool {
    match c {
        Change::Rewrite { source_path, path, .. } => source_path@ == source && path@ != dest,
        _ => false,
    }
}

/// The content merge result given for `p`.
fn find_blob_merge(merges: &Vec<BlobMerge>, p: &Vec<u8>) -> (r: Option<(bool, Vec<u8>)>)
    ensures
        blob_view(r) == blob_merge_at(merges@, p@),
{
    let mut i: usize = merges.len();
    assert(merges@.take(i as int) =~= merges@);
    while i > 0
        invariant
            i <= merges@.len(),
            blob_merge_at(merges@, p@) == blob_merge_at(merges@.take(i as int), p@),
        decreases i,
    {
        proof {
            assert(merges@.take(i as int).drop_last() =~= merges@.take(i - 1));
        }
        i = i - 1;
        if bytes_equal(&merges[i].path, p) {
            return Some((merges[i].resolved, copy_bytes(&merges[i].id)));
        }
    }
    None
}

/// The contract view of a content merge result.
pub open spec fn blob_view(b: Option<(bool, Vec<u8>)>) -> Option<(bool, Seq<u8>)> {
    match b {
        Some(x) => Some((x.0, x.1@)),
        None => None,
    }
}

/// Classifies one path: the entry to leave there and the conflict to record, if any.
pub fn classify(
    base: Option<Entry>,
    ours: Option<Option<Entry>>,
    theirs: Option<Option<Entry>>,
    blob: Option<(bool, Vec<u8>)>,
) -> (r: (Option<Entry>, Option<ConflictKind>))
    ensures
        (opt_view(r.0), r.1) == resolve(opt_view(base), opt_opt_view(ours), opt_opt_view(theirs), blob_view(blob)),
{
    match (ours, theirs) {
        (None, None) => (base, None),
        (Some(o), None) => (o, None),
        (None, Some(t)) => (t, None),
        (Some(o), Some(t)) => match (o, t) {
            (None, None) => (None, None),
            (Some(a), None) => (None, Some(ConflictKind::ModifyDelete)),
            (None, Some(b)) => (None, Some(ConflictKind::ModifyDelete)),
            (Some(a), Some(b)) => {
                if entries_equal(&a, &b) {
                    (Some(a), None)
                } else {
                    let kind = if base.is_none() { ConflictKind::AddAdd } else { ConflictKind::Content };
                    let mode = match &base {
                        Some(e) => if a.mode == e.mode { b.mode } else { a.mode },
                        None => a.mode,
                    };
                    if kind_of_mode(a.mode) != kind_of_mode(b.mode) {
                        (Some(a), Some(ConflictKind::Type))
                    } else if bytes_equal(&a.id, &b.id) {
                        (Some(Entry { mode, id: a.id }), None)
                    } else if is_mergeable(a.mode) && blob.is_some() {
                        let (clean, id) = blob.unwrap();
                        if base.is_some() && clean {
                            (Some(Entry { mode, id }), None)
                        } else {
                            (Some(Entry { mode, id }), Some(kind))
                        }
                    } else {
                        (Some(a), Some(kind))
                    }
                }
            },
        },
    }
}

/// Whether some change of `theirs` renames `source` to somewhere other than `dest`.
fn renamed_elsewhere(theirs: &Vec<Change>, source: &Vec<u8>, dest: &Vec<u8>) -> (r: bool)
    ensures
        r == exists|j: int| 0 <= j < theirs@.len() && renames_elsewhere(theirs@[j], source@, dest@),
{
    let mut j: usize = 0;
    while j < theirs.len()
        invariant
            j <= theirs@.len(),
            forall|k: int| 0 <= k < j ==> !renames_elsewhere(theirs@[k], source@, dest@),
        decreases theirs@.len() - j,
    {
        match &theirs[j] {
            Change::Rewrite { source_path, path, .. } => {
                if bytes_equal(source_path, source) && !bytes_equal(path, dest) {
                    return true;
                }
            },
            _ => {},
        }
        j = j + 1;
    }
    false
}

/// Whether some rename of `side` takes a source to `p` that `other` renames elsewhere.
fn find_rename_clash(side: &Vec<Change>, other: &Vec<Change>, p: &Vec<u8>) -> (r: bool)
    ensures
        r == exists|i: int| 0 <= i < side@.len() && rename_clash(#[trigger] side@[i], other@, p@),
{
    let mut i: usize = 0;
    while i < side.len()
        invariant
            i <= side@.len(),
            forall|k: int| 0 <= k < i ==> !rename_clash(#[trigger] side@[k], other@, p@),
        decreases side@.len() - i,
    {
        match &side[i] {
            Change::Rewrite { source_path, path, .. } => {
                if bytes_equal(path, p) && renamed_elsewhere(other, source_path, path) {
                    assert(rename_clash(side@[i as int], other@, p@));
                    return true;
                }
            },
            _ => {},
        }
        i = i + 1;
    }
    false
}

/// Whether `side` leaves a clashing rename's entry at `p`.
fn side_clashes(side: &Vec<Change>, other: &Vec<Change>, p: &Vec<u8>) -> (r: bool)
    ensures
        r == side_clash(side@, other@, p@),
{
    let e = effect_of_side(side, p);
    matches!(e, Some(Some(_))) && find_rename_clash(side, other, p)
}

/// Merges the changes `ours` and `theirs` made to the ancestor tree `base`, which
/// must be a valid tree (see [`Editor::is_valid`]).
///
/// Every path touched by either side is resolved by [`classify`], with the content
/// merge result that `blob_merges` gives for it; every other path keeps the
/// ancestor's entry. A touched path whose entry would then be a file where a
/// directory is, or lie inside a file, is left out and reported as a type conflict,
/// so the merged tree is always a valid tree. Where both sides renamed a source
/// to different places, each destination carries a rename/rename conflict. Conflicts, at most one per path,
/// come in the order of the change index.
pub fn tree(base: &Editor, ours: &Vec<Change>, theirs: &Vec<Change>, blob_merges: &Vec<BlobMerge>) -> (r: Outcome)
    requires
        base.well_formed(),
        is_valid_tree(base@),
    ensures
        r.tree.well_formed(),
        is_valid_tree(r.tree@),
        forall|p: Seq<u8>| #[trigger] entry_at(r.tree@, p) == final_entry(base@, ours@, theirs@, blob_merges@, p),
        conflicts_view(r.conflicts@) == path_conflicts(touched_paths(ours@, theirs@), base@, ours@, theirs@, blob_merges@),
        is_merge_of(base@, ours@, theirs@, blob_merges@, r.tree@, conflicts_view(r.conflicts@)),
{
    let paths = touched_path_list(ours, theirs);
    let ghost tp = touched_paths(ours@, theirs@);
    let ghost all = all_paths(ours@) + all_paths(theirs@);
    let ghost m = merged_map(base@, ours@, theirs@, blob_merges@);
    proof {
        lemma_path_index(all);
    }
    let mut result = base.duplicate();
    let mut kinds: Vec<Option<ConflictKind>> = Vec::new();
    let mut i: usize = 0;
    assert(tp.take(0) =~= Seq::<Seq<u8>>::empty());
    while i < paths.len()
        invariant
            base.well_formed(),
            result.well_formed(),
            i <= paths@.len(),
            kinds@.len() == i,
            paths_view(paths@) == tp,
            tp == touched_paths(ours@, theirs@),
            forall|a: int, b: int| 0 <= a < b < tp.len() ==> tp[a] != tp[b],
            forall|p: Seq<u8>| #[trigger] entry_at(result@, p) == (if tp.take(i as int).contains(p) {
                merge_at(base@, ours@, theirs@, blob_merges@, p).0
            } else {
                entry_at(base@, p)
            }),
            forall|k: int| 0 <= k < i ==> #[trigger] kinds@[k] == merge_at(base@, ours@, theirs@, blob_merges@, tp[k]).1,
        decreases paths@.len() - i,
    {
        let p = &paths[i];
        let ghost pv = p@;
        assert(tp[i as int] == pv);
        let at_base = base.get(p);
        assert(opt_view(at_base) == entry_at(base@, pv));
        let (entry, conflict) = classify(
            at_base,
            effect_of_side(ours, p),
            effect_of_side(theirs, p),
            find_blob_merge(blob_merges, p),
        );
        let ghost resolved = opt_view(entry);
        let ghost mid = result@;
        match entry {
            Some(e) => result.upsert(p, e),
            None => result.remove(p),
        }
        kinds.push(conflict);
        proof {
            let before = tp.take(i as int);
            let after = tp.take(i + 1);
            assert(after =~= before.push(pv));
            crate::change::lemma_push_contains(before, pv);
            assert(entry_at(result@, pv) == resolved);
            assert forall|q: Seq<u8>| q != pv implies #[trigger] entry_at(result@, q) == entry_at(mid, q) by {}
        }
        i = i + 1;
    }
    proof {
        assert(tp.take(i as int) =~= tp);
        lemma_path_index(all);
        assert forall|p: Seq<u8>| #[trigger] entry_at(result@, p) == merge_at(base@, ours@, theirs@, blob_merges@, p).0 by {
            if !tp.contains(p) {
                lemma_effect_is_touched(ours@, p);
                lemma_effect_is_touched(theirs@, p);
                let a = all_paths(ours@);
                let b = all_paths(theirs@);
                if a.contains(p) {
                    let k = choose|k: int| 0 <= k < a.len() && a[k] == p;
                    assert(all[k] == p);
                }
                if b.contains(p) {
                    let k = choose|k: int| 0 <= k < b.len() && b[k] == p;
                    assert(all[a.len() + k] == p);
                }
            }
        }
        assert forall|p: Seq<u8>| #[trigger] result@.contains_key(p) == m.contains_key(p) by {
            assert(entry_at(result@, p) == merge_at(base@, ours@, theirs@, blob_merges@, p).0);
        }
        assert forall|p: Seq<u8>| result@.contains_key(p) implies #[trigger] result@[p] == m[p] by {
            assert(entry_at(result@, p) == merge_at(base@, ours@, theirs@, blob_merges@, p).0);
        }
        assert(result@ =~= m);
    }
    let snapshot = result.duplicate();
    let mut conflicts: Vec<Conflict> = Vec::new();
    let mut j: usize = 0;
    assert(conflicts_view(conflicts@) =~= Seq::empty());
    while j < paths.len()
        invariant
            snapshot.well_formed(),
            snapshot@ == m,
            m == merged_map(base@, ours@, theirs@, blob_merges@),
            result.well_formed(),
            j <= paths@.len(),
            kinds@.len() == paths@.len(),
            paths_view(paths@) == tp,
            tp == touched_paths(ours@, theirs@),
            all == all_paths(ours@) + all_paths(theirs@),
            forall|x: Seq<u8>| #[trigger] tp.contains(x) <==> all.contains(x),
            forall|a: int, b: int| 0 <= a < b < tp.len() ==> tp[a] != tp[b],
            forall|p: Seq<u8>| #[trigger] entry_at(result@, p) == (if tp.take(j as int).contains(p) {
                final_entry(base@, ours@, theirs@, blob_merges@, p)
            } else {
                merge_at(base@, ours@, theirs@, blob_merges@, p).0
            }),
            forall|k: int| 0 <= k < paths@.len() ==> #[trigger] kinds@[k] == merge_at(base@, ours@, theirs@, blob_merges@, tp[k]).1,
            conflicts_view(conflicts@) == path_conflicts(tp.take(j as int), base@, ours@, theirs@, blob_merges@),
        decreases paths@.len() - j,
    {
        let p = &paths[j];
        let ghost pv = p@;
        assert(tp[j as int] == pv);
        proof {
            assert(tp.contains(pv));
            let a = all_paths(ours@);
            let b = all_paths(theirs@);
            let k = choose|k: int| 0 <= k < all.len() && all[k] == pv;
            if k < a.len() {
                assert(a[k] == pv);
                lemma_touched_has_effect(ours@, pv);
            } else {
                assert(b[k - a.len()] == pv);
                lemma_touched_has_effect(theirs@, pv);
            }
            assert(is_touched(ours@, theirs@, pv));
        }
        let present = snapshot.get(p).is_some();
        let blocked = present && snapshot.overlaps_at(p);
        let ghost mid = result@;
        if blocked {
            result.remove(p);
        }
        let kind = match kinds[j] {
            Some(k) => Some(k),
            None => if blocked {
                Some(ConflictKind::Type)
            } else if side_clashes(ours, theirs, p) || side_clashes(theirs, ours, p) {
                Some(ConflictKind::RenameRename)
            } else {
                None
            },
        };
        let ghost prev = conflicts@;
        match kind {
            Some(k) => conflicts.push(Conflict { kind: k, path: copy_bytes(p) }),
            None => {},
        }
        proof {
            let before = tp.take(j as int);
            let after = tp.take(j + 1);
            assert(after =~= before.push(pv));
            assert(after.drop_last() =~= before);
            crate::change::lemma_push_contains(before, pv);
            assert(!before.contains(pv)) by {
                if before.contains(pv) {
                    let k = choose|k: int| 0 <= k < before.len() && before[k] == pv;
                    assert(tp[k] == tp[j as int]);
                }
            }
            assert(blocked == is_blocked(base@, ours@, theirs@, blob_merges@, pv));
            assert(kind == final_conflict(base@, ours@, theirs@, blob_merges@, pv));
            assert(conflicts_view(conflicts@) =~= path_conflicts(after, base@, ours@, theirs@, blob_merges@));
            assert forall|q: Seq<u8>| q != pv implies #[trigger] entry_at(result@, q) == entry_at(mid, q) by {}
            assert(entry_at(result@, pv) == final_entry(base@, ours@, theirs@, blob_merges@, pv));
        }
        j = j + 1;
    }
    proof {
        assert(tp.take(j as int) =~= tp);
        assert forall|p: Seq<u8>| #[trigger] entry_at(result@, p) == final_entry(base@, ours@, theirs@, blob_merges@, p) by {
            if !tp.contains(p) {
                lemma_effect_is_touched(ours@, p);
                lemma_effect_is_touched(theirs@, p);
                let a = all_paths(ours@);
                let b = all_paths(theirs@);
                if a.contains(p) {
                    let k = choose|k: int| 0 <= k < a.len() && a[k] == p;
                    assert(all[k] == p);
                }
                if b.contains(p) {
                    let k = choose|k: int| 0 <= k < b.len() && b[k] == p;
                    assert(all[a.len() + k] == p);
                }
            }
        }
        lemma_merge_is_valid(base@, ours@, theirs@, blob_merges@, result@);
    }
    Outcome { tree: result, conflicts }
}

/// A tree that holds `final_entry` at every path is valid when the ancestor is.
proof fn lemma_merge_is_valid(
    base: Map<Seq<u8>, EntryModel>,
    ours: Seq<Change>,
    theirs: Seq<Change>,
    merges: Seq<BlobMerge>,
    t: Map<Seq<u8>, EntryModel>,
)
    requires
        is_valid_tree(base),
        forall|p: Seq<u8>| #[trigger] entry_at(t, p) == final_entry(base, ours, theirs, merges, p),
    ensures
        is_valid_tree(t),
{
    let m = merged_map(base, ours, theirs, merges);
    assert forall|p: Seq<u8>, q: Seq<u8>| t.contains_key(p) && t.contains_key(q) implies !#[trigger] is_under(p, q) by {
        if is_under(p, q) {
            assert(entry_at(t, p) == final_entry(base, ours, theirs, merges, p));
            assert(entry_at(t, q) == final_entry(base, ours, theirs, merges, q));
            assert(m.contains_key(p));
            assert(m.contains_key(q));
            if is_touched(ours, theirs, p) {
                assert(overlaps(m, p));
            } else if is_touched(ours, theirs, q) {
                assert(overlaps(m, q));
            } else {
                assert(base.contains_key(p));
                assert(base.contains_key(q));
            }
        }
    }
}

/// A file that both sides changed to different contents: the ids of the ancestor's
/// blob (if it had one), of ours and of theirs, for the content merge to combine.
pub struct BlobMergeRequest {
    pub path: Vec<u8>,
    pub base: Option<Vec<u8>>,
    pub ours: Vec<u8>,
    pub theirs: Vec<u8>,
}

impl View for BlobMergeRequest {
    type V = (Seq<u8>, Option<Seq<u8>>, Seq<u8>, Seq<u8>);

    open spec fn view(&self) -> (Seq<u8>, Option<Seq<u8>>, Seq<u8>, Seq<u8>) {
        (self.path@, match self.base {
            Some(b) => Some(b@),
            None => None,
        }, self.ours@, self.theirs@)
    }
}

/// Whether the decision table consults a content merge for a path with these effects.
pub open spec fn needs_content_merge(ours: Option<Option<EntryModel>>, theirs: Option<Option<EntryModel>>) -> bool {
    match (ours, theirs) {
        (Some(Some(a)), Some(Some(b))) =>
            mode_kind(a.mode) == mode_kind(b.mode) && a.id != b.id && is_mergeable_mode(a.mode),
        _ => false,
    }
}

/// The content merges that a merge of `ours` and `theirs` onto `base` asks for,
/// in the order of `paths`.
pub open spec fn content_merges(
    paths: Seq<Seq<u8>>,
    base: Map<Seq<u8>, EntryModel>,
    ours: Seq<Change>,
    theirs: Seq<Change>,
) -> Seq<(Seq<u8>, Option<Seq<u8>>, Seq<u8>, Seq<u8>)>
    decreases paths.len(),
{
    if paths.len() == 0 {
        Seq::empty()
    } else {
        let rest = content_merges(paths.drop_last(), base, ours, theirs);
        let p = paths.last();
        let o = side_effect(ours, p);
        let t = side_effect(theirs, p);
        if needs_content_merge(o, t) {
            let b = match entry_at(base, p) {
                Some(e) => Some(e.id),
                None => None,
            };
            rest.push((p, b, o.unwrap().unwrap().id, t.unwrap().unwrap().id))
        } else {
            rest
        }
    }
}

/// The contract view of a list of content merge requests.
pub open spec fn requests_view(v: Seq<BlobMergeRequest>) -> Seq<(Seq<u8>, Option<Seq<u8>>, Seq<u8>, Seq<u8>)> {
    v.map_values(|r: BlobMergeRequest| r@)
}

/// The files whose merge needs a content merge, in the order of the change index.
/// Their results, handed to [`tree`] as [`BlobMerge`]s, decide those paths.
pub fn blob_merge_requests(base: &Editor, ours: &Vec<Change>, theirs: &Vec<Change>) -> (r: Vec<BlobMergeRequest>)
    requires
        base.well_formed(),
    ensures
        requests_view(r@) == content_merges(touched_paths(ours@, theirs@), base@, ours@, theirs@),
{
    let paths = touched_path_list(ours, theirs);
    let ghost tp = touched_paths(ours@, theirs@);
    let mut requests: Vec<BlobMergeRequest> = Vec::new();
    let mut i: usize = 0;
    assert(requests_view(requests@) =~= content_merges(tp.take(0), base@, ours@, theirs@));
    while i < paths.len()
        invariant
            base.well_formed(),
            i <= paths@.len(),
            paths_view(paths@) == tp,
            requests_view(requests@) == content_merges(tp.take(i as int), base@, ours@, theirs@),
        decreases paths@.len() - i,
    {
        let p = &paths[i];
        let ghost pv = p@;
        assert(tp[i as int] == pv);
        proof {
            assert(tp.take(i + 1).drop_last() =~= tp.take(i as int));
            assert(tp.take(i + 1).last() == pv);
        }
        let o = effect_of_side(ours, p);
        let t = effect_of_side(theirs, p);
        match (o, t) {
            (Some(Some(a)), Some(Some(b))) => {
                if kind_of_mode(a.mode) == kind_of_mode(b.mode) && !bytes_equal(&a.id, &b.id)
                    && is_mergeable(a.mode) {
                    let at_base = base.get(p);
                    let base_id = match at_base {
                        Some(e) => Some(e.id),
                        None => None,
                    };
                    let ghost prev = requests@;
                    requests.push(BlobMergeRequest { path: copy_bytes(p), base: base_id, ours: a.id, theirs: b.id });
                    assert(requests_view(requests@) =~= requests_view(prev).push(requests@.last()@));
                }
            },
            _ => {},
        }
        i = i + 1;
    }
    assert(tp.take(i as int) =~= tp);
    requests
}

} // verus!
