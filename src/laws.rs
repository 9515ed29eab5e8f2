use vstd::prelude::*;
use crate::object::{EntryModel, mode_kind};
use crate::change::{Change, side_effect, touched_paths};
use crate::editor::{entry_at, overlaps, is_valid_tree};
use crate::merge::{
    BlobMerge, ConflictKind, merge_at, path_conflicts, renames_elsewhere, renamed_apart, rename_clash,
    is_merge_of, merged_map, is_blocked, final_entry, final_conflict,
};

verus! {

/// The entry that one side's tree holds at `p`: the ancestor's, unless the side's
/// changes touch `p`.
pub open spec fn side_entry_at(base: Map<Seq<u8>, EntryModel>, cs: Seq<Change>, p: Seq<u8>) -> Option<EntryModel> {
    match side_effect(cs, p) {
        Some(e) => e,
        None => entry_at(base, p),
    }
}

/// One side's whole tree.
pub open spec fn side_map(base: Map<Seq<u8>, EntryModel>, cs: Seq<Change>) -> Map<Seq<u8>, EntryModel> {
    Map::new(|p: Seq<u8>| side_entry_at(base, cs, p).is_some(), |p: Seq<u8>| side_entry_at(base, cs, p).unwrap())
}

/// Where the decision table's tree is valid and no source is renamed apart, the
/// merged tree and conflicts are the table's.
pub proof fn lemma_valid_table_tree(
    base: Map<Seq<u8>, EntryModel>,
    ours: Seq<Change>,
    theirs: Seq<Change>,
    merges: Seq<BlobMerge>,
)
    requires
        is_valid_tree(merged_map(base, ours, theirs, merges)),
        forall|p: Seq<u8>| !#[trigger] renamed_apart(ours, theirs, p),
    ensures
        forall|p: Seq<u8>| #[trigger] final_entry(base, ours, theirs, merges, p) == merge_at(base, ours, theirs, merges, p).0,
        forall|p: Seq<u8>| #[trigger] final_conflict(base, ours, theirs, merges, p) == merge_at(base, ours, theirs, merges, p).1,
{
    let m = merged_map(base, ours, theirs, merges);
    assert forall|p: Seq<u8>| !#[trigger] is_blocked(base, ours, theirs, merges, p) by {
        if is_blocked(base, ours, theirs, merges, p) {
            assert(m.contains_key(p));
            let q = choose|q: Seq<u8>| #[trigger] m.contains_key(q) && (crate::editor::is_under(p, q) || crate::editor::is_under(q, p));
        }
    }
    assert forall|p: Seq<u8>| #[trigger] final_entry(base, ours, theirs, merges, p) == merge_at(base, ours, theirs, merges, p).0 by {
        assert(!is_blocked(base, ours, theirs, merges, p));
    }
    assert forall|p: Seq<u8>| #[trigger] final_conflict(base, ours, theirs, merges, p) == merge_at(base, ours, theirs, merges, p).1 by {
        assert(!is_blocked(base, ours, theirs, merges, p));
        assert(!renamed_apart(ours, theirs, p));
    }
}

/// No rewrite of `cs` shares its source with another rewrite of `cs` that goes elsewhere.
pub open spec fn renames_agree(cs: Seq<Change>) -> bool {
    forall|i: int, j: int|
        #![trigger cs[i], cs[j]]
        0 <= i < cs.len() && 0 <= j < cs.len() ==> match cs[i] {
            Change::Rewrite { source_path, path, .. } => !renames_elsewhere(cs[j], source_path@, path@),
            _ => true,
        }
}

/// Every conflict that `path_conflicts` lists is the conflict recorded for its path.
pub proof fn lemma_path_conflicts_sound(
    paths: Seq<Seq<u8>>,
    base: Map<Seq<u8>, EntryModel>,
    ours: Seq<Change>,
    theirs: Seq<Change>,
    merges: Seq<BlobMerge>,
)
    ensures
        forall|k: int| 0 <= k < path_conflicts(paths, base, ours, theirs, merges).len() ==>
            final_conflict(base, ours, theirs, merges, #[trigger] path_conflicts(paths, base, ours, theirs, merges)[k].1)
                == Some(path_conflicts(paths, base, ours, theirs, merges)[k].0),
    decreases paths.len(),
{
    if paths.len() > 0 {
        lemma_path_conflicts_sound(paths.drop_last(), base, ours, theirs, merges);
    }
}

/// Where no path of `paths` has a conflict, `path_conflicts` is empty.
pub proof fn lemma_no_path_conflicts(
    paths: Seq<Seq<u8>>,
    base: Map<Seq<u8>, EntryModel>,
    ours: Seq<Change>,
    theirs: Seq<Change>,
    merges: Seq<BlobMerge>,
)
    requires
        forall|k: int| 0 <= k < paths.len() ==> final_conflict(base, ours, theirs, merges, #[trigger] paths[k]).is_none(),
    ensures
        path_conflicts(paths, base, ours, theirs, merges).len() == 0,
    decreases paths.len(),
{
    if paths.len() > 0 {
        let d = paths.drop_last();
        assert forall|k: int| 0 <= k < d.len() implies final_conflict(base, ours, theirs, merges, #[trigger] d[k]).is_none() by {
            assert(d[k] == paths[k]);
        }
        lemma_no_path_conflicts(d, base, ours, theirs, merges);
        assert(final_conflict(base, ours, theirs, merges, paths[paths.len() - 1]).is_none());
    }
}

/// Merging two identical sides yields that side's tree and no conflict.
pub proof fn lemma_identical_sides(
    base: Map<Seq<u8>, EntryModel>,
    cs: Seq<Change>,
    merges: Seq<BlobMerge>,
    tree: Map<Seq<u8>, EntryModel>,
    conflicts: Seq<(ConflictKind, Seq<u8>)>,
)
    requires
        renames_agree(cs),
        is_valid_tree(side_map(base, cs)),
        is_merge_of(base, cs, cs, merges, tree, conflicts),
    ensures
        forall|p: Seq<u8>| #[trigger] entry_at(tree, p) == side_entry_at(base, cs, p),
        conflicts.len() == 0,
{
    let paths = touched_paths(cs, cs);
    assert(merged_map(base, cs, cs, merges) =~= side_map(base, cs));
    assert forall|p: Seq<u8>| !#[trigger] renamed_apart(cs, cs, p) by {
        if renamed_apart(cs, cs, p) {
            let i = choose|i: int| 0 <= i < cs.len() && rename_clash(#[trigger] cs[i], cs, p);
            match cs[i] {
                Change::Rewrite { source_path, path, .. } => {
                    let j = choose|j: int| 0 <= j < cs.len() && renames_elsewhere(cs[j], source_path@, p);
                    assert(cs[i] == cs[i] && cs[j] == cs[j]);
                },
                _ => {},
            }
        }
    }
    lemma_valid_table_tree(base, cs, cs, merges);
    assert forall|p: Seq<u8>| #[trigger] entry_at(tree, p) == side_entry_at(base, cs, p) by {
        assert(entry_at(tree, p) == final_entry(base, cs, cs, merges, p));
    }
    lemma_no_path_conflicts(paths, base, cs, cs, merges);
}

/// When our side changed nothing, the merge is their tree with no conflict.
pub proof fn lemma_fast_forward_theirs(
    base: Map<Seq<u8>, EntryModel>,
    theirs: Seq<Change>,
    merges: Seq<BlobMerge>,
    tree: Map<Seq<u8>, EntryModel>,
    conflicts: Seq<(ConflictKind, Seq<u8>)>,
)
    requires
        is_valid_tree(side_map(base, theirs)),
        is_merge_of(base, Seq::empty(), theirs, merges, tree, conflicts),
    ensures
        forall|p: Seq<u8>| #[trigger] entry_at(tree, p) == side_entry_at(base, theirs, p),
        conflicts.len() == 0,
{
    let ours = Seq::<Change>::empty();
    assert(merged_map(base, ours, theirs, merges) =~= side_map(base, theirs));
    assert forall|p: Seq<u8>| !#[trigger] renamed_apart(ours, theirs, p) by {}
    lemma_valid_table_tree(base, ours, theirs, merges);
    assert forall|p: Seq<u8>| #[trigger] entry_at(tree, p) == side_entry_at(base, theirs, p) by {
        assert(entry_at(tree, p) == final_entry(base, ours, theirs, merges, p));
    }
    lemma_no_path_conflicts(touched_paths(ours, theirs), base, ours, theirs, merges);
}

/// When their side changed nothing, the merge is our tree with no conflict.
pub proof fn lemma_fast_forward_ours(
    base: Map<Seq<u8>, EntryModel>,
    ours: Seq<Change>,
    merges: Seq<BlobMerge>,
    tree: Map<Seq<u8>, EntryModel>,
    conflicts: Seq<(ConflictKind, Seq<u8>)>,
)
    requires
        is_valid_tree(side_map(base, ours)),
        is_merge_of(base, ours, Seq::empty(), merges, tree, conflicts),
    ensures
        forall|p: Seq<u8>| #[trigger] entry_at(tree, p) == side_entry_at(base, ours, p),
        conflicts.len() == 0,
{
    let theirs = Seq::<Change>::empty();
    assert(merged_map(base, ours, theirs, merges) =~= side_map(base, ours));
    assert forall|p: Seq<u8>| !#[trigger] renamed_apart(ours, theirs, p) by {}
    lemma_valid_table_tree(base, ours, theirs, merges);
    assert forall|p: Seq<u8>| #[trigger] entry_at(tree, p) == side_entry_at(base, ours, p) by {
        assert(entry_at(tree, p) == final_entry(base, ours, theirs, merges, p));
    }
    lemma_no_path_conflicts(touched_paths(ours, theirs), base, ours, theirs, merges);
}

/// A path changed by one side only holds that side's result, unless that result
/// would share its place with a file or directory. No conflict names it unless it
/// is the destination of a rename whose source the other side renamed elsewhere.
pub proof fn lemma_one_sided_change(
    base: Map<Seq<u8>, EntryModel>,
    ours: Seq<Change>,
    theirs: Seq<Change>,
    merges: Seq<BlobMerge>,
    tree: Map<Seq<u8>, EntryModel>,
    conflicts: Seq<(ConflictKind, Seq<u8>)>,
    p: Seq<u8>,
)
    requires
        is_merge_of(base, ours, theirs, merges, tree, conflicts),
        side_effect(ours, p).is_some() != side_effect(theirs, p).is_some(),
        !overlaps(merged_map(base, ours, theirs, merges), p),
    ensures
        side_effect(ours, p).is_some() ==> entry_at(tree, p) == side_effect(ours, p).unwrap(),
        side_effect(theirs, p).is_some() ==> entry_at(tree, p) == side_effect(theirs, p).unwrap(),
        !renamed_apart(ours, theirs, p) ==> forall|k: int| 0 <= k < conflicts.len() ==> (#[trigger] conflicts[k]).1 != p,
{
    assert(entry_at(tree, p) == final_entry(base, ours, theirs, merges, p));
    assert(!is_blocked(base, ours, theirs, merges, p));
    lemma_path_conflicts_sound(touched_paths(ours, theirs), base, ours, theirs, merges);
    let pc = path_conflicts(touched_paths(ours, theirs), base, ours, theirs, merges);
    if !renamed_apart(ours, theirs, p) {
        assert forall|k: int| 0 <= k < pc.len() implies (#[trigger] conflicts[k]).1 != p by {
            assert(conflicts[k] == pc[k]);
        }
    }
}

/// A path that both sides delete is gone, without a conflict at it.
pub proof fn lemma_both_delete(
    base: Map<Seq<u8>, EntryModel>,
    ours: Seq<Change>,
    theirs: Seq<Change>,
    merges: Seq<BlobMerge>,
    tree: Map<Seq<u8>, EntryModel>,
    conflicts: Seq<(ConflictKind, Seq<u8>)>,
    p: Seq<u8>,
)
    requires
        is_merge_of(base, ours, theirs, merges, tree, conflicts),
        side_effect(ours, p) == Some(None::<EntryModel>),
        side_effect(theirs, p) == Some(None::<EntryModel>),
    ensures
        !tree.contains_key(p),
        forall|k: int| 0 <= k < conflicts.len() ==> (#[trigger] conflicts[k]).1 != p,
{
    assert(entry_at(tree, p) == final_entry(base, ours, theirs, merges, p));
    assert(!is_blocked(base, ours, theirs, merges, p));
    lemma_path_conflicts_sound(touched_paths(ours, theirs), base, ours, theirs, merges);
    let pc = path_conflicts(touched_paths(ours, theirs), base, ours, theirs, merges);
    assert forall|k: int| 0 <= k < pc.len() implies (#[trigger] conflicts[k]).1 != p by {
        assert(conflicts[k] == pc[k]);
    }
}

/// A path where both sides leave the same object id, of the same kind, holds that
/// id unless it would share its place with a file or directory. No conflict names
/// it unless it is the destination of a rename whose source the other side renamed
/// elsewhere.
pub proof fn lemma_same_result_id(
    base: Map<Seq<u8>, EntryModel>,
    ours: Seq<Change>,
    theirs: Seq<Change>,
    merges: Seq<BlobMerge>,
    tree: Map<Seq<u8>, EntryModel>,
    conflicts: Seq<(ConflictKind, Seq<u8>)>,
    p: Seq<u8>,
    a: EntryModel,
    b: EntryModel,
)
    requires
        is_merge_of(base, ours, theirs, merges, tree, conflicts),
        side_effect(ours, p) == Some(Some(a)),
        side_effect(theirs, p) == Some(Some(b)),
        a.id == b.id,
        mode_kind(a.mode) == mode_kind(b.mode),
        !overlaps(merged_map(base, ours, theirs, merges), p),
    ensures
        tree.contains_key(p) && tree[p].id == a.id,
        !renamed_apart(ours, theirs, p) ==> forall|k: int| 0 <= k < conflicts.len() ==> (#[trigger] conflicts[k]).1 != p,
{
    assert(entry_at(tree, p) == final_entry(base, ours, theirs, merges, p));
    assert(!is_blocked(base, ours, theirs, merges, p));
    lemma_path_conflicts_sound(touched_paths(ours, theirs), base, ours, theirs, merges);
    let pc = path_conflicts(touched_paths(ours, theirs), base, ours, theirs, merges);
    if !renamed_apart(ours, theirs, p) {
        assert forall|k: int| 0 <= k < pc.len() implies (#[trigger] conflicts[k]).1 != p by {
            assert(conflicts[k] == pc[k]);
        }
    }
}

/// Two merges of the same inputs yield the same tree and the same conflicts, in the same order.
pub proof fn lemma_deterministic(
    base: Map<Seq<u8>, EntryModel>,
    ours: Seq<Change>,
    theirs: Seq<Change>,
    merges: Seq<BlobMerge>,
    tree1: Map<Seq<u8>, EntryModel>,
    conflicts1: Seq<(ConflictKind, Seq<u8>)>,
    tree2: Map<Seq<u8>, EntryModel>,
    conflicts2: Seq<(ConflictKind, Seq<u8>)>,
)
    requires
        is_merge_of(base, ours, theirs, merges, tree1, conflicts1),
        is_merge_of(base, ours, theirs, merges, tree2, conflicts2),
    ensures
        tree1 == tree2,
        conflicts1 == conflicts2,
{
    assert forall|p: Seq<u8>| tree1.contains_key(p) <==> tree2.contains_key(p) by {
        assert(entry_at(tree1, p) == entry_at(tree2, p));
    }
    assert forall|p: Seq<u8>| tree1.contains_key(p) implies tree1[p] == tree2[p] by {
        assert(entry_at(tree1, p) == entry_at(tree2, p));
    }
    assert(tree1 =~= tree2);
}

} // verus!
