use tree_merge::change::{touched_path_list, Change};
use tree_merge::editor::Editor;
use tree_merge::merge::{blob_merge_requests, classify, tree, BlobMerge, ConflictKind, Outcome};
use tree_merge::object::{Entry, MODE_BLOB, MODE_BLOB_EXECUTABLE, MODE_LINK};

fn p(s: &str) -> Vec<u8> {
    s.as_bytes().to_vec()
}

fn blob(id: &str) -> Entry {
    Entry { mode: MODE_BLOB, id: p(id) }
}

fn tree_of(entries: &[(&str, &str)]) -> Editor {
    let mut t = Editor::new();
    for (path, id) in entries {
        t.upsert(&p(path), blob(id));
    }
    t
}

fn add(path: &str, id: &str) -> Change {
    Change::Addition { path: p(path), id: p(id), mode: MODE_BLOB }
}

fn del(path: &str, id: &str) -> Change {
    Change::Deletion { path: p(path), id: p(id), mode: MODE_BLOB }
}

fn modify(path: &str, from: &str, to: &str) -> Change {
    Change::Modification { path: p(path), previous_id: p(from), previous_mode: MODE_BLOB, id: p(to), mode: MODE_BLOB }
}

fn rename(from: &str, to: &str, id: &str) -> Change {
    Change::Rewrite { source_path: p(from), path: p(to), id: p(id), mode: MODE_BLOB }
}

fn id_at(o: &Outcome, path: &str) -> Option<Vec<u8>> {
    o.tree.get(&p(path)).map(|e| e.id)
}

fn kinds(o: &Outcome) -> Vec<(ConflictKind, Vec<u8>)> {
    o.conflicts.iter().map(|c| (c.kind, c.path.clone())).collect()
}

#[test]
fn disjoint_additions_merge_cleanly() {
    let base = tree_of(&[("a", "1")]);
    let ours = vec![add("b", "2")];
    let theirs = vec![add("c", "3")];
    let o = tree(&base, &ours, &theirs, &vec![]);
    assert_eq!(o.tree.len(), 3);
    assert_eq!(id_at(&o, "a"), Some(p("1")));
    assert_eq!(id_at(&o, "b"), Some(p("2")));
    assert_eq!(id_at(&o, "c"), Some(p("3")));
    assert!(o.conflicts.is_empty());
}

#[test]
fn unresolved_content_merge_records_conflict() {
    let base = tree_of(&[("a", "x")]);
    let ours = vec![modify("a", "x", "y")];
    let theirs = vec![modify("a", "x", "z")];
    let requests = blob_merge_requests(&base, &ours, &theirs);
    assert_eq!(requests.len(), 1);
    assert_eq!(requests[0].path, p("a"));
    assert_eq!(requests[0].base, Some(p("x")));
    assert_eq!(requests[0].ours, p("y"));
    assert_eq!(requests[0].theirs, p("z"));
    let merged = vec![BlobMerge { path: p("a"), resolved: false, id: p("marked") }];
    let o = tree(&base, &ours, &theirs, &merged);
    assert_eq!(kinds(&o), vec![(ConflictKind::Content, p("a"))]);
    assert_eq!(id_at(&o, "a"), Some(p("marked")));
}

#[test]
fn resolved_content_merge_takes_merged_blob() {
    let base = tree_of(&[("a", "x")]);
    let ours = vec![modify("a", "x", "y")];
    let theirs = vec![modify("a", "x", "z")];
    let merged = vec![BlobMerge { path: p("a"), resolved: true, id: p("yz") }];
    let o = tree(&base, &ours, &theirs, &merged);
    assert!(o.conflicts.is_empty());
    assert_eq!(id_at(&o, "a"), Some(p("yz")));
}

#[test]
fn missing_content_merge_keeps_ours_with_conflict() {
    let base = tree_of(&[("a", "x")]);
    let o = tree(&base, &vec![modify("a", "x", "y")], &vec![modify("a", "x", "z")], &vec![]);
    assert_eq!(kinds(&o), vec![(ConflictKind::Content, p("a"))]);
    assert_eq!(id_at(&o, "a"), Some(p("y")));
}

#[test]
fn delete_against_modify_is_modify_delete_conflict() {
    let base = tree_of(&[("a", "x")]);
    let ours = vec![del("a", "x")];
    let theirs = vec![modify("a", "x", "y")];
    let o = tree(&base, &ours, &theirs, &vec![]);
    assert_eq!(kinds(&o), vec![(ConflictKind::ModifyDelete, p("a"))]);
    assert_eq!(id_at(&o, "a"), None);
    let o = tree(&base, &theirs, &ours, &vec![]);
    assert_eq!(kinds(&o), vec![(ConflictKind::ModifyDelete, p("a"))]);
    assert_eq!(id_at(&o, "a"), None);
}

#[test]
fn identical_sides_give_that_side() {
    let base = tree_of(&[("a", "1"), ("b", "2")]);
    let side = vec![modify("a", "1", "9"), del("b", "2"), add("c", "3")];
    let o = tree(&base, &side, &side, &vec![]);
    assert!(o.conflicts.is_empty());
    assert_eq!(o.tree.len(), 2);
    assert_eq!(id_at(&o, "a"), Some(p("9")));
    assert_eq!(id_at(&o, "b"), None);
    assert_eq!(id_at(&o, "c"), Some(p("3")));
}

#[test]
fn unchanged_side_fast_forwards() {
    let base = tree_of(&[("a", "1"), ("b", "2")]);
    let theirs = vec![modify("a", "1", "5"), del("b", "2")];
    let o = tree(&base, &vec![], &theirs, &vec![]);
    assert!(o.conflicts.is_empty());
    assert_eq!(o.tree.len(), 1);
    assert_eq!(id_at(&o, "a"), Some(p("5")));
    let o = tree(&base, &theirs, &vec![], &vec![]);
    assert!(o.conflicts.is_empty());
    assert_eq!(id_at(&o, "a"), Some(p("5")));
    assert_eq!(id_at(&o, "b"), None);
}

#[test]
fn one_sided_changes_are_taken() {
    let base = tree_of(&[("a", "1"), ("b", "2"), ("c", "3")]);
    let ours = vec![modify("a", "1", "7")];
    let theirs = vec![del("b", "2")];
    let o = tree(&base, &ours, &theirs, &vec![]);
    assert!(o.conflicts.is_empty());
    assert_eq!(id_at(&o, "a"), Some(p("7")));
    assert_eq!(id_at(&o, "b"), None);
    assert_eq!(id_at(&o, "c"), Some(p("3")));
}

#[test]
fn both_deleting_is_no_conflict() {
    let base = tree_of(&[("a", "1"), ("b", "2")]);
    let o = tree(&base, &vec![del("a", "1")], &vec![del("a", "1")], &vec![]);
    assert!(o.conflicts.is_empty());
    assert_eq!(id_at(&o, "a"), None);
    assert_eq!(o.tree.len(), 1);
}

#[test]
fn same_new_id_on_both_sides_is_no_conflict() {
    let base = tree_of(&[("a", "1")]);
    let o = tree(&base, &vec![modify("a", "1", "2")], &vec![modify("a", "1", "2")], &vec![]);
    assert!(o.conflicts.is_empty());
    assert_eq!(id_at(&o, "a"), Some(p("2")));
}

#[test]
fn same_id_with_mode_change_takes_changed_mode() {
    let base = tree_of(&[("a", "1")]);
    let ours = vec![modify("a", "1", "2")];
    let theirs = vec![Change::Modification {
        path: p("a"),
        previous_id: p("1"),
        previous_mode: MODE_BLOB,
        id: p("2"),
        mode: MODE_BLOB_EXECUTABLE,
    }];
    let o = tree(&base, &ours, &theirs, &vec![]);
    assert!(o.conflicts.is_empty());
    let e = o.tree.get(&p("a")).unwrap();
    assert_eq!(e.mode, MODE_BLOB_EXECUTABLE);
    assert_eq!(e.id, p("2"));
}

#[test]
fn different_additions_are_add_add_conflict() {
    let base = tree_of(&[]);
    let merged = vec![BlobMerge { path: p("n"), resolved: true, id: p("both") }];
    let o = tree(&base, &vec![add("n", "1")], &vec![add("n", "2")], &merged);
    assert_eq!(kinds(&o), vec![(ConflictKind::AddAdd, p("n"))]);
    assert_eq!(id_at(&o, "n"), Some(p("both")));
    let requests = blob_merge_requests(&base, &vec![add("n", "1")], &vec![add("n", "2")]);
    assert_eq!(requests.len(), 1);
    assert_eq!(requests[0].base, None);
}

#[test]
fn kind_change_is_type_conflict() {
    let base = tree_of(&[("a", "1")]);
    let ours = vec![modify("a", "1", "2")];
    let theirs = vec![Change::Modification {
        path: p("a"),
        previous_id: p("1"),
        previous_mode: MODE_BLOB,
        id: p("3"),
        mode: MODE_LINK,
    }];
    let o = tree(&base, &ours, &theirs, &vec![]);
    assert_eq!(kinds(&o), vec![(ConflictKind::Type, p("a"))]);
    assert_eq!(id_at(&o, "a"), Some(p("2")));
    assert!(blob_merge_requests(&base, &ours, &theirs).is_empty());
}

#[test]
fn rename_to_different_destinations_conflicts() {
    let base = tree_of(&[("a", "1")]);
    let ours = vec![rename("a", "b", "1")];
    let theirs = vec![rename("a", "c", "1")];
    let o = tree(&base, &ours, &theirs, &vec![]);
    assert_eq!(
        kinds(&o),
        vec![(ConflictKind::RenameRename, p("b")), (ConflictKind::RenameRename, p("c"))]
    );
    assert_eq!(id_at(&o, "a"), None);
    assert_eq!(id_at(&o, "b"), Some(p("1")));
    assert_eq!(id_at(&o, "c"), Some(p("1")));
}

#[test]
fn rename_against_edit_of_source_is_modify_delete() {
    let base = tree_of(&[("a", "1")]);
    let ours = vec![rename("a", "b", "1")];
    let theirs = vec![modify("a", "1", "2")];
    let o = tree(&base, &ours, &theirs, &vec![]);
    assert_eq!(kinds(&o), vec![(ConflictKind::ModifyDelete, p("a"))]);
    assert_eq!(id_at(&o, "b"), Some(p("1")));
}

#[test]
fn conflicts_follow_path_order() {
    let base = tree_of(&[("a", "1"), ("b", "2")]);
    let ours = vec![del("b", "2"), modify("a", "1", "3")];
    let theirs = vec![modify("a", "1", "4"), modify("b", "2", "5")];
    let o = tree(&base, &ours, &theirs, &vec![]);
    assert_eq!(
        kinds(&o),
        vec![(ConflictKind::Content, p("a")), (ConflictKind::ModifyDelete, p("b"))]
    );
    let paths = touched_path_list(&ours, &theirs);
    assert_eq!(paths, vec![p("a"), p("b")]);
}

#[test]
fn repeated_merges_are_identical() {
    let base = tree_of(&[("a", "1"), ("b", "2")]);
    let ours = vec![del("b", "2"), modify("a", "1", "3"), add("c", "4")];
    let theirs = vec![modify("a", "1", "4"), modify("b", "2", "5")];
    let first = tree(&base, &ours, &theirs, &vec![]);
    let second = tree(&base, &ours, &theirs, &vec![]);
    assert_eq!(kinds(&first), kinds(&second));
    let a: Vec<(Vec<u8>, u32, Vec<u8>)> =
        first.tree.entries().iter().map(|e| (e.path.clone(), e.entry.mode, e.entry.id.clone())).collect();
    let b: Vec<(Vec<u8>, u32, Vec<u8>)> =
        second.tree.entries().iter().map(|e| (e.path.clone(), e.entry.mode, e.entry.id.clone())).collect();
    assert_eq!(a, b);
}

#[test]
fn classify_table_rows() {
    let (e, c) = classify(Some(blob("x")), Some(None), None, None);
    assert!(e.is_none());
    assert_eq!(c, None);
    let (e, c) = classify(Some(blob("x")), None, None, None);
    assert_eq!(e.unwrap().id, p("x"));
    assert_eq!(c, None);
    let (e, c) = classify(None, Some(Some(blob("1"))), Some(Some(blob("2"))), Some((false, p("m"))));
    assert_eq!(e.unwrap().id, p("m"));
    assert_eq!(c, Some(ConflictKind::AddAdd));
}

#[test]
fn editor_upsert_and_remove() {
    let mut t = Editor::new();
    t.upsert(&p("dir/file"), blob("1"));
    t.upsert(&p("dir/file"), blob("2"));
    assert_eq!(t.len(), 1);
    assert_eq!(t.get(&p("dir/file")).unwrap().id, p("2"));
    t.remove(&p("dir/file"));
    assert_eq!(t.len(), 0);
    assert!(t.get(&p("dir/file")).is_none());
}

#[test]
fn file_against_directory_is_type_conflict() {
    let base = tree_of(&[("x", "1")]);
    let ours = vec![add("a", "2")];
    let theirs = vec![add("a/b", "3")];
    let o = tree(&base, &ours, &theirs, &vec![]);
    assert_eq!(kinds(&o), vec![(ConflictKind::Type, p("a")), (ConflictKind::Type, p("a/b"))]);
    assert_eq!(id_at(&o, "a"), None);
    assert_eq!(id_at(&o, "a/b"), None);
    assert_eq!(id_at(&o, "x"), Some(p("1")));
    assert!(o.tree.is_valid());
}

#[test]
fn new_entry_inside_kept_file_is_type_conflict() {
    let base = tree_of(&[("a", "1")]);
    let o = tree(&base, &vec![], &vec![add("a/b", "2")], &vec![]);
    assert_eq!(kinds(&o), vec![(ConflictKind::Type, p("a/b"))]);
    assert_eq!(id_at(&o, "a"), Some(p("1")));
    assert_eq!(id_at(&o, "a/b"), None);
}

#[test]
fn file_replaced_by_directory_on_one_side_merges() {
    let base = tree_of(&[("a", "1")]);
    let theirs = vec![del("a", "1"), add("a/b", "2")];
    let o = tree(&base, &vec![], &theirs, &vec![]);
    assert!(o.conflicts.is_empty());
    assert_eq!(id_at(&o, "a"), None);
    assert_eq!(id_at(&o, "a/b"), Some(p("2")));
}

#[test]
fn editor_validity() {
    let mut t = tree_of(&[("a", "1"), ("ab", "2")]);
    assert!(t.is_valid());
    assert!(!t.overlaps_at(&p("a")));
    t.upsert(&p("a/c"), blob("3"));
    assert!(!t.is_valid());
    assert!(t.overlaps_at(&p("a")));
}

#[test]
fn change_index_is_in_byte_order() {
    let ours = vec![add("z", "1"), rename("m", "a/b", "2")];
    let theirs = vec![add("b", "3"), add("a", "4"), add("z", "1")];
    let paths = touched_path_list(&ours, &theirs);
    assert_eq!(paths, vec![p("a"), p("a/b"), p("b"), p("m"), p("z")]);
}

#[test]
fn same_rename_on_both_sides_is_no_conflict() {
    let base = tree_of(&[("a", "1")]);
    let side = vec![rename("a", "b", "1")];
    let o = tree(&base, &side, &side, &vec![]);
    assert!(o.conflicts.is_empty());
    assert_eq!(id_at(&o, "a"), None);
    assert_eq!(id_at(&o, "b"), Some(p("1")));
}
