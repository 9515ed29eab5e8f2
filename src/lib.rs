//! Three-way merge of trees: per-path reconciliation of the changes made by
//! two sides against a common ancestor, applied to an editable flat tree.
pub mod object;
pub mod change;
pub mod editor;
pub mod merge;
pub mod laws;
pub mod status;

