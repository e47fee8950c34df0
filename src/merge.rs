use vstd::prelude::*;

verus! {

/// The outcome of a three-way merge of a file.
pub struct MergeResult {
    /// The merged content, with conflict markers where the sides disagree.
    pub content: String,
    /// Whether any conflict was left in the content.
    pub has_conflicts: bool,
}

} // verus!
