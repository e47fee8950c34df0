use vstd::prelude::*;

verus! {

/// What a line of a line diff is.
#[derive(Debug, Clone, Copy, PartialEq, Eq, Structural)]
pub enum ChangeKind {
    Equal,
    Delete,
    Insert,
}

/// The kinds of the changes of similar's line diff from `old` to `new`, in order.
pub uninterp spec fn line_changes(old: Seq<char>, new: Seq<char>) -> Seq<ChangeKind>;

/// The hunks of similar's unified line diff from `old` to `new`, with three
/// lines of context, as text.
pub uninterp spec fn unified_hunks(old: Seq<char>, new: Seq<char>) -> Seq<char>;

/// Relies on similar's `TextDiff::from_lines` and `iter_all_changes`: the tag
/// of each change of the line diff, in order.
#[verifier::external_body]
fn change_kinds(old: &str, new: &str) -> (r: Vec<ChangeKind>)
    ensures
        r@ == line_changes(old@, new@),
{
    let diff = similar::TextDiff::from_lines(old, new);
    let mut r = Vec::new();
    for change in diff.iter_all_changes() {
        r.push(match change.tag() {
            similar::ChangeTag::Equal => ChangeKind::Equal,
            similar::ChangeTag::Delete => ChangeKind::Delete,
            similar::ChangeTag::Insert => ChangeKind::Insert,
        });
    }
    r
}

/// Relies on similar's `TextDiff::from_lines` and `unified_diff` with a context
/// radius of 3 and no header: its text is the hunks, one after the other.
#[verifier::external_body]
fn hunks_text(old: &str, new: &str) -> (r: String)
    ensures
        r@ == unified_hunks(old@, new@),
{
    similar::TextDiff::from_lines(old, new).unified_diff().context_radius(3).to_string()
}

/// How many changes of the given kind the sequence holds.
pub open spec fn count_kind(cs: Seq<ChangeKind>, k: ChangeKind) -> nat
    decreases cs.len(),
{
    if cs.len() == 0 {
        0
    } else {
        count_kind(cs.drop_last(), k) + if cs.last() == k {
            1nat
        } else {
            0nat
        }
    }
}

/// The lines added and the lines removed from `old` to `new`.
pub fn diff_stats(old: &str, new: &str) -> (r: (usize, usize))
    ensures
        r.0 == count_kind(line_changes(old@, new@), ChangeKind::Insert),
        r.1 == count_kind(line_changes(old@, new@), ChangeKind::Delete),
{
    let cs = change_kinds(old, new);
    let mut added: usize = 0;
    let mut removed: usize = 0;
    let mut i: usize = 0;
    while i < cs.len()
        invariant
            i <= cs@.len(),
            added == count_kind(cs@.take(i as int), ChangeKind::Insert),
            removed == count_kind(cs@.take(i as int), ChangeKind::Delete),
            added + removed <= i,
        decreases cs.len() - i,
    {
        assert(cs@.take(i + 1).drop_last() =~= cs@.take(i as int));
        match cs[i] {
            ChangeKind::Insert => added = added + 1,
            ChangeKind::Delete => removed = removed + 1,
            ChangeKind::Equal => {},
        }
        i = i + 1;
    }
    assert(cs@.take(i as int) =~= cs@);
    (added, removed)
}

/// A unified diff from `old` to `new`: the two header lines, then the hunks.
pub fn unified_diff(old: &str, new: &str, old_label: &str, new_label: &str) -> (r: String)
    ensures
        r@ == "--- "@ + old_label@ + "\n+++ "@ + new_label@ + "\n"@ + unified_hunks(old@, new@),
{
    let mut r = String::from_str("--- ");
    r.append(old_label);
    r.append("\n+++ ");
    r.append(new_label);
    r.append("\n");
    let h = hunks_text(old, new);
    r.append(h.as_str());
    r
}

} // verus!
