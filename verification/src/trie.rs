//! Tables in which every row extends an earlier row. In such a table an index
//! denotes the same sequence however far the table has grown since.

use crate::dictionary::{walk, Entry};
use vstd::prelude::*;

verus! {

/// Every parent link points to an earlier row.
pub open spec fn ordered(rows: Seq<Entry>) -> bool {
    forall|i: int|
        0 <= i < rows.len() ==> ((#[trigger] rows[i]).1 matches Some(p) ==> p < i)
}

/// The sequence that row `idx` denotes in an ordered table: the sequence of
/// its parent followed by its own byte.
pub open spec fn phrase(rows: Seq<Entry>, idx: int) -> Seq<u8>
    decreases idx,
{
    if 0 <= idx < rows.len() {
        match rows[idx].1 {
            Some(p) => if p < idx {
                phrase(rows, p as int).push(rows[idx].0)
            } else {
                seq![rows[idx].0]
            },
            None => seq![rows[idx].0],
        }
    } else {
        Seq::empty()
    }
}

/// In an ordered table the walk from any row reaches a root, given fuel for
/// as many links as the row's index.
pub proof fn lemma_walk_is_phrase(rows: Seq<Entry>, idx: int, fuel: nat)
    requires
        ordered(rows),
        0 <= idx < rows.len(),
        idx <= fuel,
    ensures
        walk(rows, idx, fuel) == Some(phrase(rows, idx)),
        phrase(rows, idx).len() >= 1,
    decreases idx,
{
    if let Some(p) = rows[idx].1 {
        lemma_walk_is_phrase(rows, p as int, (fuel - 1) as nat);
    }
}

/// A row appended at the end changes nothing for the rows before it.
pub proof fn lemma_phrase_push(rows: Seq<Entry>, entry: Entry, idx: int)
    requires
        0 <= idx < rows.len(),
    ensures
        phrase(rows.push(entry), idx) == phrase(rows, idx),
    decreases idx,
{
    if let Some(p) = rows[idx].1 {
        if p < idx {
            lemma_phrase_push(rows, entry, p as int);
        }
    }
}

/// Appending a row whose parent is already there keeps the table ordered.
pub proof fn lemma_ordered_push(rows: Seq<Entry>, entry: Entry)
    requires
        ordered(rows),
        entry.1 matches Some(p) ==> p < rows.len(),
    ensures
        ordered(rows.push(entry)),
{
    assert forall|i: int| 0 <= i < rows.push(entry).len() implies ((#[trigger] rows.push(
        entry,
    )[i]).1 matches Some(p) ==> p < i) by {
        if i < rows.len() {
            assert(rows.push(entry)[i] == rows[i]);
        }
    }
}

} // verus!
