//! The dictionary as a mathematical object: an index-addressable table of
//! `(byte, parent)` rows, with lookup, insertion under an overflow policy, and
//! the walk that turns an index back into the byte sequence it denotes.

use vstd::prelude::*;

verus! {

/// One row of the table: a byte and the index of the row whose sequence it
/// extends. A row without a parent denotes the single byte.
pub type Entry = (u8, Option<u16>);

/// Number of rows that are reserved for the single-byte sequences.
pub const ROOT_COUNT: usize = 256;

/// Largest number of rows a table may hold: codes are 16 bits wide.
pub const MAX_DICT_SIZE: usize = 65536;

/// The 256 rows every table starts with: row `i` is byte `i` without a parent.
pub open spec fn root_entries() -> Seq<Entry> {
    Seq::new(256, |i: int| (i as u8, None::<u16>))
}

/// Index of the first row equal to `entry`, if there is one.
pub open spec fn first_index_of(rows: Seq<Entry>, entry: Entry) -> Option<int>
    decreases rows.len(),
{
    if rows.len() == 0 {
        None
    } else {
        match first_index_of(rows.drop_last(), entry) {
            Some(k) => Some(k),
            None => if rows.last() == entry {
                Some(rows.len() - 1)
            } else {
                None
            },
        }
    }
}

/// Follows parent links from row `idx` towards a row without a parent, taking
/// at most `fuel` links, and returns the bytes met in root-first order.
/// `None` when `idx` is outside the table, when a link leaves the table, or
/// when no root is reached within `fuel` links.
pub open spec fn walk(rows: Seq<Entry>, idx: int, fuel: nat) -> Option<Seq<u8>>
    decreases fuel,
{
    if idx < 0 || idx >= rows.len() {
        None
    } else {
        match rows[idx].1 {
            None => Some(seq![rows[idx].0]),
            Some(parent) => if fuel == 0 {
                None
            } else {
                match walk(rows, parent as int, (fuel - 1) as nat) {
                    Some(prefix) => Some(prefix.push(rows[idx].0)),
                    None => None,
                }
            },
        }
    }
}

/// A dictionary: its rows in insertion order, the bound on their number, and
/// the overflow policy (`true`: further rows are dropped once the bound is
/// reached; `false`: the table restarts from the 256 roots).
pub struct Dictionary {
    pub entries: Seq<Entry>,
    pub max_size: nat,
    pub clear_on_overfill: bool,
}

impl Dictionary {
    /// The roots are in place and every index fits in 16 bits.
    pub open spec fn wf(self) -> bool {
        &&& 256 <= self.entries.len() <= 65536
        &&& self.max_size <= 65536
        &&& forall|i: int| 0 <= i < 256 ==> #[trigger] self.entries[i] == (i as u8, None::<u16>)
    }

    /// The dictionary right after initialization.
    pub open spec fn initial(max_size: nat, clear_on_overfill: bool) -> Dictionary {
        Dictionary { entries: root_entries(), max_size, clear_on_overfill }
    }

    /// Index of the first row equal to `entry`.
    pub open spec fn find(self, entry: Entry) -> Option<int> {
        first_index_of(self.entries, entry)
    }

    /// Index that the next inserted row will get, or `None` when the row
    /// would be dropped.
    pub open spec fn insert_index(self) -> Option<int> {
        if self.entries.len() < self.max_size {
            Some(self.entries.len() as int)
        } else if self.clear_on_overfill {
            None
        } else {
            Some(256)
        }
    }

    /// The dictionary after an attempt to insert `entry`.
    pub open spec fn insert(self, entry: Entry) -> Dictionary {
        if self.entries.len() < self.max_size {
            Dictionary { entries: self.entries.push(entry), ..self }
        } else if self.clear_on_overfill {
            self
        } else {
            Dictionary { entries: root_entries().push(entry), ..self }
        }
    }

    /// The byte sequence that index `idx` denotes, if its chain of parents
    /// ends in a root.
    pub open spec fn resolve(self, idx: int) -> Option<Seq<u8>> {
        walk(self.entries, idx, self.entries.len())
    }
}

/// `first_index_of` returns the least matching index, and `None` only when no
/// row matches.
pub proof fn lemma_first_index_of(rows: Seq<Entry>, entry: Entry)
    ensures
        match first_index_of(rows, entry) {
            Some(k) => {
                &&& 0 <= k < rows.len()
                &&& rows[k] == entry
                &&& forall|j: int| 0 <= j < k ==> rows[j] != entry
            },
            None => forall|j: int| 0 <= j < rows.len() ==> rows[j] != entry,
        },
    decreases rows.len(),
{
    if rows.len() > 0 {
        let front = rows.drop_last();
        lemma_first_index_of(front, entry);
        assert(forall|j: int| 0 <= j < front.len() ==> front[j] == rows[j]);
    }
}

/// In a freshly initialized dictionary index `i` below 256 denotes the single
/// byte `i`, and no other index denotes anything.
pub proof fn lemma_roots_resolve(max_size: nat, clear_on_overfill: bool, i: int)
    ensures
        0 <= i < 256 ==> Dictionary::initial(max_size, clear_on_overfill).resolve(i) == Some(
            seq![i as u8],
        ),
        !(0 <= i < 256) ==> Dictionary::initial(max_size, clear_on_overfill).resolve(i) is None,
{
}

/// A walk that reaches a root returns at least that root's byte.
pub proof fn lemma_walk_nonempty(rows: Seq<Entry>, idx: int, fuel: nat)
    ensures
        walk(rows, idx, fuel) matches Some(sequence) ==> sequence.len() >= 1,
    decreases fuel,
{
    if 0 <= idx < rows.len() && fuel > 0 {
        if let Some(parent) = rows[idx].1 {
            lemma_walk_nonempty(rows, parent as int, (fuel - 1) as nat);
        }
    }
}

} // verus!
