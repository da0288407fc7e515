//! Entries for a whole file, out of the blame of its committed rows.

use crate::entry::{BlameEntry, GitBlameEntry};
use crate::rows::{lemma_total_piece, piece};
use crate::small::{small_into_vec, small_items, small_new, small_push, SmallEntries};
use crate::tree::{lemma_total_rows_concat, lemma_total_rows_push, total_rows, SumTree};
use vstd::prelude::*;

verus! {

/// The row behind the last blamed one.
pub open spec fn row_behind(entries: Seq<BlameEntry>) -> u32 {
    if entries.len() == 0 {
        0
    } else {
        entries.last().range.end
    }
}

/// What one blamed range adds: the rows skipped before it, without blame, and its own rows.
pub open spec fn blamed_range(entry: BlameEntry, current_row: u32) -> Seq<GitBlameEntry> {
    piece(None, entry.range.start - current_row).push(
        GitBlameEntry { rows: entry.range_len() as u32, blame: Some(entry) },
    )
}

/// The entries of all blamed ranges and of the rows skipped between them.
pub open spec fn blamed_ranges(entries: Seq<BlameEntry>) -> Seq<GitBlameEntry>
    decreases entries.len(),
{
    if entries.len() == 0 {
        Seq::empty()
    } else {
        blamed_ranges(entries.drop_last()) + blamed_range(
            entries.last(),
            row_behind(entries.drop_last()),
        )
    }
}

/// The entries of a file whose last row is `max_row`: the blamed ranges, and the rows behind
/// them, without blame.
pub open spec fn built(entries: Seq<BlameEntry>, max_row: int) -> Seq<GitBlameEntry> {
    blamed_ranges(entries) + piece(None, max_row + 1 - row_behind(entries))
}

/// Whether the blamed ranges stand in order, without overlap, in the rows up to `max_row`.
pub open spec fn in_file_order(entries: Seq<BlameEntry>, max_row: int) -> bool {
    &&& forall|i: int|
        0 <= i < entries.len() ==> (#[trigger] entries[i]).range.start <= entries[i].range.end
            <= max_row + 1
    &&& forall|i: int, j: int|
        0 <= i < j < entries.len() ==> (#[trigger] entries[i]).range.end <= (
        #[trigger] entries[j]).range.start
}

fn small_range(entry: &BlameEntry, current_row: u32) -> (entries: SmallEntries)
    ensures
        small_items(entries) == blamed_range(*entry, current_row),
{
    let mut entries = small_new();
    if entry.range.start > current_row {
        let skipped_rows: u32 = entry.range.start - current_row;
        small_push(&mut entries, GitBlameEntry { rows: skipped_rows, blame: None });
    }
    assert(small_items(entries) =~= piece(None, entry.range.start - current_row));
    small_push(&mut entries, GitBlameEntry { rows: entry.len(), blame: Some(entry.clone()) });
    entries
}

proof fn lemma_blamed_ranges_step(entries: Seq<BlameEntry>, count: int)
    requires
        0 <= count < entries.len(),
    ensures
        blamed_ranges(entries.take(count + 1)) == blamed_ranges(entries.take(count))
            + blamed_range(entries[count], row_behind(entries.take(count))),
{
    assert(entries.take(count + 1).drop_last() =~= entries.take(count));
}

proof fn lemma_blamed_ranges_monotone(entries: Seq<BlameEntry>, low: int, high: int)
    requires
        0 <= low <= high <= entries.len(),
    ensures
        total_rows(blamed_ranges(entries.take(low))) <= total_rows(
            blamed_ranges(entries.take(high)),
        ),
    decreases high - low,
{
    if low < high {
        lemma_blamed_ranges_monotone(entries, low, high - 1);
        lemma_blamed_ranges_step(entries, high - 1);
        lemma_total_rows_concat(
            blamed_ranges(entries.take(high - 1)),
            blamed_range(entries[high - 1], row_behind(entries.take(high - 1))),
        );
    }
}

/// Builds the entries of a file out of the blame of its committed rows.
pub fn build_blame_entry_sum_tree(entries: Vec<BlameEntry>, max_row: u32) -> (tree: SumTree)
    requires
        max_row < u32::MAX,
        total_rows(built(entries@, max_row as int)) <= u32::MAX,
    ensures
        tree.wf(),
        tree@ == built(entries@, max_row as int),
{
    let ghost tail = piece(None, max_row + 1 - row_behind(entries@));
    proof {
        assert(entries@.take(entries@.len() as int) =~= entries@);
        lemma_total_rows_concat(blamed_ranges(entries@), tail);
    }
    let mut tree = SumTree::new();
    let mut current_row: u32 = 0;
    let mut next: usize = 0;
    while next < entries.len()
        invariant
            0 <= next <= entries@.len(),
            tree.wf(),
            tree@ == blamed_ranges(entries@.take(next as int)),
            current_row == row_behind(entries@.take(next as int)),
            entries@.take(entries@.len() as int) == entries@,
            total_rows(blamed_ranges(entries@)) <= u32::MAX,
        decreases entries.len() - next,
    {
        let entry = &entries[next];
        let items = small_into_vec(small_range(entry, current_row));
        proof {
            lemma_blamed_ranges_step(entries@, next as int);
            lemma_blamed_ranges_monotone(entries@, next + 1, entries@.len() as int);
        }
        tree.extend(items);
        current_row = entry.range.end;
        next = next + 1;
    }
    if max_row >= current_row {
        let entry = GitBlameEntry { rows: (max_row + 1) - current_row, blame: None };
        proof {
            assert(tail =~= seq![entry]);
            lemma_total_rows_push(tree@, entry);
            assert(tree@.push(entry) =~= built(entries@, max_row as int));
        }
        tree.push(entry);
    } else {
        assert(tree@ =~= built(entries@, max_row as int));
    }
    tree
}

proof fn lemma_total_blamed_range(entry: BlameEntry, current_row: u32)
    ensures
        total_rows(blamed_range(entry, current_row)) == entry.range_len() + if entry.range.start
            > current_row {
            entry.range.start - current_row
        } else {
            0
        },
{
    let skipped = piece(None, entry.range.start - current_row);
    lemma_total_piece(None, entry.range.start - current_row);
    lemma_total_rows_push(
        skipped,
        GitBlameEntry { rows: entry.range_len() as u32, blame: Some(entry) },
    );
}

/// Checks that the rows of a file built out of `entries` are not too many for a `u32`.
pub fn rows_fit(entries: &Vec<BlameEntry>, max_row: u32) -> (fit: bool)
    ensures
        fit == (max_row < u32::MAX && total_rows(built(entries@, max_row as int)) <= u32::MAX),
{
    if max_row == u32::MAX {
        return false;
    }
    let ghost tail = piece(None, max_row + 1 - row_behind(entries@));
    proof {
        assert(entries@.take(entries@.len() as int) =~= entries@);
        lemma_total_rows_concat(blamed_ranges(entries@), tail);
    }
    let mut rows: u64 = 0;
    let mut current_row: u32 = 0;
    let mut next: usize = 0;
    while next < entries.len()
        invariant
            0 <= next <= entries@.len(),
            rows == total_rows(blamed_ranges(entries@.take(next as int))) <= u32::MAX,
            current_row == row_behind(entries@.take(next as int)),
            entries@.take(entries@.len() as int) == entries@,
            total_rows(blamed_ranges(entries@)) <= total_rows(built(entries@, max_row as int)),
        decreases entries.len() - next,
    {
        let entry = &entries[next];
        proof {
            lemma_blamed_ranges_step(entries@, next as int);
            lemma_total_rows_concat(
                blamed_ranges(entries@.take(next as int)),
                blamed_range(*entry, current_row),
            );
            lemma_total_blamed_range(*entry, current_row);
            lemma_blamed_ranges_monotone(entries@, next + 1, entries@.len() as int);
        }
        if entry.range.start > current_row {
            rows = rows + (entry.range.start - current_row) as u64;
        }
        rows = rows + entry.len() as u64;
        if rows > u32::MAX as u64 {
            return false;
        }
        current_row = entry.range.end;
        next = next + 1;
    }
    if max_row >= current_row {
        proof {
            lemma_total_piece(None, max_row + 1 - current_row);
        }
        rows = rows + (max_row as u64 + 1 - current_row as u64);
    }
    rows <= u32::MAX as u64
}

} // verus!
