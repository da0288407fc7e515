//! Blame row by row: what a sequence of entries says of each row.

use crate::entry::{BlameEntry, GitBlameEntry};
use crate::tree::{
    entry_at, holds_row, lemma_entry_at, lemma_row_sum_monotone, lemma_row_sum_prefix,
    lemma_total_rows_concat, lemma_total_rows_subrange, row_sum, total_rows,
};
use vstd::prelude::*;

verus! {

/// The blame of an entry; none past the last entry.
pub open spec fn blame_of(entries: Seq<GitBlameEntry>, index: int) -> Option<BlameEntry> {
    if 0 <= index < entries.len() {
        entries[index].blame
    } else {
        None
    }
}

/// The blame of a row: that of the entry that holds it. Rows past the last one have none.
pub open spec fn row_blame(entries: Seq<GitBlameEntry>, row: int) -> Option<BlameEntry> {
    blame_of(entries, entry_at(entries, row))
}

/// The blame of each row.
pub open spec fn blame_rows(entries: Seq<GitBlameEntry>) -> Seq<Option<BlameEntry>> {
    Seq::new(total_rows(entries), |row: int| row_blame(entries, row))
}

/// The blame of a row, out of the blame of all rows.
pub open spec fn blame_at(rows: Seq<Option<BlameEntry>>, row: int) -> Option<BlameEntry> {
    if 0 <= row < rows.len() {
        rows[row]
    } else {
        None
    }
}

/// The blame of rows `low..high`.
pub open spec fn rows_between(
    rows: Seq<Option<BlameEntry>>,
    low: int,
    high: int,
) -> Seq<Option<BlameEntry>> {
    Seq::new((high - low) as nat, |i: int| blame_at(rows, low + i))
}

/// `count` rows with the same blame.
pub open spec fn repeated(blame: Option<BlameEntry>, count: int) -> Seq<Option<BlameEntry>> {
    Seq::new(count as nat, |i: int| blame)
}

/// The entry of `rows` rows that share their blame. No rows need no entry.
pub open spec fn piece(blame: Option<BlameEntry>, rows: int) -> Seq<GitBlameEntry> {
    if rows > 0 {
        seq![GitBlameEntry { rows: rows as u32, blame }]
    } else {
        Seq::empty()
    }
}

/// A row has the blame of the entry that holds it, and is past the last row if that is none.
pub proof fn lemma_row_in_entry(entries: Seq<GitBlameEntry>, index: int, row: int)
    requires
        0 <= row,
        holds_row(entries, index, row),
    ensures
        row_blame(entries, row) == blame_of(entries, index),
        blame_at(blame_rows(entries), row) == blame_of(entries, index),
        row < total_rows(entries) <==> index < entries.len(),
{
    lemma_entry_at(entries, row);
    if index < entries.len() {
        lemma_row_sum_monotone(entries, index + 1, entries.len() as int);
    }
}

proof fn lemma_row_sum_concat(left: Seq<GitBlameEntry>, right: Seq<GitBlameEntry>, count: int)
    requires
        0 <= count <= right.len(),
    ensures
        row_sum(left + right, left.len() + count) == total_rows(left) + row_sum(right, count),
{
    let head = right.take(count);
    lemma_total_rows_concat(left, head);
    lemma_row_sum_prefix(left + right, left + head, left.len() + count);
    lemma_row_sum_prefix(right, head, count);
}

/// Entries put behind others put their rows behind the others' rows.
pub proof fn lemma_blame_rows_concat(left: Seq<GitBlameEntry>, right: Seq<GitBlameEntry>)
    ensures
        blame_rows(left + right) == blame_rows(left) + blame_rows(right),
{
    let both = left + right;
    lemma_total_rows_concat(left, right);
    assert forall|row: int| 0 <= row < total_rows(both) implies #[trigger] row_blame(both, row)
        == (blame_rows(left) + blame_rows(right))[row] by {
        if row < total_rows(left) {
            let index = entry_at(left, row);
            lemma_entry_at(left, row);
            lemma_row_sum_prefix(both, left, index);
            lemma_row_sum_prefix(both, left, index + 1);
            lemma_row_in_entry(left, index, row);
            lemma_row_in_entry(both, index, row);
        } else {
            let below = row - total_rows(left);
            let index = entry_at(right, below);
            lemma_entry_at(right, below);
            lemma_row_in_entry(right, index, below);
            lemma_row_sum_concat(left, right, index);
            lemma_row_sum_concat(left, right, index + 1);
            lemma_row_in_entry(both, left.len() + index, row);
        }
    }
    assert(blame_rows(both) =~= blame_rows(left) + blame_rows(right));
}

pub proof fn lemma_total_piece(blame: Option<BlameEntry>, rows: int)
    requires
        rows <= u32::MAX,
    ensures
        total_rows(piece(blame, rows)) == if rows > 0 { rows } else { 0 },
{
    reveal_with_fuel(row_sum, 2);
}

pub proof fn lemma_blame_rows_piece(blame: Option<BlameEntry>, rows: int)
    requires
        rows <= u32::MAX,
    ensures
        blame_rows(piece(blame, rows)) == repeated(blame, if rows > 0 { rows } else { 0 }),
{
    let entries = piece(blame, rows);
    reveal_with_fuel(row_sum, 2);
    assert forall|row: int| 0 <= row < total_rows(entries) implies #[trigger] row_blame(
        entries,
        row,
    ) == blame by {
        lemma_row_in_entry(entries, 0, row);
    }
    assert(blame_rows(entries) =~= repeated(blame, if rows > 0 { rows } else { 0 }));
}

pub proof fn lemma_blame_rows_single(entry: GitBlameEntry)
    ensures
        blame_rows(seq![entry]) == repeated(entry.blame, entry.rows as int),
{
    reveal_with_fuel(row_sum, 2);
    if entry.rows > 0 {
        lemma_blame_rows_piece(entry.blame, entry.rows as int);
        assert(seq![entry] =~= piece(entry.blame, entry.rows as int));
    } else {
        assert(blame_rows(seq![entry]) =~= repeated(entry.blame, 0));
    }
}

/// Consecutive entries hold consecutive rows.
pub proof fn lemma_blame_rows_subrange(entries: Seq<GitBlameEntry>, low: int, high: int)
    requires
        0 <= low <= high <= entries.len(),
    ensures
        row_sum(entries, low) <= row_sum(entries, high) <= total_rows(entries),
        blame_rows(entries.subrange(low, high)) == rows_between(
            blame_rows(entries),
            row_sum(entries, low) as int,
            row_sum(entries, high) as int,
        ),
{
    let head = entries.subrange(0, low);
    let middle = entries.subrange(low, high);
    let tail = entries.subrange(high, entries.len() as int);
    lemma_row_sum_monotone(entries, low, high);
    lemma_row_sum_monotone(entries, high, entries.len() as int);
    lemma_total_rows_subrange(entries, 0, low);
    lemma_total_rows_subrange(entries, low, high);
    assert(entries =~= head + middle + tail);
    lemma_blame_rows_concat(head + middle, tail);
    lemma_blame_rows_concat(head, middle);
    assert(blame_rows(middle) =~= rows_between(
        blame_rows(entries),
        row_sum(entries, low) as int,
        row_sum(entries, high) as int,
    ));
}

/// Rows that one entry holds, or that all are past the last entry, share their blame.
pub proof fn lemma_rows_in_entry(entries: Seq<GitBlameEntry>, index: int, low: int, high: int)
    requires
        0 <= index <= entries.len(),
        row_sum(entries, index) <= low <= high,
        index < entries.len() ==> high <= row_sum(entries, index + 1),
    ensures
        rows_between(blame_rows(entries), low, high) == repeated(
            blame_of(entries, index),
            high - low,
        ),
{
    let rows = blame_rows(entries);
    assert forall|i: int| 0 <= i < high - low implies #[trigger] blame_at(rows, low + i)
        == blame_of(entries, index) by {
        lemma_row_in_entry(entries, index, low + i);
    }
    assert(rows_between(rows, low, high) =~= repeated(blame_of(entries, index), high - low));
}

pub proof fn lemma_rows_between_joined(
    rows: Seq<Option<BlameEntry>>,
    low: int,
    middle: int,
    high: int,
)
    requires
        low <= middle <= high,
    ensures
        rows_between(rows, low, middle) + rows_between(rows, middle, high) == rows_between(
            rows,
            low,
            high,
        ),
{
    assert(rows_between(rows, low, middle) + rows_between(rows, middle, high) =~= rows_between(
        rows,
        low,
        high,
    ));
}

} // verus!
