//! What holds of the library as a whole.

use crate::blame::{author_bytes, longest_author, Action, BlameState};
use crate::build_tree::{blamed_range, blamed_ranges, built, in_file_order, row_behind};
use crate::commits::{
    all_details_of, last_message, ParsedCommitMessage, ParsedGitRemote, ProviderId, PullRequest,
};
use crate::edits::{gap_kept, is_patch, Edit};
use crate::entry::{hex_digit, hex_text, BlameEntry, GitBlameEntry, Oid};
use crate::row_edits::{
    aligned_at, apart, countable, lemma_merged_countable, lemma_touched_rows, ordered, row_edit,
    row_edits, touched_rows, RowEdit,
};
use crate::rows::{
    blame_at, blame_of, blame_rows, lemma_blame_rows_concat, lemma_blame_rows_piece,
    lemma_blame_rows_single, lemma_row_in_entry, piece, repeated, row_blame, rows_between,
};
use crate::splice::{
    kept_before, kept_between, lemma_rest, lemma_spliced_rows, lemma_spliced_total, spliced_behind,
    spliced_rows,
};
use crate::text::{
    at_row_end, at_row_start, lemma_newlines_monotone, newlines_before, row_count, BufferId,
    NEWLINE,
};
use crate::tree::{entry_at, lemma_entry_at, lemma_row_sum_monotone, row_sum};
use vstd::prelude::*;

pub mod edited;
pub mod parts;

verus! {

proof fn lemma_touched_countable(old: Seq<u8>, new: Seq<u8>, edits: Seq<Edit<usize>>)
    requires
        is_patch(old, new, edits),
        row_count(old) <= u32::MAX,
        row_count(new) <= u32::MAX,
    ensures
        countable(touched_rows(old, new, edits)),
{
    let rows = row_edits(old, new, edits);
    assert forall|index: int| 0 <= index < rows.len() implies {
        &&& 0 <= (#[trigger] rows[index]).old_start <= u32::MAX
        &&& 0 <= rows[index].old_end <= u32::MAX
        &&& 0 <= rows[index].new_start <= u32::MAX
        &&& 0 <= rows[index].new_end <= u32::MAX
    } by {
        let edit = edits[index];
        assert(gap_kept(old, new, edits, index));
        assert(gap_kept(old, new, edits, index + 1));
        lemma_newlines_monotone(old, edit.old.start as int, old.len() as int);
        lemma_newlines_monotone(old, edit.old.end as int, old.len() as int);
        lemma_newlines_monotone(new, edit.new.start as int, new.len() as int);
        lemma_newlines_monotone(new, edit.new.end as int, new.len() as int);
    }
    lemma_merged_countable(rows);
}

/// Blame that has as many rows as the buffer still has so after any edits of the buffer, and can
/// always be brought in step with them.
pub proof fn law_sync_keeps_step(
    state: BlameState,
    edits: Seq<Edit<usize>>,
    text: Seq<u8>,
    buffer: BufferId,
)
    requires
        state.in_step(),
        is_patch(state.text, text, edits),
        row_count(state.text) <= u32::MAX,
        row_count(text) <= u32::MAX,
    ensures
        state.can_sync(edits, text),
        state.synced(edits, text, buffer).in_step(),
{
    lemma_touched_rows(state.text, text, edits);
    lemma_touched_countable(state.text, text, edits);
    lemma_spliced_total(state.entries, touched_rows(state.text, text, edits));
}

/// Whether old row `row` lies before row edit `index` and behind the one before it.
pub open spec fn is_untouched(edits: Seq<RowEdit>, index: int, row: int) -> bool {
    &&& if index == 0 {
        0 <= row
    } else {
        edits[index - 1].old_end <= row
    }
    &&& index < edits.len() ==> row < edits[index].old_start
}

/// By how much rows that lie before row edit `index` and behind the one before it have moved.
pub open spec fn row_shift(edits: Seq<RowEdit>, index: int) -> int {
    if index == 0 {
        0
    } else {
        edits[index - 1].new_end - edits[index - 1].old_end
    }
}

proof fn lemma_untouched_row(
    rows: Seq<Option<BlameEntry>>,
    edits: Seq<RowEdit>,
    low: int,
    base: int,
    index: int,
    row: int,
)
    requires
        0 <= low,
        ordered(edits),
        apart(edits),
        edits.len() > 0 ==> low <= edits[0].old_start && edits[0].new_start - base
            == edits[0].old_start - low,
        0 <= index <= edits.len(),
        if index == 0 {
            low <= row
        } else {
            edits[index - 1].old_end <= row
        },
        index < edits.len() ==> row < edits[index].old_start,
    ensures
        ({
            let place = row + if index == 0 {
                base - low
            } else {
                row_shift(edits, index)
            };
            &&& base <= place
            &&& blame_at(spliced_rows(rows, edits, low), place - base) == blame_at(rows, row)
        }),
    decreases edits.len(),
{
    let all = spliced_rows(rows, edits, low);
    if edits.len() > 0 {
        lemma_rest(edits);
        let kept = rows_between(rows, low, edits[0].old_start);
        let gone = repeated(None, edits[0].new_end - edits[0].new_start);
        let rest = spliced_rows(rows, edits.skip(1), edits[0].old_end);
        assert(all == kept + gone + rest);
        if index > 0 {
            if edits.len() > 1 {
                assert(aligned_at(edits, 0));
            }
            lemma_untouched_row(
                rows,
                edits.skip(1),
                edits[0].old_end,
                edits[0].new_end,
                index - 1,
                row,
            );
            let place = row + row_shift(edits, index);
            let inner = place - edits[0].new_end;
            assert(row_shift(edits.skip(1), index - 1) == row_shift(edits, index) || index == 1);
            assert(kept.len() + gone.len() == edits[0].new_end - base);
            if inner < rest.len() {
                assert(all[place - base] == rest[inner]);
            }
        } else {
            assert(all[row - low] == kept[row - low]);
        }
    }
}

proof fn lemma_touched_row(
    rows: Seq<Option<BlameEntry>>,
    edits: Seq<RowEdit>,
    low: int,
    base: int,
    index: int,
    row: int,
)
    requires
        0 <= low,
        ordered(edits),
        apart(edits),
        0 <= index < edits.len(),
        low <= edits[0].old_start,
        edits[0].new_start - base == edits[0].old_start - low,
        edits[index].new_start <= row < edits[index].new_end,
    ensures
        base <= row,
        blame_at(spliced_rows(rows, edits, low), row - base) is None,
    decreases edits.len(),
{
    let all = spliced_rows(rows, edits, low);
    lemma_rest(edits);
    let kept = rows_between(rows, low, edits[0].old_start);
    let gone = repeated(None, edits[0].new_end - edits[0].new_start);
    let rest = spliced_rows(rows, edits.skip(1), edits[0].old_end);
    assert(all == kept + gone + rest);
    if index > 0 {
        assert(aligned_at(edits, 0));
        lemma_touched_row(
            rows,
            edits.skip(1),
            edits[0].old_end,
            edits[0].new_end,
            index - 1,
            row,
        );
        let inner = row - edits[0].new_end;
        assert(kept.len() + gone.len() == edits[0].new_end - base);
        if inner < rest.len() {
            assert(all[row - base] == rest[inner]);
        }
    } else {
        assert(all[row - base] == gone[row - edits[0].new_start]);
    }
}

proof fn lemma_blame_at_rows(entries: Seq<GitBlameEntry>, row: int)
    requires
        0 <= row,
    ensures
        blame_at(blame_rows(entries), row) == row_blame(entries, row),
{
    lemma_entry_at(entries, row);
    lemma_row_in_entry(entries, entry_at(entries, row), row);
}

/// A row that no edit touched keeps its blame when the blame is brought in step with the buffer,
/// at the place to which the edits before it moved the row.
pub proof fn law_untouched_rows_keep_blame(
    state: BlameState,
    edits: Seq<Edit<usize>>,
    text: Seq<u8>,
    buffer: BufferId,
    index: int,
    row: int,
)
    requires
        is_patch(state.text, text, edits),
        row_count(state.text) <= u32::MAX,
        row_count(text) <= u32::MAX,
        0 <= index <= touched_rows(state.text, text, edits).len(),
        is_untouched(touched_rows(state.text, text, edits), index, row),
    ensures
        ({
            let touched = touched_rows(state.text, text, edits);
            row_blame(
                state.synced(edits, text, buffer).entries,
                row + row_shift(touched, index),
            ) == row_blame(state.entries, row)
        }),
{
    let touched = touched_rows(state.text, text, edits);
    let entries = state.synced(edits, text, buffer).entries;
    lemma_touched_rows(state.text, text, edits);
    lemma_touched_countable(state.text, text, edits);
    lemma_spliced_rows(state.entries, touched);
    lemma_untouched_row(blame_rows(state.entries), touched, 0, 0, index, row);
    if index > 0 {
        let before = touched[index - 1];
        assert(0 <= before.old_start);
    }
    lemma_blame_at_rows(state.entries, row);
    lemma_blame_at_rows(entries, row + row_shift(touched, index));
}

/// The rows that edits put in the place of those that they touched have no blame.
pub proof fn law_touched_rows_lose_blame(
    state: BlameState,
    edits: Seq<Edit<usize>>,
    text: Seq<u8>,
    buffer: BufferId,
    index: int,
    row: int,
)
    requires
        is_patch(state.text, text, edits),
        row_count(state.text) <= u32::MAX,
        row_count(text) <= u32::MAX,
        0 <= index < touched_rows(state.text, text, edits).len(),
        touched_rows(state.text, text, edits)[index].new_start <= row < touched_rows(
            state.text,
            text,
            edits,
        )[index].new_end,
    ensures
        row_blame(state.synced(edits, text, buffer).entries, row) is None,
{
    let touched = touched_rows(state.text, text, edits);
    let entries = state.synced(edits, text, buffer).entries;
    lemma_touched_rows(state.text, text, edits);
    lemma_touched_countable(state.text, text, edits);
    lemma_spliced_rows(state.entries, touched);
    lemma_touched_row(blame_rows(state.entries), touched, 0, 0, index, row);
    lemma_blame_at_rows(entries, row);
}

/// Reading a buffer that was not edited leaves the blame as it is.
pub proof fn law_sync_without_edits(state: BlameState)
    ensures
        is_patch(state.text, state.text, Seq::empty()),
        state.synced(Seq::empty(), state.text, state.buffer) == state,
{
    let edits = Seq::<Edit<usize>>::empty();
    assert(gap_kept(state.text, state.text, edits, 0));
    assert(row_edits(state.text, state.text, edits) =~= Seq::empty());
}

proof fn lemma_single_edit(old: Seq<u8>, new: Seq<u8>, edit: Edit<usize>)
    ensures
        touched_rows(old, new, seq![edit]) == seq![row_edit(old, new, edit)],
{
    assert(row_edits(old, new, seq![edit]) =~= seq![row_edit(old, new, edit)]);
}

/// The text with a newline put in at `offset`.
pub open spec fn with_newline(text: Seq<u8>, offset: int) -> Seq<u8> {
    text.insert(offset, NEWLINE)
}

/// The edit that puts one byte in at `offset`.
pub open spec fn inserted_byte(offset: usize) -> Edit<usize> {
    Edit { old: offset..offset, new: offset..(offset + 1) as usize }
}

proof fn lemma_newline_inserted(text: Seq<u8>, offset: usize)
    requires
        offset <= text.len(),
        text.len() < usize::MAX,
    ensures
        is_patch(text, with_newline(text, offset as int), seq![inserted_byte(offset)]),
        newlines_before(with_newline(text, offset as int), offset as int) == newlines_before(
            text,
            offset as int,
        ),
        newlines_before(with_newline(text, offset as int), offset + 1) == newlines_before(
            text,
            offset as int,
        ) + 1,
{
    let new = with_newline(text, offset as int);
    let edits = seq![inserted_byte(offset)];
    assert(text.subrange(0, offset as int) =~= new.subrange(0, offset as int));
    assert(text.subrange(offset as int, text.len() as int) =~= new.subrange(
        offset + 1,
        new.len() as int,
    ));
    assert(gap_kept(text, new, edits, 0));
    assert(gap_kept(text, new, edits, 1));
    lemma_newlines_prefix(text, new, offset as int);
}

proof fn lemma_newlines_prefix(left: Seq<u8>, right: Seq<u8>, count: int)
    requires
        count <= left.len(),
        count <= right.len(),
        forall|i: int| 0 <= i < count ==> left[i] == right[i],
    ensures
        newlines_before(left, count) == newlines_before(right, count),
    decreases count,
{
    if count > 0 {
        lemma_newlines_prefix(left, right, count - 1);
    }
}

/// The row that a newline put in at the end or the start of a row makes: the one behind the row
/// that it ends, or the one before the row that it starts.
pub open spec fn row_made(text: Seq<u8>, offset: int) -> int {
    if at_row_end(text, offset) {
        newlines_before(text, offset) as int + 1
    } else {
        newlines_before(text, offset) as int
    }
}

/// A newline at the end of a row, or at the start of one, marks only the row that it makes as
/// edited. The rows before it keep their blame, and so do those behind it, one row further down.
pub proof fn law_newline_marks_row_made(
    state: BlameState,
    offset: usize,
    buffer: BufferId,
    row: int,
)
    requires
        offset <= state.text.len() < usize::MAX,
        at_row_end(state.text, offset as int) || at_row_start(state.text, offset as int),
        row_count(state.text) < u32::MAX,
        0 <= row,
    ensures
        ({
            let made = row_made(state.text, offset as int);
            let text = with_newline(state.text, offset as int);
            let edits = seq![inserted_byte(offset)];
            &&& is_patch(state.text, text, edits)
            &&& row_blame(state.synced(edits, text, buffer).entries, row) == if row < made {
                row_blame(state.entries, row)
            } else if row == made {
                None
            } else {
                row_blame(state.entries, row - 1)
            }
        }),
{
    let made = row_made(state.text, offset as int);
    let text = with_newline(state.text, offset as int);
    let edits = seq![inserted_byte(offset)];
    lemma_newline_inserted(state.text, offset);
    lemma_single_edit(state.text, text, inserted_byte(offset));
    let touched = touched_rows(state.text, text, edits);
    assert(touched[0] == RowEdit {
        old_start: made,
        old_end: made,
        new_start: made,
        new_end: made + 1,
    });
    lemma_touched_rows(state.text, text, edits);
    if row < made {
        law_untouched_rows_keep_blame(state, edits, text, buffer, 0, row);
    } else if row == made {
        law_touched_rows_lose_blame(state, edits, text, buffer, 0, row);
    } else {
        law_untouched_rows_keep_blame(state, edits, text, buffer, 1, row - 1);
    }
}

proof fn lemma_edit_within_row(old: Seq<u8>, new: Seq<u8>, edit: Edit<usize>)
    requires
        is_patch(old, new, seq![edit]),
        edit.old.start < edit.old.end || edit.new.start < edit.new.end,
        newlines_before(old, edit.old.start as int) == newlines_before(old, edit.old.end as int),
        newlines_before(new, edit.new.start as int) == newlines_before(new, edit.new.end as int),
        !(at_row_start(old, edit.old.start as int) && at_row_end(old, edit.old.start as int)),
    ensures
        ({
            let row = newlines_before(old, edit.old.start as int) as int;
            touched_rows(old, new, seq![edit]) == seq![
                RowEdit {
                    old_start: row,
                    old_end: row + 1,
                    new_start: row,
                    new_end: row + 1,
                },
            ]
        }),
{
    let edits = seq![edit];
    assert(gap_kept(old, new, edits, 0));
    assert(gap_kept(old, new, edits, 1));
    assert(edits[0] == edit);
    lemma_touched_rows(old, new, edits);
    lemma_single_edit(old, new, edit);
    let old_start = edit.old.start as int;
    let old_end = edit.old.end as int;
    let new_start = edit.new.start as int;
    let new_end = edit.new.end as int;
    assert(old.subrange(0, old_start).len() == new.subrange(0, new_start).len());
    assert forall|i: int| 0 <= i < old_start implies old[i] == new[i] by {
        assert(old.subrange(0, old_start)[i] == new.subrange(0, new_start)[i]);
    }
    lemma_newlines_prefix(old, new, old_start);
    if old_start < old_end {
        lemma_newlines_monotone(old, old_start, old_end - 1);
        lemma_newlines_monotone(old, old_start + 1, old_end);
    }
    if new_start < new_end {
        lemma_newlines_monotone(new, new_start, new_end - 1);
        lemma_newlines_monotone(new, new_start + 1, new_end);
    }
}

/// An edit within a row that is not empty marks that row as edited, and no other row.
pub proof fn law_edit_within_row_marks_it(
    state: BlameState,
    edit: Edit<usize>,
    text: Seq<u8>,
    buffer: BufferId,
    row: int,
)
    requires
        is_patch(state.text, text, seq![edit]),
        row_count(state.text) <= u32::MAX,
        row_count(text) <= u32::MAX,
        edit.old.start < edit.old.end || edit.new.start < edit.new.end,
        newlines_before(state.text, edit.old.start as int) == newlines_before(
            state.text,
            edit.old.end as int,
        ),
        newlines_before(text, edit.new.start as int) == newlines_before(
            text,
            edit.new.end as int,
        ),
        !(at_row_start(state.text, edit.old.start as int) && at_row_end(
            state.text,
            edit.old.start as int,
        )),
        0 <= row,
    ensures
        row_blame(state.synced(seq![edit], text, buffer).entries, row) == if row
            == newlines_before(state.text, edit.old.start as int) {
            None
        } else {
            row_blame(state.entries, row)
        },
{
    lemma_edit_within_row(state.text, text, edit);
    let edited = newlines_before(state.text, edit.old.start as int) as int;
    if row < edited {
        law_untouched_rows_keep_blame(state, seq![edit], text, buffer, 0, row);
    } else if row == edited {
        law_touched_rows_lose_blame(state, seq![edit], text, buffer, 0, row);
    } else {
        law_untouched_rows_keep_blame(state, seq![edit], text, buffer, 1, row);
    }
}

/// Whether a row is in none of the blamed ranges.
pub open spec fn in_no_range(entries: Seq<BlameEntry>, row: int) -> bool {
    forall|i: int|
        0 <= i < entries.len() ==> !((#[trigger] entries[i]).range.start <= row
            < entries[i].range.end)
}

proof fn lemma_blamed_ranges(entries: Seq<BlameEntry>, max_row: int)
    requires
        in_file_order(entries, max_row),
    ensures
        blame_rows(blamed_ranges(entries)).len() == row_behind(entries),
        forall|i: int, row: int|
            0 <= i < entries.len() && (#[trigger] entries[i]).range.start <= row
                < entries[i].range.end ==> #[trigger] blame_at(
                blame_rows(blamed_ranges(entries)),
                row,
            ) == Some(entries[i]),
        forall|row: int|
            0 <= row && in_no_range(entries, row) ==> #[trigger] blame_at(
                blame_rows(blamed_ranges(entries)),
                row,
            ) is None,
    decreases entries.len(),
{
    if entries.len() > 0 {
        let before = entries.drop_last();
        let last = entries.last();
        let behind = row_behind(before);
        let own = GitBlameEntry { rows: last.range_len() as u32, blame: Some(last) };
        let skipped = piece(None, last.range.start - behind);
        let rows = blame_rows(blamed_ranges(entries));
        let rows_before = blame_rows(blamed_ranges(before));
        lemma_blamed_ranges(before, max_row);
        assert(entries[entries.len() - 1] == last);
        if before.len() > 0 {
            assert(before.last() == entries[entries.len() - 2]);
        }
        assert(behind <= last.range.start);
        lemma_blame_rows_piece(None, last.range.start - behind);
        lemma_blame_rows_single(own);
        assert(blamed_range(last, behind) =~= skipped + seq![own]);
        lemma_blame_rows_concat(skipped, seq![own]);
        lemma_blame_rows_concat(blamed_ranges(before), skipped + seq![own]);
        assert(rows == rows_before + (repeated(None, last.range.start - behind) + repeated(
            Some(last),
            last.range_len() as int,
        )));
        assert forall|i: int, row: int|
            0 <= i < entries.len() && (#[trigger] entries[i]).range.start <= row
                < entries[i].range.end implies #[trigger] blame_at(rows, row) == Some(
            entries[i],
        ) by {
            if i < before.len() {
                assert(before[i] == entries[i]);
                assert(before[i].range.end <= behind) by {
                    if i < before.len() - 1 {
                        let next = before[before.len() - 1];
                        assert(before[i].range.end <= next.range.start);
                        assert(next.range.start <= next.range.end);
                    }
                }
                assert(blame_at(rows_before, row) == Some(before[i]));
            }
        }
        assert forall|row: int| 0 <= row && in_no_range(entries, row) implies #[trigger] blame_at(
            rows,
            row,
        ) is None by {
            assert(!(entries[entries.len() - 1].range.start <= row < last.range.end));
            assert forall|i: int| 0 <= i < before.len() implies !((
            #[trigger] before[i]).range.start <= row < before[i].range.end) by {
                assert(before[i] == entries[i]);
            }
            assert(in_no_range(before, row));
            assert(blame_at(rows_before, row) is None);
        }
    }
}

proof fn lemma_built(entries: Seq<BlameEntry>, max_row: int)
    requires
        in_file_order(entries, max_row),
        0 <= max_row < u32::MAX,
    ensures
        blame_rows(built(entries, max_row)) == blame_rows(blamed_ranges(entries)) + repeated(
            None,
            max_row + 1 - row_behind(entries),
        ),
        blame_rows(blamed_ranges(entries)).len() == row_behind(entries) <= max_row + 1,
{
    lemma_blamed_ranges(entries, max_row);
    lemma_blame_rows_piece(None, max_row + 1 - row_behind(entries));
    lemma_blame_rows_concat(
        blamed_ranges(entries),
        piece(None, max_row + 1 - row_behind(entries)),
    );
}

/// Blame of ranges that stand in order in a file has as many rows as the file.
pub proof fn law_generated_in_step(state: BlameState, entries: Seq<BlameEntry>, text: Seq<u8>)
    requires
        row_count(text) <= u32::MAX,
        in_file_order(entries, row_count(text) - 1),
    ensures
        (BlameState { entries: built(entries, row_count(text) - 1), text, ..state }).in_step(),
{
    let max_row = row_count(text) - 1;
    lemma_built(entries, max_row);
    assert(blame_rows(built(entries, max_row)).len() == row_count(text));
}

/// Once blame of ranges that stand in order is generated, each row in a range has the range's
/// blame.
pub proof fn law_rows_in_range_are_blamed(
    entries: Seq<BlameEntry>,
    max_row: int,
    index: int,
    row: int,
)
    requires
        in_file_order(entries, max_row),
        max_row < u32::MAX,
        0 <= index < entries.len(),
        entries[index].range.start <= row < entries[index].range.end,
    ensures
        row_blame(built(entries, max_row), row) == Some(entries[index]),
{
    lemma_built(entries, max_row);
    lemma_blamed_ranges(entries, max_row);
    lemma_blame_at_rows(built(entries, max_row), row);
    assert(blame_at(blame_rows(blamed_ranges(entries)), row) == Some(entries[index]));
}

/// Once blame of ranges that stand in order is generated, a row that is in no range has no blame.
pub proof fn law_rows_in_no_range_are_not_blamed(
    entries: Seq<BlameEntry>,
    max_row: int,
    row: int,
)
    requires
        in_file_order(entries, max_row),
        0 <= max_row < u32::MAX,
        0 <= row,
        in_no_range(entries, row),
    ensures
        row_blame(built(entries, max_row), row) is None,
{
    lemma_built(entries, max_row);
    lemma_blamed_ranges(entries, max_row);
    lemma_blame_at_rows(built(entries, max_row), row);
    assert(blame_at(blame_rows(blamed_ranges(entries)), row) is None);
}

/// Whether each blame among `part` is that of one of the `entries`.
pub open spec fn blames_among(part: Seq<GitBlameEntry>, entries: Seq<GitBlameEntry>) -> bool {
    forall|i: int|
        0 <= i < part.len() && (#[trigger] part[i]).blame is Some ==> exists|j: int|
            0 <= j < entries.len() && (#[trigger] entries[j]).blame == part[i].blame
}

proof fn lemma_blames_among_concat(
    left: Seq<GitBlameEntry>,
    right: Seq<GitBlameEntry>,
    entries: Seq<GitBlameEntry>,
)
    requires
        blames_among(left, entries),
        blames_among(right, entries),
    ensures
        blames_among(left + right, entries),
{
    assert forall|i: int|
        0 <= i < (left + right).len() && (#[trigger] (left
            + right)[i]).blame is Some implies exists|j: int|
        0 <= j < entries.len() && (#[trigger] entries[j]).blame == (left + right)[i].blame by {
        if i < left.len() {
            assert((left + right)[i] == left[i]);
        } else {
            assert((left + right)[i] == right[i - left.len()]);
        }
    }
}

proof fn lemma_blames_among_piece(entries: Seq<GitBlameEntry>, index: int, rows: int)
    ensures
        blames_among(piece(blame_of(entries, index), rows), entries),
        blames_among(piece(None, rows), entries),
{
    let part = piece(blame_of(entries, index), rows);
    assert forall|i: int|
        0 <= i < part.len() && (#[trigger] part[i]).blame is Some implies exists|j: int|
        0 <= j < entries.len() && (#[trigger] entries[j]).blame == part[i].blame by {
        assert(entries[index].blame == part[i].blame);
    }
}

proof fn lemma_blames_among_subrange(entries: Seq<GitBlameEntry>, low: int, high: int)
    requires
        0 <= low <= high <= entries.len(),
    ensures
        blames_among(entries.subrange(low, high), entries),
{
    let part = entries.subrange(low, high);
    assert forall|i: int|
        0 <= i < part.len() && (#[trigger] part[i]).blame is Some implies exists|j: int|
        0 <= j < entries.len() && (#[trigger] entries[j]).blame == part[i].blame by {
        assert(entries[low + i].blame == part[i].blame);
    }
}

proof fn lemma_blames_among_spliced_behind(
    entries: Seq<GitBlameEntry>,
    edits: Seq<RowEdit>,
    low: int,
)
    requires
        0 <= low,
        edits.len() > 0 ==> low <= edits[0].old_start,
        ordered(edits),
        apart(edits),
    ensures
        blames_among(spliced_behind(entries, edits, low), entries),
    decreases edits.len(),
{
    let first = entry_at(entries, low);
    lemma_entry_at(entries, low);
    if edits.len() == 0 {
        if first < entries.len() {
            let end = row_sum(entries, first + 1) as int;
            lemma_blames_among_piece(entries, first, end - low);
            lemma_blames_among_subrange(entries, first + 1, entries.len() as int);
            lemma_blames_among_concat(
                piece(blame_of(entries, first), end - low),
                entries.skip(first + 1),
                entries,
            );
        }
    } else {
        lemma_rest(edits);
        let high = edits[0].old_start;
        let kept = kept_between(entries, low, high);
        let gone = piece(None, edits[0].new_end - edits[0].new_start);
        let rest = spliced_behind(entries, edits.skip(1), edits[0].old_end);
        let last = entry_at(entries, high);
        lemma_entry_at(entries, high);
        lemma_blames_among_piece(entries, first, high - low);
        if first != last {
            let end = row_sum(entries, first + 1) as int;
            let start = row_sum(entries, last) as int;
            if last < first {
                lemma_row_sum_monotone(entries, last + 1, first);
            }
            lemma_blames_among_piece(entries, first, end - low);
            lemma_blames_among_subrange(entries, first + 1, last);
            lemma_blames_among_piece(entries, last, high - start);
            let head = piece(blame_of(entries, first), end - low);
            let middle = entries.subrange(first + 1, last);
            lemma_blames_among_concat(head, middle, entries);
            lemma_blames_among_concat(
                head + middle,
                piece(blame_of(entries, last), high - start),
                entries,
            );
        }
        lemma_blames_among_piece(entries, 0, edits[0].new_end - edits[0].new_start);
        lemma_blames_among_spliced_behind(entries, edits.skip(1), edits[0].old_end);
        lemma_blames_among_concat(kept, gone, entries);
        lemma_blames_among_concat(kept + gone, rest, entries);
    }
}

/// Bringing blame in step with a buffer brings in no blame that was not there before.
pub proof fn law_sync_brings_no_blame(
    state: BlameState,
    edits: Seq<Edit<usize>>,
    text: Seq<u8>,
    buffer: BufferId,
)
    requires
        is_patch(state.text, text, edits),
    ensures
        blames_among(state.synced(edits, text, buffer).entries, state.entries),
{
    let entries = state.entries;
    let touched = touched_rows(state.text, text, edits);
    lemma_touched_rows(state.text, text, edits);
    if touched.len() == 0 {
        lemma_blames_among_subrange(entries, 0, entries.len() as int);
        assert(entries.subrange(0, entries.len() as int) =~= entries);
    } else {
        let high = touched[0].old_start;
        let last = entry_at(entries, high);
        let start = row_sum(entries, last) as int;
        let kept = kept_before(entries, high);
        let gone = piece(None, touched[0].new_end - touched[0].new_start);
        lemma_entry_at(entries, high);
        lemma_rest(touched);
        lemma_blames_among_subrange(entries, 0, last);
        lemma_blames_among_piece(entries, last, high - start);
        lemma_blames_among_concat(
            entries.subrange(0, last),
            piece(blame_of(entries, last), high - start),
            entries,
        );
        lemma_blames_among_piece(entries, 0, touched[0].new_end - touched[0].new_start);
        lemma_blames_among_spliced_behind(entries, touched.skip(1), touched[0].old_end);
        lemma_blames_among_concat(kept, gone, entries);
        lemma_blames_among_concat(
            kept + gone,
            spliced_behind(entries, touched.skip(1), touched[0].old_end),
            entries,
        );
    }
}

/// The longest name of an author is as long as any, and is that of some entry, if there is one.
pub proof fn law_longest_author(entries: Seq<GitBlameEntry>)
    ensures
        forall|i: int|
            0 <= i < entries.len() ==> author_bytes(#[trigger] entries[i]) <= longest_author(
                entries,
            ),
        longest_author(entries) == 0 || exists|i: int|
            0 <= i < entries.len() && author_bytes(#[trigger] entries[i]) == longest_author(
                entries,
            ),
    decreases entries.len(),
{
    if entries.len() > 0 {
        let before = entries.drop_last();
        law_longest_author(before);
        assert forall|i: int| 0 <= i < entries.len() implies author_bytes(#[trigger] entries[i])
            <= longest_author(entries) by {
            if i < before.len() {
                assert(entries[i] == before[i]);
            }
        }
        if longest_author(entries) != 0 {
            if author_bytes(entries.last()) == longest_author(entries) {
                assert(author_bytes(entries[entries.len() - 1]) == longest_author(entries));
            } else {
                let i = choose|i: int|
                    0 <= i < before.len() && author_bytes(#[trigger] before[i]) == longest_author(
                        before,
                    );
                assert(author_bytes(entries[i]) == longest_author(entries));
            }
        }
    }
}

/// Bringing blame in step with a buffer never makes the longest name of an author longer.
pub proof fn law_longest_author_never_grows(
    state: BlameState,
    edits: Seq<Edit<usize>>,
    text: Seq<u8>,
    buffer: BufferId,
)
    requires
        is_patch(state.text, text, edits),
    ensures
        longest_author(state.synced(edits, text, buffer).entries) <= longest_author(state.entries),
{
    let entries = state.synced(edits, text, buffer).entries;
    law_sync_brings_no_blame(state, edits, text, buffer);
    law_longest_author(entries);
    law_longest_author(state.entries);
    if longest_author(entries) != 0 {
        let i = choose|i: int|
            0 <= i < entries.len() && author_bytes(#[trigger] entries[i]) == longest_author(
                entries,
            );
        let j = choose|j: int|
            0 <= j < state.entries.len() && (#[trigger] state.entries[j]).blame
                == entries[i].blame;
        assert(author_bytes(state.entries[j]) <= longest_author(state.entries));
    }
}

/// Blame that nobody looks at is never generated; that there was reason to is remembered.
pub proof fn law_blurred_blame_is_not_generated(state: BlameState)
    requires
        !state.focused,
    ensures
        state.asked_action() == Action::Wait,
        state.asked().changed_while_blurred,
        state.asked().asked() == state.asked(),
{
}

/// Reasons to generate blame that came while nobody looked at it, however many, lead to one
/// generation, when it is looked at again; without any there is none.
pub proof fn law_focus_catches_up(state: BlameState)
    requires
        !state.focused,
    ensures
        state.focused_on_action() == Action::Generate <==> state.changed_while_blurred,
        state.asked().focused_on_action() == Action::Generate,
        state.focused_on().focused,
        !state.focused_on().changed_while_blurred,
        state.focused_on().focused_on_action() == Action::Wait,
        state.focused_on().focused_on() == state.focused_on(),
{
}

/// While blame is looked at, nothing is ever left to be caught up with: there is nothing at first,
/// and asking for blame, looking at it, looking away, reading the buffer and new blame keep it so.
pub proof fn law_focused_blame_is_caught_up(
    state: BlameState,
    edits: Seq<Edit<usize>>,
    text: Seq<u8>,
    buffer: BufferId,
    entries: Seq<GitBlameEntry>,
    details: Map<Oid, ParsedCommitMessage>,
)
    requires
        state.caught_up(),
    ensures
        state.asked().caught_up(),
        state.focused_on().caught_up(),
        (BlameState { focused: false, ..state }).caught_up(),
        state.synced(edits, text, buffer).caught_up(),
        (BlameState { entries, details, text, buffer, generated: true, ..state }).caught_up(),
{
}

proof fn lemma_last_message(messages: Seq<(Oid, String)>, oid: Oid, count: int)
    requires
        count <= messages.len(),
    ensures
        ({
            let last = last_message(messages, oid, count);
            &&& -1 <= last < count || last == -1
            &&& last >= 0 ==> messages[last].0 == oid
            &&& forall|i: int|
                0 <= i < count && last < i ==> (#[trigger] messages[i]).0 != oid
        }),
    decreases count,
{
    if count > 0 && messages[count - 1].0 != oid {
        lemma_last_message(messages, oid, count - 1);
    }
}

/// The details of commits hold the last message of each commit, with a permalink exactly if there is
/// a remote, and no commit that has no message.
pub proof fn law_each_message_is_kept<L, P>(
    details: Map<Oid, ParsedCommitMessage>,
    messages: Seq<(Oid, String)>,
    remote: Option<(ProviderId, ParsedGitRemote)>,
    build_commit_permalink: L,
    extract_pull_request: P,
    index: int,
) where
    L: Fn(ProviderId, &ParsedGitRemote, &str) -> String,
    P: Fn(ProviderId, &ParsedGitRemote, &str) -> Option<PullRequest>,

    requires
        all_details_of(
            details,
            messages,
            messages.len() as int,
            remote,
            build_commit_permalink,
            extract_pull_request,
        ),
        0 <= index < messages.len(),
        forall|later: int|
            index < later < messages.len() ==> (#[trigger] messages[later]).0 != messages[index].0,
    ensures
        details.contains_key(messages[index].0),
        details[messages[index].0].message == messages[index].1,
        remote is None ==> details[messages[index].0].permalink is None,
        remote is Some ==> details[messages[index].0].permalink is Some,
        forall|oid: Oid| #[trigger]
            details.contains_key(oid) ==> exists|i: int|
                0 <= i < messages.len() && (#[trigger] messages[i]).0 == oid,
{
    let oid = messages[index].0;
    lemma_last_message(messages, oid, messages.len() as int);
    assert(details.contains_key(oid));
    assert forall|other: Oid| #[trigger] details.contains_key(other) implies exists|i: int|
        0 <= i < messages.len() && (#[trigger] messages[i]).0 == other by {
        lemma_last_message(messages, other, messages.len() as int);
        let last = last_message(messages, other, messages.len() as int);
        assert(messages[last].0 == other);
    }
}

/// How many values can be written with `digits` hexadecimal digits.
spec fn hex_limit(digits: nat) -> nat
    decreases digits,
{
    if digits == 0 {
        1
    } else {
        16 * hex_limit((digits - 1) as nat)
    }
}

proof fn lemma_hex_text_len(value: nat, digits: nat)
    ensures
        hex_text(value, digits).len() == digits,
    decreases digits,
{
    if digits > 0 {
        lemma_hex_text_len(value / 16, (digits - 1) as nat);
    }
}

proof fn lemma_hex_text_injective(first: nat, second: nat, digits: nat)
    requires
        first < hex_limit(digits),
        second < hex_limit(digits),
        hex_text(first, digits) == hex_text(second, digits),
    ensures
        first == second,
    decreases digits,
{
    if digits > 0 {
        let rest = (digits - 1) as nat;
        assert(hex_text(first, digits).last() == hex_digit(first % 16));
        assert(hex_text(second, digits).last() == hex_digit(second % 16));
        assert(hex_text(first, digits).drop_last() =~= hex_text(first / 16, rest));
        assert(hex_text(second, digits).drop_last() =~= hex_text(second / 16, rest));
        lemma_hex_text_injective(first / 16, second / 16, rest);
    }
}

/// A commit is written as forty digits, and no two commits in the same way.
pub proof fn law_commit_text(first: Oid, second: Oid)
    ensures
        first.text().len() == 40,
        first.text() == second.text() ==> first == second,
{
    lemma_hex_text_len(first.high as nat, 32);
    lemma_hex_text_len(first.low as nat, 8);
    lemma_hex_text_len(second.high as nat, 32);
    lemma_hex_text_len(second.low as nat, 8);
    if first.text() == second.text() {
        assert(hex_text(first.high as nat, 32) =~= first.text().take(32));
        assert(hex_text(second.high as nat, 32) =~= second.text().take(32));
        assert(hex_text(first.low as nat, 8) =~= first.text().skip(32));
        assert(hex_text(second.low as nat, 8) =~= second.text().skip(32));
        reveal_with_fuel(hex_limit, 33);
        lemma_hex_text_injective(first.high as nat, second.high as nat, 32);
        lemma_hex_text_injective(first.low as nat, second.low as nat, 8);
    }
}

} // verus!
