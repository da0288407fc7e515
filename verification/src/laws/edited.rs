//! What edits do to the blame of a buffer's rows, told by the texts and the edits alone.

use crate::blame::BlameState;
use crate::edits::{gap_kept, is_patch, Edit};
use crate::entry::GitBlameEntry;
use crate::laws::{
    law_touched_rows_lose_blame, law_untouched_rows_keep_blame, lemma_touched_countable, row_shift,
};
use crate::row_edits::{
    aligned_at, apart, countable, joined, lemma_merged, lemma_merged_first,
    lemma_row_edits_aligned, lemma_touched_rows, merged, ordered, row_edits, touched_rows, RowEdit,
};
use crate::rows::{blame_of, piece, row_blame};
use crate::splice::{kept_before, kept_behind, kept_between, lemma_rest, spliced_behind};
use crate::text::{lemma_newlines_monotone, newlines_before, row_count, BufferId};
use crate::tree::{entry_at, lemma_entry_at, lemma_row_sum_monotone, row_sum};
use vstd::prelude::*;

verus! {

/// Whether a row of `text` starts at `offset`: at the start of the text, or behind a newline.
pub open spec fn starts_row(text: Seq<u8>, offset: int) -> bool {
    offset == 0 || text[offset - 1] == 10u8
}

/// Whether a row of `text` ends at `offset`: at the end of the text, or before a newline.
pub open spec fn ends_row(text: Seq<u8>, offset: int) -> bool {
    offset == text.len() || text[offset] == 10u8
}

/// Whether `edit` starts behind all text of its first row, and what it puts there starts with a
/// newline, or what it takes away ends in an empty row.
pub open spec fn behind_first_row(old: Seq<u8>, new: Seq<u8>, edit: Edit<usize>) -> bool {
    &&& ends_row(old, edit.old.start as int)
    &&& {
        ||| edit.new.start < new.len() && new[edit.new.start as int] == 10u8
        ||| starts_row(old, edit.old.end as int) && ends_row(old, edit.old.end as int)
    }
}

/// Whether `edit` takes away whole rows, and puts whole rows in their place.
pub open spec fn of_whole_rows(old: Seq<u8>, new: Seq<u8>, edit: Edit<usize>) -> bool {
    &&& starts_row(old, edit.old.start as int)
    &&& starts_row(old, edit.old.end as int)
    &&& starts_row(new, edit.new.end as int)
}

/// Where each of some row edits starts no later than the next one does, a row that one of them
/// wrote is in one of the merged row edits.
proof fn lemma_merged_covers(edits: Seq<RowEdit>, index: int, row: int) -> (found: int)
    requires
        ordered(edits),
        forall|i: int, j: int|
            0 <= i <= j < edits.len() ==> (#[trigger] edits[i]).new_start <= (
            #[trigger] edits[j]).new_start,
        0 <= index < edits.len(),
        edits[index].new_start <= row < edits[index].new_end,
    ensures
        0 <= found < merged(edits).len(),
        merged(edits)[found].new_start <= row < merged(edits)[found].new_end,
    decreases edits.len(),
{
    if edits.len() < 2 {
        index
    } else if edits[0].old_end >= edits[1].old_start {
        let rest = seq![joined(edits[0], edits[1])] + edits.skip(2);
        lemma_join(edits);
        assert forall|i: int, j: int| 0 <= i <= j < rest.len() implies (
        #[trigger] rest[i]).new_start <= (#[trigger] rest[j]).new_start by {
            assert(edits[0].new_start <= edits[j + 1].new_start);
            assert(edits[i + 1].new_start <= edits[j + 1].new_start);
        }
        assert(aligned_at(edits, 0));
        assert(edits[0].new_start <= edits[1].new_start);
        if index < 2 {
            lemma_merged_covers(rest, 0, row)
        } else {
            assert(rest[index - 1] == edits[index]);
            lemma_merged_covers(rest, index - 1, row)
        }
    } else if index == 0 {
        0
    } else {
        let rest = edits.skip(1);
        assert forall|i: int| 0 <= i < rest.len() - 1 implies #[trigger] aligned_at(rest, i) by {
            assert(aligned_at(edits, i + 1));
        }
        let found = lemma_merged_covers(rest, index - 1, row);
        assert(merged(edits)[found + 1] == merged(rest)[found]);
        found + 1
    }
}

/// Joining the first two of some row edits keeps them in order.
proof fn lemma_join(edits: Seq<RowEdit>)
    requires
        ordered(edits),
        edits.len() >= 2,
        edits[0].old_end >= edits[1].old_start,
    ensures
        ordered(seq![joined(edits[0], edits[1])] + edits.skip(2)),
{
    let rest = seq![joined(edits[0], edits[1])] + edits.skip(2);
    assert(aligned_at(edits, 0));
    assert forall|i: int| 0 <= i < rest.len() - 1 implies #[trigger] aligned_at(rest, i) by {
        assert(aligned_at(edits, i + 1));
    }
    assert forall|i: int| 0 <= i < rest.len() implies {
        &&& (#[trigger] rest[i]).old_start <= rest[i].old_end
        &&& rest[i].new_start <= rest[i].new_end
    } by {
        assert(edits[i + 1].old_start <= edits[i + 1].old_end);
    }
}

/// Where rows lie between two neighbouring row edits, there is a gap between merged row edits too,
/// with the same ends.
proof fn lemma_merged_gap(edits: Seq<RowEdit>, index: int) -> (gap: int)
    requires
        ordered(edits),
        0 <= index <= edits.len(),
        0 < index < edits.len() ==> edits[index - 1].old_end < edits[index].old_start,
    ensures
        0 <= gap <= merged(edits).len(),
        gap == 0 <==> index == 0,
        gap == merged(edits).len() <==> index == edits.len(),
        index > 0 ==> merged(edits)[gap - 1].old_end == edits[index - 1].old_end,
        index > 0 ==> merged(edits)[gap - 1].new_end == edits[index - 1].new_end,
        index < edits.len() ==> merged(edits)[gap].old_start == edits[index].old_start,
    decreases edits.len(),
{
    if edits.len() < 2 {
        index
    } else if index == 0 {
        lemma_merged_first(edits);
        0
    } else if edits[0].old_end >= edits[1].old_start {
        let rest = seq![joined(edits[0], edits[1])] + edits.skip(2);
        lemma_join(edits);
        assert(index >= 2);
        assert(rest[index - 2].old_end == edits[index - 1].old_end);
        assert(rest[index - 2].new_end == edits[index - 1].new_end);
        if index < edits.len() {
            assert(rest[index - 1] == edits[index]);
        }
        lemma_merged_gap(rest, index - 1)
    } else {
        let rest = edits.skip(1);
        assert forall|i: int| 0 <= i < rest.len() - 1 implies #[trigger] aligned_at(rest, i) by {
            assert(aligned_at(edits, i + 1));
        }
        if index > 1 {
            assert(rest[index - 2] == edits[index - 1]);
        }
        if index < edits.len() {
            assert(rest[index - 1] == edits[index]);
        }
        let gap = lemma_merged_gap(rest, index - 1);
        let result = merged(edits);
        assert(result =~= seq![edits[0]] + merged(rest));
        if gap > 0 {
            assert(result[gap] == merged(rest)[gap - 1]);
        }
        gap + 1
    }
}

/// An edit starts to write no later than the next one does.
proof fn lemma_starts_step(old: Seq<u8>, new: Seq<u8>, edits: Seq<Edit<usize>>, index: int)
    requires
        is_patch(old, new, edits),
        0 <= index < edits.len() - 1,
    ensures
        row_edits(old, new, edits)[index].new_start <= row_edits(
            old,
            new,
            edits,
        )[index + 1].new_start,
{
    let edit = edits[index];
    let next = edits[index + 1];
    assert(gap_kept(old, new, edits, index));
    assert(gap_kept(old, new, edits, index + 1));
    let gap_old = old.subrange(edit.old.end as int, next.old.start as int);
    let gap_new = new.subrange(edit.new.end as int, next.new.start as int);
    assert(gap_old == gap_new);
    assert(gap_old.len() > 0);
    assert(gap_old[0] == gap_new[0]);
    assert(old[edit.old.end as int] == gap_old[0]);
    assert(new[edit.new.end as int] == gap_new[0]);
    lemma_newlines_monotone(new, edit.new.start as int, edit.new.end as int);
    lemma_newlines_monotone(new, edit.new.end as int, next.new.start as int);
    lemma_newlines_monotone(new, edit.new.end + 1, next.new.start as int);
    if edit.new.start < edit.new.end {
        lemma_newlines_monotone(new, edit.new.start + 1, edit.new.end as int);
    }
}

proof fn lemma_starts(old: Seq<u8>, new: Seq<u8>, edits: Seq<Edit<usize>>, low: int, high: int)
    requires
        is_patch(old, new, edits),
        0 <= low <= high < edits.len(),
    ensures
        row_edits(old, new, edits)[low].new_start <= row_edits(old, new, edits)[high].new_start,
    decreases high - low,
{
    if low < high {
        lemma_starts(old, new, edits, low, high - 1);
        lemma_starts_step(old, new, edits, high - 1);
    }
}

/// Every row that an edit wrote has no blame, whichever other edits there are: the rows from that
/// in which the edit starts to that in which it ends, in the new text. The first of them is left
/// out if the edit is behind all text of that row, else the last if the edit is of whole rows.
pub proof fn law_edited_rows_lose_blame(
    state: BlameState,
    edits: Seq<Edit<usize>>,
    text: Seq<u8>,
    buffer: BufferId,
    index: int,
    row: int,
)
    requires
        is_patch(state.text, text, edits),
        row_count(state.text) <= u32::MAX,
        row_count(text) <= u32::MAX,
        0 <= index < edits.len(),
        newlines_before(text, edits[index].new.start as int) <= row <= newlines_before(
            text,
            edits[index].new.end as int,
        ),
        behind_first_row(state.text, text, edits[index]) ==> row != newlines_before(
            text,
            edits[index].new.start as int,
        ),
        !behind_first_row(state.text, text, edits[index]) && of_whole_rows(
            state.text,
            text,
            edits[index],
        ) ==> row != newlines_before(text, edits[index].new.end as int),
    ensures
        row_blame(state.synced(edits, text, buffer).entries, row) is None,
{
    let rows = row_edits(state.text, text, edits);
    lemma_row_edits_aligned(state.text, text, edits);
    assert forall|i: int, j: int| 0 <= i <= j < rows.len() implies (
    #[trigger] rows[i]).new_start <= (#[trigger] rows[j]).new_start by {
        lemma_starts(state.text, text, edits, i, j);
    }
    assert(rows[index].new_start <= row < rows[index].new_end);
    let found = lemma_merged_covers(rows, index, row);
    law_touched_rows_lose_blame(state, edits, text, buffer, found, row);
}

/// Every row that lies behind one edit and before the next keeps its blame, and moves by as many
/// rows as the edits before it added. A row lies behind an edit if it is behind the row in which
/// the edit ends, or is that row and the edit is of whole rows. It lies before an edit if it is
/// before the row in which the edit starts, or is that row and the edit is behind all its text.
pub proof fn law_rows_between_edits_keep_blame(
    state: BlameState,
    edits: Seq<Edit<usize>>,
    text: Seq<u8>,
    buffer: BufferId,
    index: int,
    row: int,
)
    requires
        is_patch(state.text, text, edits),
        row_count(state.text) <= u32::MAX,
        row_count(text) <= u32::MAX,
        0 <= row,
        0 <= index <= edits.len(),
        index > 0 ==> {
            let before = edits[index - 1];
            let end = newlines_before(state.text, before.old.end as int);
            ||| end < row
            ||| end == row && of_whole_rows(state.text, text, before) && !behind_first_row(
                state.text,
                text,
                before,
            )
        },
        index < edits.len() ==> {
            let behind = edits[index];
            let start = newlines_before(state.text, behind.old.start as int);
            ||| row < start
            ||| row == start && behind_first_row(state.text, text, behind)
        },
    ensures
        ({
            let moved = if index == 0 {
                0
            } else {
                newlines_before(text, edits[index - 1].new.end as int) - newlines_before(
                    state.text,
                    edits[index - 1].old.end as int,
                )
            };
            row_blame(state.synced(edits, text, buffer).entries, row + moved) == row_blame(
                state.entries,
                row,
            )
        }),
{
    let rows = row_edits(state.text, text, edits);
    lemma_row_edits_aligned(state.text, text, edits);
    let gap = lemma_merged_gap(rows, index);
    let touched = touched_rows(state.text, text, edits);
    law_untouched_rows_keep_blame(state, edits, text, buffer, gap, row);
    if index > 0 {
        assert(touched[gap - 1].old_end == rows[index - 1].old_end);
        assert(row_shift(touched, gap) == rows[index - 1].new_end - rows[index - 1].old_end);
    }
}

proof fn lemma_single_starts(old: Seq<u8>, new: Seq<u8>, edit: Edit<usize>)
    requires
        is_patch(old, new, seq![edit]),
    ensures
        newlines_before(old, edit.old.start as int) == newlines_before(
            new,
            edit.new.start as int,
        ),
        newlines_before(old, edit.old.start as int) <= newlines_before(old, edit.old.end as int),
        newlines_before(new, edit.new.start as int) <= newlines_before(new, edit.new.end as int),
{
    let edits = seq![edit];
    assert(edits[0] == edit);
    lemma_row_edits_aligned(old, new, edits);
    assert(row_edits(old, new, edits)[0].old_start == row_edits(old, new, edits)[0].new_start);
    lemma_newlines_monotone(old, edit.old.start as int, edit.old.end as int);
    lemma_newlines_monotone(new, edit.new.start as int, edit.new.end as int);
}

/// Where whole rows are replaced by whole rows, the new rows have no blame, however many there are.
/// The rows before them keep theirs, and so do the rows behind, as many rows further down or up as
/// there are more or fewer rows.
pub proof fn law_whole_rows_replaced(
    state: BlameState,
    edit: Edit<usize>,
    text: Seq<u8>,
    buffer: BufferId,
    row: int,
)
    requires
        is_patch(state.text, text, seq![edit]),
        row_count(state.text) <= u32::MAX,
        row_count(text) <= u32::MAX,
        starts_row(state.text, edit.old.start as int),
        !ends_row(state.text, edit.old.start as int),
        starts_row(state.text, edit.old.end as int),
        starts_row(text, edit.new.end as int),
        0 <= row,
    ensures
        ({
            let start = newlines_before(text, edit.new.start as int);
            let old_end = newlines_before(state.text, edit.old.end as int);
            let new_end = newlines_before(text, edit.new.end as int);
            row_blame(state.synced(seq![edit], text, buffer).entries, row) == if row < start {
                row_blame(state.entries, row)
            } else if row < new_end {
                None
            } else {
                row_blame(state.entries, row - new_end + old_end)
            }
        }),
{
    let edits = seq![edit];
    assert(edits[0] == edit);
    lemma_single_starts(state.text, text, edit);
    let start = newlines_before(text, edit.new.start as int);
    let old_end = newlines_before(state.text, edit.old.end as int);
    let new_end = newlines_before(text, edit.new.end as int);
    if row < start {
        law_rows_between_edits_keep_blame(state, edits, text, buffer, 0, row);
    } else if row < new_end {
        law_edited_rows_lose_blame(state, edits, text, buffer, 0, row);
    } else {
        law_rows_between_edits_keep_blame(
            state,
            edits,
            text,
            buffer,
            1,
            row - new_end + old_end,
        );
    }
}

/// Where an edit starts before the end of a row, and is not of whole rows, the rows from that in
/// which it starts to that in which it ends have no blame. All others keep theirs.
pub proof fn law_rows_replaced(
    state: BlameState,
    edit: Edit<usize>,
    text: Seq<u8>,
    buffer: BufferId,
    row: int,
)
    requires
        is_patch(state.text, text, seq![edit]),
        row_count(state.text) <= u32::MAX,
        row_count(text) <= u32::MAX,
        !ends_row(state.text, edit.old.start as int),
        !(starts_row(state.text, edit.old.start as int) && starts_row(
            state.text,
            edit.old.end as int,
        ) && starts_row(text, edit.new.end as int)),
        0 <= row,
    ensures
        ({
            let start = newlines_before(text, edit.new.start as int);
            let old_end = newlines_before(state.text, edit.old.end as int);
            let new_end = newlines_before(text, edit.new.end as int);
            row_blame(state.synced(seq![edit], text, buffer).entries, row) == if row < start {
                row_blame(state.entries, row)
            } else if row <= new_end {
                None
            } else {
                row_blame(state.entries, row - new_end + old_end)
            }
        }),
{
    let edits = seq![edit];
    assert(edits[0] == edit);
    lemma_single_starts(state.text, text, edit);
    let start = newlines_before(text, edit.new.start as int);
    let old_end = newlines_before(state.text, edit.old.end as int);
    let new_end = newlines_before(text, edit.new.end as int);
    if row < start {
        law_rows_between_edits_keep_blame(state, edits, text, buffer, 0, row);
    } else if row <= new_end {
        law_edited_rows_lose_blame(state, edits, text, buffer, 0, row);
    } else {
        law_rows_between_edits_keep_blame(
            state,
            edits,
            text,
            buffer,
            1,
            row - new_end + old_end,
        );
    }
}

/// Where an edit starts at the end of a row and puts a newline there, that row keeps its blame. The
/// rows behind it, to that in which the edit ends, have none. All others keep theirs.
pub proof fn law_rows_put_behind_row(
    state: BlameState,
    edit: Edit<usize>,
    text: Seq<u8>,
    buffer: BufferId,
    row: int,
)
    requires
        is_patch(state.text, text, seq![edit]),
        row_count(state.text) <= u32::MAX,
        row_count(text) <= u32::MAX,
        ends_row(state.text, edit.old.start as int),
        edit.new.start < text.len(),
        text[edit.new.start as int] == 10u8,
        0 <= row,
    ensures
        ({
            let start = newlines_before(text, edit.new.start as int);
            let old_end = newlines_before(state.text, edit.old.end as int);
            let new_end = newlines_before(text, edit.new.end as int);
            row_blame(state.synced(seq![edit], text, buffer).entries, row) == if row <= start {
                row_blame(state.entries, row)
            } else if row <= new_end {
                None
            } else {
                row_blame(state.entries, row - new_end + old_end)
            }
        }),
{
    let edits = seq![edit];
    assert(edits[0] == edit);
    lemma_single_starts(state.text, text, edit);
    let start = newlines_before(text, edit.new.start as int);
    let old_end = newlines_before(state.text, edit.old.end as int);
    let new_end = newlines_before(text, edit.new.end as int);
    if row <= start {
        law_rows_between_edits_keep_blame(state, edits, text, buffer, 0, row);
    } else if row <= new_end {
        law_edited_rows_lose_blame(state, edits, text, buffer, 0, row);
    } else {
        law_rows_between_edits_keep_blame(
            state,
            edits,
            text,
            buffer,
            1,
            row - new_end + old_end,
        );
    }
}

/// The entries whose rows all lie before the row in which the first edit starts stay as they are.
pub proof fn law_entries_before_edits_are_kept(
    state: BlameState,
    edits: Seq<Edit<usize>>,
    text: Seq<u8>,
    buffer: BufferId,
    count: int,
)
    requires
        is_patch(state.text, text, edits),
        edits.len() > 0,
        0 <= count <= state.entries.len(),
        row_sum(state.entries, count) <= newlines_before(state.text, edits[0].old.start as int),
    ensures
        count <= state.synced(edits, text, buffer).entries.len(),
        state.synced(edits, text, buffer).entries.take(count) == state.entries.take(count),
{
    let entries = state.entries;
    let rows = row_edits(state.text, text, edits);
    let touched = touched_rows(state.text, text, edits);
    lemma_row_edits_aligned(state.text, text, edits);
    lemma_merged(rows);
    let high = touched[0].old_start;
    assert(high == rows[0].old_start);
    let last = entry_at(entries, high);
    lemma_entry_at(entries, high);
    if last < count {
        lemma_row_sum_monotone(entries, last + 1, count);
    }
    assert(kept_before(entries, high).take(count) =~= entries.take(count));
    assert(state.synced(edits, text, buffer).entries.take(count) =~= entries.take(count));
}

proof fn lemma_spliced_behind_end(
    entries: Seq<GitBlameEntry>,
    edits: Seq<RowEdit>,
    low: int,
    from: int,
)
    requires
        0 <= low,
        edits.len() > 0 ==> low <= edits[0].old_start,
        ordered(edits),
        apart(edits),
        0 <= from <= entries.len(),
        edits.len() == 0 ==> low < row_sum(entries, from),
        edits.len() > 0 ==> edits.last().old_end < row_sum(entries, from),
    ensures
        ({
            let all = spliced_behind(entries, edits, low);
            let kept = entries.len() - from;
            &&& kept <= all.len()
            &&& all.skip(all.len() - kept) == entries.skip(from)
        }),
    decreases edits.len(),
{
    let all = spliced_behind(entries, edits, low);
    let kept = entries.len() - from;
    if edits.len() == 0 {
        let first = entry_at(entries, low);
        lemma_entry_at(entries, low);
        if from <= first {
            lemma_row_sum_monotone(entries, from, first);
        }
        assert(all == kept_behind(entries, low));
        assert(all.skip(all.len() - kept) =~= entries.skip(from));
    } else {
        lemma_rest(edits);
        let rest = spliced_behind(entries, edits.skip(1), edits[0].old_end);
        let head = kept_between(entries, low, edits[0].old_start) + piece(
            None,
            edits[0].new_end - edits[0].new_start,
        );
        assert(all == head + rest);
        lemma_spliced_behind_end(entries, edits.skip(1), edits[0].old_end, from);
        assert(all.skip(all.len() - kept) =~= rest.skip(rest.len() - kept));
    }
}

/// The entries whose rows all lie behind the row in which the last edit ends, and behind the row
/// after it, stay as they are.
pub proof fn law_entries_behind_edits_are_kept(
    state: BlameState,
    edits: Seq<Edit<usize>>,
    text: Seq<u8>,
    buffer: BufferId,
    from: int,
)
    requires
        is_patch(state.text, text, edits),
        edits.len() > 0,
        0 <= from <= state.entries.len(),
        newlines_before(state.text, edits.last().old.end as int) + 1 < row_sum(state.entries, from),
    ensures
        ({
            let entries = state.synced(edits, text, buffer).entries;
            let kept = state.entries.len() - from;
            &&& kept <= entries.len()
            &&& entries.skip(entries.len() - kept) == state.entries.skip(from)
        }),
{
    let entries = state.entries;
    let rows = row_edits(state.text, text, edits);
    let touched = touched_rows(state.text, text, edits);
    let kept = entries.len() - from;
    lemma_touched_rows(state.text, text, edits);
    lemma_row_edits_aligned(state.text, text, edits);
    lemma_merged(rows);
    lemma_rest(touched);
    assert(touched.last().old_end == rows.last().old_end);
    lemma_spliced_behind_end(entries, touched.skip(1), touched[0].old_end, from);
    let rest = spliced_behind(entries, touched.skip(1), touched[0].old_end);
    let head = kept_before(entries, touched[0].old_start) + piece(
        None,
        touched[0].new_end - touched[0].new_start,
    );
    let all = state.synced(edits, text, buffer).entries;
    assert(all == head + rest);
    assert(all.skip(all.len() - kept) =~= rest.skip(rest.len() - kept));
}

/// Whether each entry without rows among `part` is one of the `entries`.
pub open spec fn empty_among(part: Seq<GitBlameEntry>, entries: Seq<GitBlameEntry>) -> bool {
    forall|i: int|
        0 <= i < part.len() && (#[trigger] part[i]).rows == 0 ==> entries.contains(part[i])
}

proof fn lemma_empty_among_concat(
    left: Seq<GitBlameEntry>,
    right: Seq<GitBlameEntry>,
    entries: Seq<GitBlameEntry>,
)
    requires
        empty_among(left, entries),
        empty_among(right, entries),
    ensures
        empty_among(left + right, entries),
{
    let both = left + right;
    assert forall|i: int|
        0 <= i < both.len() && (#[trigger] both[i]).rows == 0 implies entries.contains(both[i]) by {
        if i < left.len() {
            assert(both[i] == left[i]);
        } else {
            assert(both[i] == right[i - left.len()]);
        }
    }
}

proof fn lemma_empty_among_subrange(entries: Seq<GitBlameEntry>, low: int, high: int)
    requires
        0 <= low <= high <= entries.len(),
    ensures
        empty_among(entries.subrange(low, high), entries),
{
    let part = entries.subrange(low, high);
    assert forall|i: int|
        0 <= i < part.len() && (#[trigger] part[i]).rows == 0 implies entries.contains(part[i]) by {
        assert(entries[low + i] == part[i]);
    }
}

proof fn lemma_empty_among_spliced_behind(
    entries: Seq<GitBlameEntry>,
    edits: Seq<RowEdit>,
    low: int,
)
    requires
        0 <= low,
        edits.len() > 0 ==> low <= edits[0].old_start,
        ordered(edits),
        apart(edits),
        countable(edits),
    ensures
        empty_among(spliced_behind(entries, edits, low), entries),
    decreases edits.len(),
{
    let first = entry_at(entries, low);
    lemma_entry_at(entries, low);
    if edits.len() == 0 {
        if first < entries.len() {
            let head = piece(blame_of(entries, first), row_sum(entries, first + 1) - low);
            lemma_empty_among_subrange(entries, first + 1, entries.len() as int);
            lemma_empty_among_concat(head, entries.skip(first + 1), entries);
        }
    } else {
        lemma_rest(edits);
        let high = edits[0].old_start;
        let kept = kept_between(entries, low, high);
        let gone = piece(None, edits[0].new_end - edits[0].new_start);
        let rest = spliced_behind(entries, edits.skip(1), edits[0].old_end);
        let last = entry_at(entries, high);
        lemma_entry_at(entries, high);
        if first != last {
            if last < first {
                lemma_row_sum_monotone(entries, last + 1, first);
            }
            let head = piece(blame_of(entries, first), row_sum(entries, first + 1) - low);
            let middle = entries.subrange(first + 1, last);
            let tail = piece(blame_of(entries, last), high - row_sum(entries, last));
            lemma_empty_among_subrange(entries, first + 1, last);
            lemma_empty_among_concat(head, middle, entries);
            lemma_empty_among_concat(head + middle, tail, entries);
        }
        lemma_empty_among_spliced_behind(entries, edits.skip(1), edits[0].old_end);
        lemma_empty_among_concat(kept, gone, entries);
        lemma_empty_among_concat(kept + gone, rest, entries);
    }
}

/// Reading the buffer leaves no entry whose rows are all gone: an entry without rows was there
/// before, as it is.
pub proof fn law_sync_leaves_no_empty_entries(
    state: BlameState,
    edits: Seq<Edit<usize>>,
    text: Seq<u8>,
    buffer: BufferId,
)
    requires
        is_patch(state.text, text, edits),
        row_count(state.text) <= u32::MAX,
        row_count(text) <= u32::MAX,
    ensures
        empty_among(state.synced(edits, text, buffer).entries, state.entries),
{
    let entries = state.entries;
    let touched = touched_rows(state.text, text, edits);
    lemma_touched_rows(state.text, text, edits);
    lemma_touched_countable(state.text, text, edits);
    if touched.len() == 0 {
        lemma_empty_among_subrange(entries, 0, entries.len() as int);
        assert(entries.subrange(0, entries.len() as int) =~= entries);
    } else {
        let high = touched[0].old_start;
        let last = entry_at(entries, high);
        let kept = kept_before(entries, high);
        let gone = piece(None, touched[0].new_end - touched[0].new_start);
        let rest = spliced_behind(entries, touched.skip(1), touched[0].old_end);
        lemma_entry_at(entries, high);
        lemma_rest(touched);
        lemma_empty_among_subrange(entries, 0, last);
        lemma_empty_among_concat(
            entries.subrange(0, last),
            piece(blame_of(entries, last), high - row_sum(entries, last)),
            entries,
        );
        lemma_empty_among_spliced_behind(entries, touched.skip(1), touched[0].old_end);
        lemma_empty_among_concat(kept, gone, entries);
        lemma_empty_among_concat(kept + gone, rest, entries);
    }
}

/// A byte that no edit takes away is still there, as far from where it was as the edits before it
/// made the text longer or shorter.
pub proof fn law_patch_keeps_text(
    old: Seq<u8>,
    new: Seq<u8>,
    edits: Seq<Edit<usize>>,
    index: int,
    offset: int,
)
    requires
        is_patch(old, new, edits),
        0 <= index <= edits.len(),
        if index == 0 {
            0 <= offset
        } else {
            edits[index - 1].old.end <= offset
        },
        if index == edits.len() {
            offset < old.len()
        } else {
            offset < edits[index].old.start
        },
    ensures
        ({
            let moved = if index == 0 {
                0
            } else {
                edits[index - 1].new.end - edits[index - 1].old.end
            };
            &&& 0 <= offset + moved < new.len()
            &&& new[offset + moved] == old[offset]
            &&& if index == edits.len() {
                new.len() == old.len() + moved
            } else {
                edits[index].new.start == edits[index].old.start + moved
            }
        }),
{
    assert(gap_kept(old, new, edits, index));
    let old_start = if index == 0 {
        0
    } else {
        edits[index - 1].old.end as int
    };
    let old_end = if index == edits.len() {
        old.len() as int
    } else {
        edits[index].old.start as int
    };
    let new_start = if index == 0 {
        0
    } else {
        edits[index - 1].new.end as int
    };
    let new_end = if index == edits.len() {
        new.len() as int
    } else {
        edits[index].new.start as int
    };
    let kept_old = old.subrange(old_start, old_end);
    let kept_new = new.subrange(new_start, new_end);
    assert(kept_old == kept_new);
    assert(kept_old.len() == kept_new.len());
    assert(kept_old[offset - old_start] == kept_new[offset - old_start]);
}

/// Any part of a text may be replaced by any bytes.
pub proof fn law_replacement_is_patch(
    old: Seq<u8>,
    start: usize,
    end: usize,
    inserted: Seq<u8>,
)
    requires
        start <= end <= old.len(),
        start + inserted.len() <= usize::MAX,
    ensures
        is_patch(
            old,
            old.take(start as int) + inserted + old.skip(end as int),
            seq![Edit { old: start..end, new: start..(start + inserted.len()) as usize }],
        ),
{
    let new = old.take(start as int) + inserted + old.skip(end as int);
    let edits = seq![Edit { old: start..end, new: start..(start + inserted.len()) as usize }];
    assert(old.subrange(0, start as int) =~= new.subrange(0, start as int));
    assert(old.subrange(end as int, old.len() as int) =~= new.subrange(
        start + inserted.len(),
        new.len() as int,
    ));
    assert(gap_kept(old, new, edits, 0));
    assert(gap_kept(old, new, edits, 1));
}

/// Behind the last edit of a patch, with some text left between, any part may be replaced by any
/// bytes as well.
pub proof fn law_patch_grows(
    old: Seq<u8>,
    new: Seq<u8>,
    edits: Seq<Edit<usize>>,
    start: usize,
    end: usize,
    inserted: Seq<u8>,
)
    requires
        is_patch(old, new, edits),
        edits.len() > 0,
        edits.last().old.end < start <= end <= old.len(),
        new.len() + inserted.len() <= usize::MAX,
    ensures
        ({
            let moved = new.len() - old.len();
            is_patch(
                old,
                new.take(start + moved) + inserted + new.skip(end + moved),
                edits.push(
                    Edit {
                        old: start..end,
                        new: (start + moved) as usize..(start + moved + inserted.len()) as usize,
                    },
                ),
            )
        }),
{
    let moved = new.len() - old.len();
    let text = new.take(start + moved) + inserted + new.skip(end + moved);
    let edit = Edit {
        old: start..end,
        new: (start + moved) as usize..(start + moved + inserted.len()) as usize,
    };
    let all = edits.push(edit);
    let count = edits.len() as int;
    let last = edits.last();
    assert(gap_kept(old, new, edits, count));
    let kept_old = old.subrange(last.old.end as int, old.len() as int);
    let kept_new = new.subrange(last.new.end as int, new.len() as int);
    assert(kept_old == kept_new);
    assert(kept_old.len() == kept_new.len());
    assert(last.new.end - last.old.end == moved);
    assert forall|index: int| 0 <= index <= all.len() implies #[trigger] gap_kept(
        old,
        text,
        all,
        index,
    ) by {
        if index < count {
            assert(gap_kept(old, new, edits, index));
            assert(gap_kept(old, new, edits, index + 1));
            assert(edits[index].new.start <= edits[index].new.end);
            lemma_new_ends(old, new, edits, index, count - 1);
            let new_start = if index == 0 {
                0
            } else {
                edits[index - 1].new.end as int
            };
            assert(text.subrange(new_start, edits[index].new.start as int) =~= new.subrange(
                new_start,
                edits[index].new.start as int,
            ));
        } else if index == count {
            let before = start - last.old.end;
            assert(kept_old.take(before) =~= old.subrange(last.old.end as int, start as int));
            assert(kept_new.take(before) =~= text.subrange(last.new.end as int, start + moved));
        } else {
            let skipped = end - last.old.end;
            assert(kept_old.skip(skipped) =~= old.subrange(end as int, old.len() as int));
            assert(kept_new.skip(skipped) =~= text.subrange(
                start + moved + inserted.len(),
                text.len() as int,
            ));
        }
    }
}

proof fn lemma_new_ends(old: Seq<u8>, new: Seq<u8>, edits: Seq<Edit<usize>>, low: int, high: int)
    requires
        is_patch(old, new, edits),
        0 <= low <= high < edits.len(),
    ensures
        edits[low].new.end <= edits[high].new.end,
    decreases high - low,
{
    if low < high {
        assert(gap_kept(old, new, edits, high));
        lemma_new_ends(old, new, edits, low, high - 1);
    }
}

} // verus!
