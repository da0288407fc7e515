//! The rows that edits touch.

use crate::edits::{
    gap_kept, is_patch, new_gap_end, new_gap_start, old_gap_end, old_gap_start, Edit,
};
use crate::text::{
    at_row_end, at_row_start, lemma_newlines_monotone, lemma_row_end, lemma_row_start,
    newlines_before, row_count, BufferSnapshot, NEWLINE,
};
use vstd::prelude::*;

verus! {

/// Rows `old_start..old_end` that were replaced by rows `new_start..new_end`.
pub struct RowEdit {
    pub old_start: int,
    pub old_end: int,
    pub new_start: int,
    pub new_end: int,
}

impl View for Edit<u32> {
    type V = RowEdit;

    open spec fn view(&self) -> RowEdit {
        RowEdit {
            old_start: self.old.start as int,
            old_end: self.old.end as int,
            new_start: self.new.start as int,
            new_end: self.new.end as int,
        }
    }
}

/// Whether an edit leaves its first row alone: it starts at the end of that row, and either puts
/// a newline there or ends on an empty row.
pub open spec fn spares_first_row(old: Seq<u8>, new: Seq<u8>, edit: Edit<usize>) -> bool {
    &&& at_row_end(old, edit.old.start as int)
    &&& {
        ||| edit.new.start < new.len() && new[edit.new.start as int] == NEWLINE
        ||| at_row_start(old, edit.old.end as int) && at_row_end(old, edit.old.end as int)
    }
}

/// Whether an edit replaces whole rows by whole rows, and so leaves its last row alone.
pub open spec fn spares_last_row(old: Seq<u8>, new: Seq<u8>, edit: Edit<usize>) -> bool {
    &&& at_row_start(old, edit.old.start as int)
    &&& at_row_start(old, edit.old.end as int)
    &&& at_row_start(new, edit.new.end as int)
}

/// The rows that an edit of a text touches: those in which it starts and ends and those between
/// them, but for a first row or a last row that it spares.
pub open spec fn row_edit(old: Seq<u8>, new: Seq<u8>, edit: Edit<usize>) -> RowEdit {
    let first: int = if spares_first_row(old, new, edit) {
        1
    } else {
        0
    };
    let last: int = if !spares_first_row(old, new, edit) && spares_last_row(old, new, edit) {
        0
    } else {
        1
    };
    RowEdit {
        old_start: newlines_before(old, edit.old.start as int) + first,
        old_end: newlines_before(old, edit.old.end as int) + last,
        new_start: newlines_before(new, edit.new.start as int) + first,
        new_end: newlines_before(new, edit.new.end as int) + last,
    }
}

/// The rows that each edit touches.
pub open spec fn row_edits(old: Seq<u8>, new: Seq<u8>, edits: Seq<Edit<usize>>) -> Seq<RowEdit> {
    edits.map_values(|edit: Edit<usize>| row_edit(old, new, edit))
}

/// The union of two row edits, the second of which starts no later than the first one ends.
pub open spec fn joined(first: RowEdit, second: RowEdit) -> RowEdit {
    RowEdit {
        old_start: first.old_start,
        old_end: second.old_end,
        new_start: first.new_start,
        new_end: second.new_end,
    }
}

/// The row edits, with those that overlap or touch their neighbour joined to it.
pub open spec fn merged(edits: Seq<RowEdit>) -> Seq<RowEdit>
    decreases edits.len(),
{
    if edits.len() < 2 {
        edits
    } else if edits[0].old_end >= edits[1].old_start {
        merged(seq![joined(edits[0], edits[1])] + edits.skip(2))
    } else {
        seq![edits[0]] + merged(edits.skip(1))
    }
}

/// The rows that edits touch, in order and apart from each other.
pub open spec fn touched_rows(
    old: Seq<u8>,
    new: Seq<u8>,
    edits: Seq<Edit<usize>>,
) -> Seq<RowEdit> {
    merged(row_edits(old, new, edits))
}

/// Row edit `index` ends no later than the next one, and as many rows lie between the two before
/// the edits as after them.
pub open spec fn aligned_at(edits: Seq<RowEdit>, index: int) -> bool {
    &&& edits[index].old_end <= edits[index + 1].old_end
    &&& edits[index].new_end <= edits[index + 1].new_end
    &&& edits[index + 1].old_start - edits[index].old_end == edits[index + 1].new_start
        - edits[index].new_end
}

/// The row edits stand in order, and rows between them keep their number.
pub open spec fn ordered(edits: Seq<RowEdit>) -> bool {
    &&& forall|index: int|
        0 <= index < edits.len() ==> {
            &&& (#[trigger] edits[index]).old_start <= edits[index].old_end
            &&& edits[index].new_start <= edits[index].new_end
        }
    &&& forall|index: int| 0 <= index < edits.len() - 1 ==> #[trigger] aligned_at(edits, index)
}

/// The row edits stand in order, and rows that none of them touches keep their number.
pub open spec fn aligned(edits: Seq<RowEdit>) -> bool {
    &&& edits.len() > 0 ==> 0 <= edits[0].old_start == edits[0].new_start
    &&& ordered(edits)
}

/// Between row edit `index` and the next one there are rows.
pub open spec fn apart_at(edits: Seq<RowEdit>, index: int) -> bool {
    edits[index].old_end < edits[index + 1].old_start
}

/// Between any two row edits there are rows.
pub open spec fn apart(edits: Seq<RowEdit>) -> bool {
    forall|index: int| 0 <= index < edits.len() - 1 ==> #[trigger] apart_at(edits, index)
}

/// All rows can be counted by a `u32`.
pub open spec fn countable(edits: Seq<RowEdit>) -> bool {
    forall|index: int|
        0 <= index < edits.len() ==> {
            &&& 0 <= (#[trigger] edits[index]).old_start <= u32::MAX
            &&& 0 <= edits[index].old_end <= u32::MAX
            &&& 0 <= edits[index].new_start <= u32::MAX
            &&& 0 <= edits[index].new_end <= u32::MAX
        }
}

/// In text that is the same, there are as many newlines.
proof fn lemma_same_newlines(
    old: Seq<u8>,
    new: Seq<u8>,
    old_start: int,
    new_start: int,
    len: int,
)
    requires
        0 <= old_start,
        0 <= new_start,
        0 <= len,
        old_start + len <= old.len(),
        new_start + len <= new.len(),
        old.subrange(old_start, old_start + len) == new.subrange(new_start, new_start + len),
    ensures
        newlines_before(old, old_start + len) - newlines_before(old, old_start)
            == newlines_before(new, new_start + len) - newlines_before(new, new_start),
    decreases len,
{
    if len > 0 {
        let left = old.subrange(old_start, old_start + len);
        let right = new.subrange(new_start, new_start + len);
        assert(left[len - 1] == right[len - 1]);
        assert(left.drop_last() =~= old.subrange(old_start, old_start + len - 1));
        assert(right.drop_last() =~= new.subrange(new_start, new_start + len - 1));
        lemma_same_newlines(old, new, old_start, new_start, len - 1);
    }
}

/// Text that is kept between two edits has as many newlines before as after.
proof fn lemma_gap_newlines(old: Seq<u8>, new: Seq<u8>, edits: Seq<Edit<usize>>, index: int)
    requires
        0 <= index <= edits.len(),
        gap_kept(old, new, edits, index),
    ensures
        newlines_before(old, old_gap_end(old, edits, index)) - newlines_before(
            old,
            old_gap_start(edits, index),
        ) == newlines_before(new, new_gap_end(new, edits, index)) - newlines_before(
            new,
            new_gap_start(edits, index),
        ),
        old_gap_end(old, edits, index) - old_gap_start(edits, index) == new_gap_end(
            new,
            edits,
            index,
        ) - new_gap_start(edits, index),
{
    let old_start = old_gap_start(edits, index);
    let old_end = old_gap_end(old, edits, index);
    let new_start = new_gap_start(edits, index);
    let new_end = new_gap_end(new, edits, index);
    assert(old.subrange(old_start, old_end).len() == new.subrange(new_start, new_end).len());
    lemma_same_newlines(old, new, old_start, new_start, old_end - old_start);
}

/// The row edits of a patch are aligned, and lie within the rows of the two texts.
pub proof fn lemma_row_edits_aligned(old: Seq<u8>, new: Seq<u8>, edits: Seq<Edit<usize>>)
    requires
        is_patch(old, new, edits),
    ensures
        aligned(row_edits(old, new, edits)),
        edits.len() == 0 ==> row_count(old) == row_count(new),
        edits.len() > 0 ==> {
            let last = row_edits(old, new, edits).last();
            &&& last.old_end <= row_count(old)
            &&& row_count(old) - last.old_end == row_count(new) - last.new_end
        },
{
    let rows = row_edits(old, new, edits);
    assert forall|index: int| 0 <= index < edits.len() implies {
        &&& 0 <= (#[trigger] edits[index]).old.start <= edits[index].old.end <= old.len()
        &&& 0 <= edits[index].new.start <= edits[index].new.end <= new.len()
    } by {
        assert(gap_kept(old, new, edits, index));
        assert(gap_kept(old, new, edits, index + 1));
    }
    assert forall|index: int| 0 <= index < rows.len() implies {
        &&& (#[trigger] rows[index]).old_start <= rows[index].old_end
        &&& rows[index].new_start <= rows[index].new_end
    } by {
        let edit = edits[index];
        lemma_newlines_monotone(old, edit.old.start as int, edit.old.end as int);
        lemma_newlines_monotone(new, edit.new.start as int, edit.new.end as int);
    }
    assert forall|index: int| 0 <= index < rows.len() - 1 implies #[trigger] aligned_at(
        rows,
        index,
    ) by {
        let edit = edits[index];
        let next = edits[index + 1];
        assert(gap_kept(old, new, edits, index + 1));
        lemma_gap_newlines(old, new, edits, index + 1);
        lemma_newlines_monotone(old, edit.old.end as int, next.old.start as int);
        lemma_newlines_monotone(old, next.old.start as int, next.old.end as int);
        lemma_newlines_monotone(new, edit.new.end as int, next.new.start as int);
        lemma_newlines_monotone(new, next.new.start as int, next.new.end as int);
        if at_row_start(old, next.old.start as int) {
            lemma_newlines_monotone(old, edit.old.end as int, next.old.start - 1);
        }
    }
    if edits.len() > 0 {
        assert(gap_kept(old, new, edits, 0));
        lemma_gap_newlines(old, new, edits, 0);
        let last = edits.last();
        lemma_newlines_monotone(old, last.old.end as int, old.len() as int);
    }
    assert(gap_kept(old, new, edits, edits.len() as int));
    lemma_gap_newlines(old, new, edits, edits.len() as int);
}

/// Merging keeps row edits in order, sets them apart, and keeps where the first starts and the
/// last ends.
pub proof fn lemma_merged(edits: Seq<RowEdit>)
    requires
        ordered(edits),
    ensures
        ordered(merged(edits)),
        apart(merged(edits)),
        merged(edits).len() <= edits.len(),
        merged(edits).len() == 0 <==> edits.len() == 0,
        edits.len() > 0 ==> {
            &&& merged(edits)[0].old_start == edits[0].old_start
            &&& merged(edits)[0].new_start == edits[0].new_start
            &&& merged(edits).last().old_end == edits.last().old_end
            &&& merged(edits).last().new_end == edits.last().new_end
        },
    decreases edits.len(),
{
    if edits.len() < 2 {
    } else if edits[0].old_end >= edits[1].old_start {
        let rest = seq![joined(edits[0], edits[1])] + edits.skip(2);
        assert(aligned_at(edits, 0));
        assert forall|index: int| 0 <= index < rest.len() - 1 implies #[trigger] aligned_at(
            rest,
            index,
        ) by {
            assert(aligned_at(edits, index + 1));
        }
        assert forall|index: int| 0 <= index < rest.len() implies {
            &&& (#[trigger] rest[index]).old_start <= rest[index].old_end
            &&& rest[index].new_start <= rest[index].new_end
        } by {
            assert(edits[index + 1].old_start <= edits[index + 1].old_end);
        }
        lemma_merged(rest);
        assert(rest.last().old_end == edits.last().old_end);
    } else {
        let rest = edits.skip(1);
        assert forall|index: int| 0 <= index < rest.len() - 1 implies #[trigger] aligned_at(
            rest,
            index,
        ) by {
            assert(aligned_at(edits, index + 1));
        }
        lemma_merged(rest);
        let result = merged(edits);
        assert(aligned_at(edits, 0));
        assert forall|index: int| 0 <= index < result.len() - 1 implies #[trigger] aligned_at(
            result,
            index,
        ) by {
            if index > 0 {
                assert(aligned_at(merged(rest), index - 1));
            } else {
                assert(result[1] == merged(rest)[0]);
            }
        }
        assert forall|index: int| 0 <= index < result.len() - 1 implies #[trigger] apart_at(
            result,
            index,
        ) by {
            if index > 0 {
                assert(apart_at(merged(rest), index - 1));
            }
        }
    }
}

/// The first of the merged row edits starts where the first row edit does.
pub proof fn lemma_merged_first(edits: Seq<RowEdit>)
    requires
        edits.len() > 0,
    ensures
        merged(edits).len() > 0,
        merged(edits)[0].old_start == edits[0].old_start,
        merged(edits)[0].new_start == edits[0].new_start,
    decreases edits.len(),
{
    if edits.len() >= 2 && edits[0].old_end >= edits[1].old_start {
        lemma_merged_first(seq![joined(edits[0], edits[1])] + edits.skip(2));
    }
}

pub proof fn lemma_merged_countable(edits: Seq<RowEdit>)
    requires
        countable(edits),
    ensures
        countable(merged(edits)),
    decreases edits.len(),
{
    if edits.len() < 2 {
    } else if edits[0].old_end >= edits[1].old_start {
        let rest = seq![joined(edits[0], edits[1])] + edits.skip(2);
        assert forall|index: int| 0 <= index < rest.len() implies {
            &&& 0 <= (#[trigger] rest[index]).old_start <= u32::MAX
            &&& 0 <= rest[index].old_end <= u32::MAX
            &&& 0 <= rest[index].new_start <= u32::MAX
            &&& 0 <= rest[index].new_end <= u32::MAX
        } by {
            assert(0 <= edits[index + 1].old_end <= u32::MAX);
        }
        lemma_merged_countable(rest);
    } else {
        lemma_merged_countable(edits.skip(1));
    }
}

/// The rows that a patch touches stand in order and apart, and those behind the last of them
/// keep their number.
pub proof fn lemma_touched_rows(old: Seq<u8>, new: Seq<u8>, edits: Seq<Edit<usize>>)
    requires
        is_patch(old, new, edits),
    ensures
        aligned(touched_rows(old, new, edits)),
        apart(touched_rows(old, new, edits)),
        edits.len() == 0 <==> touched_rows(old, new, edits).len() == 0,
        edits.len() == 0 ==> row_count(old) == row_count(new),
        edits.len() > 0 ==> {
            let last = touched_rows(old, new, edits).last();
            &&& last.old_end <= row_count(old)
            &&& row_count(old) - last.old_end == row_count(new) - last.new_end
        },
{
    lemma_row_edits_aligned(old, new, edits);
    lemma_merged(row_edits(old, new, edits));
}

/// The rows that an edit touches, found from where its ends are in the two snapshots.
pub fn find_row_edit(
    old: &BufferSnapshot,
    new: &BufferSnapshot,
    edit: &Edit<usize>,
) -> (rows: Edit<u32>)
    requires
        old.wf(),
        new.wf(),
        edit.old.start <= edit.old.end <= old@.len(),
        edit.new.start <= edit.new.end <= new@.len(),
    ensures
        rows@ == row_edit(old@, new@, *edit),
        ({
            let old_start = newlines_before(old@, edit.old.start as int) as int;
            let old_end = newlines_before(old@, edit.old.end as int) as int;
            let new_start = newlines_before(new@, edit.new.start as int) as int;
            let new_end = newlines_before(new@, edit.new.end as int) as int;
            let from_row_end = edit.old.start == old@.len() || old@[edit.old.start as int] == 10u8;
            let from_row_start = edit.old.start == 0 || old@[edit.old.start - 1] == 10u8;
            let to_row_end = edit.old.end == old@.len() || old@[edit.old.end as int] == 10u8;
            let to_row_start = edit.old.end == 0 || old@[edit.old.end - 1] == 10u8;
            let new_to_row_start = edit.new.end == 0 || new@[edit.new.end - 1] == 10u8;
            let newline = edit.new.start < new@.len() && new@[edit.new.start as int] == 10u8;
            if from_row_end && (newline || to_row_start && to_row_end) {
                &&& rows.old.start == old_start + 1 && rows.old.end == old_end + 1
                &&& rows.new.start == new_start + 1 && rows.new.end == new_end + 1
            } else if from_row_start && to_row_start && new_to_row_start {
                &&& rows.old.start == old_start && rows.old.end == old_end
                &&& rows.new.start == new_start && rows.new.end == new_end
            } else {
                &&& rows.old.start == old_start && rows.old.end == old_end + 1
                &&& rows.new.start == new_start && rows.new.end == new_end + 1
            }
        }),
{
    let old_start = old.offset_to_point(edit.old.start);
    let old_end = old.offset_to_point(edit.old.end);
    let new_start = new.offset_to_point(edit.new.start);
    let new_end = new.offset_to_point(edit.new.end);
    proof {
        old.lemma_wf();
        new.lemma_wf();
        lemma_newlines_monotone(old@, edit.old.start as int, old@.len() as int);
        lemma_newlines_monotone(old@, edit.old.end as int, old@.len() as int);
        lemma_newlines_monotone(new@, edit.new.start as int, new@.len() as int);
        lemma_newlines_monotone(new@, edit.new.end as int, new@.len() as int);
        lemma_row_start(old@, edit.old.start as int);
        lemma_row_end(old@, edit.old.start as int);
        lemma_row_start(old@, edit.old.end as int);
        lemma_row_end(old@, edit.old.end as int);
        lemma_row_start(new@, edit.new.end as int);
    }
    if old_start.column == old.line_len(old_start.row) && (new.newline_at(edit.new.start)
        || old.line_len(old_end.row) == 0) {
        Edit {
            old: old_start.row + 1..old_end.row + 1,
            new: new_start.row + 1..new_end.row + 1,
        }
    } else if old_start.column == 0 && old_end.column == 0 && new_end.column == 0 {
        Edit { old: old_start.row..old_end.row, new: new_start.row..new_end.row }
    } else {
        Edit {
            old: old_start.row..old_end.row + 1,
            new: new_start.row..new_end.row + 1,
        }
    }
}

} // verus!
