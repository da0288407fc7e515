//! Edits between two snapshots of a buffer.

use crate::text::BufferSnapshot;
use std::ops::Range;
use vstd::prelude::*;

verus! {

/// A range that was replaced, before and after.
#[derive(Debug, PartialEq, Eq)]
pub struct Edit<T> {
    pub old: Range<T>,
    pub new: Range<T>,
}

/// Where the text kept before edit `index` starts in the old text. Behind the last edit, `index`
/// is the number of edits.
pub open spec fn old_gap_start(edits: Seq<Edit<usize>>, index: int) -> int {
    if index == 0 {
        0
    } else {
        edits[index - 1].old.end as int
    }
}

/// Where the text kept before edit `index` ends in the old text.
pub open spec fn old_gap_end(old: Seq<u8>, edits: Seq<Edit<usize>>, index: int) -> int {
    if index == edits.len() {
        old.len() as int
    } else {
        edits[index].old.start as int
    }
}

/// As `old_gap_start`, in the new text.
pub open spec fn new_gap_start(edits: Seq<Edit<usize>>, index: int) -> int {
    if index == 0 {
        0
    } else {
        edits[index - 1].new.end as int
    }
}

/// As `old_gap_end`, in the new text.
pub open spec fn new_gap_end(new: Seq<u8>, edits: Seq<Edit<usize>>, index: int) -> int {
    if index == edits.len() {
        new.len() as int
    } else {
        edits[index].new.start as int
    }
}

/// The text before edit `index` is the same in both texts.
pub open spec fn gap_kept(
    old: Seq<u8>,
    new: Seq<u8>,
    edits: Seq<Edit<usize>>,
    index: int,
) -> bool {
    let old_start = old_gap_start(edits, index);
    let old_end = old_gap_end(old, edits, index);
    let new_start = new_gap_start(edits, index);
    let new_end = new_gap_end(new, edits, index);
    &&& 0 <= old_start <= old_end <= old.len()
    &&& 0 <= new_start <= new_end <= new.len()
    &&& 0 < index < edits.len() ==> old_start < old_end
    &&& old.subrange(old_start, old_end) == new.subrange(new_start, new_end)
}

/// Whether `edits` turn `old` into `new`: they stand in order, with some text between any two,
/// and all text that is in none of them is kept.
pub open spec fn is_patch(old: Seq<u8>, new: Seq<u8>, edits: Seq<Edit<usize>>) -> bool {
    &&& forall|index: int|
        0 <= index < edits.len() ==> {
            &&& (#[trigger] edits[index]).old.start <= edits[index].old.end
            &&& edits[index].new.start <= edits[index].new.end
        }
    &&& forall|index: int| 0 <= index <= edits.len() ==> #[trigger] gap_kept(old, new, edits, index)
}

fn same_bytes(
    old: &Vec<u8>,
    old_start: usize,
    old_end: usize,
    new: &Vec<u8>,
    new_start: usize,
    new_end: usize,
) -> (same: bool)
    requires
        old_start <= old_end <= old@.len(),
        new_start <= new_end <= new@.len(),
    ensures
        same == (old@.subrange(old_start as int, old_end as int) == new@.subrange(
            new_start as int,
            new_end as int,
        )),
{
    let ghost left = old@.subrange(old_start as int, old_end as int);
    let ghost right = new@.subrange(new_start as int, new_end as int);
    if old_end - old_start != new_end - new_start {
        assert(left.len() != right.len());
        return false;
    }
    let mut count: usize = 0;
    while count < old_end - old_start
        invariant
            old_start <= old_end <= old@.len(),
            new_start <= new_end <= new@.len(),
            old_end - old_start == new_end - new_start,
            0 <= count <= old_end - old_start,
            left == old@.subrange(old_start as int, old_end as int),
            right == new@.subrange(new_start as int, new_end as int),
            forall|i: int| 0 <= i < count ==> left[i] == right[i],
        decreases old_end - old_start - count,
    {
        if old[old_start + count] != new[new_start + count] {
            assert(left[count as int] != right[count as int]);
            return false;
        }
        count = count + 1;
    }
    assert(left =~= right);
    true
}

/// Checks that `edits` turn the text of `old` into that of `new`.
pub fn check_patch(
    old: &BufferSnapshot,
    new: &BufferSnapshot,
    edits: &Vec<Edit<usize>>,
) -> (valid: bool)
    ensures
        valid == is_patch(old@, new@, edits@),
{
    let old_bytes = old.bytes();
    let new_bytes = new.bytes();
    let mut old_start: usize = 0;
    let mut new_start: usize = 0;
    let mut index: usize = 0;
    while index < edits.len()
        invariant
            old_bytes@ == old@,
            new_bytes@ == new@,
            0 <= index <= edits@.len(),
            old_start == old_gap_start(edits@, index as int),
            new_start == new_gap_start(edits@, index as int),
            forall|i: int|
                0 <= i < index ==> {
                    &&& (#[trigger] edits@[i]).old.start <= edits@[i].old.end
                    &&& edits@[i].new.start <= edits@[i].new.end
                },
            forall|i: int| 0 <= i < index ==> #[trigger] gap_kept(old@, new@, edits@, i),
        decreases edits.len() - index,
    {
        let edit = &edits[index];
        if edit.old.start > edit.old.end || edit.new.start > edit.new.end {
            return false;
        }
        if old_start > edit.old.start || edit.old.start > old_bytes.len() || new_start
            > edit.new.start || edit.new.start > new_bytes.len() || (index > 0 && old_start
            == edit.old.start) || !same_bytes(
            old_bytes,
            old_start,
            edit.old.start,
            new_bytes,
            new_start,
            edit.new.start,
        ) {
            assert(!gap_kept(old@, new@, edits@, index as int));
            return false;
        }
        old_start = edit.old.end;
        new_start = edit.new.end;
        index = index + 1;
    }
    if old_start > old_bytes.len() || new_start > new_bytes.len() || !same_bytes(
        old_bytes,
        old_start,
        old_bytes.len(),
        new_bytes,
        new_start,
        new_bytes.len(),
    ) {
        assert(!gap_kept(old@, new@, edits@, index as int));
        return false;
    }
    assert forall|i: int| 0 <= i <= edits@.len() implies #[trigger] gap_kept(
        old@,
        new@,
        edits@,
        i,
    ) by {}
    true
}

} // verus!
