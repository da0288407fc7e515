//! Entries after row edits: touched rows lose their blame, all other rows keep it.

use crate::edits::Edit;
use crate::entry::{clone_blame, BlameEntry, GitBlameEntry};
use crate::row_edits::{
    aligned, aligned_at, apart, apart_at, countable, joined, lemma_merged, lemma_merged_countable,
    lemma_merged_first, merged, ordered, RowEdit,
};
use crate::rows::{
    blame_of, blame_rows, lemma_blame_rows_concat, lemma_blame_rows_piece,
    lemma_blame_rows_subrange, lemma_row_in_entry, lemma_rows_between_joined, lemma_rows_in_entry,
    lemma_total_piece, piece, repeated, rows_between,
};
use crate::tree::{
    entry_at, lemma_entry_at, lemma_row_sum_monotone, lemma_total_rows_concat,
    lemma_total_rows_push, lemma_total_rows_subrange, row_sum, total_rows, Cursor, SumTree,
};
use vstd::prelude::*;

verus! {

/// The blame of each row from `low` on, after row edits: the rows that an edit touched are
/// replaced by rows without blame.
pub open spec fn spliced_rows(
    rows: Seq<Option<BlameEntry>>,
    edits: Seq<RowEdit>,
    low: int,
) -> Seq<Option<BlameEntry>>
    decreases edits.len(),
{
    if edits.len() == 0 {
        rows_between(
            rows,
            low,
            if low < rows.len() {
                rows.len() as int
            } else {
                low
            },
        )
    } else {
        rows_between(rows, low, edits[0].old_start) + repeated(
            None,
            edits[0].new_end - edits[0].new_start,
        ) + spliced_rows(rows, edits.skip(1), edits[0].old_end)
    }
}

/// The entries of the rows before `high`, the last of them cut off there.
pub open spec fn kept_before(entries: Seq<GitBlameEntry>, high: int) -> Seq<GitBlameEntry> {
    let last = entry_at(entries, high);
    entries.subrange(0, last) + piece(blame_of(entries, last), high - row_sum(entries, last))
}

/// The entries of rows `low..high`, the first and the last of them cut off there.
pub open spec fn kept_between(
    entries: Seq<GitBlameEntry>,
    low: int,
    high: int,
) -> Seq<GitBlameEntry> {
    let first = entry_at(entries, low);
    let last = entry_at(entries, high);
    if first == last {
        piece(blame_of(entries, first), high - low)
    } else {
        piece(blame_of(entries, first), row_sum(entries, first + 1) - low) + entries.subrange(
            first + 1,
            last,
        ) + piece(blame_of(entries, last), high - row_sum(entries, last))
    }
}

/// The entries of the rows from `low` on, the first of them cut off there.
pub open spec fn kept_behind(entries: Seq<GitBlameEntry>, low: int) -> Seq<GitBlameEntry> {
    let first = entry_at(entries, low);
    if first < entries.len() {
        piece(blame_of(entries, first), row_sum(entries, first + 1) - low) + entries.skip(first + 1)
    } else {
        Seq::empty()
    }
}

/// The entries of the rows from `low` on, after row edits.
pub open spec fn spliced_behind(
    entries: Seq<GitBlameEntry>,
    edits: Seq<RowEdit>,
    low: int,
) -> Seq<GitBlameEntry>
    decreases edits.len(),
{
    if edits.len() == 0 {
        kept_behind(entries, low)
    } else {
        kept_between(entries, low, edits[0].old_start) + piece(
            None,
            edits[0].new_end - edits[0].new_start,
        ) + spliced_behind(entries, edits.skip(1), edits[0].old_end)
    }
}

/// The entries after row edits: each edit puts one entry without blame in the place of the rows
/// that it touched.
pub open spec fn spliced(entries: Seq<GitBlameEntry>, edits: Seq<RowEdit>) -> Seq<GitBlameEntry> {
    if edits.len() == 0 {
        entries
    } else {
        kept_before(entries, edits[0].old_start) + piece(
            None,
            edits[0].new_end - edits[0].new_start,
        ) + spliced_behind(entries, edits.skip(1), edits[0].old_end)
    }
}

proof fn lemma_kept_before_rows(entries: Seq<GitBlameEntry>, high: int)
    requires
        0 <= high <= u32::MAX,
    ensures
        blame_rows(kept_before(entries, high)) == rows_between(blame_rows(entries), 0, high),
{
    let rows = blame_rows(entries);
    let last = entry_at(entries, high);
    let start = row_sum(entries, last) as int;
    lemma_entry_at(entries, high);
    lemma_blame_rows_subrange(entries, 0, last);
    lemma_blame_rows_piece(blame_of(entries, last), high - start);
    lemma_rows_in_entry(entries, last, start, high);
    lemma_blame_rows_concat(
        entries.subrange(0, last),
        piece(blame_of(entries, last), high - start),
    );
    lemma_rows_between_joined(rows, 0, start, high);
}

proof fn lemma_kept_between_rows(entries: Seq<GitBlameEntry>, low: int, high: int)
    requires
        0 <= low <= high <= u32::MAX,
    ensures
        blame_rows(kept_between(entries, low, high)) == rows_between(
            blame_rows(entries),
            low,
            high,
        ),
{
    let rows = blame_rows(entries);
    let first = entry_at(entries, low);
    let last = entry_at(entries, high);
    lemma_entry_at(entries, low);
    lemma_entry_at(entries, high);
    if first == last {
        lemma_blame_rows_piece(blame_of(entries, first), high - low);
        lemma_rows_in_entry(entries, first, low, high);
    } else {
        if last < first {
            lemma_row_sum_monotone(entries, last + 1, first);
        }
        let end = row_sum(entries, first + 1) as int;
        let start = row_sum(entries, last) as int;
        let head = piece(blame_of(entries, first), end - low);
        let middle = entries.subrange(first + 1, last);
        let tail = piece(blame_of(entries, last), high - start);
        lemma_blame_rows_piece(blame_of(entries, first), end - low);
        lemma_rows_in_entry(entries, first, low, end);
        lemma_blame_rows_subrange(entries, first + 1, last);
        lemma_blame_rows_piece(blame_of(entries, last), high - start);
        lemma_rows_in_entry(entries, last, start, high);
        lemma_blame_rows_concat(head, middle);
        lemma_blame_rows_concat(head + middle, tail);
        lemma_rows_between_joined(rows, low, end, start);
        lemma_rows_between_joined(rows, low, start, high);
    }
}

proof fn lemma_kept_behind_rows(entries: Seq<GitBlameEntry>, low: int)
    requires
        0 <= low,
    ensures
        blame_rows(kept_behind(entries, low)) == spliced_rows(
            blame_rows(entries),
            Seq::empty(),
            low,
        ),
{
    let rows = blame_rows(entries);
    let first = entry_at(entries, low);
    lemma_entry_at(entries, low);
    lemma_row_in_entry(entries, first, low);
    if first < entries.len() {
        let end = row_sum(entries, first + 1) as int;
        let total = total_rows(entries) as int;
        lemma_blame_rows_piece(blame_of(entries, first), end - low);
        lemma_rows_in_entry(entries, first, low, end);
        lemma_blame_rows_subrange(entries, first + 1, entries.len() as int);
        lemma_blame_rows_concat(
            piece(blame_of(entries, first), end - low),
            entries.skip(first + 1),
        );
        lemma_rows_between_joined(rows, low, end, total);
    } else {
        assert(blame_rows(Seq::empty()) =~= rows_between(rows, low, low));
    }
}

proof fn lemma_spliced_behind_rows(
    entries: Seq<GitBlameEntry>,
    edits: Seq<RowEdit>,
    low: int,
)
    requires
        0 <= low,
        edits.len() > 0 ==> low <= edits[0].old_start,
        ordered(edits),
        apart(edits),
        countable(edits),
    ensures
        blame_rows(spliced_behind(entries, edits, low)) == spliced_rows(
            blame_rows(entries),
            edits,
            low,
        ),
    decreases edits.len(),
{
    if edits.len() == 0 {
        lemma_kept_behind_rows(entries, low);
        assert(edits =~= Seq::empty());
    } else {
        lemma_rest(edits);
        let kept = kept_between(entries, low, edits[0].old_start);
        let gone = piece(None, edits[0].new_end - edits[0].new_start);
        let rest = spliced_behind(entries, edits.skip(1), edits[0].old_end);
        lemma_kept_between_rows(entries, low, edits[0].old_start);
        lemma_blame_rows_piece(None, edits[0].new_end - edits[0].new_start);
        lemma_spliced_behind_rows(entries, edits.skip(1), edits[0].old_end);
        lemma_blame_rows_concat(kept, gone);
        lemma_blame_rows_concat(kept + gone, rest);
    }
}

/// What holds of row edits holds of those behind the first.
pub proof fn lemma_rest(edits: Seq<RowEdit>)
    requires
        edits.len() > 0,
        ordered(edits),
        apart(edits),
    ensures
        ordered(edits.skip(1)),
        apart(edits.skip(1)),
        countable(edits) ==> countable(edits.skip(1)),
        edits.len() > 1 ==> edits[0].old_end < edits.skip(1)[0].old_start,
        edits.len() > 1 ==> edits.skip(1).last() == edits.last(),
{
    let rest = edits.skip(1);
    assert forall|index: int| 0 <= index < rest.len() - 1 implies #[trigger] aligned_at(
        rest,
        index,
    ) by {
        assert(aligned_at(edits, index + 1));
    }
    assert forall|index: int| 0 <= index < rest.len() - 1 implies #[trigger] apart_at(
        rest,
        index,
    ) by {
        assert(apart_at(edits, index + 1));
    }
    if edits.len() > 1 {
        assert(apart_at(edits, 0));
    }
}

/// Row by row, splicing entries replaces the touched rows by rows without blame.
pub proof fn lemma_spliced_rows(entries: Seq<GitBlameEntry>, edits: Seq<RowEdit>)
    requires
        aligned(edits),
        apart(edits),
        countable(edits),
    ensures
        blame_rows(spliced(entries, edits)) == spliced_rows(blame_rows(entries), edits, 0),
{
    if edits.len() == 0 {
        assert(blame_rows(entries) =~= spliced_rows(blame_rows(entries), edits, 0));
    } else {
        lemma_rest(edits);
        let kept = kept_before(entries, edits[0].old_start);
        let gone = piece(None, edits[0].new_end - edits[0].new_start);
        let rest = spliced_behind(entries, edits.skip(1), edits[0].old_end);
        lemma_kept_before_rows(entries, edits[0].old_start);
        lemma_blame_rows_piece(None, edits[0].new_end - edits[0].new_start);
        lemma_spliced_behind_rows(entries, edits.skip(1), edits[0].old_end);
        lemma_blame_rows_concat(kept, gone);
        lemma_blame_rows_concat(kept + gone, rest);
    }
}

/// How many rows there are after row edits, where `rows` were there before.
pub open spec fn spliced_len(rows: int, edits: Seq<RowEdit>) -> int {
    if edits.len() == 0 {
        rows
    } else if rows < edits.last().old_end {
        edits.last().new_end
    } else {
        rows - edits.last().old_end + edits.last().new_end
    }
}

pub proof fn lemma_spliced_rows_len(
    rows: Seq<Option<BlameEntry>>,
    edits: Seq<RowEdit>,
    low: int,
)
    requires
        0 <= low,
        edits.len() > 0 ==> low <= edits[0].old_start,
        ordered(edits),
        apart(edits),
    ensures
        edits.len() > 0 ==> spliced_rows(rows, edits, low).len() + edits[0].new_start
            - edits[0].old_start + low == spliced_len(rows.len() as int, edits),
    decreases edits.len(),
{
    if edits.len() > 0 {
        lemma_rest(edits);
        lemma_spliced_rows_len(rows, edits.skip(1), edits[0].old_end);
        let rest = spliced_rows(rows, edits.skip(1), edits[0].old_end);
        if edits.len() > 1 {
            assert(aligned_at(edits, 0));
        } else {
            assert(edits.last() == edits[0]);
            assert(rest.len() == if edits[0].old_end < rows.len() {
                rows.len() - edits[0].old_end
            } else {
                0
            });
        }
    }
}

/// How many rows splicing leaves.
pub proof fn lemma_spliced_total(entries: Seq<GitBlameEntry>, edits: Seq<RowEdit>)
    requires
        aligned(edits),
        apart(edits),
        countable(edits),
    ensures
        total_rows(spliced(entries, edits)) == spliced_len(total_rows(entries) as int, edits),
{
    lemma_spliced_rows(entries, edits);
    lemma_spliced_rows_len(blame_rows(entries), edits, 0);
    assert(total_rows(spliced(entries, edits)) == blame_rows(spliced(entries, edits)).len());
}

/// The row up to which entry `index` is done, where the rows before `row` are.
spec fn done_in(entries: Seq<GitBlameEntry>, index: int, row: int) -> int {
    if row_sum(entries, index) < row {
        row
    } else {
        row_sum(entries, index) as int
    }
}

/// What a cursor at entry `index` has left to add, where the rows before `row` are done.
spec fn remaining(
    entries: Seq<GitBlameEntry>,
    index: int,
    row: int,
    edits: Seq<RowEdit>,
) -> Seq<GitBlameEntry> {
    if edits.len() == 0 {
        entries.skip(index)
    } else {
        let last = entry_at(entries, edits[0].old_start);
        entries.subrange(index, last) + piece(
            blame_of(entries, last),
            edits[0].old_start - done_in(entries, last, row),
        ) + piece(None, edits[0].new_end - edits[0].new_start) + spliced_behind(
            entries,
            edits.skip(1),
            edits[0].old_end,
        )
    }
}

/// What is left behind an edit that ended at row `low`: where the next edit starts in the same
/// entry, all of it is left to that edit; else the rest of the entry comes first.
proof fn lemma_remaining_behind(entries: Seq<GitBlameEntry>, edits: Seq<RowEdit>, low: int)
    requires
        0 <= low,
        edits.len() > 0 ==> low < edits[0].old_start,
    ensures
        ({
            let first = entry_at(entries, low);
            let end = row_sum(entries, first + 1) as int;
            if first < entries.len() && (edits.len() == 0 || edits[0].old_start >= end) {
                spliced_behind(entries, edits, low) == piece(blame_of(entries, first), end - low)
                    + remaining(entries, first + 1, end, edits)
            } else {
                spliced_behind(entries, edits, low) == remaining(entries, first, low, edits)
            }
        }),
{
    let first = entry_at(entries, low);
    lemma_entry_at(entries, low);
    let end = row_sum(entries, first + 1) as int;
    if edits.len() == 0 {
        if first == entries.len() {
            assert(entries.skip(first) =~= Seq::empty());
        }
    } else {
        let high = edits[0].old_start;
        let last = entry_at(entries, high);
        lemma_entry_at(entries, high);
        if last < first {
            lemma_row_sum_monotone(entries, last + 1, first);
        }
        if first < entries.len() && high >= end {
            assert(first != last);
            lemma_row_sum_monotone(entries, first + 1, last);
            let whole = piece(blame_of(entries, first), end - low);
            assert(spliced_behind(entries, edits, low) =~= whole + remaining(
                entries,
                first + 1,
                end,
                edits,
            ));
        } else {
            if first < last {
                lemma_row_sum_monotone(entries, first + 1, last);
            }
            assert(spliced_behind(entries, edits, low) =~= remaining(entries, first, low, edits));
        }
    }
}

/// The row edits that `edits` stand for.
pub open spec fn row_edit_views(edits: Seq<Edit<u32>>) -> Seq<RowEdit> {
    edits.map_values(|edit: Edit<u32>| edit@)
}

fn push_piece(tree: &mut SumTree, blame: Option<BlameEntry>, rows: u32)
    requires
        old(tree).wf(),
        total_rows(old(tree)@) + rows <= u32::MAX,
        rows > 0,
    ensures
        final(tree).wf(),
        final(tree)@ == old(tree)@ + piece(blame, rows as int),
        total_rows(final(tree)@) == total_rows(old(tree)@) + rows,
{
    let entry = GitBlameEntry { rows, blame };
    proof {
        lemma_total_rows_push(tree@, entry);
        assert(tree@.push(entry) =~= tree@ + piece(blame, rows as int));
    }
    tree.push(entry);
}

/// The row edit at `start`, joined with those behind it that it reaches, and the next one.
fn next_merged(edits: &Vec<Edit<u32>>, start: usize) -> (found: (Edit<u32>, usize))
    requires
        start < edits@.len(),
    ensures
        start < found.1 <= edits@.len(),
        merged(row_edit_views(edits@).skip(start as int)) == seq![found.0@] + merged(
            row_edit_views(edits@).skip(found.1 as int),
        ),
{
    let ghost views = row_edit_views(edits@);
    let mut edit = Edit {
        old: edits[start].old.start..edits[start].old.end,
        new: edits[start].new.start..edits[start].new.end,
    };
    assert(start < edits.len());
    let mut next: usize = start + 1;
    assert(views.skip(start as int) =~= seq![edit@] + views.skip(next as int));
    while next < edits.len() && edit.old.end >= edits[next].old.start
        invariant
            views == row_edit_views(edits@),
            start < next <= edits@.len(),
            merged(views.skip(start as int)) == merged(seq![edit@] + views.skip(next as int)),
        decreases edits.len() - next,
    {
        let ghost pending = seq![edit@] + views.skip(next as int);
        edit = Edit {
            old: edit.old.start..edits[next].old.end,
            new: edit.new.start..edits[next].new.end,
        };
        proof {
            assert(pending[0].old_end >= pending[1].old_start);
            assert(seq![joined(pending[0], pending[1])] + pending.skip(2) =~= seq![edit@]
                + views.skip(next + 1));
        }
        next = next + 1;
    }
    proof {
        let pending = seq![edit@] + views.skip(next as int);
        assert(pending.skip(1) =~= views.skip(next as int));
        if next == edits@.len() {
            assert(pending =~= seq![edit@]);
            assert(views.skip(next as int) =~= Seq::empty());
            assert(seq![edit@] + merged(Seq::empty()) =~= seq![edit@]);
        }
    }
    (edit, next)
}

/// Whether a cursor at entry `index`, with the rows before `row` done, can take up the edits.
spec fn ready(entries: Seq<GitBlameEntry>, index: int, row: int, edits: Seq<RowEdit>) -> bool {
    &&& 0 <= index <= entries.len()
    &&& row_sum(entries, index) <= row
    &&& edits.len() > 0 ==> row <= edits[0].old_start
    &&& row_sum(entries, index) < row && index < entries.len() ==> edits.len() > 0
        && edits[0].old_start < row_sum(entries, index + 1)
}

/// Adds to `new_entries` the rows from `row` to where `edit` starts.
fn add_kept(
    new_entries: &mut SumTree,
    cursor: &mut Cursor<'_>,
    edit: &Edit<u32>,
    Ghost(row): Ghost<int>,
)
    requires
        old(new_entries).wf(),
        old(cursor).wf(),
        ready(old(cursor).entries(), old(cursor).index(), row, seq![edit@]),
        total_rows(old(new_entries)@) == row + edit.new.start - edit.old.start,
    ensures
        final(new_entries).wf(),
        final(cursor).wf(),
        final(cursor).entries() == old(cursor).entries(),
        total_rows(final(new_entries)@) == edit.new.start,
        ({
            let entries = old(cursor).entries();
            let last = entry_at(entries, edit.old.start as int);
            final(new_entries)@ == old(new_entries)@ + (entries.subrange(old(cursor).index(), last)
                + piece(blame_of(entries, last), edit.old.start - done_in(entries, last, row)))
        }),
{
    let ghost entries = cursor.entries();
    let ghost index = cursor.index();
    let ghost before = new_entries@;
    let ghost last = entry_at(entries, edit.old.start as int);
    let passed = cursor.slice(edit.old.start);
    proof {
        lemma_entry_at(entries, edit.old.start as int);
        lemma_total_rows_concat(before, passed@);
        lemma_total_rows_subrange(entries, index, last);
        if index < last {
            lemma_row_sum_monotone(entries, index + 1, last);
        }
    }
    new_entries.append(passed);
    let rows = new_entries.summary().rows();
    if edit.new.start > rows {
        let blame = match cursor.item() {
            Some(entry) => clone_blame(&entry.blame),
            None => None,
        };
        push_piece(new_entries, blame, edit.new.start - rows);
    }
    assert(new_entries@ =~= before + (entries.subrange(index, last) + piece(
        blame_of(entries, last),
        edit.old.start - done_in(entries, last, row),
    )));
}

/// Moves the cursor to the entry in which `edit` ended, and adds to `new_entries` the rows that
/// the edit put there. The rest of the entry is added too, unless the next edit starts in it.
/// Returns the row before which all is done.
fn add_edited(
    new_entries: &mut SumTree,
    cursor: &mut Cursor<'_>,
    edit: &Edit<u32>,
    next_start: Option<u32>,
    Ghost(edits): Ghost<Seq<RowEdit>>,
) -> (done: Ghost<int>)
    requires
        old(new_entries).wf(),
        old(cursor).wf(),
        edit.new.start <= edit.new.end,
        next_start is Some <==> edits.len() > 0,
        next_start matches Some(start) ==> edit.old.end < start == edits[0].old_start,
        total_rows(old(new_entries)@) == edit.new.start,
        edit.new.end + total_rows(
            spliced_behind(old(cursor).entries(), edits, edit.old.end as int),
        ) <= u32::MAX,
    ensures
        final(new_entries).wf(),
        final(cursor).wf(),
        final(cursor).entries() == old(cursor).entries(),
        ready(final(cursor).entries(), final(cursor).index(), done@, edits),
        total_rows(final(new_entries)@) == done@ + edit.new.end - edit.old.end,
        final(new_entries)@ + remaining(
            final(cursor).entries(),
            final(cursor).index(),
            done@,
            edits,
        ) == old(new_entries)@ + (piece(None, edit.new.end - edit.new.start) + spliced_behind(
            old(cursor).entries(),
            edits,
            edit.old.end as int,
        )),
{
    let ghost entries = cursor.entries();
    let ghost before = new_entries@;
    let ghost gone = piece(None, edit.new.end - edit.new.start);
    let ghost rest = spliced_behind(entries, edits, edit.old.end as int);
    let ghost done = edit.old.end as int;
    proof {
        lemma_entry_at(entries, edit.old.end as int);
        lemma_remaining_behind(entries, edits, edit.old.end as int);
    }
    cursor.seek(edit.old.end);
    if edit.new.start < edit.new.end {
        push_piece(new_entries, None, edit.new.end - edit.new.start);
    }
    assert(new_entries@ =~= before + gone);
    let entry_end = cursor.end();
    let entry_done = match next_start {
        Some(start) => start >= entry_end,
        None => true,
    };
    if entry_done {
        if let Some(entry) = cursor.item() {
            if entry_end > edit.old.end {
                proof {
                    lemma_total_rows_concat(
                        piece(entry.blame, entry_end - edit.old.end),
                        remaining(entries, cursor.index() + 1, entry_end as int, edits),
                    );
                    lemma_total_piece(entry.blame, entry_end - edit.old.end);
                }
                push_piece(new_entries, clone_blame(&entry.blame), entry_end - edit.old.end);
            }
            cursor.next();
            proof {
                done = entry_end as int;
            }
        }
    }
    assert(new_entries@ + remaining(entries, cursor.index(), done, edits) =~= before + (gone
        + rest));
    Ghost(done)
}

/// The entries after row edits: rows that an edit touched have no blame, all others keep theirs.
pub fn splice_entries(entries: &SumTree, row_edits: &Vec<Edit<u32>>) -> (new_entries: SumTree)
    requires
        entries.wf(),
        aligned(row_edit_views(row_edits@)),
        spliced_len(total_rows(entries@) as int, row_edit_views(row_edits@)) <= u32::MAX,
    ensures
        new_entries.wf(),
        new_entries@ == spliced(entries@, merged(row_edit_views(row_edits@))),
{
    let ghost views = row_edit_views(row_edits@);
    let ghost whole = spliced(entries@, merged(views));
    let ghost mut row: int = 0;
    let mut new_entries = SumTree::new();
    let mut cursor = entries.cursor();
    let mut next: usize = 0;
    proof {
        lemma_merged(views);
        lemma_merged_countable(views);
        lemma_spliced_total(entries@, merged(views));
        assert(views.skip(0) =~= views);
        if merged(views).len() > 0 {
            lemma_entry_at(entries@, merged(views)[0].old_start);
        }
        assert(whole =~= new_entries@ + remaining(entries@, 0, 0, merged(views)));
    }
    while next < row_edits.len()
        invariant
            views == row_edit_views(row_edits@),
            0 <= next <= row_edits@.len(),
            new_entries.wf(),
            cursor.wf(),
            cursor.entries() == entries@,
            total_rows(whole) <= u32::MAX,
            ordered(merged(views.skip(next as int))),
            apart(merged(views.skip(next as int))),
            ready(entries@, cursor.index(), row, merged(views.skip(next as int))),
            merged(views.skip(next as int)).len() > 0 ==> total_rows(new_entries@) == row
                + merged(views.skip(next as int))[0].new_start - merged(
                views.skip(next as int),
            )[0].old_start,
            whole == new_entries@ + remaining(
                entries@,
                cursor.index(),
                row,
                merged(views.skip(next as int)),
            ),
        decreases row_edits.len() - next,
    {
        let ghost edits = merged(views.skip(next as int));
        let ghost before = new_entries@;
        let ghost index = cursor.index();
        let (edit, behind) = next_merged(row_edits, next);
        let ghost rest = merged(views.skip(behind as int));
        proof {
            assert(edits[0] == edit@);
            assert(edits.skip(1) =~= rest);
            lemma_rest(edits);
            if rest.len() > 0 {
                assert(aligned_at(edits, 0));
                assert(rest[0] == edits[1]);
            }
        }
        add_kept(&mut new_entries, &mut cursor, &edit, Ghost(row));
        let ghost kept = new_entries@;
        let ghost gone = piece(None, edit.new.end - edit.new.start);
        let ghost tail = spliced_behind(entries@, rest, edit.old.end as int);
        proof {
            assert(whole =~= kept + (gone + tail));
            lemma_total_rows_concat(kept, gone + tail);
            lemma_total_rows_concat(gone, tail);
            lemma_total_piece(None, edit.new.end - edit.new.start);
            if behind < row_edits@.len() {
                lemma_merged_first(views.skip(behind as int));
            }
        }
        let next_start = if behind < row_edits.len() {
            Some(row_edits[behind].old.start)
        } else {
            None
        };
        let done = add_edited(&mut new_entries, &mut cursor, &edit, next_start, Ghost(rest));
        proof {
            row = done@;
        }
        next = behind;
    }
    proof {
        assert(views.skip(next as int) =~= Seq::empty());
        cursor.lemma_wf();
        lemma_total_rows_concat(new_entries@, entries@.skip(cursor.index()));
    }
    new_entries.append(cursor.suffix());
    new_entries
}

} // verus!
