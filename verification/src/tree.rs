//! A sequence of blame entries that is searched by row.

use crate::entry::{Dimension, GitBlameEntry, GitBlameEntrySummary};
use vstd::prelude::*;

verus! {

/// How many rows the first `count` entries hold.
pub open spec fn row_sum(entries: Seq<GitBlameEntry>, count: int) -> nat
    decreases count,
{
    if count <= 0 {
        0
    } else {
        row_sum(entries, count - 1) + entries[count - 1].rows as nat
    }
}

/// How many rows the entries hold.
pub open spec fn total_rows(entries: Seq<GitBlameEntry>) -> nat {
    row_sum(entries, entries.len() as int)
}

/// Whether `index` is the entry that holds `row`: the rows before the entry end at or before
/// `row`, and the entry's own rows end after it. Past the last row that is the entries' end.
/// An entry without rows holds no row.
pub open spec fn holds_row(entries: Seq<GitBlameEntry>, index: int, row: int) -> bool {
    &&& 0 <= index <= entries.len()
    &&& row_sum(entries, index) <= row
    &&& index < entries.len() ==> row < row_sum(entries, index + 1)
}

/// The entry that holds `row`, searched for from entry `from` on.
pub open spec fn entry_from(entries: Seq<GitBlameEntry>, from: int, row: int) -> int
    decreases entries.len() - from,
{
    if from < entries.len() && row_sum(entries, from + 1) <= row {
        entry_from(entries, from + 1, row)
    } else {
        from
    }
}

/// The entry that holds `row`.
pub open spec fn entry_at(entries: Seq<GitBlameEntry>, row: int) -> int {
    entry_from(entries, 0, row)
}

pub proof fn lemma_row_sum_monotone(entries: Seq<GitBlameEntry>, low: int, high: int)
    requires
        low <= high,
    ensures
        row_sum(entries, low) <= row_sum(entries, high),
    decreases high - low,
{
    if low < high {
        lemma_row_sum_monotone(entries, low, high - 1);
    }
}

/// The sum over a prefix depends on the prefix alone.
pub proof fn lemma_row_sum_prefix(left: Seq<GitBlameEntry>, right: Seq<GitBlameEntry>, count: int)
    requires
        count <= left.len(),
        count <= right.len(),
        forall|i: int| 0 <= i < count ==> left[i] == right[i],
    ensures
        row_sum(left, count) == row_sum(right, count),
    decreases count,
{
    if count > 0 {
        lemma_row_sum_prefix(left, right, count - 1);
    }
}

pub proof fn lemma_total_rows_push(entries: Seq<GitBlameEntry>, entry: GitBlameEntry)
    ensures
        total_rows(entries.push(entry)) == total_rows(entries) + entry.rows,
{
    lemma_row_sum_prefix(entries.push(entry), entries, entries.len() as int);
}

pub proof fn lemma_total_rows_concat(left: Seq<GitBlameEntry>, right: Seq<GitBlameEntry>)
    ensures
        total_rows(left + right) == total_rows(left) + total_rows(right),
    decreases right.len(),
{
    if right.len() == 0 {
        assert(left + right =~= left);
    } else {
        lemma_total_rows_concat(left, right.drop_last());
        assert(left + right =~= (left + right.drop_last()).push(right.last()));
        assert(right =~= right.drop_last().push(right.last()));
        lemma_total_rows_push(left + right.drop_last(), right.last());
        lemma_total_rows_push(right.drop_last(), right.last());
    }
}

pub proof fn lemma_total_rows_subrange(entries: Seq<GitBlameEntry>, low: int, high: int)
    requires
        0 <= low <= high <= entries.len(),
    ensures
        total_rows(entries.subrange(low, high)) == row_sum(entries, high) - row_sum(entries, low),
{
    let head = entries.subrange(0, low);
    let middle = entries.subrange(low, high);
    assert(entries.subrange(0, high) =~= head + middle);
    lemma_total_rows_concat(head, middle);
    lemma_row_sum_prefix(head, entries, low);
    lemma_row_sum_prefix(entries.subrange(0, high), entries, high);
}

/// At most one entry holds a row.
pub proof fn lemma_holds_row_unique(
    entries: Seq<GitBlameEntry>,
    first: int,
    second: int,
    row: int,
)
    requires
        holds_row(entries, first, row),
        holds_row(entries, second, row),
    ensures
        first == second,
{
    if first < second {
        lemma_row_sum_monotone(entries, first + 1, second);
    } else if second < first {
        lemma_row_sum_monotone(entries, second + 1, first);
    }
}

pub proof fn lemma_entry_from(entries: Seq<GitBlameEntry>, from: int, row: int)
    requires
        0 <= from <= entries.len(),
        row_sum(entries, from) <= row,
    ensures
        from <= entry_from(entries, from, row),
        holds_row(entries, entry_from(entries, from, row), row),
    decreases entries.len() - from,
{
    if from < entries.len() && row_sum(entries, from + 1) <= row {
        lemma_entry_from(entries, from + 1, row);
    }
}

/// `entry_at` is the entry that holds the row.
pub proof fn lemma_entry_at(entries: Seq<GitBlameEntry>, row: int)
    requires
        0 <= row,
    ensures
        holds_row(entries, entry_at(entries, row), row),
        forall|index: int| #[trigger]
            holds_row(entries, index, row) ==> index == entry_at(entries, row),
{
    lemma_entry_from(entries, 0, row);
    assert forall|index: int| #[trigger] holds_row(entries, index, row) implies index == entry_at(
        entries,
        row,
    ) by {
        lemma_holds_row_unique(entries, index, entry_at(entries, row), row);
    }
}

/// Blame entries in row order, with their sum.
#[derive(Debug)]
pub struct SumTree {
    items: Vec<GitBlameEntry>,
    sum: GitBlameEntrySummary,
}

impl View for SumTree {
    type V = Seq<GitBlameEntry>;

    closed spec fn view(&self) -> Seq<GitBlameEntry> {
        self.items@
    }
}

impl SumTree {
    /// The stored sum is that of the entries.
    pub closed spec fn wf(&self) -> bool {
        self.sum.row_count() == total_rows(self@)
    }

    pub proof fn lemma_wf(&self)
        requires
            self.wf(),
        ensures
            total_rows(self@) <= u32::MAX,
    {
    }

    /// A tree without entries.
    pub fn new() -> (tree: Self)
        ensures
            tree.wf(),
            tree@ == Seq::<GitBlameEntry>::empty(),
    {
        SumTree { items: Vec::new(), sum: GitBlameEntrySummary::zero() }
    }

    /// A tree of one entry.
    pub fn from_item(item: GitBlameEntry) -> (tree: Self)
        ensures
            tree.wf(),
            tree@ == seq![item],
    {
        let sum = item.summary();
        let mut items: Vec<GitBlameEntry> = Vec::new();
        items.push(item);
        proof {
            lemma_total_rows_push(Seq::empty(), item);
            assert(items@ =~= Seq::empty().push(item));
        }
        SumTree { items, sum }
    }

    /// The sum of the entries.
    pub fn summary(&self) -> (summary: GitBlameEntrySummary)
        requires
            self.wf(),
        ensures
            summary.row_count() == total_rows(self@),
    {
        self.sum
    }

    /// The entries, in row order.
    pub fn items(&self) -> (items: &Vec<GitBlameEntry>)
        ensures
            items@ == self@,
    {
        &self.items
    }

    /// Adds an entry after the last one.
    pub fn push(&mut self, item: GitBlameEntry)
        requires
            old(self).wf(),
            total_rows(old(self)@) + item.rows <= u32::MAX,
        ensures
            final(self).wf(),
            final(self)@ == old(self)@.push(item),
    {
        proof {
            lemma_total_rows_push(self@, item);
        }
        self.sum.add_summary(&item.summary());
        self.items.push(item);
    }

    /// Adds the entries of `other` after the last one.
    pub fn append(&mut self, other: SumTree)
        requires
            old(self).wf(),
            other.wf(),
            total_rows(old(self)@) + total_rows(other@) <= u32::MAX,
        ensures
            final(self).wf(),
            final(self)@ == old(self)@ + other@,
    {
        proof {
            lemma_total_rows_concat(self@, other@);
        }
        let mut items = other.items;
        self.sum.add_summary(&other.sum);
        self.items.append(&mut items);
    }

    /// Adds `items` after the last entry.
    pub fn extend(&mut self, items: Vec<GitBlameEntry>)
        requires
            old(self).wf(),
            total_rows(old(self)@ + items@) <= u32::MAX,
        ensures
            final(self).wf(),
            final(self)@ == old(self)@ + items@,
    {
        let mut items = items;
        let mut next: usize = 0;
        proof {
            lemma_total_rows_concat(self@, items@);
        }
        while next < items.len()
            invariant
                0 <= next <= items@.len(),
                self.items == old(self).items,
                self.sum.row_count() == total_rows(self@) + row_sum(items@, next as int),
                total_rows(self@) + total_rows(items@) <= u32::MAX,
            decreases items.len() - next,
        {
            proof {
                lemma_row_sum_monotone(items@, next + 1, items@.len() as int);
            }
            self.sum.add_summary(&items[next].summary());
            next = next + 1;
        }
        self.items.append(&mut items);
    }

    /// A cursor before the first entry.
    pub fn cursor(&self) -> (cursor: Cursor<'_>)
        requires
            self.wf(),
        ensures
            cursor.wf(),
            cursor.entries() == self@,
            cursor.index() == 0,
    {
        Cursor { tree: self, index: 0, position: u32::zero() }
    }
}

/// A place in a tree: at one of its entries, or at its end.
pub struct Cursor<'a> {
    tree: &'a SumTree,
    index: usize,
    position: u32,
}

impl<'a> Cursor<'a> {
    /// The entries of the tree that the cursor moves over.
    pub closed spec fn entries(&self) -> Seq<GitBlameEntry> {
        self.tree@
    }

    /// The entry that the cursor is at.
    pub closed spec fn index(&self) -> int {
        self.index as int
    }

    /// The cursor is in the tree, and its position is the number of rows before it.
    pub closed spec fn wf(&self) -> bool {
        &&& self.tree.wf()
        &&& self.index <= self.tree@.len()
        &&& self.position == row_sum(self.tree@, self.index as int)
    }

    pub proof fn lemma_wf(&self)
        requires
            self.wf(),
        ensures
            0 <= self.index() <= self.entries().len(),
            total_rows(self.entries()) <= u32::MAX,
    {
    }

    /// The entry that the cursor is at; `None` at the end.
    pub fn item(&self) -> (item: Option<&'a GitBlameEntry>)
        requires
            self.wf(),
        ensures
            self.index() < self.entries().len() ==> item == Some(
                &self.entries()[self.index()],
            ),
            self.index() == self.entries().len() ==> item is None,
            self.index() <= self.entries().len(),
    {
        if self.index < self.tree.items.len() {
            Some(&self.tree.items[self.index])
        } else {
            None
        }
    }

    /// The row at which the cursor's entry starts.
    pub fn start(&self) -> (row: u32)
        requires
            self.wf(),
        ensures
            row == row_sum(self.entries(), self.index()),
    {
        self.position
    }

    /// The row at which the cursor's entry ends; at the tree's end, the tree's number of rows.
    pub fn end(&self) -> (row: u32)
        requires
            self.wf(),
        ensures
            self.index() < self.entries().len() ==> row == row_sum(
                self.entries(),
                self.index() + 1,
            ),
            self.index() == self.entries().len() ==> row == total_rows(self.entries()),
    {
        let mut end = self.position;
        if self.index < self.tree.items.len() {
            proof {
                lemma_row_sum_monotone(self.tree@, self.index + 1, self.tree@.len() as int);
            }
            end.add_summary(&self.tree.items[self.index].summary());
        }
        end
    }

    /// Moves to the next entry. At the end the cursor stays.
    pub fn next(&mut self)
        requires
            old(self).wf(),
        ensures
            final(self).wf(),
            final(self).entries() == old(self).entries(),
            old(self).index() < old(self).entries().len() ==> final(self).index()
                == old(self).index() + 1,
            old(self).index() == old(self).entries().len() ==> final(self).index()
                == old(self).index(),
    {
        if self.index < self.tree.items.len() {
            let end = self.end();
            self.position = end;
            self.index = self.index + 1;
        }
    }

    /// Moves forward to the entry that holds `row`.
    pub fn seek_forward(&mut self, row: u32)
        requires
            old(self).wf(),
            row_sum(old(self).entries(), old(self).index()) <= row,
        ensures
            final(self).wf(),
            final(self).entries() == old(self).entries(),
            final(self).index() >= old(self).index(),
            holds_row(final(self).entries(), final(self).index(), row as int),
    {
        while self.index < self.tree.items.len() && self.end() <= row
            invariant
                self.wf(),
                self.entries() == old(self).entries(),
                self.index >= old(self).index,
                row_sum(self.tree@, self.index as int) <= row,
            decreases self.tree.items.len() - self.index,
        {
            self.next();
        }
    }

    /// Moves to the entry that holds `row`, from wherever the cursor is.
    pub fn seek(&mut self, row: u32)
        requires
            old(self).wf(),
        ensures
            final(self).wf(),
            final(self).entries() == old(self).entries(),
            holds_row(final(self).entries(), final(self).index(), row as int),
    {
        if row < self.position {
            self.position = u32::zero();
            self.index = 0;
        }
        self.seek_forward(row);
    }

    fn collect(&self, end: usize) -> (tree: SumTree)
        requires
            self.wf(),
            self.index <= end <= self.tree@.len(),
        ensures
            tree.wf(),
            tree@ == self.tree@.subrange(self.index as int, end as int),
    {
        let mut tree = SumTree::new();
        let mut next = self.index;
        while next < end
            invariant
                self.wf(),
                tree.wf(),
                self.index <= next <= end <= self.tree@.len(),
                tree@ == self.tree@.subrange(self.index as int, next as int),
            decreases end - next,
        {
            proof {
                lemma_total_rows_subrange(self.tree@, self.index as int, next as int);
                lemma_row_sum_monotone(self.tree@, next + 1, self.tree@.len() as int);
                assert(self.tree@.subrange(self.index as int, next as int).push(
                    self.tree@[next as int],
                ) =~= self.tree@.subrange(self.index as int, next + 1));
            }
            tree.push(self.tree.items[next].clone());
            next = next + 1;
        }
        tree
    }

    /// Moves forward to the entry that holds `row`, and returns the entries passed on the way.
    pub fn slice(&mut self, row: u32) -> (passed: SumTree)
        requires
            old(self).wf(),
            row_sum(old(self).entries(), old(self).index()) <= row,
        ensures
            final(self).wf(),
            final(self).entries() == old(self).entries(),
            final(self).index() >= old(self).index(),
            holds_row(final(self).entries(), final(self).index(), row as int),
            passed.wf(),
            passed@ == old(self).entries().subrange(old(self).index(), final(self).index()),
    {
        let start = Cursor { tree: self.tree, index: self.index, position: self.position };
        self.seek_forward(row);
        start.collect(self.index)
    }

    /// Moves to the end, and returns the entries passed on the way.
    pub fn suffix(&mut self) -> (passed: SumTree)
        requires
            old(self).wf(),
        ensures
            final(self).wf(),
            final(self).entries() == old(self).entries(),
            final(self).index() == old(self).entries().len(),
            passed.wf(),
            passed@ == old(self).entries().subrange(
                old(self).index(),
                old(self).entries().len() as int,
            ),
    {
        let passed = self.collect(self.tree.items.len());
        self.index = self.tree.items.len();
        self.position = self.tree.summary().rows();
        passed
    }
}

} // verus!
