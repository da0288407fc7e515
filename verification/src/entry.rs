//! Blame entries, and the summaries by which they are counted.

use std::ops::Range;
use vstd::prelude::*;
use vstd::string::*;

verus! {

/// A commit's object id: the 160 bits of its hash, most significant bits first.
#[derive(Clone, Copy, Debug, Default, PartialEq, Eq, Hash, Structural)]
pub struct Oid {
    pub high: u128,
    pub low: u32,
}

/// The lower-case hexadecimal digit of a value below sixteen.
pub open spec fn hex_digit(value: nat) -> char {
    if value < 10 {
        (48 + value) as char
    } else {
        (87 + value) as char
    }
}

/// The last `digits` hexadecimal digits of `value`, most significant first.
pub open spec fn hex_text(value: nat, digits: nat) -> Seq<char>
    decreases digits,
{
    if digits == 0 {
        Seq::empty()
    } else {
        hex_text(value / 16, (digits - 1) as nat).push(hex_digit(value % 16))
    }
}

fn hex_digit_str(value: u128) -> (text: &'static str)
    requires
        value < 16,
    ensures
        text@ == seq![hex_digit(value as nat)],
{
    proof {
        reveal_strlit("0");
        reveal_strlit("1");
        reveal_strlit("2");
        reveal_strlit("3");
        reveal_strlit("4");
        reveal_strlit("5");
        reveal_strlit("6");
        reveal_strlit("7");
        reveal_strlit("8");
        reveal_strlit("9");
        reveal_strlit("a");
        reveal_strlit("b");
        reveal_strlit("c");
        reveal_strlit("d");
        reveal_strlit("e");
        reveal_strlit("f");
    }
    match value {
        0 => "0",
        1 => "1",
        2 => "2",
        3 => "3",
        4 => "4",
        5 => "5",
        6 => "6",
        7 => "7",
        8 => "8",
        9 => "9",
        10 => "a",
        11 => "b",
        12 => "c",
        13 => "d",
        14 => "e",
        _ => "f",
    }
}

fn hex_string(value: u128, digits: u32) -> (text: String)
    ensures
        text@ == hex_text(value as nat, digits as nat),
    decreases digits,
{
    if digits == 0 {
        String::new()
    } else {
        let mut text = hex_string(value / 16, digits - 1);
        text.append(hex_digit_str(value % 16));
        text
    }
}

impl Oid {
    /// The forty hexadecimal digits by which a commit is written.
    pub open spec fn text(self) -> Seq<char> {
        hex_text(self.high as nat, 32) + hex_text(self.low as nat, 8)
    }

    /// Writes the id as forty lower-case hexadecimal digits.
    pub fn to_string(&self) -> (text: String)
        ensures
            text@ == self.text(),
    {
        let mut text = hex_string(self.high, 32);
        let low = hex_string(self.low as u128, 8);
        text.append(low.as_str());
        text
    }
}

/// A run of buffer rows that one commit last touched.
#[derive(Debug, Default, PartialEq, Eq)]
pub struct BlameEntry {
    /// The commit.
    pub sha: Oid,
    /// The rows, counted from zero, in the file as it was when it was blamed.
    pub range: Range<u32>,
    /// The commit's author, where it is known.
    pub author: Option<String>,
}

impl Clone for BlameEntry {
    fn clone(&self) -> (copy: Self)
        ensures
            copy == *self,
    {
        BlameEntry {
            sha: self.sha,
            range: self.range.start..self.range.end,
            author: match &self.author {
                Some(author) => Some(author.clone()),
                None => None,
            },
        }
    }
}

impl BlameEntry {
    /// How many rows the entry's range holds: none where it ends before it starts.
    pub open spec fn range_len(self) -> nat {
        if self.range.start < self.range.end {
            (self.range.end - self.range.start) as nat
        } else {
            0
        }
    }

    /// How many bytes the author's name takes; zero where no author is known.
    pub open spec fn author_bytes(self) -> usize {
        match self.author {
            Some(author) => vstd::utf8::encode_utf8(author@).len() as usize,
            None => 0,
        }
    }

    /// The number of rows in the entry's range.
    pub fn len(&self) -> (rows: u32)
        ensures
            rows == self.range_len(),
            self.range.start <= self.range.end ==> self.range.start + rows == self.range.end,
            self.range.start > self.range.end ==> rows == 0,
    {
        if self.range.start < self.range.end {
            self.range.end - self.range.start
        } else {
            0
        }
    }
}

/// Copies the blame of a row.
pub fn clone_blame(blame: &Option<BlameEntry>) -> (copy: Option<BlameEntry>)
    ensures
        copy == *blame,
{
    match blame {
        Some(entry) => Some(entry.clone()),
        None => None,
    }
}

/// Consecutive rows of a buffer that share their blame. Rows without blame were edited since
/// the blame was generated, or are not committed.
#[derive(Debug, Default, PartialEq, Eq)]
pub struct GitBlameEntry {
    pub rows: u32,
    pub blame: Option<BlameEntry>,
}

impl Clone for GitBlameEntry {
    fn clone(&self) -> (copy: Self)
        ensures
            copy == *self,
    {
        GitBlameEntry { rows: self.rows, blame: clone_blame(&self.blame) }
    }
}

impl GitBlameEntry {
    /// What the entry adds to the sums over its tree.
    pub fn summary(&self) -> (summary: GitBlameEntrySummary)
        ensures
            summary.row_count() == self.rows,
    {
        GitBlameEntrySummary { rows: self.rows }
    }
}

/// The sum of some entries: how many rows they hold together.
#[derive(Clone, Copy, Debug, Default, PartialEq, Eq)]
pub struct GitBlameEntrySummary {
    rows: u32,
}

impl GitBlameEntrySummary {
    pub closed spec fn row_count(self) -> u32 {
        self.rows
    }

    /// The summary of no entries.
    pub fn zero() -> (summary: Self)
        ensures
            summary.row_count() == 0,
    {
        GitBlameEntrySummary { rows: 0 }
    }

    /// The number of rows summed up.
    pub fn rows(&self) -> (rows: u32)
        ensures
            rows == self.row_count(),
    {
        self.rows
    }

    /// Adds what `summary` counts.
    pub fn add_summary(&mut self, summary: &Self)
        requires
            old(self).row_count() + summary.row_count() <= u32::MAX,
        ensures
            final(self).row_count() == old(self).row_count() + summary.row_count(),
    {
        self.rows = self.rows + summary.rows;
    }
}

/// A position in a tree of entries, measured by what the entries before it add up to.
pub trait Dimension: Sized {
    /// The position as a number of rows.
    spec fn position(self) -> int;

    /// The greatest number of rows that the dimension can count.
    spec fn limit() -> int;

    /// The position before the first entry.
    fn zero() -> (start: Self)
        ensures
            start.position() == 0,
    ;

    /// Moves the position past the entries that `summary` sums up.
    fn add_summary(&mut self, summary: &GitBlameEntrySummary)
        requires
            old(self).position() + summary.row_count() <= Self::limit(),
        ensures
            final(self).position() == old(self).position() + summary.row_count(),
    ;
}

impl Dimension for u32 {
    open spec fn position(self) -> int {
        self as int
    }

    open spec fn limit() -> int {
        u32::MAX as int
    }

    fn zero() -> (start: Self) {
        0
    }

    fn add_summary(&mut self, summary: &GitBlameEntrySummary) {
        *self = *self + summary.rows();
    }
}

} // verus!
