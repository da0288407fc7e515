//! A short run of entries that needs no allocation.

use crate::entry::GitBlameEntry;
use smallvec::SmallVec;
use vstd::prelude::*;

verus! {

/// A `smallvec::SmallVec` with room for two entries in place. What it holds is `small_items`.
#[verifier::external_body]
pub struct SmallEntries {
    items: SmallVec<[GitBlameEntry; 2]>,
}

/// The entries held, in order.
pub uninterp spec fn small_items(entries: SmallEntries) -> Seq<GitBlameEntry>;

/// Calls `SmallVec::new`: there are no entries.
#[verifier::external_body]
pub(crate) fn small_new() -> (entries: SmallEntries)
    ensures
        small_items(entries) == Seq::<GitBlameEntry>::empty(),
{
    SmallEntries { items: SmallVec::new() }
}

/// Calls `SmallVec::push`: the entry comes behind the others. With no more than two entries the
/// vector never grows, so its capacity cannot overflow.
#[verifier::external_body]
pub(crate) fn small_push(entries: &mut SmallEntries, entry: GitBlameEntry)
    requires
        small_items(*old(entries)).len() < 2,
    ensures
        small_items(*final(entries)) == small_items(*old(entries)).push(entry),
{
    entries.items.push(entry)
}

/// Calls `SmallVec::into_vec`: the same entries in the same order.
#[verifier::external_body]
pub(crate) fn small_into_vec(entries: SmallEntries) -> (vec: Vec<GitBlameEntry>)
    ensures
        vec@ == small_items(entries),
{
    entries.items.into_vec()
}

} // verus!
