//! What the parts of the library's statements mean, each told by what it is made of.

use crate::blame::{
    buffer_event_asks, displayed_blame, git_store_event_asks, longest_author, project_event_asks,
    Action, BlameState, BufferEvent, GitStoreEvent, ProjectEntryId, ProjectEvent, RowInfo,
};
use crate::build_tree::{blamed_range, blamed_ranges, built, row_behind};
use crate::commits::{
    all_details_of, last_message, permalink_of, pull_request_of, GitRemote, ParsedCommitMessage,
    ParsedGitRemote, ProviderId, PullRequest,
};
use crate::edits::{is_patch, Edit};
use crate::entry::{hex_digit, hex_text, BlameEntry, GitBlameEntry, Oid};
use crate::laws::{
    law_longest_author, lemma_hex_text_len, lemma_last_message, lemma_touched_countable,
};
use crate::message::{is_white_space, trimmed, without_leading_space, without_trailing_space};
use crate::row_edits::{lemma_touched_rows, touched_rows};
use crate::rows::{lemma_row_in_entry, piece, row_blame};
use crate::splice::lemma_spliced_total;
use crate::text::{
    lemma_newlines_monotone, lemma_row_end, lemma_row_start, newlines_before, row_count, row_end,
    row_start, BufferId,
};
use crate::tree::{entry_at, holds_row, lemma_entry_at, row_sum, total_rows};
use vstd::arithmetic::div_mod::lemma_div_denominator;
use vstd::arithmetic::power::{lemma_pow_positive, pow};
use vstd::prelude::*;
use vstd::utf8::encode_utf8;

verus! {

/// Rows are counted entry by entry.
pub proof fn law_row_sum(entries: Seq<GitBlameEntry>, index: int)
    requires
        0 <= index < entries.len(),
    ensures
        row_sum(entries, 0) == 0,
        row_sum(entries, index + 1) == row_sum(entries, index) + entries[index].rows,
        total_rows(entries) == row_sum(entries, entries.len() as int),
{
}

/// Each newline starts a row, and nothing else does.
pub proof fn law_newlines(text: Seq<u8>, offset: int)
    requires
        0 <= offset < text.len(),
    ensures
        newlines_before(text, 0) == 0,
        newlines_before(text, offset + 1) == newlines_before(text, offset) + if text[offset]
            == 10u8 {
            1int
        } else {
            0
        },
        row_count(text) == newlines_before(text, text.len() as int) + 1,
{
}

/// A row reaches from behind a newline, or from the start of the text, to the next newline, or to
/// the end of the text.
pub proof fn law_row_bounds(text: Seq<u8>, offset: int)
    requires
        0 <= offset <= text.len(),
    ensures
        0 <= row_start(text, offset) <= offset <= row_end(text, offset) <= text.len(),
        row_start(text, offset) == 0 || text[row_start(text, offset) - 1] == 10u8,
        row_end(text, offset) == text.len() || text[row_end(text, offset)] == 10u8,
        forall|i: int|
            row_start(text, offset) <= i < row_end(text, offset) ==> #[trigger] text[i] != 10u8,
{
    let start = row_start(text, offset);
    let end = row_end(text, offset);
    lemma_row_start(text, offset);
    lemma_row_end(text, offset);
    assert forall|i: int| start <= i < end implies #[trigger] text[i] != 10u8 by {
        lemma_newlines_monotone(text, start, i);
        lemma_newlines_monotone(text, i + 1, end);
    }
}

/// A row has the blame of the entry among whose rows it is. Past the last entry it has none.
pub proof fn law_row_blame(entries: Seq<GitBlameEntry>, row: int)
    requires
        0 <= row,
    ensures
        forall|k: int|
            0 <= k < entries.len() && row_sum(entries, k) <= row < row_sum(entries, k + 1)
                ==> row_blame(entries, row) == (#[trigger] entries[k]).blame && holds_row(
                entries,
                k,
                row,
            ),
        row_sum(entries, entries.len() as int) <= row ==> row_blame(entries, row) is None
            && holds_row(entries, entries.len() as int, row),
        row < row_sum(entries, entries.len() as int) ==> exists|k: int|
            0 <= k < entries.len() && row_sum(entries, k) <= row < row_sum(entries, k + 1)
                && row_blame(entries, row) == (#[trigger] entries[k]).blame,
{
    assert forall|k: int|
        0 <= k < entries.len() && row_sum(entries, k) <= row < row_sum(
            entries,
            k + 1,
        ) implies row_blame(entries, row) == (#[trigger] entries[k]).blame && holds_row(
        entries,
        k,
        row,
    ) by {
        assert(holds_row(entries, k, row));
        lemma_row_in_entry(entries, k, row);
    }
    let index = entry_at(entries, row);
    lemma_entry_at(entries, row);
    lemma_row_in_entry(entries, index, row);
    if row_sum(entries, entries.len() as int) <= row {
        assert(holds_row(entries, entries.len() as int, row));
    } else {
        assert(row_blame(entries, row) == entries[index].blame);
    }
}

/// The entry that holds a row is the one among whose rows it is, or the entries' end.
pub proof fn law_holds_row(entries: Seq<GitBlameEntry>, index: int, row: int)
    ensures
        holds_row(entries, index, row) <==> {
            ||| 0 <= index < entries.len() && row_sum(entries, index) <= row < row_sum(
                entries,
                index + 1,
            )
            ||| index == entries.len() && row_sum(entries, index) <= row
        },
{
}

/// A displayed row of the blamed buffer has the blame, all of it, of the entry among whose rows it
/// is. Every other displayed row has none.
pub proof fn law_displayed_row(state: BlameState, info: RowInfo, index: int)
    ensures
        info.buffer_id == Some(state.buffer) && 0 <= index < state.entries.len() && (
        info.buffer_row matches Some(row) && row_sum(state.entries, index) <= row < row_sum(
            state.entries,
            index + 1,
        )) ==> displayed_blame(state, info) == state.entries[index].blame,
        info.buffer_id != Some(state.buffer) ==> displayed_blame(state, info) is None,
        info.buffer_row is None ==> displayed_blame(state, info) is None,
        (info.buffer_row matches Some(row) && row_sum(state.entries, state.entries.len() as int)
            <= row) ==> displayed_blame(state, info) is None,
{
    if let Some(row) = info.buffer_row {
        law_row_blame(state.entries, row as int);
    }
}

/// Blame is in step with a text if its entries hold as many rows as the text has.
pub proof fn law_in_step(state: BlameState)
    ensures
        state.in_step() <==> row_sum(state.entries, state.entries.len() as int) == newlines_before(
            state.text,
            state.text.len() as int,
        ) + 1,
{
}

/// Blame can be brought in step with a buffer exactly if the edits lead to the buffer's text and
/// the rows that are left can be counted.
pub proof fn law_can_sync(
    state: BlameState,
    edits: Seq<Edit<usize>>,
    text: Seq<u8>,
    buffer: BufferId,
)
    requires
        row_count(state.text) <= u32::MAX,
        row_count(text) <= u32::MAX,
    ensures
        state.can_sync(edits, text) <==> is_patch(state.text, text, edits) && total_rows(
            state.synced(edits, text, buffer).entries,
        ) <= u32::MAX,
{
    if is_patch(state.text, text, edits) {
        lemma_touched_rows(state.text, text, edits);
        lemma_touched_countable(state.text, text, edits);
        lemma_spliced_total(state.entries, touched_rows(state.text, text, edits));
    }
}

/// Reading the buffer changes the rows and the text, and nothing else.
pub proof fn law_sync_leaves_the_rest(
    state: BlameState,
    edits: Seq<Edit<usize>>,
    text: Seq<u8>,
    buffer: BufferId,
)
    ensures
        state.synced(edits, text, buffer).text == text,
        state.synced(edits, text, buffer).buffer == buffer,
        state.synced(edits, text, buffer).details == state.details,
        state.synced(edits, text, buffer).focused == state.focused,
        state.synced(edits, text, buffer).generated == state.generated,
        state.synced(edits, text, buffer).changed_while_blurred == state.changed_while_blurred,
        state.synced(edits, text, buffer).user_triggered == state.user_triggered,
{
}

/// Looked at, blame that there is reason to generate is generated, and the state stays as it is.
/// Else nothing is done, and all that changes is that the reason is remembered.
pub proof fn law_asking(state: BlameState)
    ensures
        state.focused ==> state.asked_action() == Action::Generate && state.asked() == state,
        !state.focused ==> state.asked_action() == Action::Wait && state.asked() == (BlameState {
            changed_while_blurred: true,
            ..state
        }),
{
}

/// Blame that comes to be looked at is generated exactly if a reason to was remembered, and the
/// reason is forgotten. Blame that is looked at already stays as it is.
pub proof fn law_focusing(state: BlameState)
    ensures
        state.focused ==> state.focused_on_action() == Action::Wait && state.focused_on() == state,
        !state.focused && state.changed_while_blurred ==> state.focused_on_action()
            == Action::Generate,
        !state.focused && !state.changed_while_blurred ==> state.focused_on_action()
            == Action::Wait,
        !state.focused ==> state.focused_on() == (BlameState {
            focused: true,
            changed_while_blurred: false,
            ..state
        }),
{
}

/// An update of files is reason to generate blame exactly if the buffer's file is one of them,
/// whichever it is.
pub proof fn law_updated_files(buffer_entry: Option<ProjectEntryId>, updated: Vec<ProjectEntryId>)
    ensures
        project_event_asks(ProjectEvent::WorktreeUpdatedEntries { buffer_entry, updated })
            <==> exists|i: int|
            0 <= i < updated@.len() && buffer_entry == Some(#[trigger] updated@[i]),
        !project_event_asks(ProjectEvent::Other),
{
    if let Some(entry) = buffer_entry {
        if updated@.contains(entry) {
            let i = choose|i: int| 0 <= i < updated@.len() && updated@[i] == entry;
            assert(buffer_entry == Some(updated@[i]));
        }
    }
}

/// Of the buffer's events, only that it came to be the same as its file is reason to generate blame
/// at once.
pub proof fn law_saved_buffer(is_dirty: bool)
    ensures
        buffer_event_asks(BufferEvent::DirtyChanged { is_dirty }) <==> !is_dirty,
        !buffer_event_asks(BufferEvent::Edited),
        !buffer_event_asks(BufferEvent::Other),
{
}

/// A repository that came, went or has a new status is reason to generate blame.
pub proof fn law_changed_repositories(updated: bool)
    ensures
        git_store_event_asks(GitStoreEvent::RepositoryUpdated { updated }) <==> updated,
        git_store_event_asks(GitStoreEvent::RepositoryAdded),
        git_store_event_asks(GitStoreEvent::RepositoryRemoved),
        !git_store_event_asks(GitStoreEvent::Other),
{
}

/// No author's name takes more bytes than the longest, and some author's name takes as many, unless
/// there is none.
pub proof fn law_longest_author_in_bytes(entries: Seq<GitBlameEntry>)
    ensures
        forall|i: int|
            0 <= i < entries.len() && (#[trigger] entries[i]).blame is Some
                && entries[i].blame->0.author is Some ==> encode_utf8(
                entries[i].blame->0.author->0@,
            ).len() as usize <= longest_author(entries),
        longest_author(entries) == 0 || exists|i: int|
            0 <= i < entries.len() && (#[trigger] entries[i]).blame is Some
                && entries[i].blame->0.author is Some && encode_utf8(
                entries[i].blame->0.author->0@,
            ).len() as usize == longest_author(entries),
{
    law_longest_author(entries);
}

/// A file without blamed ranges has all its rows in one entry without blame.
pub proof fn law_built_of_nothing(max_row: int)
    ensures
        max_row >= 0 ==> built(Seq::empty(), max_row) == seq![
            GitBlameEntry { rows: (max_row + 1) as u32, blame: None },
        ],
        max_row < 0 ==> built(Seq::empty(), max_row) == Seq::<GitBlameEntry>::empty(),
{
    assert(blamed_ranges(Seq::empty()) =~= Seq::empty());
}

/// One more blamed range comes behind the entries of the ranges before it, whatever its rows: first
/// the rows skipped since the range before it ended, without blame, then its own rows with its
/// blame, then the rows up to the last one, without blame.
pub proof fn law_built_of_one_more(entries: Seq<BlameEntry>, entry: BlameEntry, max_row: int)
    ensures
        ({
            let behind = if entries.len() == 0 {
                0
            } else {
                entries.last().range.end as int
            };
            let skipped = if entry.range.start > behind {
                seq![GitBlameEntry { rows: (entry.range.start - behind) as u32, blame: None }]
            } else {
                Seq::empty()
            };
            let own = GitBlameEntry {
                rows: if entry.range.start < entry.range.end {
                    (entry.range.end - entry.range.start) as u32
                } else {
                    0
                },
                blame: Some(entry),
            };
            let left = if max_row >= entry.range.end {
                seq![GitBlameEntry { rows: (max_row + 1 - entry.range.end) as u32, blame: None }]
            } else {
                Seq::empty()
            };
            built(entries.push(entry), max_row) == built(entries, behind - 1) + skipped.push(own)
                + left
        }),
{
    let all = entries.push(entry);
    let behind = row_behind(entries);
    assert(all.drop_last() =~= entries);
    assert(all.last() == entry);
    assert(built(entries, behind - 1) =~= blamed_ranges(entries));
    assert(built(all, max_row) =~= blamed_ranges(entries) + blamed_range(entry, behind) + piece(
        None,
        max_row + 1 - entry.range.end,
    ));
}

/// A range holds as many rows as lie between its ends; none if it ends before it starts.
pub proof fn law_range_len(entry: BlameEntry)
    ensures
        entry.range.start <= entry.range.end ==> entry.range.start + entry.range_len()
            == entry.range.end,
        entry.range.start > entry.range.end ==> entry.range_len() == 0,
{
}

/// The last message of each commit is kept, whatever it is. With a remote, the provider was asked
/// for a permalink to the commit, by its hexadecimal id, and for the pull request of the message,
/// and what it returned is kept; so is the remote. Without one, there is nothing but the message.
pub proof fn law_details_of_last_message<L, P>(
    details: Map<Oid, ParsedCommitMessage>,
    messages: Seq<(Oid, String)>,
    remote: Option<(ProviderId, ParsedGitRemote)>,
    build_commit_permalink: L,
    extract_pull_request: P,
    index: int,
) where
    L: Fn(ProviderId, &ParsedGitRemote, &str) -> String,
    P: Fn(ProviderId, &ParsedGitRemote, &str) -> Option<PullRequest>,

    requires
        all_details_of(
            details,
            messages,
            messages.len() as int,
            remote,
            build_commit_permalink,
            extract_pull_request,
        ),
        0 <= index < messages.len(),
        forall|later: int|
            index < later < messages.len() ==> (#[trigger] messages[later]).0 != messages[index].0,
    ensures
        details.contains_key(messages[index].0),
        details[messages[index].0].message@ == messages[index].1@,
        match remote {
            Some((provider, remote)) => {
                &&& details[messages[index].0].remote == Some(
                    GitRemote { host: provider, owner: remote.owner, repo: remote.repo },
                )
                &&& match details[messages[index].0].permalink {
                    Some(permalink) => exists|sha: &str| #[trigger]
                        build_commit_permalink.ensures((provider, &remote, sha), permalink)
                            && sha@ == messages[index].0.text(),
                    None => false,
                }
                &&& exists|text: &str| #[trigger]
                    extract_pull_request.ensures(
                        (provider, &remote, text),
                        details[messages[index].0].pull_request,
                    ) && text@ == messages[index].1@
            },
            None => {
                &&& details[messages[index].0].remote is None
                &&& details[messages[index].0].permalink is None
                &&& details[messages[index].0].pull_request is None
            },
        },
{
    let oid = messages[index].0;
    let found = details[oid];
    lemma_last_message(messages, oid, messages.len() as int);
    assert(last_message(messages, oid, messages.len() as int) == index);
    assert(details.contains_key(oid));
    if let Some((provider, remote)) = remote {
        let permalink = found.permalink->0;
        assert(permalink_of(permalink, oid, provider, remote, build_commit_permalink));
        assert(pull_request_of(
            found.pull_request,
            messages[index].1,
            provider,
            remote,
            extract_pull_request,
        ));
    }
}

/// Nothing is known of a commit that has no message.
pub proof fn law_no_details_without_message<L, P>(
    details: Map<Oid, ParsedCommitMessage>,
    messages: Seq<(Oid, String)>,
    remote: Option<(ProviderId, ParsedGitRemote)>,
    build_commit_permalink: L,
    extract_pull_request: P,
    oid: Oid,
) where
    L: Fn(ProviderId, &ParsedGitRemote, &str) -> String,
    P: Fn(ProviderId, &ParsedGitRemote, &str) -> Option<PullRequest>,

    requires
        all_details_of(
            details,
            messages,
            messages.len() as int,
            remote,
            build_commit_permalink,
            extract_pull_request,
        ),
        forall|i: int| 0 <= i < messages.len() ==> (#[trigger] messages[i]).0 != oid,
    ensures
        !details.contains_key(oid),
{
    lemma_last_message(messages, oid, messages.len() as int);
    let last = last_message(messages, oid, messages.len() as int);
    if last >= 0 {
        assert(messages[last].0 == oid);
    }
}

proof fn lemma_hex_text_digit(value: nat, digits: nat, index: int)
    requires
        0 <= index < digits,
    ensures
        hex_text(value, digits).len() == digits,
        hex_text(value, digits)[index] == hex_digit(
            ((value as int / pow(16, (digits - 1 - index) as nat)) % 16) as nat,
        ),
    decreases digits,
{
    let rest = (digits - 1) as nat;
    lemma_hex_text_len(value, digits);
    lemma_hex_text_len(value / 16, rest);
    reveal(pow);
    if index < rest {
        let power = (rest - 1 - index) as nat;
        lemma_hex_text_digit(value / 16, rest, index);
        lemma_pow_positive(16, power);
        lemma_div_denominator(value as int, 16, pow(16, power));
        assert(pow(16, (power + 1) as nat) == 16 * pow(16, power));
        assert((value / 16) as int == value as int / 16);
    } else {
        assert(pow(16, 0) == 1);
    }
}

proof fn lemma_hex_digit(value: int)
    requires
        0 <= value < 16,
    ensures
        hex_digit(value as nat) == "0123456789abcdef"@[value],
{
    reveal_strlit("0123456789abcdef");
}

/// Each digit of a commit's id stands for four of its bits, the first for the most significant.
pub proof fn law_commit_digits(oid: Oid, index: int)
    requires
        0 <= index < 40,
    ensures
        oid.text().len() == 40,
        index < 32 ==> oid.text()[index] == "0123456789abcdef"@[(oid.high as int / pow(
            16,
            (31 - index) as nat,
        )) % 16],
        index >= 32 ==> oid.text()[index] == "0123456789abcdef"@[(oid.low as int / pow(
            16,
            (39 - index) as nat,
        )) % 16],
{
    lemma_hex_text_len(oid.high as nat, 32);
    lemma_hex_text_len(oid.low as nat, 8);
    if index < 32 {
        lemma_hex_text_digit(oid.high as nat, 32, index);
        lemma_hex_digit((oid.high as int / pow(16, (31 - index) as nat)) % 16);
    } else {
        lemma_hex_text_digit(oid.low as nat, 8, index - 32);
        lemma_hex_digit((oid.low as int / pow(16, (39 - index) as nat)) % 16);
    }
}

/// The characters of the Unicode property `White_Space`, by their numbers.
pub open spec fn white_space_numbers() -> Seq<u32> {
    seq![
        9u32, 10, 11, 12, 13, 32, 133, 160, 5760, 8192, 8193, 8194, 8195, 8196, 8197, 8198, 8199,
        8200, 8201, 8202, 8232, 8233, 8239, 8287, 12288,
    ]
}

/// White space is what Unicode lists as such.
pub proof fn law_white_space(c: char)
    ensures
        is_white_space(c) <==> white_space_numbers().contains(c as u32),
{
    let numbers = white_space_numbers();
    let code = c as u32;
    if is_white_space(c) {
        let index: int = if code <= 13 {
            code - 9
        } else if code == 32 {
            5
        } else if code == 133 {
            6
        } else if code == 160 {
            7
        } else if code == 5760 {
            8
        } else if code <= 8202 {
            code - 8192 + 9
        } else if code == 8232 {
            20
        } else if code == 8233 {
            21
        } else if code == 8239 {
            22
        } else if code == 8287 {
            23
        } else {
            24
        };
        assert(numbers[index] == code);
    }
}

proof fn lemma_leading_space(text: Seq<char>) -> (count: int)
    ensures
        0 <= count <= text.len(),
        without_leading_space(text) == text.skip(count),
        forall|i: int| 0 <= i < count ==> is_white_space(#[trigger] text[i]),
        count < text.len() ==> !is_white_space(text[count]),
    decreases text.len(),
{
    if text.len() > 0 && is_white_space(text[0]) {
        let rest = text.skip(1);
        let count = lemma_leading_space(rest);
        assert(rest.skip(count) =~= text.skip(count + 1));
        assert forall|i: int| 0 <= i < count + 1 implies is_white_space(#[trigger] text[i]) by {
            if i > 0 {
                assert(rest[i - 1] == text[i]);
            }
        }
        count + 1
    } else {
        assert(text.skip(0) =~= text);
        0
    }
}

proof fn lemma_trailing_space(text: Seq<char>) -> (count: int)
    ensures
        0 <= count <= text.len(),
        without_trailing_space(text) == text.take(count),
        forall|i: int| count <= i < text.len() ==> is_white_space(#[trigger] text[i]),
        count > 0 ==> !is_white_space(text[count - 1]),
    decreases text.len(),
{
    if text.len() > 0 && is_white_space(text.last()) {
        let rest = text.drop_last();
        let count = lemma_trailing_space(rest);
        assert(rest.take(count) =~= text.take(count));
        assert forall|i: int| count <= i < text.len() implies is_white_space(
            #[trigger] text[i],
        ) by {
            if i < rest.len() {
                assert(rest[i] == text[i]);
            }
        }
        count
    } else {
        assert(text.take(text.len() as int) =~= text);
        text.len() as int
    }
}

/// An error message is shown from the first character that is no white space to the last one that
/// is none, with all that stands between.
pub proof fn law_trimmed(text: Seq<char>) -> (ends: (int, int))
    ensures
        0 <= ends.0 <= ends.1 <= text.len(),
        trimmed(text) == text.subrange(ends.0, ends.1),
        forall|i: int| 0 <= i < ends.0 ==> is_white_space(#[trigger] text[i]),
        forall|i: int| ends.1 <= i < text.len() ==> is_white_space(#[trigger] text[i]),
        ends.0 < ends.1 ==> !is_white_space(text[ends.0]) && !is_white_space(text[ends.1 - 1]),
{
    let start = lemma_leading_space(text);
    let rest = text.skip(start);
    let count = lemma_trailing_space(rest);
    assert(rest.take(count) =~= text.subrange(start, start + count));
    assert forall|i: int| start + count <= i < text.len() implies is_white_space(
        #[trigger] text[i],
    ) by {
        assert(rest[i - start] == text[i]);
    }
    if count > 0 {
        assert(rest[count - 1] == text[start + count - 1]);
    }
    (start, start + count)
}

} // verus!
