//! The blame of a buffer: kept in step with its edits, and generated anew when it may be stale.

use crate::build_tree::{build_blame_entry_sum_tree, built};
use crate::commits::{
    all_details_of, parse_commit_messages, CommitDetails, ParsedCommitMessage, ParsedGitRemote,
    ProviderId, PullRequest,
};
use crate::edits::{check_patch, gap_kept, is_patch, Edit};
use crate::entry::{clone_blame, BlameEntry, GitBlameEntry, Oid};
use crate::message::{trim, trimmed};
use crate::row_edits::{find_row_edit, lemma_row_edits_aligned, row_edit, row_edits, touched_rows};
use crate::rows::{lemma_row_in_entry, row_blame};
use crate::splice::{row_edit_views, splice_entries, spliced};
use crate::text::{newlines_before, row_count, BufferId, BufferSnapshot};
use crate::tree::{lemma_total_rows_push, row_sum, total_rows, SumTree};
use vstd::prelude::*;
use vstd::utf8::encode_utf8;

verus! {

/// How many seconds a buffer has to stay unedited before its blame is generated again.
pub const REGENERATE_ON_EDIT_DEBOUNCE_INTERVAL: u64 = 2;

/// What is to be done next.
#[derive(Clone, Copy, Debug, PartialEq, Eq, Structural)]
pub enum Action {
    /// Nothing.
    Wait,
    /// Ask for the blame of the buffer as it is now, in place of any blame asked for before.
    Generate,
    /// Generate blame after this many seconds, in place of any generation put off before.
    GenerateAfter { seconds: u64 },
}

/// Something that happened to the buffer.
#[derive(Clone, Copy, Debug, PartialEq, Eq, Structural)]
pub enum BufferEvent {
    /// It came to differ from its file, or to be the same; `is_dirty` tells which.
    DirtyChanged { is_dirty: bool },
    /// Its text was edited.
    Edited,
    /// Anything else.
    Other,
}

/// The identity of a file in the project.
#[derive(Clone, Copy, Debug, Default, PartialEq, Eq, Hash, Structural)]
pub struct ProjectEntryId {
    pub id: u64,
}

/// Something that happened to the project.
#[derive(Debug, PartialEq, Eq)]
pub enum ProjectEvent {
    /// Files were updated. `buffer_entry` is the buffer's own file, if it has one.
    WorktreeUpdatedEntries { buffer_entry: Option<ProjectEntryId>, updated: Vec<ProjectEntryId> },
    /// Anything else.
    Other,
}

/// Something that happened to the project's repositories.
#[derive(Clone, Copy, Debug, PartialEq, Eq, Structural)]
pub enum GitStoreEvent {
    /// Something of a repository is new; `updated` tells whether that is its status.
    RepositoryUpdated { updated: bool },
    RepositoryAdded,
    RepositoryRemoved,
    /// Anything else.
    Other,
}

/// What came of generating blame.
#[derive(Debug, PartialEq, Eq)]
pub enum Generated {
    /// There is no blame to be had, for instance because the file is in no repository.
    Nothing,
    /// There is new blame to be shown.
    Notify,
    /// It failed, and the user is to be told so.
    Toast { notification_id: String, message: String },
    /// It failed, and that is only to be logged.
    LogError,
}

/// What a repository says of a file: who last touched its rows, the messages of the commits, and
/// the URL of its remote.
#[derive(Debug)]
pub struct Blame {
    pub entries: Vec<BlameEntry>,
    pub messages: Vec<(Oid, String)>,
    pub remote_url: Option<String>,
}

/// The identity of a repository.
#[derive(Clone, Copy, Debug, Default, PartialEq, Eq, Hash, Structural)]
pub struct RepositoryId {
    pub id: u64,
}

/// What reading the buffer gave: how it is now, and the edits since it was last read.
#[derive(Debug)]
pub struct BufferUpdate {
    pub edits: Vec<Edit<usize>>,
    pub snapshot: BufferSnapshot,
}

/// A displayed row: the buffer that it shows, and which row of that buffer.
#[derive(Clone, Copy, Debug, Default, PartialEq, Eq)]
pub struct RowInfo {
    pub buffer_id: Option<BufferId>,
    pub buffer_row: Option<u32>,
}

/// The state of a `GitBlame`.
#[verifier::ext_equal]
pub struct BlameState {
    /// The blame of the rows of `text`.
    pub entries: Seq<GitBlameEntry>,
    /// What is known of the commits.
    pub details: Map<Oid, ParsedCommitMessage>,
    /// The buffer's contents when it was last read.
    pub text: Seq<u8>,
    /// The buffer.
    pub buffer: BufferId,
    /// Whether the blame is looked at, and so worth generating.
    pub focused: bool,
    /// Whether blame was ever generated.
    pub generated: bool,
    /// Whether there was reason to generate blame while nobody looked at it.
    pub changed_while_blurred: bool,
    /// Whether the user asked for the blame, and wants to be told when there is none.
    pub user_triggered: bool,
}

/// The blame of a buffer's rows.
#[derive(Debug)]
pub struct GitBlame {
    entries: SumTree,
    commit_details: CommitDetails,
    buffer_snapshot: BufferSnapshot,
    focused: bool,
    generated: bool,
    changed_while_blurred: bool,
    user_triggered: bool,
}

impl View for GitBlame {
    type V = BlameState;

    closed spec fn view(&self) -> BlameState {
        BlameState {
            entries: self.entries@,
            details: self.commit_details@,
            text: self.buffer_snapshot@,
            buffer: self.buffer_snapshot.buffer(),
            focused: self.focused,
            generated: self.generated,
            changed_while_blurred: self.changed_while_blurred,
            user_triggered: self.user_triggered,
        }
    }
}

/// The blame of a displayed row. A row that shows another buffer than the blamed one, or no row of
/// it, has none.
pub open spec fn displayed_blame(state: BlameState, info: RowInfo) -> Option<BlameEntry> {
    match (info.buffer_row, info.buffer_id) {
        (Some(row), Some(buffer)) => if buffer == state.buffer {
            row_blame(state.entries, row as int)
        } else {
            None
        },
        _ => None,
    }
}

/// How many bytes the author of an entry takes: none if the entry has no blame or no author.
pub open spec fn author_bytes(entry: GitBlameEntry) -> usize {
    match entry.blame {
        Some(blame) => blame.author_bytes(),
        None => 0,
    }
}

/// How many bytes the longest name of an author takes; zero if no author is known.
pub open spec fn longest_author(entries: Seq<GitBlameEntry>) -> usize
    decreases entries.len(),
{
    if entries.len() == 0 {
        0
    } else {
        let longest = longest_author(entries.drop_last());
        if author_bytes(entries.last()) > longest {
            author_bytes(entries.last())
        } else {
            longest
        }
    }
}

impl BlameState {
    /// Whether there is blame for as many rows as the buffer had when it was last read.
    pub open spec fn in_step(self) -> bool {
        total_rows(self.entries) == row_count(self.text)
    }

    /// Whether nothing is left to be caught up with while the blame is looked at.
    pub open spec fn caught_up(self) -> bool {
        self.focused ==> !self.changed_while_blurred
    }

    /// The state once there was reason to generate blame. It is generated only while it is looked
    /// at; else it is left for when it will be.
    pub open spec fn asked(self) -> Self {
        if self.focused {
            self
        } else {
            BlameState { changed_while_blurred: true, ..self }
        }
    }

    /// What is done when there is reason to generate blame.
    pub open spec fn asked_action(self) -> Action {
        if self.focused {
            Action::Generate
        } else {
            Action::Wait
        }
    }

    /// The state once the blame is looked at.
    pub open spec fn focused_on(self) -> Self {
        if self.focused {
            self
        } else {
            BlameState { focused: true, changed_while_blurred: false, ..self }
        }
    }

    /// What is done when the blame comes to be looked at: it is generated if there was reason to,
    /// meanwhile.
    pub open spec fn focused_on_action(self) -> Action {
        if !self.focused && self.changed_while_blurred {
            Action::Generate
        } else {
            Action::Wait
        }
    }

    /// The state after the buffer was read: rows that an edit touched have lost their blame.
    pub open spec fn synced(self, edits: Seq<Edit<usize>>, text: Seq<u8>, buffer: BufferId) -> Self {
        BlameState {
            entries: spliced(self.entries, touched_rows(self.text, text, edits)),
            text,
            buffer,
            ..self
        }
    }

    /// Whether the edits turn the text that was last read into `text`, and the rows will not be
    /// too many for a `u32`.
    pub open spec fn can_sync(self, edits: Seq<Edit<usize>>, text: Seq<u8>) -> bool {
        &&& is_patch(self.text, text, edits)
        &&& total_rows(self.entries) + row_count(text) <= u32::MAX + row_count(self.text)
    }
}

/// Whether an event of the buffer is reason to generate blame.
pub open spec fn buffer_event_asks(event: BufferEvent) -> bool {
    event == (BufferEvent::DirtyChanged { is_dirty: false })
}

/// Whether an event of the project is reason to generate blame: the buffer's file was updated.
pub open spec fn project_event_asks(event: ProjectEvent) -> bool {
    match event {
        ProjectEvent::WorktreeUpdatedEntries { buffer_entry, updated } => match buffer_entry {
            Some(entry) => updated@.contains(entry),
            None => false,
        },
        ProjectEvent::Other => false,
    }
}

/// Whether an event of the repositories is reason to generate blame.
pub open spec fn git_store_event_asks(event: GitStoreEvent) -> bool {
    match event {
        GitStoreEvent::RepositoryUpdated { updated } => updated,
        GitStoreEvent::RepositoryAdded => true,
        GitStoreEvent::RepositoryRemoved => true,
        GitStoreEvent::Other => false,
    }
}

impl BufferUpdate {
    pub open spec fn wf(&self) -> bool {
        self.snapshot.wf()
    }
}

impl GitBlame {
    pub closed spec fn wf(&self) -> bool {
        &&& self.entries.wf()
        &&& self.commit_details.wf()
        &&& self.buffer_snapshot.wf()
    }

    /// Checks that the buffer's update follows on what was last read of the buffer.
    pub fn accepts(&self, update: &BufferUpdate) -> (accepted: bool)
        requires
            self.wf(),
            update.wf(),
        ensures
            accepted == self@.can_sync(update.edits@, update.snapshot@),
    {
        let rows: u64 = self.entries.summary().rows() as u64;
        let new_rows: u64 = update.snapshot.max_point().row as u64 + 1;
        let old_rows: u64 = self.buffer_snapshot.max_point().row as u64 + 1;
        check_patch(&self.buffer_snapshot, &update.snapshot, &update.edits) && rows + new_rows
            <= u32::MAX as u64 + old_rows
    }

    /// Brings the blame in step with the buffer.
    pub fn sync(&mut self, update: BufferUpdate)
        requires
            old(self).wf(),
            update.wf(),
            old(self)@.can_sync(update.edits@, update.snapshot@),
        ensures
            final(self).wf(),
            final(self)@ == old(self)@.synced(
                update.edits@,
                update.snapshot@,
                update.snapshot.buffer(),
            ),
            final(self)@ == (BlameState {
                entries: final(self)@.entries,
                text: update.snapshot@,
                buffer: update.snapshot.buffer(),
                ..old(self)@
            }),
    {
        let ghost old_text = self.buffer_snapshot@;
        let ghost new_text = update.snapshot@;
        let ghost edits = update.edits@;
        let mut edited_rows: Vec<Edit<u32>> = Vec::new();
        let mut next: usize = 0;
        while next < update.edits.len()
            invariant
                self.buffer_snapshot.wf(),
                update.snapshot.wf(),
                old_text == self.buffer_snapshot@,
                new_text == update.snapshot@,
                edits == update.edits@,
                is_patch(old_text, new_text, edits),
                0 <= next <= edits.len(),
                edited_rows@.len() == next,
                forall|i: int|
                    0 <= i < next ==> (#[trigger] edited_rows@[i])@ == row_edit(
                        old_text,
                        new_text,
                        edits[i],
                    ),
            decreases update.edits.len() - next,
        {
            proof {
                assert(gap_kept(old_text, new_text, edits, next as int));
                assert(gap_kept(old_text, new_text, edits, next + 1));
            }
            let rows = find_row_edit(&self.buffer_snapshot, &update.snapshot, &update.edits[next]);
            edited_rows.push(rows);
            next = next + 1;
        }
        proof {
            assert(row_edit_views(edited_rows@) =~= row_edits(old_text, new_text, edits));
            lemma_row_edits_aligned(old_text, new_text, edits);
            self.buffer_snapshot.lemma_wf();
            update.snapshot.lemma_wf();
            self.entries.lemma_wf();
        }
        self.entries = splice_entries(&self.entries, &edited_rows);
        self.buffer_snapshot = update.snapshot;
    }

    /// The blame of a buffer of which nothing is known yet: all its rows are without blame. Blame
    /// is generated at once if it is looked at.
    pub fn new(
        buffer_snapshot: BufferSnapshot,
        user_triggered: bool,
        focused: bool,
    ) -> (blame: (Self, Action))
        requires
            buffer_snapshot.wf(),
        ensures
            blame.0.wf(),
            blame.0@ == (BlameState {
                entries: seq![
                    GitBlameEntry { rows: row_count(buffer_snapshot@) as u32, blame: None },
                ],
                details: Map::empty(),
                text: buffer_snapshot@,
                buffer: buffer_snapshot.buffer(),
                focused,
                generated: false,
                changed_while_blurred: false,
                user_triggered,
            }).asked(),
            blame.0@.in_step(),
            blame.0@.caught_up(),
            blame.1 == (if focused { Action::Generate } else { Action::Wait }),
    {
        proof {
            buffer_snapshot.lemma_wf();
            lemma_total_rows_push(
                Seq::empty(),
                GitBlameEntry { rows: row_count(buffer_snapshot@) as u32, blame: None },
            );
        }
        let entries = SumTree::from_item(
            GitBlameEntry { rows: buffer_snapshot.max_point().row + 1, blame: None },
        );
        let mut this = GitBlame {
            entries,
            commit_details: CommitDetails::new(),
            buffer_snapshot,
            focused,
            generated: false,
            changed_while_blurred: false,
            user_triggered,
        };
        let action = this.generate();
        (this, action)
    }

    /// The repository that the buffer is in, among those that `find` knows by buffer.
    pub fn repository<F>(&self, find: F) -> (repository: Option<RepositoryId>) where
        F: Fn(BufferId) -> Option<(RepositoryId, String)>,

        requires
            find.requires((self@.buffer,)),
        ensures
            exists|found: Option<(RepositoryId, String)>| #[trigger]
                find.ensures((self@.buffer,), found) && repository == (match found {
                    Some((repository, path)) => Some(repository),
                    None => None,
                }),
    {
        match find(self.buffer_snapshot.remote_id()) {
            Some((repository, _)) => Some(repository),
            None => None,
        }
    }

    /// Whether blame was ever generated.
    pub fn has_generated_entries(&self) -> (generated: bool)
        ensures
            generated == self@.generated,
    {
        self.generated
    }

    /// What is known of the commit that rows are blamed on.
    pub fn details_for_entry(&self, entry: &BlameEntry) -> (details: Option<ParsedCommitMessage>)
        requires
            self.wf(),
        ensures
            details == (if self@.details.contains_key(entry.sha) {
                Some(self@.details[entry.sha])
            } else {
                None
            }),
    {
        match self.commit_details.get(&entry.sha) {
            Some(details) => Some(details.clone()),
            None => None,
        }
    }

    /// Brings the blame in step with the buffer, and returns the blame of displayed rows.
    pub fn blame_for_rows(
        &mut self,
        rows: &Vec<RowInfo>,
        update: BufferUpdate,
    ) -> (blames: Vec<Option<BlameEntry>>)
        requires
            old(self).wf(),
            update.wf(),
            old(self)@.can_sync(update.edits@, update.snapshot@),
        ensures
            final(self).wf(),
            final(self)@ == old(self)@.synced(
                update.edits@,
                update.snapshot@,
                update.snapshot.buffer(),
            ),
            blames@.len() == rows@.len(),
            forall|i: int|
                0 <= i < rows@.len() ==> #[trigger] blames@[i] == displayed_blame(
                    final(self)@,
                    rows@[i],
                ),
            forall|i: int, k: int|
                0 <= i < rows@.len() && 0 <= k < final(self)@.entries.len() && rows@[i].buffer_id
                    == Some(final(self)@.buffer) && (rows@[i].buffer_row matches Some(row)
                    && row_sum(final(self)@.entries, k) <= row < row_sum(
                    final(self)@.entries,
                    k + 1,
                )) ==> #[trigger] blames@[i] == (#[trigger] final(self)@.entries[k]).blame,
            forall|i: int|
                0 <= i < rows@.len() && (rows@[i].buffer_id != Some(final(self)@.buffer)
                    || rows@[i].buffer_row is None || rows@[i].buffer_row->0 >= row_sum(
                    final(self)@.entries,
                    final(self)@.entries.len() as int,
                )) ==> #[trigger] blames@[i] is None,
    {
        self.sync(update);
        let buffer_id = self.buffer_snapshot.remote_id();
        let mut cursor = self.entries.cursor();
        let mut blames: Vec<Option<BlameEntry>> = Vec::new();
        let mut next: usize = 0;
        while next < rows.len()
            invariant
                self.wf(),
                buffer_id == self@.buffer,
                cursor.wf(),
                cursor.entries() == self@.entries,
                0 <= next <= rows@.len(),
                blames@.len() == next,
                forall|i: int|
                    0 <= i < next ==> #[trigger] blames@[i] == displayed_blame(self@, rows@[i]),
            decreases rows.len() - next,
        {
            let info = &rows[next];
            let blame = match (info.buffer_row, info.buffer_id) {
                (Some(row), Some(id)) => if id == buffer_id {
                    cursor.seek(row);
                    proof {
                        lemma_row_in_entry(self@.entries, cursor.index(), row as int);
                    }
                    match cursor.item() {
                        Some(entry) => clone_blame(&entry.blame),
                        None => None,
                    }
                } else {
                    None
                },
                _ => None,
            };
            blames.push(blame);
            next = next + 1;
        }
        proof {
            let entries = self@.entries;
            assert forall|i: int, k: int|
                0 <= i < rows@.len() && 0 <= k < entries.len() && rows@[i].buffer_id == Some(
                    self@.buffer,
                ) && (rows@[i].buffer_row matches Some(row) && row_sum(entries, k) <= row
                    < row_sum(entries, k + 1)) implies #[trigger] blames@[i] == (
            #[trigger] entries[k]).blame by {
                lemma_row_in_entry(entries, k, rows@[i].buffer_row->0 as int);
            }
            assert forall|i: int|
                0 <= i < rows@.len() && (rows@[i].buffer_id != Some(self@.buffer)
                    || rows@[i].buffer_row is None || rows@[i].buffer_row->0 >= row_sum(
                    entries,
                    entries.len() as int,
                )) implies #[trigger] blames@[i] is None by {
                if let Some(row) = rows@[i].buffer_row {
                    if row >= row_sum(entries, entries.len() as int) {
                        lemma_row_in_entry(entries, entries.len() as int, row as int);
                    }
                }
            }
        }
        blames
    }

    /// Brings the blame in step with the buffer, and returns how many bytes the longest name of
    /// an author takes.
    pub fn max_author_length(&mut self, update: BufferUpdate) -> (length: usize)
        requires
            old(self).wf(),
            update.wf(),
            old(self)@.can_sync(update.edits@, update.snapshot@),
        ensures
            final(self).wf(),
            final(self)@ == old(self)@.synced(
                update.edits@,
                update.snapshot@,
                update.snapshot.buffer(),
            ),
            length == longest_author(final(self)@.entries),
            forall|i: int|
                0 <= i < final(self)@.entries.len() && (
                #[trigger] final(self)@.entries[i]).blame is Some
                    && final(self)@.entries[i].blame->0.author is Some ==> encode_utf8(
                    final(self)@.entries[i].blame->0.author->0@,
                ).len() as usize <= length,
            length == 0 || exists|i: int|
                0 <= i < final(self)@.entries.len() && (
                #[trigger] final(self)@.entries[i]).blame is Some
                    && final(self)@.entries[i].blame->0.author is Some && encode_utf8(
                    final(self)@.entries[i].blame->0.author->0@,
                ).len() as usize == length,
    {
        self.sync(update);
        let entries = self.entries.items();
        let mut max_author_length: usize = 0;
        let mut next: usize = 0;
        while next < entries.len()
            invariant
                0 <= next <= entries@.len(),
                max_author_length == longest_author(entries@.take(next as int)),
                forall|i: int|
                    0 <= i < next && (#[trigger] entries@[i]).blame is Some
                        && entries@[i].blame->0.author is Some ==> encode_utf8(
                        entries@[i].blame->0.author->0@,
                    ).len() as usize <= max_author_length,
                max_author_length == 0 || exists|i: int|
                    0 <= i < next && (#[trigger] entries@[i]).blame is Some
                        && entries@[i].blame->0.author is Some && encode_utf8(
                        entries@[i].blame->0.author->0@,
                    ).len() as usize == max_author_length,
            decreases entries.len() - next,
        {
            let author_len: usize = match &entries[next].blame {
                Some(blame) => match &blame.author {
                    Some(author) => author.as_str().len(),
                    None => 0,
                },
                None => 0,
            };
            if author_len > max_author_length {
                max_author_length = author_len;
            }
            assert(entries@.take(next + 1).drop_last() =~= entries@.take(next as int));
            next = next + 1;
        }
        assert(entries@.take(next as int) =~= entries@);
        max_author_length
    }

    /// Nobody looks at the blame any more.
    pub fn blur(&mut self)
        requires
            old(self).wf(),
        ensures
            final(self).wf(),
            final(self)@ == (BlameState { focused: false, ..old(self)@ }),
    {
        self.focused = false;
    }

    /// The blame is looked at. It is generated if there was reason to while nobody did.
    pub fn focus(&mut self) -> (action: Action)
        requires
            old(self).wf(),
        ensures
            final(self).wf(),
            final(self)@ == old(self)@.focused_on(),
            action == old(self)@.focused_on_action(),
            final(self)@ == (BlameState {
                focused: true,
                changed_while_blurred: old(self)@.focused && old(self)@.changed_while_blurred,
                ..old(self)@
            }),
            action == (if !old(self)@.focused && old(self)@.changed_while_blurred {
                Action::Generate
            } else {
                Action::Wait
            }),
    {
        if self.focused {
            return Action::Wait;
        }
        self.focused = true;
        if self.changed_while_blurred {
            self.changed_while_blurred = false;
            self.generate()
        } else {
            Action::Wait
        }
    }

    /// Brings the blame in step with the buffer, and tells whether it has as many rows.
    pub fn check_invariants(&mut self, update: BufferUpdate) -> (in_step: bool)
        requires
            old(self).wf(),
            update.wf(),
            old(self)@.can_sync(update.edits@, update.snapshot@),
        ensures
            final(self).wf(),
            final(self)@ == old(self)@.synced(
                update.edits@,
                update.snapshot@,
                update.snapshot.buffer(),
            ),
            in_step == final(self)@.in_step(),
            in_step == (row_sum(final(self)@.entries, final(self)@.entries.len() as int)
                == newlines_before(final(self)@.text, final(self)@.text.len() as int) + 1),
    {
        self.sync(update);
        let rows = self.entries.summary().rows();
        let max_row = self.buffer_snapshot.max_point().row;
        proof {
            self.buffer_snapshot.lemma_wf();
        }
        rows == max_row + 1
    }

    /// There is reason to generate blame. While nobody looks at it, that is put off.
    pub fn generate(&mut self) -> (action: Action)
        requires
            old(self).wf(),
        ensures
            final(self).wf(),
            final(self)@ == old(self)@.asked(),
            action == old(self)@.asked_action(),
            final(self)@ == (BlameState {
                changed_while_blurred: old(self)@.changed_while_blurred || !old(self)@.focused,
                ..old(self)@
            }),
            action == (if old(self)@.focused {
                Action::Generate
            } else {
                Action::Wait
            }),
    {
        if !self.focused {
            self.changed_while_blurred = true;
            return Action::Wait;
        }
        Action::Generate
    }

    /// The buffer was edited: blame is to be generated once it has not been for a while.
    pub fn regenerate_on_edit(&mut self) -> (action: Action)
        requires
            old(self).wf(),
        ensures
            final(self).wf(),
            final(self)@ == old(self)@,
            action == (Action::GenerateAfter { seconds: REGENERATE_ON_EDIT_DEBOUNCE_INTERVAL }),
            action == (Action::GenerateAfter { seconds: 2 }),
    {
        Action::GenerateAfter { seconds: REGENERATE_ON_EDIT_DEBOUNCE_INTERVAL }
    }

    /// Responds to an event of the buffer.
    pub fn handle_buffer_event(&mut self, event: BufferEvent) -> (action: Action)
        requires
            old(self).wf(),
        ensures
            final(self).wf(),
            final(self)@ == (if buffer_event_asks(event) {
                old(self)@.asked()
            } else {
                old(self)@
            }),
            action == (match event {
                BufferEvent::Edited => Action::GenerateAfter {
                    seconds: REGENERATE_ON_EDIT_DEBOUNCE_INTERVAL,
                },
                _ => if buffer_event_asks(event) {
                    old(self)@.asked_action()
                } else {
                    Action::Wait
                },
            }),
            match event {
                BufferEvent::DirtyChanged { is_dirty } => {
                    &&& action == (if !is_dirty && old(self)@.focused {
                        Action::Generate
                    } else {
                        Action::Wait
                    })
                    &&& final(self)@ == (BlameState {
                        changed_while_blurred: old(self)@.changed_while_blurred || (!is_dirty
                            && !old(self)@.focused),
                        ..old(self)@
                    })
                },
                BufferEvent::Edited => {
                    &&& action == (Action::GenerateAfter { seconds: 2 })
                    &&& final(self)@ == old(self)@
                },
                BufferEvent::Other => action == Action::Wait && final(self)@ == old(self)@,
            },
    {
        match event {
            BufferEvent::DirtyChanged { is_dirty } => if !is_dirty {
                self.generate()
            } else {
                Action::Wait
            },
            BufferEvent::Edited => self.regenerate_on_edit(),
            BufferEvent::Other => Action::Wait,
        }
    }

    /// Responds to an event of the project.
    pub fn handle_project_event(&mut self, event: &ProjectEvent) -> (action: Action)
        requires
            old(self).wf(),
        ensures
            final(self).wf(),
            final(self)@ == (if project_event_asks(*event) {
                old(self)@.asked()
            } else {
                old(self)@
            }),
            action == (if project_event_asks(*event) {
                old(self)@.asked_action()
            } else {
                Action::Wait
            }),
            match *event {
                ProjectEvent::WorktreeUpdatedEntries { buffer_entry, updated } => {
                    let hit = exists|i: int|
                        0 <= i < updated@.len() && buffer_entry == Some(#[trigger] updated@[i]);
                    &&& action == (if hit && old(self)@.focused {
                        Action::Generate
                    } else {
                        Action::Wait
                    })
                    &&& final(self)@ == (BlameState {
                        changed_while_blurred: old(self)@.changed_while_blurred || (hit && !old(
                            self,
                        )@.focused),
                        ..old(self)@
                    })
                },
                ProjectEvent::Other => action == Action::Wait && final(self)@ == old(self)@,
            },
    {
        match event {
            ProjectEvent::WorktreeUpdatedEntries { buffer_entry, updated } => {
                if let Some(entry) = buffer_entry {
                    if contains_entry(updated, *entry) {
                        return self.generate();
                    }
                }
                Action::Wait
            },
            ProjectEvent::Other => Action::Wait,
        }
    }

    /// Responds to an event of the project's repositories.
    pub fn handle_git_store_event(&mut self, event: GitStoreEvent) -> (action: Action)
        requires
            old(self).wf(),
        ensures
            final(self).wf(),
            final(self)@ == (if git_store_event_asks(event) {
                old(self)@.asked()
            } else {
                old(self)@
            }),
            action == (if git_store_event_asks(event) {
                old(self)@.asked_action()
            } else {
                Action::Wait
            }),
            ({
                let hit = match event {
                    GitStoreEvent::RepositoryUpdated { updated } => updated,
                    GitStoreEvent::RepositoryAdded => true,
                    GitStoreEvent::RepositoryRemoved => true,
                    GitStoreEvent::Other => false,
                };
                &&& action == (if hit && old(self)@.focused {
                    Action::Generate
                } else {
                    Action::Wait
                })
                &&& final(self)@ == (BlameState {
                    changed_while_blurred: old(self)@.changed_while_blurred || (hit && !old(
                        self,
                    )@.focused),
                    ..old(self)@
                })
            }),
    {
        match event {
            GitStoreEvent::RepositoryUpdated { updated } => if updated {
                self.generate()
            } else {
                Action::Wait
            },
            GitStoreEvent::RepositoryAdded => self.generate(),
            GitStoreEvent::RepositoryRemoved => self.generate(),
            GitStoreEvent::Other => Action::Wait,
        }
    }

    /// Takes what came of generating blame. `snapshot` is the buffer as it was when blame was
    /// asked for, and `result` its blame, or why there is none. Only new blame changes anything:
    /// the next update of the buffer then holds the edits since `snapshot`.
    pub fn finish_generate(
        &mut self,
        result: Result<Option<(SumTree, CommitDetails)>, String>,
        snapshot: BufferSnapshot,
    ) -> (outcome: Generated)
        requires
            old(self).wf(),
            snapshot.wf(),
            result matches Ok(Some(blame)) ==> blame.0.wf() && blame.1.wf(),
        ensures
            final(self).wf(),
            match result {
                Ok(Some(blame)) => {
                    &&& final(self)@ == (BlameState {
                        entries: blame.0@,
                        details: blame.1@,
                        text: snapshot@,
                        buffer: snapshot.buffer(),
                        generated: true,
                        ..old(self)@
                    })
                    &&& outcome is Notify
                },
                Ok(None) => final(self)@ == old(self)@ && outcome is Nothing,
                Err(error) => {
                    &&& final(self)@ == old(self)@
                    &&& if old(self)@.user_triggered {
                        match outcome {
                            Generated::Toast { notification_id, message } => {
                                &&& notification_id@ == "git-blame"@
                                &&& message@ == trimmed(error@)
                            },
                            _ => false,
                        }
                    } else {
                        outcome is LogError
                    }
                },
            },
    {
        match result {
            Ok(None) => Generated::Nothing,
            Ok(Some((entries, commit_details))) => {
                self.buffer_snapshot = snapshot;
                self.entries = entries;
                self.commit_details = commit_details;
                self.generated = true;
                Generated::Notify
            },
            Err(error) => if self.user_triggered {
                Generated::Toast {
                    notification_id: "git-blame".to_string(),
                    message: trim(error.as_str()).to_string(),
                }
            } else {
                Generated::LogError
            },
        }
    }
}

fn contains_entry(entries: &Vec<ProjectEntryId>, entry: ProjectEntryId) -> (found: bool)
    ensures
        found == entries@.contains(entry),
{
    let mut next: usize = 0;
    while next < entries.len()
        invariant
            0 <= next <= entries@.len(),
            forall|i: int| 0 <= i < next ==> entries@[i] != entry,
        decreases entries.len() - next,
    {
        if entries[next] == entry {
            return true;
        }
        next = next + 1;
    }
    false
}

/// Works out what a repository's blame says of a buffer: the blame of its rows, and the details of
/// the commits.
pub fn read_blame<R, L, P>(
    blame: Blame,
    snapshot: &BufferSnapshot,
    parse_remote_url: R,
    build_commit_permalink: L,
    extract_pull_request: P,
) -> (read: (SumTree, CommitDetails)) where
    R: Fn(&str) -> Option<(ProviderId, ParsedGitRemote)>,
    L: Fn(ProviderId, &ParsedGitRemote, &str) -> String,
    P: Fn(ProviderId, &ParsedGitRemote, &str) -> Option<PullRequest>,

    requires
        snapshot.wf(),
        total_rows(built(blame.entries@, row_count(snapshot@) - 1)) <= u32::MAX,
        forall|url: &str| #[trigger] parse_remote_url.requires((url,)),
        forall|provider: ProviderId, remote: &ParsedGitRemote, sha: &str| #[trigger]
            build_commit_permalink.requires((provider, remote, sha)),
        forall|provider: ProviderId, remote: &ParsedGitRemote, message: &str| #[trigger]
            extract_pull_request.requires((provider, remote, message)),
    ensures
        read.0.wf(),
        read.0@ == built(blame.entries@, row_count(snapshot@) - 1),
        read.1.wf(),
        exists|remote: Option<(ProviderId, ParsedGitRemote)>|
            {
                &&& match blame.remote_url {
                    Some(url) => exists|text: &str| #[trigger]
                        parse_remote_url.ensures((text,), remote) && text@ == url@,
                    None => remote is None,
                }
                &&& #[trigger] all_details_of(
                    read.1@,
                    blame.messages@,
                    blame.messages@.len() as int,
                    remote,
                    build_commit_permalink,
                    extract_pull_request,
                )
            },
{
    proof {
        snapshot.lemma_wf();
    }
    let Blame { entries, messages, remote_url } = blame;
    let entries = build_blame_entry_sum_tree(entries, snapshot.max_point().row);
    let commit_details = parse_commit_messages(
        messages,
        remote_url,
        parse_remote_url,
        build_commit_permalink,
        extract_pull_request,
    );
    (entries, commit_details)
}

} // verus!
