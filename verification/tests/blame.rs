use std::ops::Range;

use anyhow::Error;
use git_blame::blame::{
    read_blame, Action, Blame, BufferEvent, BufferUpdate, Generated, GitBlame, GitStoreEvent,
    ProjectEntryId, ProjectEvent, RepositoryId, RowInfo, REGENERATE_ON_EDIT_DEBOUNCE_INTERVAL,
};
use git_blame::build_tree::rows_fit;
use git_blame::commits::{CommitDetails, ParsedGitRemote, ProviderId, PullRequest};
use git_blame::edits::Edit;
use git_blame::entry::{BlameEntry, Oid};
use git_blame::text::{BufferId, BufferSnapshot};
use git_blame::tree::SumTree;
use rand::rngs::StdRng;
use rand::seq::IteratorRandom;
use rand::{Rng, SeedableRng};

const BUFFER: BufferId = BufferId { id: 7 };

fn snapshot(text: &[u8]) -> BufferSnapshot {
    BufferSnapshot::new(BUFFER, text.to_vec()).unwrap()
}

/// A buffer that keeps track of where each of its bytes was when it was last read.
struct TestBuffer {
    text: Vec<u8>,
    origins: Vec<Option<usize>>,
    read_len: usize,
}

impl TestBuffer {
    fn new(text: &str) -> Self {
        let mut buffer = TestBuffer {
            text: text.as_bytes().to_vec(),
            origins: Vec::new(),
            read_len: 0,
        };
        buffer.subscribe();
        buffer
    }

    fn subscribe(&mut self) {
        self.origins = (0..self.text.len()).map(Some).collect();
        self.read_len = self.text.len();
    }

    fn snapshot(&self) -> BufferSnapshot {
        snapshot(&self.text)
    }

    fn max_row(&self) -> u32 {
        self.snapshot().max_point().row
    }

    /// The offset of a point, clipped to the end of its row.
    fn offset(&self, row: usize, column: usize) -> usize {
        let mut start = 0;
        for _ in 0..row {
            start += self.text[start..].iter().position(|byte| *byte == b'\n').unwrap() + 1;
        }
        let len = self.text[start..]
            .iter()
            .position(|byte| *byte == b'\n')
            .unwrap_or(self.text.len() - start);
        start + column.min(len)
    }

    fn edit(&mut self, range: Range<usize>, new_text: &str) {
        let bytes = new_text.as_bytes();
        self.text.splice(range.clone(), bytes.iter().copied());
        self.origins.splice(range, bytes.iter().map(|_| None));
    }

    fn insert_at(&mut self, row: usize, column: usize, new_text: &str) {
        let offset = self.offset(row, column);
        self.edit(offset..offset, new_text);
    }

    /// The edits since the buffer was last read.
    fn consume(&mut self) -> BufferUpdate {
        let mut edits = Vec::new();
        let mut old_end = 0;
        let mut new_end = 0;
        let mut kept: Vec<(usize, usize)> = Vec::new();
        for (new, origin) in self.origins.iter().enumerate() {
            if let Some(old) = origin {
                kept.push((*old, new));
            }
        }
        kept.push((self.read_len, self.text.len()));
        for (old, new) in kept {
            if old > old_end || new > new_end {
                edits.push(Edit { old: old_end..old, new: new_end..new });
            }
            old_end = old + 1;
            new_end = new + 1;
        }
        self.subscribe();
        BufferUpdate { edits, snapshot: self.snapshot() }
    }
}

fn oid(prefix: &str) -> Oid {
    let digits = format!("{:0<40}", prefix);
    Oid {
        high: u128::from_str_radix(&digits[..32], 16).unwrap(),
        low: u32::from_str_radix(&digits[32..], 16).unwrap(),
    }
}

fn blame_entry(sha: &str, range: Range<u32>) -> BlameEntry {
    BlameEntry { sha: oid(sha), range, ..Default::default() }
}

fn authored(sha: &str, range: Range<u32>, author: &str) -> BlameEntry {
    BlameEntry { author: Some(author.to_string()), ..blame_entry(sha, range) }
}

fn no_remote(_: &str) -> Option<(ProviderId, ParsedGitRemote)> {
    None
}

fn no_permalink(_: ProviderId, _: &ParsedGitRemote, _: &str) -> String {
    String::new()
}

fn no_pull_request(_: ProviderId, _: &ParsedGitRemote, _: &str) -> Option<PullRequest> {
    None
}

fn read(entries: Vec<BlameEntry>, snapshot: &BufferSnapshot) -> (SumTree, CommitDetails) {
    assert!(rows_fit(&entries, snapshot.max_point().row));
    let blame = Blame { entries, messages: Vec::new(), remote_url: None };
    read_blame(blame, snapshot, no_remote, no_permalink, no_pull_request)
}

fn generated(buffer: &TestBuffer, entries: Vec<BlameEntry>) -> GitBlame {
    let (mut blame, action) = GitBlame::new(buffer.snapshot(), false, true);
    assert_eq!(action, Action::Generate);
    let at_start = buffer.snapshot();
    let result = Ok(Some(read(entries, &at_start)));
    assert_eq!(blame.finish_generate(result, at_start), Generated::Notify);
    blame
}

fn row_infos(rows: Range<u32>) -> Vec<RowInfo> {
    rows.map(|row| RowInfo { buffer_row: Some(row), buffer_id: Some(BUFFER) }).collect()
}

fn update(blame: &GitBlame, buffer: &mut TestBuffer) -> BufferUpdate {
    let update = buffer.consume();
    assert!(blame.accepts(&update));
    update
}

fn assert_blame_rows(
    blame: &mut GitBlame,
    buffer: &mut TestBuffer,
    rows: Range<u32>,
    expected: Vec<Option<BlameEntry>>,
) {
    let update = update(blame, buffer);
    assert_eq!(blame.blame_for_rows(&row_infos(rows), update), expected);
}

#[test]
fn test_blame_error_notifications() {
    let mut buffer = TestBuffer::new("irrelevant contents\n");
    let (mut blame, action) = GitBlame::new(buffer.snapshot(), true, true);
    assert_eq!(action, Action::Generate);

    let error = Error::msg("failed to get blame for \"file.txt\"")
        .context("Failed to blame \"file.txt\"");
    let outcome = blame.finish_generate(Err(format!("{:#}", error)), buffer.snapshot());
    assert_eq!(
        outcome,
        Generated::Toast {
            notification_id: "git-blame".into(),
            message: "Failed to blame \"file.txt\": failed to get blame for \"file.txt\""
                .to_string()
        }
    );

    let rows: Vec<RowInfo> = (0..1)
        .map(|row| RowInfo { buffer_row: Some(row), ..Default::default() })
        .collect();
    let update = update(&blame, &mut buffer);
    assert_eq!(blame.blame_for_rows(&rows, update), vec![None]);
    assert!(!blame.has_generated_entries());
}

#[test]
fn test_blame_for_rows() {
    let mut buffer = TestBuffer::new(
        "AAA Line 1\n\
         BBB Line 2 - Modified 1\n\
         CCC Line 3 - Modified 2\n\
         modified in memory 1\n\
         modified in memory 1\n\
         DDD Line 4 - Modified 2\n\
         EEE Line 5 - Modified 1\n\
         FFF Line 6 - Modified 2\n",
    );
    let mut blame = generated(
        &buffer,
        vec![
            blame_entry("1b1b1b", 0..1),
            blame_entry("0d0d0d", 1..2),
            blame_entry("3a3a3a", 2..3),
            blame_entry("3a3a3a", 5..6),
            blame_entry("0d0d0d", 6..7),
            blame_entry("3a3a3a", 7..8),
        ],
    );
    assert!(blame.has_generated_entries());

    // All lines
    assert_blame_rows(
        &mut blame,
        &mut buffer,
        0..8,
        vec![
            Some(blame_entry("1b1b1b", 0..1)),
            Some(blame_entry("0d0d0d", 1..2)),
            Some(blame_entry("3a3a3a", 2..3)),
            None,
            None,
            Some(blame_entry("3a3a3a", 5..6)),
            Some(blame_entry("0d0d0d", 6..7)),
            Some(blame_entry("3a3a3a", 7..8)),
        ],
    );
    // Subset of lines
    assert_blame_rows(
        &mut blame,
        &mut buffer,
        1..4,
        vec![Some(blame_entry("0d0d0d", 1..2)), Some(blame_entry("3a3a3a", 2..3)), None],
    );
    // Subset of lines, with some not displayed
    let rows = vec![
        RowInfo { buffer_row: Some(1), buffer_id: Some(BUFFER) },
        Default::default(),
        Default::default(),
    ];
    let update = update(&blame, &mut buffer);
    assert_eq!(
        blame.blame_for_rows(&rows, update),
        vec![Some(blame_entry("0d0d0d", 1..2)), None, None]
    );
}

#[test]
fn test_blame_for_rows_with_edits() {
    let mut buffer = TestBuffer::new("Line 1\nLine 2\nLine 3\n");
    let mut blame = generated(&buffer, vec![blame_entry("1b1b1b", 0..4)]);

    // The same blame entry for all lines before edits
    assert_blame_rows(
        &mut blame,
        &mut buffer,
        0..4,
        vec![
            Some(blame_entry("1b1b1b", 0..4)),
            Some(blame_entry("1b1b1b", 0..4)),
            Some(blame_entry("1b1b1b", 0..4)),
            Some(blame_entry("1b1b1b", 0..4)),
        ],
    );

    // Modify a single line, at the start of the line
    buffer.insert_at(0, 0, "X");
    assert_blame_rows(
        &mut blame,
        &mut buffer,
        0..2,
        vec![None, Some(blame_entry("1b1b1b", 0..4))],
    );
    // Modify a single line, in the middle of the line
    buffer.insert_at(1, 2, "X");
    assert_blame_rows(
        &mut blame,
        &mut buffer,
        1..4,
        vec![
            None,
            Some(blame_entry("1b1b1b", 0..4)),
            Some(blame_entry("1b1b1b", 0..4)),
        ],
    );

    // Before we insert a newline at the end, sanity check:
    assert_blame_rows(&mut blame, &mut buffer, 3..4, vec![Some(blame_entry("1b1b1b", 0..4))]);
    // Insert a newline at the end
    buffer.insert_at(3, 6, "\n");
    // Only the new line is marked as edited:
    assert_blame_rows(
        &mut blame,
        &mut buffer,
        3..5,
        vec![Some(blame_entry("1b1b1b", 0..4)), None],
    );

    // Before we insert a newline at the start, sanity check:
    assert_blame_rows(&mut blame, &mut buffer, 2..3, vec![Some(blame_entry("1b1b1b", 0..4))]);
    // Insert a newline at the start of the row
    buffer.insert_at(2, 0, "\n");
    // Only the new line is marked as edited:
    assert_blame_rows(
        &mut blame,
        &mut buffer,
        2..4,
        vec![None, Some(blame_entry("1b1b1b", 0..4))],
    );
}

fn random_text(rng: &mut StdRng, len: usize) -> String {
    (0..len)
        .map(|_| match rng.gen_range(0..100) {
            0..=19 => '\n',
            20..=29 => 'é',
            30..=39 => '中',
            40..=44 => '🍐',
            _ => (b'a' + rng.gen_range(0..26)) as char,
        })
        .collect()
}

fn random_boundary(rng: &mut StdRng, text: &[u8], low: usize, high: usize) -> usize {
    let text = std::str::from_utf8(text).unwrap();
    (low..=high).filter(|offset| text.is_char_boundary(*offset)).choose(rng).unwrap()
}

fn randomly_edit(buffer: &mut TestBuffer, rng: &mut StdRng, max_edits: usize) {
    for _ in 0..rng.gen_range(1..=max_edits) {
        let start = random_boundary(rng, &buffer.text, 0, buffer.text.len());
        let limit = (start + 5).min(buffer.text.len());
        let end = random_boundary(rng, &buffer.text, start, limit);
        let len = rng.gen_range(0..10);
        let new_text = random_text(rng, len);
        buffer.edit(start..end, &new_text);
    }
}

fn gen_blame_entries(max_row: u32, rng: &mut StdRng) -> Vec<BlameEntry> {
    let mut last_row = 0;
    let mut blame_entries = Vec::new();
    for ix in 0..5 {
        if last_row < max_row {
            let row_start = rng.gen_range(last_row..max_row);
            let row_end = rng.gen_range(row_start + 1..(row_start + 3).min(max_row) + 1);
            blame_entries.push(blame_entry(&ix.to_string(), row_start..row_end));
            last_row = row_end;
        } else {
            break;
        }
    }
    blame_entries
}

fn check_invariants(blame: &mut GitBlame, buffer: &mut TestBuffer) {
    let update = update(blame, buffer);
    assert!(blame.check_invariants(update));
}

#[test]
fn test_blame_random() {
    let operations = 10;
    let max_edits_per_operation = 5;
    for seed in 0..100 {
        let mut rng = StdRng::seed_from_u64(seed);
        let initial_len = rng.gen_range(5..15);
        let mut text = random_text(&mut rng, initial_len);
        let mut newline_ixs = (0..initial_len).choose_multiple(&mut rng, 5);
        newline_ixs.sort_unstable();
        for mut newline_ix in newline_ixs.into_iter().rev() {
            while !text.is_char_boundary(newline_ix) {
                newline_ix += 1;
            }
            text.insert(newline_ix, '\n');
        }
        let mut buffer = TestBuffer::new(&text);
        let mut blame_entries = gen_blame_entries(buffer.max_row(), &mut rng);
        let mut blame = generated(&buffer, blame_entries);
        let mut stale = false;
        blame_entries = Vec::new();
        check_invariants(&mut blame, &mut buffer);

        for _ in 0..operations {
            match rng.gen_range(0..100) {
                0..=19 => {
                    // Quiescing: what was put off is generated.
                    if stale {
                        assert_eq!(blame.generate(), Action::Generate);
                        let entries = std::mem::take(&mut blame_entries);
                        let at_start = buffer.snapshot();
                        let result = Ok(Some(read(entries, &at_start)));
                        buffer.subscribe();
                        assert_eq!(blame.finish_generate(result, at_start), Generated::Notify);
                        stale = false;
                    }
                }
                20..=69 => {
                    randomly_edit(&mut buffer, &mut rng, max_edits_per_operation);
                    blame_entries = gen_blame_entries(buffer.max_row(), &mut rng);
                    stale = true;
                }
                _ => check_invariants(&mut blame, &mut buffer),
            }
        }
        check_invariants(&mut blame, &mut buffer);
    }
}

#[test]
fn edits_are_composed_until_the_buffer_is_read() {
    let mut buffer = TestBuffer::new("one\ntwo\nthree\nfour\nfive");
    let mut blame = generated(
        &buffer,
        vec![blame_entry("aa", 0..2), blame_entry("bb", 2..5)],
    );
    buffer.insert_at(3, 2, "X");
    buffer.insert_at(0, 3, "\nzero");
    assert_blame_rows(
        &mut blame,
        &mut buffer,
        0..7,
        vec![
            Some(blame_entry("aa", 0..2)),
            None,
            Some(blame_entry("aa", 0..2)),
            Some(blame_entry("bb", 2..5)),
            None,
            Some(blame_entry("bb", 2..5)),
            None,
        ],
    );
}

#[test]
fn deleted_rows_take_their_blame_along() {
    let mut buffer = TestBuffer::new("a\nb\nc\nd\n");
    let mut blame = generated(
        &buffer,
        vec![
            blame_entry("a1", 0..1),
            blame_entry("b1", 1..2),
            blame_entry("c1", 2..3),
            blame_entry("d1", 3..4),
        ],
    );
    buffer.edit(2..6, "");
    assert_blame_rows(
        &mut blame,
        &mut buffer,
        0..4,
        vec![
            Some(blame_entry("a1", 0..1)),
            Some(blame_entry("d1", 3..4)),
            None,
            None,
        ],
    );
    let update = update(&blame, &mut buffer);
    assert!(blame.check_invariants(update));
}

#[test]
fn text_in_an_empty_row_leaves_its_blame() {
    let mut buffer = TestBuffer::new("a\n\nb");
    let mut blame = generated(&buffer, vec![blame_entry("aa", 0..3)]);
    buffer.insert_at(1, 0, "X");
    assert_blame_rows(
        &mut blame,
        &mut buffer,
        0..3,
        vec![
            Some(blame_entry("aa", 0..3)),
            Some(blame_entry("aa", 0..3)),
            Some(blame_entry("aa", 0..3)),
        ],
    );
}

#[test]
fn reading_an_unedited_buffer_changes_nothing() {
    let mut buffer = TestBuffer::new("a\nb\n");
    let mut blame = generated(&buffer, vec![blame_entry("aa", 0..1)]);
    let expected = vec![Some(blame_entry("aa", 0..1)), None, None, None];
    assert_blame_rows(&mut blame, &mut buffer, 0..4, expected);
    let expected = vec![Some(blame_entry("aa", 0..1)), None, None, None];
    assert_blame_rows(&mut blame, &mut buffer, 0..4, expected);
}

#[test]
fn rows_can_be_asked_for_in_any_order() {
    let mut buffer = TestBuffer::new("a\nb\nc");
    let mut blame = generated(
        &buffer,
        vec![blame_entry("aa", 0..1), blame_entry("bb", 1..2), blame_entry("cc", 2..3)],
    );
    let rows: Vec<RowInfo> = vec![2, 0, 1, 0]
        .into_iter()
        .map(|row| RowInfo { buffer_row: Some(row), buffer_id: Some(BUFFER) })
        .collect();
    let update = update(&blame, &mut buffer);
    assert_eq!(
        blame.blame_for_rows(&rows, update),
        vec![
            Some(blame_entry("cc", 2..3)),
            Some(blame_entry("aa", 0..1)),
            Some(blame_entry("bb", 1..2)),
            Some(blame_entry("aa", 0..1)),
        ]
    );
}

#[test]
fn rows_of_another_buffer_have_no_blame() {
    let mut buffer = TestBuffer::new("a");
    let mut blame = generated(&buffer, vec![blame_entry("aa", 0..1)]);
    let rows = vec![
        RowInfo { buffer_row: Some(0), buffer_id: Some(BufferId { id: 8 }) },
        RowInfo { buffer_row: None, buffer_id: Some(BUFFER) },
        RowInfo { buffer_row: Some(0), buffer_id: Some(BUFFER) },
    ];
    let update = update(&blame, &mut buffer);
    assert_eq!(
        blame.blame_for_rows(&rows, update),
        vec![None, None, Some(blame_entry("aa", 0..1))]
    );
}

#[test]
fn longest_author_is_counted_in_bytes_and_never_grows() {
    let mut buffer = TestBuffer::new("a\nb\nc\n");
    let mut blame = generated(
        &buffer,
        vec![
            authored("aa", 0..1, "Zoé"),
            authored("bb", 1..2, "Åsa Öberg"),
            blame_entry("cc", 2..3),
        ],
    );
    let next = update(&blame, &mut buffer);
    assert_eq!(blame.max_author_length(next), 11);
    buffer.insert_at(1, 1, "!");
    let next = update(&blame, &mut buffer);
    assert_eq!(blame.max_author_length(next), 4);
    buffer.insert_at(0, 1, "!");
    let next = update(&blame, &mut buffer);
    assert_eq!(blame.max_author_length(next), 0);
}

#[test]
fn new_blame_has_the_rows_of_its_buffer() {
    let mut buffer = TestBuffer::new("a\nb\n");
    let (mut blame, action) = GitBlame::new(buffer.snapshot(), false, false);
    assert_eq!(action, Action::Wait);
    assert!(!blame.has_generated_entries());
    let next = update(&blame, &mut buffer);
    assert!(blame.check_invariants(next));
}

#[test]
fn overlapping_blame_is_out_of_step() {
    let mut buffer = TestBuffer::new("a\nb");
    let mut blame = generated(&buffer, vec![blame_entry("aa", 0..2), blame_entry("bb", 0..2)]);
    let next = update(&blame, &mut buffer);
    assert!(!blame.check_invariants(next));
}

#[test]
fn updates_that_do_not_follow_are_not_accepted() {
    let buffer = TestBuffer::new("a\nb");
    let blame = generated(&buffer, vec![]);
    let edits = vec![Edit { old: 0..1, new: 0..2 }];
    assert!(!blame.accepts(&BufferUpdate { edits, snapshot: snapshot(b"xy\nc") }));
    let edits = vec![Edit { old: 0..1, new: 0..2 }];
    assert!(blame.accepts(&BufferUpdate { edits, snapshot: snapshot(b"xy\nb") }));
    assert!(!blame.accepts(&BufferUpdate { edits: vec![], snapshot: snapshot(b"a\nc") }));
}

#[test]
fn blame_that_nobody_looks_at_is_generated_on_focus() {
    let (mut blame, action) = GitBlame::new(snapshot(b"a"), false, true);
    assert_eq!(action, Action::Generate);
    assert_eq!(blame.generate(), Action::Generate);
    assert_eq!(blame.focus(), Action::Wait);
    blame.blur();
    assert_eq!(blame.focus(), Action::Wait);
    blame.blur();
    assert_eq!(blame.generate(), Action::Wait);
    assert_eq!(blame.generate(), Action::Wait);
    assert_eq!(blame.focus(), Action::Generate);
    assert_eq!(blame.focus(), Action::Wait);
    blame.blur();
    assert_eq!(blame.focus(), Action::Wait);
}

#[test]
fn blame_made_without_focus_is_generated_on_focus() {
    let (mut blame, action) = GitBlame::new(snapshot(b"a"), false, false);
    assert_eq!(action, Action::Wait);
    assert_eq!(blame.focus(), Action::Generate);
}

#[test]
fn buffer_events() {
    let (mut blame, _) = GitBlame::new(snapshot(b"a"), false, true);
    assert_eq!(REGENERATE_ON_EDIT_DEBOUNCE_INTERVAL, 2);
    let saved = BufferEvent::DirtyChanged { is_dirty: false };
    assert_eq!(blame.handle_buffer_event(saved), Action::Generate);
    let changed = BufferEvent::DirtyChanged { is_dirty: true };
    assert_eq!(blame.handle_buffer_event(changed), Action::Wait);
    assert_eq!(
        blame.handle_buffer_event(BufferEvent::Edited),
        Action::GenerateAfter { seconds: 2 }
    );
    assert_eq!(blame.handle_buffer_event(BufferEvent::Other), Action::Wait);
    blame.blur();
    assert_eq!(blame.handle_buffer_event(saved), Action::Wait);
    assert_eq!(
        blame.handle_buffer_event(BufferEvent::Edited),
        Action::GenerateAfter { seconds: 2 }
    );
    assert_eq!(blame.focus(), Action::Generate);
}

#[test]
fn project_events() {
    let (mut blame, _) = GitBlame::new(snapshot(b"a"), false, true);
    let file = ProjectEntryId { id: 3 };
    let other = ProjectEntryId { id: 4 };
    let event = ProjectEvent::WorktreeUpdatedEntries {
        buffer_entry: Some(file),
        updated: vec![other, file],
    };
    assert_eq!(blame.handle_project_event(&event), Action::Generate);
    let event =
        ProjectEvent::WorktreeUpdatedEntries { buffer_entry: Some(file), updated: vec![other] };
    assert_eq!(blame.handle_project_event(&event), Action::Wait);
    let event = ProjectEvent::WorktreeUpdatedEntries { buffer_entry: None, updated: vec![other] };
    assert_eq!(blame.handle_project_event(&event), Action::Wait);
    assert_eq!(blame.handle_project_event(&ProjectEvent::Other), Action::Wait);
}

#[test]
fn git_store_events() {
    let (mut blame, _) = GitBlame::new(snapshot(b"a"), false, true);
    let updated = GitStoreEvent::RepositoryUpdated { updated: true };
    assert_eq!(blame.handle_git_store_event(updated), Action::Generate);
    let merged = GitStoreEvent::RepositoryUpdated { updated: false };
    assert_eq!(blame.handle_git_store_event(merged), Action::Wait);
    assert_eq!(
        blame.handle_git_store_event(GitStoreEvent::RepositoryAdded),
        Action::Generate
    );
    assert_eq!(
        blame.handle_git_store_event(GitStoreEvent::RepositoryRemoved),
        Action::Generate
    );
    assert_eq!(blame.handle_git_store_event(GitStoreEvent::Other), Action::Wait);
}

#[test]
fn errors_are_shown_to_users_that_asked() {
    let (mut blame, _) = GitBlame::new(snapshot(b"a"), true, true);
    let error = "\u{3000}\t no blame\u{a0}here \r\n\u{2028}".to_string();
    assert_eq!(
        blame.finish_generate(Err(error), snapshot(b"b")),
        Generated::Toast {
            notification_id: "git-blame".to_string(),
            message: "no blame\u{a0}here".to_string(),
        }
    );
    let (mut blame, _) = GitBlame::new(snapshot(b"a"), false, true);
    let error = "no blame".to_string();
    assert_eq!(blame.finish_generate(Err(error), snapshot(b"b")), Generated::LogError);
}

#[test]
fn failed_generation_leaves_the_blame() {
    let mut buffer = TestBuffer::new("a");
    let mut blame = generated(&buffer, vec![blame_entry("aa", 0..1)]);
    assert_eq!(blame.finish_generate(Ok(None), snapshot(b"x\ny")), Generated::Nothing);
    let error = "no blame".to_string();
    assert_eq!(blame.finish_generate(Err(error), snapshot(b"x\ny")), Generated::LogError);
    assert!(blame.has_generated_entries());
    assert_blame_rows(&mut blame, &mut buffer, 0..1, vec![Some(blame_entry("aa", 0..1))]);
}

#[test]
fn edits_made_during_generation_are_applied_to_its_result() {
    let mut buffer = TestBuffer::new("a\nb");
    let (mut blame, _) = GitBlame::new(buffer.snapshot(), false, true);
    let at_start = buffer.snapshot();
    buffer.insert_at(0, 0, "new\n");
    let result = Ok(Some(read(vec![blame_entry("aa", 0..2)], &at_start)));
    blame.finish_generate(result, at_start);
    assert_blame_rows(
        &mut blame,
        &mut buffer,
        0..3,
        vec![None, Some(blame_entry("aa", 0..2)), Some(blame_entry("aa", 0..2))],
    );
}

#[test]
fn details_are_found_by_commit() {
    let start = snapshot(b"a\nb");
    let (mut blame, _) = GitBlame::new(snapshot(b"a\nb"), false, true);
    let entry = blame_entry("aa", 0..1);
    assert_eq!(blame.details_for_entry(&entry), None);
    let found = read_blame(
        Blame {
            entries: vec![blame_entry("aa", 0..1), blame_entry("bb", 1..2)],
            messages: vec![(oid("aa"), "Add a (#12)".to_string())],
            remote_url: Some("git@example.com:me/letters".to_string()),
        },
        &start,
        |url: &str| {
            assert_eq!(url, "git@example.com:me/letters");
            let remote =
                ParsedGitRemote { owner: "me".to_string(), repo: "letters".to_string() };
            Some((ProviderId { id: 5 }, remote))
        },
        |_: ProviderId, _: &ParsedGitRemote, sha: &str| format!("https://example.com/{}", sha),
        |_: ProviderId, _: &ParsedGitRemote, _: &str| None,
    );
    blame.finish_generate(Ok(Some(found)), start);
    let details = blame.details_for_entry(&entry).unwrap();
    assert_eq!(details.message, "Add a (#12)");
    assert_eq!(
        details.permalink,
        Some("https://example.com/aa00000000000000000000000000000000000000".to_string())
    );
    assert_eq!(details.remote.unwrap().host, ProviderId { id: 5 });
    assert_eq!(details.pull_request, None);
    assert_eq!(blame.details_for_entry(&blame_entry("bb", 1..2)), None);
}

#[test]
fn repository_is_asked_for_by_buffer() {
    let (blame, _) = GitBlame::new(snapshot(b"a"), false, true);
    let found = blame.repository(|buffer: BufferId| {
        if buffer == BUFFER {
            Some((RepositoryId { id: 9 }, "src/a.txt".to_string()))
        } else {
            None
        }
    });
    assert_eq!(found, Some(RepositoryId { id: 9 }));
    assert_eq!(blame.repository(|_: BufferId| None), None);
}
