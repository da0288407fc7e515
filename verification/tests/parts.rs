use std::cell::RefCell;
use std::marker::PhantomData;
use std::ops::Range;

use git_blame::build_tree::{build_blame_entry_sum_tree, rows_fit};
use git_blame::commits::{
    commit_details, parse_commit_messages, CommitDetails, GitRemote, ParsedCommitMessage,
    ParsedGitRemote, ProviderId, PullRequest,
};
use git_blame::edits::{check_patch, Edit};
use git_blame::entry::{BlameEntry, Dimension, GitBlameEntry, GitBlameEntrySummary, Oid};
use git_blame::renderer::{BlameRenderer, BlameUi, BlankRenderer};
use git_blame::row_edits::find_row_edit;
use git_blame::splice::splice_entries;
use git_blame::text::{BufferId, BufferSnapshot, Point};
use git_blame::tree::SumTree;

fn snapshot(text: &str) -> BufferSnapshot {
    BufferSnapshot::new(BufferId { id: 1 }, text.as_bytes().to_vec()).unwrap()
}

fn entry(range: Range<u32>) -> BlameEntry {
    BlameEntry { range, ..Default::default() }
}

fn rows(rows: u32, blame: Option<BlameEntry>) -> GitBlameEntry {
    GitBlameEntry { rows, blame }
}

fn tree(items: Vec<GitBlameEntry>) -> SumTree {
    let mut tree = SumTree::new();
    tree.extend(items);
    tree
}

#[test]
fn commits_are_written_in_hexadecimal() {
    let oid = Oid { high: 0x0123_4567_89ab_cdef_0011_2233_4455_6677, low: 0x8899_aabb };
    assert_eq!(oid.to_string(), "0123456789abcdef001122334455667788" .to_string() + "99aabb");
    assert_eq!(Oid::default().to_string(), "0".repeat(40));
    let last = Oid { high: u128::MAX, low: u32::MAX };
    assert_eq!(last.to_string(), "f".repeat(40));
}

#[test]
fn ranges_that_end_before_they_start_are_empty() {
    assert_eq!(entry(2..5).len(), 3);
    assert_eq!(entry(5..5).len(), 0);
    assert_eq!(entry(5..2).len(), 0);
}

#[test]
fn summaries_add_up() {
    let mut sum = GitBlameEntrySummary::zero();
    sum.add_summary(&rows(3, None).summary());
    sum.add_summary(&rows(4, Some(entry(0..4))).summary());
    assert_eq!(sum.rows(), 7);
    let mut position: u32 = Dimension::zero();
    assert_eq!(position, 0);
    position.add_summary(&sum);
    assert_eq!(position, 7);
}

#[test]
fn points_of_a_text() {
    let text = snapshot("ab\n\nc\u{e9}d\n");
    assert_eq!(text.remote_id(), BufferId { id: 1 });
    assert_eq!(text.offset_to_point(0), Point { row: 0, column: 0 });
    assert_eq!(text.offset_to_point(2), Point { row: 0, column: 2 });
    assert_eq!(text.offset_to_point(3), Point { row: 1, column: 0 });
    assert_eq!(text.offset_to_point(4), Point { row: 2, column: 0 });
    assert_eq!(text.offset_to_point(7), Point { row: 2, column: 3 });
    assert_eq!(text.offset_to_point(9), Point { row: 3, column: 0 });
    assert_eq!(text.offset_to_point(100), Point { row: 3, column: 0 });
    assert_eq!(text.max_point(), Point { row: 3, column: 0 });
    assert_eq!(text.line_len(0), 2);
    assert_eq!(text.line_len(1), 0);
    assert_eq!(text.line_len(2), 4);
    assert_eq!(text.line_len(3), 0);
    assert!(text.newline_at(2));
    assert!(!text.newline_at(4));
    assert!(!text.newline_at(9));
    assert_eq!(snapshot("").max_point(), Point { row: 0, column: 0 });
}

#[test]
fn patches_are_checked() {
    let old = snapshot("abcdef");
    let new = snapshot("aXcdYf");
    let edit = |old: Range<usize>, new: Range<usize>| Edit { old, new };
    assert!(check_patch(&old, &new, &vec![edit(1..2, 1..2), edit(4..5, 4..5)]));
    assert!(check_patch(&old, &new, &vec![edit(0..6, 0..6)]));
    assert!(check_patch(&old, &old, &vec![]));
    assert!(!check_patch(&old, &new, &vec![]));
    assert!(!check_patch(&old, &new, &vec![edit(1..2, 1..2)]));
    assert!(!check_patch(&old, &new, &vec![edit(4..5, 4..5), edit(1..2, 1..2)]));
    assert!(!check_patch(&old, &new, &vec![edit(0..3, 0..3), edit(3..6, 3..6)]));
    assert!(!check_patch(&old, &new, &vec![edit(0..7, 0..7)]));
    let reversed = Range { start: 5, end: 4 };
    assert!(!check_patch(&old, &new, &vec![edit(reversed.clone(), reversed)]));
}

fn touched(old: &str, range: Range<usize>, inserted: &str) -> (Range<u32>, Range<u32>) {
    let mut new = old.to_string();
    new.replace_range(range.clone(), inserted);
    let edit = Edit { new: range.start..range.start + inserted.len(), old: range };
    let found = find_row_edit(&snapshot(old), &snapshot(&new), &edit);
    (found.old, found.new)
}

#[test]
fn rows_that_an_edit_touches() {
    // In the middle of a row
    assert_eq!(touched("ab\ncd\nef", 4..4, "X"), (1..2, 1..2));
    // At the end of a row
    assert_eq!(touched("ab\ncd\nef", 5..5, "X"), (1..2, 1..2));
    // At the start of a row
    assert_eq!(touched("ab\ncd\nef", 3..3, "X"), (1..2, 1..2));
    // A newline at the end of a row
    assert_eq!(touched("ab\ncd\nef", 5..5, "\n"), (2..2, 2..3));
    // A newline at the start of a row
    assert_eq!(touched("ab\ncd\nef", 3..3, "\n"), (1..1, 1..2));
    // A newline in the middle of a row
    assert_eq!(touched("ab\ncd\nef", 4..4, "\n"), (1..2, 1..3));
    // Whole rows, removed and replaced
    assert_eq!(touched("ab\ncd\nef", 3..6, ""), (1..2, 1..1));
    assert_eq!(touched("ab\ncd\nef", 3..6, "x\ny\n"), (1..2, 1..3));
    // Rows joined
    assert_eq!(touched("ab\ncd\nef", 2..3, ""), (0..2, 0..1));
    // From the end of a row through an empty one
    assert_eq!(touched("ab\n\nef", 2..3, ""), (1..2, 1..1));
    // Text in an empty row
    assert_eq!(touched("ab\n\nef", 3..3, "X"), (2..2, 2..2));
    // The whole text
    assert_eq!(touched("ab\ncd", 1..4, "\n"), (0..2, 0..2));
}

fn row_edit(old: Range<u32>, new: Range<u32>) -> Edit<u32> {
    Edit { old, new }
}

#[test]
fn row_edits_splice_entries() {
    let entries = tree(vec![rows(4, Some(entry(0..4))), rows(2, Some(entry(4..6)))]);
    let spliced = splice_entries(&entries, &vec![row_edit(1..2, 1..4), row_edit(3..5, 5..5)]);
    assert_eq!(
        *spliced.items(),
        vec![
            rows(1, Some(entry(0..4))),
            rows(3, None),
            rows(1, Some(entry(0..4))),
            rows(1, Some(entry(4..6))),
        ]
    );
    assert_eq!(spliced.summary().rows(), 6);
}

#[test]
fn row_edits_that_touch_are_merged() {
    let entries = tree(vec![rows(6, Some(entry(0..6)))]);
    let edits = vec![row_edit(1..2, 1..2), row_edit(2..3, 2..4), row_edit(2..4, 3..5)];
    let spliced = splice_entries(&entries, &edits);
    assert_eq!(
        *spliced.items(),
        vec![rows(1, Some(entry(0..6))), rows(4, None), rows(2, Some(entry(0..6)))]
    );
}

#[test]
fn no_row_edits_leave_the_entries() {
    let entries = tree(vec![rows(0, Some(entry(0..0))), rows(2, None)]);
    let spliced = splice_entries(&entries, &vec![]);
    assert_eq!(*spliced.items(), *entries.items());
}

#[test]
fn row_edits_past_the_last_row() {
    let entries = tree(vec![rows(1, Some(entry(0..1)))]);
    let spliced = splice_entries(&entries, &vec![row_edit(3..4, 3..5)]);
    assert_eq!(
        *spliced.items(),
        vec![rows(1, Some(entry(0..1))), rows(2, None), rows(2, None)]
    );
}

#[test]
fn entries_without_rows_before_an_edit_are_kept() {
    let entries = tree(vec![
        rows(0, Some(entry(0..0))),
        rows(1, None),
        rows(0, Some(entry(1..1))),
        rows(2, Some(entry(1..3))),
    ]);
    let spliced = splice_entries(&entries, &vec![row_edit(1..2, 1..2)]);
    assert_eq!(
        *spliced.items(),
        vec![
            rows(0, Some(entry(0..0))),
            rows(1, None),
            rows(0, Some(entry(1..1))),
            rows(1, None),
            rows(1, Some(entry(1..3))),
        ]
    );
}

#[test]
fn cursors_seek_by_row() {
    let entries = tree(vec![rows(2, None), rows(0, None), rows(3, Some(entry(2..5)))]);
    let mut cursor = entries.cursor();
    assert_eq!((cursor.start(), cursor.end()), (0, 2));
    cursor.seek_forward(1);
    assert_eq!((cursor.start(), cursor.end()), (0, 2));
    let passed = cursor.slice(3);
    assert_eq!(passed.items().len(), 2);
    assert_eq!((cursor.start(), cursor.end()), (2, 5));
    assert_eq!(cursor.item(), Some(&rows(3, Some(entry(2..5)))));
    cursor.next();
    assert_eq!((cursor.start(), cursor.end()), (5, 5));
    assert_eq!(cursor.item(), None);
    cursor.next();
    cursor.seek(1);
    assert_eq!((cursor.start(), cursor.end()), (0, 2));
    let rest = cursor.suffix();
    assert_eq!(rest.summary().rows(), 5);
    assert_eq!(cursor.start(), 5);
}

#[test]
fn trees_are_built_of_blamed_ranges() {
    let built = build_blame_entry_sum_tree(vec![entry(1..3), entry(3..4), entry(6..7)], 9);
    assert_eq!(
        *built.items(),
        vec![
            rows(1, None),
            rows(2, Some(entry(1..3))),
            rows(1, Some(entry(3..4))),
            rows(2, None),
            rows(1, Some(entry(6..7))),
            rows(3, None),
        ]
    );
    assert_eq!(built.summary().rows(), 10);
}

#[test]
fn trees_are_built_of_ranges_out_of_order() {
    let built = build_blame_entry_sum_tree(vec![entry(2..4), entry(1..2), entry(5..5)], 1);
    assert_eq!(
        *built.items(),
        vec![
            rows(2, None),
            rows(2, Some(entry(2..4))),
            rows(1, Some(entry(1..2))),
            rows(3, None),
            rows(0, Some(entry(5..5))),
        ]
    );
    let built = build_blame_entry_sum_tree(vec![], 0);
    assert_eq!(*built.items(), vec![rows(1, None)]);
}

#[test]
fn rows_are_counted_before_a_tree_is_built() {
    assert!(rows_fit(&vec![entry(0..5)], 9));
    assert!(rows_fit(&vec![entry(0..u32::MAX)], 0));
    assert!(!rows_fit(&vec![entry(0..u32::MAX), entry(0..1)], 0));
    assert!(!rows_fit(&vec![], u32::MAX));
    assert!(rows_fit(&vec![], u32::MAX - 1));
}

fn parsed(message: &str) -> ParsedCommitMessage {
    commit_details(message.to_string(), None, None, None)
}

#[test]
fn details_of_a_commit() {
    let remote = (
        ProviderId { id: 2 },
        ParsedGitRemote { owner: "me".to_string(), repo: "letters".to_string() },
    );
    let request = || PullRequest { number: 4, url: "u".to_string() };
    let details = commit_details(
        "m".to_string(),
        Some(&remote),
        Some("p".to_string()),
        Some(request()),
    );
    assert_eq!(
        details,
        ParsedCommitMessage {
            message: "m".to_string(),
            permalink: Some("p".to_string()),
            pull_request: Some(request()),
            remote: Some(GitRemote {
                host: ProviderId { id: 2 },
                owner: "me".to_string(),
                repo: "letters".to_string(),
            }),
        }
    );
    assert_eq!(details.clone(), details);
    assert_eq!(parsed("m").remote, None);
}

#[test]
fn details_are_kept_by_commit() {
    let first = Oid { high: 1, low: 1 };
    let second = Oid { high: 1, low: 2 };
    let mut details = CommitDetails::new();
    assert_eq!(details.get(&first), None);
    details.insert(first, parsed("one"));
    details.insert(second, parsed("two"));
    details.insert(first, parsed("three"));
    assert_eq!(details.get(&first), Some(&parsed("three")));
    assert_eq!(details.get(&second), Some(&parsed("two")));
}

#[test]
fn messages_without_a_known_remote() {
    let oid = Oid { high: 3, low: 0 };
    let asked = RefCell::new(Vec::new());
    for remote_url in vec![None, Some("file:///tmp".to_string())] {
        let details = parse_commit_messages(
            vec![(oid, "m".to_string())],
            remote_url,
            |url: &str| {
                asked.borrow_mut().push(url.to_string());
                None
            },
            |_: ProviderId, _: &ParsedGitRemote, _: &str| panic!("there is no provider"),
            |_: ProviderId, _: &ParsedGitRemote, _: &str| panic!("there is no provider"),
        );
        assert_eq!(details.get(&oid), Some(&parsed("m")));
    }
    assert_eq!(*asked.borrow(), vec!["file:///tmp".to_string()]);
}

#[test]
fn messages_with_a_known_remote() {
    let first = Oid { high: 1 << 124, low: 0 };
    let second = Oid { high: 0, low: 0xf };
    let details = parse_commit_messages(
        vec![
            (first, "old".to_string()),
            (second, "two".to_string()),
            (first, "new (#3)".to_string()),
        ],
        Some("url".to_string()),
        |_: &str| {
            let remote = ParsedGitRemote { owner: "o".to_string(), repo: "r".to_string() };
            Some((ProviderId { id: 6 }, remote))
        },
        |provider: ProviderId, remote: &ParsedGitRemote, sha: &str| {
            format!("{}/{}/{}/{}", provider.id, remote.owner, remote.repo, sha)
        },
        |_: ProviderId, _: &ParsedGitRemote, message: &str| {
            message.find('#').map(|_| PullRequest { number: 3, url: message.to_string() })
        },
    );
    let found = details.get(&first).unwrap();
    assert_eq!(found.message, "new (#3)");
    assert_eq!(found.permalink, Some(format!("6/o/r/1{}", "0".repeat(39))));
    assert_eq!(
        found.pull_request,
        Some(PullRequest { number: 3, url: "new (#3)".to_string() })
    );
    let found = details.get(&second).unwrap();
    assert_eq!(found.permalink, Some(format!("6/o/r/{}f", "0".repeat(39))));
    assert_eq!(found.pull_request, None);
    assert_eq!(
        found.remote,
        Some(GitRemote {
            host: ProviderId { id: 6 },
            owner: "o".to_string(),
            repo: "r".to_string(),
        })
    );
}

struct TestUi;

impl BlameUi for TestUi {
    type TextStyle = ();
    type AnyElement = String;
    type Repository = ();
    type Workspace = ();
    type Editor = ();
    type Hsla = ();
    type ScrollHandle = ();
    type Markdown = ();
    type Window = u8;
    type App = u8;
}

#[test]
fn blank_renderer_draws_nothing() {
    let renderer: BlankRenderer<TestUi> = BlankRenderer { ui: PhantomData };
    let mut cx = 1;
    let mut window = 2;
    assert_eq!(renderer.max_author_length(), 0);
    let drawn =
        renderer.render_blame_entry(&(), entry(0..1), None, (), (), (), 0, (), &mut cx);
    assert_eq!(drawn, None);
    assert_eq!(renderer.render_inline_blame_entry(&(), entry(0..1), &mut cx), None);
    let drawn = renderer.render_blame_entry_popover(
        entry(0..1),
        (),
        None,
        (),
        (),
        (),
        &mut window,
        &mut cx,
    );
    assert_eq!(drawn, None);
    renderer.open_blame_commit(entry(0..1), (), (), &mut window, &mut cx);
    assert_eq!((cx, window), (1, 2));
}
