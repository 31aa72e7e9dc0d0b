use own::own::{FileOwnership, LineState};
use own::tally::{group_by_dir, progress_mark, totals};

#[test]
fn owned_lines_count_reviewed_and_approved() {
    let mut f = FileOwnership::new();
    f.set_line_state(1, LineState::Reviewed);
    f.set_line_state(2, LineState::Questioned);
    f.set_line_state(3, LineState::Approved);
    f.set_line_state(4, LineState::Rejected);
    f.set_line_state(5, LineState::Approved);
    assert_eq!(f.owned_lines(), 3);
}

#[test]
fn marks_follow_how_much_is_owned() {
    assert_eq!(progress_mark(10, 10), "✓");
    assert_eq!(progress_mark(3, 10), "~");
    assert_eq!(progress_mark(0, 10), " ");
    assert_eq!(progress_mark(0, 0), " ");
}

#[test]
fn files_are_grouped_by_directory_in_name_order() {
    let scanned = vec![
        ("src".to_string(), "src/b.rs".to_string(), 10, 4),
        ("docs".to_string(), "docs/a.md".to_string(), 5, 5),
        ("src".to_string(), "src/a.rs".to_string(), 7, 0),
    ];
    let tree = group_by_dir(&scanned);
    assert_eq!(tree.len(), 2);
    assert_eq!(tree.key_at(0), "docs");
    assert_eq!(tree.value_at(0), &vec![("docs/a.md".to_string(), 5, 5)]);
    assert_eq!(tree.key_at(1), "src");
    assert_eq!(
        tree.value_at(1),
        &vec![("src/b.rs".to_string(), 10, 4), ("src/a.rs".to_string(), 7, 0)]
    );
    assert_eq!(totals(tree.value_at(1)), Some((17, 4)));
}

#[test]
fn totals_sum_lines_and_owned_lines() {
    assert_eq!(totals(&vec![]), Some((0, 0)));
    let v = vec![("a".to_string(), 3, 1), ("b".to_string(), 4, 4)];
    assert_eq!(totals(&v), Some((7, 5)));
}

#[test]
fn totals_that_overflow_are_refused() {
    let v = vec![("a".to_string(), usize::MAX, 0), ("b".to_string(), 1, 0)];
    assert_eq!(totals(&v), None);
}
