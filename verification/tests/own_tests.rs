use own::extract::extract_section;
use own::line_review::{LineAction, ReviewState as LineReview};
use own::own::{Annotation, ExtractState, FileOwnership, LineState, OwnershipStore, StateColor};
use own::review::Key;

const SAMPLE: &str = "# file: src/main.rs\n# snapshot: abc123\n3-6:r\n10-15:q:Why use String instead of &str here?\n50:a:Approved after discussion\n";

#[test]
fn states_have_letters_and_labels() {
    for s in [LineState::Reviewed, LineState::Questioned, LineState::Approved, LineState::Rejected] {
        assert_eq!(LineState::from_char(s.to_char()), Some(s));
    }
    assert_eq!(LineState::from_char('z'), None);
    assert_eq!(LineState::Rejected.label(), "REJECTED");
    assert_eq!(ExtractState::Approved.target_state(), LineState::Approved);
    assert_eq!(ExtractState::Rejected.label(), "Rejected");
}

#[test]
fn own_file_is_read() {
    assert!(FileOwnership::can_parse(SAMPLE));
    let rec = FileOwnership::parse(SAMPLE);
    assert_eq!(rec.snapshot_hash.as_deref(), Some("abc123"));
    assert_eq!(rec.get_line_state(4), Some(&LineState::Reviewed));
    assert_eq!(rec.get_line_state(12), Some(&LineState::Questioned));
    assert_eq!(rec.get_line_state(50), Some(&LineState::Approved));
    assert_eq!(rec.get_line_state(7), None);
    assert_eq!(rec.annotations.len(), 2);
    assert_eq!(rec.annotations[0].note, "Why use String instead of &str here?");
    assert_eq!(rec.state_counts(), (4, 6, 1, 0));
}

#[test]
fn own_file_is_written_in_runs() {
    let rec = FileOwnership::parse(SAMPLE);
    assert_eq!(
        rec.group_into_ranges(),
        vec![(3, 6, LineState::Reviewed), (10, 15, LineState::Questioned), (50, 50, LineState::Approved)]
    );
    assert_eq!(
        rec.serialize("src/main.rs"),
        "# file: src/main.rs\n# snapshot: abc123\n\n3-6:r\n10-15:q:Why use String instead of &str here?\n50-50:a:Approved after discussion"
    );
}

#[test]
fn written_own_file_reads_back() {
    let rec = FileOwnership::parse(SAMPLE);
    let text = rec.serialize("src/main.rs");
    let back = FileOwnership::parse(&text);
    assert_eq!(back.serialize("src/main.rs"), text);
    assert_eq!(back.state_counts(), rec.state_counts());
    assert_eq!(back.snapshot_hash, rec.snapshot_hash);
    assert_eq!(back.annotations.len(), 2);
    assert_eq!(back.annotations[1].note, "Approved after discussion");
}

#[test]
fn lines_can_be_set_and_cleared() {
    let mut rec = FileOwnership::new();
    rec.set_line_state(2, LineState::Rejected);
    rec.set_line_state(3, LineState::Rejected);
    rec.set_line_state(4, LineState::Approved);
    assert_eq!(rec.group_into_ranges(), vec![(2, 3, LineState::Rejected), (4, 4, LineState::Approved)]);
    rec.clear_line_state(3);
    assert_eq!(rec.group_into_ranges(), vec![(2, 2, LineState::Rejected), (4, 4, LineState::Approved)]);
}

#[test]
fn extract_reports_notes_then_plain_runs() {
    let rec = FileOwnership::parse("20-25:x\n30:x:bad idea\n31:r\n");
    let ranges = rec.extract_ranges(LineState::Rejected);
    assert_eq!(ranges, vec![(30, 30, "bad idea".to_string()), (20, 25, String::new())]);
    assert!(rec.extract_ranges(LineState::Approved).is_empty());
    let source: Vec<String> = (1..=30).map(|i| format!("line {}", i)).collect();
    let out = extract_section("src/a.rs", "Rejected", &ranges, &source);
    let expected = vec![
        "## src/a.rs", "",
        "### Rejected Lines 30-30", "```rust", "line 30", "```", "> **Annotation:** bad idea", "",
        "### Rejected Lines 20-25", "```rust", "line 20", "line 21", "line 22", "line 23", "line 24",
        "line 25", "```", "",
    ];
    assert_eq!(out, expected);
}

#[test]
fn changed_file_keeps_states_of_moved_lines() {
    let mut store = OwnershipStore::load(vec![("a.rs.own".to_string(), "1:r\n2:q\n".to_string())]);
    assert_eq!(store.file_stats("a.rs"), (1, 1, 0, 0));
    let bytes = b"y\nz\nx".to_vec();
    store.migrate_ownership("a.rs", "x\ny", "y\nz\nx", &bytes);
    let rec = store.get_file("a.rs");
    assert_eq!(rec.get_line_state(1), Some(&LineState::Questioned));
    assert_eq!(rec.get_line_state(2), None);
    assert_eq!(rec.get_line_state(3), Some(&LineState::Reviewed));
    assert_eq!(rec.snapshot_hash, Some(OwnershipStore::compute_hash(&bytes)));
    assert!(!store.has_changed("a.rs", &bytes));
    assert!(store.has_changed("a.rs", &b"other".to_vec()));
    assert!(store.has_changed("b.rs", &bytes));
}

#[test]
fn unchanged_file_keeps_every_state() {
    let mut store = OwnershipStore::load(vec![("a.rs.own".to_string(), "1-2:a\n3:x\n".to_string())]);
    store.migrate_ownership("a.rs", "p\nq\np", "p\nq\np", &b"p\nq\np".to_vec());
    assert_eq!(store.file_stats("a.rs"), (0, 0, 2, 1));
}

#[test]
fn lines_before_an_edit_keep_their_states_and_new_text_is_unreviewed() {
    let mut store = OwnershipStore::load(vec![("a.rs.own".to_string(), "1:r\n2:a\n3:q\n4:x\n".to_string())]);
    store.migrate_ownership("a.rs", "a\nb\nc\nd", "a\nb\nNEW\nc\nb", &b"a\nb\nNEW\nc\nb".to_vec());
    let rec = store.get_file("a.rs");
    assert_eq!(rec.get_line_state(1), Some(&LineState::Reviewed));
    assert_eq!(rec.get_line_state(2), Some(&LineState::Approved));
    assert_eq!(rec.get_line_state(3), None);
    assert_eq!(rec.get_line_state(4), Some(&LineState::Questioned));
    // a second copy of "b" has no old copy to take a state from; "d" was deleted
    assert_eq!(rec.get_line_state(5), None);
    assert_eq!(store.file_stats("a.rs"), (1, 1, 1, 0));
}

#[test]
fn records_can_be_listed_and_dropped() {
    let mut store = OwnershipStore::load(vec![
        ("src/a.rs.own".to_string(), "1:r".to_string()),
        ("src/b.rs.own".to_string(), "1:r".to_string()),
        ("lib/c.rs.own".to_string(), "1:r".to_string()),
    ]);
    assert_eq!(store.files_under("src/"), vec!["src/a.rs".to_string(), "src/b.rs".to_string()]);
    assert!(store.untrack("src/a.rs"));
    assert!(!store.untrack("src/a.rs"));
    assert_eq!(store.files_under(""), vec!["lib/c.rs".to_string(), "src/b.rs".to_string()]);
}

#[test]
fn line_review_keys_mark_lines() {
    let store = OwnershipStore::load(vec![]);
    let content = "a\nb\nc";
    let mut s = LineReview::new("main".to_string(), content, &content.as_bytes().to_vec(), store);
    assert!(s.changed_warning);
    assert_eq!(s.handle_key(Key::Char('r')), LineAction::Continue);
    assert_eq!(s.handle_key(Key::Char('Q')), LineAction::Continue);
    assert_eq!(s.cursor, 2);
    assert_eq!(s.handle_key(Key::Char('x')), LineAction::Continue);
    assert_eq!(s.cursor, 2);
    s.handle_key(Key::Char('k'));
    s.handle_key(Key::Char('Q'));
    assert_eq!(s.store.file_stats("main"), (1, 0, 0, 1));
    s.handle_key(Key::Char('u'));
    assert_eq!(s.store.file_stats("main"), (1, 0, 0, 0));
    s.handle_key(Key::Char('g'));
    assert_eq!(s.current_line_number(), 1);
    s.handle_key(Key::Char('G'));
    assert_eq!(s.current_line_number(), 3);
    assert_eq!(s.handle_key(Key::Char('s')), LineAction::Save);
    assert_eq!(s.handle_key(Key::Esc), LineAction::Quit);
}

#[test]
fn each_state_has_its_color() {
    assert_eq!(LineState::Reviewed.color(), StateColor::Green);
    assert_eq!(LineState::Questioned.color(), StateColor::Yellow);
    assert_eq!(LineState::Approved.color(), StateColor::Cyan);
    assert_eq!(LineState::Rejected.color(), StateColor::Red);
}

#[test]
fn one_line_runs_are_written_as_ranges() {
    let mut fo = FileOwnership::new();
    fo.snapshot_hash = Some("abc".to_string());
    fo.set_line_state(1, LineState::Reviewed);
    fo.set_line_state(2, LineState::Reviewed);
    fo.set_line_state(4, LineState::Questioned);
    assert_eq!(fo.serialize("src/main.rs"), "# file: src/main.rs\n# snapshot: abc\n\n1-2:r\n4-4:q");
}

#[test]
fn compute_hash_is_the_sha256_digest() {
    assert_eq!(
        OwnershipStore::compute_hash(&b"hello world".to_vec()),
        "b94d27b9934d3e08a52e52d7da7dabfac484efe37a5380ee9088f7ace2efcde9"
    );
    assert_eq!(
        OwnershipStore::compute_hash(&Vec::new()),
        "e3b0c44298fc1c149afbf4c8996fb92427ae41e4649b934ca495991b7852b855"
    );
}

#[test]
fn notes_on_runs_read_back_as_the_same_set() {
    let mut fo = FileOwnership::new();
    fo.snapshot_hash = Some("abc".to_string());
    fo.set_line_state(1, LineState::Reviewed);
    fo.set_line_state(2, LineState::Reviewed);
    fo.set_line_state(4, LineState::Questioned);
    fo.annotations.push(Annotation { start_line: 4, end_line: 4, state: LineState::Questioned, note: "why?".to_string() });
    fo.annotations.push(Annotation { start_line: 1, end_line: 2, state: LineState::Reviewed, note: "ok".to_string() });
    let text = fo.serialize("src/main.rs");
    assert_eq!(text, "# file: src/main.rs\n# snapshot: abc\n\n1-2:r:ok\n4-4:q:why?");
    let back = FileOwnership::parse(&text);
    assert_eq!(back.snapshot_hash, fo.snapshot_hash);
    assert_eq!(back.state_counts(), (2, 1, 0, 0));
    let mut got: Vec<(usize, usize, String)> = back.annotations.iter().map(|a| (a.start_line, a.end_line, a.note.clone())).collect();
    got.sort();
    assert_eq!(got, vec![(1, 2, "ok".to_string()), (4, 4, "why?".to_string())]);
}

#[test]
fn a_path_ending_in_a_carriage_return_still_reads_back() {
    let mut fo = FileOwnership::new();
    fo.set_line_state(2, LineState::Approved);
    let text = fo.serialize("odd\r");
    assert_eq!(text, "# file: odd\r\n\n2-2:a");
    let back = FileOwnership::parse(&text);
    assert_eq!(back.state_counts(), (0, 0, 1, 0));
    assert_eq!(back.get_line_state(2), Some(&LineState::Approved));
    assert_eq!(back.snapshot_hash, None);
}
