use own::store::{count_non_blank, Annotation, FileOwnership, LineEntry, Store};

#[test]
fn line_entries_read_and_write() {
    let e = LineEntry::parse("5:r, approved :abc123").unwrap();
    assert_eq!(e.line, 5);
    assert_eq!(e.tags, vec!["r".to_string(), "approved".to_string()]);
    assert_eq!(e.content_hash.as_deref(), Some("abc123"));
    assert_eq!(e.serialize(), "5:r,approved:abc123");
    let plain = LineEntry::parse("7:r").unwrap();
    assert_eq!(plain.content_hash, None);
    assert_eq!(plain.serialize(), "7:r");
    assert!(LineEntry::parse("x:r").is_none());
    assert!(LineEntry::parse("12").is_none());
}

#[test]
fn annotations_read_and_write() {
    let a = Annotation::parse("@5-10:This code looks correct").unwrap();
    assert_eq!((a.start_line, a.end_line), (5, 10));
    assert_eq!(a.note, "This code looks correct");
    assert_eq!(a.serialize(), "@5-10:This code looks correct");
    assert!(Annotation::parse("5-10:note").is_none());
    assert!(Annotation::parse("@5:note").is_none());
    assert!(Annotation::parse("@5-x:note").is_none());
}

#[test]
fn record_reads_back_what_it_wrote() {
    let text = "snapshot: 1f2e\n# comment\n1:r:aa\n3:r,a\n@2-4:looks fine";
    let rec = FileOwnership::parse(text);
    assert_eq!(rec.snapshot.as_deref(), Some("1f2e"));
    assert_eq!(rec.entries.len(), 2);
    assert_eq!(rec.annotations.len(), 1);
    let out = rec.serialize();
    assert_eq!(out, "snapshot: 1f2e\n1:r:aa\n3:r,a\n@2-4:looks fine");
    assert_eq!(FileOwnership::parse(&out).serialize(), out);
}

#[test]
fn setting_tags_keeps_or_drops_the_entry() {
    let mut rec = FileOwnership::parse("2:r:oldhash");
    rec.set_line(2, vec!["r".to_string(), "a".to_string()], None);
    assert_eq!(rec.entries[&2].content_hash.as_deref(), Some("oldhash"));
    rec.set_line(2, vec!["r".to_string()], Some("let x = 1;"));
    let h = rec.entries[&2].content_hash.clone().unwrap();
    assert_ne!(h, "oldhash");
    assert_eq!(FileOwnership::parse("").serialize(), "");
    rec.set_line(2, vec![], None);
    assert!(rec.entries.is_empty());
}

#[test]
fn a_note_is_read_back_and_replaces_overlapping_ones() {
    let mut rec = FileOwnership::parse("@1-3:first\n@10-12:far");
    rec.set_annotation(2, 5, "second".to_string());
    assert_eq!(rec.get_annotation(3).unwrap().note, "second");
    assert_eq!(rec.get_annotation(11).unwrap().note, "far");
    assert!(rec.get_annotation(1).is_none());
    rec.remove_annotation(4);
    assert!(rec.get_annotation(3).is_none());
    assert_eq!(rec.serialize(), "@10-12:far");
}

#[test]
fn staleness_follows_the_snapshot() {
    let mut rec = FileOwnership::parse("");
    assert!(!rec.is_stale(Some("fn main() {}")));
    rec.update_snapshot(Some("fn main() {}"));
    assert_eq!(rec.snapshot, FileOwnership::compute_snapshot(Some("fn main() {}")));
    assert!(!rec.is_stale(Some("fn main() {}")));
    assert!(rec.is_stale(Some("fn main() { }")));
    assert!(rec.is_stale(None));
    assert_eq!(FileOwnership::compute_snapshot(None), None);
}

#[test]
fn entries_follow_their_lines_after_edits() {
    let mut rec = FileOwnership::parse("");
    rec.set_line(1, vec!["r".to_string()], Some("alpha"));
    rec.set_line(2, vec!["a".to_string()], Some("beta"));
    rec.update_snapshot(Some("alpha\nbeta"));
    let new_lines = vec!["new".to_string(), "alpha".to_string(), "beta".to_string()];
    rec.reanchor(&new_lines);
    assert_eq!(rec.entries.len(), 2);
    assert_eq!(rec.entries[&2].tags, vec!["r".to_string()]);
    assert_eq!(rec.entries[&3].tags, vec!["a".to_string()]);
    assert_eq!(rec.entries[&3].line, 3);
}

#[test]
fn reanchoring_without_snapshot_changes_nothing() {
    let mut rec = FileOwnership::parse("1:r:zz");
    rec.reanchor(&vec!["x".to_string()]);
    assert_eq!(rec.serialize(), "1:r:zz");
}

#[test]
fn reviewed_lines_skip_blank_source_lines() {
    let rec = FileOwnership::parse("1:r\n2:a\n3:q\n4:r");
    let src = vec!["fn a() {".to_string(), "   ".to_string(), "}".to_string(), "x".to_string()];
    assert_eq!(rec.reviewed_lines(&src), 2);
    assert_eq!(count_non_blank(&src), 3);
}

#[test]
fn store_loads_own_files_by_source_path() {
    let files = vec![
        ("src/main.rs.own".to_string(), "1:r".to_string()),
        ("notes.txt".to_string(), "2:r".to_string()),
        (".own".to_string(), "3:r".to_string()),
    ];
    let mut store = Store::load(files);
    assert_eq!(store.files.len(), 1);
    assert_eq!(store.get_file("src/main.rs").entries.len(), 1);
    assert_eq!(store.get_file("other.rs").entries.len(), 0);
    store.get_file_mut("other.rs").set_line(4, vec!["r".to_string()], None);
    assert_eq!(store.files.len(), 2);
}

#[test]
fn notes_section_shows_source_and_note() {
    let rec = FileOwnership::parse("@2-3:check this\n@9-9:past the end");
    let src = vec!["a".to_string(), "b".to_string(), "c".to_string()];
    let out = own::report::notes_report("src/x.rs", &rec, &src);
    let expected = vec![
        "### src/x.rs", "",
        "**Lines 2-3:**", "", "```", "b", "c", "```", "", "> check this", "",
        "**Lines 9-9:**", "", "```", "```", "", "> past the end", "",
    ];
    assert_eq!(out, expected);
}

#[test]
fn readme_record_with_a_range_of_lines() {
    let rec = FileOwnership::parse("1:reviewed\n5-10:approved\n@5-10:This code looks correct\n");
    assert_eq!(rec.entries.len(), 7);
    assert_eq!(rec.entries[&7].tags, vec!["approved".to_string()]);
    assert_eq!(rec.entries[&7].line, 7);
    assert_eq!(rec.get_annotation(6).unwrap().note, "This code looks correct");
    assert_eq!(
        rec.serialize(),
        "1:reviewed\n5:approved\n6:approved\n7:approved\n8:approved\n9:approved\n10:approved\n@5-10:This code looks correct"
    );
    let odd = FileOwnership::parse("9-7:r\n3-x:r");
    assert!(odd.entries.is_empty());
}

#[test]
fn a_saved_store_loads_back() {
    let mut store = Store::new();
    store.get_file_mut("src/a.rs").set_line(3, vec!["r".to_string(), "approved".to_string()], Some("x"));
    store.get_file_mut("src/a.rs").set_annotation(3, 4, "fine".to_string());
    store.get_file_mut("lib.rs").set_line(1, vec!["q".to_string()], None);
    let mut files = Vec::new();
    for i in 0..store.files.len() {
        files.push((format!("{}.own", store.files.key_at(i)), store.files.value_at(i).serialize()));
    }
    let back = Store::load(files);
    assert_eq!(back.files.len(), 2);
    for i in 0..store.files.len() {
        let name = store.files.key_at(i);
        assert_eq!(back.get_file(name).serialize(), store.get_file(name).serialize());
    }
}

#[test]
fn an_entry_with_a_colon_in_its_hash_reads_back() {
    let e = LineEntry::parse("4:r:ab:cd").unwrap();
    assert_eq!(e.content_hash.as_deref(), Some("ab:cd"));
    assert_eq!(LineEntry::parse(&e.serialize()).unwrap().serialize(), "4:r:ab:cd");
}

#[test]
fn a_saved_store_reloads_as_each_record_reads_back() {
    let mut store = Store::new();
    store.get_file_mut("a.rs").set_line(1, vec!["x,y".to_string()], None);
    let mut files = Vec::new();
    for i in 0..store.files.len() {
        files.push((format!("{}.own", store.files.key_at(i)), store.files.value_at(i).serialize()));
    }
    let back = Store::load(files);
    let expected = FileOwnership::parse(&store.get_file("a.rs").serialize());
    assert_eq!(back.get_file("a.rs").serialize(), expected.serialize());
    assert_eq!(back.get_file("a.rs").entries[&1].tags, vec!["x".to_string(), "y".to_string()]);
}
