use own::tags::{generate_color, TagError, TagStore};

#[test]
fn tags_file_is_read_line_by_line() {
    let store = TagStore::load(Some("# tags\nreviewed:#00ff00\n\n  urgent:#ff0000  \nbroken line\n"));
    assert_eq!(store.tags.len(), 2);
    let text = store.serialize();
    assert_eq!(text, "reviewed:#00ff00\nurgent:#ff0000");
}

#[test]
fn no_tags_file_means_no_tags() {
    let store = TagStore::load(None);
    assert_eq!(store.tags.len(), 0);
    assert_eq!(store.serialize(), "");
}

#[test]
fn saved_tags_load_back() {
    let mut store = TagStore::new();
    store.create("zeta", Some("#123456")).unwrap();
    store.create("alpha", Some("hsl(1, 70%, 45%)")).unwrap();
    let text = store.serialize();
    assert_eq!(text, "alpha:hsl(1, 70%, 45%)\nzeta:#123456");
    let back = TagStore::load(Some(text.as_str()));
    assert_eq!(back.serialize(), text);
}

#[test]
fn creating_an_existing_tag_is_refused() {
    let mut store = TagStore::new();
    assert_eq!(store.create("r", Some("#ffffff")), Ok("#ffffff".to_string()));
    assert_eq!(store.create("r", Some("#000000")), Err(TagError::AlreadyExists));
    assert_eq!(store.serialize(), "r:#ffffff");
}

#[test]
fn deleting_a_missing_tag_is_refused() {
    let mut store = TagStore::new();
    store.create("a", Some("#010101")).unwrap();
    assert_eq!(store.delete("b"), Err(TagError::NotFound));
    assert_eq!(store.delete("a"), Ok(()));
    assert_eq!(store.serialize(), "");
}

#[test]
fn made_up_colors_are_hsl_in_range() {
    let c = generate_color("reviewed");
    assert_eq!(c, generate_color("reviewed"));
    assert!(c.starts_with("hsl(") && c.ends_with("%)"));
    let inner = &c[4..c.len() - 1];
    let parts: Vec<&str> = inner.split(", ").collect();
    assert_eq!(parts.len(), 3);
    let hue: u32 = parts[0].parse().unwrap();
    let sat: u32 = parts[1].trim_end_matches('%').parse().unwrap();
    let light: u32 = parts[2].trim_end_matches('%').parse().unwrap();
    assert!(hue < 360);
    assert!((70..=89).contains(&sat));
    assert!((45..=59).contains(&light));
    let mut store = TagStore::new();
    let made = store.create("reviewed", None).unwrap();
    assert_eq!(made, c);
}
