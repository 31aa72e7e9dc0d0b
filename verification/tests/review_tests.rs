use own::review::{Action, Key, Mode, ReviewState};
use own::store::Store;
use own::tags::TagStore;
use own::screen::{note_mark, picker_mark, selection_label, state_mark};
use own::own::LineState;

fn session() -> ReviewState {
    let tags = TagStore::load(Some("Bug:#ff0000\nreviewed:#00ff00\n"));
    ReviewState::new("src/a.rs".to_string(), "l1\nl2\nl3", Store::new(), tags)
}

fn keys(s: &mut ReviewState, text: &str) -> Action {
    let mut last = Action::Continue;
    for c in text.chars() {
        last = s.handle_key(Key::Char(c));
    }
    last
}

#[test]
fn picking_a_tag_then_toggling_it() {
    let mut s = session();
    assert!(!s.is_stale);
    assert_eq!(s.handle_key(Key::Char('t')), Action::Continue);
    assert_eq!(s.mode, Mode::SelectTag);
    keys(&mut s, "RE");
    assert_eq!(s.get_filtered_tags(), vec!["reviewed".to_string()]);
    s.handle_key(Key::Enter);
    assert_eq!(s.mode, Mode::Normal);
    assert_eq!(s.last_tag.as_deref(), Some("reviewed"));
    s.handle_key(Key::Char('t'));
    assert_eq!(s.get_line_tags(), vec!["reviewed".to_string()]);
    s.handle_key(Key::Char('t'));
    assert!(s.get_line_tags().is_empty());
}

#[test]
fn picker_filter_ignores_case_and_cursor_stays_in_list() {
    let mut s = session();
    s.handle_key(Key::Char('T'));
    assert_eq!(s.get_filtered_tags(), vec!["Bug".to_string(), "reviewed".to_string()]);
    s.handle_key(Key::Down);
    s.handle_key(Key::Down);
    s.handle_key(Key::Down);
    assert_eq!(s.tag_cursor, 1);
    s.handle_key(Key::Up);
    assert_eq!(s.tag_cursor, 0);
    keys(&mut s, "bU");
    assert_eq!(s.get_filtered_tags(), vec!["Bug".to_string()]);
    s.handle_key(Key::Backspace);
    assert_eq!(s.tag_filter, vec!['b']);
    s.handle_key(Key::Esc);
    assert_eq!(s.mode, Mode::Normal);
    assert_eq!(s.last_tag, None);
}

#[test]
fn selection_tags_every_line_then_untags_them() {
    let mut s = session();
    s.handle_key(Key::Char('T'));
    keys(&mut s, "bug");
    s.handle_key(Key::Enter);
    s.handle_key(Key::Char('v'));
    assert_eq!(s.mode, Mode::Selecting);
    s.handle_key(Key::Char('j'));
    s.handle_key(Key::Down);
    assert_eq!((s.select_start, s.select_end), (Some(1), Some(3)));
    assert!(s.is_in_selection(2));
    assert!(!s.is_in_selection(4));
    s.handle_key(Key::Char('t'));
    let rec = s.store.get_file("src/a.rs");
    assert_eq!(rec.entries.len(), 3);
    s.handle_key(Key::Char('t'));
    assert!(s.store.get_file("src/a.rs").entries.is_empty());
    s.handle_key(Key::Esc);
    assert_eq!((s.select_start, s.select_end, s.mode), (None, None, Mode::Normal));
}

#[test]
fn notes_are_written_read_and_dropped() {
    let mut s = session();
    s.handle_key(Key::Char('j'));
    s.handle_key(Key::Char('n'));
    assert_eq!(s.mode, Mode::InputNote);
    keys(&mut s, "okk");
    s.handle_key(Key::Backspace);
    s.handle_key(Key::Enter);
    assert_eq!(s.get_annotation(2).unwrap().note, "ok");
    s.handle_key(Key::Char('n'));
    assert_eq!(s.input_buffer, vec!['o', 'k']);
    s.handle_key(Key::Backspace);
    s.handle_key(Key::Backspace);
    s.handle_key(Key::Enter);
    assert!(s.get_annotation(2).is_none());
    s.handle_key(Key::Char('a'));
    assert_eq!(s.mode, Mode::ViewAnnotation);
    s.handle_key(Key::Char('a'));
    assert_eq!(s.mode, Mode::Normal);
}

#[test]
fn commands_save_and_quit() {
    let mut s = session();
    s.handle_key(Key::Char(':'));
    keys(&mut s, " wq ");
    assert_eq!(s.handle_key(Key::Enter), Action::SaveAndQuit);
    s.handle_key(Key::Char(':'));
    keys(&mut s, "save");
    assert_eq!(s.handle_key(Key::Enter), Action::Save);
    s.handle_key(Key::Char(':'));
    keys(&mut s, "nope");
    assert_eq!(s.handle_key(Key::Enter), Action::Continue);
    assert_eq!(s.mode, Mode::Normal);
    assert_eq!(s.handle_key(Key::Char('q')), Action::Quit);
    assert_eq!(s.handle_key(Key::Esc), Action::Quit);
}

#[test]
fn cursor_stays_in_the_file_and_on_screen() {
    let mut s = session();
    s.set_viewport(6);
    assert_eq!(s.viewport_height, 2);
    s.handle_key(Key::Char('G'));
    assert_eq!((s.cursor, s.scroll_offset), (2, 1));
    s.handle_key(Key::Char('j'));
    assert_eq!(s.cursor, 2);
    s.handle_key(Key::Char('g'));
    assert_eq!((s.cursor, s.scroll_offset), (0, 0));
    s.handle_key(Key::Up);
    assert_eq!(s.line_number(), 1);
}

#[test]
fn snapshot_save_clears_staleness() {
    let mut store = Store::new();
    store.get_file_mut("src/a.rs").update_snapshot(Some("old text"));
    store.get_file_mut("src/a.rs").set_line(1, vec!["r".to_string()], Some("old text"));
    let mut s = ReviewState::new("src/a.rs".to_string(), "new\nold text", store, TagStore::new());
    assert!(s.is_stale);
    assert_eq!(s.store.get_file("src/a.rs").entries[&2].tags, vec!["r".to_string()]);
    assert_eq!(s.handle_key(Key::Char('s')), Action::SaveSnapshot);
    s.record_snapshot(Some("new\nold text"));
    assert!(!s.is_stale);
    assert!(!s.store.get_file("src/a.rs").is_stale(Some("new\nold text")));
}

#[test]
fn gutter_marks_of_a_note() {
    assert_eq!(note_mark(4, 4, 4), "●");
    assert_eq!(note_mark(4, 8, 4), "┌");
    assert_eq!(note_mark(4, 8, 6), "│");
    assert_eq!(note_mark(4, 8, 8), "└");
}

#[test]
fn picker_marks() {
    assert_eq!(picker_mark(false, true), "✓ ");
    assert_eq!(picker_mark(true, true), "✗ ");
    assert_eq!(picker_mark(false, false), "  ");
    assert_eq!(picker_mark(true, false), "  ");
}

#[test]
fn selection_labels() {
    assert_eq!(selection_label(Some(9), Some(3)), " SELECT 3-9 ");
    assert_eq!(selection_label(Some(3), Some(9)), " SELECT 3-9 ");
    assert_eq!(selection_label(Some(12), None), " SELECT 12-... ");
    assert_eq!(selection_label(None, None), "");
}

#[test]
fn state_marks() {
    assert_eq!(state_mark(Some(LineState::Questioned), false), " Q ");
    assert_eq!(state_mark(Some(LineState::Rejected), true), " X ");
    assert_eq!(state_mark(None, true), " • ");
    assert_eq!(state_mark(None, false), "   ");
}

#[test]
fn which_keys_move_the_cursor() {
    assert!(own::review::key_moves_cursor(Mode::Normal, Key::Char('j')));
    assert!(own::review::key_moves_cursor(Mode::Selecting, Key::Up));
    assert!(!own::review::key_moves_cursor(Mode::Command, Key::Char('j')));
    assert!(!own::review::key_moves_cursor(Mode::Normal, Key::Char('t')));
    assert!(own::line_review::line_key_moves_cursor(Key::Char('Q')));
    assert!(own::line_review::line_key_moves_cursor(Key::Down));
    assert!(!own::line_review::line_key_moves_cursor(Key::Char('n')));
}

#[test]
fn scrolling_brings_the_cursor_into_view() {
    let mut s = session();
    s.viewport_height = 2;
    s.cursor = 2;
    s.scroll_offset = 0;
    s.update_scroll();
    assert_eq!((s.cursor, s.scroll_offset), (2, 1));
    s.cursor = 0;
    s.update_scroll();
    assert_eq!(s.scroll_offset, 0);
    s.cursor = 1;
    s.update_scroll();
    assert_eq!(s.scroll_offset, 0);
}
