use kfire_client::hs::watcher::Cursor;

#[test]
fn a_fresh_cursor_reads_from_the_start() {
    let mut c = Cursor::default();
    assert_eq!(c.take_new("ligne une\nligne deux\n"), "ligne une\nligne deux\n");
}

#[test]
fn only_what_was_appended_is_returned() {
    let mut c = Cursor::default();
    c.take_new("ligne une\n");
    assert_eq!(c.take_new("ligne une\nligne deux\n"), "ligne deux\n");
}

#[test]
fn nothing_new_yields_nothing() {
    let mut c = Cursor::default();
    c.take_new("ligne une\n");
    assert_eq!(c.take_new("ligne une\n"), "");
}

#[test]
fn a_shorter_file_means_a_new_file_and_is_read_whole() {
    let mut c = Cursor::default();
    c.take_new("une longue premiere ligne\n");
    assert_eq!(c.take_new("court\n"), "court\n");
}

#[test]
fn switching_folders_resets_the_position() {
    let mut c = Cursor::default();
    c.take_new("ligne une\nligne deux\n");
    c.reset();
    assert_eq!(c.take_new("autre\n"), "autre\n");
}

#[test]
fn a_partial_last_line_is_held_back() {
    let mut c = Cursor::default();
    assert_eq!(c.take_new("complete\nincomp"), "complete\n");
    assert_eq!(c.take_new("complete\nincomplete\n"), "incomplete\n");
}

#[test]
fn a_file_with_no_newline_at_all_yields_nothing_yet() {
    let mut c = Cursor::default();
    assert_eq!(c.take_new("pas encore de fin de ligne"), "");
}

#[test]
fn two_reads_give_what_one_read_gives() {
    let mut a = Cursor::default();
    let first = a.take_new("un\ndeu");
    let second = a.take_new("un\ndeux\ntrois\n");
    let mut b = Cursor::default();
    let once = b.take_new("un\ndeux\ntrois\n");
    assert_eq!(format!("{first}{second}"), once);
}

#[test]
fn reading_resumes_only_between_two_characters() {
    let mut c = Cursor::default();
    assert!(c.can_take("é\n"));
    assert_eq!(c.take_new("\n"), "\n");
    assert!(!c.can_take("é\n"), "byte 1 falls inside é");
    assert!(c.can_take("a\n"));
    assert!(c.can_take(""), "a shorter file is read from its start");
}
