use kfire_client::hs::config::{contains_power_block, with_power_block, without_power_block, POWER_BLOCK};

#[test]
fn the_written_block_asks_for_power_logging_to_a_file() {
    assert!(POWER_BLOCK.contains("[Power]"));
    assert!(POWER_BLOCK.contains("FilePrinting=true"));
    assert!(POWER_BLOCK.contains("Verbose=true"));
    assert!(POWER_BLOCK.contains("ScreenPrinting=false"));
}

#[test]
fn an_absent_file_is_not_enabled() {
    assert!(!contains_power_block(""));
}

#[test]
fn our_own_block_is_detected() {
    assert!(contains_power_block(POWER_BLOCK));
}

#[test]
fn another_trackers_block_is_detected_too() {
    let existing = "[Zone]\nLogLevel=1\n\n[Power]\nLogLevel=1\nFilePrinting=true\n";
    assert!(contains_power_block(existing));
}

#[test]
fn a_section_merely_mentioning_power_is_not_a_power_section() {
    assert!(!contains_power_block("[PowerTaskList]\nLogLevel=1\n"));
}

#[test]
fn appending_keeps_what_was_already_there() {
    let merged = with_power_block("[Zone]\nLogLevel=1\n");
    assert!(merged.starts_with("[Zone]"));
    assert!(merged.contains("LogLevel=1"));
    assert!(merged.contains("[Power]"));
}

#[test]
fn appending_twice_changes_nothing() {
    let once = with_power_block("");
    assert_eq!(with_power_block(&once), once);
}

#[test]
fn another_trackers_block_is_left_untouched() {
    let existing = "[Power]\nLogLevel=2\nFilePrinting=true\n";
    assert_eq!(with_power_block(existing), existing);
}

#[test]
fn removing_leaves_other_sections_alone() {
    let merged = with_power_block("[Zone]\nLogLevel=1\n");
    let stripped = without_power_block(&merged);
    assert!(stripped.contains("[Zone]"));
    assert!(stripped.contains("LogLevel=1"));
    assert!(!stripped.contains("[Power]"));
    assert!(!stripped.contains("FilePrinting"));
}

#[test]
fn removing_a_middle_section_keeps_the_one_after_it() {
    let src = "[Zone]\nA=1\n[Power]\nB=2\n[Net]\nC=3\n";
    let stripped = without_power_block(src);
    assert!(stripped.contains("[Zone]"));
    assert!(stripped.contains("[Net]"));
    assert!(stripped.contains("C=3"));
    assert!(!stripped.contains("B=2"));
}

#[test]
fn removing_from_a_file_without_the_section_changes_nothing_meaningful() {
    let src = "[Zone]\nA=1\n";
    assert!(without_power_block(src).contains("[Zone]"));
    assert!(without_power_block(src).contains("A=1"));
}

#[test]
fn removing_a_block_with_crlf_line_endings_keeps_the_rest_exactly() {
    let src = "[Zone]\r\nA=1\r\n[Power]\r\nB=2\r\n";
    assert_eq!(without_power_block(src), "[Zone]\r\nA=1\r\n");
}

#[test]
fn adding_then_removing_gives_back_the_lines() {
    let src = "[Zone]\nA=1\n";
    let back = without_power_block(&with_power_block(src));
    assert_eq!(back, "[Zone]\nA=1\n\n");
}

#[test]
fn removing_the_tracking_leaves_no_power_section_whatever_the_file() {
    for file in [
        "",
        "[Zone]\nA=1\n",
        "[Power]\nLogLevel=1\n[Zone]\nA=1\n[Power]\nB=2\n",
        "  [Power]  \r\nX=1\r\n[Net]\r\nC=3\r\n",
    ] {
        let out = without_power_block(&with_power_block(file));
        assert!(!contains_power_block(&out), "{out:?}");
        assert!(!contains_power_block(&without_power_block(file)));
    }
}

#[test]
fn a_file_without_a_power_section_comes_back_untouched() {
    for file in ["[Zone]\r\nA=1\r\n", "[Zone]\nA=1", "", "A=1\r\n\r\n[Net]\nB=2\n"] {
        assert_eq!(without_power_block(file), file);
    }
}

#[test]
fn removing_keeps_each_lines_own_ending_and_twice_is_once() {
    let src = "[Zone]\r\nA=1\r\n[Power]\r\nLogLevel=1\r\n[Net]\nC=3";
    let once = without_power_block(src);
    assert_eq!(once, "[Zone]\r\nA=1\r\n[Net]\nC=3");
    assert_eq!(without_power_block(&once), once);
    assert_eq!(
        without_power_block("[Zone]\nA=1\n[Power]\nB=2\n[Net]\nC=3\n"),
        "[Zone]\nA=1\n[Net]\nC=3\n"
    );
}
