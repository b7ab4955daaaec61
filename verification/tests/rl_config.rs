use kfire_client::rl::config::{has_stats_section, port_in, with_stats_block, without_stats_block, DEFAULT_PORT, STATS_BLOCK};

#[test]
fn an_empty_file_gets_the_whole_block() {
    let out = with_stats_block("");
    assert!(out.contains("[TAGame.MatchStatsExporter_TA]"));
    assert!(out.contains("Port=49123"));
    assert!(out.contains("PacketSendRate=30"));
}

#[test]
fn an_existing_section_is_left_strictly_alone() {
    let theirs = "[TAGame.MatchStatsExporter_TA]\nPort=50000\nPacketSendRate=120\n";
    assert_eq!(with_stats_block(theirs), theirs);
}

#[test]
fn other_sections_survive() {
    let other = "[SomethingElse]\nKey=1\n";
    let out = with_stats_block(other);
    assert!(out.starts_with(other));
    assert!(out.contains("[TAGame.MatchStatsExporter_TA]"));
}

#[test]
fn removing_takes_back_only_our_block() {
    let other = "[SomethingElse]\nKey=1\n";
    let with = with_stats_block(other);
    assert_eq!(without_stats_block(&with).trim_end(), other.trim_end());
}

#[test]
fn removing_leaves_someone_elses_block_alone() {
    let theirs = "[TAGame.MatchStatsExporter_TA]\nPort=50000\nPacketSendRate=120\n";
    assert_eq!(without_stats_block(theirs), theirs);
}

#[test]
fn the_port_is_read_from_the_file_when_it_is_there() {
    let theirs = "[TAGame.MatchStatsExporter_TA]\nPort=50000\nPacketSendRate=120\n";
    assert_eq!(port_in(theirs), 50000);
}

#[test]
fn the_port_falls_back_to_the_default() {
    assert_eq!(port_in(""), DEFAULT_PORT);
    assert_eq!(port_in("[TAGame.MatchStatsExporter_TA]\nPacketSendRate=60\n"), DEFAULT_PORT);
}

#[test]
fn a_port_with_spaces_and_case_is_still_read() {
    assert_eq!(port_in("[TAGame.MatchStatsExporter_TA]\n port = 49999 \n"), 49999);
}

#[test]
fn an_absurd_port_is_refused_and_falls_back() {
    assert_eq!(port_in("[TAGame.MatchStatsExporter_TA]\nPort=0\n"), DEFAULT_PORT);
    assert_eq!(port_in("[TAGame.MatchStatsExporter_TA]\nPort=99999999\n"), DEFAULT_PORT);
}

#[test]
fn detecting_our_own_block_is_exact() {
    assert!(!has_stats_section(""));
    assert!(has_stats_section("[TAGame.MatchStatsExporter_TA]\n"));
    assert!(has_stats_section("x\n[tagame.matchstatsexporter_ta]\ny\n"));
}

#[test]
fn removing_works_on_a_file_that_came_back_from_notepad() {
    let unix = with_stats_block("[SomethingElse]\nKey=1\n");
    let crlf = unix.replace('\n', "\r\n");
    let out = without_stats_block(&crlf);
    assert!(!has_stats_section(&out), "our block had to go: {out:?}");
    assert!(out.contains("Key=1"), "the rest of the file had to stay");
}

#[test]
fn removing_a_crlf_file_keeps_it_in_crlf() {
    let crlf = with_stats_block("[SomethingElse]\nKey=1\n").replace('\n', "\r\n");
    let out = without_stats_block(&crlf);
    assert!(out.contains("\r\n"), "the member's line endings are his own");
    assert!(!out.contains("\n\n"), "no stray blank line");
}

#[test]
fn removing_still_leaves_someone_elses_block_alone_in_crlf_too() {
    let theirs = "[TAGame.MatchStatsExporter_TA]\r\nPort=50000\r\nPacketSendRate=120\r\n";
    assert_eq!(without_stats_block(theirs), theirs);
}

#[test]
fn a_section_with_an_extra_key_is_not_ours() {
    let mixed = "[TAGame.MatchStatsExporter_TA]\nPort=49123\nPacketSendRate=30\nSomethingElse=1\n";
    assert_eq!(without_stats_block(mixed), mixed);
}

#[test]
fn removing_our_block_from_a_file_that_holds_nothing_else_empties_it() {
    let only_ours = with_stats_block("");
    assert_eq!(without_stats_block(&only_ours), "");
}

#[test]
fn adding_twice_is_adding_once() {
    let once = with_stats_block("[A]\nB=1\n");
    assert_eq!(with_stats_block(&once), once);
    assert!(once.ends_with(STATS_BLOCK));
}

#[test]
fn the_port_of_our_own_block_is_the_default() {
    assert_eq!(port_in(&with_stats_block("")), DEFAULT_PORT);
}

#[test]
fn turning_tracking_on_then_off_gives_the_file_back() {
    for file in ["", "[SomethingElse]\nKey=1\n", "A=1\n\n[B]\nC=2\n"] {
        assert_eq!(without_stats_block(&with_stats_block(file)), file, "file {file:?}");
    }
}

#[test]
fn a_file_with_trailing_blank_lines_comes_back_tidied() {
    assert_eq!(without_stats_block(&with_stats_block("A=1")), "A=1\n");
    assert_eq!(without_stats_block(&with_stats_block("A=1\n\n  \n")), "A=1\n");
    assert_eq!(without_stats_block(&with_stats_block("\n\n")), "");
}

#[test]
fn the_stats_sections_own_port_counts_over_another_sections() {
    let c = "[Other]\nPort=2000\n[TAGame.MatchStatsExporter_TA]\nPort=50000\nPacketSendRate=120\n";
    assert_eq!(port_in(c), 50000);
    let none_in_section = "[Other]\nPort=2000\n[TAGame.MatchStatsExporter_TA]\nPacketSendRate=120\n[Next]\nPort=3000\n";
    assert_eq!(port_in(none_in_section), DEFAULT_PORT);
    assert_eq!(port_in("[Other]\nPort=2000\n"), 2000);
    assert_eq!(port_in("[tagame.matchstatsexporter_ta]\r\n port = 49999 \r\n"), 49999);
}
