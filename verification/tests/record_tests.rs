use rcf::Command;

#[test]
fn from_string_parses_valid_block() {
    let c = Command::from_string(": 1612345678:0;ls -la").unwrap();
    assert_eq!(c.id, 1612345678);
    assert_eq!(c.command, "ls -la");
}

#[test]
fn from_string_trims_blank_ends() {
    let c = Command::from_string(": 1612345678:0;  echo hi \r\n").unwrap();
    assert_eq!(c.command, "echo hi");
}

#[test]
fn from_string_accepts_minimal_block() {
    // Exactly the structural prefix and nothing after it: an empty command.
    let c = Command::from_string(": 1612345678:0;").unwrap();
    assert_eq!(c.command, "");
}

#[test]
fn from_string_rejects_short_block() {
    let r = Command::from_string("xx");
    assert!(r.is_err());
    assert_eq!(r.unwrap_err().message(), "fail to parse command");
}

#[test]
fn from_string_rejects_non_digit_id() {
    assert!(Command::from_string(": 16123a5678:0;ls").is_err());
}

#[test]
fn from_string_rejects_overflowing_id() {
    // 9999999999 does not fit a u32.
    assert!(Command::from_string(": 9999999999:0;ls").is_err());
}

#[test]
fn from_string_accepts_max_id() {
    let c = Command::from_string(": 4294967295:0;ls").unwrap();
    assert_eq!(c.id, u32::MAX);
}

#[test]
fn truncate_command_cleans_line_breaks() {
    let c = Command::new(1, String::from("git\nstatus\rnow"));
    assert_eq!(c.truncate_command(40), "git statusnow");
}

#[test]
fn truncate_command_cuts_to_width() {
    let c = Command::new(1, String::from("git status"));
    assert_eq!(c.truncate_command(5), "git s");
    assert_eq!(c.truncate_command(0), "");
}

#[test]
fn match_score_empty_query_matches_everything() {
    let c = Command::new(1, String::from("anything at all"));
    assert_eq!(c.get_match_score(&String::new()), Some(0));
}

#[test]
fn match_score_subsequence_matches() {
    let c = Command::new(1, String::from("git commit -m x"));
    assert!(c.get_match_score(&String::from("gc")).is_some());
}

#[test]
fn match_score_non_subsequence_is_none() {
    let c = Command::new(1, String::from("ls -la"));
    assert!(c.get_match_score(&String::from("gc")).is_none());
}

#[test]
fn match_score_rewards_tighter_match() {
    // A contiguous occurrence outranks a scattered one of the same query,
    // the surroundings of the matched characters held equal.
    let tight = Command::new(1, String::from("xxgcyy"));
    let scattered = Command::new(2, String::from("xxgxcy"));
    let q = String::from("gc");
    let s_tight = tight.get_match_score(&q).unwrap();
    let s_scattered = scattered.get_match_score(&q).unwrap();
    assert!(s_tight > s_scattered);
}
