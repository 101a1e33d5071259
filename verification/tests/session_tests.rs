use rcf::Command;
use rcf::KeyEvent;
use rcf::Outcome;
use rcf::Session;

fn store() -> Vec<Command> {
    vec![
        Command::new(0, String::from("git status")),
        Command::new(1, String::from("git commit -m x")),
        Command::new(2, String::from("ls -la")),
    ]
}

fn sel_bound(s: &Session) -> usize {
    std::cmp::max(1, s.ranked_view().len())
}

#[test]
fn commit_on_empty_store_yields_empty_string() {
    let mut s = Session::new(Vec::new());
    assert!(s.ranked_view().is_empty());
    match s.step(KeyEvent::Commit) {
        Outcome::Committed(text) => assert_eq!(text, ""),
        _ => panic!("commit must end the session with a committed text"),
    }
}

#[test]
fn typing_and_committing_selects_the_top_match() {
    let mut s = Session::new(store());
    assert!(matches!(s.step(KeyEvent::Char('g')), Outcome::Continue));
    assert!(matches!(s.step(KeyEvent::Char('c')), Outcome::Continue));
    assert_eq!(s.query(), "gc");
    match s.step(KeyEvent::Commit) {
        Outcome::Committed(text) => assert_eq!(text, "git commit -m x"),
        _ => panic!("commit must end the session with a committed text"),
    }
}

#[test]
fn selection_stays_clamped_through_any_events() {
    let mut s = Session::new(store());
    let events = [
        KeyEvent::MoveDown,
        KeyEvent::MoveDown,
        KeyEvent::MoveDown,
        KeyEvent::MoveDown,
        KeyEvent::Char('g'),
        KeyEvent::MoveDown,
        KeyEvent::Char('z'),
        KeyEvent::MoveDown,
        KeyEvent::MoveUp,
        KeyEvent::EraseLast,
        KeyEvent::Other,
    ];
    for ev in events {
        s.step(ev);
        assert!(s.selection_index() < sel_bound(&s));
    }
}

#[test]
fn move_down_caps_at_the_last_entry() {
    let mut s = Session::new(store());
    for _ in 0..10 {
        s.step(KeyEvent::MoveDown);
    }
    assert_eq!(s.selection_index(), 2);
    s.step(KeyEvent::MoveUp);
    assert_eq!(s.selection_index(), 1);
}

#[test]
fn move_up_floors_at_zero() {
    let mut s = Session::new(store());
    s.step(KeyEvent::MoveUp);
    s.step(KeyEvent::MoveUp);
    assert_eq!(s.selection_index(), 0);
}

#[test]
fn query_with_no_match_empties_the_view_and_resets_selection() {
    let mut s = Session::new(store());
    s.step(KeyEvent::MoveDown);
    assert_eq!(s.selection_index(), 1);
    s.step(KeyEvent::Char('q'));
    s.step(KeyEvent::Char('q'));
    assert!(s.ranked_view().is_empty());
    assert_eq!(s.selection_index(), 0);
    match s.step(KeyEvent::Commit) {
        Outcome::Committed(text) => assert_eq!(text, ""),
        _ => panic!("commit must end the session with a committed text"),
    }
}

#[test]
fn erase_on_empty_query_is_a_no_op() {
    let mut s = Session::new(store());
    s.step(KeyEvent::EraseLast);
    assert_eq!(s.query(), "");
    assert_eq!(s.ranked_view().len(), 3);
}

#[test]
fn erase_restores_the_previous_ranking() {
    let mut s = Session::new(store());
    s.step(KeyEvent::Char('g'));
    s.step(KeyEvent::Char('i'));
    assert_eq!(s.ranked_view().len(), 2);
    s.step(KeyEvent::EraseLast);
    assert_eq!(s.query(), "g");
    assert_eq!(s.ranked_view().len(), 2);
    s.step(KeyEvent::EraseLast);
    assert_eq!(s.query(), "");
    assert_eq!(s.ranked_view().len(), 3);
}

#[test]
fn cancel_ends_without_commit() {
    let mut s = Session::new(store());
    assert!(matches!(s.step(KeyEvent::Cancel), Outcome::Cancelled));
}

#[test]
fn other_keys_change_nothing() {
    let mut s = Session::new(store());
    s.step(KeyEvent::Char('g'));
    let before_len = s.ranked_view().len();
    assert!(matches!(s.step(KeyEvent::Other), Outcome::Continue));
    assert_eq!(s.query(), "g");
    assert_eq!(s.ranked_view().len(), before_len);
    assert_eq!(s.selection_index(), 0);
}

#[test]
fn visible_lines_fit_the_terminal_width() {
    let s = Session::new(store());
    let lines = s.visible_lines(10);
    assert_eq!(lines.len(), 3);
    for line in &lines {
        assert!(line.chars().count() <= 5);
    }
    assert_eq!(lines[0], "git s");
    let narrow = s.visible_lines(3);
    assert_eq!(narrow[0], "");
}

#[test]
fn visible_lines_flatten_multi_line_records() {
    let s = Session::new(vec![Command::new(0, String::from("echo a\r\necho b"))]);
    let lines = s.visible_lines(80);
    assert_eq!(lines[0], "echo a echo b");
}
