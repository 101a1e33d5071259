use rcf::Command;
use rcf::Finder;

fn store() -> Vec<Command> {
    vec![
        Command::new(0, String::from("git status")),
        Command::new(1, String::from("git commit -m x")),
        Command::new(2, String::from("ls -la")),
    ]
}

fn texts(v: &[Command]) -> Vec<String> {
    v.iter().map(|c| c.command.clone()).collect()
}

#[test]
fn ranked_view_orders_by_relevance() {
    // "gc" against the three-record store: "git commit -m x" tops the view;
    // "ls -la" holds no 'c' and cannot appear. Neither does "git status",
    // so the view holds exactly one entry.
    let r = Finder::get_truncated_matches(&store(), &String::from("gc"));
    assert_eq!(texts(&r), vec![String::from("git commit -m x")]);
}

#[test]
fn empty_store_yields_empty_view() {
    let r = Finder::get_truncated_matches(&Vec::new(), &String::from("anything"));
    assert!(r.is_empty());
    assert_eq!(Finder::get_selecting_command(&r, 0), "");
}

#[test]
fn incremental_queries_keep_git_entries() {
    // Typing "g", "gi", "git" never surfaces "ls -la" and keeps both git
    // records present throughout.
    let s = store();
    for q in ["g", "gi", "git"] {
        let r = Finder::get_truncated_matches(&s, &String::from(q));
        let t = texts(&r);
        assert!(!t.contains(&String::from("ls -la")));
        assert!(t.contains(&String::from("git status")));
        assert!(t.contains(&String::from("git commit -m x")));
    }
}

#[test]
fn non_matching_character_eliminates_a_candidate() {
    let s = store();
    let with_g = Finder::get_truncated_matches(&s, &String::from("g"));
    assert!(texts(&with_g).contains(&String::from("git status")));
    let with_gz = Finder::get_truncated_matches(&s, &String::from("gz"));
    assert!(with_gz.is_empty());
}

#[test]
fn duplicate_texts_collapse_to_one_entry() {
    let s = vec![
        Command::new(0, String::from("git status")),
        Command::new(1, String::from("ls")),
        Command::new(2, String::from("git status")),
    ];
    let r = Finder::get_matched_commands(&s, &String::from("git"));
    assert_eq!(texts(&r), vec![String::from("git status")]);

    let all = Finder::get_matched_commands(&s, &String::new());
    let t = texts(&all);
    assert_eq!(t.iter().filter(|x| x.as_str() == "git status").count(), 1);
}

#[test]
fn view_is_cut_to_the_window() {
    let mut s = Vec::new();
    for i in 0..20u32 {
        s.push(Command::new(i, format!("command number {}", i)));
    }
    let r = Finder::get_truncated_matches(&s, &String::new());
    assert_eq!(r.len(), 15);
    let full = Finder::get_matched_commands(&s, &String::new());
    assert_eq!(full.len(), 20);
}

#[test]
fn empty_query_keeps_store_order() {
    // All scores tie on the empty query; the stable sort keeps store order.
    let r = Finder::get_truncated_matches(&store(), &String::new());
    assert_eq!(
        texts(&r),
        vec![
            String::from("git status"),
            String::from("git commit -m x"),
            String::from("ls -la"),
        ]
    );
}

#[test]
fn ranking_twice_gives_identical_views() {
    let s = store();
    let q = String::from("gs");
    let r1 = Finder::get_truncated_matches(&s, &q);
    let r2 = Finder::get_truncated_matches(&s, &q);
    assert_eq!(texts(&r1), texts(&r2));
    let ids1: Vec<u32> = r1.iter().map(|c| c.id).collect();
    let ids2: Vec<u32> = r2.iter().map(|c| c.id).collect();
    assert_eq!(ids1, ids2);
}

#[test]
fn history_lines_form_blocks_and_records() {
    let lines = vec![
        String::from(": 1600000000:0;echo hi"),
        String::from("second line"),
        String::from(": 1600000001:0;pwd"),
    ];
    let f = Finder::new_with_history_lines(&lines);
    assert_eq!(f.commands.len(), 2);
    assert_eq!(f.commands[0].id, 1600000000);
    // A continuation line is appended to the block directly, a line break
    // following it.
    assert_eq!(f.commands[0].command, "echo hisecond line");
    assert_eq!(f.commands[1].id, 1600000001);
    assert_eq!(f.commands[1].command, "pwd");
    assert_eq!(f.query, "");
}

#[test]
fn malformed_history_blocks_drop_silently() {
    let lines = vec![
        String::from("stray continuation before any block"),
        String::from(": bad-timestamp:0;ls"),
        String::from(": 1600000002:0;ok"),
    ];
    let f = Finder::new_with_history_lines(&lines);
    assert_eq!(f.commands.len(), 1);
    assert_eq!(f.commands[0].command, "ok");
}

#[test]
fn update_query_replaces_only_the_query() {
    let mut f = Finder::new_without_query(store());
    f.update_query(String::from("git"));
    assert_eq!(f.query, "git");
    assert_eq!(f.commands.len(), 3);
}
