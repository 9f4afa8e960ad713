use cmd_frequency::frequency::CommandFrequency;
use cmd_frequency::order::{entry_ranks_before, key_precedes};
use cmd_frequency::text::{history_lines, is_space_char, strip_line_number, trimmed_bounds};

fn norm(s: &str) -> String {
    CommandFrequency::normalize_command(s)
}

fn records(lines: &[&str]) -> Vec<String> {
    lines.iter().map(|l| l.to_string()).collect()
}

fn numbered(text: &str) -> Vec<String> {
    text.lines().map(strip_line_number).collect()
}

#[test]
fn test_normalize_command() {
    assert_eq!(CommandFrequency::normalize_command("  ls  "), "ls");
    assert_eq!(CommandFrequency::normalize_command("ls -la"), "ls -la");
    assert_eq!(CommandFrequency::normalize_command("  ls   -la  "), "ls -la");
    assert_eq!(CommandFrequency::normalize_command("\"ls -la\""), "ls -la");
    assert_eq!(CommandFrequency::normalize_command("'ls -la'"), "ls -la");
}

#[test]
fn test_command_frequency() {
    let test_history = r#"1 ls
2 ls -la
3 cd
4 ls
5 git status
6 ls
7 cd
8 cd
9 ls
10 git status"#;

    let mut commands = Vec::new();
    for line in test_history.lines() {
        if let Some(cmd) = line.splitn(2, ' ').nth(1) {
            commands.push(cmd.to_string());
        }
    }

    let frequency = CommandFrequency::from_commands(&commands);

    let most_frequent = frequency.get_most_frequent(3);
    assert_eq!(most_frequent.len(), 3);

    assert_eq!(most_frequent[0].0, "ls");
    assert_eq!(most_frequent[0].1, 4);

    assert_eq!(most_frequent[1].0, "cd");
    assert_eq!(most_frequent[1].1, 3);

    assert_eq!(most_frequent[2].0, "git status");
    assert_eq!(most_frequent[2].1, 2);
}

#[test]
fn normalize_is_idempotent_on_samples() {
    for s in [
        "  ls  ",
        "\"ls -la\"",
        "'ls -la'",
        "ls \t  -la",
        "",
        "   ",
        "\"",
        "\" ls  \"",
        "git\u{3000}status\n",
        "echo 'a'",
    ] {
        let once = norm(s);
        assert_eq!(norm(&once), once, "input {:?}", s);
    }
}

#[test]
fn normalize_quotes_are_removed_once() {
    assert_eq!(norm("\"'ls'\""), "'ls'");
    assert_eq!(norm(&norm("\"'ls'\"")), "ls");
}

#[test]
fn normalize_merges_spacing_and_quoting_variants() {
    assert_eq!(norm("  ls  "), norm("ls"));
    assert_eq!(norm("\"ls -la\""), norm("'ls -la'"));
    assert_eq!(norm("'ls -la'"), norm("ls -la"));
    assert_eq!(norm("ls   -la"), "ls -la");
}

#[test]
fn normalize_edge_cases() {
    assert_eq!(norm(""), "");
    assert_eq!(norm("\t\r\n"), "");
    assert_eq!(norm("\"\""), "");
    assert_eq!(norm("'"), "'");
    assert_eq!(norm("\"ls'"), "\"ls'");
    assert_eq!(norm("\"  ls   -la \""), "ls -la");
    assert_eq!(norm("git\u{3000}\u{a0}status"), "git status");
    assert_eq!(norm("LS"), "LS");
    assert_eq!(norm("ls -la"), "ls -la");
    assert_ne!(norm("ls -la"), norm("ls -al"));
}

#[test]
fn whitespace_and_trim_helpers() {
    assert!(is_space_char(' '));
    assert!(is_space_char('\t'));
    assert!(is_space_char('\u{2028}'));
    assert!(!is_space_char('x'));
    assert!(!is_space_char('\u{200b}'));
    assert_eq!(trimmed_bounds("  ab c "), (2, 6));
    assert_eq!(trimmed_bounds("   "), (3, 3));
    assert_eq!(trimmed_bounds(""), (0, 0));
}

#[test]
fn line_numbers_are_stripped() {
    assert_eq!(strip_line_number("10 git status"), "git status");
    assert_eq!(strip_line_number("1 ls"), "ls");
    assert_eq!(strip_line_number("ls -la"), "ls -la");
    assert_eq!(strip_line_number("10"), "10");
    assert_eq!(strip_line_number("10x ls"), "10x ls");
    assert_eq!(strip_line_number(" 1 ls"), " 1 ls");
    assert_eq!(strip_line_number("7  cd"), " cd");
}

#[test]
fn key_order_is_lexicographic() {
    assert!(key_precedes("git status", "ls -la"));
    assert!(!key_precedes("ls -la", "git status"));
    assert!(key_precedes("ls", "ls -la"));
    assert!(!key_precedes("ls", "ls"));
    assert!(key_precedes("", "a"));
    assert!(key_precedes("Z", "a"));
    assert!(key_precedes("a", "\u{e9}"));
}

#[test]
fn entry_order_is_count_then_key() {
    assert!(entry_ranks_before(&("zz".to_string(), 5), &("aa".to_string(), 4)));
    assert!(entry_ranks_before(&("aa".to_string(), 4), &("bb".to_string(), 4)));
    assert!(!entry_ranks_before(&("bb".to_string(), 4), &("aa".to_string(), 4)));
    assert!(!entry_ranks_before(&("aa".to_string(), 4), &("aa".to_string(), 4)));
}

#[test]
fn end_to_end_numbered_history() {
    let lines = numbered("1 ls\n2 ls -la\n3 cd\n4 ls\n5 git status\n6 ls\n7 cd\n8 cd\n9 ls\n10 ls");
    let table = CommandFrequency::from_commands(&lines);
    assert_eq!(table.len(), 4);
    let all = table.get_most_frequent(10);
    assert_eq!(
        all,
        vec![
            ("ls".to_string(), 5),
            ("cd".to_string(), 3),
            ("git status".to_string(), 1),
            ("ls -la".to_string(), 1),
        ]
    );
    let top = table.get_most_frequent(3);
    assert_eq!(
        top,
        vec![("ls".to_string(), 5), ("cd".to_string(), 3), ("git status".to_string(), 1)]
    );
}

#[test]
fn ranking_counts_never_increase() {
    let recs = records(&["b", "a", "c", "c", "b", "c", "d", "a", "e", "c"]);
    let table = CommandFrequency::from_commands(&recs);
    for k in 0..8 {
        let top = table.get_most_frequent(k);
        assert_eq!(top.len(), k.min(5));
        for w in top.windows(2) {
            assert!(w[0].1 >= w[1].1);
            assert!(w[0].1 > w[1].1 || w[0].0 < w[1].0);
        }
    }
}

#[test]
fn large_request_returns_whole_table() {
    let recs = records(&["x", " x", "y", "'x'", "z z", "z  z", "", "   "]);
    let table = CommandFrequency::from_commands(&recs);
    for n in [3, 4, usize::MAX] {
        let all = table.get_most_frequent(n);
        assert_eq!(
            all,
            vec![("x".to_string(), 3), ("z z".to_string(), 2), ("y".to_string(), 1)]
        );
    }
}

#[test]
fn nth_matches_top_prefix() {
    let recs = records(&["a", "b", "b", "c", "c", "c"]);
    let table = CommandFrequency::from_commands(&recs);
    for i in 0..3 {
        let top = table.get_most_frequent(i + 1);
        assert_eq!(table.nth_most_frequent(i), Some(top[i].clone()));
    }
    assert_eq!(table.nth_most_frequent(0), Some(("c".to_string(), 3)));
    assert_eq!(table.nth_most_frequent(3), None);
    assert_eq!(table.nth_most_frequent(usize::MAX), None);
}

#[test]
fn no_records_give_empty_table() {
    let table = CommandFrequency::from_commands(&Vec::new());
    assert_eq!(table.len(), 0);
    for n in [0, 1, 20, usize::MAX] {
        assert!(table.get_most_frequent(n).is_empty());
    }
    assert_eq!(table.nth_most_frequent(0), None);
}

#[test]
fn blank_records_are_not_counted() {
    let recs = records(&["", "  ", "\t", "ls", "\"\""]);
    let table = CommandFrequency::from_commands(&recs);
    assert_eq!(
        table.get_most_frequent(5),
        vec![("".to_string(), 1), ("ls".to_string(), 1)]
    );
}

#[test]
fn insertion_order_does_not_change_counts() {
    let a = CommandFrequency::from_commands(&records(&["a", "b", "a", "c", "b", "a"]));
    let b = CommandFrequency::from_commands(&records(&["c", "a", "b", "b", "a", "a"]));
    assert_eq!(a.get_most_frequent(10), b.get_most_frequent(10));
    assert_eq!(a.get_most_frequent(0), vec![]);
}

#[test]
fn history_text_splits_into_lines() {
    assert_eq!(history_lines("ls\ncd\n"), vec!["ls", "cd", ""]);
    assert_eq!(history_lines(""), vec![""]);
    assert_eq!(history_lines("a\n\nb"), vec!["a", "", "b"]);
    assert_eq!(history_lines("git status\r\nls"), vec!["git status\r", "ls"]);
    let table = CommandFrequency::from_commands(&history_lines("ls\n  ls \n\ncd\r\n"));
    assert_eq!(
        table.get_most_frequent(5),
        vec![("ls".to_string(), 2), ("cd".to_string(), 1)]
    );
}
