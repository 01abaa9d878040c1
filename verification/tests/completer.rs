use my_rust_shell::completer::{
    candidates_from_output, complete_command, completion_args, completion_start, file_candidate,
    sort_candidates,
    CommandCandidate,
};

fn displays(v: &[CommandCandidate]) -> Vec<String> {
    v.iter().map(|c| c.display().to_string()).collect()
}

#[test]
fn command_candidates_builtins_then_path() {
    let names = vec!["echoer".to_string(), "echo".to_string(), "ls".to_string()];
    let c = complete_command("ec", &names);
    assert_eq!(displays(&c), vec!["echo", "echoer"]);
    assert_eq!(c[0].replacement(), "echo ");
    let c = complete_command("", &[]);
    assert_eq!(c.len(), 9);
    let c = complete_command("l", &names);
    assert_eq!(displays(&c), vec!["ls"]);
}

#[test]
fn sorting_orders_by_display() {
    let v = vec![
        CommandCandidate { display: "b".to_string(), replacement: "b ".to_string() },
        CommandCandidate { display: "ab".to_string(), replacement: "ab ".to_string() },
        CommandCandidate { display: "a".to_string(), replacement: "a ".to_string() },
        CommandCandidate { display: "B".to_string(), replacement: "B ".to_string() },
    ];
    assert_eq!(displays(&sort_candidates(v)), vec!["B", "a", "ab", "b"]);
}

#[test]
fn output_lines_become_sorted_candidates() {
    let c = candidates_from_output("status\ncheckout\n\ncommit\n");
    assert_eq!(displays(&c), vec!["checkout", "commit", "status"]);
    assert_eq!(c[1].replacement(), "commit ");
}

#[test]
fn file_candidates() {
    let c = file_candidate("src/");
    assert_eq!((c.display(), c.replacement()), ("src/", "src/"));
    let c = file_candidate("main.rs");
    assert_eq!((c.display(), c.replacement()), ("main.rs", "main.rs "));
    let c = file_candidate("odd name ");
    assert_eq!((c.display(), c.replacement()), ("odd name", "odd name  "));
}

#[test]
fn completion_arguments() {
    assert!(completion_args("gi").is_none());
    let a = completion_args("git ").unwrap();
    assert_eq!((a.cmd.as_str(), a.current_word.as_str(), a.prev_word.as_str()), ("git", "", "git"));
    let a = completion_args("git com").unwrap();
    assert_eq!((a.cmd.as_str(), a.current_word.as_str(), a.prev_word.as_str()), ("git", "com", "git"));
    let a = completion_args("git  add  fi").unwrap();
    assert_eq!((a.cmd.as_str(), a.current_word.as_str(), a.prev_word.as_str()), ("git", "fi", "add"));
    let a = completion_args(" x").unwrap();
    assert_eq!((a.cmd.as_str(), a.current_word.as_str(), a.prev_word.as_str()), ("", "x", ""));
}

#[test]
fn completion_start_offset() {
    let line = "git añ";
    let a = completion_args(line).unwrap();
    assert_eq!(completion_start(line.len(), &a.current_word), 4);
    let a = completion_args("git ").unwrap();
    assert_eq!(completion_start(4, &a.current_word), 4);
}
