use my_rust_shell::args::{parse_args, parse_pipeline};
use my_rust_shell::commands::{
    background_command_line, builtins, cd_error, cd_target, command_name, command_not_found,
    complete, declare_assign, declare_print, echo, history, history_content, is_executable,
    is_valid_identifier, jobs_list, path_directories, plan_pipeline, pwd, start_failure, type_cmd,
    BuiltinCommand, CmdOutput, DeclareCmd, HistoryCmd, ShellState, StageKind,
};
use my_rust_shell::jobs::JobTable;
use my_rust_shell::map::StringMap;

fn words(v: &[&str]) -> Vec<String> {
    v.iter().map(|s| s.to_string()).collect()
}

fn parse(line: &str) -> BuiltinCommand {
    let vars = StringMap::new();
    BuiltinCommand::parse(&parse_args(line, &vars))
}

#[test]
fn parse_recognises_builtins() {
    assert!(matches!(parse("exit"), BuiltinCommand::Exit));
    assert!(matches!(parse("pwd"), BuiltinCommand::Pwd));
    assert!(matches!(parse("jobs"), BuiltinCommand::Jobs));
    match parse("echo a  b") {
        BuiltinCommand::Echo(a) => assert_eq!(a, vec!["a", "b"]),
        _ => panic!("echo expected"),
    }
    match parse("type ls cat") {
        BuiltinCommand::Type(a) => assert_eq!(a, "ls cat"),
        _ => panic!("type expected"),
    }
    match parse("cd /tmp x") {
        BuiltinCommand::Cd(p) => assert_eq!(p, Some("/tmp".to_string())),
        _ => panic!("cd expected"),
    }
    assert!(matches!(parse("cd"), BuiltinCommand::Cd(None)));
    match parse("complete -C prog cmd") {
        BuiltinCommand::Complete(a) => assert_eq!(a, vec!["-C", "prog", "cmd"]),
        _ => panic!("complete expected"),
    }
    match parse("ls -la") {
        BuiltinCommand::Unknown(c, a) => {
            assert_eq!(c, "ls");
            assert_eq!(a, vec!["-la"]);
        }
        _ => panic!("unknown expected"),
    }
    match parse("") {
        BuiltinCommand::Unknown(c, a) => {
            assert_eq!(c, "");
            assert!(a.is_empty());
        }
        _ => panic!("unknown expected"),
    }
}

#[test]
fn parse_history_subcommands() {
    assert!(matches!(parse("history"), BuiltinCommand::History(HistoryCmd::Show(None))));
    assert!(matches!(parse("history 10"), BuiltinCommand::History(HistoryCmd::Show(Some(10)))));
    assert!(matches!(parse("history +7"), BuiltinCommand::History(HistoryCmd::Show(Some(7)))));
    assert!(matches!(parse("history -3"), BuiltinCommand::History(HistoryCmd::Show(None))));
    assert!(matches!(parse("history x1"), BuiltinCommand::History(HistoryCmd::Show(None))));
    assert!(matches!(
        parse("history 99999999999999999999999"),
        BuiltinCommand::History(HistoryCmd::Show(None))
    ));
    match parse("history -r file") {
        BuiltinCommand::History(HistoryCmd::Read(p)) => assert_eq!(p, "file"),
        _ => panic!("read expected"),
    }
    match parse("history -w file") {
        BuiltinCommand::History(HistoryCmd::Write(p)) => assert_eq!(p, "file"),
        _ => panic!("write expected"),
    }
    match parse("history -a file") {
        BuiltinCommand::History(HistoryCmd::Append(p)) => assert_eq!(p, "file"),
        _ => panic!("append expected"),
    }
    assert!(matches!(parse("history -x file"), BuiltinCommand::History(HistoryCmd::Show(None))));
}

#[test]
fn parse_declare_subcommands() {
    match parse("declare -p name") {
        BuiltinCommand::Declare(DeclareCmd::Print(n)) => assert_eq!(n, "name"),
        _ => panic!("print expected"),
    }
    match parse("declare name=\"a=b\"") {
        BuiltinCommand::Declare(DeclareCmd::Assign(n, v)) => {
            assert_eq!(n, "name");
            assert_eq!(v, "a=b");
        }
        _ => panic!("assign expected"),
    }
    match parse("declare plain") {
        BuiltinCommand::Declare(DeclareCmd::Print(n)) => assert_eq!(n, ""),
        _ => panic!("print expected"),
    }
}

#[test]
fn builtin_names_are_builtins() {
    for name in builtins() {
        assert!(BuiltinCommand::is_builtin(&name), "{name}");
    }
    assert_eq!(builtins().len(), 9);
    assert!(!BuiltinCommand::is_builtin("ls"));
    assert!(!BuiltinCommand::is_builtin(""));
    assert!(!BuiltinCommand::is_builtin("Echo"));
}

#[test]
fn echo_joins_with_spaces() {
    let out = echo(&words(&["hello", "world"]));
    assert_eq!(out.stdout, "hello world\n");
    assert_eq!(out.stderr, "");
    assert_eq!(echo(&[]).stdout, "\n");
}

#[test]
fn pwd_prints_directory() {
    assert_eq!(pwd(Some("/home/user".to_string())).stdout, "/home/user\n");
    assert_eq!(pwd(None).stdout, "");
}

#[test]
fn type_reports_builtins_and_paths() {
    assert_eq!(type_cmd("echo".to_string(), None).stdout, "echo is a shell builtin\n");
    assert_eq!(
        type_cmd("ls".to_string(), Some("/bin/ls".to_string())).stdout,
        "ls is /bin/ls\n"
    );
    assert_eq!(type_cmd("nope".to_string(), None).stdout, "nope: not found\n");
}

#[test]
fn cd_target_and_error() {
    let home = Some("/home/u".to_string());
    assert_eq!(cd_target(None, home.clone()), Ok("/home/u".to_string()));
    assert_eq!(cd_target(Some("~".to_string()), home.clone()), Ok("/home/u".to_string()));
    assert_eq!(cd_target(Some("/tmp".to_string()), None), Ok("/tmp".to_string()));
    assert_eq!(
        cd_target(None, None),
        Err("cd: Couldn't determinate the home directory\n".to_string())
    );
    assert_eq!(cd_error("/nope"), "cd: /nope: No such file or directory\n");
}

fn out(o: &CmdOutput) -> (&str, &str) {
    (o.stdout.as_str(), o.stderr.as_str())
}

#[test]
fn complete_register_show_remove() {
    let mut m = StringMap::new();
    let o = complete(&words(&["-C", "/bin/comp", "git"]), &mut m);
    assert_eq!(out(&o), ("", ""));
    let o = complete(&words(&["-p", "git"]), &mut m);
    assert_eq!(out(&o), ("complete -C '/bin/comp' git\n", ""));
    let o = complete(&words(&["-r", "git"]), &mut m);
    assert_eq!(out(&o), ("", ""));
    let o = complete(&words(&["-p", "git"]), &mut m);
    assert_eq!(out(&o), ("", "complete: git: no completion specification\n"));
}

#[test]
fn complete_errors() {
    let mut m = StringMap::new();
    assert_eq!(
        out(&complete(&words(&["-C"]), &mut m)),
        ("", "complete: -C: no command specified\n")
    );
    assert_eq!(
        out(&complete(&words(&["-r"]), &mut m)),
        ("", "complete: -r: no command specified\n")
    );
    assert_eq!(
        out(&complete(&words(&["-p"]), &mut m)),
        ("", "complete: -p: no command specified\n")
    );
    assert_eq!(
        out(&complete(&[], &mut m)),
        ("", "complete: usage: complete [-p] [command]\n")
    );
    assert_eq!(
        out(&complete(&words(&["-x", "a"]), &mut m)),
        ("", "complete: -x: option not implemented\n")
    );
}

#[test]
fn history_numbers_entries() {
    let cmds = words(&["echo \"hello world\"", "ls -la | head -3"]);
    let o = history(&cmds, None);
    assert_eq!(o.stdout, "    1  echo \"hello world\"\n    2  ls -la | head -3\n");
    let o = history(&cmds, Some(1));
    assert_eq!(o.stdout, "    2  ls -la | head -3\n");
    let o = history(&cmds, Some(5));
    assert_eq!(o.stdout.lines().count(), 2);
    let o = history(&cmds, Some(0));
    assert_eq!(o.stdout, "");
    let many: Vec<String> = (0..100000).map(|i| format!("c{i}")).collect();
    let o = history(&many, Some(1));
    assert_eq!(o.stdout, "100000  c99999\n");
}

#[test]
fn history_file_text() {
    assert_eq!(history_content(&words(&["a", "b c"])), "a\nb c\n");
    assert_eq!(history_content(&[]), "");
}

#[test]
fn declare_print_and_assign() {
    let mut vars = StringMap::new();
    let o = declare_assign("name".to_string(), "world".to_string(), &mut vars);
    assert_eq!(out(&o), ("", ""));
    let o = declare_print("name", &vars);
    assert_eq!(out(&o), ("declare -- name=\"world\"\n", ""));
    let o = declare_print("other", &vars);
    assert_eq!(out(&o), ("", "declare: other: not found\n"));
    let o = declare_assign("1x".to_string(), "v".to_string(), &mut vars);
    assert_eq!(out(&o), ("", "declare: `1x=v': not a valid identifier\n"));
    assert!(!vars.contains_key("1x"));
    // README: declare name="world"; echo hello $name → hello world
    let parsed = parse_args("echo hello $name", &vars);
    assert_eq!(parsed.args, vec!["echo", "hello", "world"]);
}

#[test]
fn identifiers() {
    assert!(is_valid_identifier("_a1"));
    assert!(is_valid_identifier("ñandú"));
    assert!(!is_valid_identifier(""));
    assert!(!is_valid_identifier("9a"));
    assert!(!is_valid_identifier("a-b"));
}

#[test]
fn jobs_listing() {
    let mut jobs = JobTable::new();
    jobs.add("sleep 30".to_string(), 10);
    jobs.add("true".to_string(), 11);
    jobs.add("make".to_string(), 12);
    let o = jobs_list(&mut jobs, &[false, true, false]);
    assert_eq!(
        o.stdout,
        "[1]   Running                 sleep 30 &\n[2]-  Done                    true\n[3]+  Running                 make &\n"
    );
    assert_eq!(jobs.jobs.len(), 2);
}

#[test]
fn outside_program_messages() {
    assert_eq!(command_not_found("foo").stderr, "foo: command not found\n");
    assert_eq!(start_failure("foo", "denied").stderr, "foo: denied\n");
    assert_eq!(background_command_line("sleep", &words(&["30", "x"])), "sleep 30 x");
    assert_eq!(background_command_line("sleep", &[]), "sleep");
}

#[test]
fn executables_and_path() {
    assert!(is_executable(true, Some(0o755)));
    assert!(is_executable(true, Some(0o100)));
    assert!(!is_executable(true, Some(0o644)));
    assert!(!is_executable(false, Some(0o755)));
    assert!(!is_executable(true, None));
    assert_eq!(path_directories("/bin:/usr/bin"), vec!["/bin", "/usr/bin"]);
    assert_eq!(path_directories(""), vec![""]);
    assert_eq!(path_directories("a::b:"), vec!["a", "", "b", ""]);
}

#[test]
fn shell_state_history_bookkeeping() {
    let mut st = ShellState::new();
    assert!(st.history.is_empty());
    st.record_command("one".to_string());
    st.load_history("two\r\n\nthree\n");
    assert_eq!(st.history, vec!["one", "two", "three"]);
    assert_eq!(st.unsaved_history(), vec!["one", "two", "three"]);
    st.mark_history_saved();
    assert!(st.unsaved_history().is_empty());
    st.record_command("four".to_string());
    assert_eq!(st.unsaved_history(), vec!["four"]);
}

#[test]
fn pipeline_plans() {
    let vars = StringMap::new();
    let p = parse_pipeline("echo hi | cat | echo done", &vars);
    assert_eq!(
        plan_pipeline(&p),
        vec![StageKind::BuiltinThread, StageKind::External, StageKind::InShell]
    );
    let p = parse_pipeline("ls", &vars);
    assert_eq!(plan_pipeline(&p), vec![StageKind::InShell]);
    assert_eq!(command_name(&p.commands[0]), "ls");
}

#[test]
fn history_file_round_trip() {
    let entries = words(&["echo \"hello world\"", "ls -la | head -3", "declare name=\"world\""]);
    let text = history_content(&entries);
    let mut st = ShellState::new();
    st.load_history(&text);
    assert_eq!(st.history, entries);
}

#[test]
fn braces_are_not_names() {
    assert!(!is_valid_identifier("{a"));
    assert!(!is_valid_identifier("a}"));
    let mut vars = StringMap::new();
    declare_assign("name".to_string(), "world".to_string(), &mut vars);
    let parsed = parse_args("echo ${name} $name", &vars);
    assert_eq!(parsed.args, vec!["echo", "world", "world"]);
}
