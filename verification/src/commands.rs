//! Builtin commands: recognising them, and what each one prints or
//! changes in the shell's state.

use vstd::prelude::*;
use crate::args::{ParsedCommand, Pipeline, is_identifier, ident_char};
use crate::jobs::{JobTable, listing, running_jobs, with_statuses};
use crate::map::StringMap;
use crate::text::{
    views_of, same_text, clone_strings, join_words, join_with, text_of, cat2, cat3, cat4, cat5,
    split_once, split_once_spec, parse_usize, parse_usize_spec, decimal, decimal_string, pad_left,
    push_padded_left, nonempty_lines_of, nonempty_lines, split_on, split_char, chars_of, lines_from,
    push_nonempty, strip_cr, is_alphabetic, is_alphanumeric,
};

verus! {

/// What a builtin prints: its standard output and its error output.
#[derive(Debug)]
pub struct CmdOutput {
    pub stdout: String,
    pub stderr: String,
}

impl Default for CmdOutput {
    fn default() -> (r: CmdOutput)
        ensures
            r.stdout@ == Seq::<char>::empty(),
            r.stderr@ == Seq::<char>::empty(),
    {
        CmdOutput { stdout: String::new(), stderr: String::new() }
    }
}

/// Whether `o` prints `out` on standard output and `err` on error output.
pub open spec fn prints(o: CmdOutput, out: Seq<char>, err: Seq<char>) -> bool {
    o.stdout@ == out && o.stderr@ == err
}

fn output(stdout: String, stderr: String) -> (r: CmdOutput)
    ensures
        r.stdout == stdout,
        r.stderr == stderr,
{
    CmdOutput { stdout, stderr }
}

fn stdout_only(stdout: String) -> (r: CmdOutput)
    ensures
        prints(r, stdout@, Seq::empty()),
{
    CmdOutput { stdout, stderr: String::new() }
}

fn stderr_only(stderr: String) -> (r: CmdOutput)
    ensures
        prints(r, Seq::empty(), stderr@),
{
    CmdOutput { stdout: String::new(), stderr }
}

pub enum HistoryCmd {
    Show(Option<usize>),
    Read(String),
    Write(String),
    Append(String),
}

pub enum DeclareCmd {
    Print(String),
    Assign(String, String),
}

pub enum BuiltinCommand {
    Exit,
    Echo(Vec<String>),
    Type(String),
    Pwd,
    Cd(Option<String>),
    Complete(Vec<String>),
    History(HistoryCmd),
    Declare(DeclareCmd),
    Jobs,
    Unknown(String, Vec<String>),
}

/// The mathematical value of a [`HistoryCmd`].
pub enum HistoryModel {
    Show(Option<usize>),
    Read(Seq<char>),
    Write(Seq<char>),
    Append(Seq<char>),
}

/// The mathematical value of a [`DeclareCmd`].
pub enum DeclareModel {
    Print(Seq<char>),
    Assign(Seq<char>, Seq<char>),
}

/// The mathematical value of a [`BuiltinCommand`].
pub enum BuiltinModel {
    Exit,
    Echo(Seq<Seq<char>>),
    Type(Seq<char>),
    Pwd,
    Cd(Option<Seq<char>>),
    Complete(Seq<Seq<char>>),
    History(HistoryModel),
    Declare(DeclareModel),
    Jobs,
    Unknown(Seq<char>, Seq<Seq<char>>),
}

impl View for HistoryCmd {
    type V = HistoryModel;

    open spec fn view(&self) -> HistoryModel {
        match self {
            HistoryCmd::Show(n) => HistoryModel::Show(*n),
            HistoryCmd::Read(p) => HistoryModel::Read(p@),
            HistoryCmd::Write(p) => HistoryModel::Write(p@),
            HistoryCmd::Append(p) => HistoryModel::Append(p@),
        }
    }
}

impl View for DeclareCmd {
    type V = DeclareModel;

    open spec fn view(&self) -> DeclareModel {
        match self {
            DeclareCmd::Print(n) => DeclareModel::Print(n@),
            DeclareCmd::Assign(n, v) => DeclareModel::Assign(n@, v@),
        }
    }
}

impl View for BuiltinCommand {
    type V = BuiltinModel;

    open spec fn view(&self) -> BuiltinModel {
        match self {
            BuiltinCommand::Exit => BuiltinModel::Exit,
            BuiltinCommand::Echo(a) => BuiltinModel::Echo(views_of(a@)),
            BuiltinCommand::Type(a) => BuiltinModel::Type(a@),
            BuiltinCommand::Pwd => BuiltinModel::Pwd,
            BuiltinCommand::Cd(p) => BuiltinModel::Cd(
                match p {
                    Some(s) => Some(s@),
                    None => None,
                },
            ),
            BuiltinCommand::Complete(a) => BuiltinModel::Complete(views_of(a@)),
            BuiltinCommand::History(h) => BuiltinModel::History(h@),
            BuiltinCommand::Declare(d) => BuiltinModel::Declare(d@),
            BuiltinCommand::Jobs => BuiltinModel::Jobs,
            BuiltinCommand::Unknown(c, a) => BuiltinModel::Unknown(c@, views_of(a@)),
        }
    }
}

/// The `history` subcommand that `args` select.
pub open spec fn history_args(args: Seq<Seq<char>>) -> HistoryModel {
    if args.len() == 2 && args[0] == "-r"@ {
        HistoryModel::Read(args[1])
    } else if args.len() == 2 && args[0] == "-w"@ {
        HistoryModel::Write(args[1])
    } else if args.len() == 2 && args[0] == "-a"@ {
        HistoryModel::Append(args[1])
    } else if args.len() == 1 {
        HistoryModel::Show(
            match parse_usize_spec(args[0]) {
                Some(n) => Some(n as usize),
                None => None,
            },
        )
    } else {
        HistoryModel::Show(None)
    }
}

/// The `declare` subcommand that `args` select.
pub open spec fn declare_args(args: Seq<Seq<char>>) -> DeclareModel {
    if args.len() == 2 && args[0] == "-p"@ {
        DeclareModel::Print(args[1])
    } else if args.len() == 1 && args[0].contains('=') {
        DeclareModel::Assign(split_once_spec(args[0], '=').0, split_once_spec(args[0], '=').1)
    } else {
        DeclareModel::Print(Seq::empty())
    }
}

/// The builtin that the command name `cmd` with arguments `args` stands for.
pub open spec fn from_name_spec(cmd: Seq<char>, args: Seq<Seq<char>>) -> BuiltinModel {
    if cmd == "exit"@ {
        BuiltinModel::Exit
    } else if cmd == "echo"@ {
        BuiltinModel::Echo(args)
    } else if cmd == "type"@ {
        BuiltinModel::Type(join_with(args, " "@))
    } else if cmd == "pwd"@ {
        BuiltinModel::Pwd
    } else if cmd == "cd"@ {
        BuiltinModel::Cd(if args.len() > 0 { Some(args[0]) } else { None })
    } else if cmd == "complete"@ {
        BuiltinModel::Complete(args)
    } else if cmd == "history"@ {
        BuiltinModel::History(history_args(args))
    } else if cmd == "declare"@ {
        BuiltinModel::Declare(declare_args(args))
    } else if cmd == "jobs"@ {
        BuiltinModel::Jobs
    } else {
        BuiltinModel::Unknown(cmd, args)
    }
}

/// The builtin that a parsed command line stands for: its first word names
/// it, the other words are its arguments.
pub open spec fn parse_spec(args: Seq<Seq<char>>) -> BuiltinModel {
    if args.len() == 0 {
        BuiltinModel::Unknown(Seq::empty(), Seq::empty())
    } else {
        from_name_spec(args[0], args.drop_first())
    }
}

/// Whether `cmd` names a builtin.
pub open spec fn is_builtin_spec(cmd: Seq<char>) -> bool {
    !(from_name_spec(cmd, Seq::empty()) is Unknown)
}

/// The names of the builtins, in the order completion offers them.
pub open spec fn builtin_names() -> Seq<Seq<char>> {
    seq![
        "echo"@,
        "exit"@,
        "cd"@,
        "pwd"@,
        "type"@,
        "complete"@,
        "jobs"@,
        "history"@,
        "declare"@,
    ]
}

/// The names of the builtins.
pub fn builtins() -> (r: Vec<String>)
    ensures
        views_of(r@) == builtin_names(),
{
    let r = vec![
        text_of("echo"),
        text_of("exit"),
        text_of("cd"),
        text_of("pwd"),
        text_of("type"),
        text_of("complete"),
        text_of("jobs"),
        text_of("history"),
        text_of("declare"),
    ];
    assert(views_of(r@) =~= builtin_names());
    r
}

/// A builtin is exactly a command whose name is among the builtin names.
pub proof fn law_builtins_are_the_listed_names(cmd: Seq<char>)
    ensures
        is_builtin_spec(cmd) <==> builtin_names().contains(cmd),
{
    if is_builtin_spec(cmd) {
        if cmd == "echo"@ {
            assert(builtin_names()[0] == cmd);
        } else if cmd == "exit"@ {
            assert(builtin_names()[1] == cmd);
        } else if cmd == "cd"@ {
            assert(builtin_names()[2] == cmd);
        } else if cmd == "pwd"@ {
            assert(builtin_names()[3] == cmd);
        } else if cmd == "type"@ {
            assert(builtin_names()[4] == cmd);
        } else if cmd == "complete"@ {
            assert(builtin_names()[5] == cmd);
        } else if cmd == "jobs"@ {
            assert(builtin_names()[6] == cmd);
        } else if cmd == "history"@ {
            assert(builtin_names()[7] == cmd);
        } else {
            assert(builtin_names()[8] == cmd);
        }
    }
}

fn history_cmd(args: &[String]) -> (r: HistoryCmd)
    ensures
        r@ == history_args(views_of(args@)),
{
    let ghost a = views_of(args@);
    if args.len() == 2 {
        assert(a[0] == args@[0]@);
        assert(a[1] == args@[1]@);
        if same_text(args[0].as_str(), "-r") {
            return HistoryCmd::Read(args[1].clone());
        } else if same_text(args[0].as_str(), "-w") {
            return HistoryCmd::Write(args[1].clone());
        } else if same_text(args[0].as_str(), "-a") {
            return HistoryCmd::Append(args[1].clone());
        }
    }
    if args.len() == 1 {
        assert(a[0] == args@[0]@);
        return HistoryCmd::Show(parse_usize(args[0].as_str()));
    }
    HistoryCmd::Show(None)
}

fn declare_cmd(args: &[String]) -> (r: DeclareCmd)
    ensures
        r@ == declare_args(views_of(args@)),
{
    let ghost a = views_of(args@);
    if args.len() == 2 {
        assert(a[0] == args@[0]@);
        assert(a[1] == args@[1]@);
        if same_text(args[0].as_str(), "-p") {
            return DeclareCmd::Print(args[1].clone());
        }
    }
    if args.len() == 1 {
        assert(a[0] == args@[0]@);
        if let Some((name, value)) = split_once(args[0].as_str(), '=') {
            return DeclareCmd::Assign(name, value);
        }
    }
    DeclareCmd::Print(String::new())
}

impl BuiltinCommand {
    pub fn parse(parts: &ParsedCommand) -> (r: Self)
        ensures
            r@ == parse_spec(views_of(parts.args@)),
    {
        if parts.args.len() == 0 {
            let none: Vec<String> = Vec::new();
            assert(views_of(none@) =~= Seq::<Seq<char>>::empty());
            return BuiltinCommand::Unknown(String::new(), none);
        }
        let mut rest: Vec<String> = Vec::new();
        let mut i: usize = 1;
        while i < parts.args.len()
            invariant
                1 <= i <= parts.args@.len(),
                views_of(rest@) == views_of(parts.args@).subrange(1, i as int),
            decreases parts.args.len() - i,
        {
            let ghost r0 = rest@;
            let c = parts.args[i].clone();
            rest.push(c);
            i = i + 1;
            assert(views_of(rest@) =~= views_of(r0).push(parts.args@[i - 1]@));
            assert(views_of(rest@) =~= views_of(parts.args@).subrange(1, i as int));
        }
        assert(views_of(parts.args@).subrange(1, i as int) =~= views_of(parts.args@).drop_first());
        Self::from_name(parts.args[0].as_str(), rest.as_slice())
    }

    fn from_name(cmd: &str, args: &[String]) -> (r: Self)
        ensures
            r@ == from_name_spec(cmd@, views_of(args@)),
    {
        if same_text(cmd, "exit") {
            BuiltinCommand::Exit
        } else if same_text(cmd, "echo") {
            BuiltinCommand::Echo(clone_strings(args))
        } else if same_text(cmd, "type") {
            BuiltinCommand::Type(join_words(args, " "))
        } else if same_text(cmd, "pwd") {
            BuiltinCommand::Pwd
        } else if same_text(cmd, "cd") {
            if args.len() > 0 {
                assert(views_of(args@)[0] == args@[0]@);
                BuiltinCommand::Cd(Some(args[0].clone()))
            } else {
                BuiltinCommand::Cd(None)
            }
        } else if same_text(cmd, "complete") {
            BuiltinCommand::Complete(clone_strings(args))
        } else if same_text(cmd, "history") {
            BuiltinCommand::History(history_cmd(args))
        } else if same_text(cmd, "declare") {
            BuiltinCommand::Declare(declare_cmd(args))
        } else if same_text(cmd, "jobs") {
            BuiltinCommand::Jobs
        } else {
            BuiltinCommand::Unknown(text_of(cmd), clone_strings(args))
        }
    }

    pub fn is_builtin(cmd: &str) -> (r: bool)
        ensures
            r == is_builtin_spec(cmd@),
    {
        let empty: Vec<String> = Vec::new();
        assert(views_of(empty@) =~= Seq::<Seq<char>>::empty());
        !matches!(Self::from_name(cmd, empty.as_slice()), BuiltinCommand::Unknown(_, _))
    }
}

// ── Builtins that only compute ─────────────────────────────────────

/// `echo`: the arguments separated by single spaces, then a newline.
pub fn echo(args: &[String]) -> (r: CmdOutput)
    ensures
        prints(r, join_with(views_of(args@), " "@) + "\n"@, Seq::empty()),
{
    let line = join_words(args, " ");
    stdout_only(cat2(line.as_str(), "\n"))
}

/// `pwd`, given the current directory as the system reports it (`None`
/// when it cannot be read): the directory and a newline, or nothing.
pub fn pwd(current_dir: Option<String>) -> (r: CmdOutput)
    ensures
        match current_dir {
            Some(d) => prints(r, d@ + "\n"@, Seq::empty()),
            None => prints(r, Seq::empty(), Seq::empty()),
        },
{
    match current_dir {
        Some(d) => stdout_only(cat2(d.as_str(), "\n")),
        None => stdout_only(String::new()),
    }
}

/// What `type` prints about `arg`, given where a search of `PATH` found it
/// (`found`, consulted only when `arg` is not a builtin).
pub open spec fn type_message(arg: Seq<char>, found: Option<Seq<char>>) -> Seq<char> {
    if is_builtin_spec(arg) {
        arg + " is a shell builtin\n"@
    } else {
        match found {
            Some(p) => arg + " is "@ + p + "\n"@,
            None => arg + ": not found\n"@,
        }
    }
}

/// `type arg`.
pub fn type_cmd(arg: String, found: Option<String>) -> (r: CmdOutput)
    ensures
        prints(
            r,
            type_message(
                arg@,
                match found {
                    Some(p) => Some(p@),
                    None => None,
                },
            ),
            Seq::empty(),
        ),
{
    if BuiltinCommand::is_builtin(arg.as_str()) {
        stdout_only(cat2(arg.as_str(), " is a shell builtin\n"))
    } else {
        match found {
            Some(path) => stdout_only(cat4(arg.as_str(), " is ", path.as_str(), "\n")),
            None => stdout_only(cat2(arg.as_str(), ": not found\n")),
        }
    }
}

/// The directory `cd` goes to: the argument, or the home directory when
/// there is none or it is `~`; an error message when the home directory
/// is needed and unknown.
pub fn cd_target(path: Option<String>, home: Option<String>) -> (r: Result<String, String>)
    ensures
        match path {
            Some(p) if p@ != "~"@ => r matches Ok(t) && t@ == p@,
            _ => match home {
                Some(h) => r matches Ok(t) && t@ == h@,
                None => r matches Err(e) && e@ == "cd: Couldn't determinate the home directory\n"@,
            },
        },
{
    match path {
        Some(p) if !same_text(p.as_str(), "~") => Ok(p),
        _ => match home {
            Some(h) => Ok(h),
            None => Err(text_of("cd: Couldn't determinate the home directory\n")),
        },
    }
}

/// The message of `cd` when it cannot enter `target`.
pub fn cd_error(target: &str) -> (r: String)
    ensures
        r@ == "cd: "@ + target@ + ": No such file or directory\n"@,
{
    cat3("cd: ", target, ": No such file or directory\n")
}

/// The effect of `complete args` on the completion table `m`: the new
/// table, the standard output and the error output.
pub open spec fn complete_spec(args: Seq<Seq<char>>, m: Map<Seq<char>, Seq<char>>) -> (
    Map<Seq<char>, Seq<char>>,
    Seq<char>,
    Seq<char>,
) {
    if args.len() == 3 && args[0] == "-C"@ {
        (m.insert(args[2], args[1]), Seq::empty(), Seq::empty())
    } else if args.len() == 1 && args[0] == "-C"@ {
        (m, Seq::empty(), "complete: -C: no command specified\n"@)
    } else if args.len() == 2 && args[0] == "-p"@ {
        if m.contains_key(args[1]) {
            (m, "complete -C '"@ + m[args[1]] + "' "@ + args[1] + "\n"@, Seq::empty())
        } else {
            (m, Seq::empty(), "complete: "@ + args[1] + ": no completion specification\n"@)
        }
    } else if args.len() == 2 && args[0] == "-r"@ {
        (m.remove(args[1]), Seq::empty(), Seq::empty())
    } else if args.len() == 1 && args[0] == "-r"@ {
        (m, Seq::empty(), "complete: -r: no command specified\n"@)
    } else if args.len() == 1 && args[0] == "-p"@ {
        (m, Seq::empty(), "complete: -p: no command specified\n"@)
    } else if args.len() == 0 {
        (m, Seq::empty(), "complete: usage: complete [-p] [command]\n"@)
    } else {
        (m, Seq::empty(), "complete: "@ + args[0] + ": option not implemented\n"@)
    }
}

/// `complete`: registers (`-C completer command`), shows (`-p command`)
/// or removes (`-r command`) the program that completes a command's arguments.
pub fn complete(args: &[String], completions: &mut StringMap) -> (r: CmdOutput)
    ensures
        final(completions)@ == complete_spec(views_of(args@), old(completions)@).0,
        prints(
            r,
            complete_spec(views_of(args@), old(completions)@).1,
            complete_spec(views_of(args@), old(completions)@).2,
        ),
{
    let ghost a = views_of(args@);
    let n = args.len();
    if n >= 1 {
        assert(a[0] == args@[0]@);
    }
    if n >= 2 {
        assert(a[1] == args@[1]@);
    }
    if n == 3 {
        assert(a[2] == args@[2]@);
        if same_text(args[0].as_str(), "-C") {
            completions.insert(args[2].clone(), args[1].clone());
            return CmdOutput::default();
        }
    }
    if n == 1 && same_text(args[0].as_str(), "-C") {
        return stderr_only(text_of("complete: -C: no command specified\n"));
    }
    if n == 2 && same_text(args[0].as_str(), "-p") {
        let command = args[1].as_str();
        return match completions.get(command) {
            Some(completer) => stdout_only(
                cat5("complete -C '", completer.as_str(), "' ", command, "\n"),
            ),
            None => stderr_only(cat3("complete: ", command, ": no completion specification\n")),
        };
    }
    if n == 2 && same_text(args[0].as_str(), "-r") {
        completions.remove(args[1].as_str());
        return CmdOutput::default();
    }
    if n == 1 && same_text(args[0].as_str(), "-r") {
        return stderr_only(text_of("complete: -r: no command specified\n"));
    }
    if n == 1 && same_text(args[0].as_str(), "-p") {
        return stderr_only(text_of("complete: -p: no command specified\n"));
    }
    if n == 0 {
        return stderr_only(text_of("complete: usage: complete [-p] [command]\n"));
    }
    stderr_only(cat3("complete: ", args[0].as_str(), ": option not implemented\n"))
}

/// The listing of `history`: each entry from index `start` on, numbered from 1
/// in a right-aligned field of 5, two spaces, the entry and a newline.
pub open spec fn history_listing(commands: Seq<Seq<char>>, start: int, end: int) -> Seq<char>
    decreases end - start,
{
    if start < end && 0 <= end - 1 < commands.len() {
        history_listing(commands, start, end - 1) + pad_left(decimal(end as nat), 5) + "  "@
            + commands[end - 1] + "\n"@
    } else {
        Seq::empty()
    }
}

/// The index of the first entry shown by `history` with an optional limit:
/// the last `n` entries when `n` is less than the number of entries, else all.
pub open spec fn history_start(len: int, limit: Option<usize>) -> int {
    match limit {
        Some(n) if n < len => len - n,
        _ => 0,
    }
}

/// `history n` shows the last `n` entries, or all of them when there are
/// fewer; `history` alone shows every entry.
pub proof fn law_history_limit_counts_entries(len: int, n: usize)
    requires
        0 <= len,
    ensures
        0 <= history_start(len, Some(n)) <= len,
        len - history_start(len, Some(n)) == if n < len {
            n as int
        } else {
            len
        },
        history_start(len, None) == 0,
{
}

/// `history [n]`.
pub fn history(commands: &[String], limit: Option<usize>) -> (r: CmdOutput)
    ensures
        prints(
            r,
            history_listing(
                views_of(commands@),
                history_start(commands@.len() as int, limit),
                commands@.len() as int,
            ),
            Seq::empty(),
        ),
{
    let len = commands.len();
    let start = match limit {
        Some(n) if n < len => len - n,
        _ => 0,
    };
    let mut output = String::new();
    let mut i = start;
    proof {
        assert(history_listing(views_of(commands@), start as int, start as int) == Seq::<char>::empty());
    }
    while i < len
        invariant
            start <= i <= len,
            len == commands@.len(),
            output@ == history_listing(views_of(commands@), start as int, i as int),
        decreases len - i,
    {
        let number = decimal_string(i + 1);
        push_padded_left(&mut output, number.as_str(), 5);
        output.append("  ");
        output.append(commands[i].as_str());
        output.append("\n");
        i = i + 1;
        proof {
            assert(views_of(commands@)[i - 1] == commands@[i - 1]@);
            assert(output@ =~= history_listing(views_of(commands@), start as int, i as int));
        }
    }
    stdout_only(output)
}

/// The listing of entries `start..end` continues the listing of entries
/// `0..start`: together they are the listing of `0..end`, in the same order.
pub proof fn law_history_listing_splits(commands: Seq<Seq<char>>, start: int, end: int)
    requires
        0 <= start <= end <= commands.len(),
    ensures
        history_listing(commands, 0, start) + history_listing(commands, start, end)
            == history_listing(commands, 0, end),
    decreases end - start,
{
    if start < end {
        law_history_listing_splits(commands, start, end - 1);
        let line = pad_left(decimal(end as nat), 5) + "  "@ + commands[end - 1] + "\n"@;
        assert(history_listing(commands, start, end) == history_listing(commands, start, end - 1)
            + line);
        assert(history_listing(commands, 0, end) == history_listing(commands, 0, end - 1) + line);
        assert(history_listing(commands, 0, start) + history_listing(commands, start, end) =~= (
        history_listing(commands, 0, start) + history_listing(commands, start, end - 1)) + line);
    } else {
        assert(history_listing(commands, start, end) =~= Seq::<char>::empty());
        assert(history_listing(commands, 0, start) + Seq::<char>::empty() =~= history_listing(
            commands,
            0,
            start,
        ));
    }
}

/// `history n` prints the tail of what `history` prints: the full listing
/// is the lines left out followed by exactly the limited listing.
pub proof fn law_limited_history_is_tail(commands: Seq<Seq<char>>, limit: Option<usize>)
    ensures
        ({
            let len = commands.len() as int;
            let full = history_listing(commands, history_start(len, None), len);
            let shown = history_listing(commands, history_start(len, limit), len);
            &&& shown.len() <= full.len()
            &&& full == history_listing(commands, 0, history_start(len, limit)) + shown
            &&& shown == full.skip(full.len() - shown.len())
        }),
{
    let len = commands.len() as int;
    let st = history_start(len, limit);
    law_history_listing_splits(commands, st, len);
    let full = history_listing(commands, 0, len);
    let shown = history_listing(commands, st, len);
    assert(full.skip(full.len() - shown.len()) =~= shown);
}

/// The text of a history file holding `entries`: each entry and a newline.
pub open spec fn history_text(entries: Seq<Seq<char>>) -> Seq<char>
    decreases entries.len(),
{
    if entries.len() == 0 {
        Seq::empty()
    } else {
        history_text(entries.drop_last()) + entries.last() + "\n"@
    }
}

/// The text written to a history file for `entries`.
pub fn history_content(entries: &[String]) -> (r: String)
    ensures
        r@ == history_text(views_of(entries@)),
{
    let mut content = String::new();
    let mut i: usize = 0;
    while i < entries.len()
        invariant
            i <= entries@.len(),
            content@ == history_text(views_of(entries@.take(i as int))),
        decreases entries.len() - i,
    {
        content.append(entries[i].as_str());
        content.append("\n");
        i = i + 1;
        proof {
            let v = views_of(entries@.take(i as int));
            assert(v.drop_last() =~= views_of(entries@.take(i - 1)));
            assert(v.last() == entries@[i - 1]@);
            assert(content@ =~= history_text(v));
        }
    }
    assert(entries@.take(entries@.len() as int) =~= entries@);
    content
}

/// What `declare -p name` prints: standard output and error output.
pub open spec fn declare_print_spec(name: Seq<char>, vars: Map<Seq<char>, Seq<char>>) -> (
    Seq<char>,
    Seq<char>,
) {
    if vars.contains_key(name) {
        ("declare -- "@ + name + "=\""@ + vars[name] + "\"\n"@, Seq::empty())
    } else {
        (Seq::empty(), "declare: "@ + name + ": not found\n"@)
    }
}

/// `declare -p name`.
pub fn declare_print(name: &str, variables: &StringMap) -> (r: CmdOutput)
    ensures
        prints(r, declare_print_spec(name@, variables@).0, declare_print_spec(name@, variables@).1),
{
    match variables.get(name) {
        Some(value) => stdout_only(cat5("declare -- ", name, "=\"", value.as_str(), "\"\n")),
        None => stderr_only(cat3("declare: ", name, ": not found\n")),
    }
}

/// Whether `name` is a valid variable name.
pub fn is_valid_identifier(name: &str) -> (r: bool)
    ensures
        r == is_identifier(name@),
{
    let x = chars_of(name);
    if x.len() == 0 {
        return false;
    }
    if !(is_alphabetic(x[0]) || x[0] == '_') {
        return false;
    }
    let mut i: usize = 1;
    while i < x.len()
        invariant
            1 <= i <= x@.len(),
            x@ == name@,
            forall|k: int| 1 <= k < i ==> ident_char(#[trigger] x@[k]),
        decreases x.len() - i,
    {
        if !(is_alphanumeric(x[i]) || x[i] == '_') {
            return false;
        }
        i = i + 1;
    }
    true
}

/// `declare name=value`: binds `name` when it is a valid variable name,
/// and otherwise reports it.
pub fn declare_assign(name: String, value: String, variables: &mut StringMap) -> (r: CmdOutput)
    ensures
        if is_identifier(name@) {
            &&& final(variables)@ == old(variables)@.insert(name@, value@)
            &&& prints(r, Seq::empty(), Seq::empty())
        } else {
            &&& final(variables)@ == old(variables)@
            &&& prints(
                r,
                Seq::empty(),
                "declare: `"@ + name@ + "="@ + value@ + "': not a valid identifier\n"@,
            )
        },
{
    if !is_valid_identifier(name.as_str()) {
        return stderr_only(
            cat5("declare: `", name.as_str(), "=", value.as_str(), "': not a valid identifier\n"),
        );
    }
    variables.insert(name, value);
    CmdOutput::default()
}

/// `jobs`, given which job processes have exited (`exited[i]` for the
/// `i`-th job): the statuses are updated, every job is listed, and the
/// finished ones are dropped.
pub fn jobs_list(jobs: &mut JobTable, exited: &[bool]) -> (r: CmdOutput)
    requires
        exited@.len() == old(jobs).jobs@.len(),
    ensures
        prints(
            r,
            listing(with_statuses(old(jobs).jobs@, exited@), old(jobs).jobs@.len() as int),
            Seq::empty(),
        ),
        final(jobs).jobs@ == running_jobs(with_statuses(old(jobs).jobs@, exited@)),
        final(jobs).next_id == old(jobs).next_id,
{
    jobs.update_statuses(exited);
    let ghost updated = jobs.jobs@;
    let len = jobs.jobs.len();
    let mut stdout = String::new();
    let mut i: usize = 0;
    while i < len
        invariant
            len == jobs.jobs@.len(),
            jobs.jobs@ == updated,
            i <= len,
            stdout@ == listing(updated.take(i as int), len as int),
        decreases len - i,
    {
        let symbol = if i + 1 == len {
            '+'
        } else if i + 2 == len {
            '-'
        } else {
            ' '
        };
        assert(symbol == crate::jobs::job_symbol(i as int, len as int));
        let line = jobs.jobs[i].format_line(symbol);
        let ghost s0 = stdout@;
        stdout.append(line.as_str());
        stdout.append("\n");
        i = i + 1;
        proof {
            let t = updated.take(i as int);
            assert(stdout@ == s0 + line@ + "\n"@);
            reveal_strlit("\n");
            assert(t.drop_last() =~= updated.take(i - 1));
            assert(t.last() == updated[i - 1]);
            assert(stdout@ =~= listing(t, len as int));
        }
    }
    assert(updated.take(len as int) =~= updated);
    jobs.remove_done();
    stdout_only(stdout)
}

// ── Running outside programs ────────────────────────────────────────

/// What the shell reports when no program `cmd` is found.
pub fn command_not_found(cmd: &str) -> (r: CmdOutput)
    ensures
        prints(r, Seq::empty(), cmd@ + ": command not found\n"@),
{
    stderr_only(cat2(cmd, ": command not found\n"))
}

/// What the shell reports when the program `cmd` could not be started,
/// given the system's message.
pub fn start_failure(cmd: &str, message: &str) -> (r: CmdOutput)
    ensures
        prints(r, Seq::empty(), cmd@ + ": "@ + message@ + "\n"@),
{
    stderr_only(cat4(cmd, ": ", message, "\n"))
}

/// The command line recorded for a background job: the command, and its
/// arguments after a space when there are any.
pub fn background_command_line(cmd: &str, args: &[String]) -> (r: String)
    ensures
        r@ == (if args@.len() == 0 {
            cmd@
        } else {
            cmd@ + " "@ + join_with(views_of(args@), " "@)
        }),
{
    if args.len() == 0 {
        text_of(cmd)
    } else {
        let rest = join_words(args, " ");
        cat3(cmd, " ", rest.as_str())
    }
}

/// Whether a path names an executable file: it is a regular file and its
/// permission bits (when they could be read) let someone execute it.
pub fn is_executable(is_file: bool, mode: Option<u32>) -> (r: bool)
    ensures
        r == (is_file && match mode {
            Some(m) => m & 0o111u32 != 0,
            None => false,
        }),
{
    is_file && match mode {
        Some(m) => m & 0o111 != 0,
        None => false,
    }
}

/// The directories listed in a `PATH` value, in order.
pub fn path_directories(path: &str) -> (r: Vec<String>)
    ensures
        views_of(r@) == split_char(path@, ':'),
{
    split_on(path, ':')
}

// ── Laws of the builtins ────────────────────────────────────────────

/// After `complete -C prog cmd`, `complete -p cmd` shows `prog`.
pub proof fn law_complete_shows_what_was_registered(
    prog: Seq<char>,
    cmd: Seq<char>,
    m: Map<Seq<char>, Seq<char>>,
)
    ensures
        ({
            let m2 = complete_spec(seq!["-C"@, prog, cmd], m).0;
            complete_spec(seq!["-p"@, cmd], m2) == (
                m2,
                "complete -C '"@ + prog + "' "@ + cmd + "\n"@,
                Seq::<char>::empty(),
            )
        }),
{
}

/// After `complete -r cmd`, `complete -p cmd` reports that there is no
/// completion for `cmd`.
pub proof fn law_complete_removed_is_gone(cmd: Seq<char>, m: Map<Seq<char>, Seq<char>>)
    ensures
        ({
            let m2 = complete_spec(seq!["-r"@, cmd], m).0;
            complete_spec(seq!["-p"@, cmd], m2) == (
                m2,
                Seq::<char>::empty(),
                "complete: "@ + cmd + ": no completion specification\n"@,
            )
        }),
{
    reveal_strlit("-r");
    reveal_strlit("-p");
    assert("-r"@[1] != "-p"@[1]);
    let m2 = complete_spec(seq!["-r"@, cmd], m).0;
    assert(!m2.contains_key(cmd));
}

/// After `declare name=value` with a valid name, `declare -p name` shows it.
pub proof fn law_declare_then_print(
    name: Seq<char>,
    value: Seq<char>,
    vars: Map<Seq<char>, Seq<char>>,
)
    requires
        is_identifier(name),
    ensures
        declare_print_spec(name, vars.insert(name, value)) == (
            "declare -- "@ + name + "=\""@ + value + "\"\n"@,
            Seq::<char>::empty(),
        ),
{
}

/// After `declare name=value` with a valid name, `$name` and `${name}` on a
/// later command line expand to `value`.
pub proof fn law_declared_variable_expands(
    name: Seq<char>,
    value: Seq<char>,
    vars: Map<Seq<char>, Seq<char>>,
)
    requires
        is_identifier(name),
    ensures
        crate::args::expand_str(seq!['$'] + name, vars.insert(name, value)) == value,
        crate::args::expand_str(seq!['$', '{'] + name + seq!['}'], vars.insert(name, value)) == value,
{
    crate::args::law_variable_name_expands_to_value(name, vars.insert(name, value));
}

// ── Shell state ─────────────────────────────────────────────────────

pub struct ShellState {
    pub jobs: JobTable,
    pub completions: StringMap,
    pub history: Vec<String>,
    pub history_append: usize,
    pub variables: StringMap,
}

/// The history entries not yet written to a file by `history -w` or `-a`.
pub open spec fn unsaved(history: Seq<Seq<char>>, saved: int) -> Seq<Seq<char>> {
    history.skip(saved)
}

/// Whether `a` and `b` agree on everything but the history.
pub open spec fn same_but_history(a: ShellState, b: ShellState) -> bool {
    &&& a.jobs.jobs@ == b.jobs.jobs@
    &&& a.jobs.next_id == b.jobs.next_id
    &&& a.completions@ == b.completions@
    &&& a.variables@ == b.variables@
}

/// A change that the shell makes to its history.
pub enum HistoryOp {
    /// A command line is recorded.
    Record(Seq<char>),
    /// The lines of a history file's text are added.
    Load(Seq<char>),
    /// Every entry is written to a file (`history -w`, `history -a`).
    MarkSaved,
}

/// The history and the count of saved entries after `op`.
pub open spec fn apply_history_op(history: Seq<Seq<char>>, saved: int, op: HistoryOp) -> (
    Seq<Seq<char>>,
    int,
) {
    match op {
        HistoryOp::Record(line) => (history.push(line), saved),
        HistoryOp::Load(content) => (history + nonempty_lines(content), saved),
        HistoryOp::MarkSaved => (history, history.len() as int),
    }
}

/// The history and the count of saved entries after `ops`, in order.
pub open spec fn apply_history_ops(history: Seq<Seq<char>>, saved: int, ops: Seq<HistoryOp>) -> (
    Seq<Seq<char>>,
    int,
)
    decreases ops.len(),
{
    if ops.len() == 0 {
        (history, saved)
    } else {
        let (h, s) = apply_history_ops(history, saved, ops.drop_last());
        apply_history_op(h, s, ops.last())
    }
}

/// Whatever the shell does to its history, the count of saved entries
/// stays within the history, so the unsaved entries are always a suffix
/// of it.
pub proof fn law_history_operations_keep_saved_within(
    history: Seq<Seq<char>>,
    saved: int,
    ops: Seq<HistoryOp>,
)
    requires
        0 <= saved <= history.len(),
    ensures
        0 <= apply_history_ops(history, saved, ops).1 <= apply_history_ops(history, saved, ops).0.len(),
    decreases ops.len(),
{
    if ops.len() > 0 {
        law_history_operations_keep_saved_within(history, saved, ops.drop_last());
    }
}

impl ShellState {
    /// The count of saved entries never exceeds the history.
    pub open spec fn wf(&self) -> bool {
        self.history_append <= self.history@.len()
    }

    pub fn new() -> (r: Self)
        ensures
            r.wf(),
            r.jobs.jobs@.len() == 0,
            r.jobs.next_id == 1,
            r.completions@ == Map::<Seq<char>, Seq<char>>::empty(),
            r.history@.len() == 0,
            r.history_append == 0,
            r.variables@ == Map::<Seq<char>, Seq<char>>::empty(),
    {
        ShellState {
            jobs: JobTable::new(),
            completions: StringMap::new(),
            history: Vec::new(),
            history_append: 0,
            variables: StringMap::new(),
        }
    }

    /// Adds a command line to the history.
    pub fn record_command(&mut self, line: String)
        ensures
            old(self).wf() ==> final(self).wf(),
            views_of(final(self).history@) == views_of(old(self).history@).push(line@),
            final(self).history_append == old(self).history_append,
            (views_of(final(self).history@), final(self).history_append as int) == apply_history_op(
                views_of(old(self).history@),
                old(self).history_append as int,
                HistoryOp::Record(line@),
            ),
            same_but_history(*final(self), *old(self)),
    {
        let ghost h0 = self.history@;
        self.history.push(line);
        assert(views_of(self.history@) =~= views_of(h0).push(line@));
    }

    /// Adds the non-empty lines of a history file's text to the history.
    pub fn load_history(&mut self, content: &str)
        ensures
            old(self).wf() ==> final(self).wf(),
            views_of(final(self).history@) == views_of(old(self).history@) + nonempty_lines(content@),
            final(self).history_append == old(self).history_append,
            (views_of(final(self).history@), final(self).history_append as int) == apply_history_op(
                views_of(old(self).history@),
                old(self).history_append as int,
                HistoryOp::Load(content@),
            ),
            same_but_history(*final(self), *old(self)),
    {
        let lines = nonempty_lines_of(content);
        let mut i: usize = 0;
        while i < lines.len()
            invariant
                old(self).wf() ==> self.wf(),
                i <= lines@.len(),
                self.history_append == old(self).history_append,
                same_but_history(*self, *old(self)),
                views_of(self.history@) == views_of(old(self).history@) + views_of(lines@).take(i as int),
            decreases lines.len() - i,
        {
            let ghost h0 = self.history@;
            let line = lines[i].clone();
            self.history.push(line);
            i = i + 1;
            assert(views_of(self.history@) =~= views_of(h0).push(lines@[i - 1]@));
            assert(views_of(lines@).take(i as int) =~= views_of(lines@).take(i - 1).push(lines@[i - 1]@));
            assert(views_of(self.history@) =~= views_of(old(self).history@) + views_of(lines@).take(i as int));
        }
        assert(views_of(lines@).take(i as int) =~= views_of(lines@));
    }

    /// The history entries not yet saved, oldest first.
    pub fn unsaved_history(&self) -> (r: Vec<String>)
        requires
            self.wf(),
        ensures
            views_of(r@) == unsaved(views_of(self.history@), self.history_append as int),
    {
        let mut r: Vec<String> = Vec::new();
        let mut i = self.history_append;
        while i < self.history.len()
            invariant
                self.history_append <= i <= self.history@.len(),
                views_of(r@) == views_of(self.history@).subrange(self.history_append as int, i as int),
            decreases self.history.len() - i,
        {
            let ghost r0 = r@;
            let c = self.history[i].clone();
            r.push(c);
            i = i + 1;
            assert(views_of(r@) =~= views_of(r0).push(self.history@[i - 1]@));
            assert(views_of(r@) =~= views_of(self.history@).subrange(self.history_append as int, i as int));
        }
        assert(views_of(self.history@).subrange(self.history_append as int, i as int) =~= unsaved(
            views_of(self.history@),
            self.history_append as int,
        ));
        r
    }

    /// Records that every history entry has been saved.
    pub fn mark_history_saved(&mut self)
        ensures
            final(self).wf(),
            final(self).history == old(self).history,
            final(self).history_append == old(self).history@.len(),
            (views_of(final(self).history@), final(self).history_append as int) == apply_history_op(
                views_of(old(self).history@),
                old(self).history_append as int,
                HistoryOp::MarkSaved,
            ),
            same_but_history(*final(self), *old(self)),
            unsaved(views_of(final(self).history@), final(self).history_append as int).len() == 0,
    {
        self.history_append = self.history.len();
    }
}

/// Whether `e` can be kept in a history file as one line: it is not empty,
/// holds no newline and does not end with a carriage return.
pub open spec fn storable_entry(e: Seq<char>) -> bool {
    &&& e.len() > 0
    &&& !e.contains('\n')
    &&& e.last() != '\r'
}

proof fn lemma_lines_read_entry(s: Seq<char>, p: int, e: Seq<char>, k: int, found: Seq<Seq<char>>)
    requires
        0 <= p,
        0 <= k <= e.len(),
        p + e.len() <= s.len(),
        s.subrange(p, p + e.len()) == e,
        !e.contains('\n'),
    ensures
        lines_from(s, p + k, found, e.take(k)) == lines_from(s, p + e.len(), found, e),
    decreases e.len() - k,
{
    if k < e.len() {
        assert(s[p + k] == e[k]);
        if s[p + k] == '\n' {
            assert(e.contains('\n'));
        }
        assert(e.take(k).push(e[k]) =~= e.take(k + 1));
        lemma_lines_read_entry(s, p, e, k + 1, found);
    } else {
        assert(e.take(k) =~= e);
    }
}

proof fn lemma_history_text_prefix(entries: Seq<Seq<char>>, rest: Seq<char>)
    requires
        forall|k: int| 0 <= k < entries.len() ==> storable_entry(#[trigger] entries[k]),
    ensures
        lines_from(history_text(entries) + rest, 0, Seq::empty(), Seq::empty()) == lines_from(
            history_text(entries) + rest,
            history_text(entries).len() as int,
            entries,
            Seq::empty(),
        ),
    decreases entries.len(),
{
    reveal_strlit("\n");
    if entries.len() > 0 {
        let prev = entries.drop_last();
        let e = entries.last();
        assert(storable_entry(e));
        let t = history_text(entries);
        let tp = history_text(prev);
        assert(t == tp + e + seq!['\n']);
        let s = t + rest;
        assert(s =~= tp + (e + seq!['\n'] + rest));
        lemma_history_text_prefix(prev, e + seq!['\n'] + rest);
        let p = tp.len() as int;
        assert(s.subrange(p, p + e.len()) =~= e);
        assert(e.take(0) =~= Seq::<char>::empty());
        lemma_lines_read_entry(s, p, e, 0, prev);
        assert(s[p + e.len()] == '\n');
        assert(strip_cr(e) == e);
        assert(push_nonempty(prev, e) =~= entries);
        assert(lines_from(s, p + e.len(), prev, e) == lines_from(
            s,
            p + e.len() + 1,
            push_nonempty(prev, strip_cr(e)),
            Seq::empty(),
        ));
        assert(p + e.len() + 1 == t.len());
        assert(lines_from(s, 0, Seq::empty(), Seq::empty()) == lines_from(s, p, prev, Seq::empty()));
        assert(lines_from(s, p, prev, e.take(0)) == lines_from(s, p, prev, Seq::empty()));
    } else {
        assert(entries =~= Seq::<Seq<char>>::empty());
        assert(history_text(entries) + rest =~= rest);
    }
}

/// What `history -w` writes, `history -r` reads back: the lines of a history
/// file are its entries, for entries that fit on one line (the shell records
/// trimmed, non-empty command lines).
pub proof fn law_history_file_round_trip(entries: Seq<Seq<char>>)
    requires
        forall|k: int| 0 <= k < entries.len() ==> storable_entry(#[trigger] entries[k]),
    ensures
        nonempty_lines(history_text(entries)) == entries,
{
    let t = history_text(entries);
    assert(t + Seq::<char>::empty() =~= t);
    lemma_history_text_prefix(entries, Seq::empty());
    assert(push_nonempty(entries, Seq::empty()) == entries);
}

/// The saved entries followed by the unsaved ones are the whole history:
/// `history -w` and later `history -a` calls together write each entry once.
pub proof fn law_saved_then_unsaved_is_history(history: Seq<Seq<char>>, saved: int)
    requires
        0 <= saved <= history.len(),
    ensures
        history.take(saved) + unsaved(history, saved) == history,
{
    assert(history.take(saved) + unsaved(history, saved) =~= history);
}

/// A command recorded after the history was saved is the only unsaved entry.
pub proof fn law_recorded_after_save_is_unsaved(history: Seq<Seq<char>>, line: Seq<char>)
    ensures
        unsaved(history.push(line), history.len() as int) == seq![line],
{
    assert(unsaved(history.push(line), history.len() as int) =~= seq![line]);
}

// ── Pipelines ───────────────────────────────────────────────────────

/// How a pipeline stage runs.
#[derive(Debug, Clone, Copy, PartialEq, Eq, Structural)]
pub enum StageKind {
    /// Runs in the shell itself, with its redirects: a lone command, or a
    /// builtin at the end of a pipeline.
    InShell,
    /// A builtin before the end of a pipeline: its output feeds the next stage.
    BuiltinThread,
    /// An outside program.
    External,
}

/// The name a parsed command starts with (empty when it has no words).
pub open spec fn command_name_spec(args: Seq<Seq<char>>) -> Seq<char> {
    if args.len() > 0 {
        args[0]
    } else {
        Seq::empty()
    }
}

/// How stage `i` of a pipeline of `len` stages named `name` runs.
pub open spec fn stage_kind(name: Seq<char>, i: int, len: int) -> StageKind {
    if len == 1 {
        StageKind::InShell
    } else if is_builtin_spec(name) {
        if i == len - 1 {
            StageKind::InShell
        } else {
            StageKind::BuiltinThread
        }
    } else {
        StageKind::External
    }
}

/// The name a parsed command starts with.
pub fn command_name(parsed: &ParsedCommand) -> (r: String)
    ensures
        r@ == command_name_spec(views_of(parsed.args@)),
{
    if parsed.args.len() > 0 {
        assert(views_of(parsed.args@)[0] == parsed.args@[0]@);
        parsed.args[0].clone()
    } else {
        String::new()
    }
}

/// How each stage of a pipeline runs.
pub fn plan_pipeline(pipeline: &Pipeline) -> (r: Vec<StageKind>)
    ensures
        r@.len() == pipeline.commands@.len(),
        forall|i: int|
            0 <= i < r@.len() ==> #[trigger] r@[i] == stage_kind(
                command_name_spec(views_of(pipeline.commands@[i].args@)),
                i,
                r@.len() as int,
            ),
{
    let n = pipeline.commands.len();
    let mut plan: Vec<StageKind> = Vec::new();
    let mut i: usize = 0;
    while i < n
        invariant
            n == pipeline.commands@.len(),
            i <= n,
            plan@.len() == i,
            forall|k: int|
                0 <= k < i ==> #[trigger] plan@[k] == stage_kind(
                    command_name_spec(views_of(pipeline.commands@[k].args@)),
                    k,
                    n as int,
                ),
        decreases n - i,
    {
        let name = command_name(&pipeline.commands[i]);
        let kind = if n == 1 {
            StageKind::InShell
        } else if BuiltinCommand::is_builtin(name.as_str()) {
            if i == n - 1 {
                StageKind::InShell
            } else {
                StageKind::BuiltinThread
            }
        } else {
            StageKind::External
        };
        plan.push(kind);
        i = i + 1;
    }
    plan
}

} // verus!
