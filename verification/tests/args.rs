use my_rust_shell::args::{parse_args, parse_pipeline, expand_tokens, RedirectMode, Segment};
use my_rust_shell::map::StringMap;

fn vars_map() -> StringMap {
    let mut v = StringMap::new();
    v.insert("var".to_string(), "hello".to_string());
    v.insert("var2".to_string(), "world".to_string());
    v.insert("_private".to_string(), "secret".to_string());
    v
}

#[test]
fn test_quoted_string() {
    let vars = StringMap::new();
    let result = parse_args("'holoa mundo; aserfafds'", &vars);
    assert_eq!(
        result.args,
        vec!["holoa mundo; aserfafds"],
        "Input: 'holoa mundo; aserfafds'"
    );
}

#[test]
fn test_unquoted() {
    let vars = StringMap::new();
    let result = parse_args("holoa mundo", &vars);
    assert_eq!(result.args, vec!["holoa", "mundo"]);
}

#[test]
fn test_mixed_concatenates() {
    let vars = StringMap::new();
    let result = parse_args("ho'la'", &vars);
    assert_eq!(
        result.args,
        vec!["hola"],
        "Mixed quoting should concatenate: ho'la'"
    );
}

#[test]
fn test_no_closing_quote() {
    let vars = StringMap::new();
    let result = parse_args("'holoa mundo", &vars);
    assert_eq!(
        result.args,
        vec!["holoa mundo"],
        "Unclosed quote: 'holoa mundo"
    );
}

#[test]
fn test_leading_space_quoted() {
    let vars = StringMap::new();
    let result = parse_args(" 'holoa mundo; aserfafds'", &vars);
    assert_eq!(result.args, vec!["holoa mundo; aserfafds"], "Leading space");
}

#[test]
fn test_unclosed_and_unquoted() {
    let vars = StringMap::new();
    let result = parse_args("holoa mundo", &vars);
    assert_eq!(result.args, vec!["holoa", "mundo"], "Unquoted: holoa mundo");
}

#[test]
fn test_multiple_quoted_groups() {
    let vars = StringMap::new();
    let result = parse_args("'a' 'b'", &vars);
    assert_eq!(result.args, vec!["a", "b"], "Multiple quoted: 'a' 'b'");
}

#[test]
fn test_adjacent_quoted_groups_concatenate() {
    let vars = StringMap::new();
    let result = parse_args("'a''b'", &vars);
    assert_eq!(
        result.args,
        vec!["ab"],
        "Adjacent quoted should concatenate: 'a''b'"
    );
}

#[test]
fn test_quoted_with_trailing() {
    let vars = StringMap::new();
    let result = parse_args("'a' b", &vars);
    assert_eq!(result.args, vec!["a", "b"], "Quoted then unquoted: 'a' b");
}

#[test]
fn test_leads_with_unquoted_then_quoted_trailing() {
    let vars = StringMap::new();
    let result = parse_args("a 'b'", &vars);
    assert_eq!(result.args, vec!["a", "b"], "Unquoted then quoted: a 'b'");
}

#[test]
fn test_empty_quotes() {
    let vars = StringMap::new();
    let result = parse_args("''", &vars);
    assert_eq!(result.args, vec![""], "Empty quotes: ''");
}

#[test]
fn test_multiple_spaces() {
    let vars = StringMap::new();
    let result = parse_args("  a   b  ", &vars);
    assert_eq!(result.args, vec!["a", "b"], "Multiple spaces: '  a   b  '");
}

#[test]
fn test_quotes_and_spaces_mix() {
    let vars = StringMap::new();
    let result = parse_args("echo 'hola mundo' 'foo bar'", &vars);
    assert_eq!(
        result.args,
        vec!["echo", "hola mundo", "foo bar"],
        "Mixed quotes and spaces"
    );
}

#[test]
fn test_trailing_unclosed_quote() {
    let vars = StringMap::new();
    let result = parse_args("echo 'hola", &vars);
    assert_eq!(
        result.args,
        vec!["echo", "hola"],
        "Trailing unclosed quote: echo 'hola"
    );
}

// ── Variable expansion tests ─────────────────────────────────────

#[test]
fn test_expand_unquoted_var() {
    let vars = vars_map();
    let result = parse_args("echo $var", &vars);
    assert_eq!(result.args, vec!["echo", "hello"]);
}

#[test]
fn test_expand_multiple_vars() {
    let vars = vars_map();
    let result = parse_args("echo $var $var2", &vars);
    assert_eq!(result.args, vec!["echo", "hello", "world"]);
}

#[test]
fn test_single_quoted_prevents_expansion() {
    let vars = vars_map();
    let result = parse_args("echo '$var'", &vars);
    assert_eq!(result.args, vec!["echo", "$var"]);
}

#[test]
fn test_double_quoted_expands() {
    let vars = vars_map();
    let result = parse_args("echo \"$var\"", &vars);
    assert_eq!(result.args, vec!["echo", "hello"]);
}

#[test]
fn test_var_brace_expansion() {
    let vars = vars_map();
    let result = parse_args("echo pre${var}post", &vars);
    assert_eq!(result.args, vec!["echo", "prehellopost"]);
}

#[test]
fn test_var_adjacent_to_text() {
    let vars = vars_map();
    let result = parse_args("echo pre$var", &vars);
    assert_eq!(result.args, vec!["echo", "prehello"]);
}

#[test]
fn test_var_underscore_prefix() {
    let vars = vars_map();
    let result = parse_args("echo $_private", &vars);
    assert_eq!(result.args, vec!["echo", "secret"]);
}

#[test]
fn test_undefined_var_removes_word() {
    let vars = StringMap::new();
    let result = parse_args("echo $undefined", &vars);
    // POSIX: unset variable expands to nothing, word is removed
    assert_eq!(result.args, vec!["echo"]);
}

#[test]
fn test_mixed_literal_and_expandable() {
    let vars = vars_map();
    let result = parse_args("echo 'literal_$var'_and_$var", &vars);
    // 'literal_$var' → Literal("literal_$var")
    // _and_ → Expandable("_and_")
    // $var → Expandable("$var") → "hello"
    // Result: "literal_$var_and_hello"
    assert_eq!(result.args, vec!["echo", "literal_$var_and_hello"]);
}

// ── Further cases ────────────────────────────────────────────────

#[test]
fn stdout_redirect_overwrite() {
    let vars = StringMap::new();
    let result = parse_args("echo new file > output.txt", &vars);
    assert_eq!(result.args, vec!["echo", "new", "file"]);
    let r = result.stdout_redirect.expect("stdout redirect");
    assert_eq!(r.path, "output.txt");
    assert!(matches!(r.mode, RedirectMode::Overwrite));
    assert!(result.stderr_redirect.is_none());
    assert!(!result.background);
}

#[test]
fn stdout_redirect_append_with_descriptor() {
    let vars = StringMap::new();
    let result = parse_args("echo entry 1>>  file.log", &vars);
    assert_eq!(result.args, vec!["echo", "entry"]);
    let r = result.stdout_redirect.expect("stdout redirect");
    assert_eq!(r.path, "file.log");
    assert!(matches!(r.mode, RedirectMode::Append));
}

#[test]
fn stderr_redirect() {
    let vars = StringMap::new();
    let result = parse_args("cat missing.txt 2> errors.log", &vars);
    assert_eq!(result.args, vec!["cat", "missing.txt"]);
    assert!(result.stdout_redirect.is_none());
    let r = result.stderr_redirect.expect("stderr redirect");
    assert_eq!(r.path, "errors.log");
}

#[test]
fn redirect_without_path_is_ignored() {
    let vars = StringMap::new();
    let result = parse_args("echo a >", &vars);
    assert_eq!(result.args, vec!["echo", "a"]);
    assert!(result.stdout_redirect.is_none());
}

#[test]
fn background_marker() {
    let vars = StringMap::new();
    let result = parse_args("sleep 30 &", &vars);
    assert_eq!(result.args, vec!["sleep", "30"]);
    assert!(result.background);
    let result = parse_args("a && b", &vars);
    assert!(!result.background);
    assert_eq!(result.args, vec!["a", "b"]);
}

#[test]
fn backslash_escapes() {
    let vars = vars_map();
    let result = parse_args("echo \\$var a\\ b", &vars);
    assert_eq!(result.args, vec!["echo", "$var", "a b"]);
    let result = parse_args("echo \"x\\$var\\q\"", &vars);
    assert_eq!(result.args, vec!["echo", "x$var\\q"]);
}

#[test]
fn unclosed_brace_kept_verbatim() {
    let vars = vars_map();
    let result = parse_args("echo ${var", &vars);
    assert_eq!(result.args, vec!["echo", "${var"]);
    let result = parse_args("echo $ $1", &vars);
    assert_eq!(result.args, vec!["echo", "$", "$1"]);
}

#[test]
fn expand_tokens_keeps_literal_segments() {
    let vars = vars_map();
    let tokens = vec![
        vec![Segment::Literal("$var".to_string())],
        vec![Segment::Expandable("$nothing".to_string())],
        vec![],
        vec![Segment::Expandable("x$var".to_string()), Segment::Literal("!".to_string())],
    ];
    let words = expand_tokens(&tokens, &vars);
    assert_eq!(words, vec!["$var", "", "xhello!"]);
}

#[test]
fn pipeline_splits_on_single_bar() {
    let vars = vars_map();
    let p = parse_pipeline("ls -la | grep '|' | head -3", &vars);
    assert_eq!(p.commands.len(), 3);
    assert_eq!(p.commands[0].args, vec!["ls", "-la"]);
    assert_eq!(p.commands[1].args, vec!["grep", "|"]);
    assert_eq!(p.commands[2].args, vec!["head", "-3"]);
    let p = parse_pipeline("a || b", &vars);
    assert_eq!(p.commands.len(), 1);
    assert_eq!(p.commands[0].args, vec!["a", "||", "b"]);
    let p = parse_pipeline("a |  ", &vars);
    assert_eq!(p.commands.len(), 1);
    let p = parse_pipeline("echo $var | cat", &vars);
    assert_eq!(p.commands[0].args, vec!["echo", "hello"]);
}

#[test]
fn redirect_forms() {
    let vars = StringMap::new();
    let r = parse_args("echo a>b", &vars);
    assert_eq!(r.args, vec!["echo", "a"]);
    assert_eq!(r.stdout_redirect.expect("redirect").path, "b");
    let r = parse_args("cmd 2>>err.log", &vars);
    assert_eq!(r.args, vec!["cmd"]);
    let e = r.stderr_redirect.expect("stderr redirect");
    assert_eq!(e.path, "err.log");
    assert!(matches!(e.mode, RedirectMode::Append));
    let r = parse_args("cmd a2> f", &vars);
    assert_eq!(r.args, vec!["cmd", "a2"]);
    assert_eq!(r.stdout_redirect.expect("redirect").path, "f");
    let r = parse_args("cmd > 'x y'", &vars);
    assert_eq!(r.stdout_redirect.expect("redirect").path, "'x");
    assert_eq!(r.args, vec!["cmd", "y"]);
}
