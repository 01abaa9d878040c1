//! Command-line parsing: splitting on pipes, tokenizing with quoting
//! context, and `$var` expansion.

use vstd::prelude::*;
use crate::map::{StringMap, lookup_or_empty};
use crate::text::{
    push_nonempty, join_with, find_from, lemma_find_from_bounds, alphabetic, alphanumeric,
    whitespace, is_alphabetic, is_alphanumeric, is_whitespace, push_char, chars_of,
};

verus! {

/// Quoting context while scanning a command line.
#[derive(PartialEq, Eq, Structural, Clone, Copy, Debug)]
pub enum ParseState {
    Unquoted,
    SingleQuoted,
    DoubleQuoted,
}

/// A segment of a token with quoting context preserved.
///
/// During tokenization, text from single-quoted or escaped contexts
/// becomes `Literal` — `$var` in these segments is NEVER expanded.
/// Text from unquoted or double-quoted contexts becomes `Expandable` —
/// `$var` IS expanded during the second pass.
#[derive(Debug, Clone, PartialEq, Eq)]
pub enum Segment {
    Literal(String),
    Expandable(String),
}

/// The mathematical value of a [`Segment`].
pub enum SegmentModel {
    Literal(Seq<char>),
    Expandable(Seq<char>),
}

impl View for Segment {
    type V = SegmentModel;

    open spec fn view(&self) -> SegmentModel {
        match self {
            Segment::Literal(s) => SegmentModel::Literal(s@),
            Segment::Expandable(s) => SegmentModel::Expandable(s@),
        }
    }
}

/// The text held by a segment, whatever its quoting context.
pub open spec fn segment_text(s: SegmentModel) -> Seq<char> {
    match s {
        SegmentModel::Literal(t) => t,
        SegmentModel::Expandable(t) => t,
    }
}

/// The models of a sequence of segments.
pub open spec fn parts_model(v: Seq<Segment>) -> Seq<SegmentModel> {
    Seq::new(v.len(), |i: int| v[i]@)
}

/// The models of a sequence of tokens.
pub open spec fn tokens_model(v: Seq<Vec<Segment>>) -> Seq<Seq<SegmentModel>> {
    Seq::new(v.len(), |i: int| parts_model(v[i]@))
}

#[derive(Debug, Clone, Copy, PartialEq, Eq, Structural)]
pub enum RedirectMode {
    Overwrite,
    Append,
}

#[derive(Debug, Clone)]
pub struct Redirect {
    pub path: String,
    pub mode: RedirectMode,
}

/// The mathematical value of a [`Redirect`].
pub struct RedirectModel {
    pub path: Seq<char>,
    pub mode: RedirectMode,
}

impl View for Redirect {
    type V = RedirectModel;

    open spec fn view(&self) -> RedirectModel {
        RedirectModel { path: self.path@, mode: self.mode }
    }
}

/// The model of an optional redirect.
pub open spec fn redirect_model(r: Option<Redirect>) -> Option<RedirectModel> {
    match r {
        Some(x) => Some(x@),
        None => None,
    }
}

#[derive(Debug)]
pub struct ParsedCommand {
    pub args: Vec<String>,
    pub stdout_redirect: Option<Redirect>,
    pub stderr_redirect: Option<Redirect>,
    pub background: bool,
}

#[derive(Debug)]
pub struct Pipeline {
    pub commands: Vec<ParsedCommand>,
}

// ── Tokenization model ──────────────────────────────────────────────

/// The state of the tokenizer between two characters of the input.
pub struct Scan {
    /// Finished tokens.
    pub tokens: Seq<Seq<SegmentModel>>,
    /// Segments of the token being built.
    pub parts: Seq<SegmentModel>,
    /// Characters not yet closed into a segment.
    pub buf: Seq<char>,
    /// Whether a token is under way.
    pub has_content: bool,
    pub quote: ParseState,
    pub stdout: Option<RedirectModel>,
    pub stderr: Option<RedirectModel>,
    pub background: bool,
}

/// The tokenizer state before the first character.
pub open spec fn scan_init() -> Scan {
    Scan {
        tokens: Seq::empty(),
        parts: Seq::empty(),
        buf: Seq::empty(),
        has_content: false,
        quote: ParseState::Unquoted,
        stdout: None,
        stderr: None,
        background: false,
    }
}

/// `parts` with `buf` closed into a segment, unless `buf` is empty.
pub open spec fn flush(parts: Seq<SegmentModel>, buf: Seq<char>, expandable: bool) -> Seq<
    SegmentModel,
> {
    if buf.len() > 0 {
        parts.push(
            if expandable {
                SegmentModel::Expandable(buf)
            } else {
                SegmentModel::Literal(buf)
            },
        )
    } else {
        parts
    }
}

/// Whether the segments spell exactly the one-character descriptor `d`.
pub open spec fn is_descriptor(parts: Seq<SegmentModel>, d: char) -> bool {
    parts.len() == 1 && segment_text(parts[0]) == seq![d]
}

/// The first index at or after `j` that does not hold a space.
pub open spec fn skip_spaces(s: Seq<char>, j: int) -> int
    decreases s.len() - j,
{
    if 0 <= j < s.len() && s[j] == ' ' {
        skip_spaces(s, j + 1)
    } else {
        j
    }
}

/// The first index at or after `j` that holds a space, or the end.
pub open spec fn word_end(s: Seq<char>, j: int) -> int
    decreases s.len() - j,
{
    if 0 <= j < s.len() && s[j] != ' ' {
        word_end(s, j + 1)
    } else {
        j
    }
}

/// Characters that a backslash escapes inside double quotes.
pub open spec fn double_quote_escapable(c: char) -> bool {
    c == '"' || c == '\\' || c == '$' || c == '`' || c == '\n'
}

/// The redirect step at a `>` found at index `i`.
pub open spec fn scan_redirect(s: Seq<char>, i: int, st: Scan) -> (int, Scan) {
    let parts = flush(st.parts, st.buf, true);
    let is2 = is_descriptor(parts, '2');
    let is1 = is_descriptor(parts, '1');
    let tokens = if st.has_content && !is1 && !is2 {
        st.tokens.push(parts)
    } else {
        st.tokens
    };
    let append = i + 1 < s.len() && s[i + 1] == '>';
    let p0 = skip_spaces(s, if append { i + 2 } else { i + 1 });
    let p1 = word_end(s, p0);
    let path = s.subrange(p0, p1);
    let next = if p1 < s.len() { p1 + 1 } else { p1 };
    let red = RedirectModel {
        path,
        mode: if append { RedirectMode::Append } else { RedirectMode::Overwrite },
    };
    (
        next,
        Scan {
            tokens,
            parts: Seq::empty(),
            buf: Seq::empty(),
            has_content: false,
            stdout: if path.len() > 0 && !is2 { Some(red) } else { st.stdout },
            stderr: if path.len() > 0 && is2 { Some(red) } else { st.stderr },
            ..st
        },
    )
}

/// One step of the tokenizer at index `i` (`0 <= i < s.len()`): the index
/// of the next unread character and the new state.
pub open spec fn scan_step(s: Seq<char>, i: int, st: Scan) -> (int, Scan) {
    let c = s[i];
    let has_next = i + 1 < s.len();
    if st.quote == ParseState::Unquoted && c == '>' {
        scan_redirect(s, i, st)
    } else if st.quote == ParseState::Unquoted && c == '&' {
        let parts = flush(st.parts, st.buf, true);
        if has_next && s[i + 1] == '&' {
            (i + 2, Scan { parts, buf: Seq::empty(), ..st })
        } else {
            (i + 1, Scan { parts, buf: Seq::empty(), background: true, ..st })
        }
    } else if (st.quote == ParseState::Unquoted && c == '\\') || (st.quote
        == ParseState::DoubleQuoted && c == '\\' && has_next && double_quote_escapable(s[i + 1])) {
        if has_next {
            let parts = flush(st.parts, st.buf, true).push(SegmentModel::Literal(seq![s[i + 1]]));
            (i + 2, Scan { parts, buf: Seq::empty(), has_content: true, ..st })
        } else {
            (i + 1, Scan { has_content: true, ..st })
        }
    } else if st.quote == ParseState::DoubleQuoted && c == '\\' {
        (i + 1, Scan { buf: st.buf.push('\\'), has_content: true, ..st })
    } else if st.quote == ParseState::Unquoted && c == '\'' {
        (
            i + 1,
            Scan {
                parts: flush(st.parts, st.buf, true),
                buf: Seq::empty(),
                quote: ParseState::SingleQuoted,
                has_content: true,
                ..st
            },
        )
    } else if st.quote == ParseState::SingleQuoted && c == '\'' {
        (
            i + 1,
            Scan {
                parts: flush(st.parts, st.buf, false),
                buf: Seq::empty(),
                quote: ParseState::Unquoted,
                ..st
            },
        )
    } else if st.quote == ParseState::Unquoted && c == '"' {
        (i + 1, Scan { quote: ParseState::DoubleQuoted, has_content: true, ..st })
    } else if st.quote == ParseState::DoubleQuoted && c == '"' {
        (i + 1, Scan { quote: ParseState::Unquoted, ..st })
    } else if st.quote == ParseState::Unquoted && c == ' ' {
        if st.has_content {
            (
                i + 1,
                Scan {
                    tokens: st.tokens.push(flush(st.parts, st.buf, true)),
                    parts: Seq::empty(),
                    buf: Seq::empty(),
                    has_content: false,
                    ..st
                },
            )
        } else {
            (i + 1, st)
        }
    } else {
        (i + 1, Scan { buf: st.buf.push(c), has_content: true, ..st })
    }
}

/// The tokenizer state after reading `s` from index `i` on.
pub open spec fn scan_from(s: Seq<char>, i: int, st: Scan) -> Scan
    decreases s.len() - i,
{
    if 0 <= i < s.len() {
        let (j, next) = scan_step(s, i, st);
        if i < j <= s.len() {
            scan_from(s, j, next)
        } else {
            next
        }
    } else {
        st
    }
}

/// Closes the token under way at the end of the input.
pub open spec fn scan_finish(st: Scan) -> Scan {
    if st.has_content {
        Scan {
            tokens: st.tokens.push(
                flush(st.parts, st.buf, st.quote != ParseState::SingleQuoted),
            ),
            ..st
        }
    } else {
        st
    }
}

/// The result of tokenizing the whole of `s`.
pub open spec fn tokenize_spec(s: Seq<char>) -> Scan {
    scan_finish(scan_from(s, 0, scan_init()))
}

proof fn lemma_skip_spaces_bounds(s: Seq<char>, j: int)
    requires
        0 <= j <= s.len(),
    ensures
        j <= skip_spaces(s, j) <= s.len(),
        forall|k: int| j <= k < skip_spaces(s, j) ==> s[k] == ' ',
        skip_spaces(s, j) < s.len() ==> s[skip_spaces(s, j)] != ' ',
    decreases s.len() - j,
{
    if j < s.len() && s[j] == ' ' {
        lemma_skip_spaces_bounds(s, j + 1);
    }
}

proof fn lemma_word_end_bounds(s: Seq<char>, j: int)
    requires
        0 <= j <= s.len(),
    ensures
        j <= word_end(s, j) <= s.len(),
        forall|k: int| j <= k < word_end(s, j) ==> s[k] != ' ',
        word_end(s, j) < s.len() ==> s[word_end(s, j)] == ' ',
    decreases s.len() - j,
{
    if j < s.len() && s[j] != ' ' {
        lemma_word_end_bounds(s, j + 1);
    }
}

/// Every step consumes at least one character and stays within the input.
proof fn lemma_scan_step_advances(s: Seq<char>, i: int, st: Scan)
    requires
        0 <= i < s.len(),
    ensures
        i < scan_step(s, i, st).0 <= s.len(),
{
    if st.quote == ParseState::Unquoted && s[i] == '>' {
        let append = i + 1 < s.len() && s[i + 1] == '>';
        let p = if append { i + 2 } else { i + 1 };
        lemma_skip_spaces_bounds(s, p);
        lemma_word_end_bounds(s, skip_spaces(s, p));
    }
}

proof fn lemma_parts_model_push(v: Seq<Segment>, x: Segment)
    ensures
        parts_model(v.push(x)) == parts_model(v).push(x@),
{
    assert(parts_model(v.push(x)) =~= parts_model(v).push(x@));
}

proof fn lemma_tokens_model_push(v: Seq<Vec<Segment>>, x: Vec<Segment>)
    ensures
        tokens_model(v.push(x)) == tokens_model(v).push(parts_model(x@)),
{
    assert(tokens_model(v.push(x)) =~= tokens_model(v).push(parts_model(x@)));
}

// ── Tokenization (Pass 1) ────────────────────────────────────────────

/// Whether `c` is one of the characters that a backslash escapes inside
/// double quotes.
fn is_double_quote_escapable(c: char) -> (r: bool)
    ensures
        r == double_quote_escapable(c),
{
    c == '"' || c == '\\' || c == '$' || c == '`' || c == '\n'
}

/// Drain `buf` into a `Segment` and push it onto `parts`.
/// `expandable` controls whether the segment is `Expandable` or `Literal`.
fn flush_buf(parts: &mut Vec<Segment>, buf: &mut String, expandable: bool)
    ensures
        parts_model(final(parts)@) == flush(parts_model(old(parts)@), old(buf)@, expandable),
        final(buf)@ == Seq::<char>::empty(),
{
    if !buf.as_str().is_empty() {
        let mut taken = String::new();
        std::mem::swap(&mut taken, buf);
        let seg = if expandable {
            Segment::Expandable(taken)
        } else {
            Segment::Literal(taken)
        };
        proof {
            lemma_parts_model_push(parts@, seg);
        }
        parts.push(seg);
    }
}

/// Whether `parts` consists of one segment whose text is the single character `d`.
fn is_descriptor_exec(parts: &Vec<Segment>, d: char) -> (r: bool)
    ensures
        r == is_descriptor(parts_model(parts@), d),
{
    if parts.len() != 1 {
        return false;
    }
    let text = match &parts[0] {
        Segment::Literal(s) => s,
        Segment::Expandable(s) => s,
    };
    let cs = chars_of(text.as_str());
    let r = cs.len() == 1 && cs[0] == d;
    proof {
        if r {
            assert(cs@ =~= seq![d]);
        }
        if !r && cs@.len() == 1 {
            assert(cs@[0] != seq![d][0]);
        }
    }
    r
}

/// The model of the tokenizer's executable state.
spec fn scan_of(
    tokens: Seq<Vec<Segment>>,
    parts: Seq<Segment>,
    buf: Seq<char>,
    has_content: bool,
    quote: ParseState,
    stdout: Option<Redirect>,
    stderr: Option<Redirect>,
    background: bool,
) -> Scan {
    Scan {
        tokens: tokens_model(tokens),
        parts: parts_model(parts),
        buf,
        has_content,
        quote,
        stdout: redirect_model(stdout),
        stderr: redirect_model(stderr),
        background,
    }
}

/// Tokenize a raw shell command string, preserving which parts of each
/// token are expandable vs literal. Pure — no external state needed.
fn tokenize(raw_args: &str) -> (r: (Vec<Vec<Segment>>, Option<Redirect>, Option<Redirect>, bool))
    ensures
        tokens_model(r.0@) == tokenize_spec(raw_args@).tokens,
        redirect_model(r.1) == tokenize_spec(raw_args@).stdout,
        redirect_model(r.2) == tokenize_spec(raw_args@).stderr,
        r.3 == tokenize_spec(raw_args@).background,
{
    let chars = chars_of(raw_args);
    let ghost s = chars@;
    let n = chars.len();
    let mut raw_tokens: Vec<Vec<Segment>> = Vec::new();
    let mut current_parts: Vec<Segment> = Vec::new();
    let mut current_buf = String::new();
    let mut has_content = false;
    let mut state = ParseState::Unquoted;
    let mut stdout_redirect: Option<Redirect> = None;
    let mut stderr_redirect: Option<Redirect> = None;
    let mut background = false;
    let mut i: usize = 0;
    proof {
        assert(tokens_model(raw_tokens@) =~= Seq::empty());
        assert(parts_model(current_parts@) =~= Seq::empty());
        assert(scan_of(raw_tokens@, current_parts@, current_buf@, has_content, state,
            stdout_redirect, stderr_redirect, background) == scan_init());
    }

    while i < n
        invariant
            n == chars@.len(),
            s == chars@,
            s == raw_args@,
            i <= n,
            scan_from(s, i as int, scan_of(raw_tokens@, current_parts@, current_buf@, has_content,
                state, stdout_redirect, stderr_redirect, background)) == scan_from(s, 0, scan_init()),
        decreases n - i,
    {
        let ghost st0 = scan_of(raw_tokens@, current_parts@, current_buf@, has_content, state,
            stdout_redirect, stderr_redirect, background);
        let ghost i0 = i as int;
        proof {
            lemma_scan_step_advances(s, i0, st0);
        }
        let c = chars[i];
        let has_next = i + 1 < n;
        match (state, c) {
            // ── Redirect ──────────────────────────────────────────
            (ParseState::Unquoted, '>') => {
                flush_buf(&mut current_parts, &mut current_buf, true);
                let is_2 = is_descriptor_exec(&current_parts, '2');
                let is_1 = is_descriptor_exec(&current_parts, '1');
                if has_content && !is_1 && !is_2 {
                    let mut taken: Vec<Segment> = Vec::new();
                    std::mem::swap(&mut taken, &mut current_parts);
                    proof {
                        lemma_tokens_model_push(raw_tokens@, taken);
                    }
                    raw_tokens.push(taken);
                } else {
                    current_parts = Vec::new();
                }
                proof {
                    assert(parts_model(current_parts@) =~= Seq::empty());
                }
                has_content = false;

                let append = has_next && chars[i + 1] == '>';
                let mode = if append {
                    RedirectMode::Append
                } else {
                    RedirectMode::Overwrite
                };
                let mut j: usize = if append { i + 2 } else { i + 1 };
                let ghost j0 = j as int;
                while j < n && chars[j] == ' '
                    invariant
                        n == chars@.len(),
                        s == chars@,
                        j0 <= j <= n,
                        skip_spaces(s, j as int) == skip_spaces(s, j0),
                    decreases n - j,
                {
                    j = j + 1;
                }
                let p0 = j;
                let mut path = String::new();
                while j < n && chars[j] != ' '
                    invariant
                        n == chars@.len(),
                        s == chars@,
                        p0 <= j <= n,
                        word_end(s, j as int) == word_end(s, p0 as int),
                        path@ == s.subrange(p0 as int, j as int),
                    decreases n - j,
                {
                    push_char(&mut path, chars[j]);
                    j = j + 1;
                    assert(path@ =~= s.subrange(p0 as int, j as int));
                }
                if j < n {
                    j = j + 1;
                }
                if !path.as_str().is_empty() {
                    let redirect = Redirect { path, mode };
                    if is_2 {
                        stderr_redirect = Some(redirect);
                    } else {
                        stdout_redirect = Some(redirect);
                    }
                }
                i = j;
            },
            // ── Background ─────────────────────────────────────────
            (ParseState::Unquoted, '&') => {
                flush_buf(&mut current_parts, &mut current_buf, true);
                if !(has_next && chars[i + 1] == '&') {
                    background = true;
                    i = i + 1;
                } else {
                    i = i + 2;
                }
            },
            // ── Escape in unquoted: emitted char is literal ────────
            (ParseState::Unquoted, '\\') => {
                if has_next {
                    let escaped = chars[i + 1];
                    // Flush any expandable content collected so far
                    flush_buf(&mut current_parts, &mut current_buf, true);
                    // The escaped char is always literal
                    push_char(&mut current_buf, escaped);
                    flush_buf(&mut current_parts, &mut current_buf, false);
                    i = i + 2;
                } else {
                    i = i + 1;
                }
                has_content = true;
            },
            // ── Escape in double-quoted ────────────────────────────
            (ParseState::DoubleQuoted, '\\') => {
                if has_next && is_double_quote_escapable(chars[i + 1]) {
                    let next = chars[i + 1];
                    // The escaped char is literal
                    flush_buf(&mut current_parts, &mut current_buf, true);
                    push_char(&mut current_buf, next);
                    flush_buf(&mut current_parts, &mut current_buf, false);
                    i = i + 2;
                } else {
                    push_char(&mut current_buf, '\\');
                    i = i + 1;
                }
                has_content = true;
            },
            // ── Single quotes: flip to literal context ─────────────
            (ParseState::Unquoted, '\'') => {
                // Flush whatever we had in expandable context
                flush_buf(&mut current_parts, &mut current_buf, true);
                state = ParseState::SingleQuoted;
                has_content = true;
                i = i + 1;
            },
            (ParseState::SingleQuoted, '\'') => {
                // Flush the single-quoted content as literal
                flush_buf(&mut current_parts, &mut current_buf, false);
                state = ParseState::Unquoted;
                i = i + 1;
            },
            // ── Double quotes: same expandability as unquoted ─────
            (ParseState::Unquoted, '"') => {
                state = ParseState::DoubleQuoted;
                has_content = true;
                i = i + 1;
            },
            (ParseState::DoubleQuoted, '"') => {
                state = ParseState::Unquoted;
                i = i + 1;
            },
            // ── Token boundary ─────────────────────────────────────
            (ParseState::Unquoted, ' ') => {
                if has_content {
                    flush_buf(&mut current_parts, &mut current_buf, true);
                    let mut taken: Vec<Segment> = Vec::new();
                    std::mem::swap(&mut taken, &mut current_parts);
                    proof {
                        lemma_tokens_model_push(raw_tokens@, taken);
                        assert(parts_model(current_parts@) =~= Seq::empty());
                    }
                    raw_tokens.push(taken);
                    has_content = false;
                }
                i = i + 1;
            },
            // ── Regular character ──────────────────────────────────
            (_, c) => {
                push_char(&mut current_buf, c);
                has_content = true;
                i = i + 1;
            },
        }
        proof {
            let st1 = scan_of(raw_tokens@, current_parts@, current_buf@, has_content, state,
                stdout_redirect, stderr_redirect, background);
            assert(scan_step(s, i0, st0) == (i as int, st1));
        }
    }

    // ── End of input: flush remaining ────────────────────────────────
    let ghost st_end = scan_of(raw_tokens@, current_parts@, current_buf@, has_content, state,
        stdout_redirect, stderr_redirect, background);
    if has_content {
        let expandable = state != ParseState::SingleQuoted;
        flush_buf(&mut current_parts, &mut current_buf, expandable);
        proof {
            lemma_tokens_model_push(raw_tokens@, current_parts);
        }
        raw_tokens.push(current_parts);
    }
    (raw_tokens, stdout_redirect, stderr_redirect, background)
}

// ── Variable expansion model ────────────────────────────────────────

/// Whether `c` may continue a variable name.
pub open spec fn ident_char(c: char) -> bool {
    alphanumeric(c) || c == '_'
}

/// Whether `c` may start a variable name.
pub open spec fn ident_start(c: char) -> bool {
    alphabetic(c) || c == '_'
}

/// The end of the run of name characters that starts at `j`.
pub open spec fn ident_end(s: Seq<char>, j: int) -> int
    decreases s.len() - j,
{
    if 0 <= j < s.len() && ident_char(s[j]) {
        ident_end(s, j + 1)
    } else {
        j
    }
}

/// One expansion step at index `i` (`0 <= i < s.len()`): the index of the
/// next unread character and the text produced.
pub open spec fn expand_step(s: Seq<char>, i: int, vars: Map<Seq<char>, Seq<char>>) -> (
    int,
    Seq<char>,
) {
    if s[i] == '$' {
        if i + 1 < s.len() && s[i + 1] == '{' {
            let close = find_from(s, i + 2, '}');
            let name = s.subrange(i + 2, close);
            if close < s.len() {
                (close + 1, lookup_or_empty(vars, name))
            } else {
                (s.len() as int, seq!['$', '{'] + name)
            }
        } else if i + 1 < s.len() && ident_start(s[i + 1]) {
            let end = ident_end(s, i + 2);
            (end, lookup_or_empty(vars, s.subrange(i + 1, end)))
        } else {
            (i + 1, seq!['$'])
        }
    } else {
        (i + 1, seq![s[i]])
    }
}

/// The expansion of `s` from index `i` on.
pub open spec fn expand_from(s: Seq<char>, i: int, vars: Map<Seq<char>, Seq<char>>) -> Seq<char>
    decreases s.len() - i,
{
    if 0 <= i < s.len() {
        let (j, out) = expand_step(s, i, vars);
        if i < j <= s.len() {
            out + expand_from(s, j, vars)
        } else {
            out
        }
    } else {
        Seq::empty()
    }
}

/// `s` with every `$name` and `${name}` replaced by the value of `name`
/// (empty when unbound).
pub open spec fn expand_str(s: Seq<char>, vars: Map<Seq<char>, Seq<char>>) -> Seq<char> {
    expand_from(s, 0, vars)
}

/// The text a segment stands for: literal text verbatim, expandable text expanded.
pub open spec fn expand_segment(seg: SegmentModel, vars: Map<Seq<char>, Seq<char>>) -> Seq<char> {
    match seg {
        SegmentModel::Literal(t) => t,
        SegmentModel::Expandable(t) => expand_str(t, vars),
    }
}

/// The word a token stands for: its segments expanded and concatenated.
pub open spec fn expand_parts(parts: Seq<SegmentModel>, vars: Map<Seq<char>, Seq<char>>) -> Seq<
    char,
>
    decreases parts.len(),
{
    if parts.len() == 0 {
        Seq::empty()
    } else {
        expand_parts(parts.drop_last(), vars) + expand_segment(parts.last(), vars)
    }
}

/// The words of a token list: a token whose segments expand to nothing is
/// dropped, while a token with no segments at all (`''`) stays as an empty word.
pub open spec fn expand_all(tokens: Seq<Seq<SegmentModel>>, vars: Map<Seq<char>, Seq<char>>) -> Seq<
    Seq<char>,
>
    decreases tokens.len(),
{
    if tokens.len() == 0 {
        Seq::empty()
    } else {
        let prev = expand_all(tokens.drop_last(), vars);
        let word = expand_parts(tokens.last(), vars);
        if word.len() == 0 && tokens.last().len() > 0 {
            prev
        } else {
            prev.push(word)
        }
    }
}

/// The models of a sequence of strings.
pub open spec fn strings_model(v: Seq<String>) -> Seq<Seq<char>> {
    Seq::new(v.len(), |i: int| v[i]@)
}

proof fn lemma_strings_model_push(v: Seq<String>, x: String)
    ensures
        strings_model(v.push(x)) == strings_model(v).push(x@),
{
    assert(strings_model(v.push(x)) =~= strings_model(v).push(x@));
}

proof fn lemma_ident_end_bounds(s: Seq<char>, j: int)
    requires
        0 <= j <= s.len(),
    ensures
        j <= ident_end(s, j) <= s.len(),
    decreases s.len() - j,
{
    if j < s.len() && ident_char(s[j]) {
        lemma_ident_end_bounds(s, j + 1);
    }
}

proof fn lemma_expand_step_advances(s: Seq<char>, i: int, vars: Map<Seq<char>, Seq<char>>)
    requires
        0 <= i < s.len(),
    ensures
        i < expand_step(s, i, vars).0 <= s.len(),
{
    if s[i] == '$' && i + 1 < s.len() {
        lemma_find_from_bounds(s, i + 2, '}');
        lemma_ident_end_bounds(s, i + 2);
    }
}

// ── Variable Expansion (Pass 2) ──────────────────────────────────────

/// Expand `$var` references inside every `Expandable` segment.
/// `Literal` segments are passed through verbatim.
pub fn expand_tokens(raw_tokens: &[Vec<Segment>], vars: &StringMap) -> (r: Vec<String>)
    ensures
        strings_model(r@) == expand_all(tokens_model(raw_tokens@), vars@),
{
    let mut words: Vec<String> = Vec::new();
    let mut t: usize = 0;
    while t < raw_tokens.len()
        invariant
            t <= raw_tokens@.len(),
            strings_model(words@) == expand_all(tokens_model(raw_tokens@.take(t as int)), vars@),
        decreases raw_tokens.len() - t,
    {
        let parts = &raw_tokens[t];
        let mut expanded = String::new();
        let mut k: usize = 0;
        while k < parts.len()
            invariant
                k <= parts@.len(),
                parts == raw_tokens@[t as int],
                expanded@ == expand_parts(parts_model(parts@.take(k as int)), vars@),
            decreases parts.len() - k,
        {
            match &parts[k] {
                Segment::Literal(s) => expanded.append(s.as_str()),
                Segment::Expandable(s) => expand_string(s.as_str(), vars, &mut expanded),
            }
            k = k + 1;
            proof {
                let pm = parts_model(parts@.take(k as int));
                assert(pm.drop_last() =~= parts_model(parts@.take(k - 1)));
                assert(pm.last() == parts@[k - 1]@);
            }
        }
        proof {
            assert(parts@.take(k as int) =~= parts@);
        }
        let keep = !(expanded.as_str().is_empty() && parts.len() != 0);
        proof {
            let tm = tokens_model(raw_tokens@.take(t + 1));
            assert(tm.drop_last() =~= tokens_model(raw_tokens@.take(t as int)));
            assert(tm.last() == parts_model(parts@));
            lemma_strings_model_push(words@, expanded);
        }
        if keep {
            words.push(expanded);
        }
        t = t + 1;
    }
    proof {
        assert(raw_tokens@.take(raw_tokens@.len() as int) =~= raw_tokens@);
    }
    words
}

/// Scan `s` for `$identifier` patterns and replace them.
fn expand_string(s: &str, vars: &StringMap, result: &mut String)
    ensures
        final(result)@ == old(result)@ + expand_str(s@, vars@),
{
    let chars = chars_of(s);
    let ghost sq = chars@;
    let n = chars.len();
    let mut i: usize = 0;
    while i < n
        invariant
            n == chars@.len(),
            sq == chars@,
            sq == s@,
            i <= n,
            result@ + expand_from(sq, i as int, vars@) == old(result)@ + expand_str(sq, vars@),
        decreases n - i,
    {
        let ghost before = result@;
        let ghost i0 = i as int;
        proof {
            lemma_expand_step_advances(sq, i0, vars@);
        }
        let c = chars[i];
        if c == '$' {
            if i + 1 < n && chars[i + 1] == '{' {
                let mut j: usize = i + 2;
                let mut name = String::new();
                while j < n && chars[j] != '}'
                    invariant
                        n == chars@.len(),
                        sq == chars@,
                        0 <= i0,
                        i0 + 2 <= j <= n,
                        find_from(sq, j as int, '}') == find_from(sq, i0 + 2, '}'),
                        name@ == sq.subrange(i0 + 2, j as int),
                    decreases n - j,
                {
                    push_char(&mut name, chars[j]);
                    j = j + 1;
                    assert(name@ =~= sq.subrange(i0 + 2, j as int));
                }
                if j < n {
                    let value = vars.get_or_empty(name.as_str());
                    result.append(value.as_str());
                    i = j + 1;
                } else {
                    result.append("${");
                    result.append(name.as_str());
                    proof {
                        reveal_strlit("${");
                        assert("${"@ =~= seq!['$', '{']);
                    }
                    i = j;
                }
            } else if i + 1 < n && (is_alphabetic(chars[i + 1]) || chars[i + 1] == '_') {
                let mut name = String::new();
                push_char(&mut name, chars[i + 1]);
                let mut j: usize = i + 2;
                assert(name@ =~= sq.subrange(i0 + 1, j as int));
                while j < n && (is_alphanumeric(chars[j]) || chars[j] == '_')
                    invariant
                        n == chars@.len(),
                        sq == chars@,
                        0 <= i0,
                        i0 + 2 <= j <= n,
                        ident_end(sq, j as int) == ident_end(sq, i0 + 2),
                        name@ == sq.subrange(i0 + 1, j as int),
                    decreases n - j,
                {
                    push_char(&mut name, chars[j]);
                    j = j + 1;
                    assert(name@ =~= sq.subrange(i0 + 1, j as int));
                }
                let value = vars.get_or_empty(name.as_str());
                result.append(value.as_str());
                i = j;
            } else {
                push_char(result, '$');
                i = i + 1;
            }
        } else {
            push_char(result, c);
            i = i + 1;
        }
        proof {
            let (j, out) = expand_step(sq, i0, vars@);
            assert(j == i as int);
            assert(result@ =~= before + out);
            assert(expand_from(sq, i0, vars@) == out + expand_from(sq, j, vars@));
            assert(before + (out + expand_from(sq, j, vars@)) =~= (before + out) + expand_from(
                sq,
                j,
                vars@,
            ));
        }
    }
    assert(expand_from(sq, n as int, vars@) =~= Seq::<char>::empty());
    assert(result@ =~= result@ + expand_from(sq, n as int, vars@));
}

// ── Whole commands ──────────────────────────────────────────────────

/// The words that `s` parses to, after tokenizing and expanding.
pub open spec fn words_of(s: Seq<char>, vars: Map<Seq<char>, Seq<char>>) -> Seq<Seq<char>> {
    expand_all(tokenize_spec(s).tokens, vars)
}

/// Whether `cmd` is what parsing the command text `s` under `vars` gives.
pub open spec fn parses_to(cmd: ParsedCommand, s: Seq<char>, vars: Map<Seq<char>, Seq<char>>) -> bool {
    &&& strings_model(cmd.args@) == words_of(s, vars)
    &&& redirect_model(cmd.stdout_redirect) == tokenize_spec(s).stdout
    &&& redirect_model(cmd.stderr_redirect) == tokenize_spec(s).stderr
    &&& cmd.background == tokenize_spec(s).background
}

pub fn parse_pipeline(raw: &str, vars: &StringMap) -> (r: Pipeline)
    ensures
        r.commands@.len() == split_spec(raw@).len(),
        forall|k: int|
            0 <= k < r.commands@.len() ==> parses_to(
                #[trigger] r.commands@[k],
                split_spec(raw@)[k],
                vars@,
            ),
{
    let segments = split_by_pipe(raw);
    let mut commands: Vec<ParsedCommand> = Vec::new();
    let mut k: usize = 0;
    while k < segments.len()
        invariant
            k <= segments@.len(),
            strings_model(segments@) == split_spec(raw@),
            commands@.len() == k,
            forall|m: int|
                0 <= m < k ==> parses_to(#[trigger] commands@[m], split_spec(raw@)[m], vars@),
        decreases segments.len() - k,
    {
        assert(strings_model(segments@)[k as int] == segments@[k as int]@);
        let cmd = parse_args(segments[k].as_str(), vars);
        commands.push(cmd);
        k = k + 1;
    }
    Pipeline { commands }
}

pub fn parse_args(raw_args: &str, vars: &StringMap) -> (r: ParsedCommand)
    ensures
        parses_to(r, raw_args@, vars@),
{
    let (tokens, stdout_redirect, stderr_redirect, background) = tokenize(raw_args);
    let args = expand_tokens(tokens.as_slice(), vars);
    ParsedCommand { args, stdout_redirect, stderr_redirect, background }
}

// ── Pipe splitting ──────────────────────────────────────────────────

/// The state of the pipe splitter between two characters.
pub struct PipeScan {
    /// Finished pipeline stages.
    pub segments: Seq<Seq<char>>,
    /// Text of the stage being read.
    pub current: Seq<char>,
    pub quote: ParseState,
}

/// One step of the pipe splitter at index `i` (`0 <= i < s.len()`).
pub open spec fn pipe_step(s: Seq<char>, i: int, st: PipeScan) -> (int, PipeScan) {
    let c = s[i];
    let has_next = i + 1 < s.len();
    if st.quote == ParseState::Unquoted && c == '|' {
        if has_next && s[i + 1] == '|' {
            (i + 2, PipeScan { current: st.current + seq!['|', '|'], ..st })
        } else {
            (i + 1, PipeScan { segments: st.segments.push(st.current), current: Seq::empty(), ..st })
        }
    } else if st.quote == ParseState::Unquoted && c == '\\' && has_next {
        (i + 2, PipeScan { current: st.current.push(c).push(s[i + 1]), ..st })
    } else {
        let quote = if st.quote == ParseState::Unquoted && c == '\'' {
            ParseState::SingleQuoted
        } else if st.quote == ParseState::SingleQuoted && c == '\'' {
            ParseState::Unquoted
        } else if st.quote == ParseState::Unquoted && c == '"' {
            ParseState::DoubleQuoted
        } else if st.quote == ParseState::DoubleQuoted && c == '"' {
            ParseState::Unquoted
        } else {
            st.quote
        };
        (i + 1, PipeScan { current: st.current.push(c), quote, ..st })
    }
}

/// The splitter state after reading `s` from index `i` on.
pub open spec fn pipe_from(s: Seq<char>, i: int, st: PipeScan) -> PipeScan
    decreases s.len() - i,
{
    if 0 <= i < s.len() {
        let (j, next) = pipe_step(s, i, st);
        if i < j <= s.len() {
            pipe_from(s, j, next)
        } else {
            next
        }
    } else {
        st
    }
}

/// Whether every character of `s` is white space.
pub open spec fn is_blank(s: Seq<char>) -> bool {
    forall|k: int| 0 <= k < s.len() ==> whitespace(#[trigger] s[k])
}

/// The pipeline stages of `s`: split at each unquoted `|` that is not part
/// of `||`; a last stage that is only white space is dropped.
pub open spec fn split_spec(s: Seq<char>) -> Seq<Seq<char>> {
    let st = pipe_from(s, 0, PipeScan { segments: Seq::empty(), current: Seq::empty(), quote: ParseState::Unquoted });
    if is_blank(st.current) {
        st.segments
    } else {
        st.segments.push(st.current)
    }
}

/// Whether the string holds only white space.
fn is_blank_exec(s: &String) -> (r: bool)
    ensures
        r == is_blank(s@),
{
    let cs = chars_of(s.as_str());
    let mut k: usize = 0;
    while k < cs.len()
        invariant
            k <= cs@.len(),
            cs@ == s@,
            forall|m: int| 0 <= m < k ==> whitespace(#[trigger] cs@[m]),
        decreases cs.len() - k,
    {
        if !is_whitespace(cs[k]) {
            return false;
        }
        k = k + 1;
    }
    true
}

fn split_by_pipe(raw: &str) -> (r: Vec<String>)
    ensures
        strings_model(r@) == split_spec(raw@),
{
    let chars = chars_of(raw);
    let ghost s = chars@;
    let n = chars.len();
    let mut segments: Vec<String> = Vec::new();
    let mut current = String::new();
    let mut state = ParseState::Unquoted;
    let mut i: usize = 0;
    proof {
        assert(strings_model(segments@) =~= Seq::empty());
    }
    while i < n
        invariant
            n == chars@.len(),
            s == chars@,
            s == raw@,
            i <= n,
            pipe_from(s, i as int, PipeScan { segments: strings_model(segments@), current: current@, quote: state })
                == pipe_from(s, 0, PipeScan { segments: Seq::empty(), current: Seq::empty(), quote: ParseState::Unquoted }),
        decreases n - i,
    {
        let ghost st0 = PipeScan { segments: strings_model(segments@), current: current@, quote: state };
        let ghost i0 = i as int;
        let c = chars[i];
        let has_next = i + 1 < n;
        match (state, c) {
            (ParseState::Unquoted, '|') => {
                if has_next && chars[i + 1] == '|' {
                    push_char(&mut current, '|');
                    push_char(&mut current, '|');
                    i = i + 2;
                } else {
                    let mut taken = String::new();
                    std::mem::swap(&mut taken, &mut current);
                    proof {
                        lemma_strings_model_push(segments@, taken);
                    }
                    segments.push(taken);
                    i = i + 1;
                }
            },
            (ParseState::Unquoted, '\'') => {
                state = ParseState::SingleQuoted;
                push_char(&mut current, c);
                i = i + 1;
            },
            (ParseState::SingleQuoted, '\'') => {
                state = ParseState::Unquoted;
                push_char(&mut current, c);
                i = i + 1;
            },
            (ParseState::Unquoted, '"') => {
                state = ParseState::DoubleQuoted;
                push_char(&mut current, c);
                i = i + 1;
            },
            (ParseState::DoubleQuoted, '"') => {
                state = ParseState::Unquoted;
                push_char(&mut current, c);
                i = i + 1;
            },
            (ParseState::Unquoted, '\\') => {
                push_char(&mut current, c);
                if has_next {
                    push_char(&mut current, chars[i + 1]);
                    i = i + 2;
                } else {
                    i = i + 1;
                }
            },
            _ => {
                push_char(&mut current, c);
                i = i + 1;
            },
        }
        proof {
            let st1 = PipeScan { segments: strings_model(segments@), current: current@, quote: state };
            let (j, nx) = pipe_step(s, i0, st0);
            assert(nx.current =~= st1.current);
            assert(nx.segments =~= st1.segments);
            assert(j == i as int);
        }
    }
    if !is_blank_exec(&current) {
        proof {
            lemma_strings_model_push(segments@, current);
        }
        segments.push(current);
    }
    segments
}

// ── Laws of parsing and expansion ───────────────────────────────────

/// Whether `name` is a variable name: it starts with a letter or `_` and
/// goes on with letters, digits or `_`.
pub open spec fn is_identifier(name: Seq<char>) -> bool {
    &&& name.len() > 0
    &&& ident_start(name[0])
    &&& forall|k: int| 1 <= k < name.len() ==> ident_char(#[trigger] name[k])
}

proof fn lemma_ident_end_all(s: Seq<char>, j: int)
    requires
        0 <= j <= s.len(),
        forall|k: int| j <= k < s.len() ==> ident_char(#[trigger] s[k]),
    ensures
        ident_end(s, j) == s.len(),
    decreases s.len() - j,
{
    if j < s.len() {
        lemma_ident_end_all(s, j + 1);
    }
}

/// `$name` expands to the value of `name` (empty when unbound), for every
/// variable name.
pub proof fn law_dollar_name_expands_to_value(name: Seq<char>, vars: Map<Seq<char>, Seq<char>>)
    requires
        is_identifier(name),
    ensures
        expand_str(seq!['$'] + name, vars) == lookup_or_empty(vars, name),
{
    assert(!ident_start('{'));
    let s = seq!['$'] + name;
    assert forall|k: int| 2 <= k < s.len() implies ident_char(#[trigger] s[k]) by {
        assert(s[k] == name[k - 1]);
    }
    lemma_ident_end_all(s, 2);
    assert(s.subrange(1, s.len() as int) =~= name);
    assert(expand_from(s, s.len() as int, vars) =~= Seq::<char>::empty());
    assert(expand_from(s, 0, vars) =~= lookup_or_empty(vars, name) + Seq::<char>::empty());
}

/// `${name}` expands to the value of `name` (empty when unbound), for every
/// name without a closing brace in it.
pub proof fn law_braced_name_expands_to_value(name: Seq<char>, vars: Map<Seq<char>, Seq<char>>)
    requires
        forall|k: int| 0 <= k < name.len() ==> #[trigger] name[k] != '}',
    ensures
        expand_str(seq!['$', '{'] + name + seq!['}'], vars) == lookup_or_empty(vars, name),
{
    let s = seq!['$', '{'] + name + seq!['}'];
    let close: int = 2 + name.len() as int;
    assert forall|k: int| 2 <= k < close implies #[trigger] s[k] != '}' by {
        assert(s[k] == name[k - 2]);
    }
    lemma_find_from_bounds(s, 2, '}');
    assert(s[close] == '}');
    let f = find_from(s, 2, '}');
    if f < close {
        assert(s[f] != '}');
    }
    assert(f == close);
    assert(s.subrange(2, close) =~= name);
    assert(expand_from(s, s.len() as int, vars) =~= Seq::<char>::empty());
    assert(expand_from(s, 0, vars) =~= lookup_or_empty(vars, name) + Seq::<char>::empty());
}

/// `$name` and `${name}` both expand to the value of `name` (empty when
/// unbound), for every variable name.
pub proof fn law_variable_name_expands_to_value(name: Seq<char>, vars: Map<Seq<char>, Seq<char>>)
    requires
        is_identifier(name),
    ensures
        expand_str(seq!['$'] + name, vars) == lookup_or_empty(vars, name),
        expand_str(seq!['$', '{'] + name + seq!['}'], vars) == lookup_or_empty(vars, name),
{
    law_dollar_name_expands_to_value(name, vars);
    assert(!ident_start('}'));
    assert(!ident_char('}'));
    assert forall|k: int| 0 <= k < name.len() implies #[trigger] name[k] != '}' by {
        if k == 0 {
            assert(ident_start(name[0]));
        } else {
            assert(ident_char(name[k]));
        }
    }
    law_braced_name_expands_to_value(name, vars);
}

proof fn lemma_ident_end_shift(a: Seq<char>, t: Seq<char>, j: int)
    requires
        0 <= j <= t.len(),
    ensures
        ident_end(a + t, a.len() + j) == a.len() + ident_end(t, j),
    decreases t.len() - j,
{
    if j < t.len() {
        assert((a + t)[a.len() + j] == t[j]);
        lemma_ident_end_shift(a, t, j + 1);
    }
}

proof fn lemma_find_from_shift(a: Seq<char>, t: Seq<char>, j: int, c: char)
    requires
        0 <= j <= t.len(),
    ensures
        find_from(a + t, a.len() + j, c) == a.len() + find_from(t, j, c),
    decreases t.len() - j,
{
    if j < t.len() {
        assert((a + t)[a.len() + j] == t[j]);
        lemma_find_from_shift(a, t, j + 1, c);
    }
}

/// Expansion of a text from index `j` on does not depend on what precedes it.
proof fn lemma_expand_shift(a: Seq<char>, t: Seq<char>, j: int, vars: Map<Seq<char>, Seq<char>>)
    requires
        0 <= j <= t.len(),
    ensures
        expand_from(a + t, a.len() + j, vars) == expand_from(t, j, vars),
    decreases t.len() - j,
{
    let s = a + t;
    let i = a.len() + j;
    if j < t.len() {
        assert(s[i] == t[j]);
        if j + 1 < t.len() {
            assert(s[i + 1] == t[j + 1]);
        }
        if j + 2 <= t.len() {
            lemma_find_from_shift(a, t, j + 2, '}');
            lemma_ident_end_shift(a, t, j + 2);
            lemma_find_from_bounds(t, j + 2, '}');
            lemma_ident_end_bounds(t, j + 2);
        }
        if t[j] == '$' && j + 1 < t.len() && t[j + 1] == '{' {
            let close = find_from(t, j + 2, '}');
            assert(s.subrange(i + 2, a.len() + close) =~= t.subrange(j + 2, close));
        } else if t[j] == '$' && j + 1 < t.len() && ident_start(t[j + 1]) {
            let end = ident_end(t, j + 2);
            assert(s.subrange(i + 1, a.len() + end) =~= t.subrange(j + 1, end));
        }
        let (k, out) = expand_step(t, j, vars);
        assert(expand_step(s, i, vars) == (a.len() + k, out));
        lemma_expand_step_advances(t, j, vars);
        lemma_expand_shift(a, t, k, vars);
    }
}

/// Expansion reads a variable name up to the first character that cannot
/// continue it, and keeps everything after the name: `$name` followed by
/// such a text `t` expands to the value of `name` followed by the expansion
/// of `t`.
pub proof fn law_expansion_after_name_continues(
    name: Seq<char>,
    t: Seq<char>,
    vars: Map<Seq<char>, Seq<char>>,
)
    requires
        is_identifier(name),
        t.len() == 0 || !ident_char(t[0]),
    ensures
        expand_str(seq!['$'] + name + t, vars) == lookup_or_empty(vars, name) + expand_str(t, vars),
{
    assert(!ident_start('{'));
    let a = seq!['$'] + name;
    let s = a + t;
    assert(s == seq!['$'] + name + t);
    assert(s[1] == name[0]);
    assert forall|k: int| 2 <= k < a.len() implies ident_char(#[trigger] s[k]) by {
        assert(s[k] == name[k - 1]);
    }
    lemma_ident_end_shift(a, t, 0);
    assert(ident_end(t, 0) == 0);
    lemma_ident_end_prefix(s, 2, a.len() as int);
    assert(s.subrange(1, a.len() as int) =~= name);
    lemma_expand_shift(a, t, 0, vars);
    assert(expand_from(s, 0, vars) == lookup_or_empty(vars, name) + expand_from(s, a.len() as int, vars));
}

/// A braced reference ends at its closing brace and keeps everything after
/// it: `${name}` followed by any text `t` expands to the value of `name`
/// followed by the expansion of `t`.
pub proof fn law_expansion_after_braced_name_continues(
    name: Seq<char>,
    t: Seq<char>,
    vars: Map<Seq<char>, Seq<char>>,
)
    requires
        forall|k: int| 0 <= k < name.len() ==> #[trigger] name[k] != '}',
    ensures
        expand_str(seq!['$', '{'] + name + seq!['}'] + t, vars) == lookup_or_empty(vars, name)
            + expand_str(t, vars),
{
    let a = seq!['$', '{'] + name + seq!['}'];
    let s = a + t;
    let close: int = 2 + name.len() as int;
    assert(s[0] == '$');
    assert(s[1] == '{');
    assert forall|k: int| 2 <= k < close implies #[trigger] s[k] != '}' by {
        assert(s[k] == name[k - 2]);
    }
    assert(s[close] == '}');
    lemma_find_from_bounds(s, 2, '}');
    let f = find_from(s, 2, '}');
    if f < close {
        assert(s[f] != '}');
    }
    assert(f == close);
    assert(s.subrange(2, close) =~= name);
    lemma_expand_shift(a, t, 0, vars);
    assert(expand_from(s, 0, vars) == lookup_or_empty(vars, name) + expand_from(s, a.len() as int, vars));
}

/// Over a run of name characters, the name end is that of the run's end.
proof fn lemma_ident_end_prefix(s: Seq<char>, j: int, e: int)
    requires
        0 <= j <= e <= s.len(),
        forall|k: int| j <= k < e ==> ident_char(#[trigger] s[k]),
    ensures
        ident_end(s, j) == ident_end(s, e),
    decreases e - j,
{
    if j < e {
        lemma_ident_end_prefix(s, j + 1, e);
    }
}

proof fn lemma_expand_without_dollar(s: Seq<char>, i: int, vars: Map<Seq<char>, Seq<char>>)
    requires
        0 <= i <= s.len(),
        forall|k: int| 0 <= k < s.len() ==> #[trigger] s[k] != '$',
    ensures
        expand_from(s, i, vars) == s.subrange(i, s.len() as int),
    decreases s.len() - i,
{
    if i < s.len() {
        lemma_expand_without_dollar(s, i + 1, vars);
        assert(s.subrange(i, s.len() as int) =~= seq![s[i]] + s.subrange(i + 1, s.len() as int));
    } else {
        assert(s.subrange(i, s.len() as int) =~= Seq::<char>::empty());
    }
}

/// Text without a `$` is left as it is by expansion.
pub proof fn law_expansion_without_dollar_is_identity(s: Seq<char>, vars: Map<Seq<char>, Seq<char>>)
    requires
        forall|k: int| 0 <= k < s.len() ==> #[trigger] s[k] != '$',
    ensures
        expand_str(s, vars) == s,
{
    lemma_expand_without_dollar(s, 0, vars);
    assert(s.subrange(0, s.len() as int) =~= s);
}

/// A token made only of literal segments (single-quoted or escaped text)
/// stands for the same word whatever the variables hold.
pub proof fn law_literal_segments_never_expand(
    parts: Seq<SegmentModel>,
    vars1: Map<Seq<char>, Seq<char>>,
    vars2: Map<Seq<char>, Seq<char>>,
)
    requires
        forall|k: int| 0 <= k < parts.len() ==> (#[trigger] parts[k]) is Literal,
    ensures
        expand_parts(parts, vars1) == expand_parts(parts, vars2),
    decreases parts.len(),
{
    if parts.len() > 0 {
        law_literal_segments_never_expand(parts.drop_last(), vars1, vars2);
        assert(parts.last() is Literal);
    }
}

proof fn lemma_single_quoted_run(s: Seq<char>, i: int, e: int, st: Scan)
    requires
        0 <= i <= e <= s.len(),
        st.quote == ParseState::SingleQuoted,
        st.has_content,
        forall|k: int| i <= k < e ==> #[trigger] s[k] != '\'',
    ensures
        scan_from(s, i, st) == scan_from(s, e, Scan { buf: st.buf + s.subrange(i, e), ..st }),
    decreases e - i,
{
    if i < e {
        let next = Scan { buf: st.buf.push(s[i]), has_content: true, ..st };
        assert(scan_step(s, i, st) == (i + 1, next));
        lemma_single_quoted_run(s, i + 1, e, next);
        assert(next.buf + s.subrange(i + 1, e) =~= st.buf + s.subrange(i, e));
    } else {
        assert(st.buf + s.subrange(i, e) =~= st.buf);
        assert(Scan { buf: st.buf + s.subrange(i, e), ..st } == st);
    }
}

/// A single-quoted word is taken verbatim: `'t'` parses to the one word `t`,
/// whatever `t` holds besides a quote and whatever the variables hold
/// (`''` gives one empty word).
pub proof fn law_single_quoted_word_is_verbatim(t: Seq<char>, vars: Map<Seq<char>, Seq<char>>)
    requires
        forall|k: int| 0 <= k < t.len() ==> #[trigger] t[k] != '\'',
    ensures
        words_of(seq!['\''] + t + seq!['\''], vars) == seq![t],
{
    let s = seq!['\''] + t + seq!['\''];
    let e: int = 1 + t.len() as int;
    let st1 = Scan { quote: ParseState::SingleQuoted, has_content: true, ..scan_init() };
    assert(flush(Seq::empty(), Seq::empty(), true) =~= Seq::<SegmentModel>::empty());
    assert(scan_step(s, 0, scan_init()) == (1int, st1));
    assert forall|k: int| 1 <= k < e implies #[trigger] s[k] != '\'' by {
        assert(s[k] == t[k - 1]);
    }
    lemma_single_quoted_run(s, 1, e, st1);
    assert(s.subrange(1, e) =~= t);
    let st2 = Scan { buf: st1.buf + s.subrange(1, e), ..st1 };
    assert(st2.buf =~= t);
    let parts = flush(Seq::empty(), t, false);
    let st3 = Scan { parts, buf: Seq::empty(), quote: ParseState::Unquoted, ..st2 };
    assert(scan_step(s, e, st2) == (e + 1, st3));
    assert(scan_from(s, e + 1, st3) == st3);
    assert(flush(parts, Seq::empty(), true) == parts);
    let tokens = tokenize_spec(s).tokens;
    assert(tokens =~= seq![parts]);
    assert(tokens.drop_last() =~= Seq::<Seq<SegmentModel>>::empty());
    if t.len() > 0 {
        assert(parts.drop_last() =~= Seq::<SegmentModel>::empty());
        assert(expand_parts(parts.drop_last(), vars) =~= Seq::<char>::empty());
        assert(expand_parts(parts, vars) =~= t);
    } else {
        assert(expand_parts(parts, vars) =~= t);
    }
    assert(expand_all(tokens.drop_last(), vars) =~= Seq::<Seq<char>>::empty());
    assert(tokens.last() == parts);
    assert(words_of(s, vars) =~= seq![t]);
}

proof fn lemma_double_quoted_run(s: Seq<char>, i: int, e: int, st: Scan)
    requires
        0 <= i <= e <= s.len(),
        st.quote == ParseState::DoubleQuoted,
        st.has_content,
        forall|k: int| i <= k < e ==> #[trigger] s[k] != '"' && s[k] != '\\',
    ensures
        scan_from(s, i, st) == scan_from(s, e, Scan { buf: st.buf + s.subrange(i, e), ..st }),
    decreases e - i,
{
    if i < e {
        let next = Scan { buf: st.buf.push(s[i]), has_content: true, ..st };
        assert(s[i] != '"' && s[i] != '\\');
        assert(scan_step(s, i, st) == (i + 1, next));
        lemma_double_quoted_run(s, i + 1, e, next);
        assert(next.buf + s.subrange(i + 1, e) =~= st.buf + s.subrange(i, e));
    } else {
        assert(st.buf + s.subrange(i, e) =~= st.buf);
        assert(Scan { buf: st.buf + s.subrange(i, e), ..st } == st);
    }
}

/// A double-quoted word is one word whose variables are expanded: `"t"`
/// parses to the expansion of `t` (`""` to one empty word; a word that
/// expands to nothing is dropped), whatever `t` holds besides quotes and
/// backslashes.
pub proof fn law_double_quoted_word_is_expanded(t: Seq<char>, vars: Map<Seq<char>, Seq<char>>)
    requires
        forall|k: int| 0 <= k < t.len() ==> #[trigger] t[k] != '"' && t[k] != '\\',
    ensures
        words_of(seq!['"'] + t + seq!['"'], vars) == (if t.len() == 0 {
            seq![Seq::<char>::empty()]
        } else if expand_str(t, vars).len() == 0 {
            Seq::<Seq<char>>::empty()
        } else {
            seq![expand_str(t, vars)]
        }),
{
    let s = seq!['"'] + t + seq!['"'];
    let e: int = 1 + t.len() as int;
    let st1 = Scan { quote: ParseState::DoubleQuoted, has_content: true, ..scan_init() };
    assert(scan_step(s, 0, scan_init()) == (1int, st1));
    assert forall|k: int| 1 <= k < e implies #[trigger] s[k] != '"' && s[k] != '\\' by {
        assert(s[k] == t[k - 1]);
    }
    lemma_double_quoted_run(s, 1, e, st1);
    assert(s.subrange(1, e) =~= t);
    let st2 = Scan { buf: st1.buf + s.subrange(1, e), ..st1 };
    assert(st2.buf =~= t);
    let st3 = Scan { quote: ParseState::Unquoted, ..st2 };
    assert(scan_step(s, e, st2) == (e + 1, st3));
    assert(scan_from(s, e + 1, st3) == st3);
    let parts = flush(Seq::empty(), t, true);
    let tokens = tokenize_spec(s).tokens;
    assert(tokens =~= seq![parts]);
    assert(tokens.drop_last() =~= Seq::<Seq<SegmentModel>>::empty());
    assert(expand_all(tokens.drop_last(), vars) =~= Seq::<Seq<char>>::empty());
    assert(tokens.last() == parts);
    if t.len() > 0 {
        assert(parts.drop_last() =~= Seq::<SegmentModel>::empty());
        assert(expand_parts(parts.drop_last(), vars) =~= Seq::<char>::empty());
        assert(expand_parts(parts, vars) =~= expand_str(t, vars));
    }
    assert(words_of(s, vars) =~= (if t.len() == 0 {
        seq![Seq::<char>::empty()]
    } else if expand_str(t, vars).len() == 0 {
        Seq::<Seq<char>>::empty()
    } else {
        seq![expand_str(t, vars)]
    }));
}

/// A backslash outside quotes makes the next character a word of its own
/// kind: `\c` parses to the one word `c`, whatever `c` is.
pub proof fn law_escaped_character_is_literal(c: char, vars: Map<Seq<char>, Seq<char>>)
    ensures
        words_of(seq!['\\', c], vars) == seq![seq![c]],
{
    let s = seq!['\\', c];
    let parts = flush(Seq::empty(), Seq::empty(), true).push(SegmentModel::Literal(seq![c]));
    let st1 = Scan { parts, buf: Seq::empty(), has_content: true, ..scan_init() };
    assert(scan_step(s, 0, scan_init()) == (2int, st1));
    assert(flush(Seq::empty(), Seq::empty(), true) =~= Seq::<SegmentModel>::empty());
    assert(scan_from(s, 2, st1) == st1);
    assert(scan_from(s, 0, scan_init()) == st1);
    assert(flush(parts, Seq::empty(), true) == parts);
    let tokens = tokenize_spec(s).tokens;
    assert(tokens =~= seq![parts]);
    assert(tokens.drop_last() =~= Seq::<Seq<SegmentModel>>::empty());
    assert(expand_all(tokens.drop_last(), vars) =~= Seq::<Seq<char>>::empty());
    assert(parts.drop_last() =~= Seq::<SegmentModel>::empty());
    assert(expand_parts(parts.drop_last(), vars) =~= Seq::<char>::empty());
    assert(expand_parts(parts, vars) =~= seq![c]);
    assert(words_of(s, vars) =~= seq![seq![c]]);
}

/// The pipeline stages of `s` before a last blank stage is dropped.
pub open spec fn pipe_pieces(s: Seq<char>) -> Seq<Seq<char>> {
    let st = pipe_from(s, 0, PipeScan { segments: Seq::empty(), current: Seq::empty(), quote: ParseState::Unquoted });
    st.segments.push(st.current)
}

proof fn lemma_join_extend_last(v: Seq<Seq<char>>, a: Seq<char>, b: Seq<char>, sep: Seq<char>)
    ensures
        join_with(v.push(a + b), sep) == join_with(v.push(a), sep) + b,
{
    assert(v.push(a + b).drop_last() =~= v);
    assert(v.push(a).drop_last() =~= v);
    if v.len() == 0 {
        assert(join_with(v.push(a + b), sep) == a + b);
    } else {
        assert(join_with(v.push(a + b), sep) =~= join_with(v, sep) + sep + (a + b));
    }
}

proof fn lemma_pipe_keeps_text(s: Seq<char>, i: int, st: PipeScan)
    requires
        0 <= i <= s.len(),
        join_with(st.segments.push(st.current), seq!['|']) == s.take(i),
    ensures
        ({
            let fin = pipe_from(s, i, st);
            join_with(fin.segments.push(fin.current), seq!['|']) == s
        }),
    decreases s.len() - i,
{
    if i < s.len() {
        let (j, next) = pipe_step(s, i, st);
        let c = s[i];
        let sep = seq!['|'];
        let old_join = join_with(st.segments.push(st.current), sep);
        if st.quote == ParseState::Unquoted && c == '|' {
            if i + 1 < s.len() && s[i + 1] == '|' {
                lemma_join_extend_last(st.segments, st.current, seq!['|', '|'], sep);
                assert(s.take(i + 2) =~= s.take(i) + seq!['|', '|']);
            } else {
                let v = st.segments.push(st.current);
                assert(v.push(Seq::<char>::empty()).drop_last() =~= v);
                assert(join_with(v.push(Seq::<char>::empty()), sep) =~= old_join + sep);
                assert(s.take(i + 1) =~= s.take(i) + sep);
            }
        } else if st.quote == ParseState::Unquoted && c == '\\' && i + 1 < s.len() {
            assert(st.current.push(c).push(s[i + 1]) =~= st.current + seq![c, s[i + 1]]);
            lemma_join_extend_last(st.segments, st.current, seq![c, s[i + 1]], sep);
            assert(s.take(i + 2) =~= s.take(i) + seq![c, s[i + 1]]);
        } else {
            assert(st.current.push(c) =~= st.current + seq![c]);
            lemma_join_extend_last(st.segments, st.current, seq![c], sep);
            assert(s.take(i + 1) =~= s.take(i) + seq![c]);
        }
        lemma_pipe_keeps_text(s, j, next);
    } else {
        assert(s.take(i) =~= s);
    }
}

proof fn lemma_pipe_inside_double_quotes(s: Seq<char>, i: int, e: int, st: PipeScan)
    requires
        0 <= i <= e < s.len(),
        st.quote == ParseState::DoubleQuoted,
        forall|k: int| i <= k < e ==> #[trigger] s[k] != '"',
        s[e] == '"',
    ensures
        pipe_from(s, i, st) == pipe_from(
            s,
            e + 1,
            PipeScan { current: st.current + s.subrange(i, e + 1), quote: ParseState::Unquoted, ..st },
        ),
    decreases e - i,
{
    if i < e {
        let next = PipeScan { current: st.current.push(s[i]), ..st };
        assert(pipe_step(s, i, st) == (i + 1, next));
        lemma_pipe_inside_double_quotes(s, i + 1, e, next);
        assert(next.current + s.subrange(i + 1, e + 1) =~= st.current + s.subrange(i, e + 1));
    } else {
        let next = PipeScan { current: st.current.push(s[i]), quote: ParseState::Unquoted, ..st };
        assert(pipe_step(s, i, st) == (i + 1, next));
        assert(st.current + s.subrange(i, e + 1) =~= st.current.push(s[i]));
    }
}

/// A double-quoted span never separates pipeline stages: outside quotes, a
/// `"` opens a span that runs to the next `"`, and the whole span, any `|`
/// in it included, goes into the stage under way.
pub proof fn law_double_quoted_span_stays_in_stage(s: Seq<char>, i: int, e: int, st: PipeScan)
    requires
        0 <= i < e < s.len(),
        st.quote == ParseState::Unquoted,
        s[i] == '"',
        forall|k: int| i < k < e ==> #[trigger] s[k] != '"',
        s[e] == '"',
    ensures
        pipe_from(s, i, st) == pipe_from(
            s,
            e + 1,
            PipeScan { current: st.current + s.subrange(i, e + 1), ..st },
        ),
{
    let next = PipeScan { current: st.current.push(s[i]), quote: ParseState::DoubleQuoted, ..st };
    assert(pipe_step(s, i, st) == (i + 1, next));
    lemma_pipe_inside_double_quotes(s, i + 1, e, next);
    assert(next.current + s.subrange(i + 1, e + 1) =~= st.current + s.subrange(i, e + 1));
}

/// A double-quoted word is one pipeline stage, whatever `|` it holds:
/// `split_spec("\"t\"")` is that text alone.
pub proof fn law_double_quoted_text_is_one_stage(t: Seq<char>)
    requires
        forall|k: int| 0 <= k < t.len() ==> #[trigger] t[k] != '"',
    ensures
        split_spec(seq!['"'] + t + seq!['"']) == seq![seq!['"'] + t + seq!['"']],
{
    let s = seq!['"'] + t + seq!['"'];
    let e = t.len() as int + 1;
    let init = PipeScan { segments: Seq::empty(), current: Seq::empty(), quote: ParseState::Unquoted };
    assert forall|k: int| 0 < k < e implies #[trigger] s[k] != '"' by {
        assert(s[k] == t[k - 1]);
    }
    law_double_quoted_span_stays_in_stage(s, 0, e, init);
    assert(init.current + s.subrange(0, e + 1) =~= s);
    let fin = PipeScan { current: s, ..init };
    assert(pipe_from(s, e + 1, fin) == fin);
    assert(!whitespace(s[0]));
    assert(!is_blank(s));
    assert(init.segments.push(s) =~= seq![s]);
}

/// Splitting a command line into pipeline stages loses no text: the stages
/// joined back with `|` give the line, and the stages parsed are these
/// pieces without a last piece that is only white space.
pub proof fn law_pipe_split_keeps_text(s: Seq<char>)
    ensures
        join_with(pipe_pieces(s), seq!['|']) == s,
        split_spec(s) == pipe_pieces(s) || (split_spec(s) == pipe_pieces(s).drop_last()
            && is_blank(pipe_pieces(s).last())),
{
    let init = PipeScan { segments: Seq::empty(), current: Seq::empty(), quote: ParseState::Unquoted };
    assert(join_with(init.segments.push(init.current), seq!['|']) =~= s.take(0));
    lemma_pipe_keeps_text(s, 0, init);
    let fin = pipe_from(s, 0, init);
    assert(fin.segments.push(fin.current).drop_last() =~= fin.segments);
}

/// Whether `c` leaves the pipe splitter's state alone: not `|`, a quote or
/// a backslash.
pub open spec fn pipe_plain_char(c: char) -> bool {
    c != '|' && c != '\'' && c != '"' && c != '\\'
}

proof fn lemma_pipe_plain_run(s: Seq<char>, i: int, e: int, st: PipeScan)
    requires
        0 <= i <= e <= s.len(),
        st.quote == ParseState::Unquoted,
        forall|k: int| i <= k < e ==> pipe_plain_char(#[trigger] s[k]),
    ensures
        pipe_from(s, i, st) == pipe_from(s, e, PipeScan { current: st.current + s.subrange(i, e), ..st }),
    decreases e - i,
{
    if i < e {
        assert(pipe_plain_char(s[i]));
        let next = PipeScan { current: st.current.push(s[i]), ..st };
        assert(pipe_step(s, i, st) == (i + 1, next));
        lemma_pipe_plain_run(s, i + 1, e, next);
        assert(next.current + s.subrange(i + 1, e) =~= st.current + s.subrange(i, e));
    } else {
        assert(st.current + s.subrange(i, e) =~= st.current);
    }
}

/// Outside quotes a single `|` separates two stages while `||` does not:
/// for texts `a` and `b` without `|`, quotes or backslashes, `a|b` splits
/// into `a` and `b` (the last dropped when it is only white space), and
/// `a||b` stays one stage.
pub proof fn law_single_bar_separates_stages(a: Seq<char>, b: Seq<char>)
    requires
        forall|k: int| 0 <= k < a.len() ==> pipe_plain_char(#[trigger] a[k]),
        forall|k: int| 0 <= k < b.len() ==> pipe_plain_char(#[trigger] b[k]),
    ensures
        split_spec(a + seq!['|'] + b) == (if is_blank(b) {
            seq![a]
        } else {
            seq![a, b]
        }),
        split_spec(a + seq!['|', '|'] + b) == seq![a + seq!['|', '|'] + b],
{
    let init = PipeScan { segments: Seq::empty(), current: Seq::empty(), quote: ParseState::Unquoted };
    let n = a.len() as int;
    // a|b
    let s = a + seq!['|'] + b;
    assert forall|k: int| 0 <= k < n implies pipe_plain_char(#[trigger] s[k]) by {
        assert(s[k] == a[k]);
    }
    assert forall|k: int| n + 1 <= k < s.len() implies pipe_plain_char(#[trigger] s[k]) by {
        assert(s[k] == b[k - n - 1]);
    }
    lemma_pipe_plain_run(s, 0, n, init);
    let st1 = PipeScan { current: init.current + s.subrange(0, n), ..init };
    assert(st1.current =~= a);
    assert(s[n] == '|');
    if n + 1 < s.len() {
        assert(s[n + 1] == b[0]);
    }
    let st2 = PipeScan { segments: st1.segments.push(st1.current), current: Seq::empty(), ..st1 };
    assert(pipe_step(s, n, st1) == (n + 1, st2));
    assert(pipe_from(s, n, st1) == pipe_from(s, n + 1, st2));
    lemma_pipe_plain_run(s, n + 1, s.len() as int, st2);
    let st3 = PipeScan { current: st2.current + s.subrange(n + 1, s.len() as int), ..st2 };
    assert(st3.current =~= b);
    assert(pipe_from(s, s.len() as int, st3) == st3);
    assert(st3.segments =~= seq![a]);
    assert(seq![a].push(b) =~= seq![a, b]);
    // a||b
    let t = a + seq!['|', '|'] + b;
    assert forall|k: int| 0 <= k < n implies pipe_plain_char(#[trigger] t[k]) by {
        assert(t[k] == a[k]);
    }
    assert forall|k: int| n + 2 <= k < t.len() implies pipe_plain_char(#[trigger] t[k]) by {
        assert(t[k] == b[k - n - 2]);
    }
    lemma_pipe_plain_run(t, 0, n, init);
    let u1 = PipeScan { current: init.current + t.subrange(0, n), ..init };
    assert(t[n] == '|');
    assert(t[n + 1] == '|');
    let u2 = PipeScan { current: u1.current + seq!['|', '|'], ..u1 };
    assert(pipe_step(t, n, u1) == (n + 2, u2));
    assert(pipe_from(t, n, u1) == pipe_from(t, n + 2, u2));
    lemma_pipe_plain_run(t, n + 2, t.len() as int, u2);
    let u3 = PipeScan { current: u2.current + t.subrange(n + 2, t.len() as int), ..u2 };
    assert(u3.current =~= t);
    assert(pipe_from(t, t.len() as int, u3) == u3);
    assert(!whitespace(t[n]));
    assert(!is_blank(t));
    assert(u3.segments.push(u3.current) =~= seq![t]);
}

/// Whether `c` has no special meaning outside quotes.
pub open spec fn plain_char(c: char) -> bool {
    c != '>' && c != '&' && c != '\\' && c != '\'' && c != '"' && c != '$'
}

/// The space-separated words of `s[i..]`, given the words already found and
/// the word under way.
pub open spec fn space_words_from(s: Seq<char>, i: int, found: Seq<Seq<char>>, current: Seq<char>) -> Seq<
    Seq<char>,
>
    decreases s.len() - i,
{
    if 0 <= i < s.len() {
        if s[i] == ' ' {
            space_words_from(s, i + 1, push_nonempty(found, current), Seq::empty())
        } else {
            space_words_from(s, i + 1, found, current.push(s[i]))
        }
    } else {
        push_nonempty(found, current)
    }
}

/// The non-empty runs of `s` between spaces.
pub open spec fn space_words(s: Seq<char>) -> Seq<Seq<char>> {
    space_words_from(s, 0, Seq::empty(), Seq::empty())
}

/// One expandable segment per word.
pub open spec fn expandable_tokens(words: Seq<Seq<char>>) -> Seq<Seq<SegmentModel>> {
    Seq::new(words.len(), |k: int| seq![SegmentModel::Expandable(words[k])])
}

proof fn lemma_plain_scan(s: Seq<char>, i: int, st: Scan, found: Seq<Seq<char>>, current: Seq<char>)
    requires
        0 <= i <= s.len(),
        forall|k: int| 0 <= k < s.len() ==> plain_char(#[trigger] s[k]),
        st.quote == ParseState::Unquoted,
        st.parts.len() == 0,
        st.buf == current,
        st.has_content == (current.len() > 0),
        st.tokens == expandable_tokens(found),
    ensures
        scan_finish(scan_from(s, i, st)).tokens == expandable_tokens(
            space_words_from(s, i, found, current),
        ),
        scan_finish(scan_from(s, i, st)).stdout == st.stdout,
        scan_finish(scan_from(s, i, st)).stderr == st.stderr,
        scan_finish(scan_from(s, i, st)).background == st.background,
    decreases s.len() - i,
{
    if i < s.len() {
        let c = s[i];
        assert(plain_char(c));
        if c == ' ' {
            let found2 = push_nonempty(found, current);
            let next = if st.has_content {
                Scan {
                    tokens: st.tokens.push(flush(st.parts, st.buf, true)),
                    parts: Seq::empty(),
                    buf: Seq::empty(),
                    has_content: false,
                    ..st
                }
            } else {
                st
            };
            assert(scan_step(s, i, st) == (i + 1, next));
            if current.len() > 0 {
                assert(flush(st.parts, st.buf, true) =~= seq![SegmentModel::Expandable(current)]);
                assert(next.tokens =~= expandable_tokens(found2));
            } else {
                assert(next.buf =~= Seq::<char>::empty());
                assert(next.parts =~= Seq::<SegmentModel>::empty());
            }
            lemma_plain_scan(s, i + 1, next, found2, Seq::empty());
        } else {
            let next = Scan { buf: st.buf.push(c), has_content: true, ..st };
            assert(scan_step(s, i, st) == (i + 1, next));
            lemma_plain_scan(s, i + 1, next, found, current.push(c));
        }
    } else {
        if current.len() > 0 {
            assert(flush(st.parts, st.buf, true) =~= seq![SegmentModel::Expandable(current)]);
            assert(scan_finish(st).tokens =~= expandable_tokens(push_nonempty(found, current)));
        } else {
            assert(push_nonempty(found, current) == found);
        }
    }
}

proof fn lemma_space_words_from(s: Seq<char>, i: int, found: Seq<Seq<char>>, current: Seq<char>)
    requires
        0 <= i <= s.len(),
        forall|k: int| 0 <= k < s.len() ==> #[trigger] s[k] != '$',
        forall|k: int| 0 <= k < found.len() ==> (#[trigger] found[k]).len() > 0 && !found[k].contains('$'),
        !current.contains('$'),
    ensures
        forall|k: int|
            0 <= k < space_words_from(s, i, found, current).len() ==> (#[trigger] space_words_from(
                s,
                i,
                found,
                current,
            )[k]).len() > 0 && !space_words_from(s, i, found, current)[k].contains('$'),
    decreases s.len() - i,
{
    let pushed = push_nonempty(found, current);
    assert forall|k: int| 0 <= k < pushed.len() implies (#[trigger] pushed[k]).len() > 0
        && !pushed[k].contains('$') by {
        if k < found.len() {
            assert(pushed[k] == found[k]);
        }
    }
    if i < s.len() {
        if s[i] == ' ' {
            assert(!Seq::<char>::empty().contains('$'));
            lemma_space_words_from(s, i + 1, push_nonempty(found, current), Seq::empty());
            assert(space_words_from(s, i, found, current) == space_words_from(
                s,
                i + 1,
                pushed,
                Seq::empty(),
            ));
        } else {
            assert(!current.push(s[i]).contains('$')) by {
                if current.push(s[i]).contains('$') {
                    let k = choose|k: int| 0 <= k < current.push(s[i]).len() && current.push(s[i])[k] == '$';
                    if k < current.len() {
                        assert(current[k] == '$');
                    }
                }
            }
            lemma_space_words_from(s, i + 1, found, current.push(s[i]));
            assert(space_words_from(s, i, found, current) == space_words_from(
                s,
                i + 1,
                found,
                current.push(s[i]),
            ));
        }
    } else {
        assert(space_words_from(s, i, found, current) == pushed);
    }
}

proof fn lemma_expand_plain_words(words: Seq<Seq<char>>, vars: Map<Seq<char>, Seq<char>>)
    requires
        forall|k: int| 0 <= k < words.len() ==> (#[trigger] words[k]).len() > 0 && !words[k].contains('$'),
    ensures
        expand_all(expandable_tokens(words), vars) == words,
    decreases words.len(),
{
    if words.len() > 0 {
        let w = words.last();
        lemma_expand_plain_words(words.drop_last(), vars);
        assert(expandable_tokens(words).drop_last() =~= expandable_tokens(words.drop_last()));
        let part = seq![SegmentModel::Expandable(w)];
        assert(expandable_tokens(words).last() == part);
        assert(part.drop_last() =~= Seq::<SegmentModel>::empty());
        assert(expand_parts(part.drop_last(), vars) =~= Seq::<char>::empty());
        assert forall|k: int| 0 <= k < w.len() implies #[trigger] w[k] != '$' by {
            if w[k] == '$' {
                assert(w.contains('$'));
            }
        }
        law_expansion_without_dollar_is_identity(w, vars);
        assert(expand_parts(part, vars) =~= w);
        assert(words.drop_last().push(w) =~= words);
    } else {
        assert(expandable_tokens(words) =~= Seq::<Seq<SegmentModel>>::empty());
        assert(words =~= Seq::<Seq<char>>::empty());
    }
}

/// Outside quotes, words are separated by spaces: a line without quotes,
/// backslashes, `$`, `>` or `&` parses to its space-separated words, with
/// no redirect and in the foreground.
pub proof fn law_plain_words_split_on_spaces(s: Seq<char>, vars: Map<Seq<char>, Seq<char>>)
    requires
        forall|k: int| 0 <= k < s.len() ==> plain_char(#[trigger] s[k]),
    ensures
        words_of(s, vars) == space_words(s),
        tokenize_spec(s).stdout is None,
        tokenize_spec(s).stderr is None,
        !tokenize_spec(s).background,
{
    assert(scan_init().tokens =~= expandable_tokens(Seq::empty()));
    lemma_plain_scan(s, 0, scan_init(), Seq::empty(), Seq::empty());
    assert forall|k: int| 0 <= k < s.len() implies #[trigger] s[k] != '$' by {
        assert(plain_char(s[k]));
    }
    lemma_space_words_from(s, 0, Seq::empty(), Seq::empty());
    lemma_expand_plain_words(space_words(s), vars);
}


/// Scanning plain words up to the space at `n` leaves no token under way and
/// no redirect set: the state at `n + 1` has the words of `s[..n]` as tokens.
proof fn lemma_plain_prefix(
    s: Seq<char>,
    n: int,
    i: int,
    st: Scan,
    found: Seq<Seq<char>>,
    current: Seq<char>,
) -> (next: Scan)
    requires
        0 <= i <= n < s.len(),
        forall|k: int| 0 <= k < n ==> plain_char(#[trigger] s[k]),
        s[n] == ' ',
        st.quote == ParseState::Unquoted,
        st.parts.len() == 0,
        st.buf == current,
        st.has_content == (current.len() > 0),
        st.tokens == expandable_tokens(found),
    ensures
        scan_from(s, i, st) == scan_from(s, n + 1, next),
        next.quote == ParseState::Unquoted,
        next.parts.len() == 0,
        next.buf.len() == 0,
        !next.has_content,
        next.tokens == expandable_tokens(space_words_from(s.subrange(0, n), i, found, current)),
        next.stdout == st.stdout,
        next.stderr == st.stderr,
        next.background == st.background,
    decreases n - i,
{
    let w = s.subrange(0, n);
    let c = s[i];
    let step = if st.has_content {
        Scan {
            tokens: st.tokens.push(flush(st.parts, st.buf, true)),
            parts: Seq::empty(),
            buf: Seq::empty(),
            has_content: false,
            ..st
        }
    } else {
        st
    };
    if current.len() > 0 {
        assert(flush(st.parts, st.buf, true) =~= seq![SegmentModel::Expandable(current)]);
        assert(step.tokens =~= expandable_tokens(push_nonempty(found, current)));
    } else {
        assert(step.buf =~= Seq::<char>::empty());
    }
    if i < n {
        assert(plain_char(c));
        assert(w[i] == c);
        if c == ' ' {
            assert(scan_step(s, i, st) == (i + 1, step));
            assert(scan_from(s, i, st) == scan_from(s, i + 1, step));
            assert(step.parts =~= Seq::<SegmentModel>::empty());
            lemma_plain_prefix(s, n, i + 1, step, push_nonempty(found, current), Seq::empty())
        } else {
            let more = Scan { buf: st.buf.push(c), has_content: true, ..st };
            assert(scan_step(s, i, st) == (i + 1, more));
            assert(scan_from(s, i, st) == scan_from(s, i + 1, more));
            lemma_plain_prefix(s, n, i + 1, more, found, current.push(c))
        }
    } else {
        assert(scan_step(s, i, st) == (i + 1, step));
        assert(scan_from(s, i, st) == scan_from(s, i + 1, step));
        assert(space_words_from(w, i, found, current) == push_nonempty(found, current));
        step
    }
}

proof fn lemma_word_end_all(s: Seq<char>, j: int)
    requires
        0 <= j <= s.len(),
        forall|k: int| j <= k < s.len() ==> #[trigger] s[k] != ' ',
    ensures
        word_end(s, j) == s.len(),
    decreases s.len() - j,
{
    if j < s.len() {
        lemma_word_end_all(s, j + 1);
    }
}

/// The text of a redirect operator: an optional descriptor, then `>`, or
/// `>>` when `twice`.
pub open spec fn redirect_operator(descriptor: Seq<char>, twice: bool) -> Seq<char> {
    descriptor + seq!['>'] + if twice {
        seq!['>']
    } else {
        Seq::empty()
    }
}

/// A redirect written with a single `>` truncates its file and one written
/// with `>>` appends to it, whatever its descriptor: after plain words, `2>`
/// or `2>>` and a path set the error redirect, while `>`, `1>`, `>>` or
/// `1>>` and a path set the output redirect; neither the operator nor the
/// path becomes a word.
pub proof fn law_redirect_mode_follows_operator(
    w: Seq<char>,
    descriptor: Seq<char>,
    twice: bool,
    path: Seq<char>,
)
    requires
        forall|k: int| 0 <= k < w.len() ==> plain_char(#[trigger] w[k]),
        descriptor == Seq::<char>::empty() || descriptor == seq!['1'] || descriptor == seq!['2'],
        path.len() > 0,
        forall|k: int| 0 <= k < path.len() ==> #[trigger] path[k] != ' ',
    ensures
        ({
            let s = w + seq![' '] + redirect_operator(descriptor, twice) + seq![' '] + path;
            let red = Some(
                RedirectModel {
                    path,
                    mode: if twice {
                        RedirectMode::Append
                    } else {
                        RedirectMode::Overwrite
                    },
                },
            );
            &&& tokenize_spec(s).tokens == expandable_tokens(space_words(w))
            &&& !tokenize_spec(s).background
            &&& descriptor == seq!['2'] ==> tokenize_spec(s).stderr == red
                && tokenize_spec(s).stdout is None
            &&& descriptor != seq!['2'] ==> tokenize_spec(s).stdout == red
                && tokenize_spec(s).stderr is None
        }),
{
    let op = redirect_operator(descriptor, twice);
    let s = w + seq![' '] + op + seq![' '] + path;
    let n = w.len() as int;
    let g = n + 1;
    let i = g + descriptor.len();
    let tw: int = if twice { 1 } else { 0 };
    let q = i + 1 + tw;
    assert(s.len() == q + 1 + path.len());
    assert forall|k: int| 0 <= k < n implies plain_char(#[trigger] s[k]) by {
        assert(s[k] == w[k]);
    }
    assert(s[n] == ' ');
    assert(s[i] == '>');
    assert(s[q] == ' ');
    if twice {
        assert(s[i + 1] == '>');
    } else {
        assert(i + 1 == q);
    }
    assert forall|k: int| q + 1 <= k < s.len() implies #[trigger] s[k] != ' ' by {
        assert(s[k] == path[k - q - 1]);
    }
    assert(s.subrange(0, n) =~= w);
    assert(scan_init().tokens =~= expandable_tokens(Seq::empty()));
    let st = lemma_plain_prefix(s, n, 0, scan_init(), Seq::empty(), Seq::empty());
    assert(st.buf =~= Seq::<char>::empty());
    assert(st.parts =~= Seq::<SegmentModel>::empty());
    // the descriptor, if any
    let st1 = if descriptor.len() > 0 {
        assert(s[g] == descriptor[0]);
        let more = Scan { buf: st.buf.push(descriptor[0]), has_content: true, ..st };
        assert(scan_step(s, g, st) == (g + 1, more));
        assert(scan_from(s, g, st) == scan_from(s, g + 1, more));
        more
    } else {
        st
    };
    assert(scan_from(s, g, st) == scan_from(s, i, st1));
    // the operator and the path
    let parts = flush(st1.parts, st1.buf, true);
    if descriptor.len() > 0 {
        assert(st1.buf =~= descriptor);
        assert(parts =~= seq![SegmentModel::Expandable(descriptor)]);
        assert(is_descriptor(parts, descriptor[0]));
    } else {
        assert(parts =~= Seq::<SegmentModel>::empty());
    }
    assert(is_descriptor(parts, '2') == (descriptor == seq!['2']));
    let p0 = if twice { i + 2 } else { i + 1 };
    assert(p0 == q);
    assert(skip_spaces(s, q + 1) == q + 1);
    assert(skip_spaces(s, q) == q + 1);
    lemma_word_end_all(s, q + 1);
    assert(s.subrange(q + 1, s.len() as int) =~= path);
    let (j, fin) = scan_step(s, i, st1);
    assert(j == s.len());
    assert(fin.tokens == st.tokens);
    assert(!fin.has_content);
    assert(i < j);
    assert(scan_from(s, j, fin) == fin);
    assert(scan_from(s, i, st1) == scan_from(s, j, fin));
    assert(tokenize_spec(s) == fin);
}


/// A lone `&` after the words of a command runs it in the background, while
/// `&&` does not; neither becomes a word and neither sets a redirect.
pub proof fn law_background_marker(w: Seq<char>, twice: bool)
    requires
        forall|k: int| 0 <= k < w.len() ==> plain_char(#[trigger] w[k]),
    ensures
        ({
            let s = w + seq![' ', '&'] + if twice {
                seq!['&']
            } else {
                Seq::empty()
            };
            &&& tokenize_spec(s).tokens == expandable_tokens(space_words(w))
            &&& tokenize_spec(s).background == !twice
            &&& tokenize_spec(s).stdout is None
            &&& tokenize_spec(s).stderr is None
        }),
{
    let tail: Seq<char> = if twice {
        seq!['&']
    } else {
        Seq::empty()
    };
    let s = w + seq![' ', '&'] + tail;
    let n = w.len() as int;
    assert forall|k: int| 0 <= k < n implies plain_char(#[trigger] s[k]) by {
        assert(s[k] == w[k]);
    }
    assert(s[n] == ' ');
    assert(s[n + 1] == '&');
    if twice {
        assert(s[n + 2] == '&');
    }
    assert(s.subrange(0, n) =~= w);
    assert(scan_init().tokens =~= expandable_tokens(Seq::empty()));
    let st = lemma_plain_prefix(s, n, 0, scan_init(), Seq::empty(), Seq::empty());
    assert(st.buf =~= Seq::<char>::empty());
    assert(st.parts =~= Seq::<SegmentModel>::empty());
    assert(flush(st.parts, st.buf, true) == st.parts);
    let (j, fin) = scan_step(s, n + 1, st);
    assert(j == s.len());
    assert(fin.tokens == st.tokens);
    assert(!fin.has_content);
    assert(fin.background == !twice);
    assert(scan_from(s, j, fin) == fin);
    assert(scan_from(s, n + 1, st) == scan_from(s, j, fin));
    assert(tokenize_spec(s) == fin);
}

} // verus!
