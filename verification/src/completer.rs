//! Tab completion: what to ask a registered completion program, how its
//! answer becomes candidates, and how command names are offered.

use vstd::prelude::*;
use vstd::string::StringSliceAdditionalSpecFns;
use crate::commands::builtin_names;
use crate::commands::builtins;
use crate::text::{
    views_of, chars_of, push_char, whitespace, is_whitespace, has_prefix, starts_with,
    push_nonempty, nonempty_lines, nonempty_lines_of, cat2, text_of, ends_with_char, ends_with,
    same_text,
};

verus! {

broadcast use vstd::seq_lib::group_to_multiset_ensures;

/// A completion candidate: the text listed, and the text put in the line.
pub struct CommandCandidate {
    pub display: String,
    pub replacement: String,
}

impl View for CommandCandidate {
    type V = (Seq<char>, Seq<char>);

    open spec fn view(&self) -> (Seq<char>, Seq<char>) {
        (self.display@, self.replacement@)
    }
}

impl CommandCandidate {
    /// The text listed for this candidate.
    pub fn display(&self) -> (r: &str)
        ensures
            r@ == self.display@,
    {
        self.display.as_str()
    }

    /// The text put in the line for this candidate.
    pub fn replacement(&self) -> (r: &str)
        ensures
            r@ == self.replacement@,
    {
        self.replacement.as_str()
    }
}

/// The models of a list of candidates.
pub open spec fn candidates_model(v: Seq<CommandCandidate>) -> Seq<(Seq<char>, Seq<char>)> {
    Seq::new(v.len(), |i: int| v[i]@)
}

/// A candidate for a whole word: listed as the word, completed with a space after it.
pub open spec fn word_candidate(word: Seq<char>) -> (Seq<char>, Seq<char>) {
    (word, word + " "@)
}

fn make_word_candidate(word: &str) -> (r: CommandCandidate)
    ensures
        r@ == word_candidate(word@),
{
    CommandCandidate { display: text_of(word), replacement: cat2(word, " ") }
}

// ── Ordering candidates ─────────────────────────────────────────────

/// Lexicographic order of texts by character code, from index `i` on.
pub open spec fn text_le_from(a: Seq<char>, b: Seq<char>, i: int) -> bool
    decreases a.len() - i,
{
    if i >= a.len() {
        true
    } else if i >= b.len() {
        false
    } else if a[i] != b[i] {
        a[i] < b[i]
    } else {
        text_le_from(a, b, i + 1)
    }
}

/// Whether `a` comes no later than `b` in the order `String::cmp` uses.
pub open spec fn text_le(a: Seq<char>, b: Seq<char>) -> bool {
    text_le_from(a, b, 0)
}

/// Whether the candidates are ordered by the text they list.
pub open spec fn sorted_by_display(v: Seq<(Seq<char>, Seq<char>)>) -> bool {
    forall|i: int, j: int| 0 <= i < j < v.len() ==> text_le(v[i].0, v[j].0)
}

proof fn lemma_text_le_total(a: Seq<char>, b: Seq<char>, i: int)
    requires
        0 <= i,
    ensures
        text_le_from(a, b, i) || text_le_from(b, a, i),
    decreases a.len() - i,
{
    if i < a.len() && i < b.len() && a[i] == b[i] {
        lemma_text_le_total(a, b, i + 1);
    }
}

proof fn lemma_text_le_trans(a: Seq<char>, b: Seq<char>, c: Seq<char>, i: int)
    requires
        0 <= i,
        text_le_from(a, b, i),
        text_le_from(b, c, i),
    ensures
        text_le_from(a, c, i),
    decreases a.len() - i,
{
    if i < a.len() && i < b.len() && i < c.len() && a[i] == b[i] && b[i] == c[i] {
        lemma_text_le_trans(a, b, c, i + 1);
    }
}

fn text_le_exec(a: &str, b: &str) -> (r: bool)
    ensures
        r == text_le(a@, b@),
{
    let x = chars_of(a);
    let y = chars_of(b);
    let mut i: usize = 0;
    while i < x.len() && i < y.len() && x[i] == y[i]
        invariant
            i <= x@.len(),
            i <= y@.len(),
            x@ == a@,
            y@ == b@,
            text_le_from(x@, y@, i as int) == text_le(a@, b@),
        decreases x.len() - i,
    {
        i = i + 1;
    }
    if i >= x.len() {
        true
    } else if i >= y.len() {
        false
    } else {
        x[i] < y[i]
    }
}

/// Whether `r` holds the elements of `v`, each once, `r[k]` being
/// `v[idx[k]]`, with elements that list the same text in their order in `v`.
pub open spec fn stable_rearrangement(
    r: Seq<(Seq<char>, Seq<char>)>,
    v: Seq<(Seq<char>, Seq<char>)>,
    idx: Seq<int>,
) -> bool {
    &&& idx.len() == r.len()
    &&& r.len() == v.len()
    &&& forall|k: int| 0 <= k < r.len() ==> 0 <= #[trigger] idx[k] < v.len() && r[k] == v[idx[k]]
    &&& forall|a: int, b: int| 0 <= a < b < r.len() ==> idx[a] != idx[b]
    &&& forall|a: int, b: int| 0 <= a < b < r.len() && r[a].0 == r[b].0 ==> idx[a] < idx[b]
}

/// The candidates ordered by the text they list; candidates that list the
/// same text keep their order.
pub fn sort_candidates(v: Vec<CommandCandidate>) -> (r: Vec<CommandCandidate>)
    ensures
        sorted_by_display(candidates_model(r@)),
        candidates_model(r@).to_multiset() == candidates_model(v@).to_multiset(),
        exists|idx: Seq<int>|
            stable_rearrangement(candidates_model(r@), candidates_model(v@), idx),
{
    let mut input = v;
    let ghost original = input@;
    let mut sorted: Vec<CommandCandidate> = Vec::new();
    let mut taken: Vec<CommandCandidate> = Vec::new();
    // Reverse the input so that `pop` hands the candidates out in order.
    while input.len() > 0
        invariant
            original.len() == input@.len() + taken@.len(),
            input@ == original.take(input@.len() as int),
            forall|k: int|
                0 <= k < taken@.len() ==> taken@[k] == original[original.len() - 1 - k],
        decreases input.len(),
    {
        let c = input.pop().unwrap();
        taken.push(c);
        assert(input@ =~= original.take(input@.len() as int));
    }
    let ghost n = original.len();
    let ghost mut idx: Seq<int> = Seq::empty();
    proof {
        assert(candidates_model(sorted@) =~= Seq::<(Seq<char>, Seq<char>)>::empty());
        assert(original.take(0) =~= Seq::<CommandCandidate>::empty());
        assert(candidates_model(original.take(0)) =~= Seq::<(Seq<char>, Seq<char>)>::empty());
    }
    while taken.len() > 0
        invariant
            n == original.len(),
            taken@.len() <= n,
            forall|k: int| 0 <= k < taken@.len() ==> taken@[k] == original[n - 1 - k],
            sorted_by_display(candidates_model(sorted@)),
            candidates_model(sorted@).to_multiset() == candidates_model(
                original.take(n - taken@.len()),
            ).to_multiset(),
            stable_rearrangement(
                candidates_model(sorted@),
                candidates_model(original.take(n - taken@.len())),
                idx,
            ),
        decreases taken.len(),
    {
        let x = taken.pop().unwrap();
        let ghost done = n - taken@.len();
        let mut p: usize = 0;
        while p < sorted.len() && text_le_exec(sorted[p].display.as_str(), x.display.as_str())
            invariant
                p <= sorted@.len(),
                forall|k: int| 0 <= k < p ==> text_le(#[trigger] sorted@[k].display@, x.display@),
            decreases sorted.len() - p,
        {
            p = p + 1;
        }
        let ghost before = candidates_model(sorted@);
        proof {
            if p < sorted@.len() {
                lemma_text_le_total(sorted@[p as int].display@, x.display@, 0);
            }
        }
        sorted.insert(p, x);
        proof {
            let after = candidates_model(sorted@);
            assert(after =~= before.insert(p as int, x@));
            assert forall|i: int, j: int| 0 <= i < j < after.len() implies text_le(
                after[i].0,
                after[j].0,
            ) by {
                if i < p && j == p {
                } else if i == p && j > p {
                    assert(after[j] == before[j - 1]);
                    if j - 1 > p {
                        assert(text_le(before[p as int].0, before[j - 1].0));
                        lemma_text_le_total(before[j - 1].0, x.display@, 0);
                        lemma_text_le_total(before[p as int].0, x.display@, 0);
                        lemma_text_le_trans(x.display@, before[p as int].0, before[j - 1].0, 0);
                    }
                } else if i < p && j > p {
                    assert(after[j] == before[j - 1]);
                } else if i > p {
                    assert(after[i] == before[i - 1]);
                    assert(after[j] == before[j - 1]);
                }
            }
            assert(after.remove(p as int) =~= before);
            let t = original.take(done);
            assert(t =~= original.take(done - 1).push(x));
            let vprev = candidates_model(original.take(done - 1));
            let vnew = candidates_model(t);
            assert(vnew =~= vprev.push(x@));
            assert(after.to_multiset() =~= before.to_multiset().insert(x@));
            let idx2 = idx.insert(p as int, done - 1);
            assert forall|k: int| 0 <= k < after.len() implies 0 <= #[trigger] idx2[k] < vnew.len()
                && after[k] == vnew[idx2[k]] by {
                if k < p {
                    assert(idx2[k] == idx[k]);
                    assert(after[k] == before[k]);
                } else if k > p {
                    assert(idx2[k] == idx[k - 1]);
                    assert(after[k] == before[k - 1]);
                }
            }
            assert forall|a: int, b: int| 0 <= a < b < after.len() implies idx2[a] != idx2[b] by {
                if a < p {
                    assert(idx2[a] == idx[a]);
                }
                if a > p {
                    assert(idx2[a] == idx[a - 1]);
                }
                if b < p {
                    assert(idx2[b] == idx[b]);
                }
                if b > p {
                    assert(idx2[b] == idx[b - 1]);
                }
            }
            assert forall|a: int, b: int|
                0 <= a < b < after.len() && after[a].0 == after[b].0 implies idx2[a] < idx2[b] by {
                if a < p && b < p {
                    assert(idx2[a] == idx[a] && idx2[b] == idx[b]);
                } else if a < p && b == p {
                    assert(idx2[a] == idx[a]);
                } else if a < p && b > p {
                    assert(idx2[a] == idx[a] && idx2[b] == idx[b - 1]);
                    assert(after[b] == before[b - 1]);
                } else if a == p && b > p {
                    assert(after[b] == before[b - 1]);
                    assert(text_le(before[p as int].0, before[b - 1].0));
                    assert(!text_le(before[p as int].0, x.display@));
                } else {
                    assert(idx2[a] == idx[a - 1] && idx2[b] == idx[b - 1]);
                    assert(after[a] == before[a - 1]);
                    assert(after[b] == before[b - 1]);
                }
            }
            idx = idx2;
        }
    }
    assert(original.take(n as int) =~= original);
    sorted
}

// ── Candidates from a completion program ────────────────────────────

/// The candidates that a completion program's output offers: one per
/// non-empty line, listed as the line and completed with a space after it.
pub open spec fn line_candidates(lines: Seq<Seq<char>>) -> Seq<(Seq<char>, Seq<char>)> {
    Seq::new(lines.len(), |i: int| word_candidate(lines[i]))
}

/// The candidates offered by a completion program that printed `stdout`,
/// ordered by the text they list.
pub fn candidates_from_output(stdout: &str) -> (r: Vec<CommandCandidate>)
    ensures
        sorted_by_display(candidates_model(r@)),
        candidates_model(r@).to_multiset() == line_candidates(nonempty_lines(stdout@)).to_multiset(),
{
    let lines = nonempty_lines_of(stdout);
    let mut cands: Vec<CommandCandidate> = Vec::new();
    let mut i: usize = 0;
    while i < lines.len()
        invariant
            i <= lines@.len(),
            candidates_model(cands@) == line_candidates(views_of(lines@).take(i as int)),
        decreases lines.len() - i,
    {
        let ghost c0 = cands@;
        let c = make_word_candidate(lines[i].as_str());
        cands.push(c);
        i = i + 1;
        assert(candidates_model(cands@) =~= candidates_model(c0).push(c@));
        assert(line_candidates(views_of(lines@).take(i as int)) =~= line_candidates(
            views_of(lines@).take(i - 1),
        ).push(word_candidate(lines@[i - 1]@)));
    }
    assert(views_of(lines@).take(i as int) =~= views_of(lines@));
    sort_candidates(cands)
}

// ── Candidates from file names ──────────────────────────────────────

/// `s` without its trailing white space.
pub open spec fn trim_end(s: Seq<char>) -> Seq<char>
    decreases s.len(),
{
    if s.len() > 0 && whitespace(s.last()) {
        trim_end(s.drop_last())
    } else {
        s
    }
}

fn trim_end_exec(s: &str) -> (r: String)
    ensures
        r@ == trim_end(s@),
{
    let x = chars_of(s);
    let mut k = x.len();
    assert(x@.take(k as int) =~= s@);
    while k > 0 && is_whitespace(x[k - 1])
        invariant
            k <= x@.len(),
            x@ == s@,
            trim_end(x@.take(k as int)) == trim_end(s@),
        decreases k,
    {
        assert(x@.take(k as int).drop_last() =~= x@.take(k - 1));
        k = k - 1;
    }
    let mut r = String::new();
    let mut i: usize = 0;
    while i < k
        invariant
            i <= k <= x@.len(),
            r@ == x@.take(i as int),
        decreases k - i,
    {
        push_char(&mut r, x[i]);
        i = i + 1;
        assert(r@ =~= x@.take(i as int));
    }
    proof {
        assert(x@.take(k as int) =~= x@.take(k as int));
        if k > 0 {
            assert(x@.take(k as int).last() == x@[k - 1]);
        }
        assert(trim_end(x@.take(k as int)) == x@.take(k as int));
        if k == x@.len() {
            assert(x@.take(k as int) =~= s@);
        }
    }
    r
}

/// The candidate for a file-name completion whose replacement is `r`: a
/// directory (ending in `/`) stays as it is, anything else gets a space after
/// it; the listed text is the replacement without trailing white space.
pub open spec fn file_candidate_spec(r: Seq<char>) -> (Seq<char>, Seq<char>) {
    let replacement = if ends_with_char(r, '/') { r } else { r + " "@ };
    let display = if ends_with_char(replacement, '/') { replacement } else { trim_end(replacement) };
    (display, replacement)
}

/// The candidate for a file-name completion whose replacement is `r`.
pub fn file_candidate(r: &str) -> (c: CommandCandidate)
    ensures
        c@ == file_candidate_spec(r@),
{
    let replacement = if ends_with(r, '/') {
        text_of(r)
    } else {
        cat2(r, " ")
    };
    let display = if ends_with(replacement.as_str(), '/') {
        replacement.clone()
    } else {
        trim_end_exec(replacement.as_str())
    };
    CommandCandidate { display, replacement }
}

// ── Candidates for a command name ───────────────────────────────────

/// Whether some candidate lists `name`.
pub open spec fn lists(cands: Seq<(Seq<char>, Seq<char>)>, name: Seq<char>) -> bool {
    exists|k: int| 0 <= k < cands.len() && cands[k].0 == name
}

/// `cands` with a candidate for each of `names` that begins with `word`,
/// in order; with `dedup`, a name already listed is skipped.
pub open spec fn offer_names(
    cands: Seq<(Seq<char>, Seq<char>)>,
    names: Seq<Seq<char>>,
    word: Seq<char>,
    dedup: bool,
) -> Seq<(Seq<char>, Seq<char>)>
    decreases names.len(),
{
    if names.len() == 0 {
        cands
    } else {
        let prev = offer_names(cands, names.drop_last(), word, dedup);
        let name = names.last();
        if has_prefix(name, word) && !(dedup && lists(prev, name)) {
            prev.push(word_candidate(name))
        } else {
            prev
        }
    }
}

/// The candidates for completing the command name `word`: the builtins that
/// begin with it, then the executables found in `PATH` (`path_names`, in
/// search order) that begin with it and are not listed yet.
pub open spec fn command_candidates(word: Seq<char>, path_names: Seq<Seq<char>>) -> Seq<
    (Seq<char>, Seq<char>),
> {
    offer_names(offer_names(Seq::empty(), builtin_names(), word, false), path_names, word, true)
}

/// Whether no two candidates list the same text.
pub open spec fn displays_distinct(cands: Seq<(Seq<char>, Seq<char>)>) -> bool {
    forall|a: int, b: int| 0 <= a < b < cands.len() ==> cands[a].0 != cands[b].0
}

/// Whether every candidate is a whole-word candidate for a text beginning with `word`.
pub open spec fn all_match(cands: Seq<(Seq<char>, Seq<char>)>, word: Seq<char>) -> bool {
    forall|k: int|
        0 <= k < cands.len() ==> has_prefix(#[trigger] cands[k].0, word) && cands[k]
            == word_candidate(cands[k].0)
}

proof fn lemma_offer_names(
    cands: Seq<(Seq<char>, Seq<char>)>,
    names: Seq<Seq<char>>,
    word: Seq<char>,
    dedup: bool,
)
    requires
        all_match(cands, word),
    ensures
        all_match(offer_names(cands, names, word, dedup), word),
        offer_names(cands, names, word, dedup).len() >= cands.len(),
        forall|k: int|
            0 <= k < cands.len() ==> #[trigger] offer_names(cands, names, word, dedup)[k]
                == cands[k],
        forall|k: int|
            0 <= k < names.len() && has_prefix(names[k], word) ==> lists(
                offer_names(cands, names, word, dedup),
                #[trigger] names[k],
            ),
        displays_distinct(cands) && (dedup || forall|a: int, b: int|
            0 <= a < b < names.len() ==> names[a] != names[b]) && (dedup || forall|a: int, k: int|
            0 <= a < names.len() && 0 <= k < cands.len() ==> cands[k].0 != names[a])
            ==> displays_distinct(offer_names(cands, names, word, dedup)),
    decreases names.len(),
{
    if names.len() > 0 {
        let init = names.drop_last();
        lemma_offer_names(cands, init, word, dedup);
        let prev = offer_names(cands, init, word, dedup);
        let name = names.last();
        let r = offer_names(cands, names, word, dedup);
        assert forall|k: int| 0 <= k < names.len() && has_prefix(names[k], word) implies lists(
            r,
            #[trigger] names[k],
        ) by {
            if k < names.len() - 1 {
                assert(init[k] == names[k]);
                let m = choose|m: int| 0 <= m < prev.len() && prev[m].0 == names[k];
                assert(r[m] == prev[m]);
            } else {
                if has_prefix(name, word) && !(dedup && lists(prev, name)) {
                    assert(r[prev.len() as int].0 == name);
                } else {
                    let m = choose|m: int| 0 <= m < prev.len() && prev[m].0 == names[k];
                    assert(r[m] == prev[m]);
                }
            }
        }
        if displays_distinct(cands) && (dedup || forall|a: int, b: int|
            0 <= a < b < names.len() ==> names[a] != names[b]) && (dedup || forall|a: int, k: int|
            0 <= a < names.len() && 0 <= k < cands.len() ==> cands[k].0 != names[a]) {
            assert(dedup || forall|a: int, b: int|
                0 <= a < b < init.len() ==> init[a] != init[b]);
            assert(dedup || forall|a: int, k: int|
                0 <= a < init.len() && 0 <= k < cands.len() ==> cands[k].0 != init[a]);
            if has_prefix(name, word) && !(dedup && lists(prev, name)) {
                if !dedup {
                    assert forall|m: int| 0 <= m < prev.len() implies prev[m].0 != name by {
                        if m >= cands.len() {
                            // every later candidate comes from an earlier name
                            lemma_offer_from_names(cands, init, word, dedup, m);
                            let a = choose|a: int| 0 <= a < init.len() && init[a] == prev[m].0;
                            assert(names[a] == init[a]);
                        } else {
                            assert(prev[m] == cands[m]);
                        }
                    }
                }
                assert(displays_distinct(r));
            }
        }
    }
}

/// Each candidate that `offer_names` adds lists one of the names.
proof fn lemma_offer_from_names(
    cands: Seq<(Seq<char>, Seq<char>)>,
    names: Seq<Seq<char>>,
    word: Seq<char>,
    dedup: bool,
    m: int,
)
    requires
        cands.len() <= m < offer_names(cands, names, word, dedup).len(),
    ensures
        exists|a: int| 0 <= a < names.len() && names[a] == offer_names(cands, names, word, dedup)[m].0,
    decreases names.len(),
{
    if names.len() > 0 {
        let init = names.drop_last();
        let prev = offer_names(cands, init, word, dedup);
        lemma_offer_len(cands, init, word, dedup);
        if m < prev.len() {
            lemma_offer_from_names(cands, init, word, dedup, m);
            let a = choose|a: int| 0 <= a < init.len() && init[a] == prev[m].0;
            assert(names[a] == init[a]);
            assert(offer_names(cands, names, word, dedup)[m] == prev[m]);
        } else {
            assert(names[names.len() - 1] == offer_names(cands, names, word, dedup)[m].0);
        }
    } else {
    }
}

proof fn lemma_offer_len(
    cands: Seq<(Seq<char>, Seq<char>)>,
    names: Seq<Seq<char>>,
    word: Seq<char>,
    dedup: bool,
)
    ensures
        offer_names(cands, names, word, dedup).len() >= cands.len(),
        forall|k: int|
            0 <= k < cands.len() ==> #[trigger] offer_names(cands, names, word, dedup)[k]
                == cands[k],
    decreases names.len(),
{
    if names.len() > 0 {
        lemma_offer_len(cands, names.drop_last(), word, dedup);
    }
}

proof fn lemma_builtin_names_distinct()
    ensures
        forall|a: int, b: int|
            0 <= a < b < builtin_names().len() ==> builtin_names()[a] != builtin_names()[b],
{
    reveal_strlit("echo");
    reveal_strlit("exit");
    reveal_strlit("cd");
    reveal_strlit("pwd");
    reveal_strlit("type");
    reveal_strlit("complete");
    reveal_strlit("jobs");
    reveal_strlit("history");
    reveal_strlit("declare");
    let n = builtin_names();
    assert forall|a: int, b: int| 0 <= a < b < n.len() implies n[a] != n[b] by {
        if n[a] == n[b] {
            assert(n[a].len() == n[b].len());
            assert(n[a][0] == n[b][0]);
            assert(n[a][1] == n[b][1]);
        }
    }
}

/// Completing a command name offers each builtin and each executable found
/// in `PATH` that begins with the typed prefix, offers nothing else, and
/// lists no name twice.
pub proof fn law_command_candidates(word: Seq<char>, path_names: Seq<Seq<char>>)
    ensures
        all_match(command_candidates(word, path_names), word),
        displays_distinct(command_candidates(word, path_names)),
        forall|k: int|
            0 <= k < builtin_names().len() && has_prefix(builtin_names()[k], word) ==> lists(
                command_candidates(word, path_names),
                #[trigger] builtin_names()[k],
            ),
        forall|k: int|
            0 <= k < path_names.len() && has_prefix(path_names[k], word) ==> lists(
                command_candidates(word, path_names),
                #[trigger] path_names[k],
            ),
{
    let empty = Seq::<(Seq<char>, Seq<char>)>::empty();
    lemma_builtin_names_distinct();
    lemma_offer_names(empty, builtin_names(), word, false);
    let b = offer_names(empty, builtin_names(), word, false);
    lemma_offer_names(b, path_names, word, true);
    assert forall|k: int|
        0 <= k < builtin_names().len() && has_prefix(builtin_names()[k], word) implies lists(
        command_candidates(word, path_names),
        #[trigger] builtin_names()[k],
    ) by {
        assert(lists(b, builtin_names()[k]));
        let m = choose|m: int| 0 <= m < b.len() && b[m].0 == builtin_names()[k];
        assert(command_candidates(word, path_names)[m] == b[m]);
    }
}

fn lists_exec(cands: &Vec<CommandCandidate>, name: &str) -> (r: bool)
    ensures
        r == lists(candidates_model(cands@), name@),
{
    let mut k: usize = 0;
    while k < cands.len()
        invariant
            k <= cands@.len(),
            forall|m: int| 0 <= m < k ==> cands@[m].display@ != name@,
        decreases cands.len() - k,
    {
        if same_text(cands[k].display.as_str(), name) {
            assert(candidates_model(cands@)[k as int].0 == name@);
            return true;
        }
        k = k + 1;
    }
    assert forall|m: int| 0 <= m < cands@.len() implies candidates_model(cands@)[m].0 != name@ by {
        assert(candidates_model(cands@)[m] == cands@[m]@);
    }
    false
}

fn offer_names_exec(cands: &mut Vec<CommandCandidate>, names: &[String], word: &str, dedup: bool)
    ensures
        candidates_model(final(cands)@) == offer_names(
            candidates_model(old(cands)@),
            views_of(names@),
            word@,
            dedup,
        ),
{
    let mut i: usize = 0;
    while i < names.len()
        invariant
            i <= names@.len(),
            candidates_model(cands@) == offer_names(
                candidates_model(old(cands)@),
                views_of(names@).take(i as int),
                word@,
                dedup,
            ),
        decreases names.len() - i,
    {
        proof {
            let t = views_of(names@).take(i + 1);
            assert(t.drop_last() =~= views_of(names@).take(i as int));
            assert(t.last() == names@[i as int]@);
        }
        let name = names[i].as_str();
        if starts_with(name, word) && !(dedup && lists_exec(cands, name)) {
            let ghost c0 = cands@;
            let c = make_word_candidate(name);
            cands.push(c);
            assert(candidates_model(cands@) =~= candidates_model(c0).push(c@));
        }
        i = i + 1;
    }
    assert(views_of(names@).take(i as int) =~= views_of(names@));
}

/// The candidates for completing the command name `word`, given the names of
/// the executables found in `PATH`.
pub fn complete_command(word: &str, path_names: &[String]) -> (r: Vec<CommandCandidate>)
    ensures
        candidates_model(r@) == command_candidates(word@, views_of(path_names@)),
{
    let mut candidates: Vec<CommandCandidate> = Vec::new();
    let names = builtins();
    assert(candidates_model(candidates@) =~= Seq::<(Seq<char>, Seq<char>)>::empty());
    offer_names_exec(&mut candidates, names.as_slice(), word, false);
    offer_names_exec(&mut candidates, path_names, word, true);
    candidates
}

// ── What to ask a completion program ────────────────────────────────

/// The maximal runs of non-white-space characters of `s[i..]`, given the
/// runs already found and the run under way.
pub open spec fn words_from(s: Seq<char>, i: int, found: Seq<Seq<char>>, current: Seq<char>) -> Seq<
    Seq<char>,
>
    decreases s.len() - i,
{
    if 0 <= i < s.len() {
        if whitespace(s[i]) {
            words_from(s, i + 1, push_nonempty(found, current), Seq::empty())
        } else {
            words_from(s, i + 1, found, current.push(s[i]))
        }
    } else {
        push_nonempty(found, current)
    }
}

/// The words of `s`, as `str::split_whitespace` gives them.
pub open spec fn whitespace_words(s: Seq<char>) -> Seq<Seq<char>> {
    words_from(s, 0, Seq::empty(), Seq::empty())
}

proof fn lemma_words_split_at_space(
    s: Seq<char>,
    n: int,
    i: int,
    found: Seq<Seq<char>>,
    current: Seq<char>,
)
    requires
        0 <= i <= n < s.len(),
        whitespace(s[n]),
    ensures
        words_from(s, i, found, current) == words_from(
            s,
            n + 1,
            words_from(s.take(n), i, found, current),
            Seq::empty(),
        ),
    decreases n - i,
{
    if i < n {
        assert(s.take(n)[i] == s[i]);
        if whitespace(s[i]) {
            lemma_words_split_at_space(s, n, i + 1, push_nonempty(found, current), Seq::empty());
        } else {
            lemma_words_split_at_space(s, n, i + 1, found, current.push(s[i]));
        }
    }
}

proof fn lemma_words_last_run(s: Seq<char>, j: int, found: Seq<Seq<char>>, current: Seq<char>)
    requires
        0 <= j <= s.len(),
        forall|k: int| j <= k < s.len() ==> !whitespace(#[trigger] s[k]),
    ensures
        words_from(s, j, found, current) == push_nonempty(found, current + s.subrange(j, s.len() as int)),
    decreases s.len() - j,
{
    if j < s.len() {
        lemma_words_last_run(s, j + 1, found, current.push(s[j]));
        assert(current.push(s[j]) + s.subrange(j + 1, s.len() as int) =~= current + s.subrange(
            j,
            s.len() as int,
        ));
    } else {
        assert(current + s.subrange(j, s.len() as int) =~= current);
    }
}

/// Words are the runs between white space: a space and a run `x` without
/// white space typed after `a` add `x` as the last word, and a trailing
/// space adds none.
pub proof fn law_words_grow_by_the_last_run(a: Seq<char>, x: Seq<char>)
    requires
        forall|k: int| 0 <= k < x.len() ==> !whitespace(#[trigger] x[k]),
    ensures
        whitespace_words(a + seq![' '] + x) == if x.len() > 0 {
            whitespace_words(a).push(x)
        } else {
            whitespace_words(a)
        },
{
    let s = a + seq![' '] + x;
    let n = a.len() as int;
    assert(s[n] == ' ');
    assert(whitespace(' '));
    lemma_words_split_at_space(s, n, 0, Seq::empty(), Seq::empty());
    assert(s.take(n) =~= a);
    assert forall|k: int| n + 1 <= k < s.len() implies !whitespace(#[trigger] s[k]) by {
        assert(s[k] == x[k - n - 1]);
    }
    lemma_words_last_run(s, n + 1, whitespace_words(a), Seq::empty());
    assert(Seq::<char>::empty() + s.subrange(n + 1, s.len() as int) =~= x);
}

fn whitespace_words_exec(s: &str) -> (r: Vec<String>)
    ensures
        views_of(r@) == whitespace_words(s@),
{
    let x = chars_of(s);
    let mut found: Vec<String> = Vec::new();
    let mut current = String::new();
    let mut i: usize = 0;
    assert(views_of(found@) =~= Seq::<Seq<char>>::empty());
    while i < x.len()
        invariant
            i <= x@.len(),
            x@ == s@,
            words_from(x@, i as int, views_of(found@), current@) == whitespace_words(s@),
        decreases x.len() - i,
    {
        let ghost f0 = found@;
        if is_whitespace(x[i]) {
            let mut taken = String::new();
            std::mem::swap(&mut taken, &mut current);
            if !taken.as_str().is_empty() {
                found.push(taken);
                assert(views_of(found@) =~= views_of(f0).push(taken@));
            }
        } else {
            push_char(&mut current, x[i]);
        }
        i = i + 1;
    }
    let ghost f0 = found@;
    if !current.as_str().is_empty() {
        found.push(current);
        assert(views_of(found@) =~= views_of(f0).push(current@));
    }
    found
}

/// What a completion program is told about the text before the cursor: the
/// command, the word being completed and the word before it.
pub struct CompletionArgs {
    pub cmd: String,
    pub current_word: String,
    pub prev_word: String,
}

/// Where the word being completed starts in the line: the cursor position
/// `pos` (a byte offset) less the length in bytes of the word.
pub fn completion_start(pos: usize, current_word: &str) -> (r: usize)
    requires
        current_word.spec_bytes().len() <= pos,
    ensures
        r == pos - current_word.spec_bytes().len(),
{
    pos - current_word.len()
}

/// The text before the first space of `s` (all of `s` when it has none).
pub open spec fn first_field(s: Seq<char>) -> Seq<char> {
    s.take(crate::text::find_from(s, 0, ' '))
}

/// The last element of `v`, or the empty text.
pub open spec fn last_or_empty(v: Seq<Seq<char>>) -> Seq<char> {
    if v.len() > 0 {
        v.last()
    } else {
        Seq::empty()
    }
}

/// The word being completed: empty right after a space, else the last word.
pub open spec fn current_word_spec(word: Seq<char>) -> Seq<char> {
    if ends_with_char(word, ' ') {
        Seq::empty()
    } else {
        last_or_empty(whitespace_words(word))
    }
}

/// The word before the one being completed.
pub open spec fn prev_word_spec(word: Seq<char>) -> Seq<char> {
    let words = whitespace_words(word);
    if ends_with_char(word, ' ') {
        last_or_empty(words)
    } else if words.len() >= 2 {
        words[words.len() - 2]
    } else {
        Seq::empty()
    }
}

/// Right after a space, the word being completed is empty and the word
/// before it is the last word typed; otherwise the word being completed is
/// the last word typed and the word before it is the one typed before that.
pub proof fn law_completion_words(word: Seq<char>)
    ensures
        ends_with_char(word, ' ') ==> current_word_spec(word) == Seq::<char>::empty(),
        ends_with_char(word, ' ') && whitespace_words(word).len() > 0 ==> prev_word_spec(word)
            == whitespace_words(word).last(),
        !ends_with_char(word, ' ') && whitespace_words(word).len() > 0 ==> current_word_spec(word)
            == whitespace_words(word).last(),
        !ends_with_char(word, ' ') && whitespace_words(word).len() >= 2 ==> prev_word_spec(word)
            == whitespace_words(word)[whitespace_words(word).len() - 2],
{
}

/// The command handed to a completion program is the text before the first
/// space: a prefix of the line, free of spaces, followed by a space.
pub proof fn law_command_is_text_before_first_space(word: Seq<char>)
    requires
        word.contains(' '),
    ensures
        ({
            let cmd = first_field(word);
            &&& cmd.len() < word.len()
            &&& word[cmd.len() as int] == ' '
            &&& cmd == word.take(cmd.len() as int)
            &&& !cmd.contains(' ')
        }),
{
    crate::text::lemma_find_from_bounds(word, 0, ' ');
    let e = crate::text::find_from(word, 0, ' ');
    let k = choose|k: int| 0 <= k < word.len() && word[k] == ' ';
    if e == word.len() {
        assert(word[k] != ' ');
    }
    let cmd = first_field(word);
    assert(cmd.len() == e);
    if cmd.contains(' ') {
        let m = choose|m: int| 0 <= m < cmd.len() && cmd[m] == ' ';
        assert(word[m] == ' ');
    }
}

/// What to tell a completion program about `word`, the text before the
/// cursor, when it holds a space (the arguments of a command are being
/// completed); `None` when a command name is being completed.
pub fn completion_args(word: &str) -> (r: Option<CompletionArgs>)
    ensures
        match r {
            Some(a) => {
                &&& word@.contains(' ')
                &&& a.cmd@ == first_field(word@)
                &&& a.current_word@ == current_word_spec(word@)
                &&& a.prev_word@ == prev_word_spec(word@)
            },
            None => !word@.contains(' '),
        },
{
    let x = chars_of(word);
    let mut k: usize = 0;
    let mut cmd = String::new();
    proof {
        crate::text::lemma_find_from_bounds(x@, 0, ' ');
    }
    while k < x.len() && x[k] != ' '
        invariant
            k <= x@.len(),
            x@ == word@,
            crate::text::find_from(x@, k as int, ' ') == crate::text::find_from(x@, 0, ' '),
            cmd@ == x@.take(k as int),
            forall|m: int| 0 <= m < k ==> x@[m] != ' ',
        decreases x.len() - k,
    {
        push_char(&mut cmd, x[k]);
        k = k + 1;
        assert(cmd@ =~= x@.take(k as int));
    }
    if k == x.len() {
        assert forall|m: int| 0 <= m < word@.len() implies word@[m] != ' ' by {}
        return None;
    }
    assert(word@[k as int] == ' ');
    let words = whitespace_words_exec(word);
    let n = words.len();
    let trailing_space = ends_with(word, ' ');
    let current_word = if trailing_space || n == 0 {
        String::new()
    } else {
        words[n - 1].clone()
    };
    let prev_word = if trailing_space {
        if n > 0 {
            words[n - 1].clone()
        } else {
            String::new()
        }
    } else if n >= 2 {
        words[n - 2].clone()
    } else {
        String::new()
    };
    proof {
        if n > 0 {
            assert(views_of(words@)[n - 1] == words@[n - 1]@);
        }
        if n >= 2 {
            assert(views_of(words@)[n - 2] == words@[n - 2]@);
        }
    }
    Some(CompletionArgs { cmd, current_word, prev_word })
}

} // verus!
