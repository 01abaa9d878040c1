//! Character-sequence utilities shared by the parser and the builtins.

use vstd::prelude::*;

verus! {

/// Whether `c` is an ASCII letter.
pub open spec fn ascii_letter(c: char) -> bool {
    ('a' <= c && c <= 'z') || ('A' <= c && c <= 'Z')
}

/// Whether `c` is an ASCII decimal digit.
pub open spec fn ascii_digit(c: char) -> bool {
    '0' <= c && c <= '9'
}

/// Whether `c` is an ASCII character.
pub open spec fn is_ascii_char(c: char) -> bool {
    (c as u32) < 0x80
}

/// The Unicode `Alphabetic` property of a character, as `char::is_alphabetic`
/// computes it.
pub uninterp spec fn char_alphabetic(c: char) -> bool;

/// Alphabetic or numeric in the Unicode sense, as `char::is_alphanumeric`
/// computes it.
pub uninterp spec fn char_alphanumeric(c: char) -> bool;

/// Whether `c` is alphabetic: among ASCII characters exactly the letters.
pub open spec fn alphabetic(c: char) -> bool {
    if is_ascii_char(c) {
        ascii_letter(c)
    } else {
        char_alphabetic(c)
    }
}

/// Whether `c` is alphabetic or numeric: among ASCII characters exactly the
/// letters and digits.
pub open spec fn alphanumeric(c: char) -> bool {
    if is_ascii_char(c) {
        ascii_letter(c) || ascii_digit(c)
    } else {
        char_alphanumeric(c)
    }
}

/// The Unicode `White_Space` property: tab, line feed, vertical tab, form
/// feed, carriage return, space, U+0085, U+00A0, U+1680, U+2000 to U+200A,
/// U+2028, U+2029, U+202F, U+205F and U+3000.
pub open spec fn whitespace(c: char) -> bool {
    let u = c as u32;
    (0x09 <= u && u <= 0x0D) || u == 0x20 || u == 0x85 || u == 0xA0 || u == 0x1680 || (0x2000
        <= u && u <= 0x200A) || u == 0x2028 || u == 0x2029 || u == 0x202F || u == 0x205F || u
        == 0x3000
}

/// Calls `char::is_alphabetic`; the result is the Unicode `Alphabetic`
/// property of `c`, which depends on `c` alone, and among ASCII characters
/// holds of the letters only.
#[verifier::external_body]
pub(crate) fn is_alphabetic(c: char) -> (r: bool)
    ensures
        r == char_alphabetic(c),
        is_ascii_char(c) ==> (r <==> ascii_letter(c)),
{
    c.is_alphabetic()
}

/// Calls `char::is_alphanumeric`; the result depends on `c` alone, and
/// among ASCII characters holds of the letters and digits only.
#[verifier::external_body]
pub(crate) fn is_alphanumeric(c: char) -> (r: bool)
    ensures
        r == char_alphanumeric(c),
        is_ascii_char(c) ==> (r <==> (ascii_letter(c) || ascii_digit(c))),
{
    c.is_alphanumeric()
}

/// Whether `c` has the Unicode `White_Space` property, as `char::is_whitespace` tells.
pub fn is_whitespace(c: char) -> (r: bool)
    ensures
        r == whitespace(c),
{
    let u = c as u32;
    (0x09 <= u && u <= 0x0D) || u == 0x20 || u == 0x85 || u == 0xA0 || u == 0x1680 || (0x2000
        <= u && u <= 0x200A) || u == 0x2028 || u == 0x2029 || u == 0x202F || u == 0x205F || u
        == 0x3000
}

/// Calls `String::push`, which appends one character.
#[verifier::external_body]
pub(crate) fn push_char(s: &mut String, c: char)
    ensures
        final(s)@ == old(s)@.push(c),
{
    s.push(c)
}

/// The characters of `s`, in order.
pub fn chars_of(s: &str) -> (v: Vec<char>)
    ensures
        v@ == s@,
{
    let mut v: Vec<char> = Vec::new();
    for c in it: s.chars()
        invariant
            v@ == it.seq().take(it.index() as int),
    {
        v.push(c);
    }
    v
}


/// The first index at or after `j` that holds `c`, or the end.
pub open spec fn find_from(s: Seq<char>, j: int, c: char) -> int
    decreases s.len() - j,
{
    if 0 <= j < s.len() && s[j] != c {
        find_from(s, j + 1, c)
    } else {
        j
    }
}

/// Bounds of [`find_from`].
pub proof fn lemma_find_from_bounds(s: Seq<char>, j: int, c: char)
    requires
        0 <= j <= s.len(),
    ensures
        j <= find_from(s, j, c) <= s.len(),
        forall|k: int| j <= k < find_from(s, j, c) ==> s[k] != c,
        find_from(s, j, c) < s.len() ==> s[find_from(s, j, c)] == c,
    decreases s.len() - j,
{
    if j < s.len() && s[j] != c {
        lemma_find_from_bounds(s, j + 1, c);
    }
}

// ── Comparison ──────────────────────────────────────────────────────

/// Whether `a` and `b` hold the same characters.
pub fn same_text(a: &str, b: &str) -> (r: bool)
    ensures
        r == (a@ == b@),
{
    let x = chars_of(a);
    let y = chars_of(b);
    if x.len() != y.len() {
        return false;
    }
    let mut i: usize = 0;
    while i < x.len()
        invariant
            i <= x@.len(),
            x@.len() == y@.len(),
            x@ == a@,
            y@ == b@,
            forall|k: int| 0 <= k < i ==> x@[k] == y@[k],
        decreases x.len() - i,
    {
        if x[i] != y[i] {
            return false;
        }
        i = i + 1;
    }
    assert(x@ =~= y@);
    true
}

/// Whether `s` begins with `prefix`.
pub open spec fn has_prefix(s: Seq<char>, prefix: Seq<char>) -> bool {
    prefix.len() <= s.len() && s.take(prefix.len() as int) == prefix
}

/// Whether `s` begins with `prefix`.
pub fn starts_with(s: &str, prefix: &str) -> (r: bool)
    ensures
        r == has_prefix(s@, prefix@),
{
    let x = chars_of(s);
    let p = chars_of(prefix);
    if p.len() > x.len() {
        return false;
    }
    let mut i: usize = 0;
    while i < p.len()
        invariant
            i <= p@.len(),
            p@.len() <= x@.len(),
            x@ == s@,
            p@ == prefix@,
            forall|k: int| 0 <= k < i ==> x@[k] == p@[k],
        decreases p.len() - i,
    {
        if x[i] != p[i] {
            assert(x@.take(p@.len() as int)[i as int] != p@[i as int]);
            return false;
        }
        i = i + 1;
    }
    assert(x@.take(p@.len() as int) =~= p@);
    true
}


/// Whether the last character of `s` is `c`.
pub open spec fn ends_with_char(s: Seq<char>, c: char) -> bool {
    s.len() > 0 && s.last() == c
}

/// Whether `s` ends with the character `c`.
pub fn ends_with(s: &str, c: char) -> (r: bool)
    ensures
        r == ends_with_char(s@, c),
{
    let x = chars_of(s);
    x.len() > 0 && x[x.len() - 1] == c
}

// ── Building text ───────────────────────────────────────────────────

/// A `String` holding the characters of `s`.
pub fn text_of(s: &str) -> (r: String)
    ensures
        r@ == s@,
{
    String::from_str(s)
}

/// A copy of a list of strings.
pub fn clone_strings(v: &[String]) -> (r: Vec<String>)
    ensures
        views_of(r@) == views_of(v@),
{
    let mut r: Vec<String> = Vec::new();
    let mut i: usize = 0;
    while i < v.len()
        invariant
            i <= v@.len(),
            views_of(r@) == views_of(v@.take(i as int)),
        decreases v.len() - i,
    {
        let ghost r0 = r@;
        let c = v[i].clone();
        r.push(c);
        i = i + 1;
        assert(views_of(r@) =~= views_of(r0).push(v@[i - 1]@));
        assert(views_of(v@.take(i as int)) =~= views_of(v@.take(i - 1)).push(v@[i - 1]@));
    }
    assert(v@.take(v@.len() as int) =~= v@);
    r
}

/// The concatenation of two texts.
pub fn cat2(a: &str, b: &str) -> (r: String)
    ensures
        r@ == a@ + b@,
{
    let mut r = String::from_str(a);
    r.append(b);
    r
}

/// The concatenation of three texts.
pub fn cat3(a: &str, b: &str, c: &str) -> (r: String)
    ensures
        r@ == a@ + b@ + c@,
{
    let mut r = cat2(a, b);
    r.append(c);
    r
}

/// The concatenation of four texts.
pub fn cat4(a: &str, b: &str, c: &str, d: &str) -> (r: String)
    ensures
        r@ == a@ + b@ + c@ + d@,
{
    let mut r = cat3(a, b, c);
    r.append(d);
    r
}

/// The concatenation of five texts.
pub fn cat5(a: &str, b: &str, c: &str, d: &str, e: &str) -> (r: String)
    ensures
        r@ == a@ + b@ + c@ + d@ + e@,
{
    let mut r = cat4(a, b, c, d);
    r.append(e);
    r
}

/// `words` joined with `sep` between consecutive words.
pub open spec fn join_with(words: Seq<Seq<char>>, sep: Seq<char>) -> Seq<char>
    decreases words.len(),
{
    if words.len() == 0 {
        Seq::empty()
    } else if words.len() == 1 {
        words[0]
    } else {
        join_with(words.drop_last(), sep) + sep + words.last()
    }
}

/// The models of a sequence of strings.
pub open spec fn views_of(v: Seq<String>) -> Seq<Seq<char>> {
    Seq::new(v.len(), |i: int| v[i]@)
}

/// The words joined with `sep` between consecutive words.
pub fn join_words(words: &[String], sep: &str) -> (r: String)
    ensures
        r@ == join_with(views_of(words@), sep@),
{
    let mut r = String::new();
    let mut i: usize = 0;
    while i < words.len()
        invariant
            i <= words@.len(),
            r@ == join_with(views_of(words@.take(i as int)), sep@),
        decreases words.len() - i,
    {
        if i > 0 {
            r.append(sep);
        }
        r.append(words[i].as_str());
        i = i + 1;
        proof {
            let v = views_of(words@.take(i as int));
            assert(v.drop_last() =~= views_of(words@.take(i - 1)));
            assert(v.last() == words@[i - 1]@);
            if i == 1 {
                assert(v =~= seq![words@[0]@]);
            }
        }
    }
    assert(words@.take(words@.len() as int) =~= words@);
    r
}

// ── Numbers ─────────────────────────────────────────────────────────

/// The decimal digit character for `d < 10`.
pub open spec fn digit_char(d: nat) -> char {
    if d == 0 { '0' }
    else if d == 1 { '1' }
    else if d == 2 { '2' }
    else if d == 3 { '3' }
    else if d == 4 { '4' }
    else if d == 5 { '5' }
    else if d == 6 { '6' }
    else if d == 7 { '7' }
    else if d == 8 { '8' }
    else { '9' }
}

/// The value of a decimal digit character.
pub open spec fn digit_value(c: char) -> nat {
    (c as u32 - '0' as u32) as nat
}

/// Whether `c` is one of `0` to `9`.
pub open spec fn is_digit(c: char) -> bool {
    '0' <= c <= '9'
}

/// The decimal representation of `n`, without leading zeros.
pub open spec fn decimal(n: nat) -> Seq<char>
    decreases n,
{
    if n < 10 {
        seq![digit_char(n)]
    } else {
        decimal(n / 10).push(digit_char(n % 10))
    }
}

fn digit_of(d: usize) -> (c: char)
    requires
        d < 10,
    ensures
        c == digit_char(d as nat),
{
    if d == 0 { '0' }
    else if d == 1 { '1' }
    else if d == 2 { '2' }
    else if d == 3 { '3' }
    else if d == 4 { '4' }
    else if d == 5 { '5' }
    else if d == 6 { '6' }
    else if d == 7 { '7' }
    else if d == 8 { '8' }
    else { '9' }
}

fn push_decimal(out: &mut String, n: usize)
    ensures
        final(out)@ == old(out)@ + decimal(n as nat),
    decreases n,
{
    if n >= 10 {
        push_decimal(out, n / 10);
    }
    push_char(out, digit_of(n % 10));
    proof {
        if n >= 10 {
            assert(decimal(n as nat) == decimal((n / 10) as nat).push(digit_char((n % 10) as nat)));
        }
    }
}

/// The decimal representation of `n`, as `format!("{}", n)` writes it.
pub fn decimal_string(n: usize) -> (r: String)
    ensures
        r@ == decimal(n as nat),
{
    let mut r = String::new();
    push_decimal(&mut r, n);
    assert(r@ =~= decimal(n as nat));
    r
}

/// `n` spaces.
pub open spec fn spaces(n: nat) -> Seq<char> {
    Seq::new(n, |i: int| ' ')
}

/// `s` followed by spaces up to `width` characters (left-aligned field).
pub open spec fn pad_right(s: Seq<char>, width: nat) -> Seq<char> {
    if s.len() >= width {
        s
    } else {
        s + spaces((width - s.len()) as nat)
    }
}

/// `s` preceded by spaces up to `width` characters (right-aligned field).
pub open spec fn pad_left(s: Seq<char>, width: nat) -> Seq<char> {
    if s.len() >= width {
        s
    } else {
        spaces((width - s.len()) as nat) + s
    }
}

fn push_spaces(out: &mut String, n: usize)
    ensures
        final(out)@ == old(out)@ + spaces(n as nat),
{
    let mut i: usize = 0;
    while i < n
        invariant
            i <= n,
            out@ == old(out)@ + spaces(i as nat),
        decreases n - i,
    {
        push_char(out, ' ');
        i = i + 1;
        assert(out@ =~= old(out)@ + spaces(i as nat));
    }
}

/// Appends `s` left-aligned in a field of `width` characters.
pub fn push_padded_right(out: &mut String, s: &str, width: usize)
    ensures
        final(out)@ == old(out)@ + pad_right(s@, width as nat),
{
    let len = chars_of(s).len();
    out.append(s);
    if len < width {
        push_spaces(out, width - len);
    }
    assert(out@ =~= old(out)@ + pad_right(s@, width as nat));
}

/// Appends `s` right-aligned in a field of `width` characters.
pub fn push_padded_left(out: &mut String, s: &str, width: usize)
    ensures
        final(out)@ == old(out)@ + pad_left(s@, width as nat),
{
    let len = chars_of(s).len();
    if len < width {
        push_spaces(out, width - len);
    }
    out.append(s);
    assert(out@ =~= old(out)@ + pad_left(s@, width as nat));
}

/// The value of a string of decimal digits.
pub open spec fn digits_value(s: Seq<char>) -> nat
    decreases s.len(),
{
    if s.len() == 0 {
        0
    } else {
        digits_value(s.drop_last()) * 10 + digit_value(s.last())
    }
}

/// Whether every character of `s` is a decimal digit.
pub open spec fn all_digits(s: Seq<char>) -> bool {
    forall|k: int| 0 <= k < s.len() ==> is_digit(#[trigger] s[k])
}

/// What `str::parse::<usize>` accepts: an optional `+` followed by one or
/// more decimal digits whose value fits in `usize`.
pub open spec fn parse_usize_spec(s: Seq<char>) -> Option<nat> {
    let d = if s.len() > 0 && s[0] == '+' { s.drop_first() } else { s };
    if d.len() > 0 && all_digits(d) && digits_value(d) <= usize::MAX {
        Some(digits_value(d))
    } else {
        None
    }
}

proof fn lemma_digits_value_grows(s: Seq<char>, c: char)
    requires
        is_digit(c),
    ensures
        digits_value(s.push(c)) >= digits_value(s),
        digits_value(s.push(c)) == digits_value(s) * 10 + digit_value(c),
{
    assert(s.push(c).drop_last() =~= s);
}

proof fn lemma_digits_value_prefix(s: Seq<char>, i: int)
    requires
        0 <= i <= s.len(),
        all_digits(s),
    ensures
        digits_value(s.take(i)) <= digits_value(s),
    decreases s.len() - i,
{
    if i < s.len() {
        lemma_digits_value_prefix(s, i + 1);
        assert(s.take(i + 1) =~= s.take(i).push(s[i]));
        lemma_digits_value_grows(s.take(i), s[i]);
    } else {
        assert(s.take(i) =~= s);
    }
}

proof fn lemma_digit_char(d: nat)
    requires
        d < 10,
    ensures
        is_digit(digit_char(d)),
        digit_value(digit_char(d)) == d,
{
}

proof fn lemma_decimal_digits(n: nat)
    ensures
        decimal(n).len() > 0,
        all_digits(decimal(n)),
        digits_value(decimal(n)) == n,
    decreases n,
{
    if n < 10 {
        lemma_digit_char(n);
        assert(seq![digit_char(n)].drop_last() =~= Seq::<char>::empty());
        assert(digits_value(Seq::<char>::empty()) == 0);
    } else {
        lemma_decimal_digits(n / 10);
        lemma_digit_char(n % 10);
        lemma_digits_value_grows(decimal(n / 10), digit_char(n % 10));
        assert((n / 10) * 10 + n % 10 == n) by (nonlinear_arith);
    }
}

/// Every number written in decimal reads back as itself: the numbers that
/// `history` prints are the ones that `history N` accepts.
pub proof fn law_decimal_parses_back(n: nat)
    requires
        n <= usize::MAX,
    ensures
        parse_usize_spec(decimal(n)) == Some(n),
{
    lemma_decimal_digits(n);
    assert(is_digit(decimal(n)[0]));
}

/// Parses a `usize` the way `str::parse::<usize>().ok()` does.
pub fn parse_usize(s: &str) -> (r: Option<usize>)
    ensures
        match r {
            Some(v) => parse_usize_spec(s@) == Some(v as nat),
            None => parse_usize_spec(s@) is None,
        },
{
    let x = chars_of(s);
    let mut i: usize = 0;
    if x.len() > 0 && x[0] == '+' {
        i = 1;
    }
    let ghost d = x@.skip(i as int);
    proof {
        if x@.len() > 0 && x@[0] == '+' {
            assert(d =~= x@.drop_first());
        } else {
            assert(d =~= x@);
        }
    }
    if i >= x.len() {
        return None;
    }
    let start = i;
    let mut value: usize = 0;
    while i < x.len()
        invariant
            start <= i <= x@.len(),
            start < x@.len(),
            d == x@.skip(start as int),
            d == (if s@.len() > 0 && s@[0] == '+' { s@.drop_first() } else { s@ }),
            x@ == s@,
            all_digits(x@.subrange(start as int, i as int)),
            value as nat == digits_value(x@.subrange(start as int, i as int)),
        decreases x.len() - i,
    {
        let c = x[i];
        let ghost prefix = x@.subrange(start as int, i as int);
        assert(x@.subrange(start as int, i + 1) =~= prefix.push(c));
        assert(d.take(i - start) =~= prefix);
        if !('0' <= c && c <= '9') {
            assert(!is_digit(d[i - start]));
            return None;
        }
        let dv = (c as u32 - '0' as u32) as usize;
        proof {
            lemma_digits_value_grows(prefix, c);
        }
        match value.checked_mul(10) {
            Some(m) => match m.checked_add(dv) {
                Some(v) => {
                    value = v;
                },
                None => {
                    proof {
                        lemma_overflow_is_rejected(d, (i - start) as int + 1);
                    }
                    return None;
                },
            },
            None => {
                proof {
                    lemma_overflow_is_rejected(d, (i - start) as int + 1);
                }
                return None;
            },
        }
        i = i + 1;
        assert(all_digits(x@.subrange(start as int, i as int)));
    }
    assert(x@.subrange(start as int, i as int) =~= d);
    Some(value)
}

/// A digit string whose prefix of length `i` already exceeds `usize::MAX`
/// is rejected.
proof fn lemma_overflow_is_rejected(d: Seq<char>, i: int)
    requires
        0 < i <= d.len(),
        all_digits(d.take(i - 1)),
        is_digit(d[i - 1]),
        digits_value(d.take(i - 1)) * 10 + digit_value(d[i - 1]) > usize::MAX,
    ensures
        !(all_digits(d) && digits_value(d) <= usize::MAX),
{
    if all_digits(d) {
        assert(d.take(i) =~= d.take(i - 1).push(d[i - 1]));
        lemma_digits_value_grows(d.take(i - 1), d[i - 1]);
        lemma_digits_value_prefix(d, i);
    }
}

// ── Splitting ───────────────────────────────────────────────────────

/// The pieces of `s` between occurrences of `c`, as `str::split(c)` yields
/// them: there is always at least one piece, and pieces may be empty.
pub open spec fn split_char(s: Seq<char>, c: char) -> Seq<Seq<char>>
    decreases s.len(),
{
    if s.len() == 0 {
        seq![Seq::empty()]
    } else {
        let p = split_char(s.drop_last(), c);
        if s.last() == c {
            p.push(Seq::empty())
        } else {
            p.update(p.len() - 1, p.last().push(s.last()))
        }
    }
}

proof fn lemma_split_char_nonempty(s: Seq<char>, c: char)
    ensures
        split_char(s, c).len() > 0,
    decreases s.len(),
{
    if s.len() > 0 {
        lemma_split_char_nonempty(s.drop_last(), c);
    }
}

/// The pieces of `s` between occurrences of `c`.
pub fn split_on(s: &str, c: char) -> (r: Vec<String>)
    ensures
        views_of(r@) == split_char(s@, c),
{
    let x = chars_of(s);
    let mut done: Vec<String> = Vec::new();
    let mut current = String::new();
    let mut i: usize = 0;
    proof {
        assert(x@.take(0) =~= Seq::<char>::empty());
        assert(views_of(done@).push(current@) =~= seq![Seq::<char>::empty()]);
    }
    while i < x.len()
        invariant
            i <= x@.len(),
            x@ == s@,
            views_of(done@).push(current@) == split_char(x@.take(i as int), c),
        decreases x.len() - i,
    {
        let ghost prev = x@.take(i as int);
        assert(x@.take(i + 1).drop_last() =~= prev);
        assert(x@.take(i + 1).last() == x@[i as int]);
        let ghost d0 = done@;
        if x[i] == c {
            let mut taken = String::new();
            std::mem::swap(&mut taken, &mut current);
            done.push(taken);
            assert(views_of(done@) =~= views_of(d0).push(taken@));
        } else {
            push_char(&mut current, x[i]);
        }
        i = i + 1;
        proof {
            lemma_split_char_nonempty(prev, c);
            assert(views_of(done@).push(current@) =~= split_char(x@.take(i as int), c));
        }
    }
    assert(x@.take(x@.len() as int) =~= x@);
    let ghost d0 = done@;
    done.push(current);
    assert(views_of(done@) =~= views_of(d0).push(current@));
    done
}

/// Joining the pieces of a split with the separator gives back the text.
pub proof fn law_split_then_join_is_identity(s: Seq<char>, c: char)
    ensures
        join_with(split_char(s, c), seq![c]) == s,
    decreases s.len(),
{
    if s.len() > 0 {
        law_split_then_join_is_identity(s.drop_last(), c);
        lemma_split_char_nonempty(s.drop_last(), c);
        let p = split_char(s.drop_last(), c);
        if s.last() == c {
            assert(p.push(Seq::empty()).drop_last() =~= p);
            assert(join_with(p.push(Seq::empty()), seq![c]) =~= s);
        } else {
            let q = p.update(p.len() - 1, p.last().push(s.last()));
            assert(q.drop_last() =~= p.drop_last());
            if p.len() == 1 {
                assert(join_with(p, seq![c]) == p[0]);
                assert(join_with(q, seq![c]) =~= s);
            } else {
                assert(join_with(p, seq![c]) == join_with(p.drop_last(), seq![c]) + seq![c] + p.last());
                assert(q.last() == p.last().push(s.last()));
                assert(join_with(q, seq![c]) == join_with(q.drop_last(), seq![c]) + seq![c] + q.last());
                assert(s =~= s.drop_last().push(s.last()));
                assert(join_with(q, seq![c]) =~= s);
            }
        }
    } else {
        assert(join_with(seq![Seq::<char>::empty()], seq![c]) =~= s);
    }
}

/// The text before the first `c` and the text after it, as
/// `str::split_once(c)` gives them, when `c` occurs in `s`.
pub open spec fn split_once_spec(s: Seq<char>, c: char) -> (Seq<char>, Seq<char>) {
    let k = find_from(s, 0, c);
    (s.take(k), s.skip(k + 1))
}

/// Splits `s` at the first `c`.
pub fn split_once(s: &str, c: char) -> (r: Option<(String, String)>)
    ensures
        match r {
            Some((a, b)) => s@.contains(c) && split_once_spec(s@, c) == (a@, b@),
            None => !s@.contains(c),
        },
{
    let x = chars_of(s);
    let mut i: usize = 0;
    let mut before = String::new();
    proof {
        lemma_find_from_bounds(x@, 0, c);
    }
    while i < x.len() && x[i] != c
        invariant
            i <= x@.len(),
            x@ == s@,
            find_from(x@, i as int, c) == find_from(x@, 0, c),
            before@ == x@.take(i as int),
            forall|k: int| 0 <= k < i ==> x@[k] != c,
        decreases x.len() - i,
    {
        push_char(&mut before, x[i]);
        i = i + 1;
        assert(before@ =~= x@.take(i as int));
    }
    if i == x.len() {
        assert forall|k: int| 0 <= k < s@.len() implies s@[k] != c by {}
        return None;
    }
    assert(s@[i as int] == c);
    let mut after = String::new();
    let mut j: usize = i + 1;
    while j < x.len()
        invariant
            i < j <= x@.len(),
            x@ == s@,
            after@ == x@.subrange(i + 1, j as int),
        decreases x.len() - j,
    {
        push_char(&mut after, x[j]);
        j = j + 1;
        assert(after@ =~= x@.subrange(i + 1, j as int));
    }
    assert(after@ =~= x@.skip(i + 1));
    Some((before, after))
}

// ── Lines ───────────────────────────────────────────────────────────

/// `s` without one trailing carriage return.
pub open spec fn strip_cr(s: Seq<char>) -> Seq<char> {
    if s.len() > 0 && s.last() == '\r' {
        s.drop_last()
    } else {
        s
    }
}

/// `lines` with `line` added unless it is empty.
pub open spec fn push_nonempty(lines: Seq<Seq<char>>, line: Seq<char>) -> Seq<Seq<char>> {
    if line.len() > 0 {
        lines.push(line)
    } else {
        lines
    }
}

/// The non-empty lines of `s[i..]`, given the lines already found and the
/// text of the line under way: lines end at `\n`, a `\r` just before the
/// `\n` is not part of the line, and a `\r` at the very end is kept.
pub open spec fn lines_from(s: Seq<char>, i: int, found: Seq<Seq<char>>, current: Seq<char>) -> Seq<
    Seq<char>,
>
    decreases s.len() - i,
{
    if 0 <= i < s.len() {
        if s[i] == '\n' {
            lines_from(s, i + 1, push_nonempty(found, strip_cr(current)), Seq::empty())
        } else {
            lines_from(s, i + 1, found, current.push(s[i]))
        }
    } else {
        push_nonempty(found, current)
    }
}

/// The non-empty lines of `s`, as `s.lines().filter(|l| !l.is_empty())` gives them.
pub open spec fn nonempty_lines(s: Seq<char>) -> Seq<Seq<char>> {
    lines_from(s, 0, Seq::empty(), Seq::empty())
}

/// A copy of `s` without one trailing carriage return.
fn without_trailing_cr(s: String) -> (r: String)
    ensures
        r@ == strip_cr(s@),
{
    let x = chars_of(s.as_str());
    if x.len() > 0 && x[x.len() - 1] == '\r' {
        let mut r = String::new();
        let mut i: usize = 0;
        while i + 1 < x.len()
            invariant
                i + 1 <= x@.len(),
                r@ == x@.take(i as int),
            decreases x.len() - i,
        {
            push_char(&mut r, x[i]);
            i = i + 1;
            assert(r@ =~= x@.take(i as int));
        }
        assert(r@ =~= s@.drop_last());
        r
    } else {
        s
    }
}

/// The non-empty lines of `s`.
pub fn nonempty_lines_of(s: &str) -> (r: Vec<String>)
    ensures
        views_of(r@) == nonempty_lines(s@),
{
    let x = chars_of(s);
    let mut found: Vec<String> = Vec::new();
    let mut current = String::new();
    let mut i: usize = 0;
    assert(views_of(found@) =~= Seq::<Seq<char>>::empty());
    while i < x.len()
        invariant
            i <= x@.len(),
            x@ == s@,
            lines_from(x@, i as int, views_of(found@), current@) == nonempty_lines(s@),
        decreases x.len() - i,
    {
        let ghost f0 = found@;
        if x[i] == '\n' {
            let mut taken = String::new();
            std::mem::swap(&mut taken, &mut current);
            let line = without_trailing_cr(taken);
            if !line.as_str().is_empty() {
                found.push(line);
                assert(views_of(found@) =~= views_of(f0).push(line@));
            }
        } else {
            push_char(&mut current, x[i]);
        }
        i = i + 1;
    }
    let ghost f0 = found@;
    if !current.as_str().is_empty() {
        found.push(current);
        assert(views_of(found@) =~= views_of(f0).push(current@));
    }
    found
}

} // verus!
