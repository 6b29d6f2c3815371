//! Character classes and low-level text operations: trimming, searching,
//! splitting into whitespace-separated tokens and into lines.
//!
//! Every executable function mirrors a spec function over `Seq<char>` exactly,
//! so the higher layers can state their contracts purely over the spec model.

use vstd::prelude::*;

verus! {

/// Inline whitespace: blanks inside a line (the line separator `'\n'` is not
/// inline whitespace).
pub open spec fn is_ws(c: char) -> bool {
    c == ' ' || c == '\t' || c == '\r'
}

/// The mandatory leading indent marker of a command line.
pub open spec fn cmd_marker() -> char {
    '\t'
}

/// Characters allowed in a variable name: letters, digits, underscore.
pub open spec fn is_ident_char(c: char) -> bool {
    ('a' <= c && c <= 'z') || ('A' <= c && c <= 'Z') || ('0' <= c && c <= '9') || c == '_'
}

/// Characters allowed in a rule target or dependency: identifier characters
/// plus the punctuation common in file names.  Structural punctuation such as
/// parentheses is rejected.
pub open spec fn is_name_char(c: char) -> bool {
    is_ident_char(c) || c == '.' || c == '-' || c == '/' || c == '+'
}

/// Characters allowed in an assigned variable value: everything except the
/// comment marker and structural punctuation.
pub open spec fn is_value_char(c: char) -> bool {
    !(c == '#' || c == ':' || c == '(' || c == ')' || c == '&' || c == '*' || c == '$'
        || c == '=' || c == '\n')
}

/// Index of the first occurrence of `c` in `s` at or after `i`, if any.
pub open spec fn find_from(s: Seq<char>, i: int, c: char) -> Option<int>
    decreases s.len() - i,
{
    if i < 0 || i >= s.len() {
        None
    } else if s[i] == c {
        Some(i)
    } else {
        find_from(s, i + 1, c)
    }
}

pub proof fn lemma_find_from(s: Seq<char>, i: int, c: char)
    requires
        0 <= i <= s.len(),
    ensures
        match find_from(s, i, c) {
            Some(k) => i <= k < s.len() && s[k] == c && (forall|j: int| i <= j < k ==> s[j] != c),
            None => forall|j: int| i <= j < s.len() ==> s[j] != c,
        },
    decreases s.len() - i,
{
    if i < s.len() && s[i] != c {
        lemma_find_from(s, i + 1, c);
    }
}

/// Length of the run of inline whitespace starting at `i`.
pub open spec fn skip_ws_len(s: Seq<char>, i: int) -> nat
    decreases s.len() - i,
{
    if i < 0 || i >= s.len() || !is_ws(s[i]) {
        0
    } else {
        1 + skip_ws_len(s, i + 1)
    }
}

pub proof fn lemma_skip_ws_len(s: Seq<char>, i: int)
    requires
        0 <= i <= s.len(),
    ensures
        i + skip_ws_len(s, i) <= s.len(),
        forall|j: int| i <= j < i + skip_ws_len(s, i) ==> is_ws(s[j]),
        i + skip_ws_len(s, i) < s.len() ==> !is_ws(s[i + skip_ws_len(s, i)]),
    decreases s.len() - i,
{
    if i < s.len() && is_ws(s[i]) {
        lemma_skip_ws_len(s, i + 1);
    }
}

/// Length of the run of non-whitespace characters starting at `i`.
pub open spec fn run_len(s: Seq<char>, i: int) -> nat
    decreases s.len() - i,
{
    if i < 0 || i >= s.len() || is_ws(s[i]) {
        0
    } else {
        1 + run_len(s, i + 1)
    }
}

pub proof fn lemma_run_len(s: Seq<char>, i: int)
    requires
        0 <= i <= s.len(),
    ensures
        i + run_len(s, i) <= s.len(),
        forall|j: int| i <= j < i + run_len(s, i) ==> !is_ws(s[j]),
        i + run_len(s, i) < s.len() ==> is_ws(s[i + run_len(s, i)]),
    decreases s.len() - i,
{
    if i < s.len() && !is_ws(s[i]) {
        lemma_run_len(s, i + 1);
    }
}

/// End position of `s` once trailing inline whitespace before `j` is dropped.
pub open spec fn trim_end_idx(s: Seq<char>, j: int) -> int
    decreases j,
{
    if j <= 0 {
        0
    } else if j - 1 < s.len() && is_ws(s[j - 1]) {
        trim_end_idx(s, j - 1)
    } else {
        j
    }
}

pub proof fn lemma_trim_end_idx(s: Seq<char>, j: int)
    requires
        0 <= j <= s.len(),
    ensures
        0 <= trim_end_idx(s, j) <= j,
        forall|k: int| trim_end_idx(s, j) <= k < j ==> is_ws(s[k]),
        trim_end_idx(s, j) > 0 ==> !is_ws(s[trim_end_idx(s, j) - 1]),
    decreases j,
{
    if j > 0 && is_ws(s[j - 1]) {
        lemma_trim_end_idx(s, j - 1);
    }
}

/// `s` with leading and trailing inline whitespace removed.
pub open spec fn spec_trim(s: Seq<char>) -> Seq<char> {
    let a = skip_ws_len(s, 0) as int;
    let b = trim_end_idx(s, s.len() as int);
    if a < b {
        s.subrange(a, b)
    } else {
        Seq::empty()
    }
}

pub proof fn lemma_trim(s: Seq<char>)
    ensures
        spec_trim(s).len() <= s.len(),
        spec_trim(s).len() == 0 <==> (forall|j: int| 0 <= j < s.len() ==> is_ws(s[j])),
        spec_trim(s).len() > 0 ==> !is_ws(spec_trim(s)[0]),
        forall|j: int|
            0 <= j < spec_trim(s).len() ==> spec_trim(s)[j] == s[skip_ws_len(s, 0) + j],
{
    lemma_skip_ws_len(s, 0);
    lemma_trim_end_idx(s, s.len() as int);
    let a = skip_ws_len(s, 0) as int;
    let b = trim_end_idx(s, s.len() as int);
    if a < b {
        assert(!is_ws(s[a]));
    } else {
        assert forall|j: int| 0 <= j < s.len() implies is_ws(s[j]) by {
            if j < a {
            } else {
                assert(b <= j < s.len());
            }
        }
    }
}

/// If `s[i]` is not whitespace, that character survives trimming.
pub proof fn lemma_trim_keeps(s: Seq<char>, i: int)
    requires
        0 <= i < s.len(),
        !is_ws(s[i]),
    ensures
        skip_ws_len(s, 0) <= i,
        i < trim_end_idx(s, s.len() as int),
        spec_trim(s)[i - skip_ws_len(s, 0)] == s[i],
        spec_trim(s).len() > 0,
{
    lemma_skip_ws_len(s, 0);
    lemma_trim_end_idx(s, s.len() as int);
    let a = skip_ws_len(s, 0) as int;
    let b = trim_end_idx(s, s.len() as int);
    assert(a <= i);
    assert(i < b);
}

/// The whitespace-separated tokens of `s`, scanning from position `i`.
pub open spec fn tokens_from(s: Seq<char>, i: int) -> Seq<Seq<char>>
    decreases s.len() - i,
    via tokens_from_decreases
{
    if i < 0 || i >= s.len() {
        Seq::empty()
    } else if is_ws(s[i]) {
        tokens_from(s, i + 1)
    } else {
        seq![s.subrange(i, i + run_len(s, i))] + tokens_from(s, i + run_len(s, i))
    }
}

#[via_fn]
proof fn tokens_from_decreases(s: Seq<char>, i: int) {
    if 0 <= i < s.len() && !is_ws(s[i]) {
        lemma_run_len(s, i);
        assert(run_len(s, i) == 1 + run_len(s, i + 1));
    }
}

/// Every token is a nonempty run of non-whitespace characters.
pub proof fn lemma_tokens_wf(s: Seq<char>, i: int)
    requires
        0 <= i <= s.len(),
    ensures
        forall|t: int|
            0 <= t < tokens_from(s, i).len() ==> (#[trigger] tokens_from(s, i)[t]).len() > 0,
        forall|t: int, j: int|
            0 <= t < tokens_from(s, i).len() && 0 <= j < tokens_from(s, i)[t].len() ==> !is_ws(
                #[trigger] tokens_from(s, i)[t][j],
            ),
    decreases s.len() - i,
{
    if i >= s.len() {
        assert(tokens_from(s, i).len() == 0);
    } else {
        if is_ws(s[i]) {
            lemma_tokens_wf(s, i + 1);
            assert(tokens_from(s, i) == tokens_from(s, i + 1));
        } else {
            lemma_run_len(s, i);
            let b = i + run_len(s, i);
            lemma_tokens_wf(s, b as int);
            let first = s.subrange(i, b as int);
            assert(first.len() > 0);
            assert forall|t: int| 0 <= t < tokens_from(s, i).len() implies (#[trigger] tokens_from(
                s,
                i,
            )[t]).len() > 0 by {
                if t == 0 {
                    assert(tokens_from(s, i)[0] == first);
                } else {
                    assert(tokens_from(s, i)[t] == tokens_from(s, b as int)[t - 1]);
                }
            }
            assert forall|t: int, j: int|
                0 <= t < tokens_from(s, i).len() && 0 <= j < tokens_from(s, i)[t].len() implies
                !is_ws(#[trigger] tokens_from(s, i)[t][j]) by {
                if t == 0 {
                    assert(tokens_from(s, i)[0] == first);
                    assert(first[j] == s[i + j]);
                } else {
                    assert(tokens_from(s, i)[t] == tokens_from(s, b as int)[t - 1]);
                }
            }
        }
    }
}

/// The lines of `s`, split on `'\n'`, scanning from position `i`.  A trailing
/// newline yields a final empty line, which the grammar ignores.
pub open spec fn lines_from(s: Seq<char>, i: int) -> Seq<Seq<char>>
    decreases s.len() - i,
{
    if i < 0 || i > s.len() {
        Seq::empty()
    } else {
        match find_from(s, i, '\n') {
            None => seq![s.subrange(i, s.len() as int)],
            Some(k) => if i <= k < s.len() {
                seq![s.subrange(i, k)] + lines_from(s, k + 1)
            } else {
                seq![s.subrange(i, s.len() as int)]
            },
        }
    }
}

/// No line contains a newline character.
pub proof fn lemma_lines_wf(s: Seq<char>, i: int)
    requires
        0 <= i <= s.len(),
    ensures
        forall|t: int|
            0 <= t < lines_from(s, i).len() ==> (forall|j: int|
                0 <= j < (#[trigger] lines_from(s, i)[t]).len() ==> lines_from(s, i)[t][j] != '\n'),
    decreases s.len() - i,
{
    lemma_find_from(s, i, '\n');
    match find_from(s, i, '\n') {
        None => {},
        Some(k) => {
            lemma_lines_wf(s, k + 1);
            assert forall|t: int| 0 <= t < lines_from(s, i).len() implies (forall|j: int|
                0 <= j < (#[trigger] lines_from(s, i)[t]).len() ==> lines_from(s, i)[t][j]
                    != '\n') by {
                if t > 0 {
                    assert(lines_from(s, i)[t] == lines_from(s, k + 1)[t - 1]);
                }
            }
        },
    }
}

/// `skip_ws_len` is pinned down by exhibiting the whitespace run.
pub proof fn lemma_skip_ws_len_exact(s: Seq<char>, i: int, e: int)
    requires
        0 <= i <= e <= s.len(),
        forall|j: int| i <= j < e ==> is_ws(s[j]),
        e < s.len() ==> !is_ws(s[e]),
    ensures
        i + skip_ws_len(s, i) == e,
    decreases e - i,
{
    if i < e {
        lemma_skip_ws_len_exact(s, i + 1, e);
    }
}

/// `run_len` is pinned down by exhibiting the non-whitespace run.
pub proof fn lemma_run_len_exact(s: Seq<char>, i: int, e: int)
    requires
        0 <= i <= e <= s.len(),
        forall|j: int| i <= j < e ==> !is_ws(s[j]),
        e < s.len() ==> is_ws(s[e]),
    ensures
        i + run_len(s, i) == e,
    decreases e - i,
{
    if i < e {
        lemma_run_len_exact(s, i + 1, e);
    }
}

/// A run scanned inside a concatenation, past the prefix, is a run of the
/// suffix.
pub proof fn lemma_run_len_concat_shift(p: Seq<char>, s: Seq<char>, i: int)
    requires
        0 <= i <= s.len(),
    ensures
        run_len(p + s, p.len() + i) == run_len(s, i),
    decreases s.len() - i,
{
    if i < s.len() {
        assert((p + s)[p.len() + i] == s[i]);
        if !is_ws(s[i]) {
            lemma_run_len_concat_shift(p, s, i + 1);
        }
    }
}

/// Tokens scanned inside a concatenation, past the prefix, are the tokens of
/// the suffix.
pub proof fn lemma_tokens_concat_shift(p: Seq<char>, s: Seq<char>, i: int)
    requires
        0 <= i <= s.len(),
    ensures
        tokens_from(p + s, p.len() + i) == tokens_from(s, i),
    decreases s.len() - i,
{
    if i < s.len() {
        assert((p + s)[p.len() + i] == s[i]);
        if is_ws(s[i]) {
            lemma_tokens_concat_shift(p, s, i + 1);
        } else {
            lemma_run_len_concat_shift(p, s, i);
            let r = run_len(s, i) as int;
            lemma_run_len(s, i);
            assert(run_len(s, i) >= 1);
            assert((p + s).subrange(p.len() + i, p.len() + i + r) =~= s.subrange(i, i + r));
            lemma_tokens_concat_shift(p, s, i + r);
            assert(tokens_from(p + s, p.len() + i) == seq![s.subrange(i, i + r)] + tokens_from(
                s,
                i + r,
            ));
        }
    }
}

/// After position `i` everything is whitespace, so no tokens remain.
pub proof fn lemma_tokens_all_ws(s: Seq<char>, i: int)
    requires
        0 <= i <= s.len(),
        forall|j: int| i <= j < s.len() ==> is_ws(s[j]),
    ensures
        tokens_from(s, i) == Seq::<Seq<char>>::empty(),
    decreases s.len() - i,
{
    if i < s.len() {
        lemma_tokens_all_ws(s, i + 1);
    }
}

/// A run is unaffected by dropping a whitespace-only tail.
pub proof fn lemma_run_len_ws_tail(x: Seq<char>, b: int, i: int)
    requires
        0 <= i <= b <= x.len(),
        forall|j: int| b <= j < x.len() ==> is_ws(x[j]),
    ensures
        run_len(x, i) == run_len(x.subrange(0, b), i),
    decreases b - i,
{
    let sub = x.subrange(0, b);
    if i < b {
        assert(sub[i] == x[i]);
        if !is_ws(x[i]) {
            lemma_run_len_ws_tail(x, b, i + 1);
        }
    }
}

/// Tokens are unaffected by dropping a whitespace-only tail.
pub proof fn lemma_tokens_ws_tail(x: Seq<char>, b: int, i: int)
    requires
        0 <= i <= b <= x.len(),
        forall|j: int| b <= j < x.len() ==> is_ws(x[j]),
    ensures
        tokens_from(x, i) == tokens_from(x.subrange(0, b), i),
    decreases x.len() - i,
{
    let sub = x.subrange(0, b);
    if i >= b {
        lemma_tokens_all_ws(x, i);
        assert(tokens_from(sub, i) == Seq::<Seq<char>>::empty());
    } else {
        assert(sub[i] == x[i]);
        if is_ws(x[i]) {
            lemma_tokens_ws_tail(x, b, i + 1);
        } else {
            lemma_run_len_ws_tail(x, b, i);
            let r = run_len(x, i) as int;
            assert(run_len(x, i) >= 1);
            lemma_run_len(sub, i);
            assert(i + r <= b);
            assert(x.subrange(i, i + r) =~= sub.subrange(i, i + r));
            lemma_tokens_ws_tail(x, b, i + r);
            assert(tokens_from(x, i) == seq![x.subrange(i, i + r)] + tokens_from(x, i + r));
            assert(tokens_from(sub, i) == seq![sub.subrange(i, i + r)] + tokens_from(sub, i + r));
        }
    }
}

// ---------------------------------------------------------------------------
// Executable counterparts
// ---------------------------------------------------------------------------

/// Whether `c` is inline whitespace.
pub fn ws_char(c: char) -> (b: bool)
    ensures
        b == is_ws(c),
{
    c == ' ' || c == '\t' || c == '\r'
}

/// Whether `c` may appear in a variable name.
pub fn ident_char(c: char) -> (b: bool)
    ensures
        b == is_ident_char(c),
{
    ('a' <= c && c <= 'z') || ('A' <= c && c <= 'Z') || ('0' <= c && c <= '9') || c == '_'
}

/// Whether `c` may appear in a rule target or dependency.
pub fn name_char(c: char) -> (b: bool)
    ensures
        b == is_name_char(c),
{
    ident_char(c) || c == '.' || c == '-' || c == '/' || c == '+'
}

/// Whether `c` may appear in an assigned variable value.
pub fn value_char(c: char) -> (b: bool)
    ensures
        b == is_value_char(c),
{
    !(c == '#' || c == ':' || c == '(' || c == ')' || c == '&' || c == '*' || c == '$'
        || c == '=' || c == '\n')
}

/// Whether two string slices hold the same characters.
pub fn str_eq(a: &str, b: &str) -> (r: bool)
    ensures
        r == (a@ == b@),
{
    let na = a.unicode_len();
    let nb = b.unicode_len();
    if na != nb {
        return false;
    }
    let mut i: usize = 0;
    while i < na
        invariant
            i <= na,
            na == a@.len(),
            na == b@.len(),
            forall|j: int| 0 <= j < i ==> a@[j] == b@[j],
        decreases na - i,
    {
        if a.get_char(i) != b.get_char(i) {
            return false;
        }
        i += 1;
    }
    proof {
        assert(a@ =~= b@);
    }
    true
}

/// First occurrence of `c` in `s` at or after `from`.
pub fn find_char(s: &str, from: usize, c: char) -> (r: Option<usize>)
    requires
        from <= s@.len(),
    ensures
        match r {
            Some(k) => find_from(s@, from as int, c) == Some(k as int),
            None => find_from(s@, from as int, c) is None,
        },
{
    let n = s.unicode_len();
    let mut i = from;
    while i < n
        invariant
            from <= i <= n,
            n == s@.len(),
            find_from(s@, from as int, c) == find_from(s@, i as int, c),
        decreases n - i,
    {
        if s.get_char(i) == c {
            return Some(i);
        }
        i += 1;
    }
    None
}

/// Position after the inline whitespace run starting at `from`.
pub fn skip_ws(s: &str, from: usize) -> (r: usize)
    requires
        from <= s@.len(),
    ensures
        r as int == from + skip_ws_len(s@, from as int),
        from <= r <= s@.len(),
{
    let n = s.unicode_len();
    let mut i = from;
    while i < n && ws_char(s.get_char(i))
        invariant
            from <= i <= n,
            n == s@.len(),
            from + skip_ws_len(s@, from as int) == i + skip_ws_len(s@, i as int),
        decreases n - i,
    {
        i += 1;
    }
    i
}

/// End of the non-whitespace run starting at `from`.
pub fn run_end(s: &str, from: usize) -> (r: usize)
    requires
        from <= s@.len(),
    ensures
        r as int == from + run_len(s@, from as int),
        from <= r <= s@.len(),
{
    let n = s.unicode_len();
    let mut i = from;
    while i < n && !ws_char(s.get_char(i))
        invariant
            from <= i <= n,
            n == s@.len(),
            from + run_len(s@, from as int) == i + run_len(s@, i as int),
        decreases n - i,
    {
        i += 1;
    }
    i
}

/// End position of `s` once trailing inline whitespace is dropped.
pub fn trim_end(s: &str, j: usize) -> (r: usize)
    requires
        j <= s@.len(),
    ensures
        r as int == trim_end_idx(s@, j as int),
        r <= j,
{
    let mut i = j;
    while i > 0 && ws_char(s.get_char(i - 1))
        invariant
            i <= j <= s@.len(),
            trim_end_idx(s@, j as int) == trim_end_idx(s@, i as int),
        decreases i,
    {
        i -= 1;
    }
    i
}

/// A copy of `s` with leading and trailing inline whitespace removed.
pub fn trim_str(s: &str) -> (r: String)
    ensures
        r@ == spec_trim(s@),
{
    let a = skip_ws(s, 0);
    let n = s.unicode_len();
    let b = trim_end(s, n);
    if a < b {
        s.substring_char(a, b).to_owned()
    } else {
        let r = String::new();
        assert(r@ =~= spec_trim(s@));
        r
    }
}

/// The whitespace-separated tokens of `s`, scanning from `from`.
pub fn split_tokens(s: &str, from: usize) -> (r: Vec<String>)
    requires
        from <= s@.len(),
    ensures
        r.deep_view() == tokens_from(s@, from as int),
{
    let n = s.unicode_len();
    let mut acc: Vec<String> = Vec::new();
    let mut i = from;
    while i < n
        invariant
            from <= i <= n,
            n == s@.len(),
            acc.deep_view() + tokens_from(s@, i as int) == tokens_from(s@, from as int),
        decreases n - i,
    {
        if ws_char(s.get_char(i)) {
            i += 1;
        } else {
            let ghost prev = acc.deep_view();
            let b = run_end(s, i);
            let tok = s.substring_char(i, b).to_owned();
            acc.push(tok);
            assert(acc.deep_view() =~= prev.push(s@.subrange(i as int, b as int)));
            assert(acc.deep_view() + tokens_from(s@, b as int) =~= tokens_from(s@, from as int));
            i = b;
        }
    }
    assert(acc.deep_view() =~= tokens_from(s@, from as int));
    acc
}

/// The lines of `s`, split on `'\n'`.
pub fn split_lines(s: &str) -> (r: Vec<String>)
    ensures
        r.deep_view() == lines_from(s@, 0),
{
    let n = s.unicode_len();
    let mut acc: Vec<String> = Vec::new();
    let mut i: usize = 0;
    loop
        invariant
            i <= n,
            n == s@.len(),
            acc.deep_view() + lines_from(s@, i as int) == lines_from(s@, 0),
        decreases n - i,
    {
        let ghost prev = acc.deep_view();
        match find_char(s, i, '\n') {
            Some(k) => {
                proof {
                    lemma_find_from(s@, i as int, '\n');
                }
                let line = s.substring_char(i, k).to_owned();
                acc.push(line);
                assert(acc.deep_view() =~= prev.push(s@.subrange(i as int, k as int)));
                assert(acc.deep_view() + lines_from(s@, k + 1) =~= lines_from(s@, 0));
                i = k + 1;
            },
            None => {
                let line = s.substring_char(i, n).to_owned();
                acc.push(line);
                assert(acc.deep_view() =~= prev.push(
                    s@.subrange(i as int, s@.len() as int),
                ));
                assert(acc.deep_view() =~= lines_from(s@, 0));
                return acc;
            },
        }
    }
}

} // verus!
