//! The placeholder grammar: a quoted key, an optional space, `|`, an optional
//! space and the word `translate`, as in `{{ 'greeting.title' | translate }}`.
use vstd::prelude::*;

verus! {

pub open spec fn is_quote(c: char) -> bool {
    c == '\'' || c == '"'
}

pub open spec fn translate_word() -> Seq<char> {
    seq!['t', 'r', 'a', 'n', 's', 'l', 'a', 't', 'e']
}

/// The first `|` of `t` at or after `i`.
pub open spec fn pipe_from(t: Seq<char>, i: int) -> Option<int>
    decreases t.len() - i,
{
    if i < 0 || i >= t.len() {
        None
    } else if t[i] == '|' {
        Some(i)
    } else {
        pipe_from(t, i + 1)
    }
}

/// Where the word `translate` ends when it follows the pipe at `b`, with or
/// without one space between them.
pub open spec fn word_end(t: Seq<char>, b: int) -> Option<int> {
    if b + 11 <= t.len() && t[b + 1] == ' ' && t.subrange(b + 2, b + 11) == translate_word() {
        Some(b + 11)
    } else if b + 10 <= t.len() && t.subrange(b + 1, b + 10) == translate_word() {
        Some(b + 10)
    } else {
        None
    }
}

/// The closing quote of a key opened at `s` and followed by the pipe at `b`.
/// A key is one or more characters other than `|`, and it runs as far as it
/// can: the closing quote is the one just before the pipe, or else the one
/// just before a single space before the pipe.
pub open spec fn closing_quote(t: Seq<char>, s: int, b: int) -> Option<int> {
    if b - 1 >= s + 2 && is_quote(t[b - 1]) {
        Some(b - 1)
    } else if b - 2 >= s + 2 && t[b - 1] == ' ' && is_quote(t[b - 2]) {
        Some(b - 2)
    } else {
        None
    }
}

/// The bare placeholder that opens with a quote at `s`, if any, as
/// `(e, end)`: its key is `t[s + 1 .. e]` and it covers `t[s .. end]`. A key
/// holds no `|`, so the pipe of a placeholder is the first one after its
/// opening quote.
pub open spec fn bare_at(t: Seq<char>, s: int) -> Option<(int, int)> {
    if 0 <= s < t.len() && is_quote(t[s]) {
        match pipe_from(t, s + 1) {
            Some(b) => match (closing_quote(t, s, b), word_end(t, b)) {
                (Some(e), Some(end)) => Some((e, end)),
                _ => None,
            },
            None => None,
        }
    } else {
        None
    }
}

/// The first position at or after `i` that does not hold a space.
pub open spec fn skip_spaces(t: Seq<char>, i: int) -> int
    decreases t.len() - i,
{
    if 0 <= i < t.len() && t[i] == ' ' {
        skip_spaces(t, i + 1)
    } else {
        i
    }
}

/// A bare placeholder wrapped as an interpolation, `{{ 'key' | translate }}`,
/// with any number of spaces inside the braces, opening at `s`, as
/// `(k, e, end)`: its key is `t[k .. e]` and it covers `t[s .. end]`.
pub open spec fn wrapped_at(t: Seq<char>, s: int) -> Option<(int, int, int)> {
    if 0 <= s && s + 1 < t.len() && t[s] == '{' && t[s + 1] == '{' {
        let q = skip_spaces(t, s + 2);
        match bare_at(t, q) {
            Some((e, inner_end)) => {
                let c = skip_spaces(t, inner_end);
                if 0 <= c && c + 1 < t.len() && t[c] == '}' && t[c + 1] == '}' {
                    Some((q + 1, e, c + 2))
                } else {
                    None
                }
            },
            None => None,
        }
    } else {
        None
    }
}

/// The placeholder that opens at `s`, if any, as `(k, e, end)`: its key is
/// `t[k .. e]` and it covers `t[s .. end]`. Where a bare placeholder stands in
/// braces, the braces belong to it.
pub open spec fn occurrence_at(t: Seq<char>, s: int) -> Option<(int, int, int)> {
    match wrapped_at(t, s) {
        Some(w) => Some(w),
        None => match bare_at(t, s) {
            Some((e, end)) => Some((s + 1, e, end)),
            None => None,
        },
    }
}

/// The leftmost placeholder that opens at or after `p`, as `(s, k, e, end)`.
pub open spec fn next_occurrence(t: Seq<char>, p: int) -> Option<(int, int, int, int)>
    decreases t.len() - p,
{
    if p < 0 || p >= t.len() {
        None
    } else {
        match occurrence_at(t, p) {
            Some((k, e, end)) => Some((p, k, e, end)),
            None => next_occurrence(t, p + 1),
        }
    }
}

/// Whether `t` holds at least one placeholder.
pub open spec fn has_placeholder(t: Seq<char>) -> bool {
    next_occurrence(t, 0) is Some
}

pub proof fn lemma_pipe_from_bounds(t: Seq<char>, i: int)
    requires
        0 <= i,
    ensures
        pipe_from(t, i) matches Some(b) ==> i <= b < t.len() && t[b] == '|',
    decreases t.len() - i,
{
    if 0 <= i < t.len() && t[i] != '|' {
        lemma_pipe_from_bounds(t, i + 1);
    }
}

pub proof fn lemma_pipe_from_is(t: Seq<char>, i: int, b: int)
    requires
        0 <= i <= b <= t.len(),
        forall|j: int| i <= j < b ==> t[j] != '|',
        b < t.len() ==> t[b] == '|',
    ensures
        pipe_from(t, i) == (if b < t.len() {
            Some(b)
        } else {
            None::<int>
        }),
    decreases b - i,
{
    if i < b {
        lemma_pipe_from_is(t, i + 1, b);
    }
}

pub proof fn lemma_skip_spaces_bounds(t: Seq<char>, i: int)
    requires
        0 <= i,
    ensures
        i <= skip_spaces(t, i),
        i <= t.len() ==> skip_spaces(t, i) <= t.len(),
        forall|j: int| i <= j < skip_spaces(t, i) ==> t[j] == ' ',
    decreases t.len() - i,
{
    if 0 <= i < t.len() && t[i] == ' ' {
        lemma_skip_spaces_bounds(t, i + 1);
    }
}

pub proof fn lemma_bare_at_bounds(t: Seq<char>, s: int)
    requires
        0 <= s,
    ensures
        bare_at(t, s) matches Some((e, end)) ==> s + 1 < e && e < end <= t.len(),
{
    if 0 <= s < t.len() {
        lemma_pipe_from_bounds(t, s + 1);
    }
}

/// A placeholder found from `p` opens at or after `p`, has a key of at least
/// one character, and ends within the text.
pub proof fn lemma_next_occurrence_bounds(t: Seq<char>, p: int)
    requires
        0 <= p,
    ensures
        next_occurrence(t, p) matches Some((s, k, e, end)) ==> p <= s < k < e < end <= t.len(),
    decreases t.len() - p,
{
    if 0 <= p < t.len() {
        lemma_bare_at_bounds(t, p);
        if 0 <= p && p + 1 < t.len() {
            lemma_skip_spaces_bounds(t, p + 2);
            let q = skip_spaces(t, p + 2);
            lemma_bare_at_bounds(t, q);
            if let Some((e, inner_end)) = bare_at(t, q) {
                lemma_skip_spaces_bounds(t, inner_end);
            }
        }
        if occurrence_at(t, p) is None {
            lemma_next_occurrence_bounds(t, p + 1);
        }
    }
}

/// Relies on `String::push`: the character is added at the end.
#[verifier::external_body]
pub(crate) fn push_char(s: &mut String, c: char)
    ensures
        final(s)@ == old(s)@.push(c),
{
    s.push(c)
}

/// The characters of a text, one per element.
pub fn chars_of(s: &str) -> (r: Vec<char>)
    ensures
        r@ == s@,
{
    let mut r: Vec<char> = Vec::new();
    for c in it: s.chars()
        invariant
            r@ == it.seq().take(it.index() as int),
    {
        r.push(c);
    }
    r
}

fn is_quote_char(c: char) -> (r: bool)
    ensures
        r == is_quote(c),
{
    c == '\'' || c == '"'
}

/// Whether the word `translate` starts at `i`.
fn word_at(t: &Vec<char>, i: usize) -> (r: bool)
    ensures
        r == (i + 9 <= t@.len() && t@.subrange(i as int, i + 9) == translate_word()),
{
    if i > t.len() || t.len() - i < 9 {
        return false;
    }
    let r = t[i] == 't' && t[i + 1] == 'r' && t[i + 2] == 'a' && t[i + 3] == 'n' && t[i + 4]
        == 's' && t[i + 5] == 'l' && t[i + 6] == 'a' && t[i + 7] == 't' && t[i + 8] == 'e';
    if r {
        assert(t@.subrange(i as int, i + 9) =~= translate_word());
    } else {
        assert(forall|j: int|
            0 <= j < 9 ==> t@.subrange(i as int, i + 9)[j] == #[trigger] t@[i + j]);
    }
    r
}

fn word_end_exec(t: &Vec<char>, b: usize) -> (r: Option<usize>)
    requires
        b < t@.len(),
    ensures
        match word_end(t@, b as int) {
            Some(end) => r == Some(end as usize),
            None => r is None,
        },
{
    let n = t.len();
    if b < n - 1 && t[b + 1] == ' ' && word_at(t, b + 2) {
        Some(b + 11)
    } else if word_at(t, b + 1) {
        Some(b + 10)
    } else {
        None
    }
}

/// For each position `i` of `t`, the first pipe at or after `i`, or the
/// length of `t` where there is none.
pub fn pipe_table(t: &Vec<char>) -> (r: Vec<usize>)
    ensures
        pipes_ok(t@, r@),
{
    let n = t.len();
    let mut r: Vec<usize> = vec![0; n];
    let mut i = n;
    while i > 0
        invariant
            n == t@.len(),
            r@.len() == n,
            i <= n,
            forall|j: int| i <= j < n ==> pipe_slot(t@, j, #[trigger] r@[j]),
        decreases i,
    {
        i = i - 1;
        if t[i] == '|' {
            r.set(i, i);
        } else if i + 1 < n {
            let next = r[i + 1];
            r.set(i, next);
        } else {
            r.set(i, n);
        }
    }
    r
}

/// `b` is the first pipe at or after `i`, or the length where there is none.
pub open spec fn pipe_slot(t: Seq<char>, i: int, b: usize) -> bool {
    pipe_from(t, i) == (if b < t.len() {
        Some(b as int)
    } else {
        None::<int>
    }) && i <= b <= t.len()
}

pub open spec fn pipes_ok(t: Seq<char>, pipes: Seq<usize>) -> bool {
    &&& pipes.len() == t.len()
    &&& forall|j: int| 0 <= j < t.len() ==> pipe_slot(t, j, #[trigger] pipes[j])
}

fn skip_spaces_exec(t: &Vec<char>, i: usize) -> (r: usize)
    requires
        i <= t@.len(),
    ensures
        r == skip_spaces(t@, i as int),
{
    proof {
        lemma_skip_spaces_bounds(t@, i as int);
    }
    let mut j = i;
    while j < t.len() && t[j] == ' '
        invariant
            i <= j <= t@.len(),
            skip_spaces(t@, i as int) == skip_spaces(t@, j as int),
        decreases t@.len() - j,
    {
        j = j + 1;
    }
    j
}

/// The bare placeholder opening at `s`, as `bare_at` gives it.
fn bare_at_exec(t: &Vec<char>, pipes: &Vec<usize>, s: usize) -> (r: Option<(usize, usize)>)
    requires
        pipes_ok(t@, pipes@),
    ensures
        match bare_at(t@, s as int) {
            Some((e, end)) => r == Some((e as usize, end as usize)),
            None => r is None,
        },
{
    let n = t.len();
    if s >= n || !is_quote_char(t[s]) {
        return None;
    }
    let b = if s + 1 < n {
        pipes[s + 1]
    } else {
        n
    };
    if s + 1 < n {
        assert(pipe_slot(t@, s + 1, pipes@[s + 1]));
    }
    if b >= n {
        return None;
    }
    let close = if b - s >= 3 && is_quote_char(t[b - 1]) {
        Some(b - 1)
    } else if b - s >= 4 && t[b - 1] == ' ' && is_quote_char(t[b - 2]) {
        Some(b - 2)
    } else {
        None
    };
    match (close, word_end_exec(t, b)) {
        (Some(e), Some(end)) => Some((e, end)),
        _ => None,
    }
}

/// The placeholder opening at `s`, as `occurrence_at` gives it.
fn occurrence_at_exec(t: &Vec<char>, pipes: &Vec<usize>, s: usize) -> (r: Option<(usize, usize, usize)>)
    requires
        pipes_ok(t@, pipes@),
        s < t@.len(),
    ensures
        match occurrence_at(t@, s as int) {
            Some((k, e, end)) => r == Some((k as usize, e as usize, end as usize)),
            None => r is None,
        },
{
    let n = t.len();
    if s + 1 < n && t[s] == '{' && t[s + 1] == '{' {
        let q = skip_spaces_exec(t, s + 2);
        proof {
            lemma_skip_spaces_bounds(t@, s + 2);
            lemma_bare_at_bounds(t@, q as int);
        }
        match bare_at_exec(t, pipes, q) {
            Some((e, inner_end)) => {
                let c = skip_spaces_exec(t, inner_end);
                proof {
                    lemma_skip_spaces_bounds(t@, inner_end as int);
                }
                if c < n - 1 && t[c] == '}' && t[c + 1] == '}' {
                    return Some((q + 1, e, c + 2));
                }
            },
            None => {},
        }
    }
    proof {
        lemma_bare_at_bounds(t@, s as int);
    }
    match bare_at_exec(t, pipes, s) {
        Some((e, end)) => Some((s + 1, e, end)),
        None => None,
    }
}

/// The leftmost placeholder of `t` that opens at or after `p`, as
/// `(s, k, e, end)`: the key is `t[k .. e]` and the placeholder covers
/// `t[s .. end]`.
pub fn find_placeholder(t: &Vec<char>, pipes: &Vec<usize>, p: usize) -> (r: Option<(usize, usize, usize, usize)>)
    requires
        pipes_ok(t@, pipes@),
    ensures
        match next_occurrence(t@, p as int) {
            Some((s, k, e, end)) => r == Some((s as usize, k as usize, e as usize, end as usize)),
            None => r is None,
        },
{
    let n = t.len();
    let mut s = p;
    while s < n
        invariant
            n == t@.len(),
            pipes_ok(t@, pipes@),
            p <= s,
            next_occurrence(t@, p as int) == next_occurrence(t@, s as int),
        decreases n - s,
    {
        match occurrence_at_exec(t, pipes, s) {
            Some((k, e, end)) => {
                return Some((s, k, e, end));
            },
            None => {},
        }
        s = s + 1;
    }
    None
}

} // verus!
