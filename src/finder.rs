//! Applying one dictionary to a text: each placeholder whose key names a
//! string is replaced by that string, every other one is left as written.
use vstd::prelude::*;
use vstd::string::StringExecFns;
use crate::json::{JsonTree, parse_json, parsed_json, tree_of, value_as_str};
use crate::key_path::{read_json_path, resolve};
use crate::placeholder::{
    chars_of, find_placeholder, has_placeholder, lemma_next_occurrence_bounds, next_occurrence,
    pipe_table, pipes_ok, push_char,
};

verus! {

/// The key of a placeholder: `t[k .. e]`.
pub open spec fn key_of(t: Seq<char>, k: int, e: int) -> Seq<char> {
    t.subrange(k, e)
}

/// What a placeholder becomes: the string its key names, or else the
/// placeholder itself, unchanged.
pub open spec fn replacement(d: JsonTree, t: Seq<char>, s: int, k: int, e: int, end: int) -> Seq<char> {
    match resolve(d, key_of(t, k, e)) {
        JsonTree::Str(v) => v,
        _ => t.subrange(s, end),
    }
}

/// `t[p ..]` with each placeholder, taken left to right without overlap,
/// replaced by its replacement.
pub open spec fn rewrite_from(d: JsonTree, t: Seq<char>, p: int) -> Seq<char>
    decreases t.len() - p,
{
    if 0 <= p <= t.len() {
        match next_occurrence(t, p) {
            Some((s, k, e, end)) => {
                proof {
                    lemma_next_occurrence_bounds(t, p);
                }
                t.subrange(p, s) + replacement(d, t, s, k, e, end) + rewrite_from(d, t, end)
            },
            None => t.subrange(p, t.len() as int),
        }
    } else {
        Seq::empty()
    }
}

/// Whether some placeholder of `t[p ..]` has a key that names a string.
pub open spec fn resolves_from(d: JsonTree, t: Seq<char>, p: int) -> bool
    decreases t.len() - p,
{
    if 0 <= p <= t.len() {
        match next_occurrence(t, p) {
            Some((s, k, e, end)) => {
                proof {
                    lemma_next_occurrence_bounds(t, p);
                }
                resolve(d, key_of(t, k, e)) is Str || resolves_from(d, t, end)
            },
            None => false,
        }
    } else {
        false
    }
}

/// The whole text rewritten, or `None` when no placeholder was replaced.
pub open spec fn substitution(d: JsonTree, t: Seq<char>) -> Option<Seq<char>> {
    if resolves_from(d, t, 0) {
        Some(rewrite_from(d, t, 0))
    } else {
        None
    }
}

/// One translation dictionary and the rule that applies it to texts.
pub struct TranslateFinder {
    map: serde_json::Value,
}

impl TranslateFinder {
    /// The dictionary's tree.
    pub closed spec fn dictionary(&self) -> JsonTree {
        tree_of(self.map)
    }

    pub fn new(map: serde_json::Value) -> (r: Self)
        ensures
            r.dictionary() == tree_of(map),
    {
        TranslateFinder { map }
    }

    /// A finder for the dictionary written in a JSON text, or `None` when the
    /// text is not JSON.
    pub fn parse_dictionary(text: &str) -> (r: Option<Self>)
        ensures
            match parsed_json(text@) {
                Some(d) => r is Some && r->0.dictionary() == d,
                None => r is None,
            },
    {
        match parse_json(text) {
            Some(v) => Some(TranslateFinder { map: v }),
            None => None,
        }
    }

    /// Whether the text holds at least one placeholder.
    pub fn is_match(&self, sample: &str) -> (r: bool)
        ensures
            r == has_placeholder(sample@),
    {
        let t = chars_of(sample);
        let pipes = pipe_table(&t);
        find_placeholder(&t, &pipes, 0).is_some()
    }

    /// The text with each placeholder whose key names a string replaced by
    /// that string, or `None` when there is no such placeholder.
    pub fn replace_with_string(&self, sample: &str) -> (r: Option<String>)
        ensures
            match substitution(self.dictionary(), sample@) {
                Some(out) => r is Some && r->0@ == out,
                None => r is None,
            },
    {
        let t = chars_of(sample);
        let pipes = pipe_table(&t);
        let ghost d = self.dictionary();
        let n = t.len();
        let mut out = String::new();
        let mut changed = false;
        let mut p: usize = 0;
        loop
            invariant
                t@ == sample@,
                n == t@.len(),
                d == self.dictionary(),
                pipes_ok(t@, pipes@),
                p <= n,
                rewrite_from(d, t@, 0) == out@ + rewrite_from(d, t@, p as int),
                resolves_from(d, t@, 0) == (changed || resolves_from(d, t@, p as int)),
            decreases n - p,
        {
            proof {
                lemma_next_occurrence_bounds(t@, p as int);
            }
            match find_placeholder(&t, &pipes, p) {
                Some((s, k, e, end)) => {
                    let ghost out0 = out@;
                    push_range(&mut out, &t, p, s);
                    let mut key = String::new();
                    push_range(&mut key, &t, k, e);
                    let found = read_json_path(&self.map, key.as_str());
                    let v = found.unwrap();
                    match value_as_str(&v) {
                        Some(text) => {
                            out.append(text);
                            changed = true;
                        },
                        None => {
                            push_range(&mut out, &t, s, end);
                        },
                    }
                    proof {
                        assert(key@ =~= key_of(t@, k as int, e as int));
                    }
                    assert(out@ =~= out0 + t@.subrange(p as int, s as int) + replacement(
                        d,
                        t@,
                        s as int,
                        k as int,
                        e as int,
                        end as int,
                    ));
                    p = end;
                },
                None => {
                    push_range(&mut out, &t, p, n);
                    if changed {
                        return Some(out);
                    } else {
                        return None;
                    }
                },
            }
        }
    }
}

/// Appends `t[from .. to]` to `out`.
fn push_range(out: &mut String, t: &Vec<char>, from: usize, to: usize)
    requires
        from <= to <= t@.len(),
    ensures
        final(out)@ == old(out)@ + t@.subrange(from as int, to as int),
{
    let mut i = from;
    while i < to
        invariant
            from <= i <= to <= t@.len(),
            out@ == old(out)@ + t@.subrange(from as int, i as int),
        decreases to - i,
    {
        push_char(out, t[i]);
        assert(t@.subrange(from as int, i + 1) =~= t@.subrange(from as int, i as int).push(t@[i as int]));
        i = i + 1;
    }
}

} // verus!
