//! Properties of the replacer over all dictionaries and texts.
use vstd::prelude::*;
use crate::finder::{key_of, replacement, resolves_from, rewrite_from, substitution};
use crate::json::{JsonTree, at_index, at_key};
use crate::key_path::{index_value, resolve, step};
use crate::placeholder::{
    has_placeholder, lemma_next_occurrence_bounds, lemma_pipe_from_is, next_occurrence,
    occurrence_at, translate_word,
};

verus! {

/// A key that can stand in a placeholder: one or more characters, no `|`.
pub open spec fn valid_key(k: Seq<char>) -> bool {
    k.len() > 0 && forall|i: int| 0 <= i < k.len() ==> k[i] != '|'
}

/// The placeholder `'k' | translate`.
pub open spec fn placeholder_text(k: Seq<char>) -> Seq<char> {
    seq!['\''] + k + seq!['\'', ' ', '|', ' '] + translate_word()
}

proof fn lemma_placeholder_at(t: Seq<char>, o: int, k: Seq<char>)
    requires
        valid_key(k),
        0 <= o,
        o + k.len() + 14 <= t.len(),
        t.subrange(o, o + k.len() + 14) == placeholder_text(k),
    ensures
        occurrence_at(t, o) == Some((o + 1, o + k.len() + 1, o + k.len() + 14)),
        key_of(t, o + 1, o + k.len() + 1) == k,
{
    let pt = placeholder_text(k);
    let n: int = k.len() as int;
    assert forall|i: int| 0 <= i < n + 14 implies t[o + i] == #[trigger] pt[i] by {
        assert(t.subrange(o, o + n + 14)[i] == t[o + i]);
    };
    assert(pt[0] == '\'');
    assert forall|i: int| 0 <= i < n implies #[trigger] pt[i + 1] == k[i] by {};
    assert(pt[n + 1] == '\'');
    assert(pt[n + 2] == ' ');
    assert(pt[n + 3] == '|');
    assert(pt[n + 4] == ' ');
    assert forall|j: int| o + 1 <= j < o + n + 3 implies t[j] != '|' by {
        assert(t[j] == pt[j - o]);
        if j - o <= n {
            assert(pt[(j - o - 1) + 1] == k[j - o - 1]);
        }
    };
    assert(t[o + n + 3] == pt[n + 3]);
    lemma_pipe_from_is(t, o + 1, o + n + 3);
    assert(t[o] == pt[0]);
    assert(t[o + n + 1] == pt[n + 1]);
    assert(t[o + n + 2] == pt[n + 2]);
    assert(t[o + n + 4] == pt[n + 4]);
    assert(t.subrange(o + n + 5, o + n + 14) =~= translate_word()) by {
        assert forall|i: int| 0 <= i < 9 implies t.subrange(o + n + 5, o + n + 14)[i]
            == translate_word()[i] by {
            assert(t[o + n + 5 + i] == pt[n + 5 + i]);
        };
    };
    assert(key_of(t, o + 1, o + n + 1) =~= k) by {
        assert forall|i: int| 0 <= i < n implies key_of(t, o + 1, o + n + 1)[i] == k[i] by {
            assert(t[o + 1 + i] == pt[i + 1]);
        };
    };
}

proof fn lemma_rewrite_unchanged_from(d: JsonTree, t: Seq<char>, p: int)
    requires
        0 <= p <= t.len(),
        !resolves_from(d, t, p),
    ensures
        rewrite_from(d, t, p) == t.subrange(p, t.len() as int),
    decreases t.len() - p,
{
    lemma_next_occurrence_bounds(t, p);
    if let Some((s, k, e, end)) = next_occurrence(t, p) {
        lemma_rewrite_unchanged_from(d, t, end);
        assert(replacement(d, t, s, k, e, end) == t.subrange(s, end));
        assert(t.subrange(p, s) + t.subrange(s, end) + t.subrange(end, t.len() as int)
            =~= t.subrange(p, t.len() as int));
    }
}

proof fn lemma_no_placeholder_from(d: JsonTree, t: Seq<char>, p: int)
    requires
        0 <= p <= t.len(),
        next_occurrence(t, p) is None,
    ensures
        !resolves_from(d, t, p),
        rewrite_from(d, t, p) == t.subrange(p, t.len() as int),
{
}

/// A text whose placeholders all name something other than a string, or
/// nothing at all, comes out of the replacer exactly as it went in, and the
/// replacer reports that nothing was replaced.
pub proof fn law_unresolved_text_unchanged(d: JsonTree, t: Seq<char>)
    requires
        !resolves_from(d, t, 0),
    ensures
        rewrite_from(d, t, 0) == t,
        substitution(d, t) is None,
{
    lemma_rewrite_unchanged_from(d, t, 0);
    assert(t.subrange(0, t.len() as int) =~= t);
}

/// Running the replacer on a text with no placeholder that resolves to a
/// string is a no-op, and running it again on its output is a no-op too.
pub proof fn law_idempotent_without_resolvable(d: JsonTree, t: Seq<char>)
    requires
        !resolves_from(d, t, 0),
    ensures
        substitution(d, t) is None,
        substitution(d, rewrite_from(d, t, 0)) is None,
        rewrite_from(d, rewrite_from(d, t, 0), 0) == rewrite_from(d, t, 0),
{
    law_unresolved_text_unchanged(d, t);
    law_unresolved_text_unchanged(d, rewrite_from(d, t, 0));
}

/// A text without placeholders is never rewritten.
pub proof fn law_no_placeholder(d: JsonTree, t: Seq<char>)
    requires
        !has_placeholder(t),
    ensures
        substitution(d, t) is None,
        rewrite_from(d, t, 0) == t,
{
    lemma_no_placeholder_from(d, t, 0);
    assert(t.subrange(0, t.len() as int) =~= t);
}

/// A placeholder whose key names a string becomes exactly that string.
pub proof fn law_string_leaf_replaced(d: JsonTree, k: Seq<char>, v: Seq<char>)
    requires
        valid_key(k),
        resolve(d, k) == JsonTree::Str(v),
    ensures
        substitution(d, placeholder_text(k)) == Some(v),
{
    let t = placeholder_text(k);
    let n: int = k.len() as int;
    assert(t.subrange(0, n + 14) =~= t);
    lemma_placeholder_at(t, 0, k);
    assert(next_occurrence(t, 0) == Some((0int, 1int, n + 1, n + 14)));
    assert(next_occurrence(t, n + 14) is None);
    assert(rewrite_from(d, t, n + 14) =~= Seq::<char>::empty());
    assert(rewrite_from(d, t, 0) =~= v);
}

/// A placeholder whose key names nothing, or something other than a string,
/// is left as written, and the text counts as not rewritten.
pub proof fn law_unresolved_placeholder_kept(d: JsonTree, k: Seq<char>)
    requires
        valid_key(k),
        !(resolve(d, k) is Str),
    ensures
        substitution(d, placeholder_text(k)) is None,
        rewrite_from(d, placeholder_text(k), 0) == placeholder_text(k),
{
    let t = placeholder_text(k);
    let n: int = k.len() as int;
    assert(t.subrange(0, n + 14) =~= t);
    lemma_placeholder_at(t, 0, k);
    assert(next_occurrence(t, 0) == Some((0int, 1int, n + 1, n + 14)));
    assert(next_occurrence(t, n + 14) is None);
    assert(!resolves_from(d, t, n + 14));
    assert(key_of(t, 1, n + 1) == k);
    assert(!resolves_from(d, t, 0));
    law_unresolved_text_unchanged(d, t);
}

proof fn lemma_pair_occurrences(k1: Seq<char>, k2: Seq<char>)
    requires
        valid_key(k1),
        valid_key(k2),
    ensures
        ({
            let t = placeholder_text(k1) + seq![' '] + placeholder_text(k2);
            let n1 = k1.len() as int;
            let o = n1 + 15;
            let z = o + k2.len() + 14;
            &&& t.len() == z
            &&& next_occurrence(t, 0) == Some((0int, 1int, n1 + 1, n1 + 14))
            &&& next_occurrence(t, n1 + 14) == Some((o, o + 1, o + k2.len() + 1, z))
            &&& next_occurrence(t, z) is None
            &&& key_of(t, 1, n1 + 1) == k1
            &&& key_of(t, o + 1, o + k2.len() + 1) == k2
            &&& t.subrange(0, 0) + t.subrange(0, n1 + 14) == placeholder_text(k1)
            &&& t.subrange(n1 + 14, o) == seq![' ']
            &&& t.subrange(o, z) == placeholder_text(k2)
        }),
{
    let p1 = placeholder_text(k1);
    let p2 = placeholder_text(k2);
    let t = p1 + seq![' '] + p2;
    let n1: int = k1.len() as int;
    let n2: int = k2.len() as int;
    let o = n1 + 15;
    assert(t.subrange(0, n1 + 14) =~= p1);
    assert(t.subrange(o, o + n2 + 14) =~= p2);
    assert(t.subrange(0, 0) + t.subrange(0, n1 + 14) =~= p1);
    assert(t.subrange(n1 + 14, o) =~= seq![' ']);
    lemma_placeholder_at(t, 0, k1);
    lemma_placeholder_at(t, o, k2);
    assert(t[n1 + 14] == ' ');
    assert(occurrence_at(t, n1 + 14) is None);
    assert(t.len() == o + n2 + 14);
    assert(next_occurrence(t, 0) == Some((0int, 1int, n1 + 1, n1 + 14)));
    assert(next_occurrence(t, o) == Some((o, o + 1, o + n2 + 1, o + n2 + 14)));
    assert(next_occurrence(t, n1 + 14) == next_occurrence(t, o));
    assert(next_occurrence(t, o + n2 + 14) is None);
}

/// Of two placeholders, one whose key names a string and one whose key does
/// not, only the first is replaced; the second stays as written.
pub proof fn law_one_replaced_one_kept(d: JsonTree, k1: Seq<char>, k2: Seq<char>, v: Seq<char>)
    requires
        valid_key(k1),
        valid_key(k2),
        resolve(d, k1) == JsonTree::Str(v),
        !(resolve(d, k2) is Str),
    ensures
        substitution(d, placeholder_text(k1) + seq![' '] + placeholder_text(k2)) == Some(
            v + seq![' '] + placeholder_text(k2),
        ),
{
    let p1 = placeholder_text(k1);
    let p2 = placeholder_text(k2);
    let t = p1 + seq![' '] + p2;
    let n1: int = k1.len() as int;
    let o = n1 + 15;
    let z = o + k2.len() + 14;
    lemma_pair_occurrences(k1, k2);
    assert(rewrite_from(d, t, z) =~= Seq::<char>::empty());
    assert(!resolves_from(d, t, z));
    assert(rewrite_from(d, t, o) =~= p2);
    assert(!resolves_from(d, t, o));
    assert(rewrite_from(d, t, n1 + 14) == seq![' '] + rewrite_from(d, t, o));
    assert(!resolves_from(d, t, n1 + 14));
    assert(resolves_from(d, t, 0));
    assert(rewrite_from(d, t, 0) == v + rewrite_from(d, t, n1 + 14));
    assert(rewrite_from(d, t, 0) =~= v + seq![' '] + p2);
}

/// A segment that reads as a number indexes an array; any other segment
/// indexes an object.
pub proof fn law_segment_kinds(v: JsonTree, seg: Seq<char>)
    ensures
        index_value(seg) matches Some(n) ==> step(v, seg) == at_index(v, n),
        index_value(seg) is None ==> step(v, seg) == at_key(v, seg),
{
}

} // verus!
