//! Resolving a dot-separated key path against a dictionary.
use vstd::prelude::*;
use crate::placeholder::chars_of;
use crate::json::{
    JsonTree, at_index, at_key, tree_of, value_at_index, value_at_key,
};

verus! {

/// The pieces of `k[start..]` cut at each `.`, where the piece being read began
/// at `start` and the scan has reached `i`. Like `str::split('.')`, two dots in a
/// row or a dot at either end give an empty piece, and a text without dots is
/// one piece.
pub open spec fn split_from(k: Seq<char>, start: int, i: int) -> Seq<Seq<char>>
    decreases k.len() - i,
{
    if i >= k.len() {
        seq![k.subrange(start, k.len() as int)]
    } else if k[i] == '.' {
        seq![k.subrange(start, i)] + split_from(k, i + 1, i + 1)
    } else {
        split_from(k, start, i + 1)
    }
}

/// The segments of a key path.
pub open spec fn segments(k: Seq<char>) -> Seq<Seq<char>> {
    split_from(k, 0, 0)
}

pub open spec fn is_digit(c: char) -> bool {
    '0' <= c && c <= '9'
}

/// The number written by a run of decimal digits.
pub open spec fn digits_value(d: Seq<char>) -> nat
    decreases d.len(),
{
    if d.len() == 0 {
        0
    } else {
        digits_value(d.drop_last()) * 10 + (d.last() as nat - '0' as nat) as nat
    }
}

/// The digits of a segment once an optional leading `+` is dropped.
pub open spec fn unsigned_digits(seg: Seq<char>) -> Seq<char> {
    if seg.len() > 0 && seg[0] == '+' {
        seg.drop_first()
    } else {
        seg
    }
}

/// The array position that a segment names, as `usize`'s `from_str` reads it:
/// an optional `+` and then one or more decimal digits whose value fits in a
/// `usize`. Any other segment names an object field.
pub open spec fn index_value(seg: Seq<char>) -> Option<nat> {
    let d = unsigned_digits(seg);
    if d.len() > 0 && (forall|j: int| 0 <= j < d.len() ==> is_digit(#[trigger] d[j]))
        && digits_value(d) <= usize::MAX {
        Some(digits_value(d))
    } else {
        None
    }
}

/// One step of a walk: a numeric segment indexes an array, any other segment
/// indexes an object.
pub open spec fn step(v: JsonTree, seg: Seq<char>) -> JsonTree {
    match index_value(seg) {
        Some(n) => at_index(v, n),
        None => at_key(v, seg),
    }
}

/// The value reached from `v` by taking each segment in turn.
pub open spec fn walk(v: JsonTree, segs: Seq<Seq<char>>) -> JsonTree
    decreases segs.len(),
{
    if segs.len() == 0 {
        v
    } else {
        walk(step(v, segs[0]), segs.drop_first())
    }
}

/// The value that a key path names in a dictionary; null where any step misses.
pub open spec fn resolve(d: JsonTree, k: Seq<char>) -> JsonTree {
    walk(d, segments(k))
}

proof fn lemma_digits_value_grows(d: Seq<char>, i: int)
    requires
        0 <= i <= d.len(),
        forall|j: int| 0 <= j < d.len() ==> is_digit(#[trigger] d[j]),
    ensures
        digits_value(d.subrange(0, i)) <= digits_value(d),
    decreases d.len() - i,
{
    if i < d.len() {
        lemma_digits_value_grows(d, i + 1);
        assert(d.subrange(0, i + 1).drop_last() =~= d.subrange(0, i));
    } else {
        assert(d.subrange(0, i) =~= d);
    }
}

/// Reads a path segment as an array position, the way `usize`'s `from_str`
/// does.
pub fn parse_index(seg: &str) -> (r: Option<usize>)
    ensures
        match index_value(seg@) {
            Some(n) => r == Some(n as usize),
            None => r is None,
        },
{
    let t = chars_of(seg);
    let n = t.len();
    let mut i: usize = 0;
    if n > 0 && t[0] == '+' {
        i = 1;
    }
    let ghost d = unsigned_digits(seg@);
    let ghost off: int = i as int;
    assert(d =~= seg@.subrange(off, n as int));
    if i == n {
        return None;
    }
    let mut acc: usize = 0;
    while i < n
        invariant
            n == seg@.len(),
            t@ == seg@,
            0 <= off <= i <= n,
            d == unsigned_digits(seg@),
            d == seg@.subrange(off, n as int),
            forall|j: int| 0 <= j < i - off ==> is_digit(#[trigger] d[j]),
            acc == digits_value(d.subrange(0, i - off)),
        decreases n - i,
    {
        let c = t[i];
        let ghost p = i - off;
        assert(d[p] == c);
        if !('0' <= c && c <= '9') {
            assert(!is_digit(d[p]));
            return None;
        }
        let digit = (c as u32 - '0' as u32) as usize;
        assert(d.subrange(0, p + 1).drop_last() =~= d.subrange(0, p));
        assert(d.subrange(0, p + 1).last() == c);
        assert(digits_value(d.subrange(0, p + 1)) == acc * 10 + digit);
        let next = match acc.checked_mul(10) {
            Some(m) => m.checked_add(digit),
            None => None,
        };
        match next {
            Some(v) => {
                acc = v;
            },
            None => {
                proof {
                    if forall|j: int| 0 <= j < d.len() ==> is_digit(#[trigger] d[j]) {
                        lemma_digits_value_grows(d, p + 1);
                    }
                }
                return None;
            },
        }
        i = i + 1;
    }
    assert(d.subrange(0, d.len() as int) =~= d);
    Some(acc)
}

proof fn lemma_walk_push(v: JsonTree, segs: Seq<Seq<char>>, seg: Seq<char>)
    ensures
        walk(v, segs.push(seg)) == step(walk(v, segs), seg),
    decreases segs.len(),
{
    if segs.len() > 0 {
        assert(segs.push(seg).drop_first() =~= segs.drop_first().push(seg));
        assert(segs.push(seg)[0] == segs[0]);
        lemma_walk_push(step(v, segs[0]), segs.drop_first(), seg);
    } else {
        assert(segs.push(seg).drop_first() =~= Seq::<Seq<char>>::empty());
        assert(segs.push(seg)[0] == seg);
        assert(walk(step(v, seg), segs.push(seg).drop_first()) == step(v, seg));
        assert(walk(v, segs) == v);
    }
}

/// One step of a walk on a dictionary value.
fn step_value(v: &serde_json::Value, seg: &str) -> (r: serde_json::Value)
    ensures
        tree_of(r) == step(tree_of(*v), seg@),
{
    match parse_index(seg) {
        Some(i) => value_at_index(v, i),
        None => value_at_key(v, seg),
    }
}

/// The value that a dot-separated key path names in `value`. The walk never
/// fails: a missing field, a position past the end or a step into a scalar
/// gives null, and every later step stays at null.
pub fn read_json_path(value: &serde_json::Value, path: &str) -> (r: Option<serde_json::Value>)
    ensures
        r is Some,
        tree_of(r->0) == resolve(tree_of(*value), path@),
{
    let t = chars_of(path);
    let n = t.len();
    let mut start: usize = 0;
    let mut i: usize = 0;
    let mut cur: Option<serde_json::Value> = None;
    let ghost root = tree_of(*value);
    let ghost mut done: Seq<Seq<char>> = Seq::empty();
    while i < n
        invariant
            n == path@.len(),
            t@ == path@,
            start <= i <= n,
            segments(path@) == done + split_from(path@, start as int, i as int),
            cur is None <==> done.len() == 0,
            cur is Some ==> tree_of(cur->0) == walk(root, done),
            root == tree_of(*value),
        decreases n - i,
    {
        if t[i] == '.' {
            let seg = path.substring_char(start, i);
            let next = match &cur {
                Some(c) => step_value(c, seg),
                None => step_value(value, seg),
            };
            proof {
                lemma_walk_push(root, done, seg@);
                assert(done + split_from(path@, start as int, i as int) =~= done.push(seg@)
                    + split_from(path@, i + 1, i + 1));
                if done.len() == 0 {
                    assert(walk(root, done.push(seg@)) == step(root, seg@));
                }
                done = done.push(seg@);
            }
            cur = Some(next);
            start = i + 1;
        }
        i = i + 1;
    }
    let seg = path.substring_char(start, n);
    let last = match &cur {
        Some(c) => step_value(c, seg),
        None => step_value(value, seg),
    };
    proof {
        lemma_walk_push(root, done, seg@);
        assert(segments(path@) =~= done.push(seg@));
    }
    Some(last)
}

} // verus!
