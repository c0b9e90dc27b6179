//! The order of paths, and sorting lists of paths without repetition.

use vstd::prelude::*;

use crate::paths::{as_ints, component_spans, components_of, lemma_spans, same_path, spans};
use crate::text::{chars_of, texts};

verus! {

/// The root comes before `.`, that before `..`, and that before any name.
pub open spec fn rank(c: Seq<char>) -> int {
    if c == seq!['/'] {
        0
    } else if c == seq!['.'] {
        1
    } else if c == seq!['.', '.'] {
        2
    } else {
        3
    }
}

/// Texts are ordered by their first different character; a beginning comes first.
pub open spec fn chars_less(a: Seq<char>, b: Seq<char>) -> bool
    decreases a.len(),
{
    if b.len() == 0 {
        false
    } else if a.len() == 0 {
        true
    } else if a[0] == b[0] {
        chars_less(a.drop_first(), b.drop_first())
    } else {
        a[0] < b[0]
    }
}

/// The order of components.
pub open spec fn component_less(a: Seq<char>, b: Seq<char>) -> bool {
    rank(a) < rank(b) || (rank(a) == rank(b) && chars_less(a, b))
}

/// Lists of components are ordered by their first different component; a beginning comes
/// first.
pub open spec fn components_less(a: Seq<Seq<char>>, b: Seq<Seq<char>>) -> bool
    decreases a.len(),
{
    if b.len() == 0 {
        false
    } else if a.len() == 0 {
        true
    } else if a[0] == b[0] {
        components_less(a.drop_first(), b.drop_first())
    } else {
        component_less(a[0], b[0])
    }
}

/// The order of paths: component by component.
pub open spec fn path_less(a: Seq<char>, b: Seq<char>) -> bool {
    components_less(components_of(a), components_of(b))
}

proof fn lemma_chars_total(a: Seq<char>, b: Seq<char>)
    ensures
        chars_less(a, b) || a == b || chars_less(b, a),
        !(chars_less(a, b) && chars_less(b, a)),
        !chars_less(a, a),
    decreases a.len(),
{
    if a.len() > 0 {
        lemma_chars_total(a.drop_first(), a.drop_first());
        if b.len() > 0 && a[0] == b[0] {
            lemma_chars_total(a.drop_first(), b.drop_first());
            assert(seq![a[0]] + a.drop_first() =~= a);
            assert(seq![b[0]] + b.drop_first() =~= b);
        }
    } else if b.len() == 0 {
        assert(a =~= b);
    }
}

proof fn lemma_chars_trans(a: Seq<char>, b: Seq<char>, c: Seq<char>)
    requires
        chars_less(a, b),
        chars_less(b, c),
    ensures
        chars_less(a, c),
    decreases a.len(),
{
    if a.len() > 0 && a[0] == b[0] && b[0] == c[0] {
        lemma_chars_trans(a.drop_first(), b.drop_first(), c.drop_first());
    }
}

proof fn lemma_component_total(a: Seq<char>, b: Seq<char>)
    ensures
        component_less(a, b) || a == b || component_less(b, a),
        !(component_less(a, b) && component_less(b, a)),
        !component_less(a, a),
{
    lemma_chars_total(a, b);
    lemma_chars_total(a, a);
}

proof fn lemma_component_trans(a: Seq<char>, b: Seq<char>, c: Seq<char>)
    requires
        component_less(a, b),
        component_less(b, c),
    ensures
        component_less(a, c),
{
    if rank(a) == rank(b) && rank(b) == rank(c) {
        lemma_chars_trans(a, b, c);
    }
}

/// Of two different lists of components exactly one comes first.
pub proof fn lemma_components_total(a: Seq<Seq<char>>, b: Seq<Seq<char>>)
    ensures
        components_less(a, b) || a == b || components_less(b, a),
        !(components_less(a, b) && components_less(b, a)),
        !components_less(a, a),
    decreases a.len(),
{
    if a.len() > 0 {
        lemma_components_total(a.drop_first(), a.drop_first());
        if b.len() > 0 {
            lemma_component_total(a[0], b[0]);
            if a[0] == b[0] {
                lemma_components_total(a.drop_first(), b.drop_first());
                assert(seq![a[0]] + a.drop_first() =~= a);
                assert(seq![b[0]] + b.drop_first() =~= b);
            }
        }
    } else if b.len() == 0 {
        assert(a =~= b);
    }
}

/// What comes before an earlier list comes before a later one.
pub proof fn lemma_components_trans(a: Seq<Seq<char>>, b: Seq<Seq<char>>, c: Seq<Seq<char>>)
    requires
        components_less(a, b),
        components_less(b, c),
    ensures
        components_less(a, c),
    decreases a.len(),
{
    if a.len() > 0 {
        if a[0] == b[0] && b[0] == c[0] {
            lemma_components_trans(a.drop_first(), b.drop_first(), c.drop_first());
        } else if a[0] != b[0] && b[0] != c[0] {
            lemma_component_trans(a[0], b[0], c[0]);
            lemma_component_total(a[0], b[0]);
            lemma_component_total(b[0], c[0]);
        }
    }
}

/// A list of components as texts.
pub open spec fn deep(v: Seq<Vec<char>>) -> Seq<Seq<char>> {
    Seq::new(v.len(), |k: int| v[k]@)
}

/// The components of a path as lists of characters.
fn component_chars(path: &str) -> (r: Vec<Vec<char>>)
    ensures
        deep(r@) == components_of(path@),
{
    let v = chars_of(path);
    let s = component_spans(v.as_slice());
    proof {
        lemma_spans(v@);
    }
    let mut out: Vec<Vec<char>> = Vec::new();
    let mut i: usize = 0;
    while i < s.len()
        invariant
            i <= s@.len(),
            as_ints(s@) == spans(v@),
            out@.len() == i,
            forall|k: int|
                0 <= k < spans(v@).len() ==> 0 <= (#[trigger] spans(v@)[k]).0 < spans(v@)[k].1
                    <= v@.len(),
            forall|k: int|
                0 <= k < i ==> (#[trigger] out@[k])@ == v@.subrange(spans(v@)[k].0, spans(v@)[k].1),
        decreases s@.len() - i,
    {
        assert(as_ints(s@)[i as int] == spans(v@)[i as int]);
        let mut c: Vec<char> = Vec::new();
        let mut j: usize = s[i].0;
        while j < s[i].1
            invariant
                i < s@.len(),
                s@[i as int].0 <= j <= s@[i as int].1 <= v@.len(),
                c@ == v@.subrange(s@[i as int].0 as int, j as int),
            decreases s@[i as int].1 - j,
        {
            c.push(v[j]);
            j += 1;
            assert(v@.subrange(s@[i as int].0 as int, j as int) =~= v@.subrange(
                s@[i as int].0 as int,
                j - 1,
            ).push(v@[j - 1]));
        }
        out.push(c);
        i += 1;
    }
    assert(as_ints(s@).len() == s@.len());
    assert(deep(out@) =~= components_of(path@));
    out
}

/// Whether one text comes before another.
fn chars_before(a: &[char], b: &[char]) -> (r: bool)
    ensures
        r == chars_less(a@, b@),
{
    let mut i: usize = 0;
    assert(a@.skip(0) =~= a@);
    assert(b@.skip(0) =~= b@);
    while i < a.len() && i < b.len()
        invariant
            i <= a@.len(),
            i <= b@.len(),
            chars_less(a@.skip(i as int), b@.skip(i as int)) == chars_less(a@, b@),
        decreases a@.len() - i,
    {
        if a[i] != b[i] {
            return a[i] < b[i];
        }
        assert(a@.skip(i as int).drop_first() =~= a@.skip(i + 1));
        assert(b@.skip(i as int).drop_first() =~= b@.skip(i + 1));
        i += 1;
    }
    i < b.len()
}

/// The rank of a component.
fn rank_of(c: &[char]) -> (r: u8)
    ensures
        r == rank(c@),
{
    proof {
        if c@.len() == 1 {
            assert(c@ =~= seq![c@[0]]);
        }
        if c@.len() == 2 {
            assert(c@ =~= seq![c@[0], c@[1]]);
        }
    }
    assert(seq!['/'].len() == 1 && seq!['/'][0] == '/');
    assert(seq!['.'].len() == 1 && seq!['.'][0] == '.');
    assert(seq!['.', '.'].len() == 2 && seq!['.', '.'][0] == '.' && seq!['.', '.'][1] == '.');
    if c.len() == 1 && c[0] == '/' {
        0
    } else if c.len() == 1 && c[0] == '.' {
        1
    } else if c.len() == 2 && c[0] == '.' && c[1] == '.' {
        2
    } else {
        3
    }
}

/// Whether one component comes before another.
fn component_before(a: &[char], b: &[char]) -> (r: bool)
    ensures
        r == component_less(a@, b@),
{
    let x: u8 = rank_of(a);
    let y: u8 = rank_of(b);
    x < y || (x == y && chars_before(a, b))
}

/// Whether one list of components comes before another.
fn components_before(a: &Vec<Vec<char>>, b: &Vec<Vec<char>>) -> (r: bool)
    ensures
        r == components_less(deep(a@), deep(b@)),
{
    let ghost x = deep(a@);
    let ghost y = deep(b@);
    let mut i: usize = 0;
    assert(x.skip(0) =~= x);
    assert(y.skip(0) =~= y);
    while i < a.len() && i < b.len()
        invariant
            x == deep(a@),
            y == deep(b@),
            i <= a@.len(),
            i <= b@.len(),
            components_less(x.skip(i as int), y.skip(i as int)) == components_less(x, y),
        decreases a@.len() - i,
    {
        proof {
            assert(x.skip(i as int)[0] == a@[i as int]@);
            assert(y.skip(i as int)[0] == b@[i as int]@);
            lemma_component_total(a@[i as int]@, b@[i as int]@);
        }
        if component_before(a[i].as_slice(), b[i].as_slice()) {
            return true;
        }
        if component_before(b[i].as_slice(), a[i].as_slice()) {
            return false;
        }
        assert(x.skip(i as int).drop_first() =~= x.skip(i + 1));
        assert(y.skip(i as int).drop_first() =~= y.skip(i + 1));
        i += 1;
    }
    i < b.len()
}

/// The components of each path of a list.
pub open spec fn keys_of(keys: Seq<Vec<Vec<char>>>) -> Seq<Seq<Seq<char>>> {
    Seq::new(keys.len(), |k: int| deep(keys[k]@))
}

/// Position `a` of a list is sorted before position `b`: its path comes first, or it is the
/// same path and stands earlier.
pub open spec fn sorts_before(keys: Seq<Seq<Seq<char>>>, a: int, b: int) -> bool {
    components_less(keys[a], keys[b]) || (keys[a] == keys[b] && a < b)
}

proof fn lemma_sorts_trans(keys: Seq<Seq<Seq<char>>>, a: int, b: int, c: int)
    requires
        sorts_before(keys, a, b),
        sorts_before(keys, b, c),
    ensures
        sorts_before(keys, a, c),
{
    if components_less(keys[a], keys[b]) && components_less(keys[b], keys[c]) {
        lemma_components_trans(keys[a], keys[b], keys[c]);
    }
}

/// `x` is one of the positions of `r`.
spec fn lists(r: Seq<usize>, x: int) -> bool {
    exists|i: int| 0 <= i < r.len() && (#[trigger] r[i]) as int == x
}

/// `r` lists the positions from `from` up to `to` in sorted order.
spec fn sorted_range(keys: Seq<Seq<Seq<char>>>, r: Seq<usize>, from: int, to: int) -> bool {
    &&& forall|i: int| 0 <= i < r.len() ==> from <= (#[trigger] r[i]) < to
    &&& forall|x: int| from <= x < to ==> #[trigger] lists(r, x)
    &&& forall|i: int, j: int|
        0 <= i < j < r.len() ==> sorts_before(
            keys,
            (#[trigger] r[i]) as int,
            (#[trigger] r[j]) as int,
        )
}

/// Merge two sorted lists of positions.
fn merge(keys: &Vec<Vec<Vec<char>>>, a: &Vec<usize>, b: &Vec<usize>, Ghost(from): Ghost<int>, Ghost(
    mid,
): Ghost<int>, Ghost(to): Ghost<int>) -> (r: Vec<usize>)
    requires
        0 <= from <= mid <= to <= keys@.len(),
        sorted_range(keys_of(keys@), a@, from, mid),
        sorted_range(keys_of(keys@), b@, mid, to),
    ensures
        sorted_range(keys_of(keys@), r@, from, to),
{
    let ghost k = keys_of(keys@);
    let mut out: Vec<usize> = Vec::new();
    let mut i: usize = 0;
    let mut j: usize = 0;
    while i < a.len() || j < b.len()
        invariant
            0 <= from <= mid <= to <= keys@.len(),
            k == keys_of(keys@),
            sorted_range(k, a@, from, mid),
            sorted_range(k, b@, mid, to),
            i <= a@.len(),
            j <= b@.len(),
            out@.len() == i + j,
            forall|x: int| 0 <= x < out@.len() ==> from <= (#[trigger] out@[x]) < to,
            forall|x: int, y: int|
                0 <= x < y < out@.len() ==> sorts_before(
                    k,
                    (#[trigger] out@[x]) as int,
                    (#[trigger] out@[y]) as int,
                ),
            forall|x: int, y: int|
                0 <= x < out@.len() && i <= y < a@.len() ==> sorts_before(
                    k,
                    (#[trigger] out@[x]) as int,
                    (#[trigger] a@[y]) as int,
                ),
            forall|x: int, y: int|
                0 <= x < out@.len() && j <= y < b@.len() ==> sorts_before(
                    k,
                    (#[trigger] out@[x]) as int,
                    (#[trigger] b@[y]) as int,
                ),
            forall|x: int| 0 <= x < i ==> out@.contains(#[trigger] a@[x]),
            forall|x: int| 0 <= x < j ==> out@.contains(#[trigger] b@[x]),
        decreases a@.len() - i + b@.len() - j,
    {
        let ghost before = out@;
        let left: bool = if i >= a.len() {
            false
        } else if j >= b.len() {
            true
        } else {
            let p: usize = a[i];
            let q: usize = b[j];
            proof {
                lemma_components_total(k[p as int], k[q as int]);
                assert(p < mid <= q);
                assert(k[p as int] == deep(keys@[p as int]@));
                assert(k[q as int] == deep(keys@[q as int]@));
            }
            !components_before(&keys[q], &keys[p])
        };
        if left {
            let p: usize = a[i];
            proof {
                assert forall|y: int| j <= y < b@.len() implies sorts_before(
                    k,
                    p as int,
                    (#[trigger] b@[y]) as int,
                ) by {
                    assert(sorts_before(k, p as int, b@[j as int] as int));
                    if y > j {
                        lemma_sorts_trans(k, p as int, b@[j as int] as int, b@[y] as int);
                    }
                }
            }
            out.push(p);
            i += 1;
            assert(out@[out@.len() - 1] == a@[i - 1]);
        } else {
            let q: usize = b[j];
            proof {
                assert forall|y: int| i <= y < a@.len() implies sorts_before(
                    k,
                    q as int,
                    (#[trigger] a@[y]) as int,
                ) by {
                    assert(sorts_before(k, q as int, a@[i as int] as int));
                    if y > i {
                        lemma_sorts_trans(k, q as int, a@[i as int] as int, a@[y] as int);
                    }
                }
            }
            out.push(q);
            j += 1;
            assert(out@[out@.len() - 1] == b@[j - 1]);
        }
        proof {
            assert forall|u: usize| before.contains(u) implies out@.contains(u) by {
                let x = choose|x: int| 0 <= x < before.len() && before[x] == u;
                assert(out@[x] == u);
            }
        }
    }
    proof {
        assert forall|x: int| from <= x < to implies #[trigger] lists(out@, x) by {
            if x < mid {
                assert(lists(a@, x));
                let m = choose|m: int| 0 <= m < a@.len() && (#[trigger] a@[m]) as int == x;
                assert(out@.contains(a@[m]));
            } else {
                assert(lists(b@, x));
                let m = choose|m: int| 0 <= m < b@.len() && (#[trigger] b@[m]) as int == x;
                assert(out@.contains(b@[m]));
            }
        }
    }
    out
}

/// The positions from `from` up to `to` in sorted order.
fn sort_positions(keys: &Vec<Vec<Vec<char>>>, from: usize, to: usize) -> (r: Vec<usize>)
    requires
        from <= to <= keys@.len(),
    ensures
        sorted_range(keys_of(keys@), r@, from as int, to as int),
    decreases to - from,
{
    let mut out: Vec<usize> = Vec::new();
    if to == from {
        return out;
    }
    if to - from == 1 {
        out.push(from);
        assert(out@[0] == from);
        return out;
    }
    let mid: usize = from + (to - from) / 2;
    let a = sort_positions(keys, from, mid);
    let b = sort_positions(keys, mid, to);
    merge(keys, &a, &b, Ghost(from as int), Ghost(mid as int), Ghost(to as int))
}

/// `r` holds a path of the list `v`, namely the first of those that name the same path.
spec fn is_first_string(v: Seq<String>, r: Seq<char>) -> bool {
    exists|k: int|
        0 <= k < v.len() && (#[trigger] v[k])@ == r && forall|m: int|
            0 <= m < k ==> !same_path((#[trigger] v[m])@, r)
}

/// `r` names the same path as one of the list `v`.
spec fn names_a_string(v: Seq<String>, r: Seq<char>) -> bool {
    exists|k: int| 0 <= k < v.len() && same_path((#[trigger] v[k])@, r)
}

/// `r` is the list `v` in the order of paths, each path once, in its first spelling.
spec fn sorted_strings(v: Seq<String>, r: Seq<String>) -> bool {
    &&& forall|i: int, j: int|
        0 <= i < j < r.len() ==> path_less((#[trigger] r[i])@, (#[trigger] r[j])@)
    &&& forall|i: int| 0 <= i < r.len() ==> is_first_string(v, (#[trigger] r[i])@)
    &&& forall|k: int| 0 <= k < v.len() ==> names_a_string(r, (#[trigger] v[k])@)
}

/// Sort a list of paths and drop repetitions.
fn sort_strings(v: &Vec<String>) -> (r: Vec<String>)
    ensures
        sorted_strings(v@, r@),
{
    let mut keys: Vec<Vec<Vec<char>>> = Vec::new();
    let mut i: usize = 0;
    while i < v.len()
        invariant
            i <= v@.len(),
            keys@.len() == i,
            forall|k: int|
                0 <= k < i ==> deep((#[trigger] keys@[k])@) == components_of(v@[k]@),
        decreases v@.len() - i,
    {
        keys.push(component_chars(v[i].as_str()));
        i += 1;
    }
    let ghost ks = keys_of(keys@);
    let order = sort_positions(&keys, 0, keys.len());
    let mut out: Vec<String> = Vec::new();
    let mut last: usize = 0;
    let mut n: usize = 0;
    while n < order.len()
        invariant
            n <= order@.len(),
            ks == keys_of(keys@),
            keys@.len() == v@.len(),
            forall|k: int|
                0 <= k < v@.len() ==> #[trigger] ks[k] == components_of(v@[k]@),
            sorted_range(ks, order@, 0, v@.len() as int),
            (n == 0) == (out@.len() == 0),
            n > 0 ==> last < v@.len() && out@[out@.len() - 1]@ == v@[last as int]@
                && ks[last as int] == ks[order@[n - 1] as int],
            forall|a: int, b: int|
                0 <= a < b < out@.len() ==> path_less(
                    (#[trigger] out@[a])@,
                    (#[trigger] out@[b])@,
                ),
            forall|a: int| 0 <= a < out@.len() ==> is_first_string(v@, (#[trigger] out@[a])@),
            forall|m: int|
                0 <= m < n ==> names_a_string(out@, v@[(#[trigger] order@[m]) as int]@),
        decreases order@.len() - n,
    {
        let p: usize = order[n];
        let ghost before = out@;
        let fresh: bool = if n == 0 {
            true
        } else {
            proof {
                assert(sorts_before(ks, order@[n - 1] as int, order@[n as int] as int));
                lemma_components_total(ks[last as int], ks[p as int]);
                assert(ks[last as int] == deep(keys@[last as int]@));
                assert(ks[p as int] == deep(keys@[p as int]@));
            }
            components_before(&keys[last], &keys[p])
        };
        if fresh {
            out.push(v[p].clone());
            proof {
                assert(is_first_string(v@, v@[p as int]@)) by {
                    assert forall|m: int| 0 <= m < p implies !same_path(
                        (#[trigger] v@[m])@,
                        v@[p as int]@,
                    ) by {
                        if same_path(v@[m]@, v@[p as int]@) {
                            assert(lists(order@, m));
                            let at = choose|x: int|
                                0 <= x < order@.len() && (#[trigger] order@[x]) as int == m;
                            assert(ks[m] == ks[p as int]);
                            lemma_components_total(ks[m], ks[m]);
                            if at > n {
                                assert(sorts_before(ks, order@[n as int] as int, m));
                            } else if at < n {
                                if at < n - 1 {
                                    assert(sorts_before(ks, m, order@[n - 1] as int));
                                }
                                lemma_components_total(ks[m], ks[last as int]);
                            }
                        }
                    }
                }
                assert forall|a: int, b: int| 0 <= a < b < out@.len() implies path_less(
                    (#[trigger] out@[a])@,
                    (#[trigger] out@[b])@,
                ) by {
                    if b == before.len() {
                        assert(path_less(v@[last as int]@, v@[p as int]@));
                        if a < before.len() - 1 {
                            lemma_components_trans(
                                components_of(out@[a]@),
                                components_of(v@[last as int]@),
                                components_of(v@[p as int]@),
                            );
                        }
                    }
                }
            }
            last = p;
            assert(out@[out@.len() - 1]@ == v@[p as int]@);
        } else {
            assert(same_path(out@[out@.len() - 1]@, v@[p as int]@));
        }
        proof {
            assert forall|m: int| 0 <= m < n + 1 implies names_a_string(
                out@,
                v@[(#[trigger] order@[m]) as int]@,
            ) by {
                if m < n {
                    let t = v@[order@[m] as int]@;
                    let x = choose|x: int|
                        0 <= x < before.len() && same_path((#[trigger] before[x])@, t);
                    assert(out@[x] == before[x]);
                } else {
                    assert(same_path(out@[out@.len() - 1]@, v@[order@[m] as int]@));
                }
            }
        }
        n += 1;
    }
    proof {
        assert forall|k: int| 0 <= k < v@.len() implies names_a_string(out@, (#[trigger] v@[k])@) by {
            assert(lists(order@, k));
            let m = choose|m: int| 0 <= m < order@.len() && (#[trigger] order@[m]) as int == k;
            assert(names_a_string(out@, v@[order@[m] as int]@));
        }
    }
    out
}

/// `r` is a path of the list `v`, namely the first of those that name the same path.
pub open spec fn is_first_of(v: Seq<Seq<char>>, r: Seq<char>) -> bool {
    exists|k: int|
        0 <= k < v.len() && #[trigger] v[k] == r && forall|m: int|
            0 <= m < k ==> !same_path(#[trigger] v[m], r)
}

/// `r` names the same path as one of the list `v`.
pub open spec fn names_one_of(v: Seq<Seq<char>>, r: Seq<char>) -> bool {
    exists|k: int| 0 <= k < v.len() && same_path(#[trigger] v[k], r)
}

/// `r` is the list `v` in the order of paths, each path once, in its first spelling.
pub open spec fn sorted_unique(v: Seq<Seq<char>>, r: Seq<Seq<char>>) -> bool {
    &&& forall|i: int, j: int|
        0 <= i < j < r.len() ==> path_less(#[trigger] r[i], #[trigger] r[j])
    &&& forall|i: int| 0 <= i < r.len() ==> is_first_of(v, #[trigger] r[i])
    &&& forall|k: int| 0 <= k < v.len() ==> names_one_of(r, #[trigger] v[k])
}

/// Sort a list of paths and drop repetitions.
pub fn sort_unique(v: &Vec<String>) -> (r: Vec<String>)
    ensures
        sorted_unique(texts(v@), texts(r@)),
{
    let r = sort_strings(v);
    proof {
        let a = texts(v@);
        let b = texts(r@);
        assert forall|i: int, j: int| 0 <= i < j < b.len() implies path_less(
            #[trigger] b[i],
            #[trigger] b[j],
        ) by {
            assert(path_less(r@[i]@, r@[j]@));
        }
        assert forall|i: int| 0 <= i < b.len() implies is_first_of(a, #[trigger] b[i]) by {
            assert(is_first_string(v@, r@[i]@));
            let k = choose|k: int|
                0 <= k < v@.len() && (#[trigger] v@[k])@ == r@[i]@ && forall|m: int|
                    0 <= m < k ==> !same_path((#[trigger] v@[m])@, r@[i]@);
            assert(a[k] == b[i]);
            assert forall|m: int| 0 <= m < k implies !same_path(#[trigger] a[m], b[i]) by {
                assert(a[m] == v@[m]@);
            }
        }
        assert forall|k: int| 0 <= k < a.len() implies names_one_of(b, #[trigger] a[k]) by {
            assert(names_a_string(r@, v@[k]@));
            let m = choose|m: int| 0 <= m < r@.len() && same_path((#[trigger] r@[m])@, v@[k]@);
            assert(same_path(b[m], a[k]));
        }
    }
    r
}

/// `sorted_unique`, to be looked into one part at a time.
#[verifier::opaque]
spec fn sorted_list(v: Seq<Seq<char>>, r: Seq<Seq<char>>) -> bool {
    sorted_unique(v, r)
}

proof fn lemma_in_order(v: Seq<Seq<char>>, r: Seq<Seq<char>>, i: int, j: int)
    requires
        sorted_list(v, r),
        0 <= i < j < r.len(),
    ensures
        path_less(r[i], r[j]),
{
    reveal(sorted_list);
}

proof fn lemma_is_first(v: Seq<Seq<char>>, r: Seq<Seq<char>>, i: int)
    requires
        sorted_list(v, r),
        0 <= i < r.len(),
    ensures
        is_first_of(v, r[i]),
{
    reveal(sorted_list);
}

proof fn lemma_is_named(v: Seq<Seq<char>>, r: Seq<Seq<char>>, k: int)
    requires
        sorted_list(v, r),
        0 <= k < v.len(),
    ensures
        names_one_of(r, v[k]),
{
    reveal(sorted_list);
}

/// A path of a list has one first spelling.
proof fn lemma_one_first(v: Seq<Seq<char>>, x: Seq<char>, y: Seq<char>)
    requires
        is_first_of(v, x),
        is_first_of(v, y),
        same_path(x, y),
    ensures
        x == y,
{
    let k = choose|k: int|
        0 <= k < v.len() && #[trigger] v[k] == x && forall|m: int|
            0 <= m < k ==> !same_path(#[trigger] v[m], x);
    let l = choose|l: int|
        0 <= l < v.len() && #[trigger] v[l] == y && forall|m: int|
            0 <= m < l ==> !same_path(#[trigger] v[m], y);
    if k < l {
        assert(!same_path(v[k], y));
    }
    if l < k {
        assert(!same_path(v[l], x));
    }
}

/// What one sorted list without repetition holds, another holds too.
proof fn lemma_listed_in_both(v: Seq<Seq<char>>, a: Seq<Seq<char>>, b: Seq<Seq<char>>, i: int)
    requires
        sorted_list(v, a),
        sorted_list(v, b),
        0 <= i < a.len(),
    ensures
        exists|j: int| 0 <= j < b.len() && b[j] == a[i],
{
    lemma_is_first(v, a, i);
    let k = choose|k: int| 0 <= k < v.len() && #[trigger] v[k] == a[i];
    lemma_is_named(v, b, k);
    let j = choose|j: int| 0 <= j < b.len() && same_path(#[trigger] b[j], v[k]);
    lemma_is_first(v, b, j);
    lemma_one_first(v, b[j], a[i]);
}

/// Two sorted lists without repetition agree on the first `n` places of the one.
proof fn lemma_same_beginning(v: Seq<Seq<char>>, a: Seq<Seq<char>>, b: Seq<Seq<char>>, n: int)
    requires
        sorted_list(v, a),
        sorted_list(v, b),
        0 <= n <= a.len(),
    ensures
        n <= b.len(),
        forall|i: int| 0 <= i < n ==> a[i] == b[i],
    decreases n,
{
    if n > 0 {
        let i = n - 1;
        lemma_same_beginning(v, a, b, i);
        lemma_listed_in_both(v, a, b, i);
        let j = choose|j: int| 0 <= j < b.len() && b[j] == a[i];
        lemma_components_total(components_of(a[i]), components_of(a[i]));
        if j < i {
            lemma_in_order(v, a, j, i);
        }
        if j > i {
            lemma_listed_in_both(v, b, a, i);
            let k = choose|k: int| 0 <= k < a.len() && a[k] == b[i];
            lemma_in_order(v, b, i, j);
            if k < i {
                lemma_in_order(v, b, k, i);
                lemma_components_total(components_of(b[i]), components_of(b[i]));
            }
            if k > i {
                lemma_in_order(v, a, i, k);
                lemma_components_total(components_of(a[i]), components_of(a[k]));
            }
        }
    }
}

/// One list has one sorted list without repetition.
pub proof fn sorted_unique_is_one(v: Seq<Seq<char>>, a: Seq<Seq<char>>, b: Seq<Seq<char>>)
    requires
        sorted_unique(v, a),
        sorted_unique(v, b),
    ensures
        a == b,
{
    assert(sorted_list(v, a) && sorted_list(v, b)) by {
        reveal(sorted_list);
    }
    lemma_same_beginning(v, a, b, a.len() as int);
    lemma_same_beginning(v, b, a, b.len() as int);
    assert(a =~= b);
}

/// Paths are ordered by the first component in which they differ; one that ends where the
/// other goes on comes first.
pub proof fn first_different_component_decides(a: Seq<char>, b: Seq<char>, k: int)
    requires
        0 <= k <= components_of(a).len(),
        k <= components_of(b).len(),
        components_of(a).take(k) == components_of(b).take(k),
    ensures
        k == components_of(a).len() && k < components_of(b).len() ==> path_less(a, b) && !path_less(
            b,
            a,
        ),
        k < components_of(a).len() && k < components_of(b).len() && components_of(a)[k]
            != components_of(b)[k] ==> path_less(a, b) == component_less(
            components_of(a)[k],
            components_of(b)[k],
        ),
        same_path(a, b) ==> !path_less(a, b),
{
    lemma_components_differ(components_of(a), components_of(b), k);
    lemma_components_total(components_of(a), components_of(a));
}

proof fn lemma_components_differ(a: Seq<Seq<char>>, b: Seq<Seq<char>>, k: int)
    requires
        0 <= k <= a.len(),
        k <= b.len(),
        a.take(k) == b.take(k),
    ensures
        k == a.len() && k < b.len() ==> components_less(a, b) && !components_less(b, a),
        k < a.len() && k < b.len() && a[k] != b[k] ==> components_less(a, b) == component_less(
            a[k],
            b[k],
        ),
    decreases k,
{
    if k > 0 {
        assert(a.take(k)[0] == a[0] && b.take(k)[0] == b[0]);
        assert(a.drop_first().take(k - 1) =~= a.take(k).drop_first());
        assert(b.drop_first().take(k - 1) =~= b.take(k).drop_first());
        lemma_components_differ(a.drop_first(), b.drop_first(), k - 1);
    }
}

/// Components are ordered by the first character in which they differ; a beginning comes
/// first. The root comes before `.`, that before `..`, and that before any name.
pub proof fn first_different_character_decides(a: Seq<char>, b: Seq<char>, k: int)
    requires
        0 <= k <= a.len(),
        k <= b.len(),
        a.take(k) == b.take(k),
        a != seq!['/'] && a != seq!['.'] && a != seq!['.', '.'],
        b != seq!['/'] && b != seq!['.'] && b != seq!['.', '.'],
    ensures
        k == a.len() && k < b.len() ==> component_less(a, b) && !component_less(b, a),
        k < a.len() && k < b.len() && a[k] != b[k] ==> component_less(a, b) == (a[k] < b[k]),
        component_less(seq!['/'], seq!['.']),
        component_less(seq!['.'], seq!['.', '.']),
        component_less(seq!['.', '.'], a) && !component_less(a, seq!['.', '.']),
{
    lemma_chars_differ(a, b, k);
    assert(seq!['/'][0] == '/' && seq!['.'][0] == '.');
    assert(seq!['/'].len() == 1 && seq!['.', '.'].len() == 2);
}

proof fn lemma_chars_differ(a: Seq<char>, b: Seq<char>, k: int)
    requires
        0 <= k <= a.len(),
        k <= b.len(),
        a.take(k) == b.take(k),
    ensures
        k == a.len() && k < b.len() ==> chars_less(a, b) && !chars_less(b, a),
        k < a.len() && k < b.len() && a[k] != b[k] ==> chars_less(a, b) == (a[k] < b[k]),
    decreases k,
{
    if k > 0 {
        assert(a.take(k)[0] == a[0] && b.take(k)[0] == b[0]);
        assert(a.drop_first().take(k - 1) =~= a.take(k).drop_first());
        assert(b.drop_first().take(k - 1) =~= b.take(k).drop_first());
        lemma_chars_differ(a.drop_first(), b.drop_first(), k - 1);
    }
}

/// A sorted list without repetition names what the list named, each path once and as it was
/// first spelled there.
pub proof fn sorting_keeps_the_paths(v: Seq<Seq<char>>, r: Seq<Seq<char>>, p: Seq<char>)
    requires
        sorted_unique(v, r),
    ensures
        (exists|k: int| 0 <= k < v.len() && components_of(#[trigger] v[k]) == components_of(p))
            <==> (exists|i: int|
            0 <= i < r.len() && components_of(#[trigger] r[i]) == components_of(p)),
        forall|i: int|
            0 <= i < r.len() ==> exists|k: int|
                0 <= k < v.len() && #[trigger] v[k] == #[trigger] r[i] && forall|m: int|
                    0 <= m < k ==> components_of(#[trigger] v[m]) != components_of(r[i]),
        forall|i: int, j: int|
            0 <= i < j < r.len() ==> components_of(#[trigger] r[i]) != components_of(#[trigger] r[j]),
{
    assert(sorted_list(v, r)) by {
        reveal(sorted_list);
    }
    lemma_sorting_keeps(v, r, p);
}

proof fn lemma_sorting_keeps(v: Seq<Seq<char>>, r: Seq<Seq<char>>, p: Seq<char>)
    requires
        sorted_list(v, r),
    ensures
        (exists|k: int| 0 <= k < v.len() && components_of(#[trigger] v[k]) == components_of(p))
            <==> (exists|i: int|
            0 <= i < r.len() && components_of(#[trigger] r[i]) == components_of(p)),
        forall|i: int|
            0 <= i < r.len() ==> exists|k: int|
                0 <= k < v.len() && #[trigger] v[k] == #[trigger] r[i] && forall|m: int|
                    0 <= m < k ==> components_of(#[trigger] v[m]) != components_of(r[i]),
        forall|i: int, j: int|
            0 <= i < j < r.len() ==> components_of(#[trigger] r[i]) != components_of(#[trigger] r[j]),
{
    if exists|k: int| 0 <= k < v.len() && components_of(#[trigger] v[k]) == components_of(p) {
        let k = choose|k: int|
            0 <= k < v.len() && components_of(#[trigger] v[k]) == components_of(p);
        lemma_is_named(v, r, k);
        let i = choose|i: int| 0 <= i < r.len() && same_path(#[trigger] r[i], v[k]);
        assert(components_of(r[i]) == components_of(p));
    }
    assert forall|i: int| 0 <= i < r.len() implies exists|k: int|
        0 <= k < v.len() && #[trigger] v[k] == #[trigger] r[i] && forall|m: int|
            0 <= m < k ==> components_of(#[trigger] v[m]) != components_of(r[i]) by {
        lemma_is_first(v, r, i);
        let k = choose|k: int|
            0 <= k < v.len() && #[trigger] v[k] == r[i] && forall|m: int|
                0 <= m < k ==> !same_path(#[trigger] v[m], r[i]);
        assert forall|m: int| 0 <= m < k implies components_of(#[trigger] v[m]) != components_of(
            r[i],
        ) by {
            assert(!same_path(v[m], r[i]));
        }
    }
    if exists|i: int| 0 <= i < r.len() && components_of(#[trigger] r[i]) == components_of(p) {
        let i = choose|i: int|
            0 <= i < r.len() && components_of(#[trigger] r[i]) == components_of(p);
        lemma_is_first(v, r, i);
        let k = choose|k: int| 0 <= k < v.len() && #[trigger] v[k] == r[i];
        assert(components_of(v[k]) == components_of(p));
    }
    assert forall|i: int, j: int| 0 <= i < j < r.len() implies components_of(#[trigger] r[i])
        != components_of(#[trigger] r[j]) by {
        lemma_in_order(v, r, i, j);
        lemma_components_total(components_of(r[i]), components_of(r[i]));
    }
}

} // verus!
