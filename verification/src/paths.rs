//! Paths as texts: slash-separated components, joining, prefixes, file names and extensions.
//!
//! A path is read as a sequence of components. A leading slash is a component of its own;
//! empty components and a `.` that is not the first component do not count.

use vstd::prelude::*;

use crate::text::{append_chars, chars_of, string_of, texts};

verus! {

/// Where the stretch without slashes that starts at `i` ends.
pub open spec fn seg_end(p: Seq<char>, i: int) -> int
    decreases p.len() - i,
{
    if i >= p.len() {
        p.len() as int
    } else if p[i] == '/' {
        i
    } else {
        seg_end(p, i + 1)
    }
}

/// Whether the stretch from `i` to `e` is a component.
pub open spec fn counts(p: Seq<char>, i: int, e: int) -> bool {
    i < e && !(e == i + 1 && p[i] == '.' && i > 0)
}

/// A stretch ends at the next slash or at the end of the path.
pub proof fn lemma_seg_end(p: Seq<char>, i: int)
    requires
        0 <= i <= p.len(),
    ensures
        i <= seg_end(p, i) <= p.len(),
        forall|k: int| i <= k < seg_end(p, i) ==> p[k] != '/',
        seg_end(p, i) < p.len() ==> p[seg_end(p, i)] == '/',
    decreases p.len() - i,
{
    if i < p.len() && p[i] != '/' {
        lemma_seg_end(p, i + 1);
    }
}

/// The components from position `i` on, each as the positions between which it stands.
pub open spec fn spans_from(p: Seq<char>, i: int) -> Seq<(int, int)>
    decreases p.len() + 1 - i,
{
    if i < 0 || i >= p.len() {
        Seq::empty()
    } else {
        proof {
            lemma_seg_end(p, i);
        }
        let e = seg_end(p, i);
        if counts(p, i, e) {
            seq![(i, e)] + spans_from(p, e + 1)
        } else {
            spans_from(p, e + 1)
        }
    }
}

/// The components of a path, each as the positions between which it stands.
pub open spec fn spans(p: Seq<char>) -> Seq<(int, int)> {
    if p.len() > 0 && p[0] == '/' {
        seq![(0int, 1int)] + spans_from(p, 0)
    } else {
        spans_from(p, 0)
    }
}

/// The components of a path. The root is the component `/`.
pub open spec fn components_of(p: Seq<char>) -> Seq<Seq<char>> {
    Seq::new(spans(p).len(), |k: int| p.subrange(spans(p)[k].0, spans(p)[k].1))
}

/// Positions as integers.
pub open spec fn as_ints(s: Seq<(usize, usize)>) -> Seq<(int, int)> {
    Seq::new(s.len(), |k: int| (s[k].0 as int, s[k].1 as int))
}

/// Components lie one behind the other inside the path.
pub proof fn lemma_spans_from(p: Seq<char>, i: int)
    requires
        0 <= i,
    ensures
        forall|k: int|
            0 <= k < spans_from(p, i).len() ==> i <= (#[trigger] spans_from(p, i)[k]).0
                < spans_from(p, i)[k].1 <= p.len(),
        forall|k: int, m: int|
            0 <= k < m < spans_from(p, i).len() ==> (#[trigger] spans_from(p, i)[k]).1
                < (#[trigger] spans_from(p, i)[m]).0,
        forall|k: int, x: int|
            #![trigger spans_from(p, i)[k], p[x]]
            0 <= k < spans_from(p, i).len() && spans_from(p, i)[k].0 <= x < spans_from(p, i)[k].1
                ==> p[x] != '/',
    decreases p.len() + 1 - i,
{
    if i < p.len() {
        lemma_seg_end(p, i);
        let e = seg_end(p, i);
        lemma_spans_from(p, e + 1);
        let rest = spans_from(p, e + 1);
        if counts(p, i, e) {
            let all = spans_from(p, i);
            assert forall|k: int| 0 <= k < all.len() implies i <= (#[trigger] all[k]).0 < all[k].1
                <= p.len() by {
                if k > 0 {
                    assert(all[k] == rest[k - 1]);
                }
            }
            assert forall|k: int, m: int| 0 <= k < m < all.len() implies (#[trigger] all[k]).1 < (
            #[trigger] all[m]).0 by {
                assert(all[m] == rest[m - 1]);
                if k > 0 {
                    assert(all[k] == rest[k - 1]);
                }
            }
            assert forall|k: int, x: int|
                #![trigger all[k], p[x]]
                0 <= k < all.len() && all[k].0 <= x < all[k].1 implies p[x] != '/' by {
                if k > 0 {
                    assert(all[k] == rest[k - 1]);
                }
            }
        }
    }
}

/// Components lie one behind the other inside the path.
pub proof fn lemma_spans(p: Seq<char>)
    ensures
        forall|k: int|
            0 <= k < spans(p).len() ==> 0 <= (#[trigger] spans(p)[k]).0 < spans(p)[k].1 <= p.len(),
        forall|k: int, m: int|
            0 <= k < m < spans(p).len() ==> (#[trigger] spans(p)[k]).1 <= (#[trigger] spans(p)[m]).0,
{
    lemma_spans_from(p, 0);
    if p.len() > 0 && p[0] == '/' {
        let rest = spans_from(p, 0);
        let all = spans(p);
        assert(seg_end(p, 0) == 0);
        lemma_spans_from(p, 1);
        assert(rest == spans_from(p, 1));
        assert forall|k: int| 0 <= k < all.len() implies 0 <= (#[trigger] all[k]).0 < all[k].1
            <= p.len() by {
            if k > 0 {
                assert(all[k] == rest[k - 1]);
            }
        }
        assert forall|k: int, m: int| 0 <= k < m < all.len() implies (#[trigger] all[k]).1 <= (
        #[trigger] all[m]).0 by {
            assert(all[m] == rest[m - 1]);
            if k > 0 {
                assert(all[k] == rest[k - 1]);
            }
        }
    }
}

/// Find the components of a path.
pub fn component_spans(p: &[char]) -> (r: Vec<(usize, usize)>)
    ensures
        as_ints(r@) == spans(p@),
{
    let mut out: Vec<(usize, usize)> = Vec::new();
    if p.len() > 0 && p[0] == '/' {
        out.push((0, 1));
    }
    let len: usize = p.len();
    let mut i: usize = 0;
    assert(as_ints(out@) + spans_from(p@, 0) =~= spans(p@));
    while i < len
        invariant
            i <= len == p@.len(),
            as_ints(out@) + spans_from(p@, i as int) == spans(p@),
        decreases len - i,
    {
        let mut e: usize = i;
        proof {
            lemma_seg_end(p@, i as int);
        }
        while e < len && p[e] != '/'
            invariant
                i <= e <= len == p@.len(),
                seg_end(p@, e as int) == seg_end(p@, i as int),
            decreases len - e,
        {
            e += 1;
        }
        let ghost before = out@;
        if i < e && !(e == i + 1 && p[i] == '.' && i > 0) {
            out.push((i, e));
            proof {
                assert(as_ints(out@) =~= as_ints(before).push((i as int, e as int)));
                assert(as_ints(out@) + spans_from(p@, e + 1) =~= as_ints(before) + spans_from(
                    p@,
                    i as int,
                ));
            }
        }
        if e == len {
            assert(spans_from(p@, e + 1).len() == 0);
            assert(as_ints(out@) + spans_from(p@, e + 1) =~= as_ints(out@));
            return out;
        }
        i = e + 1;
    }
    assert(as_ints(out@) + spans_from(p@, i as int) =~= as_ints(out@));
    out
}

/// The components of a path.
pub fn components(path: &str) -> (r: Vec<String>)
    ensures
        texts(r@) == components_of(path@),
{
    let v = chars_of(path);
    let s = component_spans(v.as_slice());
    proof {
        lemma_spans(v@);
    }
    let mut out: Vec<String> = Vec::new();
    let mut i: usize = 0;
    while i < s.len()
        invariant
            i <= s@.len(),
            as_ints(s@) == spans(v@),
            out@.len() == i,
            forall|k: int|
                0 <= k < spans(v@).len() ==> 0 <= (#[trigger] spans(v@)[k]).0 < spans(v@)[k].1
                    <= v@.len(),
            forall|k: int|
                0 <= k < i ==> (#[trigger] out@[k])@ == v@.subrange(spans(v@)[k].0, spans(v@)[k].1),
        decreases s@.len() - i,
    {
        assert(as_ints(s@)[i as int] == spans(v@)[i as int]);
        out.push(string_of(v.as_slice(), s[i].0, s[i].1));
        i += 1;
    }
    assert(as_ints(s@).len() == s@.len());
    assert(texts(out@) =~= components_of(path@));
    out
}

/// Whether a path starts at the root.
pub open spec fn is_absolute(p: Seq<char>) -> bool {
    p.len() > 0 && p[0] == '/'
}

/// A path below `base`: an absolute `rel` stands for itself, any other is appended behind a
/// slash.
pub open spec fn joined(base: Seq<char>, rel: Seq<char>) -> Seq<char> {
    if is_absolute(rel) {
        rel
    } else if base.len() == 0 || base.last() == '/' {
        base + rel
    } else {
        base.push('/') + rel
    }
}

/// Join two paths.
pub fn join(base: &str, rel: &str) -> (r: String)
    ensures
        r@ == joined(base@, rel@),
{
    let b = chars_of(base);
    let v = chars_of(rel);
    let mut out = String::new();
    if v.len() > 0 && v[0] == '/' {
        append_chars(&mut out, v.as_slice());
        assert(out@ =~= rel@);
        return out;
    }
    append_chars(&mut out, b.as_slice());
    assert(out@ =~= base@);
    if b.len() > 0 && b[b.len() - 1] != '/' {
        out.push('/');
    }
    append_chars(&mut out, v.as_slice());
    out
}

/// The components of `base` are the first components of `p`.
pub open spec fn path_starts_with(p: Seq<char>, base: Seq<char>) -> bool {
    let a = components_of(p);
    let b = components_of(base);
    b.len() <= a.len() && a.take(b.len() as int) == b
}

/// The part of a path behind its first `n` components: from the start of the next component
/// to the end of the last one.
pub open spec fn behind(p: Seq<char>, n: int) -> Seq<char> {
    let s = spans(p);
    if 0 <= n < s.len() {
        p.subrange(s[n].0, s.last().1)
    } else {
        Seq::empty()
    }
}

/// A path relative to `base`, where it starts with `base`.
pub open spec fn stripped(p: Seq<char>, base: Seq<char>) -> Option<Seq<char>> {
    if path_starts_with(p, base) {
        Some(behind(p, components_of(base).len() as int))
    } else {
        None
    }
}

/// Whether the same components stand between positions `x` of `a` and `y` of `b`.
fn same_component(a: &[char], x: (usize, usize), b: &[char], y: (usize, usize)) -> (r: bool)
    requires
        x.0 <= x.1 <= a@.len(),
        y.0 <= y.1 <= b@.len(),
    ensures
        r == (a@.subrange(x.0 as int, x.1 as int) == b@.subrange(y.0 as int, y.1 as int)),
{
    let ghost p = a@.subrange(x.0 as int, x.1 as int);
    let ghost q = b@.subrange(y.0 as int, y.1 as int);
    if x.1 - x.0 != y.1 - y.0 {
        assert(p.len() != q.len());
        return false;
    }
    let mut k: usize = 0;
    while k < x.1 - x.0
        invariant
            x.0 <= x.1 <= a@.len(),
            y.0 <= y.1 <= b@.len(),
            x.1 - x.0 == y.1 - y.0,
            k <= x.1 - x.0,
            p == a@.subrange(x.0 as int, x.1 as int),
            q == b@.subrange(y.0 as int, y.1 as int),
            forall|j: int| 0 <= j < k ==> p[j] == q[j],
        decreases x.1 - x.0 - k,
    {
        assert(p[k as int] == a@[x.0 + k]);
        assert(q[k as int] == b@[y.0 + k]);
        if a[x.0 + k] != b[y.0 + k] {
            return false;
        }
        k += 1;
    }
    assert(p =~= q);
    true
}

/// A path relative to `base`, where it starts with `base`.
pub fn strip_prefix(path: &str, base: &str) -> (r: Option<String>)
    ensures
        match r {
            Some(t) => stripped(path@, base@) == Some(t@),
            None => stripped(path@, base@) is None,
        },
{
    let p = chars_of(path);
    let b = chars_of(base);
    let ps = component_spans(p.as_slice());
    let bs = component_spans(b.as_slice());
    let ghost pc = components_of(p@);
    let ghost bc = components_of(b@);
    proof {
        lemma_spans(p@);
        lemma_spans(b@);
        assert(as_ints(ps@).len() == ps@.len());
        assert(as_ints(bs@).len() == bs@.len());
    }
    if bs.len() > ps.len() {
        return None;
    }
    let mut i: usize = 0;
    while i < bs.len()
        invariant
            i <= bs@.len() <= ps@.len(),
            as_ints(ps@) == spans(p@),
            as_ints(bs@) == spans(b@),
            pc == components_of(p@),
            bc == components_of(b@),
            bc.len() == bs@.len(),
            pc.len() == ps@.len(),
            forall|k: int|
                0 <= k < spans(p@).len() ==> 0 <= (#[trigger] spans(p@)[k]).0 < spans(p@)[k].1
                    <= p@.len(),
            forall|k: int|
                0 <= k < spans(b@).len() ==> 0 <= (#[trigger] spans(b@)[k]).0 < spans(b@)[k].1
                    <= b@.len(),
            forall|k: int| 0 <= k < i ==> pc[k] == bc[k],
            p@ == path@,
            b@ == base@,
        decreases bs@.len() - i,
    {
        assert(as_ints(ps@)[i as int] == spans(p@)[i as int]);
        assert(as_ints(bs@)[i as int] == spans(b@)[i as int]);
        if !same_component(p.as_slice(), ps[i], b.as_slice(), bs[i]) {
            assert(pc.take(bc.len() as int)[i as int] != bc[i as int]);
            return None;
        }
        i += 1;
    }
    assert(pc.take(bc.len() as int) =~= bc);
    if bs.len() == ps.len() {
        let r = String::new();
        assert(r@ =~= Seq::<char>::empty());
        return Some(r);
    }
    let n: usize = bs.len();
    let last: usize = ps.len() - 1;
    proof {
        assert(as_ints(ps@)[n as int] == spans(p@)[n as int]);
        assert(as_ints(ps@)[last as int] == spans(p@)[last as int]);
        if n < last {
            assert(spans(p@)[n as int].1 <= spans(p@)[last as int].0);
        }
    }
    Some(string_of(p.as_slice(), ps[n].0, ps[last].1))
}

/// Whether a path lies at or below `base`.
pub fn starts_with(path: &str, base: &str) -> (r: bool)
    ensures
        r == path_starts_with(path@, base@),
{
    match strip_prefix(path, base) {
        Some(_) => true,
        None => false,
    }
}

/// Two texts name the same path: they have the same components.
pub open spec fn same_path(a: Seq<char>, b: Seq<char>) -> bool {
    components_of(a) == components_of(b)
}

/// Whether two texts name the same path.
pub fn is_same_path(a: &str, b: &str) -> (r: bool)
    ensures
        r == same_path(a@, b@),
{
    let below = starts_with(a, b);
    let above = starts_with(b, a);
    proof {
        let x = components_of(a@);
        let y = components_of(b@);
        if x == y {
            assert(x.take(y.len() as int) =~= y);
        } else if x.len() == y.len() {
            assert(x.take(y.len() as int) =~= x);
        }
    }
    below && above
}

/// The last component of a path, unless it is the root, `.` or `..`.
pub open spec fn name_of(p: Seq<char>) -> Option<Seq<char>> {
    let c = components_of(p);
    if c.len() > 0 && c.last() != seq!['/'] && c.last() != seq!['.'] && c.last() != seq!['.', '.'] {
        Some(c.last())
    } else {
        None
    }
}

/// The last component of a path, unless it is the root, `.` or `..`.
pub fn file_name(path: &str) -> (r: Option<String>)
    ensures
        match r {
            Some(t) => name_of(path@) == Some(t@),
            None => name_of(path@) is None,
        },
{
    let v = chars_of(path);
    let s = component_spans(v.as_slice());
    proof {
        lemma_spans(v@);
        assert(as_ints(s@).len() == s@.len());
    }
    if s.len() == 0 {
        return None;
    }
    let (from, to) = s[s.len() - 1];
    let ghost c = v@.subrange(from as int, to as int);
    proof {
        assert(as_ints(s@)[s@.len() - 1] == spans(v@)[s@.len() - 1]);
        assert(components_of(path@).last() == c);
        assert(c[0] == v@[from as int]);
        if to - from == 1 {
            if v@[from as int] == '/' {
                assert(c =~= seq!['/']);
            }
            if v@[from as int] == '.' {
                assert(c =~= seq!['.']);
            }
        } else if to - from == 2 {
            assert(c[1] == v@[from + 1]);
            if v@[from as int] == '.' && v@[from + 1] == '.' {
                assert(c =~= seq!['.', '.']);
            }
        }
        assert(seq!['/'].len() == 1 && seq!['/'][0] == '/');
        assert(seq!['.'].len() == 1 && seq!['.'][0] == '.');
        assert(seq!['.', '.'].len() == 2 && seq!['.', '.'][0] == '.' && seq!['.', '.'][1] == '.');
    }
    if to - from == 1 && (v[from] == '/' || v[from] == '.') {
        return None;
    }
    if to - from == 2 && v[from] == '.' && v[from + 1] == '.' {
        return None;
    }
    Some(string_of(v.as_slice(), from, to))
}

/// The position of the last dot of a name, or -1.
pub open spec fn last_dot(name: Seq<char>) -> int
    decreases name.len(),
{
    if name.len() == 0 {
        -1
    } else if name.last() == '.' {
        name.len() - 1
    } else {
        last_dot(name.drop_last())
    }
}

/// The extension of a path: what stands in its file name behind the last dot, if that dot
/// is not the first character.
pub open spec fn extension_of(p: Seq<char>) -> Option<Seq<char>> {
    match name_of(p) {
        Some(name) => if last_dot(name) > 0 {
            Some(name.skip(last_dot(name) + 1))
        } else {
            None
        },
        None => None,
    }
}

/// The extension of a path.
pub fn extension(path: &str) -> (r: Option<String>)
    ensures
        match r {
            Some(t) => extension_of(path@) == Some(t@),
            None => extension_of(path@) is None,
        },
{
    let name = match file_name(path) {
        Some(n) => n,
        None => {
            return None;
        },
    };
    let v = chars_of(name.as_str());
    let mut i: usize = v.len();
    assert(v@.take(i as int) =~= v@);
    while i > 0
        invariant
            i <= v@.len(),
            last_dot(v@) == last_dot(v@.take(i as int)),
            name_of(path@) == Some(v@),
        decreases i,
    {
        assert(v@.take(i as int).last() == v@[i - 1]);
        assert(v@.take(i as int).drop_last() =~= v@.take(i - 1));
        if v[i - 1] == '.' {
            if i == 1 {
                return None;
            }
            assert(v@.skip(i as int) =~= v@.subrange(i as int, v@.len() as int));
            return Some(string_of(v.as_slice(), i, v.len()));
        }
        i -= 1;
    }
    None
}

/// A relative path without a leading `.` component and without anything behind its last
/// component.
pub open spec fn is_plain_relative(rel: Seq<char>) -> bool {
    &&& rel.len() > 0
    &&& rel[0] != '/'
    &&& components_of(rel)[0] != seq!['.']
    &&& spans(rel).last().1 == rel.len()
}

/// Positions moved by `n`.
spec fn moved(s: Seq<(int, int)>, n: int) -> Seq<(int, int)> {
    Seq::new(s.len(), |k: int| (s[k].0 + n, s[k].1 + n))
}

/// A slash at the end adds no component.
proof fn lemma_spans_slash(p: Seq<char>, i: int)
    requires
        0 <= i <= p.len(),
    ensures
        spans_from(p.push('/'), i) == spans_from(p, i),
    decreases p.len() - i,
{
    let q = p.push('/');
    lemma_seg_slash(p, i);
    lemma_seg_end(p, i);
    if i < p.len() {
        let e = seg_end(p, i);
        if e < p.len() {
            lemma_spans_slash(p, e + 1);
        } else {
            assert(spans_from(q, e + 1).len() == 0);
            assert(spans_from(p, e + 1).len() == 0);
            assert(spans_from(q, e + 1) =~= spans_from(p, e + 1));
        }
    } else {
        assert(spans_from(q, i + 1).len() == 0);
        assert(spans_from(q, i) =~= spans_from(p, i));
    }
}

proof fn lemma_seg_slash(p: Seq<char>, i: int)
    requires
        0 <= i <= p.len(),
    ensures
        seg_end(p.push('/'), i) == seg_end(p, i),
    decreases p.len() - i,
{
    if i < p.len() && p[i] != '/' {
        lemma_seg_slash(p, i + 1);
    }
}

/// The stretches of the second of two texts in a row.
proof fn lemma_seg_behind(a: Seq<char>, b: Seq<char>, k: int)
    requires
        0 <= k <= b.len(),
    ensures
        seg_end(a + b, a.len() + k) == a.len() + seg_end(b, k),
    decreases b.len() - k,
{
    if k < b.len() {
        assert((a + b)[a.len() + k] == b[k]);
        if b[k] != '/' {
            lemma_seg_behind(a, b, k + 1);
        }
    }
}

/// The components of the second of two texts in a row.
proof fn lemma_spans_behind(a: Seq<char>, b: Seq<char>, k: int)
    requires
        0 <= k,
        k > 0 || a.len() == 0 || !(seg_end(b, 0) == 1 && b[0] == '.'),
    ensures
        spans_from(a + b, a.len() + k) == moved(spans_from(b, k), a.len() as int),
    decreases b.len() + 1 - k,
{
    let s = a + b;
    if k < b.len() {
        lemma_seg_behind(a, b, k);
        lemma_seg_end(b, k);
        let e = seg_end(b, k);
        assert(s[a.len() + k] == b[k]);
        lemma_spans_behind(a, b, e + 1);
        assert(spans_from(s, a.len() + e + 1) == moved(spans_from(b, e + 1), a.len() as int));
        assert(spans_from(s, a.len() + k) =~= moved(spans_from(b, k), a.len() as int));
    } else {
        assert(spans_from(s, a.len() + k) =~= moved(spans_from(b, k), a.len() as int));
    }
}

/// The components of two texts in a row, the first of which ends with a slash.
proof fn lemma_spans_concat(a: Seq<char>, b: Seq<char>, i: int)
    requires
        0 <= i <= a.len(),
        a.len() == 0 || a.last() == '/',
        a.len() == 0 || !(seg_end(b, 0) == 1 && b[0] == '.'),
    ensures
        spans_from(a + b, i) == spans_from(a, i) + moved(spans_from(b, 0), a.len() as int),
    decreases a.len() - i,
{
    let s = a + b;
    if i == a.len() {
        lemma_spans_behind(a, b, 0);
        assert(spans_from(a, i) + moved(spans_from(b, 0), a.len() as int) =~= moved(
            spans_from(b, 0),
            a.len() as int,
        ));
    } else {
        lemma_seg_before(a, b, i);
        lemma_seg_end(a, i);
        let e = seg_end(a, i);
        assert(s[i] == a[i]);
        lemma_spans_concat(a, b, e + 1);
        assert(spans_from(s, i) =~= spans_from(a, i) + moved(spans_from(b, 0), a.len() as int));
    }
}

proof fn lemma_seg_before(a: Seq<char>, b: Seq<char>, i: int)
    requires
        0 <= i < a.len(),
        a.last() == '/',
    ensures
        seg_end(a + b, i) == seg_end(a, i) < a.len(),
    decreases a.len() - i,
{
    assert((a + b)[i] == a[i]);
    if a[i] != '/' {
        lemma_seg_before(a, b, i + 1);
    }
}

/// What is joined below a directory has the components of the directory followed by its
/// own, and relative to the directory it is itself again.
pub proof fn join_strips_back(root: Seq<char>, rel: Seq<char>)
    requires
        is_plain_relative(rel),
    ensures
        components_of(joined(root, rel)) == components_of(root) + components_of(rel),
        stripped(joined(root, rel), root) == Some(rel),
{
    let a = if root.len() == 0 || root.last() == '/' {
        root
    } else {
        root.push('/')
    };
    let s = joined(root, rel);
    assert(s == a + rel);
    lemma_seg_end(rel, 0);
    let first = seg_end(rel, 0);
    assert(spans_from(rel, 0)[0] == (0int, first));
    assert(spans(rel) == spans_from(rel, 0));
    if first == 1 && rel[0] == '.' {
        assert(components_of(rel)[0] =~= seq!['.']);
    }
    lemma_spans_concat(a, rel, 0);
    if a != root {
        lemma_spans_slash(root, 0);
    }
    let n = a.len() as int;
    let x = spans(root);
    let y = spans(rel);
    assert(spans(s) =~= x + moved(y, n)) by {
        if a.len() > 0 {
            assert(s[0] == a[0]);
            if root.len() > 0 {
                assert(a[0] == root[0]);
            }
        }
    }
    lemma_spans(root);
    lemma_spans(rel);
    let c = components_of(s);
    let d = components_of(root) + components_of(rel);
    assert forall|k: int| 0 <= k < c.len() implies c[k] == d[k] by {
        if k < x.len() {
            assert(spans(s)[k] == x[k]);
            assert(s.subrange(x[k].0, x[k].1) =~= root.subrange(x[k].0, x[k].1));
        } else {
            let m = k - x.len();
            assert(spans(s)[k] == (y[m].0 + n, y[m].1 + n));
            assert(s.subrange(y[m].0 + n, y[m].1 + n) =~= rel.subrange(y[m].0, y[m].1));
        }
    }
    assert(c =~= d);
    assert(c.take(components_of(root).len() as int) =~= components_of(root));
    assert(spans(s)[x.len() as int] == (n, first + n));
    assert(spans(s).last() == (y.last().0 + n, y.last().1 + n));
    assert(s.subrange(n, n + rel.len()) =~= rel);
}

/// A text without a slash.
pub open spec fn is_segment(s: Seq<char>) -> bool {
    !s.contains('/')
}

proof fn lemma_segment_end(s: Seq<char>, i: int)
    requires
        is_segment(s),
        0 <= i <= s.len(),
    ensures
        seg_end(s, i) == s.len(),
    decreases s.len() - i,
{
    if i < s.len() {
        assert(s.contains(s[i]));
        lemma_segment_end(s, i + 1);
    }
}

/// A path without a slash is one component, or none where it is empty.
pub proof fn segment_is_a_component(s: Seq<char>)
    requires
        is_segment(s),
    ensures
        s.len() == 0 ==> components_of(s).len() == 0,
        s.len() > 0 ==> components_of(s) == seq![s],
{
    if s.len() > 0 {
        assert(s.contains(s[0]));
        lemma_segment_end(s, 0);
        assert(spans_from(s, s.len() as int + 1).len() == 0);
        assert(spans(s) =~= seq![(0int, s.len() as int)]);
        assert(components_of(s)[0] =~= s);
        assert(components_of(s) =~= seq![s]);
    }
}

/// The components of a path with one more segment behind a slash are those of the path and
/// the segment; an empty segment and a `.` add none. A slash with nothing before it is the
/// root.
pub proof fn components_follow_the_slashes(p: Seq<char>, s: Seq<char>)
    requires
        is_segment(s),
    ensures
        p.len() == 0 ==> components_of(p.push('/') + s) == (if s.len() == 0 || s == seq!['.'] {
            seq![seq!['/']]
        } else {
            seq![seq!['/'], s]
        }),
        p.len() > 0 ==> components_of(p.push('/') + s) == (if s.len() == 0 || s == seq!['.'] {
            components_of(p)
        } else {
            components_of(p).push(s)
        }),
{
    let a = p.push('/');
    let all = a + s;
    let n = a.len() as int;
    lemma_segment_end(s, 0);
    if s.len() == 0 {
        assert(all =~= a);
    } else {
        assert(s.contains(s[0]));
    }
    if s == seq!['.'] {
        assert(s[0] == '.');
    }
    if s.len() == 1 && s[0] == '.' {
        assert(s =~= seq!['.']);
    }
    if s.len() == 0 || s == seq!['.'] {
        lemma_spans_dot(a, s, 0);
    } else {
        lemma_spans_concat(a, s, 0);
        assert(spans_from(s, s.len() as int + 1).len() == 0);
        assert(spans_from(s, 0) =~= seq![(0int, s.len() as int)]);
        assert(moved(spans_from(s, 0), n) =~= seq![(n, n + s.len())]);
    }
    lemma_spans_slash(p, 0);
    assert(all[0] == a[0]);
    lemma_spans(p);
    let counts_more = !(s.len() == 0 || s == seq!['.']);
    let more: Seq<(int, int)> = if counts_more {
        seq![(n, n + s.len())]
    } else {
        Seq::empty()
    };
    assert(spans_from(all, 0) =~= spans_from(p, 0) + more);
    if p.len() == 0 {
        assert(spans_from(p, 0).len() == 0);
        assert(spans(all) =~= seq![(0int, 1int)] + more);
        assert(all.subrange(0, 1) =~= seq!['/']);
        if counts_more {
            assert(all.subrange(n, n + s.len()) =~= s);
            assert(components_of(all) =~= seq![seq!['/'], s]);
        } else {
            assert(components_of(all) =~= seq![seq!['/']]);
        }
    } else {
        assert(a[0] == p[0]);
        assert(spans(all) =~= spans(p) + more);
        let c = components_of(all);
        let d = components_of(p);
        assert forall|k: int| 0 <= k < d.len() implies c[k] == d[k] by {
            assert(spans(all)[k] == spans(p)[k]);
            assert(all.subrange(spans(p)[k].0, spans(p)[k].1) =~= p.subrange(
                spans(p)[k].0,
                spans(p)[k].1,
            ));
        }
        if counts_more {
            assert(all.subrange(n, n + s.len()) =~= s);
            assert(c[d.len() as int] == s);
            assert(c =~= d.push(s));
        } else {
            assert(c =~= d);
        }
    }
}

/// Nothing, or a `.`, behind a path that ends with a slash adds no component.
proof fn lemma_spans_dot(a: Seq<char>, s: Seq<char>, i: int)
    requires
        0 <= i <= a.len(),
        a.len() > 0,
        a.last() == '/',
        s.len() == 0 || s == seq!['.'],
    ensures
        spans_from(a + s, i) == spans_from(a, i),
    decreases a.len() - i,
{
    let all = a + s;
    if i == a.len() {
        assert(spans_from(a, i).len() == 0);
        if s.len() > 0 {
            assert(s.len() == 1 && s[0] == '.');
            assert(all[i] == '.');
            assert(seg_end(all, i + 1) == all.len());
            assert(seg_end(all, i) == i + 1);
            assert(spans_from(all, i + 2).len() == 0);
        }
        assert(spans_from(all, i) =~= spans_from(a, i));
    } else {
        lemma_seg_before(a, s, i);
        lemma_seg_end(a, i);
        let e = seg_end(a, i);
        lemma_spans_dot(a, s, e + 1);
        assert(all[i] == a[i]);
        assert(spans_from(all, i) =~= spans_from(a, i));
    }
}

/// A path below a directory: the directory, a slash where it does not end with one, and the
/// path. An absolute path stands for itself.
pub proof fn joining_appends(base: Seq<char>, rel: Seq<char>)
    ensures
        rel.len() > 0 && rel[0] == '/' ==> joined(base, rel) == rel,
        (rel.len() == 0 || rel[0] != '/') && base.len() > 0 && base.last() != '/' ==> joined(
            base,
            rel,
        ) == base + seq!['/'] + rel,
        (rel.len() == 0 || rel[0] != '/') && (base.len() == 0 || base.last() == '/') ==> joined(
            base,
            rel,
        ) == base + rel,
        is_absolute(rel) <==> rel.len() > 0 && rel[0] == '/',
{
    if base.len() > 0 && base.last() != '/' {
        assert(base.push('/') + rel =~= base + seq!['/'] + rel);
    }
}

/// A path lies below another if its components go on where those of the other end. Only then
/// it has a form relative to it.
pub proof fn below_means_more_components(p: Seq<char>, base: Seq<char>)
    ensures
        path_starts_with(p, base) <==> exists|rest: Seq<Seq<char>>|
            components_of(p) == #[trigger] (components_of(base) + rest),
        stripped(p, base) is Some <==> path_starts_with(p, base),
        same_path(p, base) <==> components_of(p) == components_of(base),
{
    let a = components_of(p);
    let b = components_of(base);
    if path_starts_with(p, base) {
        assert(a =~= b + a.skip(b.len() as int));
    }
    if exists|rest: Seq<Seq<char>>| a == #[trigger] (b + rest) {
        let rest = choose|rest: Seq<Seq<char>>| a == #[trigger] (b + rest);
        assert(a.take(b.len() as int) =~= b);
    }
}

/// The name of a file is what stands behind the last slash of its path; `.`, `..` and nothing
/// are no names.
pub proof fn name_stands_behind_the_last_slash(dir: Seq<char>, name: Seq<char>)
    requires
        is_segment(name),
        name.len() > 0,
        name != seq!['.'],
        name != seq!['.', '.'],
    ensures
        name_of(name) == Some(name),
        name_of(dir.push('/') + name) == Some(name),
{
    segment_is_a_component(name);
    components_follow_the_slashes(dir, name);
    if name == seq!['/'] {
        assert(name[0] == '/');
        assert(name.contains(name[0]));
    }
    assert(components_of(name).last() == name);
    assert(components_of(dir.push('/') + name).last() == name);
}

/// The extension of a file is what stands behind the last dot of its name; a dot that starts
/// the name does not count.
pub proof fn extension_stands_behind_the_last_dot(path: Seq<char>, stem: Seq<char>, ext: Seq<char>)
    requires
        name_of(path) == Some(stem.push('.') + ext),
        !ext.contains('.'),
    ensures
        stem.len() > 0 ==> extension_of(path) == Some(ext),
        stem.len() == 0 ==> extension_of(path) is None,
{
    let name = stem.push('.') + ext;
    lemma_last_dot(stem, ext);
    assert(name.skip(stem.len() as int + 1) =~= ext);
}

/// A file whose name holds no dot has no extension.
pub proof fn no_dot_no_extension(path: Seq<char>, name: Seq<char>)
    requires
        name_of(path) == Some(name),
        !name.contains('.'),
    ensures
        extension_of(path) is None,
{
    lemma_no_dot(name);
}

proof fn lemma_no_dot(name: Seq<char>)
    requires
        !name.contains('.'),
    ensures
        last_dot(name) == -1,
    decreases name.len(),
{
    if name.len() > 0 {
        let d = name.drop_last();
        assert(name.contains(name[name.len() - 1]));
        assert forall|i: int| 0 <= i < d.len() implies d[i] != '.' by {
            assert(name.contains(name[i]));
        }
        lemma_no_dot(d);
    }
}

proof fn lemma_last_dot(stem: Seq<char>, ext: Seq<char>)
    requires
        !ext.contains('.'),
    ensures
        last_dot(stem.push('.') + ext) == stem.len(),
    decreases ext.len(),
{
    let name = stem.push('.') + ext;
    if ext.len() == 0 {
        assert(name =~= stem.push('.'));
    } else {
        let d = ext.drop_last();
        assert(ext.contains(ext[ext.len() - 1]));
        assert forall|i: int| 0 <= i < d.len() implies d[i] != '.' by {
            assert(ext.contains(ext[i]));
        }
        lemma_last_dot(stem, d);
        assert(name.drop_last() =~= stem.push('.') + d);
        assert(name.last() == ext.last());
    }
}

/// A stretch that ends before a path is cut ends there after it.
proof fn lemma_seg_up_to(p: Seq<char>, i: int, e: int)
    requires
        0 <= i <= e <= p.len(),
        seg_end(p, i) <= e,
    ensures
        seg_end(p.take(e), i) == seg_end(p, i),
    decreases e - i,
{
    lemma_seg_end(p, i);
    if i < e {
        assert(p.take(e)[i] == p[i]);
        if p[i] != '/' {
            lemma_seg_up_to(p, i + 1, e);
        }
    }
}

/// The components of a path up to the end of one of them.
pub proof fn lemma_spans_up_to(p: Seq<char>, i: int, n: int)
    requires
        0 <= i <= p.len(),
        0 <= n < spans_from(p, i).len(),
    ensures
        i < spans_from(p, i)[n].1 <= p.len(),
        spans_from(p.take(spans_from(p, i)[n].1), i) == spans_from(p, i).take(n + 1),
    decreases p.len() - i,
{
    let all = spans_from(p, i);
    lemma_spans_from(p, i);
    lemma_seg_end(p, i);
    let e = all[n].1;
    let q = p.take(e);
    let x = seg_end(p, i);
    if counts(p, i, x) {
        assert(all[0] == (i, x));
        if n == 0 {
            lemma_seg_up_to(p, i, e);
            assert(q[i] == p[i]);
            assert(spans_from(q, x + 1).len() == 0);
            assert(spans_from(q, i) =~= all.take(1));
        } else {
            let rest = spans_from(p, x + 1);
            assert(all[n] == rest[n - 1]);
            lemma_spans_up_to(p, x + 1, n - 1);
            lemma_seg_up_to(p, i, e);
            assert(q[i] == p[i]);
            assert(spans_from(q, i) =~= seq![(i, x)] + spans_from(q, x + 1));
            assert(seq![(i, x)] + rest.take(n) =~= all.take(n + 1));
        }
    } else {
        assert(all == spans_from(p, x + 1));
        assert(x < p.len()) by {
            if x == p.len() {
                assert(spans_from(p, x + 1).len() == 0);
            }
        }
        lemma_spans_up_to(p, x + 1, n);
        lemma_seg_up_to(p, i, e);
        assert(q[i] == p[i]);
        assert(spans_from(q, i) =~= spans_from(q, x + 1));
    }
}

/// From the start of a component on, the components are those that are left.
proof fn lemma_spans_left(p: Seq<char>, i: int, n: int)
    requires
        0 <= i <= p.len(),
        0 <= n < spans_from(p, i).len(),
    ensures
        i <= spans_from(p, i)[n].0 < p.len(),
        spans_from(p, spans_from(p, i)[n].0) == spans_from(p, i).skip(n),
    decreases p.len() - i,
{
    let all = spans_from(p, i);
    lemma_spans_from(p, i);
    lemma_seg_end(p, i);
    let x = seg_end(p, i);
    if counts(p, i, x) {
        if n == 0 {
            assert(all.skip(0) =~= all);
        } else {
            let rest = spans_from(p, x + 1);
            assert(all[n] == rest[n - 1]);
            assert(x < p.len()) by {
                if x == p.len() {
                    assert(spans_from(p, x + 1).len() == 0);
                }
            }
            lemma_spans_left(p, x + 1, n - 1);
            assert(all.skip(n) =~= rest.skip(n - 1));
        }
    } else {
        assert(x < p.len()) by {
            if x == p.len() {
                assert(spans_from(p, x + 1).len() == 0);
            }
        }
        lemma_spans_left(p, x + 1, n);
    }
}

/// A component that does not start the path is no `.`.
proof fn lemma_no_inner_dot(p: Seq<char>, i: int, n: int)
    requires
        0 <= i <= p.len(),
        0 <= n < spans_from(p, i).len(),
    ensures
        ({
            let s = spans_from(p, i)[n];
            &&& s.1 == seg_end(p, s.0)
            &&& counts(p, s.0, s.1)
        }),
    decreases p.len() - i,
{
    let all = spans_from(p, i);
    lemma_seg_end(p, i);
    let x = seg_end(p, i);
    if x == p.len() {
        assert(spans_from(p, x + 1).len() == 0);
    }
    if counts(p, i, x) {
        if n > 0 {
            assert(all[n] == spans_from(p, x + 1)[n - 1]);
            lemma_no_inner_dot(p, x + 1, n - 1);
        }
    } else {
        lemma_no_inner_dot(p, x + 1, n);
    }
}

/// What stands behind the last component adds none.
proof fn lemma_cut_end(p: Seq<char>)
    requires
        spans(p).len() > 0,
    ensures
        0 < spans(p).last().1 <= p.len(),
        spans(p.take(spans(p).last().1)) == spans(p),
{
    let all = spans(p);
    let k = all.len() - 1;
    lemma_spans(p);
    let q = p.take(all[k].1);
    let from = spans_from(p, 0);
    assert(q[0] == p[0]);
    if p[0] == '/' {
        assert(all == seq![(0int, 1int)] + from);
        if k == 0 {
            assert(from.len() == 0);
            assert(q.len() == 1);
            assert(seg_end(q, 0) == 0);
            assert(spans_from(q, 1).len() == 0);
            assert(spans_from(q, 0).len() == 0);
            assert(spans(q) =~= all);
        } else {
            assert(all[k] == from[k - 1]);
            lemma_spans_up_to(p, 0, k - 1);
            assert(from.take(k) =~= from);
            assert(spans(q) =~= all);
        }
    } else {
        assert(all == from);
        lemma_spans_up_to(p, 0, k);
        assert(from.take(k + 1) =~= from);
    }
}

/// The path from the start of a component on has the components that are left.
proof fn lemma_cut_front(q: Seq<char>, n: int)
    requires
        0 <= n < spans(q).len(),
    ensures
        moved(spans(q.skip(spans(q)[n].0)), spans(q)[n].0) == spans(q).skip(n),
{
    let all = spans(q);
    let x = all[n].0;
    let r = q.skip(x);
    lemma_spans(q);
    if x == 0 {
        if n > 0 {
            assert(all[0].1 <= all[n].0);
        }
        assert(r =~= q);
        assert(moved(all, 0) =~= all);
        assert(all.skip(0) =~= all);
    } else {
        let m: int = if q[0] == '/' {
            1
        } else {
            0
        };
        let from = spans_from(q, 0);
        assert(all[n] == from[n - m]);
        lemma_spans_left(q, 0, n - m);
        lemma_no_inner_dot(q, 0, n - m);
        lemma_spans_from(q, 0);
        let a = q.take(x);
        assert(a + r =~= q);
        lemma_seg_behind(a, r, 0);
        assert(r[0] == q[x]);
        lemma_spans_behind(a, r, 0);
        assert(q[x] != '/');
        assert(spans(r) == spans_from(r, 0));
        assert(from.skip(n - m) =~= all.skip(n));
    }
}

/// A path relative to a directory has the components that the directory leaves of it, however
/// the path is spelled, and is a part of it as it is spelled.
pub proof fn relative_path_keeps_components(p: Seq<char>, base: Seq<char>)
    requires
        path_starts_with(p, base),
    ensures
        stripped(p, base) matches Some(r) && components_of(r) == components_of(p).skip(
            components_of(base).len() as int,
        ),
        stripped(p, base) matches Some(r) && exists|a: Seq<char>, z: Seq<char>|
            p == #[trigger] (a + r + z),
{
    let n = components_of(base).len() as int;
    let all = spans(p);
    let r = behind(p, n);
    lemma_spans(p);
    if n == all.len() {
        assert(p =~= p + r + Seq::empty());
        assert(spans_from(r, 0).len() == 0);
        assert(components_of(r) =~= components_of(p).skip(n));
    } else {
        let k = all.len() - 1;
        let x = all[n].0;
        let q = p.take(all[k].1);
        lemma_cut_end(p);
        lemma_cut_front(q, n);
        if n < k {
            assert(all[n].1 <= all[k].0);
        }
        assert(r =~= q.skip(x));
        assert(p =~= p.take(x) + r + p.skip(all[k].1));
        let left = all.skip(n);
        assert(moved(spans(r), x).len() == spans(r).len());
        assert forall|j: int| 0 <= j < left.len() implies components_of(r)[j]
            == components_of(p)[n + j] by {
            assert(moved(spans(r), x)[j] == left[j]);
            let s = all[n + j];
            if n + j < k {
                assert(all[n + j].1 <= all[k].0);
            }
            if j > 0 {
                assert(all[n].1 <= all[n + j].0);
            }
            assert(r.subrange(s.0 - x, s.1 - x) =~= p.subrange(s.0, s.1));
        }
        assert(components_of(r) =~= components_of(p).skip(n));
    }
}

} // verus!
