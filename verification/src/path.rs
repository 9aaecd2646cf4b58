//! File system paths as text.
//!
//! A path is kept as the text that it was given, with `/` as separator. Two texts are the same
//! path where their components are the same: repeated separators and inner `.` segments carry no
//! meaning. A component is written as its own text: `/` for the root, `.`, `..`, or a name.
//!
//! These are POSIX paths on every machine. A drive prefix such as `C:` is a name like any other, `\`
//! is a character of a name, and a path is absolute only where it begins with `/`.

use vstd::prelude::*;

use crate::text::{chars_of, find_char, first_at, joined, last_at, lemma_first_at, lemma_last_at};
use crate::text::{lemma_texts_push, opt_text, rsplit_once, same_texts, text_between, texts};

verus! {

/// Whether a path starts at the root.
pub open spec fn is_absolute(p: Seq<char>) -> bool {
    p.len() > 0 && p[0] == '/'
}

/// Where the segment that starts at `i` ends.
pub open spec fn segment_end(p: Seq<char>, i: int) -> int {
    i + first_at(p.skip(i), '/')
}

/// The places of the components from position `i` on, where a lone `.` is no component.
pub open spec fn tail_spans(p: Seq<char>, i: int) -> Seq<(int, int)>
    decreases p.len() - i,
    when 0 <= i
    via tail_spans_decreases
{
    if i >= p.len() {
        Seq::<(int, int)>::empty()
    } else if p[i] == '/' {
        tail_spans(p, i + 1)
    } else {
        let j = segment_end(p, i);
        if j == i + 1 && p[i] == '.' {
            tail_spans(p, j)
        } else {
            seq![(i, j)] + tail_spans(p, j)
        }
    }
}

#[via_fn]
proof fn tail_spans_decreases(p: Seq<char>, i: int) {
    if i < p.len() && p[i] != '/' {
        lemma_segment_end(p, i);
    }
}

/// Whether a path begins with a `.` segment, which counts as a component there.
pub open spec fn starts_here(p: Seq<char>) -> bool {
    p.len() > 0 && p[0] == '.' && (p.len() == 1 || p[1] == '/')
}

/// The places of a path's components, as half-open ranges of characters.
pub open spec fn spans(p: Seq<char>) -> Seq<(int, int)> {
    if is_absolute(p) || starts_here(p) {
        seq![(0int, 1int)] + tail_spans(p, 1)
    } else {
        tail_spans(p, 0)
    }
}

/// The components of a path.
pub open spec fn components(p: Seq<char>) -> Seq<Seq<char>> {
    Seq::new(spans(p).len(), |i: int| p.subrange(spans(p)[i].0, spans(p)[i].1))
}

proof fn lemma_segment_end(p: Seq<char>, i: int)
    requires
        0 <= i < p.len(),
        p[i] != '/',
    ensures
        i < segment_end(p, i) <= p.len(),
        forall|k: int| i <= k < segment_end(p, i) ==> p[k] != '/',
        segment_end(p, i) < p.len() ==> p[segment_end(p, i)] == '/',
{
    let rest = p.skip(i);
    lemma_first_at(rest, '/');
    assert(rest[0] == p[i]);
    assert forall|k: int| i <= k < segment_end(p, i) implies p[k] != '/' by {
        assert(rest[k - i] == p[k]);
    }
}

proof fn lemma_segment_end_is(p: Seq<char>, i: int, j: int)
    requires
        0 <= i < j <= p.len(),
        forall|k: int| i <= k < j ==> p[k] != '/',
        j < p.len() ==> p[j] == '/',
    ensures
        segment_end(p, i) == j,
{
    lemma_segment_end(p, i);
}

/// Components lie apart and in order.
proof fn lemma_tail_spans(p: Seq<char>, i: int)
    requires
        0 <= i <= p.len(),
    ensures
        forall|k: int|
            0 <= k < tail_spans(p, i).len() ==> i <= (#[trigger] tail_spans(p, i)[k]).0
                < tail_spans(p, i)[k].1 <= p.len(),
        forall|k: int, l: int|
            0 <= k < l < tail_spans(p, i).len() ==> (#[trigger] tail_spans(p, i)[k]).1 <= (
            #[trigger] tail_spans(p, i)[l]).0,
    decreases p.len() - i,
{
    if i < p.len() {
        if p[i] == '/' {
            lemma_tail_spans(p, i + 1);
            assert(tail_spans(p, i) == tail_spans(p, i + 1));
        } else {
            let j = segment_end(p, i);
            lemma_segment_end(p, i);
            lemma_tail_spans(p, j);
            if j == i + 1 && p[i] == '.' {
                assert(tail_spans(p, i) == tail_spans(p, j));
            }
            if !(j == i + 1 && p[i] == '.') {
                let r = tail_spans(p, j);
                let s = tail_spans(p, i);
                assert(s =~= seq![(i, j)] + r);
                assert forall|k: int| 0 <= k < s.len() implies i <= (#[trigger] s[k]).0 < s[k].1
                    <= p.len() by {
                    if k > 0 {
                        assert(s[k] == r[k - 1]);
                    }
                }
                assert forall|k: int, l: int| 0 <= k < l < s.len() implies (#[trigger] s[k]).1 <= (
                #[trigger] s[l]).0 by {
                    assert(s[l] == r[l - 1]);
                    if k > 0 {
                        assert(s[k] == r[k - 1]);
                    }
                }
            }
        }
    }
}

pub proof fn lemma_spans(p: Seq<char>)
    ensures
        forall|k: int|
            0 <= k < spans(p).len() ==> 0 <= (#[trigger] spans(p)[k]).0 < spans(p)[k].1 <= p.len(),
        forall|k: int, l: int|
            0 <= k < l < spans(p).len() ==> (#[trigger] spans(p)[k]).1 <= (#[trigger] spans(p)[l]).0,
        spans(p).len() > 0 ==> spans(p)[0].0 == 0,
        is_absolute(p) ==> spans(p).len() > 0 && spans(p)[0] == (0int, 1int),
        spans(p).len() == 0 <==> p.len() == 0,
{
    if is_absolute(p) || starts_here(p) {
        lemma_tail_spans(p, 1);
        let r = tail_spans(p, 1);
        let s = spans(p);
        assert forall|k: int, l: int| 0 <= k < l < s.len() implies (#[trigger] s[k]).1 <= (
        #[trigger] s[l]).0 by {
            assert(s[l] == r[l - 1]);
            if k > 0 {
                assert(s[k] == r[k - 1]);
            }
        }
        assert forall|k: int| 0 <= k < s.len() implies 0 <= (#[trigger] s[k]).0 < s[k].1
            <= p.len() by {
            if k > 0 {
                assert(s[k] == r[k - 1]);
            }
        }
    } else {
        lemma_tail_spans(p, 0);
        if p.len() > 0 {
            lemma_segment_end(p, 0);
            let j = segment_end(p, 0);
            if j == 1 && p[0] == '.' {
                assert(false);
            }
            assert(spans(p)[0] == (0int, j));
        }
    }
}

/// Cutting a path's text behind a component keeps the components up to it.
proof fn lemma_tail_spans_cut(p: Seq<char>, i: int, k: int)
    requires
        0 <= i <= p.len(),
        0 <= k < tail_spans(p, i).len(),
    ensures
        tail_spans(p.take(tail_spans(p, i)[k].1), i) == tail_spans(p, i).take(k + 1),
    decreases p.len() - i,
{
    lemma_tail_spans(p, i);
    let e = tail_spans(p, i)[k].1;
    let q = p.take(e);
    if p[i] == '/' {
        lemma_tail_spans_cut(p, i + 1, k);
    } else {
        let j = segment_end(p, i);
        lemma_segment_end(p, i);
        if j == i + 1 && p[i] == '.' {
            lemma_tail_spans(p, j);
            lemma_segment_end_is(q, i, j);
            lemma_tail_spans_cut(p, j, k);
        } else if k == 0 {
            assert(e == j);
            lemma_segment_end_is(q, i, j);
            assert(tail_spans(q, j) =~= Seq::<(int, int)>::empty());
            assert(tail_spans(p, i).take(1) =~= seq![(i, j)]);
            assert(tail_spans(q, i) =~= seq![(i, j)]);
        } else {
            let r = tail_spans(p, j);
            assert(tail_spans(p, i)[k] == r[k - 1]);
            lemma_tail_spans(p, j);
            lemma_segment_end_is(q, i, j);
            lemma_tail_spans_cut(p, j, k - 1);
            assert(tail_spans(p, i).take(k + 1) =~= seq![(i, j)] + r.take(k));
        }
    }
}

/// The text of `p` up to the end of its component `k` is the path of the first `k + 1` components.
pub proof fn lemma_cut_components(p: Seq<char>, k: int)
    requires
        0 <= k < spans(p).len(),
    ensures
        spans(p.take(spans(p)[k].1)) == spans(p).take(k + 1),
        components(p.take(spans(p)[k].1)) == components(p).take(k + 1),
{
    lemma_spans(p);
    let e = spans(p)[k].1;
    let q = p.take(e);
    if is_absolute(p) || starts_here(p) {
        let r = tail_spans(p, 1);
        if k == 0 {
            assert(e == 1);
            assert(tail_spans(q, 1) =~= Seq::<(int, int)>::empty());
            assert(spans(p).take(1) =~= seq![(0int, 1int)]);
            assert(spans(q) =~= seq![(0int, 1int)]);
        } else {
            assert(spans(p)[k] == r[k - 1]);
            lemma_tail_spans(p, 1);
            lemma_tail_spans_cut(p, 1, k - 1);
            assert(spans(p).take(k + 1) =~= seq![(0int, 1int)] + r.take(k));
        }
    } else {
        lemma_tail_spans_cut(p, 0, k);
        assert(q[0] == p[0]);
        if starts_here(q) {
            if q.len() > 1 {
                assert(q[1] == p[1]);
            }
            lemma_segment_end(p, 0);
            let j = segment_end(p, 0);
            assert(spans(p)[0] == (0int, j));
            assert(j <= e);
            assert(false);
        }
    }
    assert forall|i: int| 0 <= i < k + 1 implies components(q)[i] == components(p)[i] by {
        assert(spans(q)[i] == spans(p)[i]);
        assert(spans(p)[i].1 <= e) by {
            if i < k {
                assert(spans(p)[i].1 <= spans(p)[k].0);
            }
        }
        assert(q.subrange(spans(p)[i].0, spans(p)[i].1) =~= p.subrange(
            spans(p)[i].0,
            spans(p)[i].1,
        ));
    }
    assert(components(q) =~= components(p).take(k + 1));
}

/// The directory that holds a path: `None` for the root and for the empty path.
pub open spec fn parent_of(p: Seq<char>) -> Option<Seq<char>> {
    let n = spans(p).len();
    if n == 0 || (n == 1 && is_absolute(p)) {
        None
    } else if n == 1 {
        Some(Seq::<char>::empty())
    } else {
        Some(p.take(spans(p)[n - 2].1))
    }
}

/// A parent has the components of the path but for the last.
pub proof fn law_parent_drops_last_component(p: Seq<char>)
    ensures
        match parent_of(p) {
            Some(q) => components(p).len() > 0 && components(q) == components(p).drop_last(),
            None => components(p).len() == 0 || components(p) == seq![seq!['/']],
        },
{
    lemma_spans(p);
    let n = spans(p).len();
    if n >= 2 {
        lemma_cut_components(p, n - 2);
        assert(components(p).take(n - 1) =~= components(p).drop_last());
    } else if n == 1 && !is_absolute(p) {
        assert(components(Seq::<char>::empty()) =~= components(p).drop_last());
    } else if n == 1 {
        assert(p.subrange(0, 1) =~= seq!['/']);
        assert(components(p) =~= seq![seq!['/']]);
    }
}

/// The last component of a path, where it is a name.
pub open spec fn file_name_of(p: Seq<char>) -> Option<Seq<char>> {
    let c = components(p);
    if c.len() == 0 || c.last() == seq!['/'] || c.last() == seq!['.'] || c.last() == seq!['.', '.'] {
        None
    } else {
        Some(c.last())
    }
}

/// What follows the last dot of a path's name, where something precedes that dot.
pub open spec fn extension_of(p: Seq<char>) -> Option<Seq<char>> {
    match file_name_of(p) {
        Some(name) => if last_at(name, '.') > 0 {
            Some(name.skip(last_at(name, '.') + 1))
        } else {
            None
        },
        None => None,
    }
}

/// A path's name without its extension.
pub open spec fn file_stem_of(p: Seq<char>) -> Option<Seq<char>> {
    match file_name_of(p) {
        Some(name) => if last_at(name, '.') > 0 {
            Some(name.take(last_at(name, '.')))
        } else {
            Some(name)
        },
        None => None,
    }
}

/// `p` read from the directory `base`.
pub open spec fn path_joined(base: Seq<char>, p: Seq<char>) -> Seq<char> {
    if is_absolute(p) {
        p
    } else if base.len() == 0 || base.last() == '/' {
        base + p
    } else {
        base.push('/') + p
    }
}

/// Whether `base` is `p` itself or a directory above it.
pub open spec fn lies_under(p: Seq<char>, base: Seq<char>) -> bool {
    components(base).len() <= components(p).len() && components(p).take(
        components(base).len() as int,
    ) == components(base)
}

/// Whether the components of `p` end with those of `tail`.
pub open spec fn ends_with_path(p: Seq<char>, tail: Seq<char>) -> bool {
    components(tail).len() <= components(p).len() && components(p).skip(
        components(p).len() - components(tail).len(),
    ) == components(tail)
}

/// The text of the components from `k` on.
pub open spec fn tail_text(p: Seq<char>, k: int) -> Seq<char> {
    if k < spans(p).len() {
        p.subrange(spans(p)[k].0, spans(p).last().1)
    } else {
        Seq::<char>::empty()
    }
}

/// `p` relative to `base`, where it lies under it.
pub open spec fn relative_to(p: Seq<char>, base: Seq<char>) -> Option<Seq<char>> {
    if lies_under(p, base) {
        Some(tail_text(p, components(base).len() as int))
    } else {
        None
    }
}

/// Whether two texts are the same path.
pub open spec fn same_path(a: Seq<char>, b: Seq<char>) -> bool {
    components(a) == components(b)
}

/// The executable form of a list of places.
spec fn places(v: Seq<(usize, usize)>) -> Seq<(int, int)> {
    Seq::new(v.len(), |i: int| (v[i].0 as int, v[i].1 as int))
}

/// Finds the components of a path.
fn find_spans(v: &Vec<char>) -> (r: Vec<(usize, usize)>)
    ensures
        places(r@) == spans(v@),
{
    let mut out: Vec<(usize, usize)> = Vec::new();
    let mut i: usize = 0;
    if v.len() > 0 && (v[0] == '/' || (v[0] == '.' && (v.len() == 1 || v[1] == '/'))) {
        out.push((0, 1));
        i = 1;
    }
    proof {
        assert(places(out@) + tail_spans(v@, i as int) =~= spans(v@));
    }
    while i < v.len()
        invariant
            i <= v.len(),
            places(out@) + tail_spans(v@, i as int) == spans(v@),
        decreases v.len() - i,
    {
        if v[i] == '/' {
            i += 1;
        } else {
            let j = find_char(v, i, '/');
            proof {
                lemma_segment_end(v@, i as int);
            }
            if !(j == i + 1 && v[i] == '.') {
                let ghost prior = places(out@);
                let ghost seen = out@;
                out.push((i, j));
                proof {
                    assert(places(out@) =~= prior + seq![(i as int, j as int)]);
                    assert(places(out@) + tail_spans(v@, j as int) =~= prior + (seq![
                        (i as int, j as int),
                    ] + tail_spans(v@, j as int)));
                }
            }
            i = j;
        }
    }
    proof {
        assert(places(out@) + Seq::<(int, int)>::empty() =~= places(out@));
    }
    out
}

/// The components of a path.
pub fn split_path(p: &str) -> (r: Vec<String>)
    ensures
        texts(r@) == components(p@),
{
    let v = chars_of(p);
    let at = find_spans(&v);
    let mut out: Vec<String> = Vec::new();
    let mut i: usize = 0;
    proof {
        lemma_spans(p@);
    }
    while i < at.len()
        invariant
            i <= at.len(),
            v@ == p@,
            places(at@) == spans(p@),
            forall|k: int|
                0 <= k < spans(p@).len() ==> 0 <= (#[trigger] spans(p@)[k]).0 < spans(p@)[k].1
                    <= p@.len(),
            texts(out@) == components(p@).take(i as int),
        decreases at.len() - i,
    {
        let (a, b) = at[i];
        proof {
            assert(spans(p@)[i as int] == places(at@)[i as int]);
        }
        let piece = text_between(&v, a, b);
        proof {
            lemma_texts_push(out@, piece);
            assert(components(p@).take(i + 1) =~= components(p@).take(i as int).push(piece@));
        }
        out.push(piece);
        i += 1;
    }
    proof {
        assert(components(p@).take(components(p@).len() as int) =~= components(p@));
    }
    out
}

/// Whether two texts are the same path.
pub fn path_eq(a: &str, b: &str) -> (r: bool)
    ensures
        r == same_path(a@, b@),
{
    let x = split_path(a);
    let y = split_path(b);
    same_texts(&x, &y)
}

/// The directory that holds a path.
pub fn parent(p: &str) -> (r: Option<String>)
    ensures
        opt_text(r) == parent_of(p@),
{
    let v = chars_of(p);
    let at = find_spans(&v);
    let n: usize = at.len();
    proof {
        lemma_spans(p@);
    }
    if n == 0 || (n == 1 && v.len() > 0 && v[0] == '/') {
        None
    } else if n == 1 {
        Some(String::new())
    } else {
        let e: usize = at[n - 2].1;
        proof {
            assert(places(at@)[n - 2] == spans(p@)[n - 2]);
            assert(p@.subrange(0, e as int) =~= p@.take(e as int));
        }
        Some(text_between(&v, 0, e))
    }
}

/// The last component of a path, where it is a name.
pub fn file_name(p: &str) -> (r: Option<String>)
    ensures
        opt_text(r) == file_name_of(p@),
{
    let mut parts = split_path(p);
    let ghost all = texts(parts@);
    match parts.pop() {
        None => None,
        Some(last) => {
            proof {
                assert(all.last() == last@);
            }
            let w = chars_of(last.as_str());
            let special = (w.len() == 1 && (w[0] == '/' || w[0] == '.')) || (w.len() == 2 && w[0]
                == '.' && w[1] == '.');
            proof {
                if special {
                    assert(w@ =~= seq!['/'] || w@ =~= seq!['.'] || w@ =~= seq!['.', '.']);
                }
            }
            if special {
                None
            } else {
                Some(last)
            }
        },
    }
}

/// The extension of a path's name.
pub fn extension(p: &str) -> (r: Option<String>)
    ensures
        opt_text(r) == extension_of(p@),
{
    match file_name(p) {
        None => None,
        Some(name) => {
            proof {
                lemma_last_at(name@, '.');
            }
            match rsplit_once(name.as_str(), '.') {
                Some((before, after)) => if before.as_str().is_empty() {
                    None
                } else {
                    Some(after)
                },
                None => None,
            }
        },
    }
}

/// A path's name without its extension.
pub fn file_stem(p: &str) -> (r: Option<String>)
    ensures
        opt_text(r) == file_stem_of(p@),
{
    match file_name(p) {
        None => None,
        Some(name) => {
            proof {
                lemma_last_at(name@, '.');
            }
            match rsplit_once(name.as_str(), '.') {
                Some((before, _)) => if before.as_str().is_empty() {
                    Some(name)
                } else {
                    Some(before)
                },
                None => Some(name),
            }
        },
    }
}

/// Reads `p` from the directory `base`.
pub fn path_join(base: &str, p: &str) -> (r: String)
    ensures
        r@ == path_joined(base@, p@),
{
    let n: usize = base.unicode_len();
    if p.unicode_len() > 0 && p.get_char(0) == '/' {
        p.to_owned()
    } else {
        let mut out = base.to_owned();
        if n > 0 && base.get_char(n - 1) != '/' {
            out.push('/');
        }
        out.append(p);
        out
    }
}

/// Whether the components of `x` begin with those of `y`.
fn begins_with_parts(x: &Vec<String>, y: &Vec<String>) -> (r: bool)
    ensures
        r == (texts(y@).len() <= texts(x@).len() && texts(x@).take(texts(y@).len() as int) == texts(
            y@,
        )),
{
    if y.len() > x.len() {
        return false;
    }
    let mut i: usize = 0;
    while i < y.len()
        invariant
            i <= y.len() <= x.len(),
            forall|k: int| 0 <= k < i ==> texts(x@)[k] == texts(y@)[k],
        decreases y.len() - i,
    {
        if x[i] != y[i] {
            proof {
                assert(texts(x@).take(texts(y@).len() as int)[i as int] != texts(y@)[i as int]);
            }
            return false;
        }
        i += 1;
    }
    proof {
        assert(texts(x@).take(texts(y@).len() as int) =~= texts(y@));
    }
    true
}

/// Whether `base` is `p` itself or a directory above it.
pub fn path_starts_with(p: &str, base: &str) -> (r: bool)
    ensures
        r == lies_under(p@, base@),
{
    begins_with_parts(&split_path(p), &split_path(base))
}

/// Whether the components of `p` end with those of `tail`.
pub fn path_ends_with(p: &str, tail: &str) -> (r: bool)
    ensures
        r == ends_with_path(p@, tail@),
{
    let x = split_path(p);
    let y = split_path(tail);
    if y.len() > x.len() {
        return false;
    }
    let d: usize = x.len() - y.len();
    let mut i: usize = 0;
    while i < y.len()
        invariant
            i <= y.len() <= x.len(),
            d == x.len() - y.len(),
            texts(x@) == components(p@),
            texts(y@) == components(tail@),
            forall|k: int| 0 <= k < i ==> texts(x@)[d + k] == texts(y@)[k],
        decreases y.len() - i,
    {
        if x[d + i] != y[i] {
            proof {
                assert(texts(x@).skip(d as int)[i as int] == texts(x@)[d + i]);
                assert(texts(x@)[d + i] != texts(y@)[i as int]);
            }
            return false;
        }
        i += 1;
    }
    proof {
        assert(texts(x@).skip(d as int) =~= texts(y@));
    }
    true
}

/// `p` relative to `base`, where it lies under it.
pub fn strip_base(p: &str, base: &str) -> (r: Option<String>)
    ensures
        opt_text(r) == relative_to(p@, base@),
{
    if !path_starts_with(p, base) {
        return None;
    }
    let k: usize = split_path(base).len();
    let v = chars_of(p);
    let at = find_spans(&v);
    let n: usize = at.len();
    proof {
        lemma_spans(p@);
        assert(n == components(p@).len());
    }
    if k < n {
        let a: usize = at[k].0;
        let b: usize = at[n - 1].1;
        proof {
            assert(places(at@)[k as int] == spans(p@)[k as int]);
            assert(places(at@)[n - 1] == spans(p@)[n - 1]);
            if k < n - 1 {
                assert(spans(p@)[k as int].1 <= spans(p@)[n - 1].0);
            }
        }
        Some(text_between(&v, a, b))
    } else {
        Some(String::new())
    }
}

/// A path and the directories above it, the path itself first.
pub open spec fn ancestors_of(p: Seq<char>) -> Seq<Seq<char>>
    decreases components(p).len(),
    via ancestors_decreases
{
    match parent_of(p) {
        Some(q) => seq![p] + ancestors_of(q),
        None => seq![p],
    }
}

#[via_fn]
proof fn ancestors_decreases(p: Seq<char>) {
    law_parent_drops_last_component(p);
}

/// A path and the directories above it, the path itself first.
pub fn ancestors(p: &str) -> (r: Vec<String>)
    ensures
        texts(r@) == ancestors_of(p@),
{
    let mut out: Vec<String> = Vec::new();
    let mut cur: String = p.to_owned();
    proof {
        assert(texts(out@) + ancestors_of(cur@) =~= ancestors_of(p@));
    }
    loop
        invariant
            texts(out@) + ancestors_of(cur@) == ancestors_of(p@),
        decreases components(cur@).len(),
    {
        let next = parent(cur.as_str());
        proof {
            lemma_texts_push(out@, cur);
            law_parent_drops_last_component(cur@);
        }
        let ghost prior = texts(out@);
        let ghost here = cur@;
        out.push(cur);
        match next {
            Some(q) => {
                proof {
                    assert(texts(out@) + ancestors_of(q@) =~= prior + (seq![here] + ancestors_of(
                        q@,
                    )));
                }
                cur = q;
            },
            None => {
                proof {
                    assert(texts(out@) =~= prior + seq![here]);
                }
                return out;
            },
        }
    }
}

/// The ancestors of a path are the paths of its component prefixes, longest first.
pub proof fn law_ancestors_are_prefixes(p: Seq<char>, i: int)
    requires
        0 <= i < ancestors_of(p).len(),
    ensures
        i <= components(p).len(),
        components(ancestors_of(p)[i]) == components(p).take(components(p).len() - i),
    decreases i,
{
    law_parent_drops_last_component(p);
    if i == 0 {
        assert(components(p).take(components(p).len() as int) =~= components(p));
    } else {
        let q = parent_of(p)->Some_0;
        assert(ancestors_of(p)[i] == ancestors_of(q)[i - 1]);
        law_ancestors_are_prefixes(q, i - 1);
        assert(components(q).take(components(q).len() - (i - 1)) =~= components(p).take(
            components(p).len() - i,
        ));
    }
}

/// What is above an absolute path is absolute.
pub proof fn lemma_ancestors_are_absolute(p: Seq<char>, i: int)
    requires
        is_absolute(p),
        0 <= i < ancestors_of(p).len(),
    ensures
        is_absolute(ancestors_of(p)[i]),
    decreases i,
{
    if i > 0 {
        lemma_spans(p);
        let q = parent_of(p)->Some_0;
        assert(ancestors_of(p)[i] == ancestors_of(q)[i - 1]);
        lemma_ancestors_are_absolute(q, i - 1);
    }
}

/// The text of a list of components.
pub open spec fn rendered(c: Seq<Seq<char>>) -> Seq<char> {
    if c.len() > 0 && c[0] == seq!['/'] {
        seq!['/'] + joined(c.skip(1), seq!['/'])
    } else {
        joined(c, seq!['/'])
    }
}

// ---------------------------------------------------------------------------------------------
// Joining

/// Places moved by `d`.
spec fn moved_by(s: Seq<(int, int)>, d: int) -> Seq<(int, int)> {
    Seq::new(s.len(), |i: int| (s[i].0 + d, s[i].1 + d))
}

/// What precedes a position does not matter for the components from there on.
proof fn lemma_tail_spans_shift(a: Seq<char>, b: Seq<char>, i: int)
    requires
        0 <= i <= b.len(),
    ensures
        tail_spans(a + b, a.len() + i) == moved_by(tail_spans(b, i), a.len() as int),
    decreases b.len() - i,
{
    let s = a + b;
    let n = a.len() as int;
    if i < b.len() {
        assert(s[n + i] == b[i]);
        if b[i] == '/' {
            lemma_tail_spans_shift(a, b, i + 1);
        } else {
            let j = segment_end(b, i);
            lemma_segment_end(b, i);
            assert forall|k: int| n + i <= k < n + j implies s[k] != '/' by {
                assert(s[k] == b[k - n]);
            }
            if j < b.len() {
                assert(s[n + j] == b[j]);
            }
            lemma_segment_end_is(s, n + i, n + j);
            lemma_tail_spans_shift(a, b, j);
            if !(j == i + 1 && b[i] == '.') {
                assert(moved_by(tail_spans(b, i), n) =~= seq![(n + i, n + j)] + moved_by(
                    tail_spans(b, j),
                    n,
                ));
            }
        }
    } else {
        assert(tail_spans(s, n + i) =~= moved_by(tail_spans(b, i), n));
    }
}

/// The components of a text that ends with a separator stay apart from those of what follows.
proof fn lemma_tail_spans_concat(a: Seq<char>, b: Seq<char>, i: int)
    requires
        0 <= i <= a.len(),
        i == a.len() || a.last() == '/',
    ensures
        tail_spans(a + b, i) == tail_spans(a, i) + moved_by(tail_spans(b, 0), a.len() as int),
    decreases a.len() - i,
{
    let s = a + b;
    if i == a.len() {
        lemma_tail_spans_shift(a, b, 0);
        assert(tail_spans(s, i) =~= tail_spans(a, i) + moved_by(
            tail_spans(b, 0),
            a.len() as int,
        ));
    } else {
        assert(s[i] == a[i]);
        if a[i] == '/' {
            lemma_tail_spans_concat(a, b, i + 1);
        } else {
            let j = segment_end(a, i);
            lemma_segment_end(a, i);
            assert(j < a.len()) by {
                assert(a[a.len() - 1] == '/');
            }
            assert forall|k: int| i <= k < j implies s[k] != '/' by {
                assert(s[k] == a[k]);
            }
            assert(s[j] == a[j]);
            lemma_segment_end_is(s, i, j);
            lemma_tail_spans_concat(a, b, j);
            if !(j == i + 1 && a[i] == '.') {
                assert(tail_spans(s, i) =~= tail_spans(a, i) + moved_by(
                    tail_spans(b, 0),
                    a.len() as int,
                ));
            }
        }
    }
}

/// A separator at the end of a text adds no component.
proof fn lemma_tail_spans_closed(a: Seq<char>, i: int)
    requires
        0 <= i <= a.len(),
    ensures
        tail_spans(a.push('/'), i) == tail_spans(a, i),
    decreases a.len() - i,
{
    let s = a.push('/');
    if i == a.len() {
        assert(s[i] == '/');
        assert(tail_spans(s, i + 1) =~= Seq::<(int, int)>::empty());
    } else {
        assert(s[i] == a[i]);
        if a[i] == '/' {
            lemma_tail_spans_closed(a, i + 1);
        } else {
            let j = segment_end(a, i);
            lemma_segment_end(a, i);
            assert forall|k: int| i <= k < j implies s[k] != '/' by {
                assert(s[k] == a[k]);
            }
            assert(s[j] == '/') by {
                if j < a.len() {
                    assert(s[j] == a[j]);
                }
            }
            lemma_segment_end_is(s, i, j);
            lemma_tail_spans_closed(a, j);
        }
    }
}

/// A text with a separator at its end is the same path.
pub proof fn lemma_closed_is_same_path(a: Seq<char>)
    requires
        a.len() > 0,
    ensures
        same_path(a.push('/'), a),
{
    let s = a.push('/');
    assert(s[0] == a[0]);
    if a.len() > 1 {
        assert(s[1] == a[1]);
    }
    lemma_tail_spans_closed(a, 0);
    lemma_tail_spans_closed(a, 1);
    lemma_spans(a);
    assert(spans(s) == spans(a));
    assert forall|i: int| 0 <= i < spans(a).len() implies components(s)[i] == components(a)[i] by {
        assert(spans(a)[i].1 <= a.len());
        assert(s.subrange(spans(a)[i].0, spans(a)[i].1) =~= a.subrange(
            spans(a)[i].0,
            spans(a)[i].1,
        ));
    }
    assert(components(s) =~= components(a));
}

/// A relative path that is read from a directory has the components of the directory and then its
/// own.
pub proof fn law_join_appends_components(base: Seq<char>, p: Seq<char>)
    requires
        !is_absolute(p),
        !starts_here(p),
    ensures
        components(path_joined(base, p)) == components(base) + components(p),
{
    if base.len() == 0 {
        assert(base + p =~= p);
        lemma_spans(base);
        assert(components(base) =~= Seq::<Seq<char>>::empty());
        assert(components(base) + components(p) =~= components(p));
        return ;
    }
    let a = if base.last() == '/' {
        base
    } else {
        base.push('/')
    };
    if base.last() != '/' {
        lemma_closed_is_same_path(base);
    }
    assert(components(a) == components(base));
    let s = a + p;
    assert(path_joined(base, p) == s);
    assert(s[0] == a[0]);
    assert(a[a.len() - 1] == '/');
    if a.len() > 1 {
        assert(s[1] == a[1]);
    }
    let n = a.len() as int;
    lemma_tail_spans_concat(a, p, 0);
    lemma_tail_spans_concat(a, p, 1);
    lemma_spans(a);
    lemma_spans(p);
    let x = spans(a);
    let y = spans(p);
    if is_absolute(a) || starts_here(a) {
        assert(spans(s) =~= x + moved_by(y, n));
    } else {
        assert(spans(s) =~= x + moved_by(y, n));
    }
    assert forall|i: int| 0 <= i < x.len() + y.len() implies components(s)[i] == (components(a)
        + components(p))[i] by {
        if i < x.len() {
            assert(spans(s)[i] == x[i]);
            assert(s.subrange(x[i].0, x[i].1) =~= a.subrange(x[i].0, x[i].1));
        } else {
            let k = i - x.len();
            assert(spans(s)[i] == moved_by(y, n)[k]);
            assert(s.subrange(y[k].0 + n, y[k].1 + n) =~= p.subrange(y[k].0, y[k].1));
        }
    }
    assert(components(s) =~= components(a) + components(p));
}

/// What a component of a relative path is, where the path does not begin with `.`: some characters
/// without a separator, not a lone dot.
pub open spec fn is_plain_component(c: Seq<char>) -> bool {
    c.len() > 0 && !c.contains('/') && c != seq!['.']
}

proof fn lemma_tail_components(p: Seq<char>, i: int, k: int)
    requires
        0 <= i <= p.len(),
        0 <= k < tail_spans(p, i).len(),
    ensures
        is_plain_component(p.subrange(tail_spans(p, i)[k].0, tail_spans(p, i)[k].1)),
    decreases p.len() - i,
{
    lemma_tail_spans(p, i);
    if p[i] == '/' {
        lemma_tail_components(p, i + 1, k);
    } else {
        let j = segment_end(p, i);
        lemma_segment_end(p, i);
        if j == i + 1 && p[i] == '.' {
            lemma_tail_components(p, j, k);
        } else if k == 0 {
            let c = p.subrange(i, j);
            assert(tail_spans(p, i)[0] == (i, j));
            if c.contains('/') {
                let m = choose|m: int| 0 <= m < c.len() && c[m] == '/';
                assert(p[i + m] == '/');
            }
            if c == seq!['.'] {
                assert(c[0] == p[i]);
            }
        } else {
            assert(tail_spans(p, i)[k] == tail_spans(p, j)[k - 1]);
            lemma_tail_components(p, j, k - 1);
        }
    }
}

/// The components of a relative path that does not begin with `.` are plain.
pub proof fn lemma_components_are_plain(p: Seq<char>, k: int)
    requires
        !is_absolute(p),
        !starts_here(p),
        0 <= k < components(p).len(),
    ensures
        is_plain_component(components(p)[k]),
{
    lemma_tail_components(p, 0, k);
}

/// A component is plain, or the `/` or `.` that a path begins with.
pub proof fn lemma_component(p: Seq<char>, k: int)
    requires
        0 <= k < components(p).len(),
    ensures
        is_plain_component(components(p)[k]) || (k == 0 && (components(p)[k] == seq!['/']
            || components(p)[k] == seq!['.'])),
        k == 0 && is_absolute(p) ==> components(p)[k] == seq!['/'],
        k == 0 && !is_absolute(p) ==> components(p)[k] != seq!['/'],
{
    if is_absolute(p) || starts_here(p) {
        if k == 0 {
            assert(spans(p)[0] == (0int, 1int));
            assert(components(p)[0] =~= seq![p[0]]);
            assert(seq!['/'][0] == '/');
        } else {
            assert(spans(p)[k] == tail_spans(p, 1)[k - 1]);
            lemma_tail_components(p, 1, k - 1);
        }
    } else {
        lemma_tail_components(p, 0, k);
        if components(p)[k] == seq!['/'] {
            assert(components(p)[k][0] == '/');
        }
    }
}

/// The root is its own only component.
pub proof fn lemma_root_components()
    ensures
        components(seq!['/']) == seq![seq!['/']],
{
    let p = seq!['/'];
    assert(tail_spans(p, 1) =~= Seq::<(int, int)>::empty());
    assert(spans(p) =~= seq![(0int, 1int)]);
    assert(p.subrange(0, 1) =~= p);
    assert(components(p) =~= seq![p]);
}

/// A plain component is a path of its own.
pub proof fn lemma_plain_component(c: Seq<char>)
    requires
        is_plain_component(c),
    ensures
        components(c) == seq![c],
        !is_absolute(c),
        !starts_here(c),
{
    if c[0] == '/' {
        assert(c.contains('/'));
    }
    if starts_here(c) {
        if c.len() == 1 {
            assert(c =~= seq!['.']);
        } else {
            assert(c[1] == '/');
            assert(c.contains('/'));
        }
    }
    assert forall|k: int| 0 <= k < c.len() implies c[k] != '/' by {
        if c[k] == '/' {
            assert(c.contains('/'));
        }
    }
    let n = c.len() as int;
    lemma_segment_end_is(c, 0, n);
    assert(tail_spans(c, n) =~= Seq::<(int, int)>::empty());
    if n == 1 && c[0] == '.' {
        assert(c =~= seq!['.']);
    }
    assert(spans(c) =~= seq![(0int, n)]);
    assert(c.subrange(0, n) =~= c);
    assert(components(c) =~= seq![c]);
}

/// Plain components with `/` between them are the path of those components.
pub proof fn law_joined_components(c: Seq<Seq<char>>)
    requires
        forall|i: int| 0 <= i < c.len() ==> is_plain_component(#[trigger] c[i]),
    ensures
        components(joined(c, seq!['/'])) == c,
        !is_absolute(joined(c, seq!['/'])),
        !starts_here(joined(c, seq!['/'])),
    decreases c.len(),
{
    let t = joined(c, seq!['/']);
    if c.len() == 0 {
        lemma_spans(t);
        assert(components(t) =~= c);
    } else if c.len() == 1 {
        assert(is_plain_component(c[0]));
        lemma_plain_component(c[0]);
        assert(t =~= c[0]);
        assert(components(t) =~= c);
    } else {
        let d = c.drop_last();
        assert forall|i: int| 0 <= i < d.len() implies is_plain_component(#[trigger] d[i]) by {
            assert(d[i] == c[i]);
        }
        law_joined_components(d);
        lemma_joined_ends_plain(d);
        assert(is_plain_component(c[c.len() - 1]));
        lemma_plain_component(c.last());
        lemma_append_component(joined(d, seq!['/']), d, c.last());
        assert(t == joined(d, seq!['/']) + seq!['/'] + c.last());
        assert(d.push(c.last()) =~= c);
    }
}

proof fn lemma_append_component(u: Seq<char>, d: Seq<Seq<char>>, c: Seq<char>)
    requires
        u.len() > 0,
        u.last() != '/',
        !is_absolute(u),
        !starts_here(u),
        components(u) == d,
        components(c) == seq![c],
        !is_absolute(c),
        !starts_here(c),
    ensures
        components(u + seq!['/'] + c) == d.push(c),
        !is_absolute(u + seq!['/'] + c),
        !starts_here(u + seq!['/'] + c),
{
    let t = u + seq!['/'] + c;
    law_join_appends_components(u, c);
    assert(t =~= u.push('/') + c);
    assert(path_joined(u, c) == t);
    assert(d + seq![c] =~= d.push(c));
    assert(t[0] == u[0]);
    if u.len() > 1 {
        assert(t[1] == u[1]);
    }
}

proof fn lemma_joined_ends_plain(c: Seq<Seq<char>>)
    requires
        c.len() > 0,
        forall|i: int| 0 <= i < c.len() ==> is_plain_component(#[trigger] c[i]),
    ensures
        joined(c, seq!['/']).len() > 0,
        joined(c, seq!['/']).last() != '/',
{
    let last = c.last();
    assert(is_plain_component(c[c.len() - 1]));
    assert(last[last.len() - 1] != '/') by {
        if last[last.len() - 1] == '/' {
            assert(last.contains('/'));
        }
    }
    if c.len() == 1 {
        assert(joined(c, seq!['/']) =~= last);
    } else {
        let t = joined(c, seq!['/']);
        assert(t == joined(c.drop_last(), seq!['/']) + seq!['/'] + last);
        assert(t[t.len() - 1] == last[last.len() - 1]);
    }
}

/// From the place of a component on, the components are that one and those behind it.
proof fn lemma_tail_spans_from(p: Seq<char>, i: int, k: int)
    requires
        0 <= i <= p.len(),
        0 <= k < tail_spans(p, i).len(),
    ensures
        tail_spans(p, tail_spans(p, i)[k].0) == tail_spans(p, i).skip(k),
    decreases p.len() - i,
{
    lemma_tail_spans(p, i);
    if p[i] == '/' {
        lemma_tail_spans_from(p, i + 1, k);
    } else {
        let j = segment_end(p, i);
        lemma_segment_end(p, i);
        if j == i + 1 && p[i] == '.' {
            lemma_tail_spans_from(p, j, k);
        } else if k == 0 {
            assert(tail_spans(p, i).skip(0) =~= tail_spans(p, i));
        } else {
            assert(tail_spans(p, i)[k] == tail_spans(p, j)[k - 1]);
            lemma_tail_spans_from(p, j, k - 1);
            assert(tail_spans(p, i).skip(k) =~= tail_spans(p, j).skip(k - 1));
        }
    }
}

/// The text behind the first components of a path is the path of the others, and begins with
/// neither `/` nor a `.` segment.
pub proof fn lemma_tail_components_of(p: Seq<char>, k: int)
    requires
        0 < k <= components(p).len(),
    ensures
        components(tail_text(p, k)) == components(p).skip(k),
        !is_absolute(tail_text(p, k)),
        !starts_here(tail_text(p, k)),
{
    lemma_spans(p);
    let n = spans(p).len() as int;
    let t = tail_text(p, k);
    if k == n {
        lemma_spans(t);
        assert(components(t) =~= components(p).skip(k));
        return ;
    }
    let e = spans(p)[n - 1].1;
    let q = p.take(e);
    lemma_cut_components(p, n - 1);
    assert(spans(p).take(n) =~= spans(p));
    assert(components(p).take(n) =~= components(p));
    lemma_spans(q);
    let x = spans(q)[k].0;
    let s0: int = if is_absolute(q) || starts_here(q) {
        1
    } else {
        0
    };
    let m = if s0 == 1 {
        k - 1
    } else {
        k
    };
    assert(spans(q)[k] == tail_spans(q, s0)[m]);
    lemma_tail_spans_from(q, s0, m);
    let a = q.take(x);
    assert(x <= q.len());
    assert(t =~= q.skip(x));
    assert(a + t =~= q);
    lemma_tail_spans_shift(a, t, 0);
    assert(tail_spans(q, x) =~= spans(q).skip(k));
    assert(moved_by(tail_spans(t, 0), x) == spans(q).skip(k));
    lemma_tail_components(q, s0, m);
    let c = q.subrange(spans(q)[k].0, spans(q)[k].1);
    assert(c.len() > 0 && c[0] == t[0]);
    assert(!is_absolute(t)) by {
        if t[0] == '/' {
            assert(c.contains('/'));
        }
    }
    assert(tail_spans(t, 0).len() == n - k) by {
        assert(moved_by(tail_spans(t, 0), x).len() == tail_spans(t, 0).len());
    }
    assert(moved_by(tail_spans(t, 0), x)[0] == spans(q).skip(k)[0]);
    assert(tail_spans(t, 0)[0].0 == 0);
    if starts_here(t) {
        if t.len() > 1 {
            assert(t[1] == '/');
        }
        lemma_segment_end_is(t, 0, 1);
        lemma_tail_spans(t, 1);
        assert(tail_spans(t, 0) == tail_spans(t, 1));
        assert(tail_spans(t, 1)[0].0 >= 1);
        assert(false);
    }
    assert(spans(t) == tail_spans(t, 0));
    assert forall|i: int| 0 <= i < n - k implies components(t)[i] == components(p).skip(k)[i] by {
        assert(moved_by(tail_spans(t, 0), x)[i] == spans(q).skip(k)[i]);
        assert(spans(q)[k + i] == spans(p)[k + i]);
        let (f, g) = spans(p)[k + i];
        assert(spans(t)[i] == (f - x, g - x));
        assert(g <= e) by {
            if k + i < n - 1 {
                assert(spans(p)[k + i].1 <= spans(p)[n - 1].0);
            }
        }
        assert(f >= x) by {
            if i > 0 {
                assert(spans(p)[k].1 <= spans(p)[k + i].0);
            }
        }
        assert(t.subrange(f - x, g - x) =~= p.subrange(f, g));
    }
    assert(components(t) =~= components(p).skip(k));
}

/// Paths that are read one from the other can be joined from either end.
pub proof fn law_join_is_associative(a: Seq<char>, b: Seq<char>, c: Seq<char>)
    ensures
        path_joined(a, path_joined(b, c)) == path_joined(path_joined(a, b), c),
{
    let l = path_joined(a, path_joined(b, c));
    let r = path_joined(path_joined(a, b), c);
    if is_absolute(c) {
    } else if b.len() == 0 {
        assert(path_joined(b, c) =~= c);
        assert(l =~= r);
    } else {
        assert(path_joined(b, c)[0] == b[0]);
        assert(path_joined(a, b).last() == b.last());
        assert(l =~= r);
    }
}

} // verus!
