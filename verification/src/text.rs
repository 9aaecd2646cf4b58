//! Text handling over sequences of characters.
//!
//! Every string is seen through its view, the sequence of its characters. The specification
//! functions say what a piece of text is; the executable ones compute it.

use vstd::prelude::*;

verus! {

/// `String::push` of std: the character is appended and nothing else changes.
pub assume_specification[ String::push ](s: &mut String, c: char)
    ensures
        final(s)@ == old(s)@.push(c),
;

/// The contents of a sequence of strings.
pub open spec fn texts(v: Seq<String>) -> Seq<Seq<char>> {
    Seq::new(v.len(), |i: int| v[i]@)
}

/// The contents of an optional string.
pub open spec fn opt_text(o: Option<String>) -> Option<Seq<char>> {
    match o {
        Some(s) => Some(s@),
        None => None,
    }
}

/// The contents of an optional string slice.
pub open spec fn opt_str(o: Option<&str>) -> Option<Seq<char>> {
    match o {
        Some(s) => Some(s@),
        None => None,
    }
}

pub proof fn lemma_texts_push(v: Seq<String>, s: String)
    ensures
        texts(v.push(s)) == texts(v).push(s@),
{
    assert(texts(v.push(s)) =~= texts(v).push(s@));
}

/// Clones an optional string.
pub fn clone_opt(o: &Option<String>) -> (r: Option<String>)
    ensures
        opt_text(r) == opt_text(*o),
{
    match o {
        Some(s) => Some(s.clone()),
        None => None,
    }
}

/// Borrows the contents of an optional string.
pub fn as_opt_str(o: &Option<String>) -> (r: Option<&str>)
    ensures
        opt_str(r) == opt_text(*o),
{
    match o {
        Some(s) => Some(s.as_str()),
        None => None,
    }
}

/// Clones a list of strings.
pub fn clone_texts(v: &Vec<String>) -> (r: Vec<String>)
    ensures
        texts(r@) == texts(v@),
{
    let mut out: Vec<String> = Vec::new();
    let mut i: usize = 0;
    while i < v.len()
        invariant
            i <= v.len(),
            texts(out@) == texts(v@).take(i as int),
        decreases v.len() - i,
    {
        let ghost before = out@;
        let s = v[i].clone();
        out.push(s);
        proof {
            lemma_texts_push(before, s);
            assert(texts(v@).take(i + 1) =~= texts(v@).take(i as int).push(v@[i as int]@));
        }
        i += 1;
    }
    proof {
        assert(texts(v@).take(v@.len() as int) =~= texts(v@));
    }
    out
}

/// Whether two strings hold the same characters.
pub fn same(a: &str, b: &str) -> (r: bool)
    ensures
        r == (a@ == b@),
{
    a.to_owned() == b.to_owned()
}

/// Whether two lists hold the same strings in the same order.
pub fn same_texts(a: &Vec<String>, b: &Vec<String>) -> (r: bool)
    ensures
        r == (texts(a@) == texts(b@)),
{
    if a.len() != b.len() {
        proof {
            assert(texts(a@).len() != texts(b@).len());
        }
        return false;
    }
    let mut i: usize = 0;
    while i < a.len()
        invariant
            i <= a.len(),
            a.len() == b.len(),
            forall|j: int| 0 <= j < i ==> texts(a@)[j] == texts(b@)[j],
        decreases a.len() - i,
    {
        if a[i] != b[i] {
            proof {
                assert(texts(a@)[i as int] != texts(b@)[i as int]);
            }
            return false;
        }
        i += 1;
    }
    proof {
        assert(texts(a@) =~= texts(b@));
    }
    true
}

/// Whether a list holds a string.
pub fn contains_text(v: &Vec<String>, s: &str) -> (r: bool)
    ensures
        r == texts(v@).contains(s@),
{
    let mut i: usize = 0;
    while i < v.len()
        invariant
            i <= v.len(),
            forall|j: int| 0 <= j < i ==> texts(v@)[j] != s@,
        decreases v.len() - i,
    {
        if same(v[i].as_str(), s) {
            proof {
                assert(texts(v@)[i as int] == s@);
            }
            return true;
        }
        i += 1;
    }
    false
}

/// The characters of a string.
pub fn chars_of(s: &str) -> (r: Vec<char>)
    ensures
        r@ == s@,
{
    let mut out: Vec<char> = Vec::new();
    for c in it: s.chars()
        invariant
            out@ == it.seq().take(it.index()),
            it.seq() == s@,
    {
        out.push(c);
        proof {
            assert(it.seq().take(it.index() + 1) =~= it.seq().take(it.index()).push(c));
        }
    }
    proof {
        assert(s@.take(s@.len() as int) =~= s@);
    }
    out
}

/// The string made of the characters from `from` up to `to`.
pub fn text_between(v: &Vec<char>, from: usize, to: usize) -> (r: String)
    requires
        from <= to <= v.len(),
    ensures
        r@ == v@.subrange(from as int, to as int),
{
    let mut out = String::new();
    let mut i: usize = from;
    proof {
        assert(v@.subrange(from as int, from as int) =~= Seq::<char>::empty());
    }
    while i < to
        invariant
            from <= i <= to <= v.len(),
            out@ == v@.subrange(from as int, i as int),
        decreases to - i,
    {
        out.push(v[i]);
        proof {
            assert(v@.subrange(from as int, i + 1) =~= v@.subrange(from as int, i as int).push(
                v@[i as int],
            ));
        }
        i += 1;
    }
    out
}


// ---------------------------------------------------------------------------------------------
// Prefixes, suffixes and single characters

/// Whether `s` begins with `p`.
pub open spec fn begins(s: Seq<char>, p: Seq<char>) -> bool {
    p.len() <= s.len() && s.take(p.len() as int) == p
}

/// Whether `s` ends with `p`.
pub open spec fn ends(s: Seq<char>, p: Seq<char>) -> bool {
    p.len() <= s.len() && s.skip(s.len() - p.len()) == p
}

/// Whether `s` begins with `p`.
pub fn starts_with(s: &str, p: &str) -> (r: bool)
    ensures
        r == begins(s@, p@),
{
    let n: usize = p.unicode_len();
    if n > s.unicode_len() {
        return false;
    }
    same(s.substring_char(0, n), p)
}

/// Whether `s` ends with `p`.
pub fn ends_with(s: &str, p: &str) -> (r: bool)
    ensures
        r == ends(s@, p@),
{
    let n: usize = p.unicode_len();
    let m: usize = s.unicode_len();
    if n > m {
        return false;
    }
    same(s.substring_char(m - n, m), p)
}

/// What follows the prefix `p`, if `s` begins with it.
pub fn strip_prefix<'a>(s: &'a str, p: &str) -> (r: Option<&'a str>)
    ensures
        opt_str(r) == if begins(s@, p@) {
            Some(s@.skip(p@.len() as int))
        } else {
            None
        },
{
    if starts_with(s, p) {
        Some(s.substring_char(p.unicode_len(), s.unicode_len()))
    } else {
        None
    }
}

/// What precedes the suffix `p`, if `s` ends with it.
pub fn strip_suffix<'a>(s: &'a str, p: &str) -> (r: Option<&'a str>)
    ensures
        opt_str(r) == if ends(s@, p@) {
            Some(s@.take(s@.len() - p@.len()))
        } else {
            None
        },
{
    if ends_with(s, p) {
        Some(s.substring_char(0, s.unicode_len() - p.unicode_len()))
    } else {
        None
    }
}

/// The position of the first `d` in `s`, or the length of `s`.
pub open spec fn first_at(s: Seq<char>, d: char) -> int
    decreases s.len(),
{
    if s.len() == 0 {
        0
    } else if s[0] == d {
        0
    } else {
        1 + first_at(s.skip(1), d)
    }
}

/// The position of the last `d` in `s`, or -1.
pub open spec fn last_at(s: Seq<char>, d: char) -> int
    decreases s.len(),
{
    if s.len() == 0 {
        -1
    } else if s.last() == d {
        s.len() - 1
    } else {
        last_at(s.drop_last(), d)
    }
}

pub proof fn lemma_first_at(s: Seq<char>, d: char)
    ensures
        0 <= first_at(s, d) <= s.len(),
        first_at(s, d) < s.len() ==> s[first_at(s, d)] == d,
        forall|i: int| 0 <= i < first_at(s, d) ==> s[i] != d,
        s.contains(d) <==> first_at(s, d) < s.len(),
    decreases s.len(),
{
    if s.len() > 0 && s[0] != d {
        lemma_first_at(s.skip(1), d);
        let k = first_at(s.skip(1), d);
        assert forall|i: int| 0 <= i < first_at(s, d) implies s[i] != d by {
            if i > 0 {
                assert(s[i] == s.skip(1)[i - 1]);
            }
        }
        if s.contains(d) {
            let i = choose|i: int| 0 <= i < s.len() && s[i] == d;
            assert(s.skip(1)[i - 1] == d);
        }
        if k < s.skip(1).len() {
            assert(s[k + 1] == d);
        }
    }
}

pub proof fn lemma_last_at(s: Seq<char>, d: char)
    ensures
        -1 <= last_at(s, d) < s.len(),
        last_at(s, d) >= 0 ==> s[last_at(s, d)] == d,
        forall|i: int| last_at(s, d) < i < s.len() ==> s[i] != d,
        s.contains(d) <==> last_at(s, d) >= 0,
    decreases s.len(),
{
    if s.len() > 0 && s.last() != d {
        lemma_last_at(s.drop_last(), d);
        if s.contains(d) {
            let i = choose|i: int| 0 <= i < s.len() && s[i] == d;
            assert(s.drop_last()[i] == d);
        }
        assert forall|i: int| last_at(s, d) < i < s.len() implies s[i] != d by {
            if i < s.len() - 1 {
                assert(s.drop_last()[i] == s[i]);
            }
        }
    }
}

/// The position of the first `d` among `v[from..]`, counted from `from`, or the rest's length.
pub fn find_char(v: &Vec<char>, from: usize, d: char) -> (r: usize)
    requires
        from <= v.len(),
    ensures
        from <= r <= v.len(),
        r == from + first_at(v@.skip(from as int), d),
        r < v.len() ==> v@[r as int] == d,
        forall|k: int| from <= k < r ==> v@[k] != d,
{
    let mut i: usize = from;
    while i < v.len() && v[i] != d
        invariant
            from <= i <= v.len(),
            forall|k: int| from <= k < i ==> v@[k] != d,
        decreases v.len() - i,
    {
        i += 1;
    }
    proof {
        let rest = v@.skip(from as int);
        lemma_first_at(rest, d);
        let k = first_at(rest, d);
        if k < i - from {
            assert(rest[k] == v@[from + k]);
        }
        if k > i - from {
            assert(rest[i - from] == v@[i as int]);
        }
    }
    i
}

/// Whether `s` holds the character `d`.
pub fn contains_char(s: &str, d: char) -> (r: bool)
    ensures
        r == s@.contains(d),
{
    let v = chars_of(s);
    let k = find_char(&v, 0, d);
    proof {
        assert(v@.skip(0) =~= v@);
        lemma_first_at(v@, d);
    }
    k < v.len()
}

/// `s` before and after its first `d`.
pub open spec fn cut_first(s: Seq<char>, d: char) -> Option<(Seq<char>, Seq<char>)> {
    let k = first_at(s, d);
    if k < s.len() {
        Some((s.take(k), s.skip(k + 1)))
    } else {
        None
    }
}

/// `s` before and after its last `d`.
pub open spec fn cut_last(s: Seq<char>, d: char) -> Option<(Seq<char>, Seq<char>)> {
    let k = last_at(s, d);
    if k >= 0 {
        Some((s.take(k), s.skip(k + 1)))
    } else {
        None
    }
}

/// The contents of an optional pair of strings.
pub open spec fn opt_pair(o: Option<(String, String)>) -> Option<(Seq<char>, Seq<char>)> {
    match o {
        Some(p) => Some((p.0@, p.1@)),
        None => None,
    }
}

/// Splits at the first `d`.
pub fn split_once(s: &str, d: char) -> (r: Option<(String, String)>)
    ensures
        opt_pair(r) == cut_first(s@, d),
{
    let v = chars_of(s);
    let k = find_char(&v, 0, d);
    proof {
        assert(v@.skip(0) =~= v@);
    }
    if k < v.len() {
        let a = text_between(&v, 0, k);
        let b = text_between(&v, k + 1, v.len());
        proof {
            assert(a@ =~= s@.take(k as int));
            assert(b@ =~= s@.skip(k + 1));
        }
        Some((a, b))
    } else {
        None
    }
}

/// The position of the last `d`.
fn rfind_char(v: &Vec<char>, d: char) -> (r: Option<usize>)
    ensures
        match r {
            Some(k) => last_at(v@, d) == k && k < v.len(),
            None => last_at(v@, d) == -1,
        },
{
    let mut i: usize = v.len();
    proof {
        lemma_last_at(v@, d);
    }
    while i > 0
        invariant
            i <= v.len(),
            forall|k: int| i <= k < v.len() ==> v@[k] != d,
            -1 <= last_at(v@, d) < v@.len(),
            last_at(v@, d) >= 0 ==> v@[last_at(v@, d)] == d,
            forall|k: int| last_at(v@, d) < k < v@.len() ==> v@[k] != d,
        decreases i,
    {
        i -= 1;
        if v[i] == d {
            return Some(i);
        }
    }
    None
}

/// Splits at the last `d`.
pub fn rsplit_once(s: &str, d: char) -> (r: Option<(String, String)>)
    ensures
        opt_pair(r) == cut_last(s@, d),
{
    let v = chars_of(s);
    match rfind_char(&v, d) {
        Some(k) => {
            let a = text_between(&v, 0, k);
            let b = text_between(&v, k + 1, v.len());
            proof {
                assert(a@ =~= s@.take(k as int));
                assert(b@ =~= s@.skip(k + 1));
            }
            Some((a, b))
        },
        None => None,
    }
}

/// What follows the last `d`, or all of `s` where there is none.
pub open spec fn after_last(s: Seq<char>, d: char) -> Seq<char> {
    s.skip(last_at(s, d) + 1)
}

/// What precedes the first `d`, or all of `s` where there is none.
pub open spec fn before_first(s: Seq<char>, d: char) -> Seq<char> {
    s.take(first_at(s, d))
}

/// The last of the pieces that `d` separates.
pub fn last_segment(s: &str, d: char) -> (r: String)
    ensures
        r@ == after_last(s@, d),
{
    match rsplit_once(s, d) {
        Some((_, b)) => b,
        None => {
            proof {
                lemma_last_at(s@, d);
                assert(s@.skip(0) =~= s@);
            }
            s.to_owned()
        },
    }
}

/// The first of the pieces that `d` separates.
pub fn first_segment(s: &str, d: char) -> (r: String)
    ensures
        r@ == before_first(s@, d),
{
    match split_once(s, d) {
        Some((a, _)) => a,
        None => {
            proof {
                lemma_first_at(s@, d);
                assert(s@.take(s@.len() as int) =~= s@);
            }
            s.to_owned()
        },
    }
}

// ---------------------------------------------------------------------------------------------
// Splitting and joining

/// The pieces of `s` between the occurrences of `d`, in order; always at least one.
pub open spec fn pieces(s: Seq<char>, d: char) -> Seq<Seq<char>>
    decreases s.len(),
{
    if s.len() == 0 {
        seq![Seq::<char>::empty()]
    } else {
        let r = pieces(s.drop_last(), d);
        if s.last() == d {
            r.push(Seq::<char>::empty())
        } else {
            r.drop_last().push(r.last().push(s.last()))
        }
    }
}

/// The parts with `sep` between each two.
pub open spec fn joined(parts: Seq<Seq<char>>, sep: Seq<char>) -> Seq<char>
    decreases parts.len(),
{
    if parts.len() == 0 {
        Seq::<char>::empty()
    } else if parts.len() == 1 {
        parts[0]
    } else {
        joined(parts.drop_last(), sep) + sep + parts.last()
    }
}

/// A part without a separator, behind some text and a separator, is a piece of its own.
proof fn lemma_last_piece(s: Seq<char>, d: char, t: Seq<char>)
    requires
        !t.contains(d),
    ensures
        pieces(s + seq![d] + t, d) == pieces(s, d).push(t),
        pieces(t, d) == seq![t],
    decreases t.len(),
{
    let all = s + seq![d] + t;
    if t.len() == 0 {
        assert(all.drop_last() =~= s);
        assert(t =~= Seq::<char>::empty());
        assert(all.last() == d);
    } else {
        let u = t.drop_last();
        assert(t.last() != d) by {
            assert(t[t.len() - 1] == t.last());
        }
        assert(!u.contains(d)) by {
            if u.contains(d) {
                let k = choose|k: int| 0 <= k < u.len() && u[k] == d;
                assert(t[k] == d);
            }
        }
        lemma_last_piece(s, d, u);
        assert(all.drop_last() =~= s + seq![d] + u);
        assert(u.push(t.last()) =~= t);
        assert(pieces(s, d).push(u).drop_last() =~= pieces(s, d));
        assert(seq![u].drop_last().push(u.push(t.last())) =~= seq![t]);
    }
}

/// Joining parts without a separator in them and splitting again gives the parts.
pub proof fn law_join_split(parts: Seq<Seq<char>>, d: char)
    requires
        parts.len() >= 1,
        forall|i: int| 0 <= i < parts.len() ==> !(#[trigger] parts[i]).contains(d),
    ensures
        pieces(joined(parts, seq![d]), d) == parts,
    decreases parts.len(),
{
    let t = parts.drop_last();
    assert(parts.last() == parts[parts.len() - 1]);
    if parts.len() == 1 {
        lemma_last_piece(Seq::<char>::empty(), d, parts[0]);
        assert(parts =~= seq![parts[0]]);
    } else {
        assert forall|i: int| 0 <= i < t.len() implies !(#[trigger] t[i]).contains(d) by {
            assert(t[i] == parts[i]);
        }
        law_join_split(t, d);
        lemma_last_piece(joined(t, seq![d]), d, parts.last());
        assert(t.push(parts.last()) =~= parts);
    }
}

/// Splitting is undone by joining, and no piece holds the separator.
pub proof fn law_split_join(s: Seq<char>, d: char)
    ensures
        pieces(s, d).len() >= 1,
        joined(pieces(s, d), seq![d]) == s,
        forall|i: int| 0 <= i < pieces(s, d).len() ==> !(#[trigger] pieces(s, d)[i]).contains(d),
    decreases s.len(),
{
    if s.len() > 0 {
        let t = s.drop_last();
        let r = pieces(t, d);
        law_split_join(t, d);
        let out = pieces(s, d);
        if s.last() == d {
            assert(out.drop_last() =~= r);
            assert(joined(out, seq![d]) =~= t + seq![d] + Seq::<char>::empty());
            assert(s =~= t + seq![d]);
        } else {
            assert(out.drop_last() =~= r.drop_last());
            if r.len() == 1 {
                assert(joined(out, seq![d]) =~= r[0].push(s.last()));
            } else {
                assert(joined(r, seq![d]) == joined(r.drop_last(), seq![d]) + seq![d] + r.last());
                assert(joined(out, seq![d]) == joined(r.drop_last(), seq![d]) + seq![d]
                    + r.last().push(s.last()));
                assert(joined(out, seq![d]) =~= joined(r, seq![d]).push(s.last()));
            }
            assert(s =~= t.push(s.last()));
            assert forall|i: int| 0 <= i < out.len() implies !(#[trigger] out[i]).contains(d) by {
                if i == out.len() - 1 {
                    assert(!r[r.len() - 1].contains(d));
                    if out[i].contains(d) {
                        let k = choose|k: int| 0 <= k < out[i].len() && out[i][k] == d;
                        assert(r.last()[k] == d);
                    }
                } else {
                    assert(out[i] == r[i]);
                }
            }
        }
    }
}

/// Splits at every `d`.
pub fn split_on(s: &str, d: char) -> (r: Vec<String>)
    ensures
        texts(r@) == pieces(s@, d),
        r.len() >= 1,
{
    let v = chars_of(s);
    let mut done: Vec<String> = Vec::new();
    let mut cur = String::new();
    let mut i: usize = 0;
    proof {
        assert(v@.take(0) =~= Seq::<char>::empty());
        assert(texts(done@).push(cur@) =~= pieces(v@.take(0), d));
    }
    while i < v.len()
        invariant
            i <= v.len(),
            texts(done@).push(cur@) == pieces(v@.take(i as int), d),
        decreases v.len() - i,
    {
        let ghost before = texts(done@).push(cur@);
        proof {
            assert(v@.take(i + 1).drop_last() =~= v@.take(i as int));
            assert(before.drop_last() =~= texts(done@));
        }
        if v[i] == d {
            let ghost prior = done@;
            done.push(cur);
            proof {
                lemma_texts_push(prior, cur);
            }
            cur = String::new();
            proof {
                assert(texts(done@).push(cur@) =~= before.push(Seq::<char>::empty()));
            }
        } else {
            cur.push(v[i]);
        }
        i += 1;
    }
    proof {
        assert(v@.take(v@.len() as int) =~= s@);
        lemma_texts_push(done@, cur);
    }
    done.push(cur);
    done
}

/// Joins the parts with `sep` between each two.
pub fn join(parts: &Vec<String>, sep: &str) -> (r: String)
    ensures
        r@ == joined(texts(parts@), sep@),
{
    proof {
        assert(texts(parts@).subrange(0, parts@.len() as int) =~= texts(parts@));
    }
    join_range(parts, 0, parts.len(), sep)
}

/// Joins the parts from `from` up to `to`.
pub fn join_range(parts: &Vec<String>, from: usize, to: usize, sep: &str) -> (r: String)
    requires
        from <= to <= parts.len(),
    ensures
        r@ == joined(texts(parts@).subrange(from as int, to as int), sep@),
{
    let ghost all = texts(parts@);
    if from == to {
        proof {
            assert(all.subrange(from as int, to as int).len() == 0);
        }
        return String::new();
    }
    let mut out: String = parts[from].clone();
    let mut i: usize = from + 1;
    proof {
        assert(all.subrange(from as int, i as int) =~= seq![all[from as int]]);
    }
    while i < to
        invariant
            from + 1 <= i <= to <= parts.len(),
            all == texts(parts@),
            out@ == joined(all.subrange(from as int, i as int), sep@),
        decreases to - i,
    {
        proof {
            let next = all.subrange(from as int, i + 1);
            assert(next.drop_last() =~= all.subrange(from as int, i as int));
            assert(next.last() == parts@[i as int]@);
        }
        out.append(sep);
        out.append(parts[i].as_str());
        i += 1;
    }
    out
}

// ---------------------------------------------------------------------------------------------
// White space

/// The characters with the Unicode property `White_Space`.
pub open spec fn is_space(c: char) -> bool {
    let n = c as u32;
    9 <= n <= 13 || n == 0x20 || n == 0x85 || n == 0xA0 || n == 0x1680 || 0x2000 <= n <= 0x200A || n
        == 0x2028 || n == 0x2029 || n == 0x202F || n == 0x205F || n == 0x3000
}

/// Whether a character is white space.
pub fn is_whitespace(c: char) -> (r: bool)
    ensures
        r == is_space(c),
{
    let n: u32 = c as u32;
    (9 <= n && n <= 13) || n == 0x20 || n == 0x85 || n == 0xA0 || n == 0x1680 || (0x2000 <= n && n
        <= 0x200A) || n == 0x2028 || n == 0x2029 || n == 0x202F || n == 0x205F || n == 0x3000
}

/// `s` without its leading white space.
pub open spec fn trimmed_start(s: Seq<char>) -> Seq<char>
    decreases s.len(),
{
    if s.len() > 0 && is_space(s[0]) {
        trimmed_start(s.skip(1))
    } else {
        s
    }
}

/// `s` without its trailing white space.
pub open spec fn trimmed_end(s: Seq<char>) -> Seq<char>
    decreases s.len(),
{
    if s.len() > 0 && is_space(s.last()) {
        trimmed_end(s.drop_last())
    } else {
        s
    }
}

/// `s` without its leading and trailing white space.
pub open spec fn trimmed(s: Seq<char>) -> Seq<char> {
    trimmed_end(trimmed_start(s))
}

/// Removes leading and trailing white space.
pub fn trim(s: &str) -> (r: String)
    ensures
        r@ == trimmed(s@),
{
    let v = chars_of(s);
    let mut i: usize = 0;
    proof {
        assert(v@.skip(0) =~= v@);
    }
    while i < v.len() && is_whitespace(v[i])
        invariant
            i <= v.len(),
            trimmed_start(v@.skip(i as int)) == trimmed_start(v@),
        decreases v.len() - i,
    {
        proof {
            assert(v@.skip(i as int).skip(1) =~= v@.skip(i + 1));
        }
        i += 1;
    }
    let mut j: usize = v.len();
    proof {
        assert(v@.subrange(i as int, j as int) =~= v@.skip(i as int));
    }
    while j > i && is_whitespace(v[j - 1])
        invariant
            i <= j <= v.len(),
            trimmed_end(v@.subrange(i as int, j as int)) == trimmed(v@),
        decreases j,
    {
        proof {
            assert(v@.subrange(i as int, j as int).drop_last() =~= v@.subrange(i as int, j - 1));
        }
        j -= 1;
    }
    text_between(&v, i, j)
}

/// Whether `s` holds nothing but white space.
pub open spec fn is_blank(s: Seq<char>) -> bool {
    forall|i: int| 0 <= i < s.len() ==> is_space(#[trigger] s[i])
}

/// Text is blank exactly where nothing is left of it after trimming.
pub proof fn law_blank_is_empty_trimmed(s: Seq<char>)
    ensures
        is_blank(s) <==> trimmed(s).len() == 0,
    decreases s.len(),
{
    lemma_trimmed_start(s);
    let t = trimmed_start(s);
    lemma_trimmed_end(t);
    if is_blank(s) {
        if t.len() > 0 {
            assert(is_space(t[0]));
        }
    }
    if trimmed(s).len() == 0 {
        assert(is_blank(t));
        assert(t.len() == 0);
    }
}

proof fn lemma_trimmed_start(s: Seq<char>)
    ensures
        trimmed_start(s).len() <= s.len(),
        trimmed_start(s).len() > 0 ==> !is_space(trimmed_start(s)[0]),
        forall|i: int|
            0 <= i < trimmed_start(s).len() ==> #[trigger] trimmed_start(s)[i] == s[i + s.len()
                - trimmed_start(s).len()],
        trimmed_start(s).len() == 0 <==> is_blank(s),
    decreases s.len(),
{
    if s.len() > 0 && is_space(s[0]) {
        let t = s.skip(1);
        lemma_trimmed_start(t);
        if is_blank(t) {
            assert forall|i: int| 0 <= i < s.len() implies is_space(#[trigger] s[i]) by {
                if i > 0 {
                    assert(t[i - 1] == s[i]);
                }
            }
        }
        if is_blank(s) {
            assert forall|i: int| 0 <= i < t.len() implies is_space(#[trigger] t[i]) by {
                assert(s[i + 1] == t[i]);
            }
        }
    }
}

proof fn lemma_trimmed_end(s: Seq<char>)
    ensures
        trimmed_end(s).len() == 0 <==> is_blank(s),
    decreases s.len(),
{
    if s.len() > 0 && is_space(s.last()) {
        let t = s.drop_last();
        lemma_trimmed_end(t);
        if is_blank(t) {
            assert forall|i: int| 0 <= i < s.len() implies is_space(#[trigger] s[i]) by {
                if i < t.len() {
                    assert(t[i] == s[i]);
                }
            }
        }
        if is_blank(s) {
            assert forall|i: int| 0 <= i < t.len() implies is_space(#[trigger] t[i]) by {
                assert(s[i] == t[i]);
            }
        }
    }
}

/// Whether `s` holds nothing but white space.
pub fn is_blank_text(s: &str) -> (r: bool)
    ensures
        r == is_blank(s@),
{
    let v = chars_of(s);
    let mut i: usize = 0;
    while i < v.len()
        invariant
            i <= v.len(),
            v@ == s@,
            forall|j: int| 0 <= j < i ==> is_space(#[trigger] s@[j]),
        decreases v.len() - i,
    {
        if !is_whitespace(v[i]) {
            return false;
        }
        i += 1;
    }
    true
}

/// The maximal runs of characters that are not white space, in order.
pub open spec fn words(s: Seq<char>) -> Seq<Seq<char>>
    decreases s.len(),
{
    if s.len() == 0 {
        Seq::<Seq<char>>::empty()
    } else if is_space(s.last()) {
        words(s.drop_last())
    } else if s.len() >= 2 && !is_space(s[s.len() - 2]) {
        let r = words(s.drop_last());
        r.drop_last().push(r.last().push(s.last()))
    } else {
        words(s.drop_last()).push(seq![s.last()])
    }
}

proof fn lemma_words(s: Seq<char>)
    ensures
        s.len() > 0 && !is_space(s.last()) ==> words(s).len() > 0,
    decreases s.len(),
{
    if s.len() > 0 && !is_space(s.last()) && s.len() >= 2 && !is_space(s[s.len() - 2]) {
        lemma_words(s.drop_last());
    }
}

/// Splits at white space, dropping empty pieces.
pub fn split_whitespace(s: &str) -> (r: Vec<String>)
    ensures
        texts(r@) == words(s@),
{
    let v = chars_of(s);
    let mut done: Vec<String> = Vec::new();
    let mut cur = String::new();
    let mut open: bool = false;
    let mut i: usize = 0;
    proof {
        assert(v@.take(0) =~= Seq::<char>::empty());
        assert(texts(done@) =~= words(v@.take(0)));
    }
    while i < v.len()
        invariant
            i <= v.len(),
            open == (i > 0 && !is_space(v@[i - 1])),
            open ==> texts(done@).push(cur@) == words(v@.take(i as int)),
            !open ==> texts(done@) == words(v@.take(i as int)) && cur@.len() == 0,
        decreases v.len() - i,
    {
        let ghost pre = v@.take(i as int);
        proof {
            assert(v@.take(i + 1).drop_last() =~= pre);
            assert(open ==> words(pre).drop_last() =~= texts(done@));
        }
        let c: char = v[i];
        if is_whitespace(c) {
            if open {
                proof {
                    lemma_texts_push(done@, cur);
                }
                done.push(cur);
                cur = String::new();
                open = false;
            }
        } else {
            proof {
                if !open {
                    assert(cur@ =~= Seq::<char>::empty());
                    assert(Seq::<char>::empty().push(c) =~= seq![c]);
                }
            }
            cur.push(c);
            open = true;
        }
        i += 1;
    }
    proof {
        assert(v@.take(v@.len() as int) =~= s@);
    }
    if open {
        proof {
            lemma_texts_push(done@, cur);
        }
        done.push(cur);
    }
    done
}

// ---------------------------------------------------------------------------------------------
// Numbers

/// The value of a decimal digit.
pub open spec fn digit_value(c: char) -> int {
    c as int - '0' as int
}

/// Whether every character of `s` is a decimal digit.
pub open spec fn all_digits(s: Seq<char>) -> bool {
    forall|i: int| 0 <= i < s.len() ==> '0' <= #[trigger] s[i] <= '9'
}

/// The number that a sequence of decimal digits denotes.
pub open spec fn digits_value(s: Seq<char>) -> int
    decreases s.len(),
{
    if s.len() == 0 {
        0
    } else {
        digits_value(s.drop_last()) * 10 + digit_value(s.last())
    }
}

/// The number that `s` denotes: an optional plus sign and at least one digit, at most `max`.
pub open spec fn number(s: Seq<char>, max: int) -> Option<int> {
    let d = if s.len() > 0 && s[0] == '+' {
        s.skip(1)
    } else {
        s
    };
    if d.len() > 0 && all_digits(d) && digits_value(d) <= max {
        Some(digits_value(d))
    } else {
        None
    }
}

proof fn lemma_digits_value_grows(s: Seq<char>, k: int)
    requires
        0 <= k <= s.len(),
        all_digits(s),
    ensures
        0 <= digits_value(s.take(k)) <= digits_value(s),
    decreases s.len(),
{
    if s.len() == 0 {
        assert(s.take(k) =~= s);
    } else {
        let t = s.drop_last();
        assert forall|i: int| 0 <= i < t.len() implies '0' <= #[trigger] t[i] <= '9' by {
            assert(s[i] == t[i]);
        }
        if k == s.len() {
            assert(s.take(k) =~= s);
            lemma_digits_value_grows(t, 0);
            assert(t.take(0) =~= Seq::<char>::empty());
            assert('0' <= s[s.len() - 1] <= '9');
        } else {
            lemma_digits_value_grows(t, k);
            assert(t.take(k) =~= s.take(k));
            assert('0' <= s[s.len() - 1] <= '9');
        }
    }
}

/// Reads an unsigned number, as `str::parse` does.
pub fn parse_u64(s: &str) -> (r: Option<u64>)
    ensures
        match r {
            Some(n) => number(s@, u64::MAX as int) == Some(n as int),
            None => number(s@, u64::MAX as int) is None,
        },
{
    let v = chars_of(s);
    let start: usize = if v.len() > 0 && v[0] == '+' {
        1
    } else {
        0
    };
    let ghost d = v@.skip(start as int);
    proof {
        assert(start == 0 ==> d =~= s@);
    }
    if start == v.len() {
        return None;
    }
    let mut n: u64 = 0;
    let mut i: usize = start;
    proof {
        assert(d.take(0) =~= Seq::<char>::empty());
    }
    while i < v.len()
        invariant
            start <= i <= v.len(),
            v@ == s@,
            d == v@.skip(start as int),
            all_digits(d.take(i - start)),
            n == digits_value(d.take(i - start)),
            d.len() > 0,
            number(s@, u64::MAX as int) == (if d.len() > 0 && all_digits(d) && digits_value(d)
                <= u64::MAX {
                Some(digits_value(d))
            } else {
                None
            }),
        decreases v.len() - i,
    {
        let c: char = v[i];
        proof {
            assert(d[i - start] == c);
        }
        if !('0' <= c && c <= '9') {
            return None;
        }
        let k: u64 = (c as u32 - '0' as u32) as u64;
        let ghost next = d.take(i - start + 1);
        proof {
            assert(next.drop_last() =~= d.take(i - start));
            assert(digits_value(next) == n * 10 + k);
            assert(all_digits(next)) by {
                assert forall|j: int| 0 <= j < next.len() implies '0' <= #[trigger] next[j] <= '9' by {
                    if j < i - start {
                        assert(d.take(i - start)[j] == next[j]);
                    }
                }
            }
        }
        if n > (u64::MAX - k) / 10 {
            proof {
                if all_digits(d) {
                    lemma_digits_value_grows(d, i - start + 1);
                }
                assert(n * 10 + k > u64::MAX);
            }
            return None;
        }
        n = n * 10 + k;
        i += 1;
    }
    proof {
        assert(d.take(d.len() as int) =~= d);
    }
    Some(n)
}

/// Reads an unsigned 32-bit number, as `str::parse` does.
pub fn parse_u32(s: &str) -> (r: Option<u32>)
    ensures
        match r {
            Some(n) => number(s@, u32::MAX as int) == Some(n as int),
            None => number(s@, u32::MAX as int) is None,
        },
{
    match parse_u64(s) {
        Some(n) => if n <= 0xffff_ffff {
            Some(n as u32)
        } else {
            None
        },
        None => None,
    }
}

/// The decimal notation of a number.
pub open spec fn decimal(n: nat) -> Seq<char>
    decreases n,
{
    if n < 10 {
        seq![('0' as int + n) as char]
    } else {
        decimal(n / 10).push(('0' as int + n % 10) as char)
    }
}

/// The character of a decimal digit.
fn digit_char(k: u64) -> (r: char)
    requires
        k < 10,
    ensures
        r == ('0' as int + k) as char,
{
    if k == 0 {
        '0'
    } else if k == 1 {
        '1'
    } else if k == 2 {
        '2'
    } else if k == 3 {
        '3'
    } else if k == 4 {
        '4'
    } else if k == 5 {
        '5'
    } else if k == 6 {
        '6'
    } else if k == 7 {
        '7'
    } else if k == 8 {
        '8'
    } else {
        '9'
    }
}

/// Writes a number in decimal notation.
pub fn to_decimal(n: u64) -> (r: String)
    ensures
        r@ == decimal(n as nat),
    decreases n,
{
    if n < 10 {
        let mut out = String::new();
        out.push(digit_char(n));
        proof {
            assert(out@ =~= seq![('0' as int + n) as char]);
        }
        out
    } else {
        let mut out = to_decimal(n / 10);
        out.push(digit_char(n % 10));
        out
    }
}

/// A number is read back from its decimal notation.
pub proof fn law_decimal_round_trip(n: nat, max: int)
    requires
        n <= max,
    ensures
        number(decimal(n), max) == Some(n as int),
{
    lemma_decimal(n);
}

pub proof fn lemma_decimal(n: nat)
    ensures
        decimal(n).len() > 0,
        all_digits(decimal(n)),
        digits_value(decimal(n)) == n,
    decreases n,
{
    if n < 10 {
        let d = decimal(n);
        assert(d.drop_last() =~= Seq::<char>::empty());
        assert(digits_value(d.drop_last()) == 0);
    } else {
        lemma_decimal(n / 10);
        let d = decimal(n);
        assert(d.drop_last() =~= decimal(n / 10));
        assert forall|i: int| 0 <= i < d.len() implies '0' <= #[trigger] d[i] <= '9' by {
            if i < d.len() - 1 {
                assert(d[i] == decimal(n / 10)[i]);
            }
        }
    }
}

// ---------------------------------------------------------------------------------------------
// Replacement and letter case

/// `s` with each occurrence of `from`, taken from the left without overlap, written as `to`.
pub open spec fn replaced(s: Seq<char>, from: Seq<char>, to: Seq<char>) -> Seq<char>
    decreases s.len(),
{
    if s.len() == 0 || from.len() == 0 {
        s
    } else if begins(s, from) {
        to + replaced(s.skip(from.len() as int), from, to)
    } else {
        seq![s[0]] + replaced(s.skip(1), from, to)
    }
}

/// Whether `p` stands in `v` at `at`.
fn stands_at(v: &Vec<char>, at: usize, p: &Vec<char>) -> (r: bool)
    requires
        at <= v.len(),
    ensures
        r == begins(v@.skip(at as int), p@),
{
    if p.len() > v.len() - at {
        return false;
    }
    let mut i: usize = 0;
    while i < p.len()
        invariant
            i <= p.len(),
            at + p.len() <= v.len(),
            forall|k: int| 0 <= k < i ==> v@[at + k] == p@[k],
        decreases p.len() - i,
    {
        if v[at + i] != p[i] {
            proof {
                assert(v@.skip(at as int).take(p@.len() as int)[i as int] == v@[at + i]);
            }
            return false;
        }
        i += 1;
    }
    proof {
        assert(v@.skip(at as int).take(p@.len() as int) =~= p@);
    }
    true
}

/// Replaces every occurrence of `from`, which is not empty, by `to`.
pub fn replace_all(s: &str, from: &str, to: &str) -> (r: String)
    requires
        from@.len() > 0,
    ensures
        r@ == replaced(s@, from@, to@),
{
    let v = chars_of(s);
    let p = chars_of(from);
    let mut out = String::new();
    let mut i: usize = 0;
    proof {
        assert(v@.skip(0) =~= v@);
        assert(out@ + replaced(v@, p@, to@) =~= replaced(v@, p@, to@));
    }
    while i < v.len()
        invariant
            i <= v.len(),
            p@.len() > 0,
            out@ + replaced(v@.skip(i as int), p@, to@) == replaced(v@, p@, to@),
        decreases v.len() - i,
    {
        let ghost rest = v@.skip(i as int);
        if stands_at(&v, i, &p) {
            let ghost prior = out@;
            out.append(to);
            proof {
                assert(rest.skip(p@.len() as int) =~= v@.skip(i + p@.len()));
                assert(prior + (to@ + replaced(v@.skip(i + p@.len()), p@, to@)) =~= prior + to@
                    + replaced(v@.skip(i + p@.len()), p@, to@));
            }
            i += p.len();
        } else {
            let ghost prior = out@;
            out.push(v[i]);
            proof {
                assert(rest.skip(1) =~= v@.skip(i + 1));
                assert(prior + (seq![rest[0]] + replaced(v@.skip(i + 1), p@, to@)) =~= prior.push(
                    rest[0],
                ) + replaced(v@.skip(i + 1), p@, to@));
            }
            i += 1;
        }
    }
    proof {
        assert(v@.skip(v@.len() as int) =~= Seq::<char>::empty());
        assert(out@ + Seq::<char>::empty() =~= out@);
    }
    out
}

/// An ASCII letter in lower case; any other character as it is.
pub open spec fn lower_ascii(c: char) -> char {
    if 'A' <= c <= 'Z' {
        (c as u32 + 32) as char
    } else {
        c
    }
}

/// An ASCII letter in upper case; any other character as it is.
pub open spec fn upper_ascii(c: char) -> char {
    if 'a' <= c <= 'z' {
        (c as u32 - 32) as char
    } else {
        c
    }
}

/// `s` with its ASCII letters in lower case.
pub open spec fn lowered(s: Seq<char>) -> Seq<char> {
    Seq::new(s.len(), |i: int| lower_ascii(s[i]))
}

/// `s` with its ASCII letters in upper case.
pub open spec fn uppered(s: Seq<char>) -> Seq<char> {
    Seq::new(s.len(), |i: int| upper_ascii(s[i]))
}

/// An ASCII letter in lower case.
fn char_lower(c: char) -> (r: char)
    ensures
        r == lower_ascii(c),
{
    if 'A' <= c && c <= 'Z' {
        let n: u8 = (c as u32 + 32) as u8;
        n as char
    } else {
        c
    }
}

/// An ASCII letter in upper case.
fn char_upper(c: char) -> (r: char)
    ensures
        r == upper_ascii(c),
{
    if 'a' <= c && c <= 'z' {
        let n: u8 = (c as u32 - 32) as u8;
        n as char
    } else {
        c
    }
}

/// Writes the ASCII letters of `s` in upper case.
pub fn to_upper(s: &str) -> (r: String)
    ensures
        r@ == uppered(s@),
{
    let v = chars_of(s);
    let mut out = String::new();
    let mut i: usize = 0;
    while i < v.len()
        invariant
            i <= v.len(),
            out@ == uppered(v@).take(i as int),
        decreases v.len() - i,
    {
        out.push(char_upper(v[i]));
        proof {
            assert(uppered(v@).take(i + 1) =~= uppered(v@).take(i as int).push(upper_ascii(v@[i as int])));
        }
        i += 1;
    }
    proof {
        assert(uppered(v@).take(v@.len() as int) =~= uppered(v@));
    }
    out
}

/// Whether two strings differ at most in the case of their ASCII letters.
pub fn same_ignoring_case(a: &str, b: &str) -> (r: bool)
    ensures
        r == (lowered(a@) == lowered(b@)),
{
    let v = chars_of(a);
    let w = chars_of(b);
    if v.len() != w.len() {
        proof {
            assert(lowered(a@).len() != lowered(b@).len());
        }
        return false;
    }
    let mut i: usize = 0;
    while i < v.len()
        invariant
            i <= v.len(),
            v.len() == w.len(),
            v@ == a@,
            w@ == b@,
            forall|j: int| 0 <= j < i ==> lowered(a@)[j] == lowered(b@)[j],
        decreases v.len() - i,
    {
        if char_lower(v[i]) != char_lower(w[i]) {
            proof {
                assert(lowered(a@)[i as int] != lowered(b@)[i as int]);
            }
            return false;
        }
        i += 1;
    }
    proof {
        assert(lowered(a@) =~= lowered(b@));
    }
    true
}

/// What `str::to_lowercase` of std makes of a string.
pub uninterp spec fn unicode_lowercase(s: Seq<char>) -> Seq<char>;

/// `str::to_lowercase` of std, by its name.
#[verifier::external_body]
pub(crate) fn to_lowercase(s: &str) -> (r: String)
    ensures
        r@ == unicode_lowercase(s@),
{
    s.to_lowercase()
}

// ---------------------------------------------------------------------------------------------
// Order

/// Whether `a` comes strictly before `b`, character by character.
pub open spec fn text_before(a: Seq<char>, b: Seq<char>) -> bool
    decreases a.len(),
{
    if b.len() == 0 {
        false
    } else if a.len() == 0 {
        true
    } else if a[0] != b[0] {
        a[0] < b[0]
    } else {
        text_before(a.skip(1), b.skip(1))
    }
}

pub proof fn lemma_text_before_irreflexive(a: Seq<char>)
    ensures
        !text_before(a, a),
    decreases a.len(),
{
    if a.len() > 0 {
        lemma_text_before_irreflexive(a.skip(1));
    }
}

pub proof fn lemma_text_before_transitive(a: Seq<char>, b: Seq<char>, c: Seq<char>)
    requires
        text_before(a, b),
        text_before(b, c),
    ensures
        text_before(a, c),
    decreases a.len(),
{
    if a.len() > 0 && a[0] == b[0] && b[0] == c[0] {
        lemma_text_before_transitive(a.skip(1), b.skip(1), c.skip(1));
    }
}

pub proof fn lemma_text_before_total(a: Seq<char>, b: Seq<char>)
    ensures
        text_before(a, b) || a == b || text_before(b, a),
    decreases a.len(),
{
    if a.len() == 0 && b.len() == 0 {
        assert(a =~= b);
    } else if a.len() > 0 && b.len() > 0 && a[0] == b[0] {
        lemma_text_before_total(a.skip(1), b.skip(1));
        if a.skip(1) == b.skip(1) {
            assert(a =~= seq![a[0]] + a.skip(1));
            assert(b =~= seq![b[0]] + b.skip(1));
        }
    }
}

/// Whether `a` comes strictly before `b`.
pub fn is_before(a: &str, b: &str) -> (r: bool)
    ensures
        r == text_before(a@, b@),
{
    let v = chars_of(a);
    let w = chars_of(b);
    let mut i: usize = 0;
    proof {
        assert(v@.skip(0) =~= v@);
        assert(w@.skip(0) =~= w@);
    }
    while i < v.len() && i < w.len() && v[i] == w[i]
        invariant
            i <= v.len(),
            i <= w.len(),
            text_before(v@.skip(i as int), w@.skip(i as int)) == text_before(v@, w@),
        decreases v.len() - i,
    {
        proof {
            assert(v@.skip(i as int).skip(1) =~= v@.skip(i + 1));
            assert(w@.skip(i as int).skip(1) =~= w@.skip(i + 1));
        }
        i += 1;
    }
    if i == w.len() {
        false
    } else if i == v.len() {
        true
    } else {
        v[i] < w[i]
    }
}

/// Whether the strings stand in order, none twice.
pub open spec fn strictly_ascending(v: Seq<Seq<char>>) -> bool {
    forall|i: int, j: int| 0 <= i < j < v.len() ==> text_before(#[trigger] v[i], #[trigger] v[j])
}

/// Two ascending lists that hold the same texts are the same.
pub proof fn law_ascending_is_determined(a: Seq<Seq<char>>, b: Seq<Seq<char>>)
    requires
        strictly_ascending(a),
        strictly_ascending(b),
        forall|q: Seq<char>| #[trigger] a.contains(q) == b.contains(q),
    ensures
        a == b,
    decreases a.len(),
{
    if a.len() == 0 {
        if b.len() > 0 {
            assert(b.contains(b[0]));
            assert(a.contains(b[0]));
        }
        assert(a =~= b);
    } else if b.len() == 0 {
        assert(a.contains(a[0]));
        assert(b.contains(a[0]));
    } else {
        let m = a.len() - 1;
        let n = b.len() - 1;
        assert(a.contains(a[m]));
        assert(b.contains(b[n]));
        assert(b.contains(a[m]));
        assert(a.contains(b[n]));
        let i = choose|i: int| 0 <= i < b.len() && b[i] == a[m];
        let j = choose|j: int| 0 <= j < a.len() && a[j] == b[n];
        if i < n {
            assert(text_before(b[i], b[n]));
            if j < m {
                assert(text_before(a[j], a[m]));
                lemma_text_before_transitive(a[m], b[n], a[m]);
            }
            lemma_text_before_irreflexive(a[m]);
        }
        let x = a.drop_last();
        let y = b.drop_last();
        assert forall|q: Seq<char>| #[trigger] x.contains(q) == y.contains(q) by {
            assert(a.contains(q) == b.contains(q));
            if x.contains(q) {
                let k = choose|k: int| 0 <= k < x.len() && x[k] == q;
                assert(a[k] == q);
                assert(text_before(a[k], a[m]));
                lemma_text_before_irreflexive(a[m]);
                let l = choose|l: int| 0 <= l < b.len() && b[l] == q;
                assert(l != n);
                assert(y[l] == q);
            }
            if y.contains(q) {
                let k = choose|k: int| 0 <= k < y.len() && y[k] == q;
                assert(b[k] == q);
                assert(text_before(b[k], b[n]));
                lemma_text_before_irreflexive(b[n]);
                let l = choose|l: int| 0 <= l < a.len() && a[l] == q;
                assert(l != m);
                assert(x[l] == q);
            }
        }
        law_ascending_is_determined(x, y);
        assert(a =~= x.push(a[m]));
        assert(b =~= y.push(b[n]));
    }
}

/// The texts of a list in ascending order, each once.
pub fn sorted_texts(v: &Vec<String>) -> (r: Vec<String>)
    ensures
        strictly_ascending(texts(r@)),
        forall|q: Seq<char>| #[trigger] texts(r@).contains(q) == texts(v@).contains(q),
{
    let ghost all = texts(v@);
    let mut m: crate::map::SortedMap<String, ()> = crate::map::SortedMap::new();
    let mut i: usize = 0;
    while i < v.len()
        invariant
            i <= v@.len(),
            all == texts(v@),
            m.wf(),
            forall|q: Seq<char>|
                (#[trigger] crate::map::find(m.entries@, q) is Some) == all.take(i as int).contains(q),
        decreases v@.len() - i,
    {
        let ghost before = m.entries@;
        m.insert(v[i].clone(), ());
        proof {
            assert forall|q: Seq<char>|
                (#[trigger] crate::map::find(m.entries@, q) is Some) == all.take(i + 1).contains(
                    q,
                ) by {
                assert((crate::map::find(before, q) is Some) == all.take(i as int).contains(q));
                if all.take(i as int).contains(q) {
                    let k = choose|k: int| 0 <= k < i && all.take(i as int)[k] == q;
                    assert(all.take(i + 1)[k] == q);
                }
                let next = all.take(i + 1);
                if next.contains(q) {
                    let k = choose|k: int| 0 <= k < next.len() && next[k] == q;
                    if k < i {
                        assert(all.take(i as int)[k] == q);
                    }
                }
                if q == v@[i as int]@ {
                    assert(all.take(i + 1)[i as int] == q);
                }
            }
        }
        i += 1;
    }
    let mut out: Vec<String> = Vec::new();
    let mut j: usize = 0;
    while j < m.entries.len()
        invariant
            j <= m.entries@.len(),
            out@.len() == j,
            forall|k: int| 0 <= k < j ==> (#[trigger] out@[k])@ == m.entries@[k].0@,
        decreases m.entries@.len() - j,
    {
        out.push(m.entries[j].0.clone());
        j += 1;
    }
    proof {
        let names = texts(out@);
        assert(all.take(all.len() as int) =~= all);
        assert forall|a: int, b: int| 0 <= a < b < names.len() implies text_before(
            #[trigger] names[a],
            #[trigger] names[b],
        ) by {
            assert(names[a] == m.entries@[a].0@);
            assert(names[b] == m.entries@[b].0@);
            assert(<String as crate::map::Key>::before(m.entries@[a].0@, m.entries@[b].0@));
        }
        assert forall|q: Seq<char>| #[trigger] names.contains(q) == all.contains(q) by {
            crate::map::lemma_slot(m.entries@, q);
            assert((crate::map::find(m.entries@, q) is Some) == all.contains(q));
            if names.contains(q) {
                let k = choose|k: int| 0 <= k < names.len() && names[k] == q;
                crate::map::lemma_slot_at(m.entries@, k);
            }
            if crate::map::find(m.entries@, q) is Some {
                assert(names[crate::map::slot(m.entries@, q)] == q);
            }
        }
    }
    out
}

/// Whether a text stands before another or is the same.
pub open spec fn not_after(a: Seq<char>, b: Seq<char>) -> bool {
    a == b || text_before(a, b)
}

/// A list in order with one more text at its place, behind those that are the same.
pub open spec fn placed(v: Seq<Seq<char>>, s: Seq<char>) -> Seq<Seq<char>>
    decreases v.len(),
{
    if v.len() == 0 || not_after(v.last(), s) {
        v.push(s)
    } else {
        placed(v.drop_last(), s).push(v.last())
    }
}

/// A list in order; a text that stands several times stays that often.
pub open spec fn sorted(v: Seq<Seq<char>>) -> Seq<Seq<char>>
    decreases v.len(),
{
    if v.len() == 0 {
        v
    } else {
        placed(sorted(v.drop_last()), v.last())
    }
}

/// Whether no text of a list stands before an earlier one.
pub open spec fn ascending(v: Seq<Seq<char>>) -> bool {
    forall|i: int, j: int| 0 <= i < j < v.len() ==> not_after(#[trigger] v[i], #[trigger] v[j])
}

/// Sorting a list puts it in order and neither adds nor loses a text.
pub proof fn law_sorted(v: Seq<Seq<char>>)
    ensures
        ascending(sorted(v)),
        sorted(v).to_multiset() == v.to_multiset(),
    decreases v.len(),
{
    broadcast use vstd::seq_lib::group_to_multiset_ensures;

    if v.len() > 0 {
        let d = v.drop_last();
        law_sorted(d);
        lemma_placed(sorted(d), v.last());
        assert(d.push(v.last()) =~= v);
    }
}

proof fn lemma_placed(v: Seq<Seq<char>>, s: Seq<char>)
    requires
        ascending(v),
    ensures
        ascending(placed(v, s)),
        placed(v, s).len() == v.len() + 1,
        placed(v, s).to_multiset() == v.to_multiset().insert(s),
        forall|i: int|
            0 <= i < placed(v, s).len() ==> #[trigger] placed(v, s)[i] == s || v.contains(
                placed(v, s)[i],
            ),
    decreases v.len(),
{
    broadcast use vstd::seq_lib::group_to_multiset_ensures;

    let p = placed(v, s);
    if v.len() == 0 {
        assert(p[0] == s);
    } else if not_after(v.last(), s) {
        assert forall|i: int, j: int| 0 <= i < j < p.len() implies not_after(
            #[trigger] p[i],
            #[trigger] p[j],
        ) by {
            if j == v.len() {
                if i < v.len() - 1 {
                    assert(not_after(v[i], v[v.len() - 1]));
                    if v[i] != v.last() && v.last() != s {
                        lemma_text_before_transitive(v[i], v.last(), s);
                    }
                }
            } else {
                assert(not_after(v[i], v[j]));
            }
        }
        assert forall|i: int| 0 <= i < p.len() implies #[trigger] p[i] == s || v.contains(p[i]) by {
            if i < v.len() {
                assert(v[i] == p[i]);
            }
        }
    } else {
        let d = v.drop_last();
        let q = placed(d, s);
        lemma_placed(d, s);
        lemma_text_before_total(v.last(), s);
        assert(d.push(v.last()) =~= v);
        assert forall|i: int, j: int| 0 <= i < j < p.len() implies not_after(
            #[trigger] p[i],
            #[trigger] p[j],
        ) by {
            if j == q.len() {
                if q[i] != s {
                    let k = choose|k: int| 0 <= k < d.len() && d[k] == q[i];
                    assert(not_after(v[k], v[v.len() - 1]));
                }
            } else {
                assert(not_after(q[i], q[j]));
            }
        }
        assert forall|i: int| 0 <= i < p.len() implies #[trigger] p[i] == s || v.contains(p[i]) by {
            if i < q.len() {
                assert(p[i] == q[i]);
                if q[i] != s {
                    let k = choose|k: int| 0 <= k < d.len() && d[k] == q[i];
                    assert(v[k] == p[i]);
                }
            } else {
                assert(v[v.len() - 1] == p[i]);
            }
        }
        assert(p.to_multiset() =~= v.to_multiset().insert(s));
    }
}

/// What stands in a list in order stood in the list.
pub proof fn lemma_sorted_members(v: Seq<Seq<char>>, i: int)
    requires
        0 <= i < sorted(v).len(),
    ensures
        v.contains(sorted(v)[i]),
{
    broadcast use vstd::seq_lib::group_to_multiset_ensures;

    law_sorted(v);
    assert(sorted(v).contains(sorted(v)[i]));
    assert(sorted(v).to_multiset().count(sorted(v)[i]) > 0);
    assert(v.to_multiset().count(sorted(v)[i]) > 0);
}

/// Puts a list in order.
pub fn sort_texts(v: &Vec<String>) -> (r: Vec<String>)
    ensures
        texts(r@) == sorted(texts(v@)),
{
    let ghost all = texts(v@);
    let mut out: Vec<String> = Vec::new();
    let mut i: usize = 0;
    proof {
        assert(all.take(0) =~= Seq::<Seq<char>>::empty());
        assert(texts(out@) =~= Seq::<Seq<char>>::empty());
    }
    while i < v.len()
        invariant
            i <= v@.len(),
            all == texts(v@),
            texts(out@) == sorted(all.take(i as int)),
        decreases v@.len() - i,
    {
        let ghost prior = texts(out@);
        let s = v[i].as_str();
        proof {
            assert(all.take(i + 1).drop_last() =~= all.take(i as int));
            assert(all.take(i + 1).last() == s@);
            assert(prior.take(prior.len() as int) =~= prior);
            assert(prior.skip(prior.len() as int) =~= Seq::<Seq<char>>::empty());
            assert(placed(prior, s@) =~= placed(prior, s@) + Seq::<Seq<char>>::empty());
        }
        let mut j: usize = out.len();
        while j > 0 && is_before(s, out[j - 1].as_str())
            invariant
                j <= out@.len(),
                prior == texts(out@),
                placed(prior, s@) == placed(prior.take(j as int), s@) + prior.skip(j as int),
            decreases j,
        {
            proof {
                let t = prior.take(j as int);
                assert(t.last() == out@[j - 1]@);
                lemma_not_after(out@[j - 1]@, s@);
                assert(t.drop_last() =~= prior.take(j - 1));
                assert(placed(t, s@) == placed(t.drop_last(), s@).push(t.last()));
                assert(placed(t.drop_last(), s@).push(t.last()) + prior.skip(j as int) =~= placed(
                    t.drop_last(),
                    s@,
                ) + prior.skip(j - 1));
            }
            j -= 1;
        }
        proof {
            let t = prior.take(j as int);
            if j > 0 {
                assert(t.last() == out@[j - 1]@);
                lemma_text_before_total(out@[j - 1]@, s@);
            }
            assert(placed(t, s@) == t.push(s@));
            assert(t.push(s@) + prior.skip(j as int) =~= prior.insert(j as int, s@));
        }
        let ghost before = out@;
        let copy = s.to_owned();
        out.insert(j, copy);
        proof {
            assert(texts(out@) =~= prior.insert(j as int, s@));
        }
        i += 1;
    }
    proof {
        assert(all.take(all.len() as int) =~= all);
    }
    out
}

proof fn lemma_not_after(a: Seq<char>, b: Seq<char>)
    requires
        text_before(b, a),
    ensures
        !not_after(a, b),
{
    lemma_text_before_irreflexive(a);
    if text_before(a, b) {
        lemma_text_before_transitive(a, b, a);
    }
}

} // verus!
