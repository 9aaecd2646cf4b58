//! Maps that keep the order in which keys came in.
//!
//! The maps are those of the `starlark` crate. What the library relies on is stated in the contracts
//! of the functions below, over the list of a map's entries.

use starlark::collections::SmallMap;
use vstd::prelude::*;

use crate::text::opt_str;

verus! {

/// The map type of the `starlark` crate; nothing inside it is seen.
#[verifier::external_type_specification]
#[verifier::external_body]
#[verifier::reject_recursive_types(K)]
#[verifier::reject_recursive_types(V)]
pub struct ExSmallMap<K, V>(SmallMap<K, V>);

/// The entries of a map from text to numbers, in the order of the map's iteration.
pub uninterp spec fn handles_in(m: SmallMap<String, usize>) -> Seq<(Seq<char>, usize)>;

/// The entries of a map from text to text, in the order of the map's iteration.
pub uninterp spec fn texts_in(m: SmallMap<String, String>) -> Seq<(Seq<char>, Seq<char>)>;

/// The place of the entry for a key, or the number of entries.
pub open spec fn place<V>(s: Seq<(Seq<char>, V)>, k: Seq<char>) -> int
    decreases s.len(),
{
    if s.len() == 0 {
        0
    } else if s[0].0 == k {
        0
    } else {
        1 + place(s.skip(1), k)
    }
}

/// The value that stands under a key.
pub open spec fn under<V>(s: Seq<(Seq<char>, V)>, k: Seq<char>) -> Option<V> {
    if place(s, k) < s.len() {
        Some(s[place(s, k)].1)
    } else {
        None
    }
}

/// The entries after a value is put under a key: in its place where the key is known, else at the
/// end.
pub open spec fn put<V>(s: Seq<(Seq<char>, V)>, k: Seq<char>, v: V) -> Seq<(Seq<char>, V)> {
    if place(s, k) < s.len() {
        s.update(place(s, k), (k, v))
    } else {
        s.push((k, v))
    }
}

/// The entries without that of a key.
pub open spec fn without<V>(s: Seq<(Seq<char>, V)>, k: Seq<char>) -> Seq<(Seq<char>, V)> {
    if place(s, k) < s.len() {
        s.remove(place(s, k))
    } else {
        s
    }
}

/// Whether no key stands twice.
pub open spec fn distinct<V>(s: Seq<(Seq<char>, V)>) -> bool {
    forall|i: int, j: int| 0 <= i < j < s.len() ==> (#[trigger] s[i]).0 != (#[trigger] s[j]).0
}

/// The keys of the entries.
pub open spec fn names_of<V>(s: Seq<(Seq<char>, V)>) -> Seq<Seq<char>> {
    Seq::new(s.len(), |i: int| s[i].0)
}

pub proof fn lemma_place<V>(s: Seq<(Seq<char>, V)>, k: Seq<char>)
    ensures
        0 <= place(s, k) <= s.len(),
        place(s, k) < s.len() ==> s[place(s, k)].0 == k,
        forall|i: int| 0 <= i < place(s, k) ==> (#[trigger] s[i]).0 != k,
        under(s, k) is Some <==> names_of(s).contains(k),
    decreases s.len(),
{
    if s.len() > 0 && s[0].0 != k {
        let t = s.skip(1);
        lemma_place(t, k);
        assert forall|i: int| 0 <= i < place(s, k) implies (#[trigger] s[i]).0 != k by {
            if i > 0 {
                assert(t[i - 1] == s[i]);
            }
        }
    }
    if under(s, k) is Some {
        assert(names_of(s)[place(s, k)] == k);
    } else if names_of(s).contains(k) {
        let i = choose|i: int| 0 <= i < names_of(s).len() && names_of(s)[i] == k;
        assert(s[i].0 != k);
    }
}

/// What a map holds after a value is put under a key.
pub proof fn lemma_put<V>(s: Seq<(Seq<char>, V)>, k: Seq<char>, v: V)
    requires
        distinct(s),
    ensures
        distinct(put(s, k, v)),
        forall|q: Seq<char>|
            #[trigger] under(put(s, k, v), q) == (if q == k {
                Some(v)
            } else {
                under(s, q)
            }),
{
    lemma_place(s, k);
    let t = put(s, k, v);
    let at = place(s, k);
    assert forall|i: int, j: int| 0 <= i < j < t.len() implies (#[trigger] t[i]).0 != (
    #[trigger] t[j]).0 by {
        if i < s.len() {
            assert(t[i].0 == s[i].0);
        }
        if j < s.len() {
            assert(t[j].0 == s[j].0);
        } else if at == s.len() && i < at {
            assert(s[i].0 != k);
        }
    }
    assert forall|q: Seq<char>|
        #[trigger] under(t, q) == (if q == k {
            Some(v)
        } else {
            under(s, q)
        }) by {
        lemma_place(s, q);
        lemma_place(t, q);
        let a = place(s, q);
        let b = place(t, q);
        if q == k {
            assert(t[at].0 == k);
            if b < at {
                assert(t[b].0 == s[b].0);
            }
        } else if a < s.len() {
            assert(t[a].0 == q);
            if b < a {
                assert(t[b].0 == s[b].0);
            }
        } else if b < t.len() {
            if b < s.len() {
                assert(t[b].0 == s[b].0);
            }
        }
    }
}

/// What a map holds after a key's entry is removed.
pub proof fn lemma_without<V>(s: Seq<(Seq<char>, V)>, k: Seq<char>)
    requires
        distinct(s),
    ensures
        distinct(without(s, k)),
        forall|q: Seq<char>|
            #[trigger] under(without(s, k), q) == (if q == k {
                None
            } else {
                under(s, q)
            }),
{
    lemma_place(s, k);
    let t = without(s, k);
    let at = place(s, k);
    if at < s.len() {
        assert forall|i: int| 0 <= i < t.len() implies (#[trigger] t[i]) == (if i < at {
            s[i]
        } else {
            s[i + 1]
        }) by {}
        assert forall|q: Seq<char>|
            #[trigger] under(t, q) == (if q == k {
                None
            } else {
                under(s, q)
            }) by {
            lemma_place(s, q);
            lemma_place(t, q);
            let a = place(s, q);
            let b = place(t, q);
            if q == k {
                if b < t.len() {
                    if b < at {
                        assert(t[b] == s[b]);
                    } else {
                        assert(t[b] == s[b + 1]);
                        assert(s[at].0 != s[b + 1].0);
                    }
                }
            } else if a < s.len() {
                let c = if a < at {
                    a
                } else {
                    a - 1
                };
                assert(t[c] == s[a]);
                if b < c {
                    if b < at {
                        assert(t[b] == s[b]);
                    } else {
                        assert(t[b] == s[b + 1]);
                        assert(s[b + 1].0 != s[a].0);
                    }
                }
            } else if b < t.len() {
                if b < at {
                    assert(t[b] == s[b]);
                } else {
                    assert(t[b] == s[b + 1]);
                    assert(s[b + 1].0 != q);
                }
            }
        }
    }
}

// ---------------------------------------------------------------------------------------------
// Maps from text to numbers

/// `SmallMap::new`: a map without entries.
#[verifier::external_body]
pub(crate) fn new_handles() -> (r: SmallMap<String, usize>)
    ensures
        handles_in(r) == Seq::<(Seq<char>, usize)>::empty(),
{
    SmallMap::new()
}

/// `SmallMap::len`: the number of entries.
#[verifier::external_body]
pub(crate) fn count_handles(m: &SmallMap<String, usize>) -> (r: usize)
    ensures
        r == handles_in(*m).len(),
{
    m.len()
}

/// `SmallMap::get_index`: the entry at a place in the order of iteration.
#[verifier::external_body]
pub(crate) fn handle_at(m: &SmallMap<String, usize>, i: usize) -> (r: Option<(&str, usize)>)
    ensures
        match r {
            Some((k, v)) => i < handles_in(*m).len() && handles_in(*m)[i as int] == (k@, v),
            None => i >= handles_in(*m).len(),
        },
{
    m.get_index(i).map(|e| (e.0.as_str(), *e.1))
}

/// `SmallMap::get`: the value under a key.
#[verifier::external_body]
pub(crate) fn get_handle(m: &SmallMap<String, usize>, k: &str) -> (r: Option<usize>)
    ensures
        r == under(handles_in(*m), k@),
{
    m.get(k).copied()
}

/// `SmallMap::insert`: a known key keeps its place and gets the value, a new one comes last.
#[verifier::external_body]
pub(crate) fn put_handle(m: &mut SmallMap<String, usize>, k: String, v: usize)
    ensures
        handles_in(*final(m)) == put(handles_in(*old(m)), k@, v),
{
    m.insert(k, v);
}

/// `SmallMap::shift_remove`: the key's entry leaves, and the others keep their order.
#[verifier::external_body]
pub(crate) fn drop_handle(m: &mut SmallMap<String, usize>, k: &str)
    ensures
        handles_in(*final(m)) == without(handles_in(*old(m)), k@),
{
    m.shift_remove(k);
}

// ---------------------------------------------------------------------------------------------
// Maps from text to text

/// `SmallMap::new`: a map without entries.
#[verifier::external_body]
pub(crate) fn new_texts() -> (r: SmallMap<String, String>)
    ensures
        texts_in(r) == Seq::<(Seq<char>, Seq<char>)>::empty(),
{
    SmallMap::new()
}

/// `SmallMap::len`: the number of entries.
#[verifier::external_body]
pub(crate) fn count_texts(m: &SmallMap<String, String>) -> (r: usize)
    ensures
        r == texts_in(*m).len(),
{
    m.len()
}

/// `SmallMap::get_index`: the entry at a place in the order of iteration.
#[verifier::external_body]
pub(crate) fn text_at(m: &SmallMap<String, String>, i: usize) -> (r: Option<(&str, &str)>)
    ensures
        match r {
            Some((k, v)) => i < texts_in(*m).len() && texts_in(*m)[i as int] == (k@, v@),
            None => i >= texts_in(*m).len(),
        },
{
    m.get_index(i).map(|e| (e.0.as_str(), e.1.as_str()))
}

/// `SmallMap::get`: the value under a key.
#[verifier::external_body]
pub(crate) fn get_text<'a>(m: &'a SmallMap<String, String>, k: &str) -> (r: Option<&'a str>)
    ensures
        opt_str(r) == under(texts_in(*m), k@),
{
    m.get(k).map(|v| v.as_str())
}

/// `SmallMap::insert`: a known key keeps its place and gets the value, a new one comes last.
#[verifier::external_body]
pub(crate) fn put_text(m: &mut SmallMap<String, String>, k: String, v: String)
    ensures
        texts_in(*final(m)) == put(texts_in(*old(m)), k@, v@),
{
    m.insert(k, v);
}

/// Another map with the same entries.
pub fn copy_texts(m: &SmallMap<String, String>) -> (r: SmallMap<String, String>)
    requires
        distinct(texts_in(*m)),
    ensures
        texts_in(r) == texts_in(*m),
{
    let ghost all = texts_in(*m);
    let mut out = new_texts();
    let n = count_texts(m);
    let mut i: usize = 0;
    while i < n
        invariant
            i <= n,
            n == all.len(),
            all == texts_in(*m),
            distinct(all),
            texts_in(out) == all.take(i as int),
        decreases n - i,
    {
        if let Some((k, v)) = text_at(m, i) {
            proof {
                lemma_place(all.take(i as int), k@);
                let p = place(all.take(i as int), k@);
                if p < i {
                    assert(all.take(i as int)[p] == all[p]);
                    assert(all[p].0 != all[i as int].0);
                }
                assert(all.take(i + 1) =~= all.take(i as int).push(all[i as int]));
            }
            put_text(&mut out, k.to_owned(), v.to_owned());
        }
        i += 1;
    }
    proof {
        assert(all.take(all.len() as int) =~= all);
    }
    out
}

} // verus!
