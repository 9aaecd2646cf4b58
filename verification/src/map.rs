//! Ordered maps.

use vstd::prelude::*;

use crate::path::{components, path_eq, split_path};
use crate::text::{is_before, lemma_text_before_irreflexive, lemma_text_before_total};
use crate::text::{lemma_text_before_transitive, same, text_before, texts};

verus! {

/// A type whose values can be keys: its views are totally ordered.
pub trait Key: View + Sized {
    /// Whether `a` comes strictly before `b`.
    spec fn before(a: Self::V, b: Self::V) -> bool;

    proof fn irreflexive(a: Self::V)
        ensures
            !Self::before(a, a),
    ;

    proof fn transitive(a: Self::V, b: Self::V, c: Self::V)
        requires
            Self::before(a, b),
            Self::before(b, c),
        ensures
            Self::before(a, c),
    ;

    proof fn total(a: Self::V, b: Self::V)
        ensures
            Self::before(a, b) || a == b || Self::before(b, a),
    ;

    fn precedes(&self, other: &Self) -> (r: bool)
        ensures
            r == Self::before(self@, other@),
    ;

    fn equals(&self, other: &Self) -> (r: bool)
        ensures
            r == (self@ == other@),
    ;
}

impl Key for String {
    open spec fn before(a: Seq<char>, b: Seq<char>) -> bool {
        text_before(a, b)
    }

    proof fn irreflexive(a: Seq<char>) {
        lemma_text_before_irreflexive(a);
    }

    proof fn transitive(a: Seq<char>, b: Seq<char>, c: Seq<char>) {
        lemma_text_before_transitive(a, b, c);
    }

    proof fn total(a: Seq<char>, b: Seq<char>) {
        lemma_text_before_total(a, b);
    }

    fn precedes(&self, other: &Self) -> (r: bool) {
        is_before(self.as_str(), other.as_str())
    }

    fn equals(&self, other: &Self) -> (r: bool) {
        same(self.as_str(), other.as_str())
    }
}

impl Key for u64 {
    open spec fn before(a: u64, b: u64) -> bool {
        a < b
    }

    proof fn irreflexive(a: u64) {
    }

    proof fn transitive(a: u64, b: u64, c: u64) {
    }

    proof fn total(a: u64, b: u64) {
    }

    fn precedes(&self, other: &Self) -> (r: bool) {
        *self < *other
    }

    fn equals(&self, other: &Self) -> (r: bool) {
        *self == *other
    }
}

/// A map whose entries stand in the order of their keys.
pub struct SortedMap<K, V> {
    pub entries: Vec<(K, V)>,
}

/// Whether the keys stand in strictly ascending order.
pub open spec fn in_order<K: Key, V>(s: Seq<(K, V)>) -> bool {
    forall|i: int, j: int|
        0 <= i < j < s.len() ==> K::before(#[trigger] s[i].0@, #[trigger] s[j].0@)
}

/// The position of the entry for `k`, or the number of entries.
pub open spec fn slot<K: Key, V>(s: Seq<(K, V)>, k: K::V) -> int
    decreases s.len(),
{
    if s.len() == 0 {
        0
    } else if s[0].0@ == k {
        0
    } else {
        1 + slot(s.skip(1), k)
    }
}

/// The value that stands under `k`.
pub open spec fn find<K: Key, V>(s: Seq<(K, V)>, k: K::V) -> Option<V> {
    if slot(s, k) < s.len() {
        Some(s[slot(s, k)].1)
    } else {
        None
    }
}

/// The keys of the entries.
pub open spec fn keys_of<K: Key, V>(s: Seq<(K, V)>) -> Seq<K::V> {
    Seq::new(s.len(), |i: int| s[i].0@)
}

pub proof fn lemma_slot<K: Key, V>(s: Seq<(K, V)>, k: K::V)
    ensures
        0 <= slot(s, k) <= s.len(),
        slot(s, k) < s.len() ==> s[slot(s, k)].0@ == k,
        forall|i: int| 0 <= i < slot(s, k) ==> (#[trigger] s[i]).0@ != k,
    decreases s.len(),
{
    if s.len() > 0 && s[0].0@ != k {
        lemma_slot(s.skip(1), k);
        assert forall|i: int| 0 <= i < slot(s, k) implies (#[trigger] s[i]).0@ != k by {
            if i > 0 {
                assert(s.skip(1)[i - 1] == s[i]);
            }
        }
    }
}

/// Where the keys are distinct, an entry's position is the one that its key has.
pub proof fn lemma_slot_at<K: Key, V>(s: Seq<(K, V)>, i: int)
    requires
        in_order(s),
        0 <= i < s.len(),
    ensures
        slot(s, s[i].0@) == i,
        find(s, s[i].0@) == Some(s[i].1),
{
    lemma_slot(s, s[i].0@);
    let j = slot(s, s[i].0@);
    if j < i {
        K::irreflexive(s[i].0@);
    } else if j > i {
        assert(s[i].0@ != s[i].0@);
    }
}

impl<K: Key, V> View for SortedMap<K, V> {
    type V = Map<K::V, V>;

    open spec fn view(&self) -> Map<K::V, V> {
        Map::new(
            |k: K::V| find(self.entries@, k) is Some,
            |k: K::V| find(self.entries@, k)->Some_0,
        )
    }
}

impl<K: Key, V> SortedMap<K, V> {
    /// The invariant: the entries stand in the order of their keys, and no key stands twice.
    pub open spec fn wf(&self) -> bool {
        in_order(self.entries@)
    }

    /// The keys in order.
    pub open spec fn keys(&self) -> Seq<K::V> {
        keys_of(self.entries@)
    }

    /// The empty map.
    pub fn new() -> (r: Self)
        ensures
            r.wf(),
            r.entries@.len() == 0,
            r@ == Map::<K::V, V>::empty(),
    {
        let r = SortedMap { entries: Vec::new() };
        proof {
            assert(r@ =~= Map::<K::V, V>::empty());
        }
        r
    }

    /// The number of entries.
    pub fn len(&self) -> (r: usize)
        ensures
            r == self.entries@.len(),
    {
        self.entries.len()
    }

    /// Whether there is no entry.
    pub fn is_empty(&self) -> (r: bool)
        ensures
            r == (self.entries@.len() == 0),
    {
        self.entries.len() == 0
    }

    /// The key at a position.
    pub fn key_at(&self, i: usize) -> (r: &K)
        requires
            i < self.entries@.len(),
        ensures
            *r == self.entries@[i as int].0,
    {
        &self.entries[i].0
    }

    /// The value at a position.
    pub fn value_at(&self, i: usize) -> (r: &V)
        requires
            i < self.entries@.len(),
        ensures
            *r == self.entries@[i as int].1,
    {
        &self.entries[i].1
    }

    /// The position of a key.
    pub fn position(&self, k: &K) -> (r: usize)
        ensures
            r == slot(self.entries@, k@),
            r <= self.entries@.len(),
    {
        let mut i: usize = 0;
        proof {
            assert(self.entries@.skip(0) =~= self.entries@);
        }
        while i < self.entries.len()
            invariant
                i <= self.entries@.len(),
                i + slot(self.entries@.skip(i as int), k@) == slot(self.entries@, k@),
            decreases self.entries@.len() - i,
        {
            if self.entries[i].0.equals(k) {
                return i;
            }
            proof {
                assert(self.entries@.skip(i as int).skip(1) =~= self.entries@.skip(i + 1));
            }
            i += 1;
        }
        i
    }

    /// The value that stands under a key.
    pub fn get(&self, k: &K) -> (r: Option<&V>)
        ensures
            match r {
                Some(v) => find(self.entries@, k@) == Some(*v),
                None => find(self.entries@, k@) is None,
            },
            r is Some <==> self@.dom().contains(k@),
            r is Some ==> *r->Some_0 == self@[k@],
    {
        let i = self.position(k);
        if i < self.entries.len() {
            Some(&self.entries[i].1)
        } else {
            None
        }
    }

    /// Whether a key has an entry.
    pub fn contains_key(&self, k: &K) -> (r: bool)
        ensures
            r == self@.dom().contains(k@),
            r == (find(self.entries@, k@) is Some),
    {
        self.position(k) < self.entries.len()
    }

    /// The value at a position, to be changed in place.
    pub fn value_mut(&mut self, i: usize) -> (r: &mut V)
        requires
            i < old(self).entries@.len(),
        ensures
            *r == old(self).entries@[i as int].1,
            final(self).entries@ == old(self).entries@.update(
                i as int,
                (old(self).entries@[i as int].0, *final(r)),
            ),
    {
        &mut self.entries[i].1
    }

    /// Puts a value under a key, in place of the one that stood there.
    pub fn insert(&mut self, k: K, v: V)
        requires
            old(self).wf(),
        ensures
            final(self).wf(),
            final(self)@ == old(self)@.insert(k@, v),
            forall|q: K::V|
                find(final(self).entries@, q) == (if q == k@ {
                    Some(v)
                } else {
                    find(old(self).entries@, q)
                }),
    {
        let ghost before = self.entries@;
        let ghost key = k@;
        let mut i: usize = 0;
        while i < self.entries.len() && self.entries[i].0.precedes(&k)
            invariant
                i <= self.entries@.len(),
                self.entries@ == before,
                forall|j: int| 0 <= j < i ==> K::before((#[trigger] before[j]).0@, k@),
            decreases self.entries@.len() - i,
        {
            i += 1;
        }
        if i < self.entries.len() && self.entries[i].0.equals(&k) {
            self.entries.set(i, (k, v));
            proof {
                let after = self.entries@;
                assert(after =~= before.update(i as int, (k, v)));
                assert forall|a: int, b: int| 0 <= a < b < after.len() implies K::before(
                    #[trigger] after[a].0@,
                    #[trigger] after[b].0@,
                ) by {
                    assert(after[a].0@ == before[a].0@);
                    assert(after[b].0@ == before[b].0@);
                }
                lemma_slot_at(after, i as int);
                assert forall|q: K::V|
                    find(after, q) == (if q == key {
                        Some(v)
                    } else {
                        find(before, q)
                    }) by {
                    if q != key {
                        lemma_find_elsewhere(before, after, i as int, q);
                    }
                }
            }
        } else {
            self.entries.insert(i, (k, v));
            proof {
                let after = self.entries@;
                assert(after =~= before.insert(i as int, (k, v)));
                if i < before.len() {
                    K::total(before[i as int].0@, key);
                    assert(K::before(key, before[i as int].0@));
                }
                assert forall|j: int| i <= j < before.len() implies K::before(
                    key,
                    (#[trigger] before[j]).0@,
                ) by {
                    if j > i {
                        K::transitive(key, before[i as int].0@, before[j].0@);
                    }
                }
                assert forall|a: int, b: int| 0 <= a < b < after.len() implies K::before(
                    #[trigger] after[a].0@,
                    #[trigger] after[b].0@,
                ) by {
                    if a < i && b < i {
                        assert(after[a] == before[a] && after[b] == before[b]);
                    } else if a < i && b > i {
                        assert(after[a] == before[a] && after[b] == before[b - 1]);
                    } else if a > i {
                        assert(after[a] == before[a - 1] && after[b] == before[b - 1]);
                    } else if a == i {
                        assert(after[b] == before[b - 1]);
                    } else {
                        assert(after[a] == before[a]);
                    }
                }
                lemma_slot_at(after, i as int);
                assert forall|q: K::V|
                    find(after, q) == (if q == key {
                        Some(v)
                    } else {
                        find(before, q)
                    }) by {
                    if q != key {
                        lemma_find_after_insert(before, i as int, (k, v), q);
                    }
                }
            }
        }
        proof {
            assert(self@ =~= old(self)@.insert(key, v));
        }
    }
}

impl<K: Key, V> SortedMap<K, V> {
    /// Removes a key with its value.
    pub fn remove(&mut self, k: &K)
        requires
            old(self).wf(),
        ensures
            final(self).wf(),
            final(self)@ == old(self)@.remove(k@),
            forall|q: K::V|
                find(final(self).entries@, q) == (if q == k@ {
                    None
                } else {
                    find(old(self).entries@, q)
                }),
    {
        let ghost s = self.entries@;
        let ghost key = k@;
        let i = self.position(k);
        proof {
            lemma_slot(s, key);
        }
        if i < self.entries.len() {
            self.entries.remove(i);
        }
        proof {
            let t = self.entries@;
            assert forall|a: int, b: int| 0 <= a < b < t.len() implies K::before(
                #[trigger] t[a].0@,
                #[trigger] t[b].0@,
            ) by {
                let x = if a < i {
                    a
                } else {
                    a + 1
                };
                let y = if b < i {
                    b
                } else {
                    b + 1
                };
                if i < s.len() {
                    assert(t[a] == s[x]);
                    assert(t[b] == s[y]);
                } else {
                    assert(t[a] == s[a]);
                    assert(t[b] == s[b]);
                }
            }
            assert forall|q: K::V|
                find(t, q) == (if q == key {
                    None
                } else {
                    find(s, q)
                }) by {
                lemma_slot(t, q);
                lemma_slot(s, q);
                let p = slot(s, q);
                let r = slot(t, q);
                if i >= s.len() {
                    assert(t =~= s);
                } else {
                    if r < t.len() {
                        let x = if r < i {
                            r
                        } else {
                            r + 1
                        };
                        assert(t[r] == s[x]);
                        lemma_slot_at(s, x);
                        if q == key {
                            assert(x == i);
                        }
                    }
                    if p < s.len() && q != key {
                        let x = if p < i {
                            p
                        } else {
                            p - 1
                        };
                        assert(t[x] == s[p]);
                        lemma_slot_at(t, x);
                    }
                }
            }
            assert(self@ =~= old(self)@.remove(key));
        }
    }
}

/// Another value under the same key changes nothing elsewhere.
pub proof fn lemma_find_elsewhere<K: Key, V>(s: Seq<(K, V)>, t: Seq<(K, V)>, i: int, q: K::V)
    requires
        in_order(s),
        in_order(t),
        0 <= i < s.len(),
        t.len() == s.len(),
        t[i].0@ == s[i].0@,
        s[i].0@ != q,
        forall|j: int| 0 <= j < s.len() && j != i ==> s[j] == t[j],
    ensures
        find(t, q) == find(s, q),
{
    lemma_slot(s, q);
    lemma_slot(t, q);
    let a = slot(s, q);
    let b = slot(t, q);
    if a < s.len() {
        assert(t[a] == s[a]);
        lemma_slot_at(t, a);
    } else if b < t.len() {
        assert(t[b] == s[b]);
        assert(s[b].0@ != q);
    }
}

proof fn lemma_find_after_insert<K: Key, V>(s: Seq<(K, V)>, i: int, e: (K, V), q: K::V)
    requires
        in_order(s),
        in_order(s.insert(i, e)),
        0 <= i <= s.len(),
        e.0@ != q,
    ensures
        find(s.insert(i, e), q) == find(s, q),
{
    let t = s.insert(i, e);
    lemma_slot(s, q);
    lemma_slot(t, q);
    let a = slot(s, q);
    let b = slot(t, q);
    if a < s.len() {
        let c = if a < i {
            a
        } else {
            a + 1
        };
        assert(t[c] == s[a]);
        lemma_slot_at(t, c);
    } else if b < t.len() {
        let c = if b < i {
            b
        } else {
            b - 1
        };
        assert(b != i);
        assert(t[b] == s[c]);
        assert(s[c].0@ != q);
    }
}

/// Two ordered lists of entries that hold the same are the same, key by key.
pub proof fn law_order_is_determined<K: Key, V>(s: Seq<(K, V)>, t: Seq<(K, V)>)
    requires
        in_order(s),
        in_order(t),
        forall|q: K::V| (find(s, q) is Some) == (find(t, q) is Some),
    ensures
        keys_of(s) == keys_of(t),
    decreases s.len(),
{
    if s.len() == 0 {
        if t.len() > 0 {
            lemma_slot_at(t, 0);
            assert(find(s, t[0].0@) is Some);
        }
        assert(keys_of(s) =~= keys_of(t));
    } else if t.len() == 0 {
        lemma_slot_at(s, 0);
        assert(find(t, s[0].0@) is Some);
    } else {
        let m = s.len() - 1;
        let n = t.len() - 1;
        lemma_slot_at(s, m);
        lemma_slot_at(t, n);
        lemma_slot(t, s[m].0@);
        lemma_slot(s, t[n].0@);
        let a = slot(t, s[m].0@);
        let b = slot(s, t[n].0@);
        assert(find(t, s[m].0@) is Some);
        assert(find(s, t[n].0@) is Some);
        if a < n {
            assert(K::before(t[a].0@, t[n].0@));
            if b < m {
                assert(K::before(s[b].0@, s[m].0@));
                K::transitive(s[m].0@, t[n].0@, s[m].0@);
            }
            K::irreflexive(s[m].0@);
        }
        assert(s[m].0@ == t[n].0@);
        let s1 = s.drop_last();
        let t1 = t.drop_last();
        assert forall|q: K::V| (find(s1, q) is Some) == (find(t1, q) is Some) by {
            lemma_find_drop_last(s, q);
            lemma_find_drop_last(t, q);
        }
        law_order_is_determined(s1, t1);
        assert forall|i: int| 0 <= i < s.len() implies keys_of(s)[i] == keys_of(t)[i] by {
            assert(keys_of(s1).len() == keys_of(t1).len());
            if i < m {
                assert(keys_of(s1)[i] == keys_of(t1)[i]);
            }
        }
        assert(keys_of(s1).len() == keys_of(t1).len());
        assert(keys_of(s) =~= keys_of(t));
    }
}

proof fn lemma_find_drop_last<K: Key, V>(s: Seq<(K, V)>, q: K::V)
    requires
        in_order(s),
        s.len() > 0,
    ensures
        in_order(s.drop_last()),
        (find(s.drop_last(), q) is Some) == (find(s, q) is Some && s.last().0@ != q),
{
    let t = s.drop_last();
    assert forall|i: int, j: int| 0 <= i < j < t.len() implies K::before(
        #[trigger] t[i].0@,
        #[trigger] t[j].0@,
    ) by {
        assert(t[i] == s[i] && t[j] == s[j]);
    }
    lemma_slot(s, q);
    lemma_slot(t, q);
    let a = slot(s, q);
    let b = slot(t, q);
    if b < t.len() {
        assert(s[b] == t[b]);
        lemma_slot_at(s, b);
        if s.last().0@ == q {
            assert(K::before(s[b].0@, s[s.len() - 1].0@));
            K::irreflexive(q);
        }
    } else if a < s.len() && s.last().0@ != q {
        assert(t[a] == s[a]);
        assert(t[a].0@ != q);
    }
}

/// The contents of a map from text to text, in the order of its keys.
pub open spec fn text_entries(s: Seq<(String, String)>) -> Seq<(Seq<char>, Seq<char>)> {
    Seq::new(s.len(), |i: int| (s[i].0@, s[i].1@))
}

/// Where two lists have the same keys, a key has the same place in both.
pub proof fn lemma_same_slot<K: Key, V, W>(s: Seq<(K, V)>, t: Seq<(K, W)>, q: K::V)
    requires
        keys_of(s) == keys_of(t),
    ensures
        slot(s, q) == slot(t, q),
    decreases s.len(),
{
    assert(keys_of(s).len() == s.len());
    assert(keys_of(t).len() == t.len());
    if s.len() > 0 {
        assert(keys_of(s)[0] == s[0].0@);
        assert(keys_of(t)[0] == t[0].0@);
        assert(keys_of(s.skip(1)) =~= keys_of(s).skip(1));
        assert(keys_of(t.skip(1)) =~= keys_of(t).skip(1));
        lemma_same_slot(s.skip(1), t.skip(1), q);
    }
}

/// Another list with the same keys is in the same order.
pub proof fn lemma_same_order<K: Key, V, W>(s: Seq<(K, V)>, t: Seq<(K, W)>)
    requires
        keys_of(s) == keys_of(t),
        in_order(s),
    ensures
        in_order(t),
{
    assert(keys_of(s).len() == s.len());
    assert(keys_of(t).len() == t.len());
    assert forall|i: int, j: int| 0 <= i < j < t.len() implies K::before(
        #[trigger] t[i].0@,
        #[trigger] t[j].0@,
    ) by {
        assert(keys_of(t)[i] == t[i].0@ && keys_of(t)[j] == t[j].0@);
        assert(keys_of(s)[i] == s[i].0@ && keys_of(s)[j] == s[j].0@);
        assert(K::before(s[i].0@, s[j].0@));
    }
}

/// Another map with the same contents.
pub fn copy_text_map(m: &SortedMap<String, String>) -> (r: SortedMap<String, String>)
    ensures
        text_entries(r.entries@) == text_entries(m.entries@),
        m.wf() ==> r.wf(),
        forall|q: Seq<char>|
            crate::text::opt_text(#[trigger] find(r.entries@, q)) == crate::text::opt_text(
                find(m.entries@, q),
            ),
{
    let mut entries: Vec<(String, String)> = Vec::new();
    let mut i: usize = 0;
    while i < m.entries.len()
        invariant
            i <= m.entries@.len(),
            entries@.len() == i,
            forall|k: int|
                0 <= k < i ==> (#[trigger] entries@[k]).0@ == m.entries@[k].0@ && entries@[k].1@
                    == m.entries@[k].1@,
        decreases m.entries@.len() - i,
    {
        entries.push((m.entries[i].0.clone(), m.entries[i].1.clone()));
        i += 1;
    }
    let r = SortedMap { entries };
    proof {
        let s = m.entries@;
        let t = r.entries@;
        assert(text_entries(t) =~= text_entries(s));
        assert(keys_of(s) =~= keys_of(t));
        if in_order(s) {
            lemma_same_order(s, t);
        }
        assert forall|q: Seq<char>|
            crate::text::opt_text(#[trigger] find(t, q)) == crate::text::opt_text(find(s, q)) by {
            lemma_same_slot(s, t, q);
            lemma_slot(s, q);
        }
    }
    r
}

/// A path as a key: two texts of the same path are the same key.
pub struct PathKey {
    pub path: String,
}

impl View for PathKey {
    type V = Seq<Seq<char>>;

    open spec fn view(&self) -> Seq<Seq<char>> {
        components(self.path@)
    }
}

/// The place of a component's sort: the root, then `.`, then `..`, then names.
pub open spec fn component_sort(c: Seq<char>) -> int {
    if c == seq!['/'] {
        0
    } else if c == seq!['.'] {
        1
    } else if c == seq!['.', '.'] {
        2
    } else {
        3
    }
}

/// Whether component `a` comes strictly before component `b`.
pub open spec fn component_before(a: Seq<char>, b: Seq<char>) -> bool {
    component_sort(a) < component_sort(b) || (component_sort(a) == component_sort(b)
        && text_before(a, b))
}

/// Whether the components `a` come strictly before the components `b`.
pub open spec fn components_before(a: Seq<Seq<char>>, b: Seq<Seq<char>>) -> bool
    decreases a.len(),
{
    if b.len() == 0 {
        false
    } else if a.len() == 0 {
        true
    } else if a[0] != b[0] {
        component_before(a[0], b[0])
    } else {
        components_before(a.skip(1), b.skip(1))
    }
}

proof fn lemma_component_before(a: Seq<char>, b: Seq<char>, c: Seq<char>)
    ensures
        !component_before(a, a),
        component_before(a, b) || a == b || component_before(b, a),
        component_before(a, b) && component_before(b, c) ==> component_before(a, c),
{
    lemma_text_before_irreflexive(a);
    lemma_text_before_total(a, b);
    if text_before(a, b) && text_before(b, c) {
        lemma_text_before_transitive(a, b, c);
    }
}

/// The sort of a component.
fn sort_of(c: &str) -> (r: u8)
    ensures
        r == component_sort(c@),
{
    proof {
        reveal_strlit("/");
        reveal_strlit(".");
        reveal_strlit("..");
        assert("/"@ =~= seq!['/']);
        assert("."@ =~= seq!['.']);
        assert(".."@ =~= seq!['.', '.']);
    }
    if same(c, "/") {
        0
    } else if same(c, ".") {
        1
    } else if same(c, "..") {
        2
    } else {
        3
    }
}

impl Key for PathKey {
    open spec fn before(a: Seq<Seq<char>>, b: Seq<Seq<char>>) -> bool {
        components_before(a, b)
    }

    proof fn irreflexive(a: Seq<Seq<char>>)
        decreases a.len(),
    {
        if a.len() > 0 {
            Self::irreflexive(a.skip(1));
        }
    }

    proof fn transitive(a: Seq<Seq<char>>, b: Seq<Seq<char>>, c: Seq<Seq<char>>)
        decreases a.len(),
    {
        if a.len() > 0 && b.len() > 0 && c.len() > 0 {
            lemma_component_before(a[0], b[0], c[0]);
            lemma_component_before(c[0], a[0], b[0]);
            lemma_component_before(b[0], c[0], a[0]);
            if a[0] == b[0] && b[0] == c[0] {
                Self::transitive(a.skip(1), b.skip(1), c.skip(1));
            }
        }
    }

    proof fn total(a: Seq<Seq<char>>, b: Seq<Seq<char>>)
        decreases a.len(),
    {
        if a.len() == 0 && b.len() == 0 {
            assert(a =~= b);
        } else if a.len() > 0 && b.len() > 0 {
            lemma_component_before(a[0], b[0], a[0]);
            if a[0] == b[0] {
                Self::total(a.skip(1), b.skip(1));
                if a.skip(1) == b.skip(1) {
                    assert(a =~= seq![a[0]] + a.skip(1));
                    assert(b =~= seq![b[0]] + b.skip(1));
                }
            }
        }
    }

    fn precedes(&self, other: &Self) -> (r: bool) {
        let x = split_path(self.path.as_str());
        let y = split_path(other.path.as_str());
        let ghost a = texts(x@);
        let ghost b = texts(y@);
        let mut i: usize = 0;
        proof {
            assert(a.skip(0) =~= a);
            assert(b.skip(0) =~= b);
        }
        while i < x.len() && i < y.len() && x[i] == y[i]
            invariant
                i <= x.len(),
                i <= y.len(),
                a == texts(x@),
                b == texts(y@),
                components_before(a.skip(i as int), b.skip(i as int)) == components_before(a, b),
            decreases x.len() - i,
        {
            proof {
                assert(a.skip(i as int)[0] == x@[i as int]@);
                assert(b.skip(i as int)[0] == y@[i as int]@);
                assert(a.skip(i as int).skip(1) =~= a.skip(i + 1));
                assert(b.skip(i as int).skip(1) =~= b.skip(i + 1));
            }
            i += 1;
        }
        if i == y.len() {
            false
        } else if i == x.len() {
            true
        } else {
            proof {
                assert(a.skip(i as int)[0] == x@[i as int]@);
                assert(b.skip(i as int)[0] == y@[i as int]@);
            }
            let p = sort_of(x[i].as_str());
            let q = sort_of(y[i].as_str());
            p < q || (p == q && is_before(x[i].as_str(), y[i].as_str()))
        }
    }

    fn equals(&self, other: &Self) -> (r: bool) {
        path_eq(self.path.as_str(), other.path.as_str())
    }
}

/// A map with the contents of its values.
pub open spec fn viewed<K, V: View>(m: Map<K, V>) -> Map<K, V::V> {
    Map::new(|k: K| m.dom().contains(k), |k: K| m[k]@)
}

pub proof fn lemma_viewed_insert<K, V: View>(m: Map<K, V>, k: K, v: V)
    ensures
        viewed(m.insert(k, v)) == viewed(m).insert(k, v@),
{
    assert(viewed(m.insert(k, v)) =~= viewed(m).insert(k, v@));
}

/// A map of which one value was changed in place.
pub proof fn lemma_changed<K: Key, V>(before: SortedMap<K, V>, after: SortedMap<K, V>, i: int)
    requires
        before.wf(),
        0 <= i < before.entries@.len(),
        after.entries@ == before.entries@.update(
            i,
            (before.entries@[i].0, after.entries@[i].1),
        ),
    ensures
        after.wf(),
        after@ == before@.insert(before.entries@[i].0@, after.entries@[i].1),
        forall|q: K::V|
            find(after.entries@, q) == (if q == before.entries@[i].0@ {
                Some(after.entries@[i].1)
            } else {
                find(before.entries@, q)
            }),
{
    let s = before.entries@;
    let t = after.entries@;
    assert(keys_of(s) =~= keys_of(t));
    lemma_same_order(s, t);
    assert forall|q: K::V|
        find(t, q) == (if q == s[i].0@ {
            Some(t[i].1)
        } else {
            find(s, q)
        }) by {
        if q == s[i].0@ {
            lemma_slot_at(t, i);
        } else {
            lemma_find_elsewhere(s, t, i, q);
        }
    }
    assert(after@ =~= before@.insert(s[i].0@, t[i].1));
}

// ---------------------------------------------------------------------------------------------
// Paths in order

/// A list of paths in order with one more at its place, behind those that are the same.
pub open spec fn path_placed(v: Seq<Seq<char>>, p: Seq<char>) -> Seq<Seq<char>>
    decreases v.len(),
{
    if v.len() == 0 || !components_before(components(p), components(v.last())) {
        v.push(p)
    } else {
        path_placed(v.drop_last(), p).push(v.last())
    }
}

/// A list of paths in order.
pub open spec fn sorted_paths(v: Seq<Seq<char>>) -> Seq<Seq<char>>
    decreases v.len(),
{
    if v.len() == 0 {
        v
    } else {
        path_placed(sorted_paths(v.drop_last()), v.last())
    }
}

/// Sorting a list of paths puts it in order and neither adds nor loses a path.
pub proof fn law_sorted_paths(v: Seq<Seq<char>>)
    ensures
        forall|i: int, j: int|
            0 <= i < j < sorted_paths(v).len() ==> !components_before(
                components(#[trigger] sorted_paths(v)[j]),
                components(#[trigger] sorted_paths(v)[i]),
            ),
        sorted_paths(v).to_multiset() == v.to_multiset(),
    decreases v.len(),
{
    broadcast use vstd::seq_lib::group_to_multiset_ensures;

    if v.len() > 0 {
        let d = v.drop_last();
        law_sorted_paths(d);
        lemma_path_placed(sorted_paths(d), v.last());
        assert(d.push(v.last()) =~= v);
    }
}

proof fn lemma_path_placed(v: Seq<Seq<char>>, p: Seq<char>)
    requires
        forall|i: int, j: int|
            0 <= i < j < v.len() ==> !components_before(
                components(#[trigger] v[j]),
                components(#[trigger] v[i]),
            ),
    ensures
        forall|i: int, j: int|
            0 <= i < j < path_placed(v, p).len() ==> !components_before(
                components(#[trigger] path_placed(v, p)[j]),
                components(#[trigger] path_placed(v, p)[i]),
            ),
        path_placed(v, p).to_multiset() == v.to_multiset().insert(p),
        forall|i: int|
            0 <= i < path_placed(v, p).len() ==> path_placed(v, p)[i] == p || v.contains(
                #[trigger] path_placed(v, p)[i],
            ),
    decreases v.len(),
{
    broadcast use vstd::seq_lib::group_to_multiset_ensures;

    let r = path_placed(v, p);
    if v.len() == 0 || !components_before(components(p), components(v.last())) {
        assert forall|i: int, j: int| 0 <= i < j < r.len() implies !components_before(
            components(#[trigger] r[j]),
            components(#[trigger] r[i]),
        ) by {
            if j < v.len() {
                assert(r[j] == v[j] && r[i] == v[i]);
            } else {
                assert(r[i] == v[i]);
                let (x, y, z) = (components(p), components(v[i]), components(v.last()));
                if components_before(x, y) {
                    PathKey::total(y, z);
                    if components_before(y, z) {
                        PathKey::transitive(x, y, z);
                    }
                    assert(v.last() == v[v.len() - 1]);
                    if i < v.len() - 1 {
                        assert(!components_before(components(v[v.len() - 1]), components(v[i])));
                    }
                }
            }
        }
        assert forall|i: int| 0 <= i < r.len() implies r[i] == p || v.contains(#[trigger] r[i]) by {
            if i < v.len() {
                assert(r[i] == v[i]);
            }
        }
    } else {
        let d = v.drop_last();
        let t = path_placed(d, p);
        assert forall|i: int, j: int| 0 <= i < j < d.len() implies !components_before(
            components(#[trigger] d[j]),
            components(#[trigger] d[i]),
        ) by {
            assert(d[j] == v[j] && d[i] == v[i]);
        }
        lemma_path_placed(d, p);
        let last = v.last();
        assert forall|i: int, j: int| 0 <= i < j < r.len() implies !components_before(
            components(#[trigger] r[j]),
            components(#[trigger] r[i]),
        ) by {
            if j < t.len() {
                assert(r[j] == t[j] && r[i] == t[i]);
            } else {
                assert(r[i] == t[i]);
                assert(t[i] == p || d.contains(t[i]));
                if t[i] == p {
                    if components_before(components(last), components(p)) {
                        PathKey::transitive(components(p), components(last), components(p));
                        PathKey::irreflexive(components(p));
                    }
                } else {
                    let k = choose|k: int| 0 <= k < d.len() && d[k] == t[i];
                    assert(v[k] == d[k]);
                    assert(v[v.len() - 1] == last);
                }
            }
        }
        assert forall|i: int| 0 <= i < r.len() implies r[i] == p || v.contains(#[trigger] r[i]) by {
            if i < t.len() {
                assert(r[i] == t[i]);
                if t[i] != p {
                    let k = choose|k: int| 0 <= k < d.len() && d[k] == t[i];
                    assert(v[k] == d[k]);
                }
            } else {
                assert(v[v.len() - 1] == last);
            }
        }
        assert(d.push(last) =~= v);
    }
}

/// Puts a path at its place in a list in order.
fn place_path(v: &mut Vec<String>, p: String)
    ensures
        texts(final(v)@) == path_placed(texts(old(v)@), p@),
{
    let ghost all = texts(v@);
    let key = PathKey { path: p };
    let mut i: usize = v.len();
    proof {
        assert(all.take(i as int) =~= all);
        assert(path_placed(all.take(i as int), key.path@) + all.skip(i as int) =~= path_placed(
            all,
            key.path@,
        ));
    }
    let mut placed = false;
    while i > 0 && !placed
        invariant
            i <= v@.len(),
            all == texts(v@),
            path_placed(all.take(i as int), key.path@) + all.skip(i as int) == path_placed(
                all,
                key.path@,
            ),
            placed ==> i > 0 && !components_before(
                components(key.path@),
                components(all[i - 1]),
            ),
        decreases i + (if placed {
            0int
        } else {
            1int
        }),
    {
        proof {
            assert(all[i - 1] == v@[i - 1]@);
            assert(all.take(i as int).last() == all[i - 1]);
            assert(all.take(i as int).drop_last() =~= all.take(i - 1));
        }
        let other = PathKey { path: v[i - 1].clone() };
        if key.precedes(&other) {
            proof {
                let shorter = path_placed(all.take(i - 1), key.path@);
                assert(path_placed(all.take(i as int), key.path@) == shorter.push(all[i - 1]));
                assert(shorter.push(all[i - 1]) + all.skip(i as int) =~= shorter + all.skip(i - 1));
            }
            i -= 1;
        } else {
            placed = true;
        }
    }
    proof {
        let t = all.take(i as int);
        assert(path_placed(t, key.path@) == t.push(key.path@)) by {
            if i > 0 {
                assert(t.last() == all[i - 1]);
            }
        }
    }
    v.insert(i, key.path);
    proof {
        assert(texts(v@) =~= all.take(i as int).push(key.path@) + all.skip(i as int));
    }
}

/// Puts a list of paths in order.
pub fn sort_paths(v: &Vec<String>) -> (r: Vec<String>)
    ensures
        texts(r@) == sorted_paths(texts(v@)),
{
    let ghost all = texts(v@);
    let mut out: Vec<String> = Vec::new();
    let mut i: usize = 0;
    proof {
        assert(all.take(0) =~= Seq::<Seq<char>>::empty());
        assert(texts(out@) =~= Seq::<Seq<char>>::empty());
    }
    while i < v.len()
        invariant
            i <= v@.len(),
            all == texts(v@),
            texts(out@) == sorted_paths(all.take(i as int)),
        decreases v@.len() - i,
    {
        proof {
            assert(all.take(i + 1).drop_last() =~= all.take(i as int));
            assert(all.take(i + 1).last() == v@[i as int]@);
        }
        place_path(&mut out, v[i].clone());
        i += 1;
    }
    proof {
        assert(all.take(all.len() as int) =~= all);
    }
    out
}

} // verus!
