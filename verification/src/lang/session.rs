//! What an evaluation session keeps between evaluations.
//!
//! Values that only the evaluator understands are kept by their number.

use vstd::prelude::*;

use crate::frozen::{same_scope, PackageScopeKey};
use crate::map::{find, PathKey, SortedMap};
use crate::path::{components, parent, parent_of, path_eq, same_path};
use crate::schematic::InstancePath;
use crate::text::{clone_texts, opt_str, opt_text, texts};
use crate::{SymbolInfo, SymbolKind};

verus! {

// ---------------------------------------------------------------------------------------------
// Caches

/// What a kept value is for: a file as a package sees it, and a name within it.
pub struct CacheKey {
    /// The package that sees the file, where that matters.
    pub scope: Option<PackageScopeKey>,
    pub path: String,
    /// A name within the file, where that matters.
    pub detail: Option<String>,
}

/// Whether two keys are the same.
pub open spec fn same_key(a: CacheKey, b: CacheKey) -> bool {
    &&& same_path(a.path@, b.path@)
    &&& opt_text(a.detail) == opt_text(b.detail)
    &&& match (a.scope, b.scope) {
        (Some(x), Some(y)) => same_scope(x, y),
        (None, None) => true,
        _ => false,
    }
}

proof fn lemma_same_key(a: CacheKey, b: CacheKey, c: CacheKey)
    ensures
        same_key(a, a),
        same_key(a, b) ==> same_key(b, a),
        same_key(a, b) && same_key(b, c) ==> same_key(a, c),
{
    if same_key(a, b) && a.scope is Some {
        let x = a.scope->Some_0.deps@;
        let y = b.scope->Some_0.deps@;
        assert forall|i: int| 0 <= i < y.len() implies (#[trigger] y[i]).0@ == x[i].0@ && same_path(
            y[i].1@,
            x[i].1@,
        ) by {
            assert(x[i].0@ == y[i].0@);
        }
        if same_key(b, c) {
            let z = c.scope->Some_0.deps@;
            assert forall|i: int| 0 <= i < x.len() implies (#[trigger] x[i]).0@ == z[i].0@
                && same_path(x[i].1@, z[i].1@) by {
                assert(x[i].0@ == y[i].0@);
                assert(y[i].0@ == z[i].0@);
            }
        }
    }
}

impl CacheKey {
    /// Whether two keys are the same.
    pub fn equals(&self, other: &CacheKey) -> (r: bool)
        ensures
            r == same_key(*self, *other),
    {
        let details = match (&self.detail, &other.detail) {
            (Some(x), Some(y)) => crate::text::same(x.as_str(), y.as_str()),
            (None, None) => true,
            _ => false,
        };
        let scopes = match (&self.scope, &other.scope) {
            (Some(x), Some(y)) => x.equals(y),
            (None, None) => true,
            _ => false,
        };
        details && scopes && path_eq(self.path.as_str(), other.path.as_str())
    }
}

/// Values that were derived from files, by number.
pub struct CacheMap {
    pub entries: Vec<(CacheKey, usize)>,
}

/// The value that is kept under a key: the one that was kept last.
pub open spec fn kept(s: Seq<(CacheKey, usize)>, k: CacheKey) -> Option<usize>
    decreases s.len(),
{
    if s.len() == 0 {
        None
    } else if same_key(s.last().0, k) {
        Some(s.last().1)
    } else {
        kept(s.drop_last(), k)
    }
}

/// What is left without a key.
pub open spec fn without_key(s: Seq<(CacheKey, usize)>, k: CacheKey) -> Seq<(CacheKey, usize)>
    decreases s.len(),
{
    if s.len() == 0 {
        s
    } else {
        let r = without_key(s.drop_last(), k);
        if same_key(s.last().0, k) {
            r
        } else {
            r.push(s.last())
        }
    }
}

/// Whether a file counts as part of a library: it is the library, or stands in the library's
/// directory.
pub open spec fn concerns(library: Seq<char>, file: Seq<char>, in_directory: bool) -> bool {
    same_path(library, file) || (in_directory && match parent_of(file) {
        Some(dir) => same_path(library, dir),
        None => false,
    })
}

/// What is left without the values that a file counts as part of.
pub open spec fn without_file(s: Seq<(CacheKey, usize)>, file: Seq<char>, in_directory: bool) -> Seq<
    (CacheKey, usize),
>
    decreases s.len(),
{
    if s.len() == 0 {
        s
    } else {
        let r = without_file(s.drop_last(), file, in_directory);
        if concerns(s.last().0.path@, file, in_directory) {
            r
        } else {
            r.push(s.last())
        }
    }
}

impl CacheMap {
    /// Nothing is kept.
    pub fn new() -> (r: CacheMap)
        ensures
            r.entries@.len() == 0,
    {
        CacheMap { entries: Vec::new() }
    }

    /// The value that is kept under a key.
    pub fn get(&self, key: &CacheKey) -> (r: Option<usize>)
        ensures
            r == kept(self.entries@, *key),
    {
        let ghost s = self.entries@;
        let mut i: usize = self.entries.len();
        proof {
            assert(s.take(s.len() as int) =~= s);
        }
        while i > 0
            invariant
                i <= self.entries@.len(),
                s == self.entries@,
                kept(s, *key) == kept(s.take(i as int), *key),
            decreases i,
        {
            proof {
                assert(s.take(i as int).last() == s[i - 1]);
                assert(s.take(i as int).drop_last() =~= s.take(i - 1));
            }
            if self.entries[i - 1].0.equals(key) {
                return Some(self.entries[i - 1].1);
            }
            i -= 1;
        }
        None
    }

    /// Keeps a value under a key, in place of the one that was kept.
    pub fn insert(&mut self, key: CacheKey, value: usize)
        ensures
            final(self).entries@ == without_key(old(self).entries@, key).push((key, value)),
    {
        self.remove(&key);
        self.entries.push((key, value));
    }

    /// Forgets the value that is kept under a key.
    pub fn remove(&mut self, key: &CacheKey)
        ensures
            final(self).entries@ == without_key(old(self).entries@, *key),
    {
        let ghost s = self.entries@;
        let mut i: usize = 0;
        let mut out: Vec<(CacheKey, usize)> = Vec::new();
        let n: usize = self.entries.len();
        proof {
            assert(s.take(0) =~= Seq::<(CacheKey, usize)>::empty());
            assert(s.skip(0) =~= s);
        }
        while i < n
            invariant
                i <= n,
                n == s.len(),
                self.entries@ == s.skip(i as int),
                out@ == without_key(s.take(i as int), *key),
            decreases n - i,
        {
            let e = self.entries.remove(0);
            proof {
                assert(e == s[i as int]);
                assert(self.entries@ =~= s.skip(i + 1));
                assert(s.take(i + 1).last() == s[i as int]);
                assert(s.take(i + 1).drop_last() =~= s.take(i as int));
            }
            if !e.0.equals(key) {
                out.push(e);
            }
            i += 1;
        }
        proof {
            assert(s.take(s.len() as int) =~= s);
        }
        self.entries = out;
    }

    /// Forgets the values that a file counts as part of.
    pub fn forget_file(&mut self, file: &str, in_directory: bool)
        ensures
            final(self).entries@ == without_file(old(self).entries@, file@, in_directory),
    {
        let ghost s = self.entries@;
        let dir = parent(file);
        let mut i: usize = 0;
        let mut out: Vec<(CacheKey, usize)> = Vec::new();
        let n: usize = self.entries.len();
        proof {
            assert(s.take(0) =~= Seq::<(CacheKey, usize)>::empty());
            assert(s.skip(0) =~= s);
        }
        while i < n
            invariant
                i <= n,
                n == s.len(),
                opt_text(dir) == parent_of(file@),
                self.entries@ == s.skip(i as int),
                out@ == without_file(s.take(i as int), file@, in_directory),
            decreases n - i,
        {
            let e = self.entries.remove(0);
            proof {
                assert(e == s[i as int]);
                assert(self.entries@ =~= s.skip(i + 1));
                assert(s.take(i + 1).last() == s[i as int]);
                assert(s.take(i + 1).drop_last() =~= s.take(i as int));
            }
            let in_dir = in_directory && match &dir {
                Some(d) => path_eq(e.0.path.as_str(), d.as_str()),
                None => false,
            };
            if !in_dir && !path_eq(e.0.path.as_str(), file) {
                out.push(e);
            }
            i += 1;
        }
        proof {
            assert(s.take(s.len() as int) =~= s);
        }
        self.entries = out;
    }

    /// Forgets everything.
    pub fn clear(&mut self)
        ensures
            final(self).entries@.len() == 0,
    {
        self.entries = Vec::new();
    }
}

/// What is kept under a key is what was kept last under it; a key that was forgotten holds nothing;
/// and no other key is concerned.
pub proof fn law_cache(s: Seq<(CacheKey, usize)>, k: CacheKey, v: usize, q: CacheKey)
    ensures
        kept(without_key(s, k).push((k, v)), k) == Some(v),
        kept(without_key(s, k), k) is None,
        !same_key(k, q) ==> kept(without_key(s, k), q) == kept(s, q) && kept(
            without_key(s, k).push((k, v)),
            q,
        ) == kept(s, q),
{
    lemma_same_key(k, q, q);
    lemma_without_key(s, k, q);
    let t = without_key(s, k).push((k, v));
    assert(t.drop_last() =~= without_key(s, k));
    assert(t.last() == (k, v));
}

proof fn lemma_without_key(s: Seq<(CacheKey, usize)>, k: CacheKey, q: CacheKey)
    ensures
        kept(without_key(s, k), k) is None,
        !same_key(k, q) ==> kept(without_key(s, k), q) == kept(s, q),
    decreases s.len(),
{
    if s.len() > 0 {
        let d = s.drop_last();
        lemma_without_key(d, k, q);
        let r = without_key(d, k);
        lemma_same_key(s.last().0, k, q);
        lemma_same_key(k, s.last().0, q);
        lemma_same_key(s.last().0, q, k);
        if !same_key(s.last().0, k) {
            assert(r.push(s.last()).drop_last() =~= r);
        }
    }
}

/// Keys that are the same find the same value.
pub proof fn lemma_kept_agrees(s: Seq<(CacheKey, usize)>, a: CacheKey, b: CacheKey)
    requires
        same_key(a, b),
    ensures
        kept(s, a) == kept(s, b),
    decreases s.len(),
{
    if s.len() > 0 {
        lemma_kept_agrees(s.drop_last(), a, b);
        lemma_same_key(s.last().0, a, b);
        lemma_same_key(a, b, a);
        lemma_same_key(s.last().0, b, a);
    }
}

/// Once a file is forgotten, nothing that it counts as part of is kept, and all the rest is.
pub proof fn law_forgotten_file(s: Seq<(CacheKey, usize)>, file: Seq<char>, in_directory: bool, q: CacheKey)
    ensures
        concerns(q.path@, file, in_directory) ==> kept(
            without_file(s, file, in_directory),
            q,
        ) is None,
        !concerns(q.path@, file, in_directory) ==> kept(without_file(s, file, in_directory), q)
            == kept(s, q),
    decreases s.len(),
{
    if s.len() > 0 {
        let d = s.drop_last();
        law_forgotten_file(d, file, in_directory, q);
        let r = without_file(d, file, in_directory);
        if !concerns(s.last().0.path@, file, in_directory) {
            assert(r.push(s.last()).drop_last() =~= r);
        }
    }
}

// ---------------------------------------------------------------------------------------------
// Dependencies between files

/// Whether one file is known to refer to another.
pub open spec fn refers(s: Seq<(String, String)>, from: Seq<char>, to: Seq<char>) -> bool {
    exists|i: int|
        0 <= i < s.len() && same_path((#[trigger] s[i]).0@, from) && same_path(s[i].1@, to)
}

/// Whether a file is known to refer to any.
pub open spec fn refers_at_all(s: Seq<(String, String)>, from: Seq<char>) -> bool {
    exists|i: int| 0 <= i < s.len() && same_path((#[trigger] s[i]).0@, from)
}

/// The files that a file refers to, in the order in which that was noted.
pub open spec fn referred(s: Seq<(String, String)>, from: Seq<char>) -> Seq<Seq<char>>
    decreases s.len(),
{
    if s.len() == 0 {
        Seq::<Seq<char>>::empty()
    } else {
        let r = referred(s.drop_last(), from);
        if same_path(s.last().0@, from) {
            r.push(s.last().1@)
        } else {
            r
        }
    }
}

/// What is left without the references of a file.
pub open spec fn without_references(s: Seq<(String, String)>, from: Seq<char>) -> Seq<(String, String)>
    decreases s.len(),
{
    if s.len() == 0 {
        s
    } else {
        let r = without_references(s.drop_last(), from);
        if same_path(s.last().0@, from) {
            r
        } else {
            r.push(s.last())
        }
    }
}

/// The contents of an optional list.
pub open spec fn opt_texts(o: Option<Vec<String>>) -> Option<Seq<Seq<char>>> {
    match o {
        Some(v) => Some(texts(v@)),
        None => None,
    }
}

/// A session: what is kept between evaluations.
pub struct EvalSession {
    /// Files with what was read in them.
    pub source_cache: CacheMap,
    /// Modules that were loaded.
    pub load_cache: CacheMap,
    /// The notes for the files of footprints.
    pub footprint_cache: CacheMap,
    /// Symbols of libraries.
    pub symbol_cache: CacheMap,
    /// Simulation models.
    pub spice_cache: CacheMap,
    /// For each file, where its names are defined.
    pub symbol_index: SortedMap<PathKey, SortedMap<String, String>>,
    /// For each file, what is known of its names.
    pub symbol_meta: SortedMap<PathKey, SortedMap<String, SymbolInfo>>,
    /// Which file refers to which.
    pub module_deps: Vec<(String, String)>,
    /// The modules of the current tree.
    pub module_tree: SortedMap<InstancePath, usize>,
}

/// What is known of a name, as mathematics.
pub struct SymbolInfoView {
    pub kind: SymbolKind,
    pub parameters: Option<Seq<Seq<char>>>,
    pub source_path: Option<Seq<char>>,
    pub type_label: Seq<char>,
    pub documentation: Option<Seq<char>>,
}

impl View for SymbolInfo {
    type V = SymbolInfoView;

    open spec fn view(&self) -> SymbolInfoView {
        SymbolInfoView {
            kind: self.kind,
            parameters: opt_texts(self.parameters),
            source_path: opt_text(self.source_path),
            type_label: self.type_label@,
            documentation: opt_text(self.documentation),
        }
    }
}

/// What is known of a name of a file.
pub open spec fn info_of(
    s: Seq<(PathKey, SortedMap<String, SymbolInfo>)>,
    file: Seq<char>,
    name: Seq<char>,
) -> Option<SymbolInfoView> {
    match find(s, components(file)) {
        None => None,
        Some(m) => match find(m.entries@, name) {
            None => None,
            Some(i) => Some(i@),
        },
    }
}

/// Where a name of a file is defined.
pub open spec fn place_of(
    s: Seq<(PathKey, SortedMap<String, String>)>,
    file: Seq<char>,
    name: Seq<char>,
) -> Option<Seq<char>> {
    match find(s, components(file)) {
        None => None,
        Some(m) => opt_text(find(m.entries@, name)),
    }
}

/// The contents of what is known of a name.
pub open spec fn opt_info(o: Option<&SymbolInfo>) -> Option<SymbolInfoView> {
    match o {
        Some(i) => Some(i@),
        None => None,
    }
}

/// Whether a session is ready for the evaluation of another root.
pub open spec fn ready_for_root(before: EvalSession, after: EvalSession) -> bool {
    &&& after.module_tree.entries@.len() == 0
    &&& after.source_cache == before.source_cache
    &&& after.load_cache == before.load_cache
    &&& after.footprint_cache == before.footprint_cache
    &&& after.symbol_cache == before.symbol_cache
    &&& after.spice_cache == before.spice_cache
    &&& after.symbol_index == before.symbol_index
    &&& after.symbol_meta == before.symbol_meta
    &&& after.module_deps == before.module_deps
}

/// Whether everything that was derived from files is forgotten.
pub open spec fn files_forgotten(before: EvalSession, after: EvalSession) -> bool {
    &&& after.source_cache.entries@.len() == 0
    &&& after.load_cache.entries@.len() == 0
    &&& after.footprint_cache.entries@.len() == 0
    &&& after.symbol_cache.entries@.len() == 0
    &&& after.spice_cache.entries@.len() == 0
    &&& after.symbol_index == before.symbol_index
    &&& after.symbol_meta == before.symbol_meta
    &&& after.module_deps == before.module_deps
    &&& after.module_tree == before.module_tree
}

/// Whether what is known of the names of a file is forgotten.
pub open spec fn names_forgotten(before: EvalSession, after: EvalSession, path: Seq<char>) -> bool {
    &&& after.symbol_index@ == before.symbol_index@.remove(components(path))
    &&& after.symbol_meta@ == before.symbol_meta@.remove(components(path))
    &&& after.source_cache == before.source_cache
    &&& after.load_cache == before.load_cache
    &&& after.footprint_cache == before.footprint_cache
    &&& after.symbol_cache == before.symbol_cache
    &&& after.spice_cache == before.spice_cache
    &&& after.module_deps == before.module_deps
    &&& after.module_tree == before.module_tree
}

/// Whether what was derived from a file is forgotten.
pub open spec fn file_forgotten(
    before: EvalSession,
    after: EvalSession,
    path: Seq<char>,
    footprint_key: Option<CacheKey>,
) -> bool {
    &&& after.source_cache.entries@ == without_file(
        before.source_cache.entries@,
        path,
        false,
    )
    &&& after.footprint_cache.entries@ == (match footprint_key {
        Some(k) => without_key(before.footprint_cache.entries@, k),
        None => before.footprint_cache.entries@,
    })
    &&& after.symbol_cache.entries@ == without_file(
        before.symbol_cache.entries@,
        path,
        true,
    )
    &&& after.spice_cache.entries@ == without_file(
        before.spice_cache.entries@,
        path,
        false,
    )
    &&& after.load_cache == before.load_cache
    &&& after.symbol_index == before.symbol_index
    &&& after.symbol_meta == before.symbol_meta
    &&& after.module_deps == before.module_deps
    &&& after.module_tree == before.module_tree
}

/// Whether a module was put into the tree.
pub open spec fn module_inserted(
    before: EvalSession,
    after: EvalSession,
    path: Seq<Seq<char>>,
    module: usize,
) -> bool {
    &&& after.module_tree@ == before.module_tree@.insert(path, module)
    &&& after.source_cache == before.source_cache
    &&& after.load_cache == before.load_cache
    &&& after.footprint_cache == before.footprint_cache
    &&& after.symbol_cache == before.symbol_cache
    &&& after.spice_cache == before.spice_cache
    &&& after.symbol_index == before.symbol_index
    &&& after.symbol_meta == before.symbol_meta
    &&& after.module_deps == before.module_deps
}

impl EvalSession {
    /// The invariant: the maps are in order.
    pub open spec fn wf(&self) -> bool {
        self.symbol_index.wf() && self.symbol_meta.wf() && self.module_tree.wf()
    }

    /// Nothing is kept.
    pub fn new() -> (r: EvalSession)
        ensures
            r.wf(),
            r.source_cache.entries@.len() == 0,
            r.load_cache.entries@.len() == 0,
            r.footprint_cache.entries@.len() == 0,
            r.symbol_cache.entries@.len() == 0,
            r.spice_cache.entries@.len() == 0,
            r.symbol_index.entries@.len() == 0,
            r.symbol_meta.entries@.len() == 0,
            r.module_deps@.len() == 0,
            r.module_tree.entries@.len() == 0,
    {
        EvalSession {
            source_cache: CacheMap::new(),
            load_cache: CacheMap::new(),
            footprint_cache: CacheMap::new(),
            symbol_cache: CacheMap::new(),
            spice_cache: CacheMap::new(),
            symbol_index: SortedMap::new(),
            symbol_meta: SortedMap::new(),
            module_deps: Vec::new(),
            module_tree: SortedMap::new(),
        }
    }

    /// Makes ready for the evaluation of another root: the modules of the tree are forgotten, and
    /// all that can be used again is kept.
    pub fn prepare_for_root_eval(&mut self)
        requires
            old(self).wf(),
        ensures
            final(self).wf(),
            ready_for_root(*old(self), *final(self)),
    {
        self.module_tree = SortedMap::new();
    }

    /// Puts a module into the tree.
    pub fn insert_module(&mut self, path: InstancePath, module: usize)
        requires
            old(self).wf(),
        ensures
            final(self).wf(),
            module_inserted(*old(self), *final(self), path@, module),
    {
        self.module_tree.insert(path, module);
    }

    /// Forgets everything that was derived from files.
    pub fn clear_load_cache(&mut self)
        requires
            old(self).wf(),
        ensures
            final(self).wf(),
            files_forgotten(*old(self), *final(self)),
    {
        self.load_cache.clear();
        self.source_cache.clear();
        self.footprint_cache.clear();
        self.symbol_cache.clear();
        self.spice_cache.clear();
    }

    /// Forgets what was derived from a file: its source, the notes for it as a footprint, the
    /// symbols of its library, also where the file is one of a directory of symbols, and the
    /// simulation models in it. Loaded modules stay.
    pub fn invalidate_file(&mut self, path: &str, footprint_key: Option<CacheKey>)
        requires
            old(self).wf(),
        ensures
            final(self).wf(),
            file_forgotten(*old(self), *final(self), path@, footprint_key),
    {
        self.source_cache.forget_file(path, false);
        if let Some(k) = footprint_key {
            self.footprint_cache.remove(&k);
        }
        self.symbol_cache.forget_file(path, true);
        self.spice_cache.forget_file(path, false);
    }

    /// Forgets what is known of the names of a file.
    pub fn clear_symbol_maps(&mut self, path: &str)
        requires
            old(self).wf(),
        ensures
            final(self).wf(),
            names_forgotten(*old(self), *final(self), path@),
    {
        let key = PathKey { path: path.to_owned() };
        self.symbol_index.remove(&key);
        self.symbol_meta.remove(&key);
    }

    /// Takes note of what is known of the names of a file; where nothing is known, what was known
    /// stays.
    pub fn update_symbol_maps(
        &mut self,
        path: &str,
        symbol_index: SortedMap<String, String>,
        symbol_meta: SortedMap<String, SymbolInfo>,
    )
        requires
            old(self).wf(),
        ensures
            final(self).wf(),
            final(self).symbol_index@ == (if symbol_index.entries@.len() == 0 {
                old(self).symbol_index@
            } else {
                old(self).symbol_index@.insert(components(path@), symbol_index)
            }),
            final(self).symbol_meta@ == (if symbol_meta.entries@.len() == 0 {
                old(self).symbol_meta@
            } else {
                old(self).symbol_meta@.insert(components(path@), symbol_meta)
            }),
            final(self).source_cache == old(self).source_cache,
            final(self).load_cache == old(self).load_cache,
            final(self).footprint_cache == old(self).footprint_cache,
            final(self).symbol_cache == old(self).symbol_cache,
            final(self).spice_cache == old(self).spice_cache,
            final(self).module_deps == old(self).module_deps,
            final(self).module_tree == old(self).module_tree,
    {
        if !symbol_index.is_empty() {
            self.symbol_index.insert(PathKey { path: path.to_owned() }, symbol_index);
        }
        if !symbol_meta.is_empty() {
            self.symbol_meta.insert(PathKey { path: path.to_owned() }, symbol_meta);
        }
    }

    /// Takes note that one file refers to another.
    pub fn record_module_dependency(&mut self, from: &str, to: &str)
        requires
            old(self).wf(),
        ensures
            final(self).wf(),
            refers(final(self).module_deps@, from@, to@),
            refers(old(self).module_deps@, from@, to@) ==> final(self).module_deps
                == old(self).module_deps,
            !refers(old(self).module_deps@, from@, to@) ==> final(self).module_deps@.len()
                == old(self).module_deps@.len() + 1 && final(self).module_deps@.drop_last()
                == old(self).module_deps@ && final(self).module_deps@.last().0@ == from@
                && final(self).module_deps@.last().1@ == to@,
            final(self).source_cache == old(self).source_cache,
            final(self).load_cache == old(self).load_cache,
            final(self).footprint_cache == old(self).footprint_cache,
            final(self).symbol_cache == old(self).symbol_cache,
            final(self).spice_cache == old(self).spice_cache,
            final(self).symbol_index == old(self).symbol_index,
            final(self).symbol_meta == old(self).symbol_meta,
            final(self).module_tree == old(self).module_tree,
    {
        if !self.module_dep_exists(from, to) {
            self.module_deps.push((from.to_owned(), to.to_owned()));
            proof {
                let s = self.module_deps@;
                assert(s.drop_last() =~= old(self).module_deps@);
                assert(same_path(s[s.len() - 1].0@, from@) && same_path(s[s.len() - 1].1@, to@));
            }
        }
    }

    /// Whether one file is known to refer to another.
    pub fn module_dep_exists(&self, from: &str, to: &str) -> (r: bool)
        ensures
            r == refers(self.module_deps@, from@, to@),
    {
        let ghost s = self.module_deps@;
        let mut i: usize = 0;
        while i < self.module_deps.len()
            invariant
                i <= self.module_deps@.len(),
                s == self.module_deps@,
                forall|k: int|
                    0 <= k < i ==> !(same_path((#[trigger] s[k]).0@, from@) && same_path(
                        s[k].1@,
                        to@,
                    )),
            decreases self.module_deps@.len() - i,
        {
            if path_eq(self.module_deps[i].0.as_str(), from) && path_eq(
                self.module_deps[i].1.as_str(),
                to,
            ) {
                proof {
                    assert(same_path(s[i as int].0@, from@));
                }
                return true;
            }
            i += 1;
        }
        false
    }

    /// The files that a file refers to, where it is known to refer to any.
    pub fn get_module_dependencies(&self, path: &str) -> (r: Option<Vec<String>>)
        ensures
            opt_texts(r) == (if refers_at_all(self.module_deps@, path@) {
                Some(referred(self.module_deps@, path@))
            } else {
                None
            }),
    {
        let ghost s = self.module_deps@;
        let mut out: Vec<String> = Vec::new();
        let mut any = false;
        let mut i: usize = 0;
        proof {
            assert(s.take(0) =~= Seq::<(String, String)>::empty());
            assert(texts(out@) =~= Seq::<Seq<char>>::empty());
        }
        while i < self.module_deps.len()
            invariant
                i <= self.module_deps@.len(),
                s == self.module_deps@,
                texts(out@) == referred(s.take(i as int), path@),
                any == exists|k: int| 0 <= k < i && same_path((#[trigger] s[k]).0@, path@),
            decreases self.module_deps@.len() - i,
        {
            proof {
                assert(s.take(i + 1).drop_last() =~= s.take(i as int));
                assert(s.take(i + 1).last() == s[i as int]);
            }
            if path_eq(self.module_deps[i].0.as_str(), path) {
                any = true;
                let t = self.module_deps[i].1.clone();
                proof {
                    crate::text::lemma_texts_push(out@, t);
                    assert(same_path(s[i as int].0@, path@));
                }
                out.push(t);
            }
            i += 1;
        }
        proof {
            assert(s.take(s.len() as int) =~= s);
        }
        if any {
            Some(out)
        } else {
            None
        }
    }

    /// Forgets the references of a file.
    pub fn clear_module_dependencies(&mut self, path: &str)
        requires
            old(self).wf(),
        ensures
            final(self).wf(),
            final(self).module_deps@ == without_references(old(self).module_deps@, path@),
            final(self).source_cache == old(self).source_cache,
            final(self).load_cache == old(self).load_cache,
            final(self).footprint_cache == old(self).footprint_cache,
            final(self).symbol_cache == old(self).symbol_cache,
            final(self).spice_cache == old(self).spice_cache,
            final(self).symbol_index == old(self).symbol_index,
            final(self).symbol_meta == old(self).symbol_meta,
            final(self).module_tree == old(self).module_tree,
    {
        let ghost s = self.module_deps@;
        let mut out: Vec<(String, String)> = Vec::new();
        let n: usize = self.module_deps.len();
        let mut i: usize = 0;
        proof {
            assert(s.take(0) =~= Seq::<(String, String)>::empty());
            assert(s.skip(0) =~= s);
        }
        while i < n
            invariant
                i <= n,
                n == s.len(),
                self.module_deps@ == s.skip(i as int),
                out@ == without_references(s.take(i as int), path@),
                self.wf(),
                self.source_cache == old(self).source_cache,
                self.load_cache == old(self).load_cache,
                self.footprint_cache == old(self).footprint_cache,
                self.symbol_cache == old(self).symbol_cache,
                self.spice_cache == old(self).spice_cache,
                self.symbol_index == old(self).symbol_index,
                self.symbol_meta == old(self).symbol_meta,
                self.module_tree == old(self).module_tree,
            decreases n - i,
        {
            let e = self.module_deps.remove(0);
            proof {
                assert(e == s[i as int]);
                assert(self.module_deps@ =~= s.skip(i + 1));
                assert(s.take(i + 1).last() == s[i as int]);
                assert(s.take(i + 1).drop_last() =~= s.take(i as int));
            }
            if !path_eq(e.0.as_str(), path) {
                out.push(e);
            }
            i += 1;
        }
        proof {
            assert(s.take(s.len() as int) =~= s);
        }
        self.module_deps = out;
    }

    /// What is known of a name of a file.
    pub fn get_symbol_info(&self, path: &str, name: &str) -> (r: Option<&SymbolInfo>)
        ensures
            opt_info(r) == info_of(self.symbol_meta.entries@, path@, name@),
    {
        let key = PathKey { path: path.to_owned() };
        match self.symbol_meta.get(&key) {
            None => None,
            Some(m) => {
                let k = name.to_owned();
                m.get(&k)
            },
        }
    }

    /// The parameters of a name of a file, where it has any.
    pub fn get_symbol_params(&self, path: &str, name: &str) -> (r: Option<Vec<String>>)
        ensures
            opt_texts(r) == (match info_of(self.symbol_meta.entries@, path@, name@) {
                Some(i) => match i.parameters {
                    Some(p) => if p.len() > 0 {
                        Some(p)
                    } else {
                        None
                    },
                    None => None,
                },
                None => None,
            }),
    {
        match self.get_symbol_info(path, name) {
            None => None,
            Some(i) => match &i.parameters {
                None => None,
                Some(p) => {
                    proof {
                        assert(texts(p@).len() == p@.len());
                    }
                    if p.len() > 0 {
                        Some(clone_texts(p))
                    } else {
                        None
                    }
                },
            },
        }
    }

    /// Where a name of a file is defined.
    pub fn get_url_for_global_symbol(&self, path: &str, name: &str) -> (r: Option<&str>)
        ensures
            opt_str(r) == place_of(self.symbol_index.entries@, path@, name@),
    {
        let key = PathKey { path: path.to_owned() };
        match self.symbol_index.get(&key) {
            None => None,
            Some(m) => {
                let k = name.to_owned();
                match m.get(&k) {
                    Some(s) => Some(s.as_str()),
                    None => None,
                }
            },
        }
    }

    /// What is known of the names of a file.
    pub fn get_symbols_for_file(&self, path: &str) -> (r: Option<&SortedMap<String, SymbolInfo>>)
        ensures
            match r {
                Some(m) => find(self.symbol_meta.entries@, components(path@)) == Some(*m),
                None => find(self.symbol_meta.entries@, components(path@)) is None,
            },
    {
        let key = PathKey { path: path.to_owned() };
        self.symbol_meta.get(&key)
    }

    /// Where the names of a file are defined.
    pub fn get_symbol_index(&self, path: &str) -> (r: Option<&SortedMap<String, String>>)
        ensures
            match r {
                Some(m) => find(self.symbol_index.entries@, components(path@)) == Some(*m),
                None => find(self.symbol_index.entries@, components(path@)) is None,
            },
    {
        let key = PathKey { path: path.to_owned() };
        self.symbol_index.get(&key)
    }
}

/// Once the references of a file are forgotten it refers to none, and every other file refers to what
/// it did.
pub proof fn law_forgotten_references(
    s: Seq<(String, String)>,
    from: Seq<char>,
    other: Seq<char>,
    to: Seq<char>,
)
    ensures
        !refers_at_all(without_references(s, from), from),
        !same_path(other, from) ==> refers(without_references(s, from), other, to) == refers(
            s,
            other,
            to,
        ),
    decreases s.len(),
{
    if s.len() > 0 {
        let d = s.drop_last();
        law_forgotten_references(d, from, other, to);
        let r = without_references(d, from);
        let t = without_references(s, from);
        if refers_at_all(t, from) {
            let i = choose|i: int| 0 <= i < t.len() && same_path((#[trigger] t[i]).0@, from);
            if i < r.len() {
                assert(t[i] == r[i]);
                assert(refers_at_all(r, from));
            }
        }
        if !same_path(other, from) {
            if refers(t, other, to) {
                let i = choose|i: int|
                    0 <= i < t.len() && same_path((#[trigger] t[i]).0@, other) && same_path(
                        t[i].1@,
                        to,
                    );
                if i < r.len() {
                    assert(t[i] == r[i]);
                    assert(refers(r, other, to));
                    let j = choose|j: int|
                        0 <= j < d.len() && same_path((#[trigger] d[j]).0@, other) && same_path(
                            d[j].1@,
                            to,
                        );
                    assert(s[j] == d[j]);
                } else {
                    assert(s[s.len() - 1] == t[i]);
                }
            }
            if refers(s, other, to) {
                let i = choose|i: int|
                    0 <= i < s.len() && same_path((#[trigger] s[i]).0@, other) && same_path(
                        s[i].1@,
                        to,
                    );
                if i < d.len() {
                    assert(d[i] == s[i]);
                    assert(refers(d, other, to));
                    let j = choose|j: int|
                        0 <= j < r.len() && same_path((#[trigger] r[j]).0@, other) && same_path(
                            r[j].1@,
                            to,
                        );
                    assert(t[j] == r[j]);
                } else {
                    assert(t[t.len() - 1] == s[i]);
                }
            }
        }
    }
}

} // verus!
