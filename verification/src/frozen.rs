//! Frozen resolutions: for each root package, where every package stands and what it depends on.

use vstd::prelude::*;

use crate::config::{copy_parts, part_views, ManifestPart, ManifestPartView};
use crate::map::{copy_text_map, find, in_order, keys_of, lemma_same_order, lemma_same_slot};
use crate::map::{lemma_slot, lemma_slot_at, slot, text_entries, PathKey, SortedMap};
use crate::path::{ancestors, ancestors_of, components, ends_with_path, file_name, file_name_of};
use crate::path::{law_ancestors_are_prefixes, law_parent_drops_last_component, lies_under, parent};
use crate::path::{parent_of, path_ends_with, path_eq, path_join, path_joined, relative_to};
use crate::path::{same_path, strip_base};
use crate::resolution::FrozenDepId;
use crate::resolved::canonical_or_same;
use crate::text::{after_last, last_segment, opt_str, opt_text, same, texts};
use crate::version::{version_text, Version, VersionParts};
use crate::workspace::{covers, is_longest_cover, package_url_covers, WorkspaceInfo};
use crate::workspace::{WorkspacePackage, LOCAL_WORKSPACE_ROOT_URL};
use crate::{made_canonical, FileProvider, STDLIB_MODULE_PATH};

verus! {

/// What a package of a frozen resolution is.
pub enum FrozenPackageIdentity {
    /// A package of the workspace, by URL.
    Workspace(String),
    Remote { dep_id: FrozenDepId, version: Version },
    Stdlib,
}

/// The contents of a package identity.
pub enum IdentityView {
    Workspace(Seq<char>),
    Remote { dep_id: (Seq<char>, Seq<char>), version: VersionParts },
    Stdlib,
}

impl View for FrozenPackageIdentity {
    type V = IdentityView;

    open spec fn view(&self) -> IdentityView {
        match *self {
            FrozenPackageIdentity::Workspace(url) => IdentityView::Workspace(url@),
            FrozenPackageIdentity::Remote { dep_id, version } => IdentityView::Remote {
                dep_id: dep_id@,
                version: version@,
            },
            FrozenPackageIdentity::Stdlib => IdentityView::Stdlib,
        }
    }
}

/// The text that shows a package identity.
pub open spec fn identity_text(i: IdentityView) -> Seq<char> {
    match i {
        IdentityView::Workspace(url) => url,
        IdentityView::Remote { dep_id, version } => dep_id.0 + "@"@ + dep_id.1 + " = "@
            + version_text(version),
        IdentityView::Stdlib => STDLIB_MODULE_PATH@,
    }
}

/// The URL of a package identity.
pub open spec fn identity_url(i: IdentityView) -> Seq<char> {
    match i {
        IdentityView::Workspace(url) => url,
        IdentityView::Remote { dep_id, version: _ } => dep_id.0,
        IdentityView::Stdlib => STDLIB_MODULE_PATH@,
    }
}

impl FrozenPackageIdentity {
    /// The text that shows the identity.
    pub fn display(&self) -> (r: String)
        ensures
            r@ == identity_text(self@),
    {
        match self {
            FrozenPackageIdentity::Workspace(url) => url.clone(),
            FrozenPackageIdentity::Remote { dep_id, version } => {
                let mut out = dep_id.path.clone();
                out.append("@");
                out.append(dep_id.lane.as_str());
                out.append(" = ");
                let v = version.to_text();
                out.append(v.as_str());
                out
            },
            FrozenPackageIdentity::Stdlib => STDLIB_MODULE_PATH.to_owned(),
        }
    }

    /// The URL of the package.
    pub fn package_url(&self) -> (r: Option<&str>)
        ensures
            opt_str(r) == Some(identity_url(self@)),
    {
        match self {
            FrozenPackageIdentity::Workspace(url) => Some(url.as_str()),
            FrozenPackageIdentity::Remote { dep_id, version: _ } => Some(dep_id.path.as_str()),
            FrozenPackageIdentity::Stdlib => Some(STDLIB_MODULE_PATH),
        }
    }

    /// Whether this is the workspace package of a URL.
    pub fn is_workspace_package(&self, url: &str) -> (r: bool)
        ensures
            r == (self@ == IdentityView::Workspace(url@)),
    {
        match self {
            FrozenPackageIdentity::Workspace(own) => same(own.as_str(), url),
            _ => false,
        }
    }

    /// Another identity with the same contents.
    pub fn copy(&self) -> (r: FrozenPackageIdentity)
        ensures
            r@ == self@,
    {
        match self {
            FrozenPackageIdentity::Workspace(url) => FrozenPackageIdentity::Workspace(url.clone()),
            FrozenPackageIdentity::Remote { dep_id, version } => FrozenPackageIdentity::Remote {
                dep_id: dep_id.copy(),
                version: version.copy(),
            },
            FrozenPackageIdentity::Stdlib => FrozenPackageIdentity::Stdlib,
        }
    }
}

/// A package of a frozen resolution.
pub struct FrozenPackage {
    pub identity: FrozenPackageIdentity,
    /// The roots of the package's dependencies, by URL.
    pub deps: SortedMap<String, String>,
    pub parts: Vec<ManifestPart>,
}

/// The contents of a package of a frozen resolution.
pub struct FrozenPackageView {
    pub identity: IdentityView,
    pub deps: Seq<(Seq<char>, Seq<char>)>,
    pub parts: Seq<ManifestPartView>,
}

impl View for FrozenPackage {
    type V = FrozenPackageView;

    open spec fn view(&self) -> FrozenPackageView {
        FrozenPackageView {
            identity: self.identity@,
            deps: text_entries(self.deps.entries@),
            parts: part_views(self.parts@),
        }
    }
}

/// The contents of a package whose dependencies stand in other directories.
pub open spec fn with_dirs(p: FrozenPackage, dirs: Seq<Seq<char>>) -> FrozenPackageView {
    FrozenPackageView {
        identity: p.identity@,
        deps: Seq::new(p.deps.entries@.len(), |i: int| (p.deps.entries@[i].0@, dirs[i])),
        parts: part_views(p.parts@),
    }
}

/// The last package that is placed at a path.
pub open spec fn placed_at(
    s: Seq<(PathKey, FrozenPackage)>,
    roots: Seq<String>,
    dirs: Seq<Vec<String>>,
    q: Seq<Seq<char>>,
) -> Option<FrozenPackageView>
    decreases s.len(),
{
    if s.len() == 0 {
        None
    } else if components(roots[s.len() - 1]@) == q {
        Some(with_dirs(s.last().1, texts(dirs[s.len() - 1]@)))
    } else {
        placed_at(s.drop_last(), roots, dirs, q)
    }
}

/// Whether packages stand as others do, in other directories.
pub open spec fn moved_to(
    new: Seq<(PathKey, FrozenPackage)>,
    s: Seq<(PathKey, FrozenPackage)>,
    roots: Seq<String>,
    dirs: Seq<Vec<String>>,
) -> bool {
    &&& roots.len() == s.len()
    &&& dirs.len() == s.len()
    &&& forall|i: int|
        0 <= i < s.len() ==> (#[trigger] dirs[i])@.len() == s[i].1.deps.entries@.len()
    &&& forall|q: Seq<Seq<char>>|
        opt_package(#[trigger] find(new, q)) == placed_at(s, roots, dirs, q)
}

/// Whether directories are what a file provider makes of the roots of packages and of the directories
/// of their dependencies.
pub open spec fn canonical_places<F: FileProvider>(
    file_provider: &F,
    s: Seq<(PathKey, FrozenPackage)>,
    roots: Seq<String>,
    dirs: Seq<Vec<String>>,
) -> bool {
    &&& forall|i: int|
        0 <= i < s.len() ==> made_canonical(
            file_provider,
            (#[trigger] s[i]).0.path@,
            roots[i]@,
        )
    &&& forall|i: int, j: int|
        0 <= i < s.len() && 0 <= j < s[i].1.deps.entries@.len() ==> made_canonical(
            file_provider,
            (#[trigger] s[i].1.deps.entries@[j]).1@,
            dirs[i]@[j]@,
        )
}

impl FrozenPackage {
    /// The package with its dependencies in other directories.
    pub fn with_directories(&self, dirs: &Vec<String>) -> (r: FrozenPackage)
        requires
            dirs@.len() == self.deps.entries@.len(),
        ensures
            r@ == with_dirs(*self, texts(dirs@)),
            self.deps.wf() ==> r.deps.wf(),
    {
        let mut entries: Vec<(String, String)> = Vec::new();
        let mut i: usize = 0;
        while i < self.deps.entries.len()
            invariant
                i <= self.deps.entries@.len(),
                dirs@.len() == self.deps.entries@.len(),
                entries@.len() == i,
                forall|k: int|
                    0 <= k < i ==> (#[trigger] entries@[k]).0@ == self.deps.entries@[k].0@
                        && entries@[k].1@ == dirs@[k]@,
            decreases self.deps.entries@.len() - i,
        {
            entries.push((self.deps.entries[i].0.clone(), dirs[i].clone()));
            i += 1;
        }
        let r = FrozenPackage {
            identity: self.identity.copy(),
            deps: SortedMap { entries },
            parts: copy_parts(&self.parts),
        };
        proof {
            assert(r@.deps =~= with_dirs(*self, texts(dirs@)).deps);
            assert(keys_of(r.deps.entries@) =~= keys_of(self.deps.entries@));
            if self.deps.wf() {
                lemma_same_order(self.deps.entries@, r.deps.entries@);
            }
        }
        r
    }
}

/// The contents of an optional package.
pub open spec fn opt_package(o: Option<FrozenPackage>) -> Option<FrozenPackageView> {
    match o {
        Some(p) => Some(p@),
        None => None,
    }
}

/// The packages that one root package sees, by root directory.
pub struct FrozenResolutionMap {
    pub selected_remote: SortedMap<FrozenDepId, Version>,
    pub packages: SortedMap<PathKey, FrozenPackage>,
}

/// The frozen resolutions by the URL of their root package.
pub type FrozenResolutionSet = SortedMap<String, FrozenResolutionMap>;

// ---------------------------------------------------------------------------------------------
// The nearest directory above a file

/// The place of the first path that is a key, or the number of paths.
pub open spec fn first_known<V>(s: Seq<(PathKey, V)>, dirs: Seq<Seq<char>>) -> int
    decreases dirs.len(),
{
    if dirs.len() == 0 {
        0
    } else if find(s, components(dirs[0])) is Some {
        0
    } else {
        1 + first_known(s, dirs.skip(1))
    }
}

proof fn lemma_first_known<V>(s: Seq<(PathKey, V)>, dirs: Seq<Seq<char>>)
    ensures
        0 <= first_known(s, dirs) <= dirs.len(),
        first_known(s, dirs) < dirs.len() ==> find(
            s,
            components(dirs[first_known(s, dirs)]),
        ) is Some,
        forall|i: int|
            0 <= i < first_known(s, dirs) ==> find(s, components(#[trigger] dirs[i])) is None,
    decreases dirs.len(),
{
    if dirs.len() > 0 && find(s, components(dirs[0])) is None {
        lemma_first_known(s, dirs.skip(1));
        assert forall|i: int| 0 <= i < first_known(s, dirs) implies find(
            s,
            components(#[trigger] dirs[i]),
        ) is None by {
            if i > 0 {
                assert(dirs.skip(1)[i - 1] == dirs[i]);
            }
        }
    }
}

/// What stands under the nearest directory of a path that is a key.
pub open spec fn nearest<V>(s: Seq<(PathKey, V)>, path: Seq<char>) -> Option<(Seq<Seq<char>>, V)> {
    let dirs = ancestors_of(path);
    let k = first_known(s, dirs);
    if k < dirs.len() {
        Some((components(dirs[k]), find(s, components(dirs[k]))->Some_0))
    } else {
        None
    }
}

/// Where the nearest directory of a path that is a key stands among the path's ancestors, and what
/// it holds.
pub open spec fn nearest_place<V>(s: Seq<(PathKey, V)>, path: Seq<char>) -> (int, V) {
    let dirs = ancestors_of(path);
    let k = first_known(s, dirs);
    (k, find(s, components(dirs[k]))->Some_0)
}

/// The nearest directory is an ancestor and a key.
pub proof fn lemma_nearest<V>(s: Seq<(PathKey, V)>, path: Seq<char>)
    ensures
        match nearest(s, path) {
            Some((dir, v)) => {
                let k = nearest_place(s, path).0;
                &&& 0 <= k < ancestors_of(path).len()
                &&& components(ancestors_of(path)[k]) == dir
                &&& find(s, dir) == Some(v)
                &&& dir.len() <= components(path).len()
                &&& components(path).take(dir.len() as int) == dir
            },
            None => true,
        },
{
    lemma_first_known(s, ancestors_of(path));
    if nearest(s, path) is Some {
        law_ancestors_are_prefixes(path, nearest_place(s, path).0);
    }
}

/// Every directory above a path is among its ancestors, but for the empty path above the root.
pub proof fn lemma_ancestor_of_depth(p: Seq<char>, k: int)
    requires
        0 <= k <= components(p).len(),
        k > 0 || components(p).len() == 0 || components(p)[0] != seq!['/'],
    ensures
        components(p).len() - k < ancestors_of(p).len(),
        components(ancestors_of(p)[components(p).len() - k]) == components(p).take(k),
    decreases components(p).len() - k,
{
    let n = components(p).len() as int;
    law_parent_drops_last_component(p);
    if k == n {
        assert(components(p).take(n) =~= components(p));
    } else {
        match parent_of(p) {
            Some(q) => {
                assert(components(q).len() == n - 1);
                if components(q).len() > 0 {
                    assert(components(q)[0] == components(p)[0]);
                }
                lemma_ancestor_of_depth(q, k);
                assert(ancestors_of(p) == seq![p] + ancestors_of(q));
                assert(ancestors_of(p)[n - k] == ancestors_of(q)[n - 1 - k]);
                assert(components(q).take(k) =~= components(p).take(k));
            },
            None => {
                assert(components(p)[0] == seq!['/']);
                assert(false);
            },
        }
    }
}

/// The nearest directory of a path that is a key holds the path, and no key that holds the path is
/// deeper.
pub proof fn law_nearest_is_deepest<V>(s: Seq<(PathKey, V)>, path: Seq<char>, root: Seq<char>)
    requires
        find(s, components(root)) is Some,
        lies_under(path, root),
        root.len() > 0 || components(path).len() == 0 || components(path)[0] != seq!['/'],
    ensures
        nearest(s, path) is Some,
        ({
            let c = nearest(s, path)->Some_0.0;
            c.len() <= components(path).len() && components(path).take(c.len() as int) == c
                && components(root).len() <= c.len()
        }),
{
    let dirs = ancestors_of(path);
    let n = components(path).len() as int;
    let d = components(root).len() as int;
    crate::path::lemma_spans(root);
    lemma_ancestor_of_depth(path, d);
    lemma_first_known(s, dirs);
    let k = first_known(s, dirs);
    assert(components(dirs[n - d]) == components(root));
    if k > n - d {
        assert(find(s, components(dirs[n - d])) is None);
    }
    law_ancestors_are_prefixes(path, k);
    assert(components(dirs[k]) == components(path).take(n - k));
}

/// The place of the first path that is a key, or the number of paths.
fn first_known_at<V>(m: &SortedMap<PathKey, V>, dirs: &Vec<String>) -> (r: usize)
    ensures
        r == first_known(m.entries@, texts(dirs@)),
        r <= dirs@.len(),
{
    let ghost all = texts(dirs@);
    let mut i: usize = 0;
    proof {
        assert(all.skip(0) =~= all);
    }
    while i < dirs.len()
        invariant
            i <= dirs@.len(),
            all == texts(dirs@),
            i + first_known(m.entries@, all.skip(i as int)) == first_known(m.entries@, all),
        decreases dirs@.len() - i,
    {
        proof {
            assert(all.skip(i as int)[0] == dirs@[i as int]@);
            assert(all.skip(i as int).skip(1) =~= all.skip(i + 1));
        }
        if m.contains_key(&PathKey { path: dirs[i].clone() }) {
            return i;
        }
        i += 1;
    }
    i
}

/// What stands under the nearest directory of a path that is a key, with the key.
pub fn nearest_entry<'a, V>(m: &'a SortedMap<PathKey, V>, path: &str) -> (r: Option<(&'a str, &'a V)>)
    ensures
        match r {
            Some((dir, v)) => nearest(m.entries@, path@) == Some((components(dir@), *v)),
            None => nearest(m.entries@, path@) is None,
        },
{
    let dirs = ancestors(path);
    let k = first_known_at(m, &dirs);
    proof {
        lemma_first_known(m.entries@, texts(dirs@));
        assert(texts(dirs@).len() == dirs@.len());
    }
    if k < dirs.len() {
        proof {
            assert(texts(dirs@)[k as int] == dirs@[k as int]@);
            lemma_slot(m.entries@, components(dirs@[k as int]@));
        }
        let i = m.position(&PathKey { path: dirs[k].clone() });
        Some((m.entries[i].0.path.as_str(), &m.entries[i].1))
    } else {
        None
    }
}

/// Whether the dependencies of every package stand in order.
pub open spec fn deps_in_order(s: Seq<(PathKey, FrozenPackage)>) -> bool {
    forall|i: int| 0 <= i < s.len() ==> (#[trigger] s[i]).1.deps.wf()
}

impl FrozenResolutionMap {
    /// The invariant: the tables stand in the order of their keys, and so do the dependencies of
    /// each package.
    pub open spec fn wf(&self) -> bool {
        self.selected_remote.wf() && self.packages.wf() && deps_in_order(self.packages.entries@)
    }

    /// The package that holds a file, with its root: the deepest root above the file.
    pub fn package_for_file(&self, file: &str) -> (r: Option<(&str, &FrozenPackage)>)
        ensures
            match r {
                Some((root, p)) => nearest(self.packages.entries@, file@) == Some(
                    (components(root@), *p),
                ),
                None => nearest(self.packages.entries@, file@) is None,
            },
    {
        nearest_entry(&self.packages, file)
    }

    /// Gives the packages other directories: `roots` holds the root of each package, `dirs` those of
    /// its dependencies, in the order of the tables. Of two packages with the same root the later
    /// counts.
    pub fn set_directories(&mut self, roots: &Vec<String>, dirs: &Vec<Vec<String>>)
        requires
            old(self).wf(),
            roots@.len() == old(self).packages.entries@.len(),
            dirs@.len() == old(self).packages.entries@.len(),
            forall|i: int|
                0 <= i < dirs@.len() ==> (#[trigger] dirs@[i])@.len() == old(
                    self,
                ).packages.entries@[i].1.deps.entries@.len(),
        ensures
            final(self).wf(),
            final(self).selected_remote == old(self).selected_remote,
            moved_to(final(self).packages.entries@, old(self).packages.entries@, roots@, dirs@),
    {
        let s = &self.packages.entries;
        let mut out: SortedMap<PathKey, FrozenPackage> = SortedMap::new();
        let mut i: usize = 0;
        proof {
            assert(s@.take(0) =~= Seq::<(PathKey, FrozenPackage)>::empty());
        }
        while i < s.len()
            invariant
                i <= s@.len(),
                roots@.len() == s@.len(),
                dirs@.len() == s@.len(),
                forall|k: int|
                    0 <= k < dirs@.len() ==> (#[trigger] dirs@[k])@.len()
                        == s@[k].1.deps.entries@.len(),
                deps_in_order(s@),
                out.wf(),
                deps_in_order(out.entries@),
                forall|q: Seq<Seq<char>>|
                    opt_package(#[trigger] find(out.entries@, q)) == placed_at(
                        s@.take(i as int),
                        roots@,
                        dirs@,
                        q,
                    ),
            decreases s@.len() - i,
        {
            let ghost before = out.entries@;
            proof {
                assert(s@.take(i + 1).drop_last() =~= s@.take(i as int));
                assert(s@.take(i + 1).last() == s@[i as int]);
                assert(dirs@[i as int]@.len() == s@[i as int].1.deps.entries@.len());
            }
            let package = s[i].1.with_directories(&dirs[i]);
            out.insert(PathKey { path: roots[i].clone() }, package);
            proof {
                let t = out.entries@;
                assert forall|j: int| 0 <= j < t.len() implies (#[trigger] t[j]).1.deps.wf() by {
                    let q = t[j].0@;
                    crate::map::lemma_slot_at(t, j);
                    crate::map::lemma_slot(before, q);
                    if find(before, q) is Some {
                        assert(before[crate::map::slot(before, q)].1.deps.wf());
                    }
                    assert(s@[i as int].1.deps.wf());
                }
                assert forall|q: Seq<Seq<char>>|
                    opt_package(#[trigger] find(out.entries@, q)) == placed_at(
                        s@.take(i + 1),
                        roots@,
                        dirs@,
                        q,
                    ) by {
                    assert(opt_package(find(before, q)) == placed_at(
                        s@.take(i as int),
                        roots@,
                        dirs@,
                        q,
                    ));
                }
            }
            i += 1;
        }
        proof {
            assert(s@.take(s@.len() as int) =~= s@);
        }
        self.packages = out;
    }

    /// Makes the directories canonical, as far as the file provider can.
    pub fn canonicalize_keys<F: FileProvider>(&mut self, file_provider: &F)
        requires
            old(self).wf(),
        ensures
            final(self).wf(),
            final(self).selected_remote == old(self).selected_remote,
            exists|roots: Seq<String>, dirs: Seq<Vec<String>>| #[trigger]
                moved_to(final(self).packages.entries@, old(self).packages.entries@, roots, dirs)
                    && canonical_places(
                    file_provider,
                    old(self).packages.entries@,
                    roots,
                    dirs,
                ),
    {
        let mut roots: Vec<String> = Vec::new();
        let mut dirs: Vec<Vec<String>> = Vec::new();
        let mut i: usize = 0;
        while i < self.packages.entries.len()
            invariant
                i <= self.packages.entries@.len(),
                *self == *old(self),
                roots@.len() == i,
                dirs@.len() == i,
                forall|k: int|
                    0 <= k < i ==> (#[trigger] dirs@[k])@.len()
                        == self.packages.entries@[k].1.deps.entries@.len(),
                forall|k: int|
                    0 <= k < i ==> made_canonical(
                        file_provider,
                        (#[trigger] self.packages.entries@[k]).0.path@,
                        roots@[k]@,
                    ),
                forall|k: int, l: int|
                    0 <= k < i && 0 <= l < self.packages.entries@[k].1.deps.entries@.len()
                        ==> made_canonical(
                        file_provider,
                        (#[trigger] self.packages.entries@[k].1.deps.entries@[l]).1@,
                        dirs@[k]@[l]@,
                    ),
            decreases self.packages.entries@.len() - i,
        {
            let e = &self.packages.entries[i];
            roots.push(canonical_or_same(file_provider, e.0.path.as_str()));
            let mut deps: Vec<String> = Vec::new();
            let mut j: usize = 0;
            while j < e.1.deps.entries.len()
                invariant
                    j <= e.1.deps.entries@.len(),
                    deps@.len() == j,
                    forall|l: int|
                        0 <= l < j ==> made_canonical(
                            file_provider,
                            (#[trigger] e.1.deps.entries@[l]).1@,
                            deps@[l]@,
                        ),
                decreases e.1.deps.entries@.len() - j,
            {
                deps.push(canonical_or_same(file_provider, e.1.deps.entries[j].1.as_str()));
                j += 1;
            }
            dirs.push(deps);
            i += 1;
        }
        self.set_directories(&roots, &dirs);
    }
}

// ---------------------------------------------------------------------------------------------
// Scopes

/// What a loaded module depends on beside its file: the package that it belongs to and that
/// package's dependencies.
pub struct PackageScopeKey {
    pub package_identity: String,
    pub deps: Vec<(String, String)>,
}

/// Whether two lists hold the same dependencies at the same paths.
pub open spec fn same_deps(a: Seq<(String, String)>, b: Seq<(String, String)>) -> bool {
    a.len() == b.len() && forall|i: int|
        0 <= i < a.len() ==> (#[trigger] a[i]).0@ == b[i].0@ && same_path(a[i].1@, b[i].1@)
}

/// Whether two keys are the same.
pub open spec fn same_scope(a: PackageScopeKey, b: PackageScopeKey) -> bool {
    a.package_identity@ == b.package_identity@ && same_deps(a.deps@, b.deps@)
}

impl PackageScopeKey {
    /// The key of a package.
    pub fn frozen(package: &FrozenPackage) -> (r: PackageScopeKey)
        ensures
            r.package_identity@ == identity_text(package.identity@),
            text_entries(r.deps@) == text_entries(package.deps.entries@),
    {
        PackageScopeKey {
            package_identity: package.identity.display(),
            deps: copy_text_map(&package.deps).entries,
        }
    }

    /// Whether two keys are the same.
    pub fn equals(&self, other: &PackageScopeKey) -> (r: bool)
        ensures
            r == same_scope(*self, *other),
    {
        if !same(self.package_identity.as_str(), other.package_identity.as_str())
            || self.deps.len() != other.deps.len() {
            return false;
        }
        let mut i: usize = 0;
        while i < self.deps.len()
            invariant
                i <= self.deps@.len(),
                self.deps@.len() == other.deps@.len(),
                forall|k: int|
                    0 <= k < i ==> (#[trigger] self.deps@[k]).0@ == other.deps@[k].0@ && same_path(
                        self.deps@[k].1@,
                        other.deps@[k].1@,
                    ),
            decreases self.deps@.len() - i,
        {
            if !same(self.deps[i].0.as_str(), other.deps[i].0.as_str()) || !path_eq(
                self.deps[i].1.as_str(),
                other.deps[i].1.as_str(),
            ) {
                return false;
            }
            i += 1;
        }
        true
    }
}

/// A module can be shared between root packages just where the package that it belongs to has the
/// same identity and the same dependencies in both.
pub proof fn law_scope_is_package_local(a: PackageScopeKey, b: PackageScopeKey, p: FrozenPackage, q: FrozenPackage)
    requires
        a.package_identity@ == identity_text(p.identity@),
        b.package_identity@ == identity_text(q.identity@),
        text_entries(a.deps@) == text_entries(p.deps.entries@),
        text_entries(b.deps@) == text_entries(q.deps.entries@),
    ensures
        same_scope(a, b) <==> identity_text(p.identity@) == identity_text(q.identity@) && same_deps(
            p.deps.entries@,
            q.deps.entries@,
        ),
{
    let (s, t, u, v) = (a.deps@, p.deps.entries@, b.deps@, q.deps.entries@);
    assert(text_entries(s).len() == s.len() && text_entries(t).len() == t.len());
    assert(text_entries(u).len() == u.len() && text_entries(v).len() == v.len());
    assert forall|i: int| 0 <= i < s.len() implies (#[trigger] s[i]).0@ == t[i].0@ && s[i].1@
        == t[i].1@ by {
        assert(text_entries(s)[i] == text_entries(t)[i]);
    }
    assert forall|i: int| 0 <= i < u.len() implies (#[trigger] u[i]).0@ == v[i].0@ && u[i].1@
        == v[i].1@ by {
        assert(text_entries(u)[i] == text_entries(v)[i]);
    }
    if same_deps(s, u) {
        assert forall|i: int| 0 <= i < t.len() implies (#[trigger] t[i]).0@ == v[i].0@ && same_path(
            t[i].1@,
            v[i].1@,
        ) by {
            assert(s[i].0@ == u[i].0@);
        }
    }
    if same_deps(t, v) {
        assert forall|i: int| 0 <= i < s.len() implies (#[trigger] s[i]).0@ == u[i].0@ && same_path(
            s[i].1@,
            u[i].1@,
        ) by {
            assert(t[i].0@ == v[i].0@);
        }
    }
}

/// What a package URL stands for within a package.
pub enum PackageUrlResolution<'a> {
    OwnPackage,
    Dependency { dep_url: &'a str, root: &'a str },
}

/// The package that a file belongs to, with its dependencies.
pub struct ResolvedPackageScope<'a> {
    pub root: &'a str,
    pub package: &'a FrozenPackage,
}

/// The first URL whose last segment is an alias.
pub open spec fn aliased(keys: Seq<Seq<char>>, alias: Seq<char>) -> Option<Seq<char>>
    decreases keys.len(),
{
    if keys.len() == 0 {
        None
    } else if after_last(keys[0], '/') == alias {
        Some(keys[0])
    } else {
        aliased(keys.skip(1), alias)
    }
}

impl<'a> ResolvedPackageScope<'a> {
    /// The scope of a package.
    pub fn frozen(root: &'a str, package: &'a FrozenPackage) -> (r: ResolvedPackageScope<'a>)
        ensures
            r.root@ == root@,
            *r.package == *package,
    {
        ResolvedPackageScope { root, package }
    }

    /// The package's root directory.
    pub fn root(&self) -> (r: &'a str)
        ensures
            r@ == self.root@,
    {
        self.root
    }

    /// The package's URL.
    pub fn package_url(&self) -> (r: Option<&'a str>)
        ensures
            opt_str(r) == Some(identity_url(self.package.identity@)),
    {
        self.package.identity.package_url()
    }

    /// The text that shows the package.
    pub fn display(&self) -> (r: String)
        ensures
            r@ == identity_text(self.package.identity@),
    {
        self.package.identity.display()
    }

    /// What a module loaded from the package depends on.
    pub fn load_cache_key(&self) -> (r: PackageScopeKey)
        ensures
            r.package_identity@ == identity_text(self.package.identity@),
            text_entries(r.deps@) == text_entries(self.package.deps.entries@),
    {
        PackageScopeKey::frozen(self.package)
    }

    /// The dependency that an alias stands for: the first whose URL ends with it.
    pub fn expand_alias(&self, alias: &str) -> (r: Option<&'a str>)
        ensures
            opt_str(r) == aliased(keys_of(self.package.deps.entries@), alias@),
    {
        let s = &self.package.deps.entries;
        let ghost keys = keys_of(s@);
        let mut i: usize = 0;
        proof {
            assert(keys.skip(0) =~= keys);
        }
        while i < s.len()
            invariant
                i <= s@.len(),
                s@ == self.package.deps.entries@,
                keys == keys_of(s@),
                aliased(keys.skip(i as int), alias@) == aliased(keys, alias@),
            decreases s@.len() - i,
        {
            proof {
                assert(keys.skip(i as int)[0] == s@[i as int].0@);
                assert(keys.skip(i as int).skip(1) =~= keys.skip(i + 1));
            }
            let last = last_segment(s[i].0.as_str(), '/');
            if same(last.as_str(), alias) {
                return Some(s[i].0.as_str());
            }
            i += 1;
        }
        None
    }

    /// What a package URL stands for: the package itself, or the dependency whose URL covers it
    /// best. A dependency nested in the package counts before the package.
    pub fn resolve_package_url(&self, full_url: &str) -> (r: Option<PackageUrlResolution<'a>>)
        requires
            self.package.deps.wf(),
        ensures
            ({
                let own = identity_url(self.package.identity@);
                let keys = keys_of(self.package.deps.entries@);
                match r {
                    Some(PackageUrlResolution::OwnPackage) => covers(own, full_url@) && forall|
                        i: int,
                    |
                        0 <= i < keys.len() && covers(#[trigger] keys[i], full_url@)
                            ==> keys[i].len() <= own.len(),
                    Some(PackageUrlResolution::Dependency { dep_url, root }) => is_longest_cover(
                        keys,
                        full_url@,
                        Some(dep_url@),
                    ) && opt_text(find(self.package.deps.entries@, dep_url@)) == Some(root@) && (
                    covers(own, full_url@) ==> dep_url@.len() > own.len()),
                    None => !covers(own, full_url@) && is_longest_cover(keys, full_url@, None),
                }
            }),
    {
        let own: &str = match self.package.identity.package_url() {
            Some(url) => url,
            None => "",
        };
        let is_own = package_url_covers(own, full_url);
        let s = &self.package.deps.entries;
        let ghost keys = keys_of(s@);
        let mut best: Option<usize> = None;
        let mut i: usize = 0;
        while i < s.len()
            invariant
                i <= s@.len(),
                keys == keys_of(s@),
                match best {
                    Some(b) => b < i && covers(keys[b as int], full_url@) && forall|k: int|
                        0 <= k < i && covers(#[trigger] keys[k], full_url@) ==> keys[k].len()
                            <= keys[b as int].len(),
                    None => forall|k: int| 0 <= k < i ==> !covers(#[trigger] keys[k], full_url@),
                },
            decreases s@.len() - i,
        {
            proof {
                assert(keys[i as int] == s@[i as int].0@);
            }
            if package_url_covers(s[i].0.as_str(), full_url) {
                match best {
                    Some(b) => {
                        proof {
                            assert(keys[b as int] == s@[b as int].0@);
                        }
                        if s[i].0.as_str().unicode_len() >= s[b].0.as_str().unicode_len() {
                            best = Some(i);
                        }
                    },
                    None => {
                        best = Some(i);
                    },
                }
            }
            i += 1;
        }
        match best {
            Some(b) => {
                proof {
                    assert(keys[b as int] == s@[b as int].0@);
                    assert(keys.contains(keys[b as int]));
                    lemma_slot_at(s@, b as int);
                }
                if is_own && s[b].0.as_str().unicode_len() <= own.unicode_len() {
                    Some(PackageUrlResolution::OwnPackage)
                } else {
                    Some(
                        PackageUrlResolution::Dependency {
                            dep_url: s[b].0.as_str(),
                            root: s[b].1.as_str(),
                        },
                    )
                }
            },
            None => if is_own {
                Some(PackageUrlResolution::OwnPackage)
            } else {
                None
            },
        }
    }
}

// ---------------------------------------------------------------------------------------------
// Where packages stand

/// The coordinate of a dependency: its URL and the version that its root directory is named after,
/// where the root's parent is the directory of the URL.
pub open spec fn coordinate_of(url: Seq<char>, root: Seq<char>) -> Option<Seq<char>> {
    match (file_name_of(root), parent_of(root)) {
        (Some(version), Some(dir)) => if ends_with_path(dir, url) {
            Some(url + "@"@ + version)
        } else {
            None
        },
        _ => None,
    }
}

/// The coordinate of a dependency.
fn dependency_coordinate(url: &str, root: &str) -> (r: Option<String>)
    ensures
        opt_text(r) == coordinate_of(url@, root@),
{
    match (file_name(root), parent(root)) {
        (Some(version), Some(dir)) => {
            if path_ends_with(dir.as_str(), url) {
                let mut out = url.to_owned();
                out.append("@");
                out.append(version.as_str());
                Some(out)
            } else {
                None
            }
        },
        _ => None,
    }
}

/// The root of the first dependency with a coordinate.
pub open spec fn first_root(s: Seq<(String, String)>, q: Seq<char>) -> Option<Seq<char>>
    decreases s.len(),
{
    if s.len() == 0 {
        None
    } else {
        match first_root(s.drop_last(), q) {
            Some(root) => Some(root),
            None => if coordinate_of(s.last().0@, s.last().1@) == Some(q) {
                Some(s.last().1@)
            } else {
                None
            },
        }
    }
}

/// The root of the first dependency with a coordinate among some packages.
pub open spec fn first_root_in(s: Seq<(PathKey, FrozenPackage)>, q: Seq<char>) -> Option<Seq<char>>
    decreases s.len(),
{
    if s.len() == 0 {
        None
    } else {
        match first_root_in(s.drop_last(), q) {
            Some(root) => Some(root),
            None => first_root(s.last().1.deps.entries@, q),
        }
    }
}

/// The root of the first dependency with a coordinate among some resolutions.
pub open spec fn dependency_root(s: Seq<(String, FrozenResolutionMap)>, q: Seq<char>) -> Option<
    Seq<char>,
>
    decreases s.len(),
{
    if s.len() == 0 {
        None
    } else {
        match dependency_root(s.drop_last(), q) {
            Some(root) => Some(root),
            None => first_root_in(s.last().1.packages.entries@, q),
        }
    }
}

/// Whether a package stands at the workspace root.
pub open spec fn has_root_package(ws: &WorkspaceInfo) -> bool {
    exists|i: int|
        0 <= i < ws.packages.entries@.len() && (#[trigger] ws.packages.entries@[i]).1.rel_path@.len()
            == 0
}

/// The root that the workspace itself has for a coordinate.
pub open spec fn workspace_root_of(ws: &WorkspaceInfo, q: Seq<char>) -> Option<Seq<char>> {
    if !has_root_package(ws) && q == LOCAL_WORKSPACE_ROOT_URL@ {
        Some(ws.root@)
    } else {
        match find(ws.packages.entries@, q) {
            Some(p) => Some(p.dir_of(ws.root@)),
            None => if q == STDLIB_MODULE_PATH@ {
                Some(ws.stdlib_dir_of())
            } else {
                None
            },
        }
    }
}

/// The root of a coordinate.
pub open spec fn package_root_of(
    ws: &WorkspaceInfo,
    resolution: Seq<(String, FrozenResolutionMap)>,
    q: Seq<char>,
) -> Option<Seq<char>> {
    match workspace_root_of(ws, q) {
        Some(root) => Some(root),
        None => dependency_root(resolution, q),
    }
}

/// Adds the roots of a package's dependencies, keeping those that are known.
fn add_dependency_roots(roots: &mut SortedMap<String, String>, deps: &SortedMap<String, String>)
    requires
        old(roots).wf(),
    ensures
        final(roots).wf(),
        forall|q: Seq<char>|
            opt_text(#[trigger] find(final(roots).entries@, q)) == (match opt_text(
                find(old(roots).entries@, q),
            ) {
                Some(root) => Some(root),
                None => first_root(deps.entries@, q),
            }),
{
    let s = &deps.entries;
    let mut i: usize = 0;
    proof {
        assert(s@.take(0) =~= Seq::<(String, String)>::empty());
    }
    while i < s.len()
        invariant
            i <= s@.len(),
            roots.wf(),
            forall|q: Seq<char>|
                opt_text(#[trigger] find(roots.entries@, q)) == (match opt_text(
                    find(old(roots).entries@, q),
                ) {
                    Some(root) => Some(root),
                    None => first_root(s@.take(i as int), q),
                }),
        decreases s@.len() - i,
    {
        let ghost before = roots.entries@;
        proof {
            assert(s@.take(i + 1).drop_last() =~= s@.take(i as int));
            assert(s@.take(i + 1).last() == s@[i as int]);
        }
        let coord = dependency_coordinate(s[i].0.as_str(), s[i].1.as_str());
        if let Some(coord) = coord {
            if !roots.contains_key(&coord) {
                roots.insert(coord, s[i].1.clone());
            }
        }
        proof {
            assert forall|q: Seq<char>|
                opt_text(#[trigger] find(roots.entries@, q)) == (match opt_text(
                    find(old(roots).entries@, q),
                ) {
                    Some(root) => Some(root),
                    None => first_root(s@.take(i + 1), q),
                }) by {
                assert(opt_text(find(before, q)) == (match opt_text(find(old(roots).entries@, q)) {
                    Some(root) => Some(root),
                    None => first_root(s@.take(i as int), q),
                }));
            }
        }
        i += 1;
    }
    proof {
        assert(s@.take(s@.len() as int) =~= s@);
    }
}

/// The root of the first dependency with a coordinate among some tables of dependencies.
pub open spec fn first_root_over(maps: Seq<&SortedMap<String, String>>, q: Seq<char>) -> Option<
    Seq<char>,
>
    decreases maps.len(),
{
    if maps.len() == 0 {
        None
    } else {
        match first_root_over(maps.drop_last(), q) {
            Some(root) => Some(root),
            None => first_root(maps.last().entries@, q),
        }
    }
}

/// The tables of dependencies of all packages of some resolutions, in order.
pub fn frozen_dependency_maps(resolution: &FrozenResolutionSet) -> (r: Vec<
    &SortedMap<String, String>,
>)
    ensures
        forall|q: Seq<char>| #[trigger]
            first_root_over(r@, q) == dependency_root(resolution.entries@, q),
{
    let t = &resolution.entries;
    let mut out: Vec<&SortedMap<String, String>> = Vec::new();
    let mut j: usize = 0;
    proof {
        assert(t@.take(0) =~= Seq::<(String, FrozenResolutionMap)>::empty());
    }
    while j < t.len()
        invariant
            j <= t@.len(),
            forall|q: Seq<char>| #[trigger]
                first_root_over(out@, q) == dependency_root(t@.take(j as int), q),
        decreases t@.len() - j,
    {
        proof {
            assert(t@.take(j + 1).drop_last() =~= t@.take(j as int));
            assert(t@.take(j + 1).last() == t@[j as int]);
        }
        let s = &t[j].1.packages.entries;
        let mut i: usize = 0;
        proof {
            assert(s@.take(0) =~= Seq::<(PathKey, FrozenPackage)>::empty());
        }
        while i < s.len()
            invariant
                i <= s@.len(),
                j < t@.len(),
                s@ == t@[j as int].1.packages.entries@,
                forall|q: Seq<char>| #[trigger]
                    first_root_over(out@, q) == (match dependency_root(t@.take(j as int), q) {
                        Some(root) => Some(root),
                        None => first_root_in(s@.take(i as int), q),
                    }),
            decreases s@.len() - i,
        {
            let ghost before = out@;
            out.push(&s[i].1.deps);
            proof {
                assert(s@.take(i + 1).drop_last() =~= s@.take(i as int));
                assert(s@.take(i + 1).last() == s@[i as int]);
                assert(out@.drop_last() =~= before);
                assert forall|q: Seq<char>| #[trigger]
                    first_root_over(out@, q) == (match dependency_root(t@.take(j as int), q) {
                        Some(root) => Some(root),
                        None => first_root_in(s@.take(i + 1), q),
                    }) by {
                    assert(first_root_over(before, q) == (match dependency_root(
                        t@.take(j as int),
                        q,
                    ) {
                        Some(root) => Some(root),
                        None => first_root_in(s@.take(i as int), q),
                    }));
                }
            }
            i += 1;
        }
        proof {
            assert(s@.take(s@.len() as int) =~= s@);
        }
        j += 1;
    }
    proof {
        assert(t@.take(t@.len() as int) =~= t@);
    }
    out
}

/// The roots of the packages by coordinate: those of the workspace by URL, the others by URL and
/// version. The others are those of the tables of dependencies.
pub fn build_package_roots(
    workspace_info: &WorkspaceInfo,
    dependency_maps: &Vec<&SortedMap<String, String>>,
) -> (r: SortedMap<String, String>)
    requires
        workspace_info.wf(),
    ensures
        r.wf(),
        forall|q: Seq<char>|
            opt_text(#[trigger] find(r.entries@, q)) == (match workspace_root_of(
                workspace_info,
                q,
            ) {
                Some(root) => Some(root),
                None => first_root_over(dependency_maps@, q),
            }),
{
    let mut roots: SortedMap<String, String> = SortedMap::new();
    roots.insert(STDLIB_MODULE_PATH.to_owned(), workspace_info.workspace_stdlib_dir());
    let s = &workspace_info.packages.entries;
    let ghost stdlib = workspace_info.stdlib_dir_of();
    let mut has_root: bool = false;
    let mut i: usize = 0;
    while i < s.len()
        invariant
            i <= s@.len(),
            s@ == workspace_info.packages.entries@,
            in_order(s@),
            roots.wf(),
            has_root == (exists|k: int| 0 <= k < i && (#[trigger] s@[k]).1.rel_path@.len() == 0),
            forall|q: Seq<char>|
                opt_text(#[trigger] find(roots.entries@, q)) == (if slot(s@, q) < i {
                    Some(s@[slot(s@, q)].1.dir_of(workspace_info.root@))
                } else if q == STDLIB_MODULE_PATH@ {
                    Some(stdlib)
                } else {
                    None
                }) || slot(s@, q) < 0,
        decreases s@.len() - i,
    {
        let ghost before = roots.entries@;
        let p = &s[i].1;
        if p.rel_path.as_str().unicode_len() == 0 {
            has_root = true;
            proof {
                assert(s@[i as int].1.rel_path@.len() == 0);
            }
        }
        roots.insert(s[i].0.clone(), p.dir(workspace_info.root.as_str()));
        proof {
            lemma_slot_at(s@, i as int);
            assert forall|q: Seq<char>|
                opt_text(#[trigger] find(roots.entries@, q)) == (if slot(s@, q) < i + 1 {
                    Some(s@[slot(s@, q)].1.dir_of(workspace_info.root@))
                } else if q == STDLIB_MODULE_PATH@ {
                    Some(stdlib)
                } else {
                    None
                }) || slot(s@, q) < 0 by {
                lemma_slot(s@, q);
                if q != s@[i as int].0@ {
                    assert(find(roots.entries@, q) == find(before, q));
                    assert(slot(s@, q) != i);
                }
            }
        }
        i += 1;
    }
    let ghost before = roots.entries@;
    if !has_root {
        roots.insert(LOCAL_WORKSPACE_ROOT_URL.to_owned(), workspace_info.root.clone());
    }
    proof {
        assert(has_root == has_root_package(workspace_info));
        assert forall|q: Seq<char>|
            opt_text(#[trigger] find(roots.entries@, q)) == workspace_root_of(
                workspace_info,
                q,
            ) by {
            lemma_slot(s@, q);
            assert(opt_text(find(before, q)) == (if slot(s@, q) < s@.len() {
                Some(s@[slot(s@, q)].1.dir_of(workspace_info.root@))
            } else if q == STDLIB_MODULE_PATH@ {
                Some(stdlib)
            } else {
                None
            }));
        }
    }
    let ghost t = dependency_maps@;
    let mut j: usize = 0;
    proof {
        assert(t.take(0) =~= Seq::<&SortedMap<String, String>>::empty());
    }
    while j < dependency_maps.len()
        invariant
            j <= dependency_maps@.len(),
            t == dependency_maps@,
            roots.wf(),
            forall|q: Seq<char>|
                opt_text(#[trigger] find(roots.entries@, q)) == (match workspace_root_of(
                    workspace_info,
                    q,
                ) {
                    Some(root) => Some(root),
                    None => first_root_over(t.take(j as int), q),
                }),
        decreases dependency_maps@.len() - j,
    {
        let ghost before = roots.entries@;
        proof {
            assert(t.take(j + 1).drop_last() =~= t.take(j as int));
            assert(t.take(j + 1).last() == t[j as int]);
        }
        add_dependency_roots(&mut roots, dependency_maps[j]);
        proof {
            assert forall|q: Seq<char>|
                opt_text(#[trigger] find(roots.entries@, q)) == (match workspace_root_of(
                    workspace_info,
                    q,
                ) {
                    Some(root) => Some(root),
                    None => first_root_over(t.take(j + 1), q),
                }) by {
                assert(opt_text(find(before, q)) == (match workspace_root_of(workspace_info, q) {
                    Some(root) => Some(root),
                    None => first_root_over(t.take(j as int), q),
                }));
            }
        }
        j += 1;
    }
    proof {
        assert(t.take(t.len() as int) =~= t);
    }
    roots
}

/// The workspace-local place of a path in the global package cache; other paths stay.
pub open spec fn cached_at(ws: &WorkspaceInfo, path: Seq<char>) -> Seq<char> {
    if ws.cache_dir@.len() == 0 {
        path
    } else {
        match relative_to(path, ws.cache_dir@) {
            Some(rel) => path_joined(path_joined(ws.root@, ".pcb/cache"@), rel),
            None => path,
        }
    }
}

/// The workspace-local place of a path in the global package cache; other paths stay.
pub fn workspace_cache_path(workspace_info: &WorkspaceInfo, path: &str) -> (r: String)
    ensures
        r@ == cached_at(workspace_info, path@),
{
    if workspace_info.cache_dir.as_str().unicode_len() == 0 {
        return path.to_owned();
    }
    match strip_base(path, workspace_info.cache_dir.as_str()) {
        Some(rel) => path_join(workspace_info.workspace_cache_dir().as_str(), rel.as_str()),
        None => path.to_owned(),
    }
}

/// The last coordinate whose root is a path.
pub open spec fn last_coordinate(s: Seq<(String, String)>, q: Seq<Seq<char>>) -> Option<Seq<char>>
    decreases s.len(),
{
    if s.len() == 0 {
        None
    } else if components(s.last().1@) == q {
        Some(s.last().0@)
    } else {
        last_coordinate(s.drop_last(), q)
    }
}

/// The last package URL whose directory, relative to the workspace root, is a path.
pub open spec fn last_url_at(s: Seq<(String, WorkspacePackage)>, q: Seq<Seq<char>>) -> Option<
    Seq<char>,
>
    decreases s.len(),
{
    if s.len() == 0 {
        None
    } else if components(s.last().1.rel_path@) == q {
        Some(s.last().0@)
    } else {
        last_url_at(s.drop_last(), q)
    }
}

/// Whether a root package stands at a path in its own resolution.
pub open spec fn stands_at(url: Seq<char>, m: FrozenResolutionMap, q: Seq<Seq<char>>) -> bool {
    match find(m.packages.entries@, q) {
        Some(p) => p.identity@ == IdentityView::Workspace(url),
        None => false,
    }
}

/// The last root package that stands at a path in its own resolution.
pub open spec fn last_own_root(s: Seq<(String, FrozenResolutionMap)>, q: Seq<Seq<char>>) -> Option<
    Seq<char>,
>
    decreases s.len(),
{
    if s.len() == 0 {
        None
    } else if stands_at(s.last().0@, s.last().1, q) {
        Some(s.last().0@)
    } else {
        last_own_root(s.drop_last(), q)
    }
}

/// Tables made from a workspace and its resolutions, so that the owner of a path is found from the
/// path's ancestors.
pub struct PackageIndexes {
    /// The roots of the packages by coordinate.
    pub package_roots: SortedMap<String, String>,
    /// The same, with the workspace-local cache in the place of the global one.
    pub workspace_package_roots: SortedMap<String, String>,
    /// The coordinates by those roots.
    pub root_coords: SortedMap<PathKey, String>,
    /// The root packages by their directory in their own resolution.
    pub own_roots: SortedMap<PathKey, String>,
    /// The packages of the workspace by their directory, relative to the workspace root.
    pub rel_dirs: SortedMap<PathKey, String>,
}

/// Whether the tables are those of a workspace and its resolutions.
pub open spec fn indexes_of(
    ix: PackageIndexes,
    ws: &WorkspaceInfo,
    resolution: Seq<(String, FrozenResolutionMap)>,
) -> bool {
    &&& ix.package_roots.wf()
    &&& ix.workspace_package_roots.wf()
    &&& ix.root_coords.wf()
    &&& ix.own_roots.wf()
    &&& ix.rel_dirs.wf()
    &&& forall|q: Seq<char>|
        opt_text(#[trigger] find(ix.package_roots.entries@, q)) == package_root_of(ws, resolution, q)
    &&& forall|q: Seq<char>|
        opt_text(#[trigger] find(ix.workspace_package_roots.entries@, q)) == (match package_root_of(
            ws,
            resolution,
            q,
        ) {
            Some(root) => Some(cached_at(ws, root)),
            None => None,
        })
    &&& forall|q: Seq<Seq<char>>|
        opt_text(#[trigger] find(ix.root_coords.entries@, q)) == last_coordinate(
            ix.workspace_package_roots.entries@,
            q,
        )
    &&& forall|q: Seq<Seq<char>>|
        opt_text(#[trigger] find(ix.own_roots.entries@, q)) == last_own_root(resolution, q)
    &&& forall|q: Seq<Seq<char>>|
        opt_text(#[trigger] find(ix.rel_dirs.entries@, q)) == last_url_at(ws.packages.entries@, q)
}

/// The roots with the workspace-local cache in the place of the global one.
fn localized_roots(ws: &WorkspaceInfo, roots: &SortedMap<String, String>) -> (r: SortedMap<
    String,
    String,
>)
    requires
        roots.wf(),
    ensures
        r.wf(),
        forall|q: Seq<char>|
            opt_text(#[trigger] find(r.entries@, q)) == (match opt_text(find(roots.entries@, q)) {
                Some(root) => Some(cached_at(ws, root)),
                None => None,
            }),
{
    let mut entries: Vec<(String, String)> = Vec::new();
    let mut i: usize = 0;
    while i < roots.entries.len()
        invariant
            i <= roots.entries@.len(),
            entries@.len() == i,
            forall|k: int|
                0 <= k < i ==> (#[trigger] entries@[k]).0@ == roots.entries@[k].0@ && entries@[k].1@
                    == cached_at(ws, roots.entries@[k].1@),
        decreases roots.entries@.len() - i,
    {
        let root = workspace_cache_path(ws, roots.entries[i].1.as_str());
        entries.push((roots.entries[i].0.clone(), root));
        i += 1;
    }
    let r = SortedMap { entries };
    proof {
        let s = roots.entries@;
        let t = r.entries@;
        assert(keys_of(s) =~= keys_of(t));
        lemma_same_order(s, t);
        assert forall|q: Seq<char>|
            opt_text(#[trigger] find(t, q)) == (match opt_text(find(s, q)) {
                Some(root) => Some(cached_at(ws, root)),
                None => None,
            }) by {
            lemma_same_slot(s, t, q);
            lemma_slot(s, q);
        }
    }
    r
}

/// The coordinates by root; of two with the same root the later counts.
fn coordinates_by_root(roots: &SortedMap<String, String>) -> (r: SortedMap<PathKey, String>)
    ensures
        r.wf(),
        forall|q: Seq<Seq<char>>|
            opt_text(#[trigger] find(r.entries@, q)) == last_coordinate(roots.entries@, q),
{
    let s = &roots.entries;
    let mut out: SortedMap<PathKey, String> = SortedMap::new();
    let mut i: usize = 0;
    proof {
        assert(s@.take(0) =~= Seq::<(String, String)>::empty());
    }
    while i < s.len()
        invariant
            i <= s@.len(),
            out.wf(),
            forall|q: Seq<Seq<char>>|
                opt_text(#[trigger] find(out.entries@, q)) == last_coordinate(s@.take(i as int), q),
        decreases s@.len() - i,
    {
        let ghost before = out.entries@;
        proof {
            assert(s@.take(i + 1).drop_last() =~= s@.take(i as int));
            assert(s@.take(i + 1).last() == s@[i as int]);
        }
        out.insert(PathKey { path: s[i].1.clone() }, s[i].0.clone());
        proof {
            assert forall|q: Seq<Seq<char>>|
                opt_text(#[trigger] find(out.entries@, q)) == last_coordinate(
                    s@.take(i + 1),
                    q,
                ) by {
                assert(opt_text(find(before, q)) == last_coordinate(s@.take(i as int), q));
            }
        }
        i += 1;
    }
    proof {
        assert(s@.take(s@.len() as int) =~= s@);
    }
    out
}

/// The packages of the workspace by directory; of two with the same directory the later counts.
fn urls_by_directory(packages: &SortedMap<String, WorkspacePackage>) -> (r: SortedMap<
    PathKey,
    String,
>)
    ensures
        r.wf(),
        forall|q: Seq<Seq<char>>|
            opt_text(#[trigger] find(r.entries@, q)) == last_url_at(packages.entries@, q),
{
    let s = &packages.entries;
    let mut out: SortedMap<PathKey, String> = SortedMap::new();
    let mut i: usize = 0;
    proof {
        assert(s@.take(0) =~= Seq::<(String, WorkspacePackage)>::empty());
    }
    while i < s.len()
        invariant
            i <= s@.len(),
            out.wf(),
            forall|q: Seq<Seq<char>>|
                opt_text(#[trigger] find(out.entries@, q)) == last_url_at(s@.take(i as int), q),
        decreases s@.len() - i,
    {
        let ghost before = out.entries@;
        proof {
            assert(s@.take(i + 1).drop_last() =~= s@.take(i as int));
            assert(s@.take(i + 1).last() == s@[i as int]);
        }
        out.insert(PathKey { path: s[i].1.rel_path.clone() }, s[i].0.clone());
        proof {
            assert forall|q: Seq<Seq<char>>|
                opt_text(#[trigger] find(out.entries@, q)) == last_url_at(s@.take(i + 1), q) by {
                assert(opt_text(find(before, q)) == last_url_at(s@.take(i as int), q));
            }
        }
        i += 1;
    }
    proof {
        assert(s@.take(s@.len() as int) =~= s@);
    }
    out
}

/// Adds the directories at which a root package stands in its own resolution.
fn add_own_roots(out: &mut SortedMap<PathKey, String>, url: &str, m: &FrozenResolutionMap)
    requires
        old(out).wf(),
        m.packages.wf(),
    ensures
        final(out).wf(),
        forall|q: Seq<Seq<char>>|
            opt_text(#[trigger] find(final(out).entries@, q)) == (if stands_at(url@, *m, q) {
                Some(url@)
            } else {
                opt_text(find(old(out).entries@, q))
            }),
{
    let s = &m.packages.entries;
    let mut i: usize = 0;
    while i < s.len()
        invariant
            i <= s@.len(),
            s@ == m.packages.entries@,
            in_order(s@),
            out.wf(),
            forall|q: Seq<Seq<char>>|
                opt_text(#[trigger] find(out.entries@, q)) == (if 0 <= slot(s@, q) < i && stands_at(
                    url@,
                    *m,
                    q,
                ) {
                    Some(url@)
                } else {
                    opt_text(find(old(out).entries@, q))
                }),
        decreases s@.len() - i,
    {
        let ghost before = out.entries@;
        proof {
            lemma_slot_at(s@, i as int);
        }
        if s[i].1.identity.is_workspace_package(url) {
            out.insert(PathKey { path: s[i].0.path.clone() }, url.to_owned());
        }
        proof {
            assert forall|q: Seq<Seq<char>>|
                opt_text(#[trigger] find(out.entries@, q)) == (if 0 <= slot(s@, q) < i + 1 && stands_at(
                    url@,
                    *m,
                    q,
                ) {
                    Some(url@)
                } else {
                    opt_text(find(old(out).entries@, q))
                }) by {
                lemma_slot(s@, q);
                assert(opt_text(find(before, q)) == (if 0 <= slot(s@, q) < i && stands_at(url@, *m, q) {
                    Some(url@)
                } else {
                    opt_text(find(old(out).entries@, q))
                }));
            }
        }
        i += 1;
    }
    proof {
        assert forall|q: Seq<Seq<char>>|
            opt_text(#[trigger] find(out.entries@, q)) == (if stands_at(url@, *m, q) {
                Some(url@)
            } else {
                opt_text(find(old(out).entries@, q))
            }) by {
            lemma_slot(s@, q);
        }
    }
}

/// Whether the tables of every resolution stand in order.
pub open spec fn maps_in_order(s: Seq<(String, FrozenResolutionMap)>) -> bool {
    forall|i: int| 0 <= i < s.len() ==> (#[trigger] s[i]).1.wf()
}

impl PackageIndexes {
    /// The tables of a workspace and its resolutions.
    pub fn new(workspace_info: &WorkspaceInfo, resolution: &FrozenResolutionSet) -> (r:
        PackageIndexes)
        requires
            workspace_info.wf(),
            maps_in_order(resolution.entries@),
        ensures
            indexes_of(r, workspace_info, resolution.entries@),
    {
        let dependency_maps = frozen_dependency_maps(resolution);
        let package_roots = build_package_roots(workspace_info, &dependency_maps);
        proof {
            assert forall|q: Seq<char>|
                opt_text(#[trigger] find(package_roots.entries@, q)) == package_root_of(
                    workspace_info,
                    resolution.entries@,
                    q,
                ) by {
                assert(first_root_over(dependency_maps@, q) == dependency_root(
                    resolution.entries@,
                    q,
                ));
            }
        }
        let workspace_package_roots = localized_roots(workspace_info, &package_roots);
        let root_coords = coordinates_by_root(&workspace_package_roots);
        let rel_dirs = urls_by_directory(&workspace_info.packages);
        let s = &resolution.entries;
        let mut own_roots: SortedMap<PathKey, String> = SortedMap::new();
        let mut i: usize = 0;
        proof {
            assert(s@.take(0) =~= Seq::<(String, FrozenResolutionMap)>::empty());
        }
        while i < s.len()
            invariant
                i <= s@.len(),
                maps_in_order(s@),
                own_roots.wf(),
                forall|q: Seq<Seq<char>>|
                    opt_text(#[trigger] find(own_roots.entries@, q)) == last_own_root(
                        s@.take(i as int),
                        q,
                    ),
            decreases s@.len() - i,
        {
            let ghost before = own_roots.entries@;
            proof {
                assert(s@.take(i + 1).drop_last() =~= s@.take(i as int));
                assert(s@.take(i + 1).last() == s@[i as int]);
                assert(s@[i as int].1.wf());
            }
            add_own_roots(&mut own_roots, s[i].0.as_str(), &s[i].1);
            proof {
                assert forall|q: Seq<Seq<char>>|
                    opt_text(#[trigger] find(own_roots.entries@, q)) == last_own_root(
                        s@.take(i + 1),
                        q,
                    ) by {
                    assert(opt_text(find(before, q)) == last_own_root(s@.take(i as int), q));
                }
            }
            i += 1;
        }
        proof {
            assert(s@.take(s@.len() as int) =~= s@);
        }
        PackageIndexes { package_roots, workspace_package_roots, root_coords, own_roots, rel_dirs }
    }
}

} // verus!
