//! The result of a dependency resolution, and what it says of files and package references.

use vstd::prelude::*;

use crate::config::ManifestPart;
use crate::discovery::{rel_path_string, slashed};
use crate::frozen::{cached_at, canonical_places, has_root_package, identity_text, identity_url};
use crate::frozen::{indexes_of, last_own_root, last_url_at, law_nearest_is_deepest, maps_in_order};
use crate::frozen::{moved_to, nearest, nearest_entry, package_root_of, stands_at};
use crate::frozen::{workspace_cache_path, FrozenPackage, FrozenResolutionMap, FrozenResolutionSet};
use crate::frozen::{IdentityView, PackageIndexes, PackageScopeKey, ResolvedPackageScope};
use crate::load_spec::PACKAGE_URI_PREFIX;
use crate::map::{copy_text_map, find, in_order, keys_of, lemma_find_elsewhere, lemma_slot};
use crate::map::{lemma_slot_at, slot, text_entries, PathKey, SortedMap};
use crate::path::{ancestors, ancestors_of, components, is_absolute, law_join_appends_components};
use crate::path::{law_joined_components, lemma_components_are_plain, lemma_tail_components_of};
use crate::path::{lies_under, path_eq, path_join, path_joined, path_starts_with, relative_to};
use crate::path::{same_path, strip_base, tail_text};
use crate::resolution::{FrozenDepId, ResolutionError};
use crate::text::{begins, joined, opt_str, opt_text, same, strip_prefix, texts};
use crate::version::{version_text, Version};
use crate::workspace::{covers, is_longest_cover, owner_at, package_url_covers, WorkspaceInfo};
use crate::workspace::{WorkspacePackage, LOCAL_WORKSPACE_ROOT_URL};
use crate::{made_canonical, FileProvider, STDLIB_MODULE_PATH};

verus! {

/// The result of a dependency resolution.
pub struct ResolutionResult {
    pub workspace_info: WorkspaceInfo,
    /// The resolution of each root package.
    pub resolution: FrozenResolutionSet,
    /// The parts that the manifests declare for a symbol library, by package reference.
    pub symbol_parts: SortedMap<String, Vec<ManifestPart>>,
    pub indexes: PackageIndexes,
}

/// The package that a file belongs to in a resolution.
pub open spec fn scope_of(
    s: Seq<(String, FrozenResolutionMap)>,
    file: Seq<char>,
    active: Option<Seq<char>>,
) -> Option<(Seq<Seq<char>>, FrozenPackage)> {
    match active {
        Some(url) => match find(s, url) {
            Some(m) => nearest(m.packages.entries@, file),
            None => None,
        },
        None => None,
    }
}

/// A stable reference to a path within a package.
pub open spec fn package_reference(coord: Seq<char>, rel: Seq<char>) -> Seq<char> {
    if components(rel).len() == 0 {
        PACKAGE_URI_PREFIX@ + coord
    } else {
        PACKAGE_URI_PREFIX@ + coord + "/"@ + slashed(rel)
    }
}

/// A stable reference to a path within a package.
pub fn package_uri(coord: &str, rel: &str) -> (r: String)
    ensures
        r@ == package_reference(coord@, rel@),
{
    let mut out = PACKAGE_URI_PREFIX.to_owned();
    out.append(coord);
    let text = rel_path_string(rel);
    proof {
        crate::path::lemma_spans(rel@);
    }
    if rel.unicode_len() > 0 {
        out.append("/");
        out.append(text.as_str());
    }
    out
}

/// What follows a coordinate in a reference that it covers.
pub open spec fn within(coord: Seq<char>, rest: Seq<char>) -> Seq<char> {
    if rest == coord {
        Seq::<char>::empty()
    } else {
        rest.skip(coord.len() as int + 1)
    }
}

/// The path that a reference stands for, given the coordinate that it is read with.
pub open spec fn referenced_path(
    roots: Seq<(String, String)>,
    coord: Seq<char>,
    rest: Seq<char>,
) -> Option<Seq<char>> {
    match opt_text(find(roots, coord)) {
        Some(root) => Some(
            if rest == coord {
                root
            } else {
                path_joined(root, within(coord, rest))
            },
        ),
        None => None,
    }
}

/// Reads a package reference with a table of roots: the longest coordinate that covers it counts.
pub fn resolve_reference(uri: &str, roots: &SortedMap<String, String>) -> (r: Result<
    String,
    ResolutionError,
>)
    requires
        roots.wf(),
    ensures
        match r {
            Ok(path) => begins(uri@, PACKAGE_URI_PREFIX@) && exists|coord: Seq<char>| #[trigger]
                is_longest_cover(
                    keys_of(roots.entries@),
                    uri@.skip(PACKAGE_URI_PREFIX@.len() as int),
                    Some(coord),
                ) && referenced_path(
                    roots.entries@,
                    coord,
                    uri@.skip(PACKAGE_URI_PREFIX@.len() as int),
                ) == Some(path@),
            Err(e) => e.text() == "Cannot resolve package URI '"@ + uri@ + "'"@ && (!begins(
                uri@,
                PACKAGE_URI_PREFIX@,
            ) || is_longest_cover(
                keys_of(roots.entries@),
                uri@.skip(PACKAGE_URI_PREFIX@.len() as int),
                None,
            )),
        },
{
    let rest: &str = match strip_prefix(uri, PACKAGE_URI_PREFIX) {
        Some(rest) => rest,
        None => return Err(ResolutionError::UnknownReference { uri: uri.to_owned() }),
    };
    let s = &roots.entries;
    let ghost keys = keys_of(s@);
    let mut best: Option<usize> = None;
    let mut i: usize = 0;
    while i < s.len()
        invariant
            i <= s@.len(),
            keys == keys_of(s@),
            match best {
                Some(b) => b < i && covers(keys[b as int], rest@) && forall|k: int|
                    0 <= k < i && covers(#[trigger] keys[k], rest@) ==> keys[k].len()
                        <= keys[b as int].len(),
                None => forall|k: int| 0 <= k < i ==> !covers(#[trigger] keys[k], rest@),
            },
        decreases s@.len() - i,
    {
        proof {
            assert(keys[i as int] == s@[i as int].0@);
        }
        if package_url_covers(s[i].0.as_str(), rest) {
            match best {
                Some(b) => {
                    proof {
                        assert(keys[b as int] == s@[b as int].0@);
                    }
                    if s[i].0.as_str().unicode_len() >= s[b].0.as_str().unicode_len() {
                        best = Some(i);
                    }
                },
                None => {
                    best = Some(i);
                },
            }
        }
        i += 1;
    }
    match best {
        Some(b) => {
            let coord = s[b].0.as_str();
            proof {
                assert(keys[b as int] == s@[b as int].0@);
                assert(keys.contains(keys[b as int]));
                lemma_slot_at(s@, b as int);
                assert(is_longest_cover(keys, rest@, Some(coord@)));
            }
            if same(coord, rest) {
                Ok(s[b].1.clone())
            } else {
                let n: usize = coord.unicode_len();
                let m: usize = rest.unicode_len();
                let tail = rest.substring_char(n + 1, m);
                proof {
                    assert(tail@ =~= within(coord@, rest@));
                }
                Ok(path_join(s[b].1.as_str(), tail))
            }
        },
        None => Err(ResolutionError::UnknownReference { uri: uri.to_owned() }),
    }
}

/// The reference to a path: the deepest root above it gives the coordinate.
pub open spec fn reference_to(
    coords: Seq<(PathKey, String)>,
    path: Seq<char>,
) -> Option<Seq<char>> {
    match nearest(coords, path) {
        Some((dir, coord)) => Some(
            package_reference(coord@, tail_text(path, dir.len() as int)),
        ),
        None => None,
    }
}

/// Whether the root package `url` holds a file: of all packages in its resolution, it is the one
/// that the file belongs to, and its root is `dir`.
pub open spec fn holds_file(
    s: Seq<(String, FrozenResolutionMap)>,
    url: Seq<char>,
    dir: Seq<Seq<char>>,
    file: Seq<char>,
) -> bool {
    match find(s, url) {
        Some(m) => match nearest(m.packages.entries@, file) {
            Some((root, p)) => root == dir && p.identity@ == IdentityView::Workspace(url),
            None => false,
        },
        None => false,
    }
}

/// The root package that stands at a directory and holds a file.
pub open spec fn owner_in(
    s: Seq<(String, FrozenResolutionMap)>,
    dir: Seq<Seq<char>>,
    file: Seq<char>,
) -> Option<Seq<char>> {
    match last_own_root(s, dir) {
        Some(url) => if holds_file(s, url, dir, file) {
            Some(url)
        } else {
            None
        },
        None => None,
    }
}

/// The first directory's root package that holds a file.
pub open spec fn first_owner(
    s: Seq<(String, FrozenResolutionMap)>,
    dirs: Seq<Seq<char>>,
    file: Seq<char>,
) -> Option<Seq<char>>
    decreases dirs.len(),
{
    if dirs.len() == 0 {
        None
    } else {
        match owner_in(s, components(dirs[0]), file) {
            Some(url) => Some(url),
            None => first_owner(s, dirs.skip(1), file),
        }
    }
}

/// Whether some root package of a list stands at a directory in its own resolution.
proof fn lemma_own_root(s: Seq<(String, FrozenResolutionMap)>, dir: Seq<Seq<char>>)
    ensures
        match last_own_root(s, dir) {
            Some(url) => exists|i: int|
                0 <= i < s.len() && (#[trigger] s[i]).0@ == url && stands_at(url, s[i].1, dir),
            None => forall|i: int|
                0 <= i < s.len() ==> !stands_at((#[trigger] s[i]).0@, s[i].1, dir),
        },
    decreases s.len(),
{
    if s.len() > 0 && !stands_at(s.last().0@, s.last().1, dir) {
        let t = s.drop_last();
        lemma_own_root(t, dir);
        match last_own_root(t, dir) {
            Some(url) => {
                let i = choose|i: int|
                    0 <= i < t.len() && (#[trigger] t[i]).0@ == url && stands_at(url, t[i].1, dir);
                assert(s[i] == t[i]);
            },
            None => {
                assert forall|i: int| 0 <= i < s.len() implies !stands_at(
                    (#[trigger] s[i]).0@,
                    s[i].1,
                    dir,
                ) by {
                    if i < t.len() {
                        assert(t[i] == s[i]);
                    }
                }
            },
        }
    }
}

proof fn lemma_first_owner(
    s: Seq<(String, FrozenResolutionMap)>,
    dirs: Seq<Seq<char>>,
    file: Seq<char>,
)
    ensures
        match first_owner(s, dirs, file) {
            Some(url) => exists|k: int|
                0 <= k < dirs.len() && owner_in(s, components(#[trigger] dirs[k]), file) == Some(url)
                    && forall|j: int|
                    0 <= j < k ==> owner_in(s, components(#[trigger] dirs[j]), file) is None,
            None => forall|j: int|
                0 <= j < dirs.len() ==> owner_in(s, components(#[trigger] dirs[j]), file) is None,
        },
    decreases dirs.len(),
{
    if dirs.len() > 0 {
        if owner_in(s, components(dirs[0]), file) is None {
            let t = dirs.skip(1);
            lemma_first_owner(s, t, file);
            match first_owner(s, t, file) {
                Some(url) => {
                    let k = choose|k: int|
                        0 <= k < t.len() && owner_in(s, components(#[trigger] t[k]), file) == Some(
                            url,
                        ) && forall|j: int|
                            0 <= j < k ==> owner_in(s, components(#[trigger] t[j]), file) is None;
                    assert(dirs[k + 1] == t[k]);
                    assert forall|j: int| 0 <= j < k + 1 implies owner_in(
                        s,
                        components(#[trigger] dirs[j]),
                        file,
                    ) is None by {
                        if j > 0 {
                            assert(t[j - 1] == dirs[j]);
                        }
                    }
                },
                None => {
                    assert forall|j: int| 0 <= j < dirs.len() implies owner_in(
                        s,
                        components(#[trigger] dirs[j]),
                        file,
                    ) is None by {
                        if j > 0 {
                            assert(t[j - 1] == dirs[j]);
                        }
                    }
                },
            }
        } else {
            assert(owner_in(s, components(dirs[0]), file) is Some);
        }
    }
}

/// The root package found for a file holds it. And every root package that holds the file, and
/// shares its directory with no other root package, has a root that is no deeper than the one found.
pub proof fn law_owner_of_file(
    s: Seq<(String, FrozenResolutionMap)>,
    file: Seq<char>,
    url: Seq<char>,
    dir: Seq<Seq<char>>,
)
    requires
        in_order(s),
        holds_file(s, url, dir, file),
        dir.len() > 0 || !is_absolute(file),
        forall|i: int|
            0 <= i < s.len() && stands_at((#[trigger] s[i]).0@, s[i].1, dir) ==> s[i].0@ == url,
    ensures
        match first_owner(s, ancestors_of(file), file) {
            Some(found) => exists|d: Seq<Seq<char>>| #[trigger]
                holds_file(s, found, d, file) && dir.len() <= d.len(),
            None => false,
        },
{
    let dirs = ancestors_of(file);
    let m = find(s, url)->Some_0;
    lemma_slot(s, url);
    let at = slot(s, url);
    crate::frozen::lemma_nearest(m.packages.entries@, file);
    let (k0, p) = crate::frozen::nearest_place(m.packages.entries@, file);
    assert(components(dirs[k0]) == dir);
    assert(stands_at(s[at].0@, s[at].1, dir));
    lemma_own_root(s, dir);
    assert(last_own_root(s, dir) == Some(url));
    assert(owner_in(s, components(dirs[k0]), file) == Some(url));
    lemma_first_owner(s, dirs, file);
    let found = first_owner(s, dirs, file)->Some_0;
    let k = choose|k: int|
        0 <= k < dirs.len() && owner_in(s, components(#[trigger] dirs[k]), file) == Some(found)
            && forall|j: int|
            0 <= j < k ==> owner_in(s, components(#[trigger] dirs[j]), file) is None;
    assert(k <= k0);
    let d = components(dirs[k]);
    assert(holds_file(s, found, d, file));
    crate::path::law_ancestors_are_prefixes(file, k);
    crate::path::law_ancestors_are_prefixes(file, k0);
}

/// The contents of a set of versions by package.
pub type VersionSets = SortedMap<String, SortedMap<String, ()>>;

/// Whether a package has a version in a set.
pub open spec fn has_version(
    s: Seq<(String, SortedMap<String, ()>)>,
    path: Seq<char>,
    version: Seq<char>,
) -> bool {
    match find(s, path) {
        Some(set) => find(set.entries@, version) is Some,
        None => false,
    }
}

/// Whether a resolution selects a version of a package.
pub open spec fn selects(
    s: Seq<(FrozenDepId, Version)>,
    path: Seq<char>,
    version: Seq<char>,
) -> bool
    decreases s.len(),
{
    s.len() > 0 && ((s.last().0.path@ == path && version_text(s.last().1@) == version) || selects(
        s.drop_last(),
        path,
        version,
    ))
}

/// Whether some resolution selects a version of a package.
pub open spec fn some_selects(
    s: Seq<(String, FrozenResolutionMap)>,
    path: Seq<char>,
    version: Seq<char>,
) -> bool
    decreases s.len(),
{
    s.len() > 0 && (selects(s.last().1.selected_remote.entries@, path, version) || some_selects(
        s.drop_last(),
        path,
        version,
    ))
}

/// Whether every set is in order and not empty.
pub open spec fn sets_in_order(s: Seq<(String, SortedMap<String, ()>)>) -> bool {
    in_order(s) && forall|i: int|
        0 <= i < s.len() ==> (#[trigger] s[i]).1.wf() && s[i].1.entries@.len() > 0
}

/// Adds a version of a package.
fn add_version(sets: &mut VersionSets, path: &str, version: String)
    requires
        sets_in_order(old(sets).entries@),
    ensures
        sets_in_order(final(sets).entries@),
        forall|p: Seq<char>, v: Seq<char>|
            #[trigger] has_version(final(sets).entries@, p, v) == (has_version(
                old(sets).entries@,
                p,
                v,
            ) || (p == path@ && v == version@)),
{
    let ghost before = sets.entries@;
    let ghost text = version@;
    let key = path.to_owned();
    let i = sets.position(&key);
    proof {
        lemma_slot(before, path@);
    }
    if i < sets.entries.len() {
        proof {
            assert(before[i as int].1.wf());
        }
        let set = sets.value_mut(i);
        set.insert(version, ());
        proof {
            let after = sets.entries@;
            assert(after.len() == before.len());
            assert forall|a: int, b: int| 0 <= a < b < after.len() implies <String as crate::map::Key>::before(
                #[trigger] after[a].0@,
                #[trigger] after[b].0@,
            ) by {
                assert(after[a].0 == before[a].0 && after[b].0 == before[b].0);
            }
            lemma_slot_at(after, i as int);
            assert forall|k: int| 0 <= k < after.len() implies (#[trigger] after[k]).1.wf()
                && after[k].1.entries@.len() > 0 by {
                if k != i {
                    assert(after[k] == before[k]);
                } else {
                    assert(find(after[k].1.entries@, text) is Some);
                    lemma_slot(after[k].1.entries@, text);
                }
            }
            assert forall|p: Seq<char>, v: Seq<char>|
                #[trigger] has_version(after, p, v) == (has_version(before, p, v) || (p == path@ && v
                    == text)) by {
                if p != path@ {
                    lemma_find_elsewhere(before, after, i as int, p);
                }
            }
        }
    } else {
        let mut set: SortedMap<String, ()> = SortedMap::new();
        set.insert(version, ());
        proof {
            assert(find(set.entries@, text) is Some);
            lemma_slot(set.entries@, text);
        }
        let ghost one = set;
        sets.insert(key, set);
        proof {
            let after = sets.entries@;
            assert forall|k: int| 0 <= k < after.len() implies (#[trigger] after[k]).1.wf()
                && after[k].1.entries@.len() > 0 by {
                lemma_slot_at(after, k);
                if after[k].0@ != path@ {
                    let q = after[k].0@;
                    assert(find(before, q) == Some(after[k].1));
                    lemma_slot(before, q);
                    assert(before[slot(before, q)].1.wf());
                }
            }
            assert forall|p: Seq<char>, v: Seq<char>|
                #[trigger] has_version(after, p, v) == (has_version(before, p, v) || (p == path@ && v
                    == text)) by {
                if p == path@ {
                    assert(find(after, p) == Some(one));
                    assert(find(before, p) is None);
                }
            }
        }
    }
}

impl ResolutionResult {
    /// The invariant: the tables stand in order, and the indexes are those of the workspace and the
    /// resolutions.
    pub open spec fn wf(&self) -> bool {
        &&& self.workspace_info.wf()
        &&& self.resolution.wf()
        &&& maps_in_order(self.resolution.entries@)
        &&& indexes_of(self.indexes, &self.workspace_info, self.resolution.entries@)
    }

    /// The result for a workspace and its resolutions.
    pub fn frozen(
        workspace_info: WorkspaceInfo,
        resolution: FrozenResolutionSet,
        symbol_parts: SortedMap<String, Vec<ManifestPart>>,
    ) -> (r: ResolutionResult)
        requires
            workspace_info.wf(),
            resolution.wf(),
            maps_in_order(resolution.entries@),
        ensures
            r.wf(),
            r.workspace_info == workspace_info,
            r.resolution == resolution,
            r.symbol_parts == symbol_parts,
    {
        let indexes = PackageIndexes::new(&workspace_info, &resolution);
        ResolutionResult { workspace_info, resolution, symbol_parts, indexes }
    }

    /// The result without any dependency.
    pub fn empty() -> (r: ResolutionResult)
        ensures
            r.wf(),
            r.workspace_info.root@.len() == 0,
            r.workspace_info.cache_dir@.len() == 0,
            r.workspace_info.config is None,
            r.workspace_info.packages.entries@.len() == 0,
            r.workspace_info.errors@.len() == 0,
            r.resolution.entries@.len() == 0,
            r.symbol_parts.entries@.len() == 0,
    {
        ResolutionResult::frozen(
            WorkspaceInfo {
                root: String::new(),
                cache_dir: String::new(),
                config: None,
                packages: SortedMap::new(),
                errors: Vec::new(),
            },
            SortedMap::new(),
            SortedMap::new(),
        )
    }

    /// The package that a file belongs to in the resolution of the active root package. Without one
    /// there is none: the same directory can stand in several resolutions.
    pub fn package_scope_for_file<'a>(
        &'a self,
        file: &str,
        active_root_package: Option<&str>,
    ) -> (r: Option<ResolvedPackageScope<'a>>)
        ensures
            match r {
                Some(scope) => scope_of(
                    self.resolution.entries@,
                    file@,
                    opt_str(active_root_package),
                ) == Some((components(scope.root@), *scope.package)),
                None => scope_of(
                    self.resolution.entries@,
                    file@,
                    opt_str(active_root_package),
                ) is None,
            },
    {
        let root_package: &str = match active_root_package {
            Some(url) => url,
            None => return None,
        };
        match self.frozen_root(root_package) {
            Some(m) => match m.package_for_file(file) {
                Some((root, package)) => Some(ResolvedPackageScope::frozen(root, package)),
                None => None,
            },
            None => None,
        }
    }

    /// What a module loaded from a file depends on beside the file.
    pub fn load_cache_scope_key_for_file(
        &self,
        file: &str,
        active_root_package: Option<&str>,
    ) -> (r: Option<PackageScopeKey>)
        ensures
            match (r, scope_of(self.resolution.entries@, file@, opt_str(active_root_package))) {
                (Some(key), Some((_, p))) => key.package_identity@ == identity_text(p.identity@)
                    && text_entries(key.deps@) == text_entries(p.deps.entries@),
                (None, None) => true,
                _ => false,
            },
    {
        match self.package_scope_for_file(file, active_root_package) {
            Some(scope) => Some(scope.load_cache_key()),
            None => None,
        }
    }

    /// The URL of a package root, where all paths are canonical: `packages` holds the directories
    /// of the workspace's packages in the order of their URLs.
    pub fn package_url_for_canonical_root(
        &self,
        root: &str,
        stdlib: &str,
        packages: &Vec<String>,
        workspace_root: &str,
    ) -> (r: Option<String>)
        requires
            packages@.len() == self.workspace_info.packages.entries@.len(),
        ensures
            opt_text(r) == root_url(
                &self.workspace_info,
                root@,
                stdlib@,
                texts(packages@),
                workspace_root@,
            ),
    {
        if path_eq(root, stdlib) {
            return Some(STDLIB_MODULE_PATH.to_owned());
        }
        let s = &self.workspace_info.packages.entries;
        let ghost keys = keys_of(s@);
        let ghost dirs = texts(packages@);
        let mut has_root: bool = false;
        let mut i: usize = 0;
        proof {
            assert(keys.skip(0) =~= keys);
            assert(dirs.skip(0) =~= dirs);
        }
        while i < s.len()
            invariant
                i <= s@.len(),
                s@ == self.workspace_info.packages.entries@,
                packages@.len() == s@.len(),
                keys == keys_of(s@),
                dirs == texts(packages@),
                !same_path(root@, stdlib@),
                has_root == (exists|k: int|
                    0 <= k < i && (#[trigger] s@[k]).1.rel_path@.len() == 0),
                first_at_path(keys.skip(i as int), dirs.skip(i as int), root@) == first_at_path(
                    keys,
                    dirs,
                    root@,
                ),
            decreases s@.len() - i,
        {
            proof {
                assert(keys.skip(i as int)[0] == s@[i as int].0@);
                assert(dirs.skip(i as int)[0] == packages@[i as int]@);
                assert(keys.skip(i as int).skip(1) =~= keys.skip(i + 1));
                assert(dirs.skip(i as int).skip(1) =~= dirs.skip(i + 1));
            }
            if path_eq(root, packages[i].as_str()) {
                return Some(s[i].0.clone());
            }
            if s[i].1.rel_path.as_str().unicode_len() == 0 {
                has_root = true;
                proof {
                    assert(s@[i as int].1.rel_path@.len() == 0);
                }
            }
            i += 1;
        }
        proof {
            assert(has_root == has_root_package(&self.workspace_info));
        }
        if !has_root && path_eq(root, workspace_root) {
            return Some(LOCAL_WORKSPACE_ROOT_URL.to_owned());
        }
        None
    }

    /// The URL of a package root. A path that the file provider cannot make canonical is taken as it
    /// stands.
    pub fn package_url_for_package_root<F: FileProvider>(&self, root: &str, file_provider: &F) -> (r:
        Option<String>)
        ensures
            match r {
                Some(url) => url@ == STDLIB_MODULE_PATH@ || keys_of(
                    self.workspace_info.packages.entries@,
                ).contains(url@) || (url@ == LOCAL_WORKSPACE_ROOT_URL@ && !has_root_package(
                    &self.workspace_info,
                )),
                None => true,
            },
            exists|
                at: Seq<char>,
                stdlib: Seq<char>,
                dirs: Seq<Seq<char>>,
                workspace_root: Seq<char>,
            |
                opt_text(r) == #[trigger] root_url(
                    &self.workspace_info,
                    at,
                    stdlib,
                    dirs,
                    workspace_root,
                ) && made_canonical(file_provider, root@, at) && made_canonical(
                    file_provider,
                    self.workspace_info.stdlib_dir_of(),
                    stdlib,
                ) && made_canonical(
                    file_provider,
                    self.workspace_info.root@,
                    workspace_root,
                ) && dirs.len() == self.workspace_info.packages.entries@.len() && forall|i: int|
                    0 <= i < dirs.len() ==> made_canonical(
                        file_provider,
                        self.workspace_info.packages.entries@[i].1.dir_of(
                            self.workspace_info.root@,
                        ),
                        #[trigger] dirs[i],
                    ),
    {
        let canonical_root = canonical_or_same(file_provider, root);
        let stdlib = self.workspace_info.workspace_stdlib_dir();
        let canonical_stdlib = canonical_or_same(file_provider, stdlib.as_str());
        let s = &self.workspace_info.packages.entries;
        let mut packages: Vec<String> = Vec::new();
        let mut i: usize = 0;
        while i < s.len()
            invariant
                i <= s@.len(),
                packages@.len() == i,
                s@ == self.workspace_info.packages.entries@,
                forall|k: int|
                    0 <= k < i ==> made_canonical(
                        file_provider,
                        s@[k].1.dir_of(self.workspace_info.root@),
                        #[trigger] texts(packages@)[k],
                    ),
            decreases s@.len() - i,
        {
            let dir = s[i].1.dir(self.workspace_info.root.as_str());
            let canonical = canonical_or_same(file_provider, dir.as_str());
            let ghost before = texts(packages@);
            packages.push(canonical);
            proof {
                assert(texts(packages@) =~= before.push(canonical@));
            }
            i += 1;
        }
        let workspace_root = canonical_or_same(file_provider, self.workspace_info.root.as_str());
        proof {
            lemma_first_at_path(keys_of(s@), texts(packages@), canonical_root@);
        }
        self.package_url_for_canonical_root(
            canonical_root.as_str(),
            canonical_stdlib.as_str(),
            &packages,
            workspace_root.as_str(),
        )
    }

    /// The URL of a file, given the canonical form of the root of the package that it belongs to.
    pub fn package_url_for_scoped_file(
        &self,
        file: &str,
        active_root_package: Option<&str>,
        canonical_root: Option<&str>,
    ) -> (r: Option<String>)
        ensures
            match scope_of(self.resolution.entries@, file@, opt_str(active_root_package)) {
                Some((dir, p)) => opt_text(r) == Some(
                    file_url(
                        identity_url(p.identity@),
                        match canonical_root {
                            Some(c) => components(c@),
                            None => dir,
                        },
                        dir,
                        file@,
                    ),
                ),
                None => r is None,
            },
    {
        let scope = match self.package_scope_for_file(file, active_root_package) {
            Some(scope) => scope,
            None => return None,
        };
        let url: &str = match scope.package_url() {
            Some(url) => url,
            None => "",
        };
        let first: &str = match canonical_root {
            Some(c) => c,
            None => scope.root,
        };
        let rel = match strip_base(file, first) {
            Some(rel) => rel,
            None => match strip_base(file, scope.root) {
                Some(rel) => rel,
                None => String::new(),
            },
        };
        if rel.as_str().unicode_len() == 0 {
            Some(url.to_owned())
        } else {
            let mut out = url.to_owned();
            out.append("/");
            out.append(rel.as_str());
            Some(out)
        }
    }

    /// The URL of a file within the package that it belongs to.
    pub fn package_url_for_file<F: FileProvider>(
        &self,
        file: &str,
        active_root_package: Option<&str>,
        file_provider: &F,
    ) -> (r: Option<String>)
        ensures
            r is Some <==> scope_of(
                self.resolution.entries@,
                file@,
                opt_str(active_root_package),
            ) is Some,
            match (r, scope_of(self.resolution.entries@, file@, opt_str(active_root_package))) {
                (Some(url), Some((dir, p))) => begins(url@, identity_url(p.identity@)) && exists|
                    root: Seq<char>,
                    canonical: Seq<char>,
                |
                    components(root) == dir && #[trigger] made_canonical(
                        file_provider,
                        root,
                        canonical,
                    ) && url@ == file_url(
                        identity_url(p.identity@),
                        components(canonical),
                        dir,
                        file@,
                    ),
                _ => true,
            },
    {
        let scope = match self.package_scope_for_file(file, active_root_package) {
            Some(scope) => scope,
            None => return None,
        };
        let canonical = canonical_or_same(file_provider, scope.root);
        let r = self.package_url_for_scoped_file(
            file,
            active_root_package,
            Some(canonical.as_str()),
        );
        proof {
            let url = identity_url(scope.package.identity@);
            let t = r->Some_0@;
            assert(t.take(url.len() as int) =~= url);
        }
        r
    }

    /// The most specific package of the workspace that owns a path, where both the workspace root
    /// and the path are canonical.
    pub fn workspace_package_url_for_canonical_path(&self, root: &str, path: &str) -> (r: Option<
        &str,
    >)
        ensures
            opt_str(r) == indexed_owner(self, root@, path@),
    {
        let rel = match strip_base(path, root) {
            Some(rel) => rel,
            None => return None,
        };
        match nearest_entry(&self.indexes.rel_dirs, rel.as_str()) {
            Some((_, url)) => Some(url.as_str()),
            None => None,
        }
    }

    /// The most specific package of the workspace that owns a path. A path that the file provider
    /// cannot make canonical is taken as it stands.
    pub fn workspace_package_url_for_path<F: FileProvider>(&self, file_provider: &F, path: &str) -> (r:
        Option<&str>)
        requires
            self.wf(),
        ensures
            r is Some ==> keys_of(self.workspace_info.packages.entries@).contains(r->Some_0@),
            exists|root: Seq<char>, canonical: Seq<char>|
                opt_str(r) == #[trigger] indexed_owner(self, root, canonical) && made_canonical(
                    file_provider,
                    self.workspace_info.root@,
                    root,
                ) && made_canonical(file_provider, path@, canonical),
    {
        let root = canonical_or_same(file_provider, self.workspace_info.root.as_str());
        let canonical = canonical_or_same(file_provider, path);
        let r = self.workspace_package_url_for_canonical_path(root.as_str(), canonical.as_str());
        proof {
            if r is Some {
                let rel = relative_to(canonical@, root@)->Some_0;
                let s = self.indexes.rel_dirs.entries@;
                crate::frozen::lemma_nearest(s, rel);
                let dir = nearest(s, rel)->Some_0.0;
                assert(opt_text(find(s, dir)) == last_url_at(
                    self.workspace_info.packages.entries@,
                    dir,
                ));
                lemma_last_url_at(self.workspace_info.packages.entries@, dir);
            }
        }
        r
    }

    /// The roots of the packages by coordinate, with the workspace-local cache in the place of the
    /// global one.
    pub fn package_roots(&self) -> (r: SortedMap<String, String>)
        requires
            self.wf(),
        ensures
            r.wf(),
            forall|q: Seq<char>|
                opt_text(#[trigger] find(r.entries@, q)) == (match package_root_of(
                    &self.workspace_info,
                    self.resolution.entries@,
                    q,
                ) {
                    Some(root) => Some(cached_at(&self.workspace_info, root)),
                    None => None,
                }),
    {
        let r = copy_text_map(&self.indexes.workspace_package_roots);
        proof {
            assert forall|q: Seq<char>|
                opt_text(#[trigger] find(r.entries@, q)) == (match package_root_of(
                    &self.workspace_info,
                    self.resolution.entries@,
                    q,
                ) {
                    Some(root) => Some(cached_at(&self.workspace_info, root)),
                    None => None,
                }) by {
                assert(opt_text(find(r.entries@, q)) == opt_text(
                    find(self.indexes.workspace_package_roots.entries@, q),
                ));
            }
        }
        r
    }

    /// The versions that are selected of each package, over all resolutions.
    pub fn remote_package_versions(&self) -> (r: VersionSets)
        ensures
            sets_in_order(r.entries@),
            forall|p: Seq<char>, v: Seq<char>|
                #[trigger] has_version(r.entries@, p, v) == some_selects(
                    self.resolution.entries@,
                    p,
                    v,
                ),
    {
        let s = &self.resolution.entries;
        let mut out: VersionSets = SortedMap::new();
        let mut i: usize = 0;
        proof {
            assert(s@.take(0) =~= Seq::<(String, FrozenResolutionMap)>::empty());
        }
        while i < s.len()
            invariant
                i <= s@.len(),
                s@ == self.resolution.entries@,
                sets_in_order(out.entries@),
                forall|p: Seq<char>, v: Seq<char>|
                    #[trigger] has_version(out.entries@, p, v) == some_selects(
                        s@.take(i as int),
                        p,
                        v,
                    ),
            decreases s@.len() - i,
        {
            proof {
                assert(s@.take(i + 1).drop_last() =~= s@.take(i as int));
                assert(s@.take(i + 1).last() == s@[i as int]);
            }
            let t = &s[i].1.selected_remote.entries;
            let mut j: usize = 0;
            proof {
                assert(t@.take(0) =~= Seq::<(FrozenDepId, Version)>::empty());
            }
            while j < t.len()
                invariant
                    j <= t@.len(),
                    sets_in_order(out.entries@),
                    forall|p: Seq<char>, v: Seq<char>|
                        #[trigger] has_version(out.entries@, p, v) == (some_selects(
                            s@.take(i as int),
                            p,
                            v,
                        ) || selects(t@.take(j as int), p, v)),
                decreases t@.len() - j,
            {
                proof {
                    assert(t@.take(j + 1).drop_last() =~= t@.take(j as int));
                    assert(t@.take(j + 1).last() == t@[j as int]);
                }
                let text = t[j].1.to_text();
                add_version(&mut out, t[j].0.path.as_str(), text);
                j += 1;
            }
            proof {
                assert(t@.take(t@.len() as int) =~= t@);
            }
            i += 1;
        }
        proof {
            assert(s@.take(s@.len() as int) =~= s@);
        }
        out
    }

    /// Makes every path of the resolution canonical, as far as the file provider can.
    pub fn canonicalize_keys<F: FileProvider>(&mut self, file_provider: &F)
        requires
            old(self).wf(),
        ensures
            final(self).wf(),
            final(self).workspace_info.root == old(self).workspace_info.root,
            final(self).workspace_info.config == old(self).workspace_info.config,
            final(self).workspace_info.packages == old(self).workspace_info.packages,
            final(self).workspace_info.errors == old(self).workspace_info.errors,
            old(self).workspace_info.cache_dir@.len() == 0 ==> final(self).workspace_info.cache_dir
                == old(self).workspace_info.cache_dir,
            old(self).workspace_info.cache_dir@.len() > 0 ==> made_canonical(
                file_provider,
                old(self).workspace_info.cache_dir@,
                final(self).workspace_info.cache_dir@,
            ),
            final(self).symbol_parts == old(self).symbol_parts,
            keys_of(final(self).resolution.entries@) == keys_of(old(self).resolution.entries@),
            forall|i: int|
                0 <= i < old(self).resolution.entries@.len() ==> (
                #[trigger] final(self).resolution.entries@[i]).1.selected_remote
                    == old(self).resolution.entries@[i].1.selected_remote && is_moved(
                    file_provider,
                    final(self).resolution.entries@[i].1.packages.entries@,
                    old(self).resolution.entries@[i].1.packages.entries@,
                ),
    {
        if self.workspace_info.cache_dir.as_str().unicode_len() > 0 {
            let dir = canonical_or_same(file_provider, self.workspace_info.cache_dir.as_str());
            self.workspace_info.cache_dir = dir;
        }
        let ghost before = self.resolution.entries@;
        let ghost info = self.workspace_info;
        let ghost parts = self.symbol_parts;
        let mut i: usize = 0;
        while i < self.resolution.entries.len()
            invariant
                i <= self.resolution.entries@.len(),
                self.resolution.entries@.len() == before.len(),
                before == old(self).resolution.entries@,
                self.workspace_info == info,
                self.symbol_parts == parts,
                maps_in_order(before),
                forall|k: int|
                    0 <= k < before.len() ==> (#[trigger] self.resolution.entries@[k]).0
                        == before[k].0 && self.resolution.entries@[k].1.selected_remote
                        == before[k].1.selected_remote && self.resolution.entries@[k].1.wf(),
                forall|k: int|
                    0 <= k < i ==> is_moved(
                        file_provider,
                        (#[trigger] self.resolution.entries@[k]).1.packages.entries@,
                        before[k].1.packages.entries@,
                    ),
                forall|k: int|
                    i <= k < before.len() ==> (#[trigger] self.resolution.entries@[k]).1
                        == before[k].1,
            decreases self.resolution.entries@.len() - i,
        {
            let ghost prior = self.resolution.entries@;
            let m = self.resolution.value_mut(i);
            m.canonicalize_keys(file_provider);
            i += 1;
        }
        proof {
            assert(keys_of(self.resolution.entries@) =~= keys_of(before));
            crate::map::lemma_same_order(before, self.resolution.entries@);
        }
        self.indexes = PackageIndexes::new(&self.workspace_info, &self.resolution);
    }

    /// The resolution of a root package.
    pub fn frozen_root(&self, package_url: &str) -> (r: Option<&FrozenResolutionMap>)
        ensures
            match r {
                Some(m) => find(self.resolution.entries@, package_url@) == Some(*m),
                None => find(self.resolution.entries@, package_url@) is None,
            },
    {
        self.resolution.get(&package_url.to_owned())
    }

    /// The root package of a file.
    pub open spec fn root_of_file(&self, file: Seq<char>) -> Option<Seq<char>> {
        if lies_under(file, self.workspace_info.stdlib_dir_of()) {
            match find(self.resolution.entries@, STDLIB_MODULE_PATH@) {
                Some(_) => Some(STDLIB_MODULE_PATH@),
                None => None,
            }
        } else {
            first_owner(self.resolution.entries@, ancestors_of(file), file)
        }
    }

    /// The root package of a file, with its resolution. The files of the standard library have the
    /// standard library as their root; of the others, a root package holds those that belong to it
    /// in its own resolution, and the deepest such root counts.
    pub fn frozen_root_for_file(&self, file: &str) -> (r: Option<(&str, &FrozenResolutionMap)>)
        requires
            self.wf(),
        ensures
            match r {
                Some((url, m)) => self.root_of_file(file@) == Some(url@) && find(
                    self.resolution.entries@,
                    url@,
                ) == Some(*m),
                None => self.root_of_file(file@) is None,
            },
    {
        let stdlib = self.workspace_info.workspace_stdlib_dir();
        if path_starts_with(file, stdlib.as_str()) {
            return match self.resolution.get(&STDLIB_MODULE_PATH.to_owned()) {
                Some(m) => Some((STDLIB_MODULE_PATH, m)),
                None => None,
            };
        }
        let dirs = ancestors(file);
        let ghost all = texts(dirs@);
        let mut i: usize = 0;
        proof {
            assert(all.skip(0) =~= all);
        }
        while i < dirs.len()
            invariant
                i <= dirs@.len(),
                all == texts(dirs@),
                all == ancestors_of(file@),
                self.wf(),
                !lies_under(file@, self.workspace_info.stdlib_dir_of()),
                first_owner(self.resolution.entries@, all.skip(i as int), file@) == first_owner(
                    self.resolution.entries@,
                    all,
                    file@,
                ),
            decreases dirs@.len() - i,
        {
            let ghost dir = components(dirs@[i as int]@);
            proof {
                assert(all.skip(i as int)[0] == dirs@[i as int]@);
                assert(all.skip(i as int).skip(1) =~= all.skip(i + 1));
                assert(opt_text(find(self.indexes.own_roots.entries@, dir)) == last_own_root(
                    self.resolution.entries@,
                    dir,
                ));
            }
            let key = PathKey { path: dirs[i].clone() };
            if let Some(url) = self.indexes.own_roots.get(&key) {
                if let Some(m) = self.resolution.get(url) {
                    if let Some((root, package)) = m.package_for_file(file) {
                        if path_eq(root, dirs[i].as_str())
                            && package.identity.is_workspace_package(url.as_str()) {
                            return Some((url.as_str(), m));
                        }
                    }
                }
            }
            i += 1;
        }
        None
    }

    /// The path that a package reference stands for.
    pub fn resolve_package_uri(&self, uri: &str) -> (r: Result<String, ResolutionError>)
        requires
            self.wf(),
        ensures
            match r {
                Ok(path) => begins(uri@, PACKAGE_URI_PREFIX@) && exists|coord: Seq<char>| #[trigger]
                    is_longest_cover(
                        keys_of(self.indexes.package_roots.entries@),
                        uri@.skip(PACKAGE_URI_PREFIX@.len() as int),
                        Some(coord),
                    ) && referenced_path(
                        self.indexes.package_roots.entries@,
                        coord,
                        uri@.skip(PACKAGE_URI_PREFIX@.len() as int),
                    ) == Some(path@),
                Err(e) => e.text() == "Cannot resolve package URI '"@ + uri@ + "'"@ && (!begins(
                    uri@,
                    PACKAGE_URI_PREFIX@,
                ) || is_longest_cover(
                    keys_of(self.indexes.package_roots.entries@),
                    uri@.skip(PACKAGE_URI_PREFIX@.len() as int),
                    None,
                )),
            },
    {
        resolve_reference(uri, &self.indexes.package_roots)
    }

    /// The stable reference to a path: that of the package with the deepest root above it.
    pub fn format_package_uri(&self, abs: &str) -> (r: Option<String>)
        ensures
            opt_text(r) == reference_to(
                self.indexes.root_coords.entries@,
                cached_at(&self.workspace_info, abs@),
            ),
    {
        let path = workspace_cache_path(&self.workspace_info, abs);
        match nearest_entry(&self.indexes.root_coords, path.as_str()) {
            Some((root, coord)) => {
                proof {
                    crate::frozen::lemma_nearest(self.indexes.root_coords.entries@, path@);
                }
                match strip_base(path.as_str(), root) {
                    Some(rel) => Some(package_uri(coord.as_str(), rel.as_str())),
                    None => None,
                }
            },
            None => None,
        }
    }
}

/// The owner that the index gives for a path is the one that a search through all packages of the
/// workspace gives.
pub proof fn law_index_agrees_with_owner(r: &ResolutionResult, root: Seq<char>, path: Seq<char>)
    requires
        r.wf(),
        root.len() > 0 || !is_absolute(path),
    ensures
        (match relative_to(path, root) {
            Some(rel) => match nearest(r.indexes.rel_dirs.entries@, rel) {
                Some((_, url)) => Some(url@),
                None => None,
            },
            None => None,
        }) == r.workspace_info.owner_url(root, path),
{
    if let Some(rel) = relative_to(path, root) {
        let s = r.workspace_info.packages.entries@;
        let ix = r.indexes.rel_dirs.entries@;
        crate::path::lemma_spans(root);
        assert(!is_absolute(rel)) by {
            let k = components(root).len() as int;
            if k > 0 {
                lemma_tail_components_of(path, k);
            } else {
                crate::path::lemma_spans(path);
            }
        }
        assert(components(rel).len() == 0 || components(rel)[0] != seq!['/']) by {
            crate::path::lemma_spans(rel);
            if components(rel).len() > 0 && components(rel)[0] == seq!['/'] {
                assert(components(rel)[0][0] == rel[0]);
            }
        }
        crate::workspace::lemma_owner_at(s, rel);
        let k = owner_at(s, rel);
        crate::frozen::lemma_nearest(ix, rel);
        if k >= 0 {
            let p = s[k].1.rel_path@;
            let q = components(p);
            assert(opt_text(find(ix, q)) == last_url_at(s, q));
            lemma_last_url_exists(s, k);
            lemma_nearest_is_deepest_relative(ix, rel, p);
            let dir = nearest(ix, rel)->Some_0.0;
            assert(opt_text(find(ix, dir)) == last_url_at(s, dir));
            lemma_last_url_place(s, dir);
            let j = last_place_at(s, dir);
            assert(components(s[j].1.rel_path@) == dir);
            assert(lies_under(rel, s[j].1.rel_path@));
            assert(dir.len() == q.len());
            assert(dir =~= q);
            lemma_owner_is_last(s, rel);
            assert(j == k);
        } else if nearest(ix, rel) is Some {
            let dir = nearest(ix, rel)->Some_0.0;
            assert(opt_text(find(ix, dir)) == last_url_at(s, dir));
            lemma_last_url_place(s, dir);
            let j = last_place_at(s, dir);
            assert(lies_under(rel, s[j].1.rel_path@));
        }
    }
}

/// The place of the last package at a directory, or -1.
spec fn last_place_at(s: Seq<(String, WorkspacePackage)>, q: Seq<Seq<char>>) -> int
    decreases s.len(),
{
    if s.len() == 0 {
        -1
    } else if components(s.last().1.rel_path@) == q {
        s.len() - 1
    } else {
        last_place_at(s.drop_last(), q)
    }
}

proof fn lemma_last_url_place(s: Seq<(String, WorkspacePackage)>, q: Seq<Seq<char>>)
    ensures
        -1 <= last_place_at(s, q) < s.len(),
        last_place_at(s, q) >= 0 ==> components(s[last_place_at(s, q)].1.rel_path@) == q
            && last_url_at(s, q) == Some(s[last_place_at(s, q)].0@),
        last_place_at(s, q) < 0 ==> last_url_at(s, q) is None,
        forall|i: int|
            0 <= i < s.len() && components((#[trigger] s[i]).1.rel_path@) == q ==> i
                <= last_place_at(s, q),
    decreases s.len(),
{
    if s.len() > 0 && components(s.last().1.rel_path@) != q {
        let t = s.drop_last();
        lemma_last_url_place(t, q);
        assert forall|i: int| 0 <= i < s.len() && components((#[trigger] s[i]).1.rel_path@)
            == q implies i <= last_place_at(s, q) by {
            assert(t[i] == s[i]);
        }
    }
}

proof fn lemma_last_url_exists(s: Seq<(String, WorkspacePackage)>, k: int)
    requires
        0 <= k < s.len(),
    ensures
        last_url_at(s, components(s[k].1.rel_path@)) is Some,
{
    lemma_last_url_place(s, components(s[k].1.rel_path@));
}

/// Of the deepest packages above a path the owner is the last.
proof fn lemma_owner_is_last(s: Seq<(String, WorkspacePackage)>, rel: Seq<char>)
    ensures
        forall|i: int|
            0 <= i < s.len() && lies_under(rel, (#[trigger] s[i]).1.rel_path@) && components(
                s[i].1.rel_path@,
            ).len() >= components(s[owner_at(s, rel)].1.rel_path@).len() ==> i <= owner_at(s, rel),
    decreases s.len(),
{
    if s.len() > 0 {
        let t = s.drop_last();
        lemma_owner_is_last(t, rel);
        crate::workspace::lemma_owner_at(t, rel);
        assert forall|i: int|
            0 <= i < s.len() && lies_under(rel, (#[trigger] s[i]).1.rel_path@) && components(
                s[i].1.rel_path@,
            ).len() >= components(s[owner_at(s, rel)].1.rel_path@).len() implies i <= owner_at(
            s,
            rel,
        ) by {
            if i < t.len() {
                assert(t[i] == s[i]);
                if owner_at(s, rel) == owner_at(t, rel) {
                    assert(s[owner_at(t, rel)] == t[owner_at(t, rel)]);
                }
            }
        }
    }
}

proof fn lemma_nearest_is_deepest_relative(s: Seq<(PathKey, String)>, rel: Seq<char>, p: Seq<char>)
    requires
        find(s, components(p)) is Some,
        lies_under(rel, p),
        components(rel).len() == 0 || components(rel)[0] != seq!['/'],
    ensures
        nearest(s, rel) is Some,
        components(p).len() <= nearest(s, rel)->Some_0.0.len(),
{
    law_nearest_is_deepest(s, rel, p);
}

/// The text that follows the scheme in the reference to a path below a coordinate.
pub open spec fn reference_rest(coord: Seq<char>, rel: Seq<char>) -> Seq<char> {
    if components(rel).len() == 0 {
        coord
    } else {
        coord + "/"@ + slashed(rel)
    }
}

/// A reference is read back as the path that it was made from: with the coordinate `coord` of the
/// root `root`, which no longer coordinate hides, a path below the root comes back.
pub proof fn law_reference_round_trip(
    roots: Seq<(String, String)>,
    coord: Seq<char>,
    root: Seq<char>,
    path: Seq<char>,
)
    requires
        opt_text(find(roots, coord)) == Some(root),
        root.len() > 0,
        lies_under(path, root),
    ensures
        ({
            let rel = relative_to(path, root)->Some_0;
            let uri = package_reference(coord, rel);
            let rest = reference_rest(coord, rel);
            &&& begins(uri, PACKAGE_URI_PREFIX@)
            &&& uri.skip(PACKAGE_URI_PREFIX@.len() as int) == rest
            &&& covers(coord, rest)
            &&& match referenced_path(roots, coord, rest) {
                Some(back) => same_path(back, path),
                None => false,
            }
        }),
{
    reveal_strlit("/");
    assert("/"@ =~= seq!['/']);
    let rel = relative_to(path, root)->Some_0;
    let k = components(root).len() as int;
    crate::path::lemma_spans(root);
    assert(k > 0);
    lemma_tail_components_of(path, k);
    let uri = package_reference(coord, rel);
    let rest = reference_rest(coord, rel);
    assert(uri =~= PACKAGE_URI_PREFIX@ + rest);
    assert(uri.take(PACKAGE_URI_PREFIX@.len() as int) =~= PACKAGE_URI_PREFIX@);
    assert(uri.skip(PACKAGE_URI_PREFIX@.len() as int) =~= rest);
    assert(components(path) =~= components(root) + components(rel));
    if components(rel).len() == 0 {
        assert(components(path) =~= components(root));
    } else {
        let c = components(rel);
        assert forall|i: int| 0 <= i < c.len() implies crate::path::is_plain_component(
            #[trigger] c[i],
        ) by {
            lemma_components_are_plain(rel, i);
        }
        law_joined_components(c);
        assert(slashed(rel) == joined(c, seq!['/']));
        law_join_appends_components(root, slashed(rel));
        assert(rest.take(coord.len() as int) =~= coord);
        assert(rest[coord.len() as int] == '/');
        assert(rest.len() > coord.len());
        assert(within(coord, rest) =~= slashed(rel));
    }
}

/// The key whose path comes first in a list of paths.
pub open spec fn first_at_path(
    keys: Seq<Seq<char>>,
    dirs: Seq<Seq<char>>,
    path: Seq<char>,
) -> Option<Seq<char>>
    decreases keys.len(),
{
    if keys.len() == 0 {
        None
    } else if same_path(path, dirs[0]) {
        Some(keys[0])
    } else {
        first_at_path(keys.skip(1), dirs.skip(1), path)
    }
}

proof fn lemma_first_at_path(keys: Seq<Seq<char>>, dirs: Seq<Seq<char>>, path: Seq<char>)
    ensures
        first_at_path(keys, dirs, path) is Some ==> keys.contains(
            first_at_path(keys, dirs, path)->Some_0,
        ),
    decreases keys.len(),
{
    if keys.len() > 0 {
        if same_path(path, dirs[0]) {
            assert(keys.contains(keys[0]));
        } else {
            lemma_first_at_path(keys.skip(1), dirs.skip(1), path);
            if let Some(k) = first_at_path(keys.skip(1), dirs.skip(1), path) {
                let i = choose|i: int| 0 <= i < keys.skip(1).len() && keys.skip(1)[i] == k;
                assert(keys[i + 1] == k);
            }
        }
    }
}

proof fn lemma_last_url_at(s: Seq<(String, WorkspacePackage)>, q: Seq<Seq<char>>)
    ensures
        last_url_at(s, q) is Some ==> keys_of(s).contains(last_url_at(s, q)->Some_0),
    decreases s.len(),
{
    if s.len() > 0 {
        if components(s.last().1.rel_path@) == q {
            assert(keys_of(s)[s.len() - 1] == s.last().0@);
        } else {
            lemma_last_url_at(s.drop_last(), q);
            if let Some(k) = last_url_at(s.drop_last(), q) {
                let t = keys_of(s.drop_last());
                let i = choose|i: int| 0 <= i < t.len() && t[i] == k;
                assert(keys_of(s)[i] == k);
            }
        }
    }
}

/// Whether packages stand as others do, in what a file provider makes of their directories.
pub open spec fn is_moved<F: FileProvider>(
    file_provider: &F,
    new: Seq<(PathKey, FrozenPackage)>,
    s: Seq<(PathKey, FrozenPackage)>,
) -> bool {
    exists|roots: Seq<String>, dirs: Seq<Vec<String>>| #[trigger]
        moved_to(new, s, roots, dirs) && canonical_places(file_provider, s, roots, dirs)
}

/// A path below a directory that is given by its components, where it lies under it.
pub open spec fn path_below(p: Seq<char>, base: Seq<Seq<char>>) -> Option<Seq<char>> {
    if base.len() <= components(p).len() && components(p).take(base.len() as int) == base {
        Some(tail_text(p, base.len() as int))
    } else {
        None
    }
}

/// The URL of a file of a package: the package's URL and the path below the first of the two roots
/// that the file lies under. The roots are given by their components.
pub open spec fn file_url(
    url: Seq<char>,
    first: Seq<Seq<char>>,
    second: Seq<Seq<char>>,
    file: Seq<char>,
) -> Seq<char> {
    let rel = match path_below(file, first) {
        Some(rel) => rel,
        None => match path_below(file, second) {
            Some(rel) => rel,
            None => Seq::<char>::empty(),
        },
    };
    if rel.len() == 0 {
        url
    } else {
        url + "/"@ + rel
    }
}

/// The URL of a package root, given the canonical forms of it, of the standard library, of the
/// directories of the workspace packages and of the workspace root.
pub open spec fn root_url(
    ws: &WorkspaceInfo,
    root: Seq<char>,
    stdlib: Seq<char>,
    dirs: Seq<Seq<char>>,
    workspace_root: Seq<char>,
) -> Option<Seq<char>> {
    if same_path(root, stdlib) {
        Some(STDLIB_MODULE_PATH@)
    } else {
        match first_at_path(keys_of(ws.packages.entries@), dirs, root) {
            Some(url) => Some(url),
            None => if !has_root_package(ws) && same_path(root, workspace_root) {
                Some(LOCAL_WORKSPACE_ROOT_URL@)
            } else {
                None
            },
        }
    }
}

/// The most specific package of the workspace that owns a path, where both the workspace root and
/// the path are canonical.
pub open spec fn indexed_owner(
    resolution: &ResolutionResult,
    root: Seq<char>,
    path: Seq<char>,
) -> Option<Seq<char>> {
    match relative_to(path, root) {
        Some(rel) => match nearest(resolution.indexes.rel_dirs.entries@, rel) {
            Some((_, url)) => Some(url@),
            None => None,
        },
        None => None,
    }
}

/// What the file provider makes of a path, or the path itself.
pub(crate) fn canonical_or_same<F: FileProvider>(file_provider: &F, path: &str) -> (r: String)
    ensures
        made_canonical(file_provider, path@, r@),
{
    let answer = file_provider.canonicalize(path);
    proof {
        assert(call_ensures(F::canonicalize, (file_provider, path), answer));
    }
    match answer {
        Ok(p) => p,
        Err(_) => path.to_owned(),
    }
}

/// The dependencies of the package that a file belongs to stand in order.
pub proof fn lemma_scope_in_order(r: &ResolutionResult, file: Seq<char>, active: Option<Seq<char>>)
    requires
        r.wf(),
    ensures
        match scope_of(r.resolution.entries@, file, active) {
            Some((_, package)) => package.deps.wf(),
            None => true,
        },
{
    if let Some(url) = active {
        let s = r.resolution.entries@;
        crate::map::lemma_slot(s, url);
        if let Some(m) = find(s, url) {
            assert(s[crate::map::slot(s, url)].1 == m);
            assert(m.wf());
            crate::frozen::lemma_nearest(m.packages.entries@, file);
            if let Some((root, package)) = nearest(m.packages.entries@, file) {
                let p = m.packages.entries@;
                crate::map::lemma_slot(p, root);
                assert(p[crate::map::slot(p, root)].1.deps.wf());
            }
        }
    }
}

} // verus!
