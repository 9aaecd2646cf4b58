//! What holds of the versions that are selected and of the directories that they are found in.

use vstd::prelude::*;

use crate::config::{DependencySpec, DependencySpecView, PcbToml};
use crate::frozen::{cached_at, coordinate_of, first_root, has_root_package, package_root_of};
use crate::frozen::FrozenResolutionMap;
use crate::map::find;
use crate::path::{components, file_name_of, is_absolute, is_plain_component};
use crate::path::{law_join_appends_components, law_joined_components};
use crate::path::{law_parent_drops_last_component, lemma_tail_components_of, lies_under, parent_of};
use crate::path::{path_joined, relative_to, starts_here};
use crate::resolution::{direct_version, exact_version, highest_at, indirect_version, is_remote};
use crate::resolution::{known_directory, lane_of, manifest_version, matches_rev, parsed_key};
use crate::resolution::{rev_at, version_for, ModuleLine};
use crate::resolved::file_url;
use crate::text::{begins, cut_last, joined};
use crate::version::{version_text, Version, VersionParts};
use crate::workspace::{WorkspaceInfo, LOCAL_WORKSPACE_ROOT_URL};
use crate::{stdlib_root_of, STDLIB_MODULE_PATH};

verus! {

// ---------------------------------------------------------------------------------------------
// Versions

/// Whether the numbers of one version are at least those of another.
pub open spec fn at_least(a: VersionParts, b: VersionParts) -> bool {
    a.0 > b.0 || (a.0 == b.0 && (a.1 > b.1 || (a.1 == b.1 && a.2 >= b.2)))
}

/// The highest selected version of a module is one of that module, and none of the module's has higher
/// numbers. There is one exactly where some version of the module is selected.
pub proof fn law_highest_version(s: Seq<(ModuleLine, Version)>, module: Seq<char>)
    ensures
        ({
            let k = highest_at(s, module);
            &&& -1 <= k < s.len()
            &&& k >= 0 ==> s[k].0.path@ == module
            &&& forall|i: int|
                0 <= i < s.len() && (#[trigger] s[i]).0.path@ == module ==> k >= 0 && at_least(
                    s[k].1@,
                    s[i].1@,
                )
        }),
    decreases s.len(),
{
    if s.len() > 0 {
        let d = s.drop_last();
        law_highest_version(d, module);
        let b = highest_at(d, module);
        let k = highest_at(s, module);
        assert(s[s.len() - 1] == s.last());
        assert forall|i: int| 0 <= i < s.len() && (#[trigger] s[i]).0.path@ == module implies k >= 0
            && at_least(s[k].1@, s[i].1@) by {
            if i < d.len() {
                assert(d[i] == s[i]);
                assert(at_least(d[b].1@, d[i].1@));
                assert(d[b] == s[b]);
            }
        }
    }
}

/// A dependency with details asks for the version that it names; else for a selected one that stands
/// for its revision; else for the highest selected one of its module, where there is one.
pub proof fn law_version_that_is_asked_for(
    module: Seq<char>,
    version: Option<Seq<char>>,
    rev: Option<Seq<char>>,
    s: Seq<(ModuleLine, Version)>,
)
    ensures
        ({
            let r = version_for(module, version, rev, s);
            let fits = |i: int| s[i].0.path@ == module && matches_rev(s[i].1@, rev->Some_0);
            &&& version is Some ==> r == version
            &&& version is None && rev is Some && (exists|i: int| 0 <= i < s.len() && #[trigger] fits(i))
                ==> exists|i: int|
                0 <= i < s.len() && #[trigger] fits(i) && r == Some(version_text(s[i].1@)) && forall|
                    k: int,
                |
                    0 <= k < i ==> !#[trigger] fits(k)
            &&& version is None && !(rev is Some && exists|i: int|
                0 <= i < s.len() && #[trigger] fits(i)) ==> match r {
                Some(t) => exists|i: int|
                    0 <= i < s.len() && t == version_text((#[trigger] s[i]).1@) && s[i].0.path@ == module
                        && forall|k: int|
                        0 <= k < s.len() && (#[trigger] s[k]).0.path@ == module ==> at_least(
                            s[i].1@,
                            s[k].1@,
                        ),
                None => forall|i: int| 0 <= i < s.len() ==> (#[trigger] s[i]).0.path@ != module,
            }
        }),
{
    let fits = |i: int| s[i].0.path@ == module && matches_rev(s[i].1@, rev->Some_0);
    law_highest_version(s, module);
    if version is None && rev is Some {
        lemma_rev_at(s, module, rev->Some_0);
        let at = rev_at(s, module, rev->Some_0);
        if at < s.len() {
            assert(fits(at));
            assert forall|k: int| 0 <= k < at implies !#[trigger] fits(k) by {}
        } else {
            assert forall|i: int| 0 <= i < s.len() implies !#[trigger] fits(i) by {}
        }
    }
    let k = highest_at(s, module);
    if k >= 0 {
        assert(s[k].0.path@ == module);
    }
}

proof fn lemma_rev_at(s: Seq<(ModuleLine, Version)>, module: Seq<char>, rev: Seq<char>)
    ensures
        0 <= rev_at(s, module, rev) <= s.len(),
        rev_at(s, module, rev) < s.len() ==> s[rev_at(s, module, rev)].0.path@ == module && matches_rev(
            s[rev_at(s, module, rev)].1@,
            rev,
        ),
        forall|i: int|
            0 <= i < rev_at(s, module, rev) ==> !((#[trigger] s[i]).0.path@ == module && matches_rev(
                s[i].1@,
                rev,
            )),
    decreases s.len(),
{
    if s.len() > 0 && !(s[0].0.path@ == module && matches_rev(s[0].1@, rev)) {
        let t = s.skip(1);
        lemma_rev_at(t, module, rev);
        assert forall|i: int| 0 <= i < rev_at(s, module, rev) implies !((#[trigger] s[i]).0.path@
            == module && matches_rev(s[i].1@, rev)) by {
            if i > 0 {
                assert(t[i - 1] == s[i]);
            }
        }
    }
}

/// A pseudo version stands for a revision where one of its commit and the revision begins the other; no
/// other version stands for one.
pub proof fn law_pseudo_version_stands_for_its_commit(v: VersionParts, head: Seq<char>, commit: Seq<char>, rev: Seq<char>)
    requires
        v.3 == head + seq!['-'] + commit,
        !commit.contains('-'),
    ensures
        matches_rev(v, rev) <==> begins(v.3, seq!['0', '.']) && ((rev.len() <= commit.len() && commit.take(
            rev.len() as int,
        ) == rev) || (commit.len() <= rev.len() && rev.take(commit.len() as int) == commit)),
{
    reveal_strlit("0.");
    assert("0."@ =~= seq!['0', '.']);
    crate::text::lemma_last_at(v.3, '-');
    let k = crate::text::last_at(v.3, '-');
    assert(v.3[head.len() as int] == '-');
    if k > head.len() {
        assert(commit[k - head.len() - 1] == v.3[k]);
        assert(commit.contains('-'));
    }
    assert(k == head.len());
    assert(v.3.skip(k + 1) =~= commit);
    assert(cut_last(v.3, '-') == Some((v.3.take(k), v.3.skip(k + 1))));
}

/// Whether a direct dependency of a manifest selects a version for a module and a lane.
pub open spec fn selects_directly(
    ws: &WorkspaceInfo,
    e: (String, DependencySpec),
    id: (Seq<char>, Seq<char>),
    v: VersionParts,
) -> bool {
    exact_version(e.0@, e.1@) == Ok::<VersionParts, Seq<char>>(v) && is_remote(ws, e.0@, e.1@) && e.0@
        == id.0 && lane_of(v) == id.1
}

/// Whether an indirect dependency of a manifest selects a version for a module and a lane.
pub open spec fn selects_indirectly(
    e: (String, DependencySpec),
    id: (Seq<char>, Seq<char>),
    v: VersionParts,
) -> bool {
    exact_version(e.0@, e.1@) == Ok::<VersionParts, Seq<char>>(v) && parsed_key(e.0@) == Some(id)
}

/// What a manifest selects for a module and a lane is what one of its dependencies says: an indirect
/// one of that module and lane, or a direct one of that module and lane from elsewhere. An indirect one
/// counts before a direct one, and nothing is selected only where there is none of either.
pub proof fn law_manifest_selects_what_it_says(
    ws: &WorkspaceInfo,
    config: &PcbToml,
    id: (Seq<char>, Seq<char>),
)
    ensures
        ({
            let direct = config.dependencies.direct.entries@;
            let indirect = config.dependencies.indirect.entries@;
            match manifest_version(ws, config, id) {
                Some(v) => (exists|i: int|
                    0 <= i < indirect.len() && selects_indirectly(#[trigger] indirect[i], id, v)) || ((
                forall|i: int, w: VersionParts|
                    0 <= i < indirect.len() ==> !#[trigger] selects_indirectly(indirect[i], id, w))
                    && exists|i: int|
                    0 <= i < direct.len() && selects_directly(ws, #[trigger] direct[i], id, v)),
                None => (forall|i: int, w: VersionParts|
                    0 <= i < indirect.len() ==> !#[trigger] selects_indirectly(indirect[i], id, w)) && (
                forall|i: int, w: VersionParts|
                    0 <= i < direct.len() ==> !#[trigger] selects_directly(ws, direct[i], id, w)),
            }
        }),
{
    lemma_indirect(config.dependencies.indirect.entries@, id);
    lemma_direct(ws, config.dependencies.direct.entries@, id);
}

proof fn lemma_indirect(s: Seq<(String, DependencySpec)>, id: (Seq<char>, Seq<char>))
    ensures
        match indirect_version(s, id) {
            Some(v) => exists|i: int| 0 <= i < s.len() && selects_indirectly(#[trigger] s[i], id, v),
            None => forall|i: int, w: VersionParts|
                0 <= i < s.len() ==> !#[trigger] selects_indirectly(s[i], id, w),
        },
    decreases s.len(),
{
    if s.len() > 0 {
        let d = s.drop_last();
        lemma_indirect(d, id);
        assert(s[s.len() - 1] == s.last());
        match indirect_version(s, id) {
            Some(v) => {
                if !selects_indirectly(s.last(), id, v) {
                    let i = choose|i: int|
                        0 <= i < d.len() && selects_indirectly(#[trigger] d[i], id, v);
                    assert(s[i] == d[i]);
                }
            },
            None => {
                assert forall|i: int, w: VersionParts| 0 <= i < s.len() implies !#[trigger] selects_indirectly(
                    s[i],
                    id,
                    w,
                ) by {
                    if i < d.len() {
                        assert(!selects_indirectly(d[i], id, w));
                    }
                }
            },
        }
    }
}

proof fn lemma_direct(ws: &WorkspaceInfo, s: Seq<(String, DependencySpec)>, id: (Seq<char>, Seq<char>))
    ensures
        match direct_version(ws, s, id) {
            Some(v) => exists|i: int| 0 <= i < s.len() && selects_directly(ws, #[trigger] s[i], id, v),
            None => forall|i: int, w: VersionParts|
                0 <= i < s.len() ==> !#[trigger] selects_directly(ws, s[i], id, w),
        },
    decreases s.len(),
{
    if s.len() > 0 {
        let d = s.drop_last();
        lemma_direct(ws, d, id);
        assert(s[s.len() - 1] == s.last());
        match direct_version(ws, s, id) {
            Some(v) => {
                if !selects_directly(ws, s.last(), id, v) {
                    let i = choose|i: int|
                        0 <= i < d.len() && selects_directly(ws, #[trigger] d[i], id, v);
                    assert(s[i] == d[i]);
                }
            },
            None => {
                assert forall|i: int, w: VersionParts| 0 <= i < s.len() implies !#[trigger] selects_directly(
                    ws,
                    s[i],
                    id,
                    w,
                ) by {
                    if i < d.len() {
                        assert(!selects_directly(ws, d[i], id, w));
                    }
                }
            },
        }
    }
}

/// A dependency that names a path, one of the workspace, and the standard library do not come from
/// elsewhere.
pub proof fn law_local_dependencies_stay_local(
    ws: &WorkspaceInfo,
    dep: Seq<char>,
    spec: DependencySpecView,
    i: int,
)
    ensures
        spec matches DependencySpecView::Detailed { version: _, branch: _, rev: _, path } && path is Some
            ==> !is_remote(ws, dep, spec),
        0 <= i < ws.packages.entries@.len() && ws.packages.entries@[i].0@ == dep ==> !is_remote(
            ws,
            dep,
            spec,
        ),
        dep == seq!['s', 't', 'd', 'l', 'i', 'b'] ==> !is_remote(ws, dep, spec),
{
    reveal_strlit("stdlib");
    assert("stdlib"@ =~= seq!['s', 't', 'd', 'l', 'i', 'b']);
    if 0 <= i < ws.packages.entries@.len() && ws.packages.entries@[i].0@ == dep {
        assert(crate::workspace::covers(ws.packages.entries@[i].0@, dep));
    }
}

// ---------------------------------------------------------------------------------------------
// Directories

/// A dependency that names a path stands there, as seen from the manifest. Any other one of the
/// workspace stands where the workspace has the package. Of no other a directory is known.
pub proof fn law_local_directories(
    ws: &WorkspaceInfo,
    base_dir: Seq<char>,
    url: Seq<char>,
    spec: &DependencySpec,
)
    ensures
        ({
            let named = match *spec {
                DependencySpec::Detailed(d) => crate::text::opt_text(d.path),
                DependencySpec::Version(_) => None,
            };
            let member = find(ws.packages.entries@, url);
            let r = known_directory(ws, base_dir, url, spec);
            &&& named is Some ==> r is Some && (!is_absolute(named->Some_0) && !starts_here(
                named->Some_0,
            ) ==> components(r->Some_0) == components(base_dir) + components(named->Some_0))
            &&& named is Some && is_absolute(named->Some_0) ==> r == named
            &&& named is None && member is Some ==> r is Some && (!is_absolute(
                member->Some_0.rel_path@,
            ) && !starts_here(member->Some_0.rel_path@) ==> components(r->Some_0) == components(ws.root@)
                + components(member->Some_0.rel_path@))
            &&& named is None && member is None ==> r is None
        }),
{
    let named = match *spec {
        DependencySpec::Detailed(d) => crate::text::opt_text(d.path),
        DependencySpec::Version(_) => None,
    };
    if let Some(p) = named {
        if !is_absolute(p) && !starts_here(p) {
            law_join_appends_components(base_dir, p);
        }
    } else if let Some(p) = find(ws.packages.entries@, url) {
        if !is_absolute(p.rel_path@) && !starts_here(p.rel_path@) {
            law_join_appends_components(ws.root@, p.rel_path@);
        }
    }
}

/// The standard library of a workspace stands in `.pcb/stdlib` below its root.
pub proof fn law_standard_library_is_local(root: Seq<char>)
    ensures
        components(stdlib_root_of(root)) == components(root) + seq![
            seq!['.', 'p', 'c', 'b'],
            seq!['s', 't', 'd', 'l', 'i', 'b'],
        ],
        lies_under(stdlib_root_of(root), root),
{
    reveal_strlit(".pcb");
    reveal_strlit("stdlib");
    let a = seq!['.', 'p', 'c', 'b'];
    let b = seq!['s', 't', 'd', 'l', 'i', 'b'];
    assert(".pcb"@ =~= a);
    assert("stdlib"@ =~= b);
    lemma_name_joined(root, a);
    lemma_name_joined(path_joined(root, a), b);
    assert(components(root).push(a).push(b) =~= components(root) + seq![a, b]);
    assert(components(stdlib_root_of(root)).take(components(root).len() as int) =~= components(root));
}

proof fn lemma_name_joined(base: Seq<char>, name: Seq<char>)
    requires
        is_plain_component(name),
    ensures
        components(path_joined(base, name)) == components(base).push(name),
{
    law_joined_components(seq![name]);
    law_join_appends_components(base, name);
    assert(joined(seq![name], seq!['/']) == name);
    assert(components(base) + seq![name] =~= components(base).push(name));
}

/// A directory is that of a dependency exactly where it is called after a version and stands in a
/// directory that ends in the dependency's URL; the version then is that name.
pub proof fn law_dependency_directory_names_its_version(url: Seq<char>, root: Seq<char>)
    ensures
        ({
            let c = components(root);
            let u = components(url);
            let n = c.len() as int;
            match coordinate_of(url, root) {
                Some(t) => n > u.len() && t == url + seq!['@'] + c.last() && c.subrange(
                    n - 1 - u.len(),
                    n - 1,
                ) == u,
                None => n <= u.len() || c.subrange(n - 1 - u.len(), n - 1) != u || file_name_of(
                    root,
                ) is None,
            }
        }),
{
    reveal_strlit("@");
    assert("@"@ =~= seq!['@']);
    law_parent_drops_last_component(root);
    let c = components(root);
    let u = components(url);
    let n = c.len() as int;
    if let Some(dir) = parent_of(root) {
        let d = components(dir);
        assert(d == c.drop_last());
        if u.len() <= d.len() {
            assert(d.skip(d.len() - u.len()) =~= c.subrange(n - 1 - u.len(), n - 1));
        }
    }
}

/// The root of a package of the workspace is its directory, whatever the dependencies say; that of
/// `stdlib` is the standard library of the workspace. Any other root is the directory of a dependency
/// with that coordinate.
pub proof fn law_package_roots(
    ws: &WorkspaceInfo,
    resolution: Seq<(String, FrozenResolutionMap)>,
    q: Seq<char>,
)
    ensures
        ({
            let member = find(ws.packages.entries@, q);
            let r = package_root_of(ws, resolution, q);
            &&& member is Some && q != LOCAL_WORKSPACE_ROOT_URL@ ==> r == Some(
                member->Some_0.dir_of(ws.root@),
            )
            &&& q == LOCAL_WORKSPACE_ROOT_URL@ && !has_root_package(ws) ==> r == Some(ws.root@)
            &&& member is None && q == STDLIB_MODULE_PATH@ && q != LOCAL_WORKSPACE_ROOT_URL@ ==> r
                == Some(ws.stdlib_dir_of())
            &&& member is None && q != STDLIB_MODULE_PATH@ && q != LOCAL_WORKSPACE_ROOT_URL@ ==> match r {
                Some(root) => exists|i: int, j: int, k: int| #[trigger]
                    stands_in(resolution, i, j, k, q, root),
                None => forall|i: int, j: int, k: int, root: Seq<char>| !#[trigger]
                    stands_in(resolution, i, j, k, q, root),
            }
        }),
{
    lemma_dependency_root(resolution, q);
}

/// Whether a dependency of a package of a resolution has a coordinate and a root.
pub open spec fn stands_in(
    s: Seq<(String, FrozenResolutionMap)>,
    i: int,
    j: int,
    k: int,
    q: Seq<char>,
    root: Seq<char>,
) -> bool {
    &&& 0 <= i < s.len()
    &&& 0 <= j < s[i].1.packages.entries@.len()
    &&& 0 <= k < s[i].1.packages.entries@[j].1.deps.entries@.len()
    &&& ({
        let e = s[i].1.packages.entries@[j].1.deps.entries@[k];
        coordinate_of(e.0@, e.1@) == Some(q) && e.1@ == root
    })
}

proof fn lemma_first_root(s: Seq<(String, String)>, q: Seq<char>)
    ensures
        match first_root(s, q) {
            Some(root) => exists|k: int|
                0 <= k < s.len() && coordinate_of((#[trigger] s[k]).0@, s[k].1@) == Some(q) && s[k].1@
                    == root,
            None => forall|k: int|
                0 <= k < s.len() ==> coordinate_of((#[trigger] s[k]).0@, s[k].1@) != Some(q),
        },
    decreases s.len(),
{
    if s.len() > 0 {
        let d = s.drop_last();
        lemma_first_root(d, q);
        assert(s[s.len() - 1] == s.last());
        if first_root(d, q) is Some {
            let k = choose|k: int|
                0 <= k < d.len() && coordinate_of((#[trigger] d[k]).0@, d[k].1@) == Some(q) && d[k].1@
                    == first_root(d, q)->Some_0;
            assert(s[k] == d[k]);
        } else if first_root(s, q) is None {
            assert forall|k: int| 0 <= k < s.len() implies coordinate_of((#[trigger] s[k]).0@, s[k].1@)
                != Some(q) by {
                if k < d.len() {
                    assert(d[k] == s[k]);
                }
            }
        }
    }
}

proof fn lemma_first_root_in(
    s: Seq<(crate::map::PathKey, crate::frozen::FrozenPackage)>,
    q: Seq<char>,
)
    ensures
        match crate::frozen::first_root_in(s, q) {
            Some(root) => exists|j: int, k: int|
                #![trigger s[j].1.deps.entries@[k]]
                0 <= j < s.len() && 0 <= k < s[j].1.deps.entries@.len() && coordinate_of(
                    s[j].1.deps.entries@[k].0@,
                    s[j].1.deps.entries@[k].1@,
                ) == Some(q) && s[j].1.deps.entries@[k].1@ == root,
            None => forall|j: int, k: int|
                #![trigger s[j].1.deps.entries@[k]]
                0 <= j < s.len() && 0 <= k < s[j].1.deps.entries@.len() ==> coordinate_of(
                    s[j].1.deps.entries@[k].0@,
                    s[j].1.deps.entries@[k].1@,
                ) != Some(q),
        },
    decreases s.len(),
{
    if s.len() > 0 {
        let d = s.drop_last();
        lemma_first_root_in(d, q);
        let last = s.last().1.deps.entries@;
        lemma_first_root(last, q);
        assert(s[s.len() - 1] == s.last());
        let b = crate::frozen::first_root_in(d, q);
        if b is Some {
            let (j, k) = choose|j: int, k: int|
                #![trigger d[j].1.deps.entries@[k]]
                0 <= j < d.len() && 0 <= k < d[j].1.deps.entries@.len() && coordinate_of(
                    d[j].1.deps.entries@[k].0@,
                    d[j].1.deps.entries@[k].1@,
                ) == Some(q) && d[j].1.deps.entries@[k].1@ == b->Some_0;
            assert(s[j].1.deps.entries@[k] == d[j].1.deps.entries@[k]);
        } else if first_root(last, q) is Some {
            let k = choose|k: int|
                0 <= k < last.len() && coordinate_of((#[trigger] last[k]).0@, last[k].1@) == Some(q)
                    && last[k].1@ == first_root(last, q)->Some_0;
            assert(s[s.len() - 1].1.deps.entries@[k] == last[k]);
        } else {
            assert forall|j: int, k: int|
                #![trigger s[j].1.deps.entries@[k]]
                0 <= j < s.len() && 0 <= k < s[j].1.deps.entries@.len() implies coordinate_of(
                s[j].1.deps.entries@[k].0@,
                s[j].1.deps.entries@[k].1@,
            ) != Some(q) by {
                if j < d.len() {
                    assert(d[j].1.deps.entries@[k] == s[j].1.deps.entries@[k]);
                } else {
                    assert(last[k] == s[j].1.deps.entries@[k]);
                }
            }
        }
    }
}

proof fn lemma_dependency_root(s: Seq<(String, FrozenResolutionMap)>, q: Seq<char>)
    ensures
        match crate::frozen::dependency_root(s, q) {
            Some(root) => exists|i: int, j: int, k: int| #[trigger] stands_in(s, i, j, k, q, root),
            None => forall|i: int, j: int, k: int, root: Seq<char>| !#[trigger]
                stands_in(s, i, j, k, q, root),
        },
    decreases s.len(),
{
    if s.len() > 0 {
        let d = s.drop_last();
        lemma_dependency_root(d, q);
        let last = s.last().1.packages.entries@;
        lemma_first_root_in(last, q);
        assert(s[s.len() - 1] == s.last());
        let b = crate::frozen::dependency_root(d, q);
        let c = crate::frozen::first_root_in(last, q);
        if b is Some {
            let (i, j, k) = choose|i: int, j: int, k: int| #[trigger]
                stands_in(d, i, j, k, q, b->Some_0);
            assert(s[i] == d[i]);
            assert(stands_in(s, i, j, k, q, b->Some_0));
        } else if c is Some {
            let (j, k) = choose|j: int, k: int|
                #![trigger last[j].1.deps.entries@[k]]
                0 <= j < last.len() && 0 <= k < last[j].1.deps.entries@.len() && coordinate_of(
                    last[j].1.deps.entries@[k].0@,
                    last[j].1.deps.entries@[k].1@,
                ) == Some(q) && last[j].1.deps.entries@[k].1@ == c->Some_0;
            assert(stands_in(s, s.len() - 1, j, k, q, c->Some_0));
        } else {
            assert forall|i: int, j: int, k: int, root: Seq<char>| !#[trigger]
                stands_in(s, i, j, k, q, root) by {
                if stands_in(s, i, j, k, q, root) {
                    if i < d.len() {
                        assert(d[i] == s[i]);
                        assert(stands_in(d, i, j, k, q, root));
                    } else {
                        assert(last[j].1.deps.entries@[k] == s[i].1.packages.entries@[j].1.deps.entries@[k]);
                    }
                }
            }
        }
    }
}

/// A path in the global cache has its place in the cache of the workspace, under the same names; any
/// other path stays.
pub proof fn law_cache_is_local(ws: &WorkspaceInfo, path: Seq<char>)
    requires
        is_absolute(ws.cache_dir@),
    ensures
        lies_under(path, ws.cache_dir@) ==> components(cached_at(ws, path)) == components(
            path_joined(ws.root@, ".pcb/cache"@),
        ) + components(path).skip(components(ws.cache_dir@).len() as int),
        !lies_under(path, ws.cache_dir@) ==> cached_at(ws, path) == path,
{
    if lies_under(path, ws.cache_dir@) {
        let k = components(ws.cache_dir@).len() as int;
        crate::resolution_laws::lemma_absolute_components(ws.cache_dir@);
        lemma_tail_components_of(path, k);
        let rel = relative_to(path, ws.cache_dir@)->Some_0;
        law_join_appends_components(path_joined(ws.root@, ".pcb/cache"@), rel);
    }
}

proof fn lemma_absolute_components(p: Seq<char>)
    requires
        is_absolute(p),
    ensures
        components(p).len() > 0,
{
    crate::path::lemma_spans(p);
}

/// The URL of a file of a package is that of the package and the path of the file below the root of
/// the package.
pub proof fn law_file_url(
    url: Seq<char>,
    first: Seq<Seq<char>>,
    second: Seq<Seq<char>>,
    file: Seq<char>,
    names: Seq<Seq<char>>,
)
    requires
        components(file) == first + names,
        first.len() > 0,
        names.len() > 0,
    ensures
        exists|rel: Seq<char>|
            components(rel) == names && #[trigger] (url + seq!['/'] + rel) == file_url(
                url,
                first,
                second,
                file,
            ),
{
    reveal_strlit("/");
    assert("/"@ =~= seq!['/']);
    assert((first + names).take(first.len() as int) =~= first);
    assert((first + names).skip(first.len() as int) =~= names);
    lemma_tail_components_of(file, first.len() as int);
    let rel = crate::path::tail_text(file, first.len() as int);
    assert(components(rel) == names);
    assert(rel.len() > 0) by {
        if rel.len() == 0 {
            crate::path::lemma_spans(rel);
        }
    }
    assert(url + seq!['/'] + rel == file_url(url, first, second, file));
}

} // verus!
