//! What holds of the tables of packages, and of versions.

use vstd::prelude::*;

use crate::convert::{with_all_positions, with_position, with_positions, Model, ModuleValue};
use crate::convert::PositionEntry;
use crate::frozen::{first_root, first_root_over, last_coordinate, last_own_root, last_url_at};
use crate::frozen::{placed_at, stands_at, FrozenPackage, FrozenResolutionMap};
use crate::lang::value::Item;
use crate::map::{PathKey, SortedMap};
use crate::path::components;
use crate::stdlib::{source_matches_target, StdlibFile};
use crate::text::opt_text;
use crate::version::{version_before, VersionParts};
use crate::workspace::{WorkspaceInfo, WorkspacePackage};

verus! {

/// A version is before another by its first number that differs; without one, a pre-release decides, and
/// no version is before itself.
pub proof fn law_order_of_versions(a: VersionParts, b: VersionParts)
    ensures
        a.0 < b.0 ==> version_before(a, b) && !version_before(b, a),
        a.0 == b.0 && a.1 < b.1 ==> version_before(a, b) && !version_before(b, a),
        a.0 == b.0 && a.1 == b.1 && a.2 < b.2 ==> version_before(a, b) && !version_before(b, a),
        a.0 == b.0 && a.1 == b.1 && a.2 == b.2 && a.3 != b.3 ==> version_before(a, b) == (
        crate::version::prerelease_order(a.3, b.3) == Some(true)),
{
}

/// The last coordinate whose root is a path counts.
pub proof fn law_last_coordinate(s: Seq<(String, String)>, q: Seq<Seq<char>>)
    ensures
        match last_coordinate(s, q) {
            Some(c) => exists|i: int|
                0 <= i < s.len() && (#[trigger] s[i]).0@ == c && components(s[i].1@) == q && forall|
                    k: int,
                |
                    i < k < s.len() ==> components((#[trigger] s[k]).1@) != q,
            None => forall|i: int| 0 <= i < s.len() ==> components((#[trigger] s[i]).1@) != q,
        },
    decreases s.len(),
{
    if s.len() > 0 {
        let d = s.drop_last();
        let n = s.len() - 1;
        assert(s[n] == s.last());
        law_last_coordinate(d, q);
        if components(s.last().1@) != q {
            match last_coordinate(d, q) {
                Some(c) => {
                    let i = choose|i: int|
                        0 <= i < d.len() && (#[trigger] d[i]).0@ == c && components(d[i].1@) == q
                            && forall|k: int|
                            i < k < d.len() ==> components((#[trigger] d[k]).1@) != q;
                    assert(s[i] == d[i]);
                    assert forall|k: int| i < k < s.len() implies components((#[trigger] s[k]).1@) != q by {
                        if k < n {
                            assert(s[k] == d[k]);
                        }
                    }
                },
                None => {
                    assert forall|i: int| 0 <= i < s.len() implies components((#[trigger] s[i]).1@) != q by {
                        if i < n {
                            assert(s[i] == d[i]);
                        }
                    }
                },
            }
        }
    }
}

/// The last package of the workspace whose directory is a path counts.
pub proof fn law_last_package(s: Seq<(String, WorkspacePackage)>, q: Seq<Seq<char>>)
    ensures
        match last_url_at(s, q) {
            Some(c) => exists|i: int|
                0 <= i < s.len() && (#[trigger] s[i]).0@ == c && components(s[i].1.rel_path@) == q
                    && forall|k: int|
                    i < k < s.len() ==> components((#[trigger] s[k]).1.rel_path@) != q,
            None => forall|i: int|
                0 <= i < s.len() ==> components((#[trigger] s[i]).1.rel_path@) != q,
        },
    decreases s.len(),
{
    if s.len() > 0 {
        let d = s.drop_last();
        let n = s.len() - 1;
        assert(s[n] == s.last());
        law_last_package(d, q);
        if components(s.last().1.rel_path@) != q {
            match last_url_at(d, q) {
                Some(c) => {
                    let i = choose|i: int|
                        0 <= i < d.len() && (#[trigger] d[i]).0@ == c && components(d[i].1.rel_path@)
                            == q && forall|k: int|
                            i < k < d.len() ==> components((#[trigger] d[k]).1.rel_path@) != q;
                    assert(s[i] == d[i]);
                    assert forall|k: int| i < k < s.len() implies components(
                        (#[trigger] s[k]).1.rel_path@,
                    ) != q by {
                        if k < n {
                            assert(s[k] == d[k]);
                        }
                    }
                },
                None => {
                    assert forall|i: int| 0 <= i < s.len() implies components(
                        (#[trigger] s[i]).1.rel_path@,
                    ) != q by {
                        if i < n {
                            assert(s[i] == d[i]);
                        }
                    }
                },
            }
        }
    }
}

/// The last root package that stands at a path in its own resolution counts.
pub proof fn law_last_root_package(s: Seq<(String, FrozenResolutionMap)>, q: Seq<Seq<char>>)
    ensures
        match last_own_root(s, q) {
            Some(c) => exists|i: int|
                0 <= i < s.len() && (#[trigger] s[i]).0@ == c && stands_at(s[i].0@, s[i].1, q)
                    && forall|k: int|
                    i < k < s.len() ==> !stands_at((#[trigger] s[k]).0@, s[k].1, q),
            None => forall|i: int|
                0 <= i < s.len() ==> !stands_at((#[trigger] s[i]).0@, s[i].1, q),
        },
    decreases s.len(),
{
    if s.len() > 0 {
        let d = s.drop_last();
        let n = s.len() - 1;
        assert(s[n] == s.last());
        law_last_root_package(d, q);
        if !stands_at(s.last().0@, s.last().1, q) {
            match last_own_root(d, q) {
                Some(c) => {
                    let i = choose|i: int|
                        0 <= i < d.len() && (#[trigger] d[i]).0@ == c && stands_at(d[i].0@, d[i].1, q)
                            && forall|k: int|
                            i < k < d.len() ==> !stands_at((#[trigger] d[k]).0@, d[k].1, q);
                    assert(s[i] == d[i]);
                    assert forall|k: int| i < k < s.len() implies !stands_at(
                        (#[trigger] s[k]).0@,
                        s[k].1,
                        q,
                    ) by {
                        if k < n {
                            assert(s[k] == d[k]);
                        }
                    }
                },
                None => {
                    assert forall|i: int| 0 <= i < s.len() implies !stands_at(
                        (#[trigger] s[i]).0@,
                        s[i].1,
                        q,
                    ) by {
                        if i < n {
                            assert(s[i] == d[i]);
                        }
                    }
                },
            }
        }
    }
}

/// The first table of dependencies that has a coordinate gives its root.
pub proof fn law_first_table(maps: Seq<&SortedMap<String, String>>, q: Seq<char>)
    ensures
        match first_root_over(maps, q) {
            Some(root) => exists|i: int|
                0 <= i < maps.len() && first_root((#[trigger] maps[i]).entries@, q) == Some(root)
                    && forall|k: int|
                    0 <= k < i ==> first_root((#[trigger] maps[k]).entries@, q) is None,
            None => forall|i: int|
                0 <= i < maps.len() ==> first_root((#[trigger] maps[i]).entries@, q) is None,
        },
    decreases maps.len(),
{
    if maps.len() > 0 {
        let d = maps.drop_last();
        let n = maps.len() - 1;
        assert(maps[n] == maps.last());
        law_first_table(d, q);
        match first_root_over(d, q) {
            Some(root) => {
                let i = choose|i: int|
                    0 <= i < d.len() && first_root((#[trigger] d[i]).entries@, q) == Some(root)
                        && forall|k: int|
                        0 <= k < i ==> first_root((#[trigger] d[k]).entries@, q) is None;
                assert(maps[i] == d[i]);
                assert forall|k: int| 0 <= k < i implies first_root((#[trigger] maps[k]).entries@, q) is None by {
                    assert(maps[k] == d[k]);
                }
            },
            None => {
                assert forall|k: int| 0 <= k < n implies first_root((#[trigger] maps[k]).entries@, q) is None by {
                    assert(maps[k] == d[k]);
                }
            },
        }
    }
}

/// A package that is moved stands at its new root with its identity and its parts, and with the new
/// directories of its dependencies, in their order; of several at one root the last counts.
pub proof fn law_package_is_moved(
    s: Seq<(PathKey, FrozenPackage)>,
    roots: Seq<String>,
    dirs: Seq<Vec<String>>,
    i: int,
)
    requires
        0 <= i < s.len(),
        roots.len() == s.len(),
        dirs.len() == s.len(),
        forall|k: int| i < k < s.len() ==> components((#[trigger] roots[k])@) != components(roots[i]@),
    ensures
        ({
            let r = placed_at(s, roots, dirs, components(roots[i]@));
            &&& r is Some
            &&& r->Some_0.identity == s[i].1.identity@
            &&& r->Some_0.deps.len() == s[i].1.deps.entries@.len()
            &&& forall|k: int|
                0 <= k < s[i].1.deps.entries@.len() && k < dirs[i]@.len() ==> #[trigger] r->Some_0.deps[k]
                    == (s[i].1.deps.entries@[k].0@, dirs[i]@[k]@)
            &&& r->Some_0.parts == crate::config::part_views(s[i].1.parts@)
        }),
    decreases s.len(),
{
    let n = s.len() - 1;
    if i < n {
        let d = s.drop_last();
        assert(d[i] == s[i]);
        assert(components(roots[n]@) != components(roots[i]@));
        lemma_placed_in_front(d, roots, dirs, roots.drop_last(), dirs.drop_last(), components(roots[i]@));
        let r2 = roots.drop_last();
        let d2 = dirs.drop_last();
        assert(r2[i] == roots[i] && d2[i] == dirs[i]);
        assert forall|k: int| i < k < d.len() implies components((#[trigger] r2[k])@) != components(
            r2[i]@,
        ) by {
            assert(r2[k] == roots[k]);
        }
        law_package_is_moved(d, r2, d2, i);
    }
}

proof fn lemma_placed_in_front(
    s: Seq<(PathKey, FrozenPackage)>,
    roots: Seq<String>,
    dirs: Seq<Vec<String>>,
    roots2: Seq<String>,
    dirs2: Seq<Vec<String>>,
    q: Seq<Seq<char>>,
)
    requires
        s.len() <= roots2.len() <= roots.len(),
        s.len() <= dirs2.len() <= dirs.len(),
        forall|k: int| 0 <= k < s.len() ==> #[trigger] roots2[k] == roots[k],
        forall|k: int| 0 <= k < s.len() ==> #[trigger] dirs2[k] == dirs[k],
    ensures
        placed_at(s, roots, dirs, q) == placed_at(s, roots2, dirs2, q),
    decreases s.len(),
{
    if s.len() > 0 {
        assert(roots2[s.len() - 1] == roots[s.len() - 1]);
        assert(dirs2[s.len() - 1] == dirs[s.len() - 1]);
        lemma_placed_in_front(s.drop_last(), roots, dirs, roots2, dirs2, q);
    }
}

/// Positions are taken one after the other, each with where its path has moved to, and module by
/// module.
pub proof fn law_positions_in_turn(
    m: Model,
    items: Seq<Item>,
    v: ModuleValue,
    entries: Seq<PositionEntry>,
    e: PositionEntry,
    remapped: Seq<Option<String>>,
    modules: Seq<ModuleValue>,
    all: Seq<Vec<Option<String>>>,
)
    ensures
        with_positions(m, items, v, Seq::<PositionEntry>::empty(), remapped) == m,
        with_positions(m, items, v, entries.push(e), remapped) == with_position(
            with_positions(m, items, v, entries, remapped),
            items,
            v,
            e,
            opt_text(remapped[entries.len() as int]),
        ),
        with_all_positions(m, items, Seq::<ModuleValue>::empty(), all) == m,
        with_all_positions(m, items, modules.push(v), all) == with_positions(
            with_all_positions(m, items, modules, all),
            items,
            v,
            v.positions@,
            all[modules.len() as int]@,
        ),
{
    assert(entries.push(e).drop_last() =~= entries);
    assert(entries.push(e).last() == e);
    assert(modules.push(v).drop_last() =~= modules);
    assert(modules.push(v).last() == v);
}

/// The copy of the standard library matches its source exactly where both have the same files with the
/// same contents.
pub proof fn law_copy_matches_source(a: &Vec<StdlibFile>, b: &Vec<StdlibFile>, r: bool)
    requires
        call_ensures(source_matches_target, (a, b), r),
    ensures
        a@.len() != b@.len() ==> !r,
        (exists|i: int|
            0 <= i < a@.len() && i < b@.len() && (#[trigger] a@[i]).contents@ != b@[i].contents@) ==> !r,
        (exists|i: int|
            0 <= i < a@.len() && i < b@.len() && components((#[trigger] a@[i]).path@) != components(
                b@[i].path@,
            )) ==> !r,
        a@ == b@ ==> r,
{
}

/// The root of a package of the workspace is known by the URL of the package, that of the standard
/// library by the name of the library, and the root of the workspace by a name of its own where no
/// package stands there; no other root is known.
pub proof fn law_url_of_root(
    ws: &WorkspaceInfo,
    root: Seq<char>,
    stdlib: Seq<char>,
    dirs: Seq<Seq<char>>,
    workspace_root: Seq<char>,
)
    requires
        dirs.len() == ws.packages.entries@.len(),
    ensures
        ({
            let r = crate::resolved::root_url(ws, root, stdlib, dirs, workspace_root);
            &&& components(root) == components(stdlib) ==> r == Some("stdlib"@)
            &&& components(root) != components(stdlib) ==> match r {
                Some(url) => (exists|i: int|
                    0 <= i < dirs.len() && components(#[trigger] dirs[i]) == components(root)
                        && ws.packages.entries@[i].0@ == url) || (url == "workspace"@ && components(
                    root,
                ) == components(workspace_root)),
                None => forall|i: int|
                    0 <= i < dirs.len() ==> components(#[trigger] dirs[i]) != components(root),
            }
        }),
{
    lemma_at_path(crate::map::keys_of(ws.packages.entries@), dirs, root);
}

proof fn lemma_at_path(keys: Seq<Seq<char>>, dirs: Seq<Seq<char>>, path: Seq<char>)
    requires
        keys.len() == dirs.len(),
    ensures
        match crate::resolved::first_at_path(keys, dirs, path) {
            Some(url) => exists|i: int|
                0 <= i < dirs.len() && components(#[trigger] dirs[i]) == components(path) && keys[i]
                    == url,
            None => forall|i: int|
                0 <= i < dirs.len() ==> components(#[trigger] dirs[i]) != components(path),
        },
    decreases keys.len(),
{
    if keys.len() > 0 {
        let k = keys.skip(1);
        let d = dirs.skip(1);
        lemma_at_path(k, d, path);
        if components(dirs[0]) != components(path) {
            match crate::resolved::first_at_path(k, d, path) {
                Some(url) => {
                    let i = choose|i: int|
                        0 <= i < d.len() && components(#[trigger] d[i]) == components(path) && k[i]
                            == url;
                    assert(dirs[i + 1] == d[i] && keys[i + 1] == k[i]);
                },
                None => {
                    assert forall|i: int| 0 <= i < dirs.len() implies components(#[trigger] dirs[i])
                        != components(path) by {
                        if i > 0 {
                            assert(dirs[i] == d[i - 1]);
                        }
                    }
                },
            }
        }
    }
}

/// A schematic lacks a name exactly where a net that is not to be left open has none.
pub proof fn law_nets_must_be_named(nets: Map<u64, crate::convert::NetInfoView>)
    ensures
        crate::convert::lacks_name(nets) <==> exists|id: u64| #[trigger]
            nets.dom().contains(id) && nets[id].kind != Some("NotConnected"@) && nets[id].name is None,
{
}

} // verus!
