//! What holds of the workspaces, packages and manifests that are found.

use vstd::prelude::*;

use crate::config::{alias_target, kept, series, with_last, DependencySpec, PcbToml};
use crate::discovery::{children, chosen_root, declared_base, declared_preferred, descends};
use crate::discovery::{first_explicit, makes_package, manifest_errors, package_from, slashed};
use crate::discovery::{stands_under, start_dir_of, with_manifest, zen_files, FoundManifest};
use crate::discovery::ManifestAt;
use crate::map::find;
use crate::path::{components, extension_of, file_name_of, law_join_appends_components};
use crate::path::{law_joined_components, law_parent_drops_last_component, path_joined, relative_to};
use crate::text::{after_last, cut_last, decimal, first_at, joined, law_decimal_round_trip};
use crate::text::{law_join_split, lemma_decimal, lemma_first_at};
use crate::workspace::{covers, without_board, WorkspacePackage};
use crate::{bare_version, relaxed_version, shorthand_version, DirEntry};

verus! {

// ---------------------------------------------------------------------------------------------
// The root

proof fn lemma_no_candidate(dirs: Seq<Seq<char>>, manifests: Seq<ManifestAt>)
    requires
        forall|i: int| 0 <= i < manifests.len() ==> !((#[trigger] manifests[i]) is Present),
    ensures
        with_manifest(dirs, manifests).len() == 0,
    decreases manifests.len(),
{
    if manifests.len() > 0 {
        let d = manifests.drop_last();
        assert(!(manifests[manifests.len() - 1] is Present));
        assert forall|i: int| 0 <= i < d.len() implies !((#[trigger] d[i]) is Present) by {
            assert(d[i] == manifests[i]);
        }
        lemma_no_candidate(dirs, d);
    }
}

proof fn lemma_first_candidate(dirs: Seq<Seq<char>>, manifests: Seq<ManifestAt>, i: int)
    requires
        0 <= i < manifests.len() <= dirs.len(),
        manifests[i] is Present,
        forall|k: int| 0 <= k < i ==> !((#[trigger] manifests[k]) is Present),
    ensures
        with_manifest(dirs, manifests).len() > 0,
        with_manifest(dirs, manifests)[0] == (dirs[i], manifests[i]->Present_0),
    decreases manifests.len(),
{
    let d = manifests.drop_last();
    if i < d.len() {
        assert(d[i] == manifests[i]);
        assert forall|k: int| 0 <= k < i implies !((#[trigger] d[k]) is Present) by {
            assert(d[k] == manifests[k]);
        }
        lemma_first_candidate(dirs, d, i);
    } else {
        assert forall|k: int| 0 <= k < d.len() implies !((#[trigger] d[k]) is Present) by {
            assert(d[k] == manifests[k]);
        }
        lemma_no_candidate(dirs, d);
    }
}

proof fn lemma_none_declares(dirs: Seq<Seq<char>>, manifests: Seq<ManifestAt>)
    requires
        forall|i: int| 0 <= i < manifests.len() ==> #[trigger] manifests[i] != ManifestAt::Present(true),
    ensures
        first_explicit(with_manifest(dirs, manifests)) == with_manifest(dirs, manifests).len(),
    decreases manifests.len(),
{
    if manifests.len() > 0 {
        let d = manifests.drop_last();
        let last = manifests[manifests.len() - 1];
        assert(last != ManifestAt::Present(true));
        assert forall|i: int| 0 <= i < d.len() implies #[trigger] d[i] != ManifestAt::Present(true) by {
            assert(d[i] == manifests[i]);
        }
        lemma_none_declares(dirs, d);
        if last is Present {
            lemma_first_explicit_of_push(
                with_manifest(dirs, d),
                (dirs[d.len() as int], last->Present_0),
            );
        }
    }
}

proof fn lemma_first_declares(dirs: Seq<Seq<char>>, manifests: Seq<ManifestAt>, i: int)
    requires
        0 <= i < manifests.len() <= dirs.len(),
        manifests[i] == ManifestAt::Present(true),
        forall|k: int| 0 <= k < i ==> #[trigger] manifests[k] != ManifestAt::Present(true),
    ensures
        ({
            let c = with_manifest(dirs, manifests);
            first_explicit(c) < c.len() && c[first_explicit(c)].0 == dirs[i]
        }),
    decreases manifests.len(),
{
    let d = manifests.drop_last();
    let b = with_manifest(dirs, d);
    let last = manifests[manifests.len() - 1];
    if i < d.len() {
        assert(d[i] == manifests[i]);
        assert forall|k: int| 0 <= k < i implies #[trigger] d[k] != ManifestAt::Present(true) by {
            assert(d[k] == manifests[k]);
        }
        lemma_first_declares(dirs, d, i);
        lemma_first_explicit_push(b);
        if last is Present {
            lemma_first_explicit_of_push(b, (dirs[d.len() as int], last->Present_0));
        }
    } else {
        assert forall|k: int| 0 <= k < d.len() implies #[trigger] d[k] != ManifestAt::Present(true) by {
            assert(d[k] == manifests[k]);
        }
        lemma_none_declares(dirs, d);
        lemma_first_explicit_of_push(b, (dirs[i], true));
    }
}

proof fn lemma_first_explicit_push(c: Seq<(Seq<char>, bool)>)
    ensures
        0 <= first_explicit(c) <= c.len(),
        first_explicit(c) < c.len() ==> c[first_explicit(c)].1,
        forall|i: int| 0 <= i < first_explicit(c) ==> !(#[trigger] c[i]).1,
    decreases c.len(),
{
    if c.len() > 0 && !c[0].1 {
        let t = c.skip(1);
        lemma_first_explicit_push(t);
        assert forall|i: int| 0 <= i < first_explicit(c) implies !(#[trigger] c[i]).1 by {
            if i > 0 {
                assert(t[i - 1] == c[i]);
            }
        }
    }
}

proof fn lemma_first_explicit_of_push(b: Seq<(Seq<char>, bool)>, x: (Seq<char>, bool))
    ensures
        first_explicit(b.push(x)) == (if first_explicit(b) < b.len() {
            first_explicit(b)
        } else if x.1 {
            b.len() as int
        } else {
            b.len() as int + 1
        }),
{
    let c = b.push(x);
    lemma_first_explicit_push(b);
    lemma_first_explicit_push(c);
    let e = first_explicit(b);
    let f = first_explicit(c);
    if e < b.len() {
        assert(c[e] == b[e]);
        if f < e {
            assert(c[f] == b[f]);
        }
    } else {
        if f < b.len() {
            assert(b[f] == c[f]);
        } else {
            assert(c[b.len() as int] == x);
        }
    }
}

/// The root of a workspace is the nearest directory whose manifest declares a workspace; where none
/// does, the nearest with a manifest; and where there is none, the start.
pub proof fn law_nearest_workspace_is_the_root(dirs: Seq<Seq<char>>, manifests: Seq<ManifestAt>, start: Seq<char>)
    requires
        manifests.len() <= dirs.len(),
    ensures
        ({
            let root = chosen_root(with_manifest(dirs, manifests), start);
            &&& forall|i: int|
                0 <= i < manifests.len() && #[trigger] manifests[i] == ManifestAt::Present(true) && (
                forall|k: int|
                    0 <= k < i ==> #[trigger] manifests[k] != ManifestAt::Present(true)) ==> root
                    == dirs[i]
            &&& (forall|k: int|
                0 <= k < manifests.len() ==> #[trigger] manifests[k] != ManifestAt::Present(true))
                ==> forall|i: int|
                0 <= i < manifests.len() && (#[trigger] manifests[i]) is Present && (forall|k: int|
                    0 <= k < i ==> !((#[trigger] manifests[k]) is Present)) ==> root == dirs[i]
            &&& (forall|k: int|
                0 <= k < manifests.len() ==> !((#[trigger] manifests[k]) is Present)) ==> root == start
        }),
{
    let c = with_manifest(dirs, manifests);
    let root = chosen_root(c, start);
    lemma_first_explicit_push(c);
    assert forall|i: int|
        0 <= i < manifests.len() && #[trigger] manifests[i] == ManifestAt::Present(true) && (forall|
            k: int,
        | 0 <= k < i ==> #[trigger] manifests[k] != ManifestAt::Present(true)) implies root
        == dirs[i] by {
        lemma_first_declares(dirs, manifests, i);
    }
    if forall|k: int| 0 <= k < manifests.len() ==> #[trigger] manifests[k] != ManifestAt::Present(true) {
        lemma_none_declares(dirs, manifests);
        assert forall|i: int|
            0 <= i < manifests.len() && (#[trigger] manifests[i]) is Present && (forall|k: int|
                0 <= k < i ==> !((#[trigger] manifests[k]) is Present)) implies root == dirs[i] by {
            lemma_first_candidate(dirs, manifests, i);
        }
    }
    if forall|k: int| 0 <= k < manifests.len() ==> !((#[trigger] manifests[k]) is Present) {
        lemma_no_candidate(dirs, manifests);
    }
}

/// A search starts in a directory that is given, and in the one that holds a file that is given.
pub proof fn law_search_starts_in_a_directory(p: Seq<char>)
    ensures
        start_dir_of(p, true) == p,
        components(p).len() > 1 ==> components(start_dir_of(p, false)) == components(p).drop_last(),
{
    law_parent_drops_last_component(p);
    if components(p).len() > 1 {
        assert(components(p) != seq![seq!['/']]);
    }
}

// ---------------------------------------------------------------------------------------------
// Packages

/// The URL that a workspace's packages stand under: the repository, and the path within it where there
/// is one.
pub open spec fn declared_repository(config: Option<PcbToml>) -> Option<Seq<char>> {
    match config {
        Some(c) => match c.workspace {
            Some(w) => match w.repository {
                Some(r) => match w.path {
                    Some(p) => Some(r@ + seq!['/'] + p@),
                    None => Some(r@),
                },
                None => None,
            },
            None => None,
        },
        None => None,
    }
}

/// A manifest that can be read and declares no workspace makes a package, under the workspace's URL
/// and the path below the root; of two with the same URL the later counts. The root makes one under
/// the workspace's URL where it has a board, dependencies or parts, or where there is no other.
pub proof fn law_every_manifest_makes_a_package(
    packages: Seq<(String, WorkspacePackage)>,
    config: Option<PcbToml>,
    found: Seq<FoundManifest>,
    i: int,
)
    requires
        forall|u: Seq<char>|
            stands_under(
                #[trigger] find(packages, u),
                config,
                found,
                declared_base(config),
                declared_preferred(config),
                u,
            ),
        0 <= i < found.len(),
        found[i].manifest is Ok,
        found[i].manifest->Ok_0.workspace is None,
        forall|k: int|
            i < k < found.len() ==> slashed((#[trigger] found[k]).rel_path@) != slashed(
                found[i].rel_path@,
            ),
        slashed(found[i].rel_path@).len() > 0,
    ensures
        ({
            let rel = slashed(found[i].rel_path@);
            let url = match declared_repository(config) {
                Some(base) => base + seq!['/'] + rel,
                None => rel,
            };
            let p = find(packages, url);
            url != crate::workspace::LOCAL_WORKSPACE_ROOT_URL@ ==> p is Some && p->Some_0.rel_path@
                == found[i].rel_path@ && p->Some_0.config@ == found[i].manifest->Ok_0@
                && p->Some_0.preferred == declared_preferred(config).contains(rel)
        }),
        ({
            let root = find(
                packages,
                match declared_repository(config) {
                    Some(base) => base,
                    None => crate::workspace::LOCAL_WORKSPACE_ROOT_URL@,
                },
            );
            config is Some && (config->Some_0.board is Some
                || config->Some_0.dependencies.direct.entries@.len() > 0 || config->Some_0.parts@.len() > 0)
                ==> root is Some && root->Some_0.rel_path@.len() == 0 && root->Some_0.config@
                == config->Some_0@
        }),
{
    reveal_strlit("/");
    assert("/"@ =~= seq!['/']);
    let base = declared_base(config);
    assert(base == declared_repository(config));
    let rel = slashed(found[i].rel_path@);
    let url = crate::discovery::package_url(base, found[i].rel_path@);
    lemma_package_from(found, base, i);
    let root = crate::discovery::root_url(base);
    if base is Some {
        assert(url.len() > root.len());
    }
    assert(stands_under(
        find(packages, url),
        config,
        found,
        base,
        declared_preferred(config),
        url,
    ));
    assert(stands_under(
        find(packages, root),
        config,
        found,
        base,
        declared_preferred(config),
        root,
    ));
}

proof fn lemma_package_from(found: Seq<FoundManifest>, base: Option<Seq<char>>, i: int)
    requires
        0 <= i < found.len(),
        makes_package(found[i]),
        forall|k: int|
            i < k < found.len() ==> slashed((#[trigger] found[k]).rel_path@) != slashed(
                found[i].rel_path@,
            ),
    ensures
        package_from(found, base, crate::discovery::package_url(base, found[i].rel_path@)) == i,
    decreases found.len(),
{
    let q = crate::discovery::package_url(base, found[i].rel_path@);
    if i < found.len() - 1 {
        let d = found.drop_last();
        assert(d[i] == found[i]);
        assert forall|k: int| i < k < d.len() implies slashed((#[trigger] d[k]).rel_path@) != slashed(
            d[i].rel_path@,
        ) by {
            assert(d[k] == found[k]);
        }
        lemma_package_from(d, base, i);
        let last = found.last();
        assert(found[found.len() - 1] == last);
        if crate::discovery::package_url(base, last.rel_path@) == q {
            if let Some(b) = base {
                let n = (b + "/"@).len() as int;
                assert(q.skip(n) =~= slashed(last.rel_path@));
                assert(q.skip(n) =~= slashed(found[i].rel_path@));
            }
        }
    }
}

/// Whether a manifest that was found makes no package.
pub open spec fn is_faulty(f: FoundManifest) -> bool {
    f.manifest is Err || f.manifest->Ok_0.workspace is Some
}

/// Whether an error is about a manifest.
pub open spec fn is_about(e: (Seq<char>, Seq<char>), f: FoundManifest) -> bool {
    components(e.0) == components(f.dir@).push("pcb.toml"@) && (f.manifest is Err ==> e.1
        == f.manifest->Err_0@)
}

/// Whether an error is about a manifest that makes no package.
pub open spec fn is_about_faulty(e: (Seq<char>, Seq<char>), found: Seq<FoundManifest>) -> bool {
    exists|i: int| 0 <= i < found.len() && is_faulty(#[trigger] found[i]) && is_about(e, found[i])
}

/// Whether an error about a manifest is among some.
pub open spec fn is_reported(f: FoundManifest, r: Seq<(Seq<char>, Seq<char>)>) -> bool {
    exists|k: int| 0 <= k < r.len() && is_about(#[trigger] r[k], f)
}

/// A manifest that cannot be read, and one below the root that declares a workspace, is reported as
/// the `pcb.toml` of its directory; no other is.
pub proof fn law_faulty_manifests_are_reported(found: Seq<FoundManifest>)
    ensures
        forall|i: int|
            0 <= i < found.len() && is_faulty(#[trigger] found[i]) ==> is_reported(
                found[i],
                manifest_errors(found),
            ),
        forall|k: int|
            0 <= k < manifest_errors(found).len() ==> is_about_faulty(
                #[trigger] manifest_errors(found)[k],
                found,
            ),
    decreases found.len(),
{
    if found.len() > 0 {
        let d = found.drop_last();
        let b = manifest_errors(d);
        let r = manifest_errors(found);
        let f = found.last();
        law_faulty_manifests_are_reported(d);
        assert(found[found.len() - 1] == f);
        lemma_manifest_path(f.dir@);
        assert(is_faulty(f) ==> r.len() == b.len() + 1 && r.drop_last() == b && is_about(r.last(), f)) by {
            if is_faulty(f) {
                assert(r.drop_last() =~= b);
            }
        }
        assert(!is_faulty(f) ==> r == b);
        lemma_reports_grow(d, f, b, r);
        assert(d.push(f) =~= found);
    }
}

proof fn lemma_reports_grow(
    d: Seq<FoundManifest>,
    f: FoundManifest,
    b: Seq<(Seq<char>, Seq<char>)>,
    r: Seq<(Seq<char>, Seq<char>)>,
)
    requires
        forall|i: int| 0 <= i < d.len() && is_faulty(#[trigger] d[i]) ==> is_reported(d[i], b),
        forall|k: int| 0 <= k < b.len() ==> is_about_faulty(#[trigger] b[k], d),
        is_faulty(f) ==> r.len() == b.len() + 1 && r.drop_last() == b && is_about(r.last(), f),
        !is_faulty(f) ==> r == b,
    ensures
        forall|i: int|
            0 <= i < d.push(f).len() && is_faulty(#[trigger] d.push(f)[i]) ==> is_reported(
                d.push(f)[i],
                r,
            ),
        forall|k: int| 0 <= k < r.len() ==> is_about_faulty(#[trigger] r[k], d.push(f)),
{
    let found = d.push(f);
    assert forall|i: int| 0 <= i < found.len() && is_faulty(#[trigger] found[i]) implies is_reported(
        found[i],
        r,
    ) by {
        if i < d.len() {
            assert(is_reported(d[i], b));
            let k = choose|k: int| 0 <= k < b.len() && is_about(#[trigger] b[k], d[i]);
            assert(r[k] == b[k]);
        } else {
            assert(is_about(r[r.len() - 1], f));
        }
    }
    assert forall|k: int| 0 <= k < r.len() implies is_about_faulty(#[trigger] r[k], found) by {
        if k < b.len() {
            assert(r[k] == b[k]);
            assert(is_about_faulty(b[k], d));
            let i = choose|i: int| 0 <= i < d.len() && is_faulty(#[trigger] d[i]) && is_about(b[k], d[i]);
            assert(found[i] == d[i]);
        } else {
            assert(found[found.len() - 1] == f);
        }
    }
}

proof fn lemma_manifest_path(dir: Seq<char>)
    ensures
        components(path_joined(dir, "pcb.toml"@)) == components(dir).push("pcb.toml"@),
{
    reveal_strlit("pcb.toml");
    let name = "pcb.toml"@;
    assert(name.len() == 8);
    assert(name =~= seq!['p', 'c', 'b', '.', 't', 'o', 'm', 'l']);
    assert(!name.contains('/'));
    law_joined_components(seq![name]);
    law_join_appends_components(dir, name);
    assert(joined(seq![name], seq!['/']) == name);
    assert(components(dir) + seq![name] =~= components(dir).push(name));
}

/// Whether a name is one of a directory that holds no packages.
pub open spec fn is_left_out(name: Seq<char>) -> bool {
    name == ".git"@ || name == ".pcb"@ || name == "fork"@ || name == "node_modules"@ || name
        == "target"@ || name == "vendor"@
}

/// The search goes down into the directories of a listing that lie below the root, are no links, are
/// not left out by name and are matched by no pattern, and into nothing else; each is one deeper.
pub proof fn law_search_goes_down(
    entries: Seq<DirEntry>,
    root: Seq<char>,
    patterns: Seq<Seq<char>>,
    depth: int,
)
    ensures
        ({
            let r = children(entries, root, patterns, depth);
            &&& forall|k: int|
                0 <= k < r.len() ==> (#[trigger] r[k]).1 == depth && exists|i: int|
                    0 <= i < entries.len() && (#[trigger] entries[i]).path@ == r[k].0
                        && entries[i].is_dir && !entries[i].is_symlink && relative_to(
                        r[k].0,
                        root,
                    ) is Some && (file_name_of(r[k].0) is Some ==> !is_left_out(
                        file_name_of(r[k].0)->Some_0,
                    ))
            &&& forall|i: int|
                0 <= i < entries.len() && descends(#[trigger] entries[i], root, patterns) ==> exists|
                    k: int,
                |
                    0 <= k < r.len() && (#[trigger] r[k]).0 == entries[i].path@
        }),
    decreases entries.len(),
{
    let r = children(entries, root, patterns, depth);
    if entries.len() > 0 {
        let d = entries.drop_last();
        let b = children(d, root, patterns, depth);
        law_search_goes_down(d, root, patterns, depth);
        assert(entries[entries.len() - 1] == entries.last());
        assert forall|k: int| 0 <= k < r.len() implies (#[trigger] r[k]).1 == depth && exists|i: int|
            0 <= i < entries.len() && (#[trigger] entries[i]).path@ == r[k].0 && entries[i].is_dir
                && !entries[i].is_symlink && relative_to(r[k].0, root) is Some && (file_name_of(
                r[k].0,
            ) is Some ==> !is_left_out(file_name_of(r[k].0)->Some_0)) by {
            if k < b.len() {
                assert(r[k] == b[k]);
                let i = choose|i: int|
                    0 <= i < d.len() && (#[trigger] d[i]).path@ == b[k].0 && d[i].is_dir
                        && !d[i].is_symlink && relative_to(b[k].0, root) is Some && (file_name_of(
                        b[k].0,
                    ) is Some ==> !is_left_out(file_name_of(b[k].0)->Some_0));
                assert(entries[i] == d[i]);
            } else {
                assert(entries[entries.len() - 1].path@ == r[k].0);
            }
        }
        assert forall|i: int|
            0 <= i < entries.len() && descends(#[trigger] entries[i], root, patterns) implies exists|
            k: int,
        | 0 <= k < r.len() && (#[trigger] r[k]).0 == entries[i].path@ by {
            if i < d.len() {
                assert(d[i] == entries[i]);
                let k = choose|k: int| 0 <= k < b.len() && (#[trigger] b[k]).0 == d[i].path@;
                assert(r[k] == b[k]);
            } else {
                assert(r[r.len() - 1].0 == entries[i].path@);
            }
        }
    }
}

/// A package's entry points are the `.zen` files of its directory, in the order of the listing.
pub proof fn law_entry_points_are_zen_files(entries: Seq<DirEntry>)
    ensures
        ({
            let r = zen_files(entries);
            &&& forall|i: int|
                0 <= i < entries.len() && !(#[trigger] entries[i]).is_dir && extension_of(
                    entries[i].path@,
                ) == Some(seq!['z', 'e', 'n']) ==> r.contains(entries[i].path@)
            &&& forall|k: int|
                0 <= k < r.len() ==> exists|i: int|
                    0 <= i < entries.len() && !(#[trigger] entries[i]).is_dir && #[trigger] r[k]
                        == entries[i].path@ && extension_of(r[k]) == Some(seq!['z', 'e', 'n'])
        }),
    decreases entries.len(),
{
    reveal_strlit("zen");
    assert("zen"@ =~= seq!['z', 'e', 'n']);
    let r = zen_files(entries);
    if entries.len() > 0 {
        let d = entries.drop_last();
        let b = zen_files(d);
        law_entry_points_are_zen_files(d);
        assert(entries[entries.len() - 1] == entries.last());
        assert forall|i: int|
            0 <= i < entries.len() && !(#[trigger] entries[i]).is_dir && extension_of(entries[i].path@)
                == Some(seq!['z', 'e', 'n']) implies r.contains(entries[i].path@) by {
            if i < d.len() {
                assert(d[i] == entries[i]);
                assert(b.contains(d[i].path@));
                let k = choose|k: int| 0 <= k < b.len() && b[k] == d[i].path@;
                assert(r[k] == b[k]);
            } else {
                assert(r[r.len() - 1] == entries[i].path@);
            }
        }
        assert forall|k: int| 0 <= k < r.len() implies exists|i: int|
            0 <= i < entries.len() && !(#[trigger] entries[i]).is_dir && #[trigger] r[k]
                == entries[i].path@ && extension_of(r[k]) == Some(seq!['z', 'e', 'n']) by {
            if k < b.len() {
                assert(r[k] == b[k]);
                let i = choose|i: int|
                    0 <= i < d.len() && !(#[trigger] d[i]).is_dir && b[k] == d[i].path@ && extension_of(
                        b[k],
                    ) == Some(seq!['z', 'e', 'n']);
                assert(entries[i] == d[i]);
            } else {
                assert(entries[entries.len() - 1].path@ == r[k]);
            }
        }
    }
}

/// A package covers its own URL and those below it, and no other.
pub proof fn law_package_covers_what_lies_below(prefix: Seq<char>, rest: Seq<char>, url: Seq<char>)
    ensures
        covers(prefix, prefix),
        covers(prefix, prefix + seq!['/'] + rest),
        covers(prefix, url) && url != prefix ==> url == prefix + seq!['/'] + url.skip(
            prefix.len() as int + 1,
        ),
{
    let u = prefix + seq!['/'] + rest;
    assert(u.take(prefix.len() as int) =~= prefix);
    if covers(prefix, url) && url != prefix {
        assert(url =~= prefix + seq!['/'] + url.skip(prefix.len() as int + 1));
    }
}

/// The packages that are not boards are those without a board, all of them.
pub proof fn law_packages_without_board(s: Seq<(String, WorkspacePackage)>)
    ensures
        forall|i: int|
            0 <= i < s.len() && (#[trigger] s[i]).1.config.board is None ==> without_board(s).contains(
                s[i].1,
            ),
        forall|k: int|
            0 <= k < without_board(s).len() ==> (#[trigger] without_board(s)[k]).config.board is None
                && exists|i: int| 0 <= i < s.len() && (#[trigger] s[i]).1 == without_board(s)[k],
    decreases s.len(),
{
    let r = without_board(s);
    if s.len() > 0 {
        let d = s.drop_last();
        let b = without_board(d);
        law_packages_without_board(d);
        assert(s[s.len() - 1] == s.last());
        assert forall|i: int| 0 <= i < s.len() && (#[trigger] s[i]).1.config.board is None implies r.contains(
            s[i].1,
        ) by {
            if i < d.len() {
                assert(d[i] == s[i]);
                assert(b.contains(d[i].1));
                let k = choose|k: int| 0 <= k < b.len() && b[k] == d[i].1;
                assert(r[k] == b[k]);
            } else {
                assert(r[r.len() - 1] == s[i].1);
            }
        }
        assert forall|k: int| 0 <= k < r.len() implies (#[trigger] r[k]).config.board is None
            && exists|i: int| 0 <= i < s.len() && (#[trigger] s[i]).1 == r[k] by {
            if k < b.len() {
                assert(r[k] == b[k]);
                let i = choose|i: int| 0 <= i < d.len() && (#[trigger] d[i]).1 == b[k];
                assert(s[i] == d[i]);
            } else {
                assert(s[s.len() - 1].1 == r[k]);
            }
        }
    }
}

// ---------------------------------------------------------------------------------------------
// Manifests

/// Whether a dependency is one of the KiCad libraries; `qualified` says whether its key has a lane.
pub open spec fn is_kicad(key: Seq<char>, qualified: bool) -> bool {
    let path = if qualified {
        match cut_last(key, '@') {
            Some(p) => p.0,
            None => key,
        }
    } else {
        key
    };
    path == "gitlab.com/kicad/libraries/kicad-symbols"@ || path
        == "gitlab.com/kicad/libraries/kicad-footprints"@ || path
        == "gitlab.com/kicad/libraries/kicad-packages3D"@
}

/// Of the dependencies of a manifest, those on the KiCad libraries are dropped, and all others are
/// kept.
pub proof fn law_kicad_libraries_are_dropped(s: Seq<(String, DependencySpec)>, qualified: bool)
    ensures
        forall|i: int|
            0 <= i < s.len() && !is_kicad((#[trigger] s[i]).0@, qualified) ==> kept(
                s,
                qualified,
            ).contains(s[i]),
        forall|k: int|
            0 <= k < kept(s, qualified).len() ==> s.contains(#[trigger] kept(s, qualified)[k])
                && !is_kicad(kept(s, qualified)[k].0@, qualified),
    decreases s.len(),
{
    let r = kept(s, qualified);
    if s.len() > 0 {
        let d = s.drop_last();
        let b = kept(d, qualified);
        law_kicad_libraries_are_dropped(d, qualified);
        assert(s[s.len() - 1] == s.last());
        assert forall|i: int| 0 <= i < s.len() && !is_kicad((#[trigger] s[i]).0@, qualified) implies r.contains(
            s[i],
        ) by {
            if i < d.len() {
                assert(d[i] == s[i]);
                assert(b.contains(d[i]));
                let k = choose|k: int| 0 <= k < b.len() && b[k] == d[i];
                assert(r[k] == b[k]);
            } else {
                assert(r[r.len() - 1] == s[i]);
            }
        }
        assert forall|k: int| 0 <= k < r.len() implies s.contains(#[trigger] r[k]) && !is_kicad(
            r[k].0@,
            qualified,
        ) by {
            if k < b.len() {
                assert(r[k] == b[k]);
                assert(d.contains(b[k]));
                let i = choose|i: int| 0 <= i < d.len() && d[i] == b[k];
                assert(s[i] == d[i]);
            } else {
                assert(s[s.len() - 1] == r[k]);
            }
        }
    }
}

/// A release series is read back from its two numbers.
pub proof fn law_series_round_trip(major: nat, minor: nat)
    requires
        major <= u32::MAX,
        minor <= u32::MAX,
    ensures
        series(decimal(major) + seq!['.'] + decimal(minor)) == Some((major as int, minor as int)),
{
    let a = decimal(major);
    let b = decimal(minor);
    let s = a + seq!['.'] + b;
    lemma_decimal(major);
    lemma_decimal(minor);
    law_decimal_round_trip(major, u32::MAX as int);
    law_decimal_round_trip(minor, u32::MAX as int);
    lemma_first_at(s, '.');
    let k = first_at(s, '.');
    assert(s[a.len() as int] == '.');
    if k < a.len() {
        assert(s[k] == a[k]);
    }
    assert(s.take(k) =~= a);
    assert(s.skip(k + 1) =~= b);
    assert(!b.contains('.'));
}

/// A version of one number is that major version, and one of two is that major and minor version; the
/// rest is 0.
pub proof fn law_shorthand_versions(major: nat, minor: nat)
    requires
        major <= u64::MAX,
        minor <= u64::MAX,
    ensures
        (shorthand_version(decimal(major)) matches Some(v) && v.0 == major && v.1 == 0 && v.2 == 0
            && v.3.len() == 0 && v.4.len() == 0),
        (shorthand_version(decimal(major) + seq!['.'] + decimal(minor)) matches Some(v) && v.0 == major
            && v.1 == minor && v.2 == 0 && v.3.len() == 0 && v.4.len() == 0),
{
    let a = decimal(major);
    let b = decimal(minor);
    lemma_decimal(major);
    lemma_decimal(minor);
    law_decimal_round_trip(major, u64::MAX as int);
    law_decimal_round_trip(minor, u64::MAX as int);
    assert(!a.contains('.'));
    assert(!b.contains('.'));
    law_join_split(seq![a], '.');
    assert(joined(seq![a], seq!['.']) == a);
    let two = seq![a, b];
    assert forall|i: int| 0 <= i < two.len() implies !(#[trigger] two[i]).contains('.') by {}
    law_join_split(two, '.');
    assert(two.drop_last() =~= seq![a]);
    assert(joined(two, seq!['.']) == a + seq!['.'] + b);
}

/// The marks before a version do not change it.
pub proof fn law_version_marks_are_ignored(s: Seq<char>)
    requires
        s.len() > 0,
        s[0] != '^',
        s[0] != 'v',
    ensures
        relaxed_version(seq!['v'] + s) == relaxed_version(s),
        relaxed_version(seq!['^'] + s) == relaxed_version(s),
        bare_version(s) == s,
{
    let v = seq!['v'] + s;
    let c = seq!['^'] + s;
    assert(v.skip(1) =~= s);
    assert(c.skip(1) =~= s);
    reveal_with_fuel(crate::without_leading, 3);
}

/// A dependency is known by the last segment of its URL exactly where no other ends in it.
pub proof fn law_alias_is_unambiguous(urls: Seq<Seq<char>>, q: Seq<char>)
    ensures
        match alias_target(urls, q) {
            Some(u) => urls.contains(u) && after_last(u, '/') == q && forall|i: int, j: int|
                0 <= i < j < urls.len() ==> !(after_last(#[trigger] urls[i], '/') == q && after_last(
                    #[trigger] urls[j],
                    '/',
                ) == q),
            None => (forall|i: int| 0 <= i < urls.len() ==> after_last(#[trigger] urls[i], '/') != q)
                || exists|i: int, j: int|
                0 <= i < j < urls.len() && after_last(#[trigger] urls[i], '/') == q && after_last(
                    #[trigger] urls[j],
                    '/',
                ) == q,
        },
    decreases urls.len(),
{
    lemma_with_last(urls, q);
    let r = with_last(urls, q);
    if r.len() == 1 {
        let u = r[0];
        assert(urls.contains(u) && after_last(u, '/') == q);
    }
}

proof fn lemma_with_last(urls: Seq<Seq<char>>, q: Seq<char>)
    ensures
        ({
            let r = with_last(urls, q);
            &&& forall|k: int|
                0 <= k < r.len() ==> urls.contains(#[trigger] r[k]) && after_last(r[k], '/') == q
            &&& r.len() == 0 <==> forall|i: int|
                0 <= i < urls.len() ==> after_last(#[trigger] urls[i], '/') != q
            &&& r.len() >= 2 <==> exists|i: int, j: int|
                0 <= i < j < urls.len() && after_last(#[trigger] urls[i], '/') == q && after_last(
                    #[trigger] urls[j],
                    '/',
                ) == q
        }),
    decreases urls.len(),
{
    let r = with_last(urls, q);
    if urls.len() > 0 {
        let d = urls.drop_last();
        let b = with_last(d, q);
        lemma_with_last(d, q);
        assert(urls[urls.len() - 1] == urls.last());
        assert forall|i: int| 0 <= i < d.len() implies #[trigger] d[i] == urls[i] by {}
        assert forall|k: int| 0 <= k < r.len() implies urls.contains(#[trigger] r[k]) && after_last(
            r[k],
            '/',
        ) == q by {
            if k < b.len() {
                assert(r[k] == b[k]);
                assert(d.contains(b[k]));
                let i = choose|i: int| 0 <= i < d.len() && d[i] == b[k];
                assert(urls[i] == r[k]);
            } else {
                assert(urls[urls.len() - 1] == r[k]);
            }
        }
        if r.len() == 0 {
            assert forall|i: int| 0 <= i < urls.len() implies after_last(#[trigger] urls[i], '/') != q by {
                if i < d.len() {
                    assert(d[i] == urls[i]);
                }
            }
        }
        if b.len() > 0 {
            let i = choose|i: int| 0 <= i < d.len() && after_last(#[trigger] d[i], '/') == q;
            assert(after_last(urls[i], '/') == q);
            if r.len() > b.len() {
                assert(after_last(urls[urls.len() - 1], '/') == q);
                assert(0 <= i < urls.len() - 1 < urls.len());
            }
        }
        if b.len() >= 2 {
            let (i, j) = choose|i: int, j: int|
                0 <= i < j < d.len() && after_last(#[trigger] d[i], '/') == q && after_last(
                    #[trigger] d[j],
                    '/',
                ) == q;
            assert(after_last(urls[i], '/') == q && after_last(urls[j], '/') == q);
        }
        if exists|i: int, j: int|
            0 <= i < j < urls.len() && after_last(#[trigger] urls[i], '/') == q && after_last(
                #[trigger] urls[j],
                '/',
            ) == q {
            let (i, j) = choose|i: int, j: int|
                0 <= i < j < urls.len() && after_last(#[trigger] urls[i], '/') == q && after_last(
                    #[trigger] urls[j],
                    '/',
                ) == q;
            assert(after_last(d[i], '/') == q);
            if j < d.len() {
                assert(after_last(d[j], '/') == q);
            }
        }
    }
}

} // verus!
