//! What holds of every search for packages, and of what a manifest keeps.

use vstd::prelude::*;

use crate::config::{default_workspace, empty_manifest, kept_views, DependencySpec};
use crate::config::{DependencySpecView, PcbToml};
use crate::discovery::{board_placed, children, error_views, first_fault, pair_views};
use crate::discovery::{root_is_package, slashed, stack_view, visited, Discovery, ManifestAt};
use crate::glob::set_result;
use crate::kicad_library::alias_stands_for;
use crate::lang::net::optional_fields;
use crate::map::{find, SortedMap};
use crate::path::{components, file_name_of, lies_under, path_joined, relative_to, same_path};
use crate::resolution::{follows_manifest, known_directory, PackagePathResolver};
use crate::resolved::has_version;
use crate::stdlib::{discover_source_from_exe, include_path, source_candidates_of};
use crate::text::{after_last, lowered, opt_text, texts, uppered};
use crate::workspace::{WorkspaceInfo, WorkspacePackage};
use crate::workspace_laws::{is_kicad, is_left_out};
use crate::{DirEntry, FileProviderError};

verus! {

/// Whether a search looks into an entry: a directory and no link, below the root, not left out by its
/// name, and matched by no pattern.
pub open spec fn is_looked_into(e: DirEntry, root: Seq<char>, patterns: Seq<Seq<char>>) -> bool {
    &&& e.is_dir
    &&& !e.is_symlink
    &&& file_name_of(e.path@) is Some ==> !is_left_out(file_name_of(e.path@)->Some_0)
    &&& relative_to(e.path@, root) is Some
    &&& set_result(patterns, slashed(relative_to(e.path@, root)->Some_0)) == Ok::<bool, Seq<char>>(
        false,
    )
}

/// A search goes down into exactly the entries that it looks into, one deeper.
pub proof fn law_search_looks_into(
    entries: Seq<DirEntry>,
    root: Seq<char>,
    patterns: Seq<Seq<char>>,
    depth: int,
    path: Seq<char>,
)
    ensures
        children(entries, root, patterns, depth).contains((path, depth)) <==> exists|i: int|
            0 <= i < entries.len() && (#[trigger] entries[i]).path@ == path && is_looked_into(
                entries[i],
                root,
                patterns,
            ),
    decreases entries.len(),
{
    if entries.len() > 0 {
        let d = entries.drop_last();
        let n = entries.len() - 1;
        law_search_looks_into(d, root, patterns, depth, path);
        assert(entries[n] == entries.last());
        let before = children(d, root, patterns, depth);
        let after = children(entries, root, patterns, depth);
        if after.contains((path, depth)) {
            let k = choose|k: int| 0 <= k < after.len() && after[k] == (path, depth);
            if k < before.len() {
                assert(before[k] == (path, depth));
                let i = choose|i: int|
                    0 <= i < d.len() && (#[trigger] d[i]).path@ == path && is_looked_into(
                        d[i],
                        root,
                        patterns,
                    );
                assert(entries[i] == d[i]);
            } else {
                assert(entries[n].path@ == path);
            }
        }
        if exists|i: int|
            0 <= i < entries.len() && (#[trigger] entries[i]).path@ == path && is_looked_into(
                entries[i],
                root,
                patterns,
            ) {
            let i = choose|i: int|
                0 <= i < entries.len() && (#[trigger] entries[i]).path@ == path && is_looked_into(
                    entries[i],
                    root,
                    patterns,
                );
            if i < n {
                assert(d[i] == entries[i]);
                let k = choose|k: int| 0 <= k < before.len() && before[k] == (path, depth);
                assert(after[k] == (path, depth));
            } else {
                assert(after[before.len() as int] == (path, depth));
            }
        }
    }
}

/// Whether a listing holds a manifest.
pub open spec fn has_manifest(entries: Seq<DirEntry>) -> bool {
    exists|i: int|
        0 <= i < entries.len() && !(#[trigger] entries[i]).is_dir && file_name_of(entries[i].path@)
            == Some("pcb.toml"@)
}

/// A directory below the root with a manifest is found to be a package, whatever lies in it; one
/// without is not, nor is the root.
pub proof fn law_packages_are_found(
    before: Discovery,
    after: Discovery,
    listing: Result<Vec<DirEntry>, FileProviderError>,
)
    requires
        visited(before, after, listing),
        before.stack@.len() > 0,
    ensures
        ({
            let (dir, depth) = stack_view(before.stack@).last();
            let was = pair_views(before.found@);
            let now = pair_views(after.found@);
            let found = listing is Ok && depth > 0 && has_manifest(listing->Ok_0@) && relative_to(
                dir,
                before.root@,
            ) is Some;
            &&& !found ==> now == was
            &&& found ==> now.len() == was.len() + 1 && now.drop_last() == was && now.last().0 == dir
                && Some(now.last().1) == relative_to(dir, before.root@)
        }),
{
    let (dir, depth) = stack_view(before.stack@).last();
    let was = pair_views(before.found@);
    let now = pair_views(after.found@);
    if let Ok(entries) = listing {
        assert(crate::discovery::lists_manifest(entries@) == has_manifest(entries@));
        if now.len() > was.len() {
            assert(now.drop_last() =~= was);
        }
    }
}

/// A search leaves the directory that was asked for, and goes on with those below it that it looks into,
/// up to eight deep. A directory that cannot be listed is reported, but for the root.
pub proof fn law_search_goes_on(
    before: Discovery,
    after: Discovery,
    listing: Result<Vec<DirEntry>, FileProviderError>,
    path: Seq<char>,
)
    requires
        visited(before, after, listing),
        before.stack@.len() > 0,
    ensures
        ({
            let (dir, depth) = stack_view(before.stack@).last();
            let rest = stack_view(before.stack@).drop_last();
            let now = stack_view(after.stack@);
            &&& rest.len() <= now.len()
            &&& now.take(rest.len() as int) == rest
            &&& listing is Err || depth == 8 ==> now == rest
            &&& listing is Ok && depth != 8 ==> (now.skip(rest.len() as int).contains(
                (path, depth + 1),
            ) <==> exists|i: int|
                0 <= i < listing->Ok_0@.len() && (#[trigger] listing->Ok_0@[i]).path@ == path
                    && is_looked_into(listing->Ok_0@[i], before.root@, texts(before.patterns@)))
            &&& listing is Ok ==> error_views(after.errors@) == error_views(before.errors@)
            &&& listing is Err && same_path(dir, before.root@) ==> error_views(after.errors@)
                == error_views(before.errors@)
            &&& listing is Err && !same_path(dir, before.root@) ==> error_views(after.errors@).len()
                == error_views(before.errors@).len() + 1 && error_views(after.errors@).last().0 == dir
        }),
{
    let (dir, depth) = stack_view(before.stack@).last();
    let rest = stack_view(before.stack@).drop_last();
    let now = stack_view(after.stack@);
    assert(rest.take(rest.len() as int) =~= rest);
    assert(now.take(rest.len() as int) =~= rest);
    if let Ok(entries) = listing {
        let c = children(entries@, before.root@, texts(before.patterns@), depth + 1);
        law_search_looks_into(entries@, before.root@, texts(before.patterns@), depth + 1, path);
        if depth != 8 {
            assert(now.skip(rest.len() as int) =~= c);
        }
    }
}

/// The first file that is no manifest is to blame.
pub proof fn law_first_faulty_manifest(v: Seq<ManifestAt>)
    ensures
        match first_fault(v) {
            Some(e) => exists|i: int|
                0 <= i < v.len() && (#[trigger] v[i]) is Invalid && v[i]->Invalid_0@ == e && forall|
                    k: int,
                |
                    0 <= k < i ==> !((#[trigger] v[k]) is Invalid),
            None => forall|i: int| 0 <= i < v.len() ==> !((#[trigger] v[i]) is Invalid),
        },
    decreases v.len(),
{
    if v.len() > 0 {
        let d = v.drop_last();
        let n = v.len() - 1;
        assert(v[n] == v.last());
        law_first_faulty_manifest(d);
        match first_fault(d) {
            Some(e) => {
                let i = choose|i: int|
                    0 <= i < d.len() && (#[trigger] d[i]) is Invalid && d[i]->Invalid_0@ == e
                        && forall|k: int| 0 <= k < i ==> !((#[trigger] d[k]) is Invalid);
                assert(v[i] == d[i]);
                assert forall|k: int| 0 <= k < i implies !((#[trigger] v[k]) is Invalid) by {
                    assert(v[k] == d[k]);
                }
            },
            None => {
                assert forall|k: int| 0 <= k < n implies !((#[trigger] v[k]) is Invalid) by {
                    assert(v[k] == d[k]);
                }
            },
        }
    }
}

/// A board without a file gets the one that is found for it; nothing else of its package changes, and
/// a package whose board has a file, or that has no board, stays as it is.
pub proof fn law_board_gets_its_file(
    before: WorkspacePackage,
    after: WorkspacePackage,
    path: Option<Seq<char>>,
)
    requires
        board_placed(before, after, path),
    ensures
        before.config.board is None ==> after == before,
        before.config.board is Some && before.config.board->Some_0.path is Some ==> after == before,
        before.config.board is Some && before.config.board->Some_0.path is None ==> {
            &&& after.config.board is Some
            &&& opt_text(after.config.board->Some_0.path) == path
            &&& after.config.board->Some_0.name@ == before.config.board->Some_0.name@
        },
        after.rel_path == before.rel_path,
        after.config.dependencies == before.config.dependencies,
{
}

// ---------------------------------------------------------------------------------------------
// Manifests

/// Of the dependencies that a manifest declares, those on the KiCad libraries are dropped, and all
/// others are kept.
pub proof fn law_other_dependencies_are_kept(
    s: Seq<(Seq<char>, DependencySpecView)>,
    qualified: bool,
    e: (Seq<char>, DependencySpecView),
)
    ensures
        kept_views(s, qualified).contains(e) <==> s.contains(e) && !is_kicad(e.0, qualified),
    decreases s.len(),
{
    if s.len() > 0 {
        let d = s.drop_last();
        law_other_dependencies_are_kept(d, qualified, e);
        let before = kept_views(d, qualified);
        let after = kept_views(s, qualified);
        assert(s[s.len() - 1] == s.last());
        if after.contains(e) {
            let i = choose|i: int| 0 <= i < after.len() && after[i] == e;
            if i < before.len() {
                assert(before[i] == e);
                let k = choose|k: int| 0 <= k < d.len() && d[k] == e;
                assert(s[k] == e);
            }
        }
        if s.contains(e) && !is_kicad(e.0, qualified) {
            let k = choose|k: int| 0 <= k < s.len() && s[k] == e;
            if k < d.len() {
                assert(d[k] == e);
                let i = choose|i: int| 0 <= i < before.len() && before[i] == e;
                assert(after[i] == e);
            } else {
                assert(after[before.len() as int] == e);
            }
        }
    }
}

/// A workspace that says nothing of itself requires nothing and leaves nothing out.
pub proof fn law_plain_workspace()
    ensures
        default_workspace().pcb_version is None,
        default_workspace().repository is None,
        default_workspace().path is None,
        !default_workspace().bom.strict,
        default_workspace().exclude.len() == 0,
        default_workspace().preferred.len() == 0,
        default_workspace().vendor.len() == 0,
        empty_manifest().workspace is None,
        empty_manifest().board is None,
        empty_manifest().direct.len() == 0,
        empty_manifest().indirect.len() == 0,
        empty_manifest().parts.len() == 0,
{
}

/// The directory of a direct dependency is the one that is known of it; a package has no directories
/// but for its direct dependencies.
pub proof fn law_directories_follow_manifest<R: PackagePathResolver>(
    resolver: &R,
    m: Seq<(String, String)>,
    ws: &WorkspaceInfo,
    base_dir: Seq<char>,
    config: &PcbToml,
    q: Seq<char>,
    spec: DependencySpec,
)
    requires
        follows_manifest(resolver, m, ws, base_dir, config),
    ensures
        find(config.dependencies.direct.entries@, q) is None ==> find(m, q) is None,
        find(config.dependencies.direct.entries@, q) == Some(spec) && known_directory(
            ws,
            base_dir,
            q,
            &spec,
        ) is Some ==> opt_text(find(m, q)) == known_directory(ws, base_dir, q, &spec),
        find(config.dependencies.direct.entries@, q) == Some(spec) && known_directory(
            ws,
            base_dir,
            q,
            &spec,
        ) is None && spec is Version ==> exists|n: &str, w: &str, a: Option<String>|
            n@ == q && w@ == spec->Version_0@ && #[trigger] call_ensures(
                R::resolve_package,
                (resolver, n, w),
                a,
            ) && opt_text(find(m, q)) == opt_text(a),
{
    let found = find(m, q);
}

/// A version of a package is in a set exactly where the set of the package holds it.
pub proof fn law_version_in_set(
    s: Seq<(String, SortedMap<String, ()>)>,
    path: Seq<char>,
    version: Seq<char>,
)
    ensures
        has_version(s, path, version) <==> find(s, path) is Some && find(
            find(s, path)->Some_0.entries@,
            version,
        ) is Some,
{
}

// ---------------------------------------------------------------------------------------------
// The standard library

/// The source of the standard library is the first of the directories that has its manifest, and it is
/// an error where none has.
pub proof fn law_source_is_found(exe: &str, has: &Vec<bool>, r: Result<String, String>)
    requires
        has@.len() == source_candidates_of(crate::path::ancestors_of(exe@)).len(),
        call_ensures(discover_source_from_exe, (exe, has), r),
    ensures
        r is Ok <==> exists|i: int| 0 <= i < has@.len() && #[trigger] has@[i],
        r is Ok ==> exists|i: int|
            0 <= i < has@.len() && #[trigger] has@[i] && r->Ok_0@ == source_candidates_of(
                crate::path::ancestors_of(exe@),
            )[i] && forall|k: int| 0 <= k < i ==> !(#[trigger] has@[k]),
{
    crate::library_laws::law_first_source(has@);
}

/// No log, no layout snapshot, no list of ignored files and no test is part of the standard library.
pub proof fn law_what_is_left_out(path: &str, r: bool)
    requires
        call_ensures(include_path, (path,), r),
    ensures
        r <==> set_result(
            seq![
                ".gitignore"@,
                "**/.gitignore"@,
                "**/*.log"@,
                "**/*.layout.json"@,
                "**/test"@,
                "**/test/**"@,
            ],
            path@,
        ) != Ok::<bool, Seq<char>>(true),
{
}

// ---------------------------------------------------------------------------------------------
// Places of a workspace

/// A path within the workspace belongs to the deepest package above it; one outside belongs to none.
pub proof fn law_owner_of_path(ws: &WorkspaceInfo, root: Seq<char>, path: Seq<char>)
    ensures
        relative_to(path, root) is None ==> ws.owner_url(root, path) is None,
        relative_to(path, root) is Some ==> {
            let rel = relative_to(path, root)->Some_0;
            let s = ws.packages.entries@;
            match ws.owner_url(root, path) {
                Some(url) => exists|i: int|
                    0 <= i < s.len() && (#[trigger] s[i]).0@ == url && lies_under(
                        rel,
                        s[i].1.rel_path@,
                    ) && is_deepest(s, rel, i),
                None => forall|i: int|
                    0 <= i < s.len() ==> !lies_under(rel, (#[trigger] s[i]).1.rel_path@),
            }
        },
{
    if let Some(rel) = relative_to(path, root) {
        let s = ws.packages.entries@;
        crate::workspace::lemma_owner_at(s, rel);
        let k = crate::workspace::owner_at(s, rel);
        if k >= 0 {
            assert(s[k].0@ == ws.owner_url(root, path)->Some_0);
            assert(is_deepest(s, rel, k));
        }
    }
}

/// Whether no package above a path lies deeper than one.
pub open spec fn is_deepest(s: Seq<(String, WorkspacePackage)>, rel: Seq<char>, i: int) -> bool {
    forall|k: int|
        0 <= k < s.len() && lies_under(rel, (#[trigger] s[k]).1.rel_path@) ==> components(
            s[k].1.rel_path@,
        ).len() <= components(s[i].1.rel_path@).len()
}

/// The standard library is where the root manifest says, read from the root, and else where every
/// workspace has it.
pub proof fn law_place_of_standard_library(ws: &WorkspaceInfo)
    ensures
        ws.config is None ==> ws.stdlib_dir_of() == crate::stdlib_root_of(ws.root@),
        ws.config is Some ==> match find(ws.config->Some_0.patch.entries@, "stdlib"@) {
            Some(p) => if p.path is Some {
                ws.stdlib_dir_of() == path_joined(ws.root@, p.path->Some_0@)
            } else {
                ws.stdlib_dir_of() == crate::stdlib_root_of(ws.root@)
            },
            None => ws.stdlib_dir_of() == crate::stdlib_root_of(ws.root@),
        },
{
}

/// The manifests of a workspace are that of the root, where it has one, and then those of its packages.
pub proof fn law_manifests_of_workspace(ws: &WorkspaceInfo, i: int)
    requires
        0 <= i < ws.packages.entries@.len(),
    ensures
        ws.config is Some ==> ws.manifests_of().len() == ws.packages.entries@.len() + 1
            && ws.manifests_of()[0] == ws.config->Some_0 && ws.manifests_of()[i + 1]
            == ws.packages.entries@[i].1.config,
        ws.config is None ==> ws.manifests_of().len() == ws.packages.entries@.len()
            && ws.manifests_of()[i] == ws.packages.entries@[i].1.config,
{
}

/// The root of a workspace is a package where it is the only one, or has a board, dependencies or
/// parts.
pub proof fn law_root_is_package(config: PcbToml, alone: bool)
    ensures
        alone ==> root_is_package(config, alone),
        config.board is Some ==> root_is_package(config, alone),
        config.dependencies.direct.entries@.len() > 0 ==> root_is_package(config, alone),
        config.dependencies.indirect.entries@.len() > 0 ==> root_is_package(config, alone),
        config.parts@.len() > 0 ==> root_is_package(config, alone),
        !alone && config.board is None && config.dependencies.direct.entries@.len() == 0
            && config.dependencies.indirect.entries@.len() == 0 && config.parts@.len() == 0
            ==> !root_is_package(config, alone),
{
}

/// An alias of a KiCad repository is its last segment, and no two repositories have the same.
pub proof fn law_alias_of_repository(
    repos: Seq<Seq<char>>,
    alias: Seq<char>,
    repo: Seq<char>,
    other: Seq<char>,
)
    requires
        alias_stands_for(repos, alias, repo),
    ensures
        alias.len() > 0,
        repos.contains(repo),
        alias_stands_for(repos, alias, other) ==> other == repo,
        repos.contains(other) && after_last(other, '/') == alias ==> other == repo,
        after_last(repo, '/') == alias,
{
    if repos.contains(other) && after_last(other, '/') == alias {
        let i = choose|i: int| 0 <= i < repos.len() && repos[i] == other;
        assert(after_last(repos[i], '/') == alias);
    }
}

/// Upper and lower case differ in ASCII letters alone, and each undoes the other on letters.
pub proof fn law_letter_case(s: Seq<char>, i: int)
    requires
        0 <= i < s.len(),
    ensures
        lowered(s).len() == s.len(),
        uppered(s).len() == s.len(),
        'A' <= s[i] <= 'Z' ==> lowered(s)[i] as u32 == s[i] as u32 + 32 && uppered(s)[i] == s[i],
        'a' <= s[i] <= 'z' ==> uppered(s)[i] as u32 == s[i] as u32 - 32 && lowered(s)[i] == s[i],
        !('A' <= s[i] <= 'Z') && !('a' <= s[i] <= 'z') ==> lowered(s)[i] == s[i] && uppered(s)[i]
            == s[i],
{
}

/// Plain nets can have a voltage and an impedance and supply nets a voltage, though nobody declares it;
/// nets of other types have nothing that is not declared.
pub proof fn law_fields_nobody_declares(type_label: Seq<char>, q: Seq<char>)
    ensures
        optional_fields(type_label).contains(q) <==> (type_label == "Net"@ && (q == "voltage"@ || q
            == "impedance"@)) || (type_label == "Power"@ && q == "voltage"@),
{
    reveal_strlit("Net");
    reveal_strlit("Power");
    assert("Net"@.len() == 3 && "Power"@.len() == 5);
    let f = optional_fields(type_label);
    if type_label == "Net"@ {
        assert(f.len() == 2 && f[0] == "voltage"@ && f[1] == "impedance"@);
    } else if type_label == "Power"@ {
        assert(f.len() == 1 && f[0] == "voltage"@);
    }
    if f.contains(q) {
        let i = choose|i: int| 0 <= i < f.len() && f[i] == q;
        assert(i == 0 || i == 1);
    }
}

} // verus!
