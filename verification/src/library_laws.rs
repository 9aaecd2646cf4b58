//! What holds of every load path, and of the libraries and patterns that it can lead to.

use vstd::prelude::*;

use crate::frozen::{aliased, FrozenResolutionMap};
use crate::glob::{first_invalid, glob_result, glob_results, set_result, with_variants};
use crate::kicad_library::{coordinate_at, entry_at, filled, library_error, model_error, repos_of};
use crate::kicad_library::KicadLibraryView;
use crate::load_spec::{effective_tag, full_url, package_path, parsed_with, same_spec, spec_text};
use crate::load_spec::{tagged, LoadSpecView};
use crate::path::{components, is_absolute, lies_under, path_joined};
use crate::resolution::FrozenDepId;
use crate::resolved::{selects, some_selects};
use crate::stdlib::{first_yes, source_candidates_of};
use crate::text::{after_last, before_first, begins, ends, first_at, last_at};
use crate::text::{law_blank_is_empty_trimmed, lemma_first_at, lemma_last_at, replaced, trimmed};
use crate::version::{version_text, Version};

verus! {

// ---------------------------------------------------------------------------------------------
// Load paths

proof fn lemma_reference(package: Seq<char>, tag: Option<Seq<char>>, path: Seq<char>)
    requires
        !package.contains('/'),
        !package.contains(':'),
        tag is Some ==> !tag->Some_0.contains('/'),
    ensures
        ({
            let rest = package_path(tagged(package, tag), path);
            &&& (seq!['@'] + rest).skip(1) == rest
            &&& !begins(seq!['@'] + rest, "package://"@)
            &&& before_first(rest, '/') == tagged(package, tag)
            &&& before_first(tagged(package, tag), ':') == package
            &&& crate::load_spec::tag_of(tagged(package, tag)) == tag
            &&& crate::load_spec::after_first_slash(rest) == path
        }),
{
    let name = tagged(package, tag);
    assert(!name.contains('/')) by {
        if name.contains('/') {
            let i = choose|i: int| 0 <= i < name.len() && name[i] == '/';
            if i < package.len() {
                assert(package[i] == '/');
            } else if i > package.len() {
                assert(tag->Some_0[i - package.len() - 1] == '/');
            }
        }
    }
    let rest = package_path(name, path);
    let t = seq!['@'] + rest;
    assert(t.skip(1) =~= rest);
    reveal_strlit("package://");
    if begins(t, "package://"@) {
        assert(t.take("package://"@.len() as int)[0] == '@');
    }
    lemma_first_at(rest, '/');
    lemma_first_at(name, '/');
    let k = first_at(rest, '/');
    if path.len() > 0 {
        assert(rest[name.len() as int] == '/');
        if k < name.len() {
            assert(rest[k] == name[k]);
        }
        assert(rest.take(k) =~= name);
        assert(rest.skip(k + 1) =~= path);
    } else {
        assert(rest.take(k) =~= name);
        assert(path =~= Seq::<char>::empty());
    }
    lemma_first_at(name, ':');
    lemma_first_at(package, ':');
    let j = first_at(name, ':');
    match tag {
        Some(g) => {
            assert(name[package.len() as int] == ':');
            if j < package.len() {
                assert(name[j] == package[j]);
            }
            assert(name.take(j) =~= package);
            assert(name.skip(j + 1) =~= g);
        },
        None => {
            assert(name.take(j) =~= package);
        },
    }
}

proof fn lemma_package_names()
    ensures
        "stdlib"@.len() == 6,
        "kicad-symbols"@.len() == 13,
        "kicad-footprints"@.len() == 16,
        "github"@.len() == 6,
        "gitlab"@.len() == 6,
        "github"@ != "stdlib"@,
        "gitlab"@ != "stdlib"@,
        !"stdlib"@.contains('/'),
        !"stdlib"@.contains(':'),
        !"kicad-symbols"@.contains('/'),
        !"kicad-symbols"@.contains(':'),
        !"kicad-footprints"@.contains('/'),
        !"kicad-footprints"@.contains(':'),
        !"github"@.contains('/'),
        !"github"@.contains(':'),
        !"gitlab"@.contains('/'),
        !"gitlab"@.contains(':'),
{
    reveal_strlit("stdlib");
    reveal_strlit("kicad-symbols");
    reveal_strlit("kicad-footprints");
    reveal_strlit("github");
    reveal_strlit("gitlab");
    assert("stdlib"@[0] == 's');
    assert("github"@[0] == 'g');
    assert("gitlab"@[0] == 'g');
}

/// `@stdlib` names the standard library, with the tag and the path behind it. The directories of KiCad
/// symbols and footprints are part of it, under their own names. The names of two hosts that packages
/// once came from name nothing.
pub proof fn law_standard_library_references(
    tag: Option<Seq<char>>,
    path: Seq<char>,
    is_url: bool,
)
    requires
        tag is Some ==> !tag->Some_0.contains('/'),
        path.len() > 0 ==> !is_absolute(path),
    ensures
        parsed_with(seq!['@'] + package_path(tagged("stdlib"@, tag), path), is_url) == Some(
            LoadSpecView::Stdlib { tag, path },
        ),
        parsed_with(seq!['@'] + package_path(tagged("kicad-symbols"@, tag), path), is_url) == Some(
            LoadSpecView::Stdlib { tag, path: package_path("kicad-symbols"@, path) },
        ),
        parsed_with(seq!['@'] + package_path(tagged("kicad-footprints"@, tag), path), is_url) == Some(
            LoadSpecView::Stdlib { tag, path: package_path("kicad-footprints"@, path) },
        ),
        parsed_with(seq!['@'] + package_path(tagged("github"@, tag), path), is_url) is None,
        parsed_with(seq!['@'] + package_path(tagged("gitlab"@, tag), path), is_url) is None,
{
    lemma_package_names();
    lemma_reference("stdlib"@, tag, path);
    lemma_reference("kicad-symbols"@, tag, path);
    lemma_reference("kicad-footprints"@, tag, path);
    lemma_reference("github"@, tag, path);
    lemma_reference("gitlab"@, tag, path);
    reveal_strlit("kicad-symbols");
    reveal_strlit("kicad-footprints");
    assert("kicad-symbols"@.last() == 's');
    assert("kicad-footprints"@.last() == 's');
    if path.len() > 0 {
        assert(path_joined("kicad-symbols"@, path) =~= package_path("kicad-symbols"@, path));
        assert(path_joined("kicad-footprints"@, path) =~= package_path("kicad-footprints"@, path));
    }
}

/// What does not begin with `@` is kept as it is: a stable reference where it begins like one, a URL
/// where it is one, and else a path, which must exist.
pub proof fn law_other_references(s: Seq<char>, is_url: bool)
    ensures
        s.len() > 0 ==> parsed_with("package://"@ + s, is_url) == Some(
            LoadSpecView::PackageUri { uri: "package://"@ + s },
        ),
        parsed_with("package://"@, is_url) is None,
        !begins(s, "package://"@) && (s.len() > 0 ==> s[0] != '@') ==> parsed_with(s, is_url) == Some(
            if is_url {
                LoadSpecView::Url { url: s }
            } else {
                LoadSpecView::Path { path: s, allow_not_exist: false }
            },
        ),
        parsed_with(seq!['@'], is_url) is None,
{
    let u = "package://"@ + s;
    assert(u.take("package://"@.len() as int) =~= "package://"@);
    let p = "package://"@;
    assert(p.take(p.len() as int) =~= p);
    lemma_reference(Seq::<char>::empty(), None, Seq::<char>::empty());
    assert(seq!['@'] =~= seq!['@'] + package_path(
        tagged(Seq::<char>::empty(), None),
        Seq::<char>::empty(),
    ));
}

/// The tag of a package or of the standard library is the one that it is given, and else the latest;
/// nothing else has one.
pub proof fn law_latest_tag(package: Seq<char>, tag: Option<Seq<char>>, path: Seq<char>)
    ensures
        effective_tag(LoadSpecView::Package { package, tag, path }) == Some(
            if tag is Some {
                tag->Some_0
            } else {
                "latest"@
            },
        ),
        effective_tag(LoadSpecView::Stdlib { tag, path }) == Some(
            if tag is Some {
                tag->Some_0
            } else {
                "latest"@
            },
        ),
        effective_tag(LoadSpecView::Path { path, allow_not_exist: true }) is None,
        effective_tag(LoadSpecView::Path { path, allow_not_exist: false }) is None,
        effective_tag(LoadSpecView::Url { url: path }) is None,
        effective_tag(LoadSpecView::PackageUri { uri: path }) is None,
{
}

/// URLs, stable references and paths are their own text; only paths have no URL.
pub proof fn law_text_of_reference(s: Seq<char>, exist: bool)
    ensures
        spec_text(LoadSpecView::Url { url: s }) == s,
        spec_text(LoadSpecView::PackageUri { uri: s }) == s,
        spec_text(LoadSpecView::Path { path: s, allow_not_exist: exist }) == s,
        full_url(LoadSpecView::Path { path: s, allow_not_exist: exist }) is None,
        s.len() > 0 && s[0] != '@' ==> full_url(LoadSpecView::Url { url: s }) == Some(s),
        s.len() > 0 && s[0] != '@' ==> full_url(LoadSpecView::PackageUri { uri: s }) == Some(s),
{
}

/// An alias stands for the first URL that it is the last segment of.
pub proof fn law_first_alias(keys: Seq<Seq<char>>, alias: Seq<char>)
    requires
        !alias.contains('/'),
    ensures
        match aliased(keys, alias) {
            Some(url) => exists|i: int|
                0 <= i < keys.len() && #[trigger] keys[i] == url && is_segment(url, alias) && forall|
                    j: int,
                |
                    0 <= j < i ==> !is_segment(#[trigger] keys[j], alias),
            None => forall|i: int| 0 <= i < keys.len() ==> !is_segment(#[trigger] keys[i], alias),
        },
    decreases keys.len(),
{
    if keys.len() > 0 {
        let t = keys.skip(1);
        lemma_segment(keys[0], alias);
        if !is_segment(keys[0], alias) {
            law_first_alias(t, alias);
            match aliased(t, alias) {
                Some(url) => {
                    let i = choose|i: int|
                        0 <= i < t.len() && #[trigger] t[i] == url && is_segment(url, alias)
                            && forall|j: int| 0 <= j < i ==> !is_segment(#[trigger] t[j], alias);
                    assert(keys[i + 1] == url);
                    assert forall|j: int| 0 <= j < i + 1 implies !is_segment(
                        #[trigger] keys[j],
                        alias,
                    ) by {
                        if j > 0 {
                            assert(keys[j] == t[j - 1]);
                        }
                    }
                },
                None => {
                    assert forall|i: int| 0 <= i < keys.len() implies !is_segment(
                        #[trigger] keys[i],
                        alias,
                    ) by {
                        if i > 0 {
                            assert(keys[i] == t[i - 1]);
                        }
                    }
                },
            }
        } else {
            assert(keys[0] == keys[0]);
        }
    }
}

/// Whether an alias is the last segment of a URL.
pub open spec fn is_segment(url: Seq<char>, alias: Seq<char>) -> bool {
    url == alias || exists|host: Seq<char>| url == #[trigger] (host + seq!['/'] + alias)
}

proof fn lemma_segment(url: Seq<char>, alias: Seq<char>)
    requires
        !alias.contains('/'),
    ensures
        after_last(url, '/') == alias <==> is_segment(url, alias),
{
    lemma_last_at(url, '/');
    let k = last_at(url, '/');
    if after_last(url, '/') == alias {
        if k < 0 {
            assert(url.skip(0) =~= url);
        } else {
            assert(url =~= url.take(k) + seq!['/'] + alias);
        }
    }
    if url == alias {
        assert(url.skip(0) =~= url);
    } else if is_segment(url, alias) {
        let host = choose|host: Seq<char>| url == #[trigger] (host + seq!['/'] + alias);
        assert(url[host.len() as int] == '/');
        if k > host.len() {
            assert(alias[k - host.len() - 1] == '/');
        }
        assert(k == host.len());
        assert(url.skip(k + 1) =~= alias);
    }
}

/// A version of a package is selected exactly where some dependency of a resolution selects it.
pub proof fn law_selected_versions(
    s: Seq<(String, FrozenResolutionMap)>,
    path: Seq<char>,
    version: Seq<char>,
)
    ensures
        some_selects(s, path, version) <==> exists|i: int, k: int|
            0 <= i < s.len() && 0 <= k < s[i].1.selected_remote.entries@.len() && is_selected(
                #[trigger] s[i].1.selected_remote.entries@[k],
                path,
                version,
            ),
    decreases s.len(),
{
    if s.len() > 0 {
        let d = s.drop_last();
        let n = s.len() - 1;
        assert(s[n] == s.last());
        let e = s.last().1.selected_remote.entries@;
        law_selected_versions(d, path, version);
        lemma_selects(e, path, version);
        if selects(e, path, version) {
            let k = choose|k: int| 0 <= k < e.len() && is_selected(#[trigger] e[k], path, version);
            assert(is_selected(s[n].1.selected_remote.entries@[k], path, version));
        } else if some_selects(d, path, version) {
            let (i, k) = choose|i: int, k: int|
                0 <= i < d.len() && 0 <= k < d[i].1.selected_remote.entries@.len() && is_selected(
                    #[trigger] d[i].1.selected_remote.entries@[k],
                    path,
                    version,
                );
            assert(s[i] == d[i]);
            assert(is_selected(s[i].1.selected_remote.entries@[k], path, version));
        }
        if exists|i: int, k: int|
            0 <= i < s.len() && 0 <= k < s[i].1.selected_remote.entries@.len() && is_selected(
                #[trigger] s[i].1.selected_remote.entries@[k],
                path,
                version,
            ) {
            let (i, k) = choose|i: int, k: int|
                0 <= i < s.len() && 0 <= k < s[i].1.selected_remote.entries@.len() && is_selected(
                    #[trigger] s[i].1.selected_remote.entries@[k],
                    path,
                    version,
                );
            if i < n {
                assert(d[i] == s[i]);
                assert(is_selected(d[i].1.selected_remote.entries@[k], path, version));
            } else {
                assert(is_selected(e[k], path, version));
            }
        }
    }
}

/// Whether an entry selects a version of a package.
pub open spec fn is_selected(e: (FrozenDepId, Version), path: Seq<char>, version: Seq<char>) -> bool {
    e.0.path@ == path && version_text(e.1@) == version
}

proof fn lemma_selects(s: Seq<(FrozenDepId, Version)>, path: Seq<char>, version: Seq<char>)
    ensures
        selects(s, path, version) <==> exists|k: int|
            0 <= k < s.len() && is_selected(#[trigger] s[k], path, version),
    decreases s.len(),
{
    if s.len() > 0 {
        let d = s.drop_last();
        assert(s[s.len() - 1] == s.last());
        lemma_selects(d, path, version);
        if selects(d, path, version) {
            let k = choose|k: int| 0 <= k < d.len() && is_selected(#[trigger] d[k], path, version);
            assert(s[k] == d[k]);
        }
        if exists|k: int| 0 <= k < s.len() && is_selected(#[trigger] s[k], path, version) {
            let k = choose|k: int| 0 <= k < s.len() && is_selected(#[trigger] s[k], path, version);
            if k < d.len() {
                assert(d[k] == s[k]);
            }
        }
    }
}

// ---------------------------------------------------------------------------------------------
// KiCad libraries

/// Whether an entry is for a repository: that of its symbols, or, where any will do, that of its
/// footprints or of one of its models.
pub open spec fn is_entry_for(e: KicadLibraryView, repo: Seq<char>, symbols_only: bool) -> bool {
    ||| e.symbols == repo
    ||| !symbols_only && e.footprints == repo
    ||| !symbols_only && exists|i: int| 0 <= i < e.models.len() && (#[trigger] e.models[i]).1 == repo
}

/// The entry of a version of a repository is the first that names the repository and has the major
/// version.
pub proof fn law_entry_of_repository(
    s: Seq<KicadLibraryView>,
    repo: Seq<char>,
    major: u64,
    symbols_only: bool,
)
    ensures
        ({
            let k = entry_at(s, repo, major, symbols_only);
            &&& 0 <= k <= s.len()
            &&& k < s.len() ==> is_entry_for(s[k], repo, symbols_only) && s[k].version.0 == major
            &&& forall|i: int|
                0 <= i < k ==> !(is_entry_for(#[trigger] s[i], repo, symbols_only) && s[i].version.0
                    == major)
        }),
    decreases s.len(),
{
    if s.len() > 0 {
        let t = s.skip(1);
        law_entry_of_repository(t, repo, major, symbols_only);
        let k = entry_at(s, repo, major, symbols_only);
        assert forall|i: int| 0 <= i < k implies !(is_entry_for(#[trigger] s[i], repo, symbols_only)
            && s[i].version.0 == major) by {
            if i > 0 {
                assert(s[i] == t[i - 1]);
            }
        }
    }
}

/// An entry is accepted exactly where nothing that it names is blank.
pub proof fn law_library_entries_are_named(e: KicadLibraryView)
    ensures
        library_error(e) is None <==> {
            &&& trimmed(e.symbols).len() > 0
            &&& trimmed(e.footprints).len() > 0
            &&& forall|i: int|
                0 <= i < e.models.len() ==> trimmed((#[trigger] e.models[i]).0).len() > 0 && trimmed(
                    e.models[i].1,
                ).len() > 0
            &&& e.parts is Some ==> trimmed(e.parts->Some_0).len() > 0
            &&& e.http_mirror is Some ==> trimmed(e.http_mirror->Some_0).len() > 0
        },
{
    law_blank_is_empty_trimmed(e.symbols);
    law_blank_is_empty_trimmed(e.footprints);
    if e.parts is Some {
        law_blank_is_empty_trimmed(e.parts->Some_0);
    }
    if e.http_mirror is Some {
        law_blank_is_empty_trimmed(e.http_mirror->Some_0);
    }
    lemma_models(e.models);
}

proof fn lemma_models(s: Seq<(Seq<char>, Seq<char>)>)
    ensures
        model_error(s) is None <==> forall|i: int|
            0 <= i < s.len() ==> trimmed((#[trigger] s[i]).0).len() > 0 && trimmed(s[i].1).len() > 0,
    decreases s.len(),
{
    if s.len() > 0 {
        let d = s.drop_last();
        assert(s[s.len() - 1] == s.last());
        lemma_models(d);
        law_blank_is_empty_trimmed(s.last().0);
        law_blank_is_empty_trimmed(s.last().1);
        if model_error(s) is None {
            assert forall|i: int| 0 <= i < s.len() implies trimmed((#[trigger] s[i]).0).len() > 0
                && trimmed(s[i].1).len() > 0 by {
                if i < d.len() {
                    assert(d[i] == s[i]);
                }
            }
        }
        if forall|i: int|
            0 <= i < s.len() ==> trimmed((#[trigger] s[i]).0).len() > 0 && trimmed(s[i].1).len() > 0 {
            assert forall|i: int| 0 <= i < d.len() implies trimmed((#[trigger] d[i]).0).len() > 0
                && trimmed(d[i].1).len() > 0 by {
                assert(d[i] == s[i]);
            }
        }
    }
}

/// The repositories that can have an alias are those of the symbols and of the footprints.
pub proof fn law_repositories_of_entries(s: Seq<KicadLibraryView>, repo: Seq<char>)
    ensures
        repos_of(s).contains(repo) <==> exists|i: int|
            0 <= i < s.len() && ((#[trigger] s[i]).symbols == repo || s[i].footprints == repo),
    decreases s.len(),
{
    if s.len() > 0 {
        let d = s.drop_last();
        let before = repos_of(d);
        let after = repos_of(s);
        let n = before.len() as int;
        assert(s[s.len() - 1] == s.last());
        law_repositories_of_entries(d, repo);
        assert(after[n] == s.last().symbols);
        assert(after[n + 1] == s.last().footprints);
        if after.contains(repo) {
            let i = choose|i: int| 0 <= i < after.len() && after[i] == repo;
            if i < n {
                assert(before[i] == repo);
                let k = choose|k: int|
                    0 <= k < d.len() && ((#[trigger] d[k]).symbols == repo || d[k].footprints == repo);
                assert(s[k] == d[k]);
            }
        }
        if exists|i: int|
            0 <= i < s.len() && ((#[trigger] s[i]).symbols == repo || s[i].footprints == repo) {
            let i = choose|i: int|
                0 <= i < s.len() && ((#[trigger] s[i]).symbols == repo || s[i].footprints == repo);
            if i < d.len() {
                assert(d[i] == s[i]);
                let k = choose|k: int| 0 <= k < before.len() && before[k] == repo;
                assert(after[k] == repo);
            }
        }
    }
}

/// Whether a root with a version lies above a path.
pub open spec fn is_root_above(e: (String, String), path: Seq<char>) -> bool {
    e.0@.contains('@') && lies_under(path, e.1@)
}

/// Of the roots with a version that lie above a path, the deepest counts, and of several the last.
pub proof fn law_deepest_root_with_version(s: Seq<(String, String)>, path: Seq<char>)
    ensures
        ({
            let k = coordinate_at(s, path);
            &&& -1 <= k < s.len()
            &&& k >= 0 ==> is_root_above(s[k], path)
            &&& forall|i: int|
                0 <= i < s.len() && is_root_above(#[trigger] s[i], path) ==> k >= 0 && components(
                    s[i].1@,
                ).len() <= components(s[k].1@).len() && (i > k ==> components(s[i].1@).len()
                    < components(s[k].1@).len())
        }),
    decreases s.len(),
{
    if s.len() > 0 {
        let d = s.drop_last();
        let n = s.len() - 1;
        assert(s[n] == s.last());
        law_deepest_root_with_version(d, path);
        lemma_last_at(s.last().0@, '@');
        let b = coordinate_at(d, path);
        let k = coordinate_at(s, path);
        if b >= 0 {
            assert(d[b] == s[b]);
        }
        assert forall|i: int| 0 <= i < s.len() && is_root_above(#[trigger] s[i], path) implies k >= 0
            && components(s[i].1@).len() <= components(s[k].1@).len() && (i > k ==> components(
            s[i].1@,
        ).len() < components(s[k].1@).len()) by {
            if i < n {
                assert(d[i] == s[i]);
                assert(is_root_above(d[i], path));
            }
        }
    }
}

proof fn lemma_not_replaced(s: Seq<char>, from: Seq<char>, to: Seq<char>)
    requires
        from.len() > 0,
        from[0] == '{',
        !s.contains('{'),
    ensures
        replaced(s, from, to) == s,
    decreases s.len(),
{
    if s.len() > 0 {
        let t = s.skip(1);
        assert(s.contains(s[0]));
        if begins(s, from) {
            assert(s.take(from.len() as int)[0] == s[0]);
        }
        if t.contains('{') {
            let i = choose|i: int| 0 <= i < t.len() && t[i] == '{';
            assert(s[i + 1] == '{');
        }
        lemma_not_replaced(t, from, to);
        assert(seq![s[0]] + t =~= s);
    }
}

proof fn lemma_replaced(a: Seq<char>, from: Seq<char>, b: Seq<char>, to: Seq<char>)
    requires
        from.len() > 0,
        from[0] == '{',
        !a.contains('{'),
        !b.contains('{'),
    ensures
        replaced(a + from + b, from, to) == a + to + b,
    decreases a.len(),
{
    let s = a + from + b;
    if a.len() == 0 {
        assert(s.take(from.len() as int) =~= from);
        assert(s.skip(from.len() as int) =~= b);
        lemma_not_replaced(b, from, to);
        assert(to + b =~= a + to + b);
    } else {
        let t = a.skip(1);
        assert(a.contains(a[0]));
        assert(s[0] == a[0]);
        if begins(s, from) {
            assert(s.take(from.len() as int)[0] == s[0]);
        }
        if t.contains('{') {
            let i = choose|i: int| 0 <= i < t.len() && t[i] == '{';
            assert(a[i + 1] == '{');
        }
        lemma_replaced(t, from, b, to);
        assert(s.skip(1) =~= t + from + b);
        assert(seq![s[0]] + (t + to + b) =~= a + to + b);
    }
}

proof fn lemma_other_stays(
    a: Seq<char>,
    other: Seq<char>,
    b: Seq<char>,
    from: Seq<char>,
    to: Seq<char>,
    k: int,
)
    requires
        from.len() > 0,
        from[0] == '{',
        !a.contains('{'),
        !b.contains('{'),
        other.len() > 0,
        other[0] == '{',
        !other.skip(1).contains('{'),
        0 <= k < other.len(),
        k < from.len(),
        other[k] != from[k],
    ensures
        replaced(a + other + b, from, to) == a + other + b,
    decreases a.len(),
{
    let s = a + other + b;
    if a.len() == 0 {
        assert(s =~= other + b);
        if begins(s, from) {
            assert(s.take(from.len() as int)[k] == other[k]);
        }
        let t = s.skip(1);
        assert(t =~= other.skip(1) + b);
        if t.contains('{') {
            let i = choose|i: int| 0 <= i < t.len() && t[i] == '{';
            if i < other.len() - 1 {
                assert(other.skip(1)[i] == '{');
            } else {
                assert(b[i - (other.len() - 1)] == '{');
            }
        }
        lemma_not_replaced(t, from, to);
        assert(seq![s[0]] + t =~= s);
    } else {
        let t = a.skip(1);
        assert(a.contains(a[0]));
        assert(s[0] == a[0]);
        if begins(s, from) {
            assert(s.take(from.len() as int)[0] == s[0]);
        }
        if t.contains('{') {
            let i = choose|i: int| 0 <= i < t.len() && t[i] == '{';
            assert(a[i + 1] == '{');
        }
        lemma_other_stays(t, other, b, from, to, k);
        assert(s.skip(1) =~= t + other + b);
        assert(seq![s[0]] + (t + other + b) =~= s);
    }
}

/// Each placeholder of a template stands for its text, between what stands around it.
pub proof fn law_template_is_filled(
    a: Seq<char>,
    b: Seq<char>,
    repo: Seq<char>,
    version: Seq<char>,
)
    requires
        !a.contains('{'),
        !b.contains('{'),
        !repo.contains('{'),
        !version.contains('{'),
    ensures
        filled(a, repo, version) == a,
        filled(a + "{repo}"@ + b, repo, version) == a + repo + b,
        filled(a + "{repo_name}"@ + b, repo, version) == a + after_last(repo, '/') + b,
        filled(a + "{version}"@ + b, repo, version) == a + version + b,
        filled(a + "{major}"@ + b, repo, version) == a + before_first(version, '.') + b,
{
    let r = "{repo}"@;
    let n = "{repo_name}"@;
    let v = "{version}"@;
    let m = "{major}"@;
    let name = after_last(repo, '/');
    let major = before_first(version, '.');
    reveal_strlit("{repo}");
    reveal_strlit("{repo_name}");
    reveal_strlit("{version}");
    reveal_strlit("{major}");
    lemma_last_at(repo, '/');
    lemma_first_at(version, '.');
    assert(!name.contains('{')) by {
        if name.contains('{') {
            let i = choose|i: int| 0 <= i < name.len() && name[i] == '{';
            assert(repo[i + last_at(repo, '/') + 1] == '{');
        }
    }
    assert(!major.contains('{')) by {
        if major.contains('{') {
            let i = choose|i: int| 0 <= i < major.len() && major[i] == '{';
            assert(version[i] == '{');
        }
    }
    lemma_stays(a, repo, name, version, major);
    lemma_no_brace(a, repo, b);
    lemma_replaced(a, r, b, repo);
    lemma_stays(a + repo + b, repo, name, version, major);
    lemma_no_brace(a, name, b);
    lemma_other_stays(a, n, b, r, repo, 5);
    lemma_replaced(a, n, b, name);
    lemma_stays(a + name + b, repo, name, version, major);
    lemma_no_brace(a, version, b);
    lemma_other_stays(a, v, b, r, repo, 1);
    lemma_other_stays(a, v, b, n, name, 1);
    lemma_replaced(a, v, b, version);
    lemma_stays(a + version + b, repo, name, version, major);
    lemma_other_stays(a, m, b, r, repo, 1);
    lemma_other_stays(a, m, b, n, name, 1);
    lemma_other_stays(a, m, b, v, version, 1);
    lemma_replaced(a, m, b, major);
}

proof fn lemma_no_brace(a: Seq<char>, x: Seq<char>, b: Seq<char>)
    requires
        !a.contains('{'),
        !x.contains('{'),
        !b.contains('{'),
    ensures
        !(a + x + b).contains('{'),
{
    let s = a + x + b;
    if s.contains('{') {
        let i = choose|i: int| 0 <= i < s.len() && s[i] == '{';
        if i < a.len() {
            assert(a[i] == '{');
        } else if i < a.len() + x.len() {
            assert(x[i - a.len()] == '{');
        } else {
            assert(b[i - a.len() - x.len()] == '{');
        }
    }
}

proof fn lemma_stays(
    s: Seq<char>,
    repo: Seq<char>,
    name: Seq<char>,
    version: Seq<char>,
    major: Seq<char>,
)
    requires
        !s.contains('{'),
    ensures
        replaced(s, "{repo}"@, repo) == s,
        replaced(s, "{repo_name}"@, name) == s,
        replaced(s, "{version}"@, version) == s,
        replaced(s, "{major}"@, major) == s,
{
    reveal_strlit("{repo}");
    reveal_strlit("{repo_name}");
    reveal_strlit("{version}");
    reveal_strlit("{major}");
    lemma_not_replaced(s, "{repo}"@, repo);
    lemma_not_replaced(s, "{repo_name}"@, name);
    lemma_not_replaced(s, "{version}"@, version);
    lemma_not_replaced(s, "{major}"@, major);
}

// ---------------------------------------------------------------------------------------------
// Patterns

/// A set of patterns matches a path exactly where all of them are patterns and one of them matches;
/// else the first that is no pattern is to blame.
pub proof fn law_patterns_match(patterns: Seq<Seq<char>>, path: Seq<char>)
    ensures
        match set_result(patterns, path) {
            Ok(hit) => (forall|i: int|
                0 <= i < patterns.len() ==> glob_result(#[trigger] patterns[i], path) is Ok) && (hit
                <==> exists|i: int|
                0 <= i < patterns.len() && glob_result(#[trigger] patterns[i], path) == Ok::<
                    bool,
                    Seq<char>,
                >(true)),
            Err(e) => exists|i: int|
                0 <= i < patterns.len() && glob_result(#[trigger] patterns[i], path) == Err::<
                    bool,
                    Seq<char>,
                >(e) && forall|j: int|
                    0 <= j < i ==> glob_result(#[trigger] patterns[j], path) is Ok,
        },
{
    let r = glob_results(patterns, path);
    lemma_invalid(r);
    match set_result(patterns, path) {
        Ok(hit) => {
            assert forall|i: int| 0 <= i < patterns.len() implies glob_result(
                #[trigger] patterns[i],
                path,
            ) is Ok by {
                assert(r[i] is Ok);
            }
            if hit {
                let i = choose|i: int| 0 <= i < r.len() && r[i] == Ok::<bool, Seq<char>>(true);
                assert(glob_result(patterns[i], path) == Ok::<bool, Seq<char>>(true));
            }
            if exists|i: int|
                0 <= i < patterns.len() && glob_result(#[trigger] patterns[i], path) == Ok::<
                    bool,
                    Seq<char>,
                >(true) {
                let i = choose|i: int|
                    0 <= i < patterns.len() && glob_result(#[trigger] patterns[i], path) == Ok::<
                        bool,
                        Seq<char>,
                    >(true);
                assert(r[i] == Ok::<bool, Seq<char>>(true));
            }
        },
        Err(e) => {
            let i = choose|i: int|
                0 <= i < r.len() && #[trigger] r[i] == Err::<bool, Seq<char>>(e) && forall|j: int|
                    0 <= j < i ==> (#[trigger] r[j]) is Ok;
            assert(glob_result(patterns[i], path) == Err::<bool, Seq<char>>(e));
            assert forall|j: int| 0 <= j < i implies glob_result(#[trigger] patterns[j], path) is Ok by {
                assert(r[j] is Ok);
            }
        },
    }
}

proof fn lemma_invalid(r: Seq<Result<bool, Seq<char>>>)
    ensures
        match first_invalid(r) {
            None => forall|i: int| 0 <= i < r.len() ==> (#[trigger] r[i]) is Ok,
            Some(e) => exists|i: int|
                0 <= i < r.len() && #[trigger] r[i] == Err::<bool, Seq<char>>(e) && forall|j: int|
                    0 <= j < i ==> (#[trigger] r[j]) is Ok,
        },
    decreases r.len(),
{
    if r.len() > 0 {
        let d = r.drop_last();
        let n = r.len() - 1;
        assert(r[n] == r.last());
        lemma_invalid(d);
        match first_invalid(d) {
            Some(e) => {
                let i = choose|i: int|
                    0 <= i < d.len() && #[trigger] d[i] == Err::<bool, Seq<char>>(e) && forall|j: int|
                        0 <= j < i ==> (#[trigger] d[j]) is Ok;
                assert(r[i] == d[i]);
                assert forall|j: int| 0 <= j < i implies (#[trigger] r[j]) is Ok by {
                    assert(r[j] == d[j]);
                }
            },
            None => {
                assert forall|j: int| 0 <= j < n implies (#[trigger] r[j]) is Ok by {
                    assert(r[j] == d[j]);
                }
            },
        }
    }
}

/// A pattern for all that lies in a directory is joined by one for the directory itself, and by
/// nothing else.
pub proof fn law_directory_patterns(patterns: Seq<Seq<char>>, q: Seq<char>)
    ensures
        with_variants(patterns).contains(q) <==> patterns.contains(q) || patterns.contains(
            q + "/*"@,
        ) || patterns.contains(q + "/**"@),
    decreases patterns.len(),
{
    reveal_strlit("/*");
    reveal_strlit("/**");
    if patterns.len() > 0 {
        let d = patterns.drop_last();
        let p = patterns.last();
        let before = with_variants(d);
        let after = with_variants(patterns);
        law_directory_patterns(d, q);
        lemma_contains_last(patterns, q);
        lemma_contains_last(patterns, q + "/*"@);
        lemma_contains_last(patterns, q + "/**"@);
        let own = before.push(p);
        lemma_contains_last(own, q);
        assert(own.drop_last() =~= before);
        if ends(p, "/*"@) {
            let v = p.take(p.len() - 2);
            assert(p =~= v + "/*"@);
            lemma_contains_last(own.push(v), q);
            assert(own.push(v).drop_last() =~= own);
            assert(p[p.len() - 2] == '/');
            if p == q + "/*"@ {
                assert(v =~= q);
            }
            if p == q + "/**"@ {
                assert(p[p.len() - 2] == '*');
            }
        } else if ends(p, "/**"@) {
            let v = p.take(p.len() - 3);
            assert(p =~= v + "/**"@);
            lemma_contains_last(own.push(v), q);
            assert(own.push(v).drop_last() =~= own);
            if p == q + "/**"@ {
                assert(v =~= q);
            }
            if p == q + "/*"@ {
                assert(p.skip(p.len() - 2) =~= "/*"@);
            }
        } else {
            if p == q + "/*"@ {
                assert(p.skip(p.len() - 2) =~= "/*"@);
            }
            if p == q + "/**"@ {
                assert(p.skip(p.len() - 3) =~= "/**"@);
            }
        }
    }
}

proof fn lemma_contains_last(s: Seq<Seq<char>>, q: Seq<char>)
    requires
        s.len() > 0,
    ensures
        s.contains(q) <==> s.drop_last().contains(q) || s.last() == q,
{
    let d = s.drop_last();
    if s.contains(q) {
        let i = choose|i: int| 0 <= i < s.len() && s[i] == q;
        if i < d.len() {
            assert(d[i] == q);
        }
    }
    if d.contains(q) {
        let i = choose|i: int| 0 <= i < d.len() && d[i] == q;
        assert(s[i] == q);
    }
    assert(s[s.len() - 1] == s.last());
}

// ---------------------------------------------------------------------------------------------
// The source of the standard library

/// The first of the directories that holds the source counts.
pub proof fn law_first_source(answers: Seq<bool>)
    ensures
        0 <= first_yes(answers) <= answers.len(),
        first_yes(answers) < answers.len() ==> answers[first_yes(answers)],
        forall|i: int| 0 <= i < first_yes(answers) ==> !(#[trigger] answers[i]),
    decreases answers.len(),
{
    if answers.len() > 0 && !answers[0] {
        let t = answers.skip(1);
        law_first_source(t);
        assert forall|i: int| 0 <= i < first_yes(answers) implies !(#[trigger] answers[i]) by {
            if i > 0 {
                assert(answers[i] == t[i - 1]);
            }
        }
    }
}

/// The source is looked for in `lib/std` below the nearest five directories, nearest first.
pub proof fn law_source_is_near(ancestors: Seq<Seq<char>>, i: int)
    requires
        0 <= i < ancestors.len(),
        ancestors[i].len() > 0,
    ensures
        source_candidates_of(ancestors).len() <= 5,
        source_candidates_of(ancestors).len() <= ancestors.len(),
        i < 5 ==> i < source_candidates_of(ancestors).len(),
        i < 5 ==> components(source_candidates_of(ancestors)[i]) == components(ancestors[i])
            + components("lib/std"@),
{
    reveal_strlit("lib/std");
    if i < 5 {
        assert("lib/std"@[0] == 'l');
        crate::path::law_join_appends_components(ancestors[i], "lib/std"@);
    }
}

/// Two load paths are the same exactly where they are of one kind, with the same package, tag or URL, and
/// their paths have the same components.
pub proof fn law_same_load_paths(
    p: Seq<char>,
    q: Seq<char>,
    s: Option<Seq<char>>,
    t: Option<Seq<char>>,
    x: Seq<char>,
    y: Seq<char>,
    m: bool,
    n: bool,
)
    ensures
        same_spec(
            LoadSpecView::Package { package: p, tag: s, path: x },
            LoadSpecView::Package { package: q, tag: t, path: y },
        ) <==> p == q && s == t && components(x) == components(y),
        same_spec(
            LoadSpecView::Stdlib { tag: s, path: x },
            LoadSpecView::Stdlib { tag: t, path: y },
        ) <==> s == t && components(x) == components(y),
        same_spec(LoadSpecView::Url { url: p }, LoadSpecView::Url { url: q }) <==> p == q,
        same_spec(LoadSpecView::PackageUri { uri: p }, LoadSpecView::PackageUri { uri: q }) <==> p
            == q,
        same_spec(
            LoadSpecView::Path { path: x, allow_not_exist: m },
            LoadSpecView::Path { path: y, allow_not_exist: n },
        ) <==> components(x) == components(y) && m == n,
        !same_spec(
            LoadSpecView::Package { package: p, tag: s, path: x },
            LoadSpecView::Stdlib { tag: t, path: y },
        ),
        !same_spec(
            LoadSpecView::Package { package: p, tag: s, path: x },
            LoadSpecView::Url { url: q },
        ),
        !same_spec(
            LoadSpecView::Path { path: x, allow_not_exist: m },
            LoadSpecView::Url { url: q },
        ),
{
}

} // verus!
