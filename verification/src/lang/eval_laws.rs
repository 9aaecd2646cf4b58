//! What holds of every module that is evaluated, and of what it loads.

use vstd::prelude::*;

use crate::diagnostic::{reports, Diagnostic, DiagnosticView, PlaceView, Severity};
use crate::frozen::{identity_url, FrozenPackage};
use crate::lang::eval::{accepted, all_instantiated, analyzed, asked_for, checks_of, child_reports};
use crate::lang::eval::{crosses, eval_result, expanded, finished, first_error, flat, has_error};
use crate::lang::eval::{in_chain, inside, instantiated, is_dependency, lacks_name, leads_to};
use crate::lang::eval::{load_failure, load_warning, load_warnings, loaded_by, loader_file};
use crate::lang::eval::{modifier_calls, path_placed, placed, prelude_modules, prelude_names_of};
use crate::lang::eval::{root_config, shared_names, sibling_of, symbol_kind_of, testbenches_of};
use crate::lang::eval::{unused_names, url_outcome, warnings_of, with_layout_reference, with_names};
use crate::lang::eval::{with_prelude, AnswersView, ConfigView, DefinedName, EvaluatedNet};
use crate::lang::eval::{LoadStatement, ModuleChecks, PlacementView, TargetView};
use crate::load_spec::LoadSpecView;
use crate::map::{find, keys_of};
use crate::path::{lies_under, parent_of, path_joined, same_path};
use crate::resolved::{scope_of, ResolutionResult};
use crate::schematic::{AttributeView, InstanceKind, InstanceView, ScalarView};
use crate::text::{begins, last_at, lemma_last_at, opt_text, replaced, texts};
use crate::workspace::{covers, is_longest_cover, law_longest_cover_is_unique};
use crate::{FileProvider, SymbolKind};

verus! {

// ---------------------------------------------------------------------------------------------
// Configurations

/// A root stands at the top of the tree, loads nothing yet, and has the prelude at hand.
pub proof fn law_root_configuration()
    ensures
        root_config().tree_path.len() == 0,
        root_config().load_chain.len() == 0,
        root_config().source_path is None,
        root_config().active_root_package is None,
        !root_config().strict_io_config,
        !root_config().build_circuit,
        root_config().inject_prelude,
{
}

/// A module that is loaded is evaluated on its own: its inputs need not be given and what lies inside
/// is not made. The package whose dependencies count stays, and the loading file joins the chain of
/// those that wait.
pub proof fn law_configuration_of_load(c: ConfigView, child: Seq<Seq<char>>)
    ensures
        ({
            let r = loaded_by(c, child);
            &&& r.tree_path == child
            &&& r.active_root_package == c.active_root_package
            &&& r.inject_prelude == c.inject_prelude
            &&& r.eager == c.eager
            &&& !r.strict_io_config
            &&& !r.build_circuit
            &&& r.source_path is None
            &&& r.contents is None
            &&& r.load_chain == c.load_chain + (match c.source_path {
                Some(f) => seq![f],
                None => Seq::<Seq<char>>::empty(),
            })
        }),
{
    match c.source_path {
        Some(f) => {
            assert(c.load_chain.push(f) =~= c.load_chain + seq![f]);
        },
        None => {
            assert(c.load_chain =~= c.load_chain + Seq::<Seq<char>>::empty());
        },
    }
}

/// A module inside another stands below it in the tree, under its name; no file waits for it.
pub proof fn law_configuration_inside(c: ConfigView, name: Seq<char>, path: Seq<char>)
    ensures
        ({
            let r = inside(c, name);
            &&& r.tree_path == c.tree_path + seq![name]
            &&& !in_chain(r.load_chain, path)
            &&& r.active_root_package == c.active_root_package
            &&& r.inject_prelude == c.inject_prelude
            &&& r.eager == c.eager
            &&& r.source_path is None
            &&& r.contents is None
        }),
{
    assert(c.tree_path.push(name) =~= c.tree_path + seq![name]);
}

/// A module knows its file. The files of the standard library do without the prelude, and a package
/// that is known stays the one whose dependencies count.
pub proof fn law_configuration_of_file(
    c: ConfigView,
    resolution: &ResolutionResult,
    path: Seq<char>,
    canonical: Seq<char>,
)
    ensures
        ({
            let r = placed(c, resolution, path, canonical);
            &&& r.source_path == Some(path)
            &&& r.tree_path == c.tree_path
            &&& r.load_chain == c.load_chain
            &&& r.contents == c.contents
            &&& r.strict_io_config == c.strict_io_config
            &&& r.build_circuit == c.build_circuit
            &&& lies_under(path, resolution.workspace_info.stdlib_dir_of()) ==> !r.inject_prelude
            &&& !lies_under(path, resolution.workspace_info.stdlib_dir_of()) ==> r.inject_prelude
                == c.inject_prelude
            &&& c.active_root_package is Some ==> r.active_root_package == c.active_root_package
            &&& c.active_root_package is None ==> r.active_root_package == resolution.root_of_file(
                canonical,
            )
        }),
{
}

// ---------------------------------------------------------------------------------------------
// Where load paths lead

/// Whether a URL is that of a package or of something below it.
pub open spec fn lies_at(url: Seq<char>, package: Seq<char>) -> bool {
    url == package || exists|t: Seq<char>| url == #[trigger] (package + seq!['/'] + t)
}

/// Whether a package is the one among some whose URL says most of another.
pub open spec fn is_best_of(packages: Seq<Seq<char>>, package: Seq<char>, url: Seq<char>) -> bool {
    packages.contains(package) && lies_at(url, package) && forall|i: int|
        0 <= i < packages.len() && lies_at(url, #[trigger] packages[i]) ==> packages[i].len()
            <= package.len()
}

pub proof fn lemma_covers(package: Seq<char>, url: Seq<char>)
    ensures
        covers(package, url) <==> lies_at(url, package),
{
    if covers(package, url) && url != package {
        let t = url.skip(package.len() as int + 1);
        assert(url =~= package + seq!['/'] + t);
    }
    if url != package && lies_at(url, package) {
        let t = choose|t: Seq<char>| url == #[trigger] (package + seq!['/'] + t);
        assert(url.take(package.len() as int) =~= package);
    }
}

pub proof fn lemma_best(packages: Seq<Seq<char>>, package: Seq<char>, url: Seq<char>)
    ensures
        is_longest_cover(packages, url, Some(package)) <==> is_best_of(packages, package, url),
{
    lemma_covers(package, url);
    assert forall|i: int| 0 <= i < packages.len() implies covers(#[trigger] packages[i], url)
        == lies_at(url, packages[i]) by {
        lemma_covers(packages[i], url);
    }
}

/// A URL below a dependency leads to the path below its root, where no other dependency covers the URL
/// better and the URL does not lead back into the package.
pub proof fn law_url_leads_into_dependency(
    resolution: &ResolutionResult,
    package: FrozenPackage,
    dep: Seq<char>,
    rest: Seq<char>,
    file: Seq<char>,
    r: Result<TargetView, Seq<char>>,
)
    requires
        rest.len() > 0,
        leads_to(resolution, package, dep + seq!['/'] + rest, file, r),
        is_best_of(keys_of(package.deps.entries@), dep, dep + seq!['/'] + rest),
        identity_url(package.identity@).len() < dep.len(),
    ensures
        r is Ok,
        opt_text(find(package.deps.entries@, dep)) == Some(r->Ok_0.root),
        r->Ok_0.relative_path == rest,
        r->Ok_0.full_path == path_joined(r->Ok_0.root, rest),
{
    let url = dep + seq!['/'] + rest;
    lemma_best(keys_of(package.deps.entries@), dep, url);
    assert(is_dependency(package, url, dep));
    let other = choose|d: Seq<char>| #[trigger]
        is_dependency(package, url, d) && opt_text(find(package.deps.entries@, d)) == Some(
            r->Ok_0.root,
        ) && r->Ok_0.relative_path == crate::lang::eval::within_dependency(url, d)
            && r->Ok_0.full_path == crate::lang::eval::path_within(
            r->Ok_0.root,
            r->Ok_0.relative_path,
        );
    law_longest_cover_is_unique(keys_of(package.deps.entries@), url, Some(dep), Some(other));
    reveal_strlit("/");
    assert(url.take(dep.len() as int) =~= dep);
    let tail = url.skip(dep.len() as int);
    assert(tail =~= seq!['/'] + rest);
    assert(tail.take(1) =~= "/"@);
    assert(tail.skip(1) =~= rest);
}

/// A URL is accepted exactly where it leads somewhere and the file is there.
pub proof fn law_target_must_exist(t: Result<TargetView, Seq<char>>, file_exists: bool)
    ensures
        match accepted(t, file_exists) {
            Ok(path) => t is Ok && file_exists && path == t->Ok_0.full_path,
            Err(_) => t is Err || !file_exists,
        },
{
}

/// The standard library is found below its own directory, from every file of a package.
pub proof fn law_standard_library_is_at_hand<F: FileProvider>(
    file_provider: &F,
    c: ConfigView,
    resolution: &ResolutionResult,
    file: Seq<char>,
    tag: Option<Seq<char>>,
    path: Seq<char>,
    file_exists: bool,
    r: Result<Seq<char>, Seq<char>>,
)
    requires
        path.len() > 0,
        scope_of(resolution.resolution.entries@, file, c.active_root_package) is Some,
        url_outcome(
            file_provider,
            c,
            resolution,
            file,
            LoadSpecView::Stdlib { tag, path },
            file_exists,
            r,
        ),
    ensures
        r == Ok::<_, Seq<char>>(path_joined(resolution.workspace_info.stdlib_dir_of(), path)),
{
}

/// A file lies in the same package exactly where its root is that of the package and the workspace
/// does not tell the two files apart.
pub proof fn law_same_package(
    target_root: Option<Seq<char>>,
    root: Seq<char>,
    current_url: Option<Seq<char>>,
    target_url: Option<Seq<char>>,
)
    ensures
        !crosses(target_root, root, current_url, target_url) <==> target_root is Some && same_path(
            target_root->Some_0,
            root,
        ) && (current_url == target_url || current_url is None || target_url is None),
{
}

proof fn lemma_no_backslash(s: Seq<char>)
    requires
        !s.contains('\\'),
    ensures
        replaced(s, "\\"@, "/"@) == s,
    decreases s.len(),
{
    reveal_strlit("\\");
    if s.len() > 0 {
        let t = s.skip(1);
        assert(s.contains(s[0]));
        if begins(s, "\\"@) {
            assert(s.take(1)[0] == s[0]);
        }
        if t.contains('\\') {
            let i = choose|i: int| 0 <= i < t.len() && t[i] == '\\';
            assert(s[i + 1] == '\\');
        }
        lemma_no_backslash(t);
        assert(seq![s[0]] + t =~= s);
    }
}

/// A path that a file names is read from the directory that the file's own URL lies in.
pub proof fn law_path_beside_file(dir: Seq<char>, name: Seq<char>, path: Seq<char>)
    requires
        !name.contains('/'),
        !path.contains('\\'),
    ensures
        sibling_of(dir + seq!['/'] + name, path) == dir + seq!['/'] + path,
{
    let url = dir + seq!['/'] + name;
    lemma_last_at(url, '/');
    let k = last_at(url, '/');
    assert(url[dir.len() as int] == '/');
    if k > dir.len() {
        assert(name[k - dir.len() - 1] == '/');
    }
    assert(url.take(k) =~= dir);
    lemma_no_backslash(path);
    reveal_strlit("/");
    assert("/"@ =~= seq!['/']);
}

/// What a load path was resolved to is taken as it is; it must exist, unless the load path says
/// otherwise, and must be written as it stands on disk.
pub proof fn law_resolved_path_is_taken(
    asked: LoadSpecView,
    path: Seq<char>,
    canonical: Option<Result<Seq<char>, Seq<char>>>,
)
    ensures
        match finished(asked, path, canonical) {
            Ok(p) => p == path && match canonical {
                None => asked is Path && asked->allow_not_exist,
                Some(Ok(c)) => !crate::case_differs(path, c),
                Some(Err(_)) => false,
            },
            Err(_) => match canonical {
                None => !(asked is Path && asked->allow_not_exist),
                Some(Ok(c)) => crate::case_differs(path, c),
                Some(Err(_)) => true,
            },
        },
{
}

/// A path within the package leads to the file itself, and one that leaves it to a URL; no file that
/// belongs to no package has either.
pub proof fn law_path_stays_in_package(
    c: ConfigView,
    resolution: &ResolutionResult,
    file: Seq<char>,
    path: Seq<char>,
    a: AnswersView,
)
    ensures
        match path_placed(c, resolution, file, path, a) {
            Ok(PlacementView::Here { path: p }) => p == a.target && !crate::case_differs(path, p)
                && !crate::lang::eval::leaves_package(c, resolution, a),
            Ok(PlacementView::Elsewhere { .. }) => crate::lang::eval::leaves_package(c, resolution, a),
            Err(_) => scope_of(resolution.resolution.entries@, file, c.active_root_package) is None
                || crate::lang::eval::leaves_package(c, resolution, a) || crate::case_differs(
                path,
                a.target,
            ),
        },
        scope_of(resolution.resolution.entries@, file, c.active_root_package) is None
            ==> path_placed(c, resolution, file, path, a) is Err,
{
}

/// The name of a package stands for a dependency of the package that the file belongs to; the tag and
/// the path stay. All other load paths stay as they are.
pub proof fn law_aliases_are_dependencies(
    c: ConfigView,
    resolution: &ResolutionResult,
    file: Seq<char>,
    asked: LoadSpecView,
)
    ensures
        !(asked is Package) ==> expanded(c, resolution, file, asked) == Ok::<_, Seq<char>>(asked),
        asked is Package ==> match expanded(c, resolution, file, asked) {
            Ok(r) => {
                let scope = scope_of(resolution.resolution.entries@, file, c.active_root_package);
                &&& scope is Some
                &&& r is Package
                &&& keys_of(scope->Some_0.1.deps.entries@).contains(r->Package_package)
                &&& crate::text::after_last(r->Package_package, '/') == asked->Package_package
                &&& r->Package_tag == asked->Package_tag
                &&& r->Package_path == asked->Package_path
            },
            Err(_) => true,
        },
{
    if asked is Package && expanded(c, resolution, file, asked) is Ok {
        let scope = scope_of(resolution.resolution.entries@, file, c.active_root_package);
        lemma_aliased(keys_of(scope->Some_0.1.deps.entries@), asked->Package_package);
    }
}

proof fn lemma_aliased(keys: Seq<Seq<char>>, alias: Seq<char>)
    ensures
        match crate::frozen::aliased(keys, alias) {
            Some(url) => keys.contains(url) && crate::text::after_last(url, '/') == alias,
            None => true,
        },
    decreases keys.len(),
{
    if keys.len() > 0 {
        let t = keys.skip(1);
        lemma_aliased(t, alias);
        assert(keys.contains(keys[0]));
        if let Some(url) = crate::frozen::aliased(t, alias) {
            let i = choose|i: int| 0 <= i < t.len() && t[i] == url;
            assert(keys[i + 1] == url);
        }
    }
}

/// A stable reference stands for the path below the root of the package that it names. All other load
/// paths stand for themselves.
pub proof fn law_reference_stands_for_path(
    resolution: &ResolutionResult,
    coord: Seq<char>,
    rest: Seq<char>,
    s: LoadSpecView,
    r: Result<LoadSpecView, Seq<char>>,
)
    requires
        asked_for(resolution, s, r),
    ensures
        !(s is PackageUri) ==> r == Ok::<_, Seq<char>>(s),
        s == (LoadSpecView::PackageUri { uri: "package://"@ + coord + seq!['/'] + rest })
            && is_best_of(
            keys_of(resolution.indexes.package_roots.entries@),
            coord,
            coord + seq!['/'] + rest,
        ) ==> r is Ok && r->Ok_0 is Path && Some(r->Ok_0->Path_path) == (match opt_text(
            find(resolution.indexes.package_roots.entries@, coord),
        ) {
            Some(root) => Some(path_joined(root, rest)),
            None => None,
        }) && !r->Ok_0->allow_not_exist,
{
    let uri = "package://"@ + coord + seq!['/'] + rest;
    let text = coord + seq!['/'] + rest;
    let keys = keys_of(resolution.indexes.package_roots.entries@);
    assert(uri.skip("package://"@.len() as int) =~= text);
    assert(uri.take("package://"@.len() as int) =~= "package://"@);
    if s == (LoadSpecView::PackageUri { uri }) && is_best_of(keys, coord, text) {
        lemma_best(keys, coord, text);
        if let Ok(asked) = r {
            let other = choose|d: Seq<char>| #[trigger]
                is_longest_cover(keys, text, Some(d)) && match crate::resolved::referenced_path(
                    resolution.indexes.package_roots.entries@,
                    d,
                    text,
                ) {
                    Some(path) => asked == (LoadSpecView::Path { path, allow_not_exist: false }),
                    None => false,
                };
            law_longest_cover_is_unique(keys, text, Some(coord), Some(other));
            assert(text.len() > coord.len());
            assert(text.skip(coord.len() as int + 1) =~= rest);
        } else {
            law_longest_cover_is_unique(keys, text, Some(coord), None);
        }
    }
}

// ---------------------------------------------------------------------------------------------
// Reports

/// Something comes out of a module exactly where its code did not fail and every net has a name or is
/// to be left open. What its loads report is reported first, and a failure last.
pub proof fn law_what_comes_out(
    loads: Seq<DiagnosticView>,
    failure: Option<DiagnosticView>,
    nets: Seq<EvaluatedNet>,
    children: Seq<DiagnosticView>,
    own: Seq<DiagnosticView>,
    style: Seq<DiagnosticView>,
)
    ensures
        ({
            let (out, r) = eval_result(loads, failure, nets, children, own, style);
            &&& out <==> failure is None && forall|i: int|
                0 <= i < nets.len() ==> !(#[trigger] nets[i]).awaits_name || nets[i].kind@
                    == "NotConnected"@
            &&& failure is Some ==> r == loads + seq![failure->Some_0]
            &&& failure is None && !out ==> r.len() == loads.len() + 1 && r.last().severity
                == Severity::Error && r.drop_last() == loads
            &&& out && !has_error(loads + children + own) ==> r == loads + children + own + style
            &&& out && has_error(loads + children + own) ==> r == loads + children + own
        }),
{
    let (out, r) = eval_result(loads, failure, nets, children, own, style);
    if failure is Some {
        assert(loads.push(failure->Some_0) =~= loads + seq![failure->Some_0]);
    } else if lacks_name(nets) {
        assert(r.drop_last() =~= loads);
    } else {
        assert forall|i: int| 0 <= i < nets.len() implies !(#[trigger] nets[i]).awaits_name
            || nets[i].kind@ == "NotConnected"@ by {}
    }
}

/// What modules inside report is reported module by module, in their order.
pub proof fn law_reports_in_order(v: Seq<Vec<Diagnostic>>, w: Seq<Vec<Diagnostic>>, x: Vec<Diagnostic>)
    ensures
        flat(v + w) == flat(v) + flat(w),
        flat(seq![x]) == reports(x@),
    decreases w.len(),
{
    let one = seq![x];
    assert(one.drop_last() =~= Seq::<Vec<Diagnostic>>::empty());
    assert(flat(one.drop_last()) + reports(x@) =~= reports(x@));
    if w.len() == 0 {
        assert(v + w =~= v);
        assert(flat(v) + flat(w) =~= flat(v));
    } else {
        let d = w.drop_last();
        law_reports_in_order(v, d, x);
        assert((v + w).drop_last() =~= v + d);
        assert((v + w).last() == w.last());
        assert(flat(v) + (flat(d) + reports(w.last()@)) =~= (flat(v) + flat(d)) + reports(
            w.last()@,
        ));
    }
}

/// A load fails with the first error that was reported, under the place of the load. What is kept of
/// it are all its warnings, and nothing else.
pub proof fn law_cause_of_failed_load(
    v: Seq<DiagnosticView>,
    has_output: bool,
    path: Seq<char>,
    source: PlaceView,
)
    ensures
        match load_failure(v, has_output, path, source) {
            Some(d) => d.severity == Severity::Error && d.path == source.path && d.span == source.span
                && match d.child {
                Some(cause) => exists|i: int|
                    0 <= i < v.len() && #[trigger] v[i] == *cause && v[i].severity == Severity::Error
                        && forall|j: int| 0 <= j < i ==> (#[trigger] v[j]).severity != Severity::Error,
                None => !has_output && !has_error(v),
            },
            None => has_output && !has_error(v),
        },
        forall|d: DiagnosticView| #[trigger]
            warnings_of(v).contains(d) <==> v.contains(d) && d.severity == Severity::Warning,
    decreases v.len(),
{
    lemma_first(v);
    if v.len() > 0 {
        let e = v.drop_last();
        law_cause_of_failed_load(e, has_output, path, source);
        let before = warnings_of(e);
        let after = warnings_of(v);
        assert(v[v.len() - 1] == v.last());
        assert forall|d: DiagnosticView| #[trigger]
            after.contains(d) <==> v.contains(d) && d.severity == Severity::Warning by {
            if after.contains(d) {
                let i = choose|i: int| 0 <= i < after.len() && after[i] == d;
                if i < before.len() {
                    assert(before[i] == d);
                    assert(before.contains(d));
                    let k = choose|k: int| 0 <= k < e.len() && e[k] == d;
                    assert(v[k] == d);
                }
            }
            if v.contains(d) && d.severity == Severity::Warning {
                let k = choose|k: int| 0 <= k < v.len() && v[k] == d;
                if k < e.len() {
                    assert(e[k] == d);
                    assert(before.contains(d));
                    let i = choose|i: int| 0 <= i < before.len() && before[i] == d;
                    assert(after[i] == d);
                } else {
                    assert(after[before.len() as int] == d);
                }
            }
        }
    }
}

proof fn lemma_first(v: Seq<DiagnosticView>)
    ensures
        match first_error(v) {
            Some(i) => 0 <= i < v.len() && v[i].severity == Severity::Error && forall|j: int|
                0 <= j < i ==> (#[trigger] v[j]).severity != Severity::Error,
            None => !has_error(v),
        },
    decreases v.len(),
{
    if v.len() > 0 {
        let d = v.drop_last();
        lemma_first(d);
        match first_error(d) {
            Some(i) => {
                assert(v[i] == d[i]);
                assert forall|j: int| 0 <= j < i implies (#[trigger] v[j]).severity
                    != Severity::Error by {
                    assert(v[j] == d[j]);
                }
            },
            None => {
                assert forall|j: int| 0 <= j < d.len() implies (#[trigger] v[j]).severity
                    != Severity::Error by {
                    assert(v[j] == d[j]);
                }
                assert(v[v.len() - 1] == v.last());
            },
        }
    }
}

/// Each warning of a module that is loaded is reported where it is loaded, with what it says beneath.
pub proof fn law_warnings_of_load(
    source: PlaceView,
    path: Seq<char>,
    warnings: Seq<DiagnosticView>,
    i: int,
)
    requires
        0 <= i < warnings.len(),
    ensures
        load_warnings(source, path, warnings).len() == warnings.len(),
        ({
            let d = load_warnings(source, path, warnings)[i];
            &&& d.path == source.path
            &&& d.span == source.span
            &&& d.severity == warnings[i].severity
            &&& d.child is Some
            &&& *d.child->Some_0 == warnings[i]
        }),
{
}

/// What a module inside reports is reported by the module around it, at the same severity: remarks on
/// style as they are, all else where the module is made. An argument that the module does not know adds
/// one error, and nothing else is added.
pub proof fn law_reports_of_child(
    v: Seq<DiagnosticView>,
    name: Seq<char>,
    call_site: PlaceView,
    provided: Seq<Seq<char>>,
    used: Seq<Seq<char>>,
)
    ensures
        ({
            let r = child_reports(v, name, call_site, Some((provided, used)));
            let known = forall|i: int|
                0 <= i < provided.len() ==> used.contains(#[trigger] provided[i]);
            &&& r.len() == v.len() + (if known {
                0int
            } else {
                1int
            })
            &&& r.take(v.len() as int) == child_reports(v, name, call_site, None)
            &&& !known ==> r.last().severity == Severity::Error && r.last().path == call_site.path
                && r.last().span == call_site.span
            &&& forall|i: int|
                0 <= i < v.len() ==> (#[trigger] r[i]).severity == v[i].severity && (if v[i].is_style {
                    r[i] == v[i]
                } else {
                    r[i].path == call_site.path && r[i].span == call_site.span && r[i].child is Some
                        && *r[i].child->Some_0 == v[i]
                })
        }),
{
    let wrapped = all_instantiated(v, name, call_site);
    let r = child_reports(v, name, call_site, Some((provided, used)));
    lemma_unused_names(provided, used);
    assert(r.take(v.len() as int) =~= wrapped);
    let unused = unused_names(provided, used);
    if forall|i: int| 0 <= i < provided.len() ==> used.contains(#[trigger] provided[i]) {
        if unused.len() > 0 {
            assert(unused.contains(unused[0]));
            let i = choose|i: int| 0 <= i < provided.len() && provided[i] == unused[0];
            assert(used.contains(provided[i]));
        }
    } else {
        let i = choose|i: int| 0 <= i < provided.len() && !used.contains(#[trigger] provided[i]);
        assert(provided.contains(provided[i]));
        assert(unused.contains(provided[i]));
        assert(r.last().severity == Severity::Error);
    }
    assert forall|i: int| 0 <= i < v.len() implies (#[trigger] r[i]).severity == v[i].severity && (if v[i].is_style {
        r[i] == v[i]
    } else {
        r[i].path == call_site.path && r[i].span == call_site.span && r[i].child is Some
            && *r[i].child->Some_0 == v[i]
    }) by {
        assert(r[i] == wrapped[i]);
        assert(wrapped[i] == instantiated(v[i], name, call_site));
    }
}

proof fn lemma_unused_names(provided: Seq<Seq<char>>, used: Seq<Seq<char>>)
    ensures
        forall|q: Seq<char>| #[trigger]
            unused_names(provided, used).contains(q) <==> provided.contains(q) && !used.contains(q),
    decreases provided.len(),
{
    if provided.len() > 0 {
        let d = provided.drop_last();
        lemma_unused_names(d, used);
        let before = unused_names(d, used);
        let after = unused_names(provided, used);
        assert(provided[provided.len() - 1] == provided.last());
        assert forall|q: Seq<char>| #[trigger]
            after.contains(q) <==> provided.contains(q) && !used.contains(q) by {
            assert(before.contains(q) <==> d.contains(q) && !used.contains(q));
            if after.contains(q) {
                let i = choose|i: int| 0 <= i < after.len() && after[i] == q;
                if i < before.len() {
                    assert(before[i] == q);
                    let k = choose|k: int| 0 <= k < d.len() && d[k] == q;
                    assert(provided[k] == q);
                }
            }
            if provided.contains(q) && !used.contains(q) {
                let k = choose|k: int| 0 <= k < provided.len() && provided[k] == q;
                if k < d.len() {
                    assert(d[k] == q);
                }
                if before.contains(q) {
                    let i = choose|i: int| 0 <= i < before.len() && before[i] == q;
                    assert(after[i] == q);
                } else {
                    assert(after[before.len() as int] == q);
                }
            }
        }
    }
}

// ---------------------------------------------------------------------------------------------
// The prelude

/// A load is pointed out exactly where it names something that the prelude takes from the same file.
pub proof fn law_needless_loads(files: Seq<Option<String>>, load: LoadStatement)
    requires
        files.len() == prelude_modules().len(),
        forall|i: int, j: int|
            0 <= i < j < files.len() && (#[trigger] files[i]) is Some && (#[trigger] files[j]) is Some
                ==> !same_path(files[i]->Some_0@, files[j]->Some_0@),
    ensures
        load_warning(files, load) is Some <==> load.target is Some && exists|i: int, name: Seq<char>|
            0 <= i < files.len() && #[trigger] is_file(files[i], load.target->Some_0@) && texts(
                load.names@,
            ).contains(name) && #[trigger] prelude_modules()[i].1.contains(name),
        match load_warning(files, load) {
            Some(n) => n.severity == Severity::Warning && n.kind == "stdlib.prelude_load"@,
            None => true,
        },
{
    if let Some(target) = load.target {
        let path = target@;
        let modules = prelude_modules();
        let names = texts(load.names@);
        let found = prelude_names_of(files, modules, path);
        lemma_prelude_names(files, modules, path);
        lemma_shared(names, found);
        let shared = shared_names(names, found);
        if shared.len() > 0 {
            let name = shared[0];
            assert(shared.contains(name));
            assert(found.contains(name));
            let i = choose|i: int|
                0 <= i < files.len() && is_file(#[trigger] files[i], path) && modules[i].1 == found;
            assert(is_file(files[i], path) && modules[i].1.contains(name));
        }
        if exists|i: int, name: Seq<char>|
            0 <= i < files.len() && #[trigger] is_file(files[i], path) && names.contains(name)
                && #[trigger] modules[i].1.contains(name) {
            let (i, name) = choose|i: int, name: Seq<char>|
                0 <= i < files.len() && #[trigger] is_file(files[i], path) && names.contains(name)
                    && #[trigger] modules[i].1.contains(name);
            let k = choose|k: int|
                0 <= k < files.len() && is_file(#[trigger] files[k], path) && modules[k].1 == found;
            if i < k {
                assert(!same_path(files[i]->Some_0@, files[k]->Some_0@));
            }
            if k < i {
                assert(!same_path(files[k]->Some_0@, files[i]->Some_0@));
            }
            assert(shared.contains(name));
        }
    }
}

/// Whether a file that is known is the one at a path.
pub open spec fn is_file(file: Option<String>, path: Seq<char>) -> bool {
    file is Some && same_path(file->Some_0@, path)
}

proof fn lemma_prelude_names(
    files: Seq<Option<String>>,
    modules: Seq<(Seq<char>, Seq<Seq<char>>)>,
    path: Seq<char>,
)
    requires
        files.len() == modules.len(),
    ensures
        ({
            let found = prelude_names_of(files, modules, path);
            ||| found.len() == 0 && forall|i: int|
                0 <= i < files.len() ==> !is_file(#[trigger] files[i], path)
            ||| exists|i: int|
                0 <= i < files.len() && is_file(#[trigger] files[i], path) && modules[i].1 == found
        }),
    decreases files.len(),
{
    if files.len() > 0 {
        let f = files.skip(1);
        let m = modules.skip(1);
        if is_file(files[0], path) {
            assert(modules[0].1 == prelude_names_of(files, modules, path));
        } else {
            lemma_prelude_names(f, m, path);
            let found = prelude_names_of(f, m, path);
            if exists|i: int| 0 <= i < f.len() && is_file(#[trigger] f[i], path) && m[i].1 == found {
                let i = choose|i: int|
                    0 <= i < f.len() && is_file(#[trigger] f[i], path) && m[i].1 == found;
                assert(files[i + 1] == f[i]);
                assert(modules[i + 1] == m[i]);
            } else {
                assert forall|i: int| 0 <= i < files.len() implies !is_file(#[trigger] files[i], path) by {
                    if i > 0 {
                        assert(files[i] == f[i - 1]);
                    }
                }
            }
        }
    }
}

proof fn lemma_shared(names: Seq<Seq<char>>, of: Seq<Seq<char>>)
    ensures
        forall|q: Seq<char>| #[trigger]
            shared_names(names, of).contains(q) <==> names.contains(q) && of.contains(q),
    decreases names.len(),
{
    if names.len() > 0 {
        let d = names.drop_last();
        lemma_shared(d, of);
        let before = shared_names(d, of);
        let after = shared_names(names, of);
        assert(names[names.len() - 1] == names.last());
        assert forall|q: Seq<char>| #[trigger]
            after.contains(q) <==> names.contains(q) && of.contains(q) by {
            assert(before.contains(q) <==> d.contains(q) && of.contains(q));
            if after.contains(q) {
                let i = choose|i: int| 0 <= i < after.len() && after[i] == q;
                if i < before.len() {
                    assert(before[i] == q);
                    let k = choose|k: int| 0 <= k < d.len() && d[k] == q;
                    assert(names[k] == q);
                }
            }
            if names.contains(q) && of.contains(q) {
                let k = choose|k: int| 0 <= k < names.len() && names[k] == q;
                if k < d.len() {
                    assert(d[k] == q);
                    let i = choose|i: int| 0 <= i < before.len() && before[i] == q;
                    assert(after[i] == q);
                } else {
                    assert(after[before.len() as int] == q);
                }
            }
        }
    }
}

/// A name of the prelude that a file does not define leads to the first module of the prelude that has
/// it, of those whose file is known; no other names are added.
pub proof fn law_prelude_names_are_added(
    index: Map<Seq<char>, Seq<char>>,
    files: Seq<Option<String>>,
    modules: Seq<(Seq<char>, Seq<Seq<char>>)>,
    q: Seq<char>,
)
    requires
        files.len() == modules.len(),
        !index.dom().contains(q),
    ensures
        with_prelude(index, files, modules).dom().contains(q) ==> exists|i: int|
            0 <= i < files.len() && (#[trigger] files[i]) is Some && modules[i].1.contains(q)
                && with_prelude(index, files, modules)[q] == files[i]->Some_0@ && forall|j: int|
                0 <= j < i && (#[trigger] files[j]) is Some ==> !modules[j].1.contains(q),
        !with_prelude(index, files, modules).dom().contains(q) ==> forall|i: int|
            0 <= i < files.len() && (#[trigger] files[i]) is Some ==> !modules[i].1.contains(q),
    decreases files.len(),
{
    if files.len() > 0 {
        let f = files.drop_last();
        let m = modules.drop_last();
        let n = files.len() - 1;
        law_prelude_names_are_added(index, f, m, q);
        let r = with_prelude(index, f, m);
        let s = with_prelude(index, files, modules);
        assert(files[n] == files.last());
        assert(modules[n] == modules.last());
        if files.last() is Some {
            lemma_names_added(r, modules.last().1, files.last()->Some_0@, q);
        }
        if r.dom().contains(q) {
            let i = choose|i: int|
                0 <= i < f.len() && (#[trigger] f[i]) is Some && m[i].1.contains(q) && r[q]
                    == f[i]->Some_0@ && forall|j: int|
                    0 <= j < i && (#[trigger] f[j]) is Some ==> !m[j].1.contains(q);
            assert(files[i] == f[i] && modules[i] == m[i]);
            assert forall|j: int| 0 <= j < i && (#[trigger] files[j]) is Some implies !modules[j].1.contains(
                q,
            ) by {
                assert(f[j] == files[j] && m[j] == modules[j]);
            }
        } else {
            assert forall|j: int| 0 <= j < n && (#[trigger] files[j]) is Some implies !modules[j].1.contains(
                q,
            ) by {
                assert(f[j] == files[j] && m[j] == modules[j]);
            }
            if s.dom().contains(q) {
                assert(files[n] is Some && modules[n].1.contains(q) && s[q] == files[n]->Some_0@);
            }
        }
    }
}

proof fn lemma_names_added(
    index: Map<Seq<char>, Seq<char>>,
    names: Seq<Seq<char>>,
    path: Seq<char>,
    q: Seq<char>,
)
    ensures
        with_names(index, names, path).dom().contains(q) <==> index.dom().contains(q)
            || names.contains(q),
        index.dom().contains(q) ==> with_names(index, names, path)[q] == index[q],
        !index.dom().contains(q) && names.contains(q) ==> with_names(index, names, path)[q] == path,
    decreases names.len(),
{
    if names.len() > 0 {
        let d = names.drop_last();
        lemma_names_added(index, d, path, q);
        assert(names[names.len() - 1] == names.last());
        if names.contains(q) {
            let i = choose|i: int| 0 <= i < names.len() && names[i] == q;
            if i < d.len() {
                assert(d[i] == q);
            }
        }
        if d.contains(q) {
            let i = choose|i: int| 0 <= i < d.len() && d[i] == q;
            assert(names[i] == q);
        }
    }
}

// ---------------------------------------------------------------------------------------------
// What is known of a module

/// The last definition of a name counts: it leads to the file that it loads, where it loads one, and is
/// known as what it is.
pub proof fn law_names_are_known(v: Seq<DefinedName>, i: int)
    requires
        0 <= i < v.len(),
        forall|k: int| i < k < v.len() ==> (#[trigger] v[k]).name@ != v[i].name@,
    ensures
        ({
            let (index, meta) = analyzed(v);
            let q = v[i].name@;
            &&& meta.dom().contains(q)
            &&& match v[i].loader {
                Some((path, params)) => index.dom().contains(q) && index[q] == path@ && meta[q].kind
                    == SymbolKind::Module && meta[q].source_path == Some(path@) && meta[q].parameters
                    == Some(texts(params@)),
                None => meta[q].kind == symbol_kind_of(v[i].type_label@) && meta[q].type_label
                    == v[i].type_label@ && meta[q].source_path is None && meta[q].parameters is None,
            }
        }),
    decreases v.len(),
{
    let d = v.drop_last();
    if i < d.len() {
        assert(d[i] == v[i]);
        assert forall|k: int| i < k < d.len() implies (#[trigger] d[k]).name@ != d[i].name@ by {
            assert(d[k] == v[k]);
        }
        law_names_are_known(d, i);
        assert(v[v.len() - 1].name@ != v[i].name@);
        assert(v.last().name@ != v[i].name@);
    }
}

/// Only names that a module defines are known.
pub proof fn law_only_defined_names_are_known(v: Seq<DefinedName>, q: Seq<char>)
    requires
        analyzed(v).0.dom().contains(q) || analyzed(v).1.dom().contains(q),
    ensures
        exists|i: int| 0 <= i < v.len() && (#[trigger] v[i]).name@ == q,
    decreases v.len(),
{
    if v.len() > 0 {
        let d = v.drop_last();
        assert(v[v.len() - 1] == v.last());
        if v.last().name@ != q {
            law_only_defined_names_are_known(d, q);
            let i = choose|i: int| 0 <= i < d.len() && (#[trigger] d[i]).name@ == q;
            assert(v[i] == d[i]);
        }
    }
}

/// A value is known by its type.
pub proof fn law_kinds_of_values(type_label: Seq<char>)
    ensures
        type_label == "NativeFunction"@ || type_label == "function"@ || type_label
            == "FrozenNativeFunction"@ <==> symbol_kind_of(type_label) == SymbolKind::Function,
        type_label == "ComponentFactory"@ || type_label == "ComponentType"@ <==> symbol_kind_of(
            type_label,
        ) == SymbolKind::Component,
        type_label == "InterfaceFactory"@ <==> symbol_kind_of(type_label) == SymbolKind::Interface,
        type_label == "ModuleLoader"@ <==> symbol_kind_of(type_label) == SymbolKind::Module,
{
    reveal_strlit("NativeFunction");
    reveal_strlit("function");
    reveal_strlit("FrozenNativeFunction");
    reveal_strlit("ComponentFactory");
    reveal_strlit("ComponentType");
    reveal_strlit("InterfaceFactory");
    reveal_strlit("ModuleLoader");
    assert("NativeFunction"@.len() == 14);
    assert("function"@.len() == 8);
    assert("FrozenNativeFunction"@.len() == 20);
    assert("ComponentFactory"@.len() == 16 && "ComponentFactory"@[0] == 'C');
    assert("ComponentType"@.len() == 13);
    assert("InterfaceFactory"@.len() == 16 && "InterfaceFactory"@[0] == 'I');
    assert("ModuleLoader"@.len() == 12);
}

/// A module that a file names by a relative path lies beside the file.
pub proof fn law_module_lies_beside_file(path: Seq<char>, file: Seq<char>)
    ensures
        crate::path::is_absolute(path) ==> loader_file(path, file) == path,
        !crate::path::is_absolute(path) && parent_of(file) is Some ==> loader_file(path, file)
            == path_joined(parent_of(file)->Some_0, path),
        parent_of(file) is None ==> loader_file(path, file) == path,
{
}

/// Every modifier is called on every child: for each child in turn those of the module itself, and
/// then those of its parents.
pub proof fn law_every_child_is_modified(
    children: Seq<usize>,
    own: Seq<usize>,
    parents: Seq<usize>,
    i: int,
    k: int,
)
    requires
        0 <= i < children.len(),
        0 <= k < own.len() + parents.len(),
    ensures
        modifier_calls(children, own, parents).len() == children.len() * (own.len() + parents.len()),
        0 <= i * (own.len() + parents.len()) + k < modifier_calls(children, own, parents).len(),
        modifier_calls(children, own, parents)[i * (own.len() + parents.len()) + k] == (
            if k < own.len() {
                own[k]
            } else {
                parents[k - own.len()]
            },
            children[i],
        ),
    decreases children.len(),
{
    let d = children.drop_last();
    let m = own + parents;
    let n = m.len() as int;
    let before = modifier_calls(d, own, parents);
    let after = modifier_calls(children, own, parents);
    lemma_call_count(d, own, parents);
    lemma_call_count(children, own, parents);
    assert(0 <= i * n + k < children.len() * n) by (nonlinear_arith)
        requires
            0 <= i < children.len(),
            0 <= k < n,
    ;
    if i < d.len() {
        law_every_child_is_modified(d, own, parents, i, k);
        assert(d[i] == children[i]);
        assert(after[i * n + k] == before[i * n + k]);
    } else {
        assert(i == d.len());
        assert(before.len() == i * n);
        assert(after[i * n + k] == (m[k], children.last()));
    }
}

proof fn lemma_call_count(children: Seq<usize>, own: Seq<usize>, parents: Seq<usize>)
    ensures
        modifier_calls(children, own, parents).len() == children.len() * (own.len() + parents.len()),
    decreases children.len(),
{
    if children.len() > 0 {
        let d = children.drop_last();
        let n = own.len() + parents.len();
        lemma_call_count(d, own, parents);
        assert((d.len() + 1) * n == d.len() * n + n) by (nonlinear_arith);
    } else {
        assert(0 * (own.len() + parents.len()) == 0);
    }
}

/// The checks and the test benches of a tree are those of its modules, each check with its module.
pub proof fn law_checks_of_modules(v: Seq<ModuleChecks>)
    ensures
        forall|h: usize| #[trigger]
            testbenches_of(v).contains(h) <==> exists|i: int|
                0 <= i < v.len() && (#[trigger] v[i]).testbenches@.contains(h),
        forall|h: usize, i: int| #[trigger]
            checks_of(v).contains((h, i)) <==> 0 <= i < v.len() && v[i].electrical_checks@.contains(h),
    decreases v.len(),
{
    if v.len() > 0 {
        let d = v.drop_last();
        let n = v.len() - 1;
        law_checks_of_modules(d);
        assert(v[n] == v.last());
        assert forall|h: usize| #[trigger]
            testbenches_of(v).contains(h) <==> exists|i: int|
                0 <= i < v.len() && (#[trigger] v[i]).testbenches@.contains(h) by {
            let before = testbenches_of(d);
            let own = v.last().testbenches@;
            let after = testbenches_of(v);
            if after.contains(h) {
                let k = choose|k: int| 0 <= k < after.len() && after[k] == h;
                if k < before.len() {
                    assert(before[k] == h);
                    assert(before.contains(h));
                    let i = choose|i: int|
                        0 <= i < d.len() && (#[trigger] d[i]).testbenches@.contains(h);
                    assert(v[i] == d[i]);
                } else {
                    assert(own[k - before.len()] == h);
                    assert(v[n].testbenches@.contains(h));
                }
            }
            if exists|i: int| 0 <= i < v.len() && (#[trigger] v[i]).testbenches@.contains(h) {
                let i = choose|i: int|
                    0 <= i < v.len() && (#[trigger] v[i]).testbenches@.contains(h);
                if i < n {
                    assert(d[i] == v[i]);
                    assert(before.contains(h));
                    let k = choose|k: int| 0 <= k < before.len() && before[k] == h;
                    assert(after[k] == h);
                } else {
                    let k = choose|k: int| 0 <= k < own.len() && own[k] == h;
                    assert(after[before.len() + k] == h);
                }
            }
        }
        assert forall|h: usize, i: int| #[trigger]
            checks_of(v).contains((h, i)) <==> 0 <= i < v.len() && v[i].electrical_checks@.contains(
                h,
            ) by {
            let before = checks_of(d);
            let own = v.last().electrical_checks@;
            let more = Seq::new(own.len(), |k: int| (own[k], v.len() - 1));
            let after = checks_of(v);
            assert(after == before + more);
            assert(before.contains((h, i)) <==> 0 <= i < d.len() && d[i].electrical_checks@.contains(
                h,
            ));
            if after.contains((h, i)) {
                let k = choose|k: int| 0 <= k < after.len() && after[k] == (h, i);
                if k < before.len() {
                    assert(before[k] == (h, i));
                    assert(v[i] == d[i]);
                } else {
                    assert(more[k - before.len()] == (h, i));
                    assert(own[k - before.len()] == h);
                }
            }
            if 0 <= i < v.len() && v[i].electrical_checks@.contains(h) {
                if i < n {
                    assert(d[i] == v[i]);
                    let k = choose|k: int| 0 <= k < before.len() && before[k] == (h, i);
                    assert(after[k] == (h, i));
                } else {
                    let k = choose|k: int| 0 <= k < own.len() && own[k] == h;
                    assert(more[k] == (h, i));
                    assert(after[before.len() + k] == (h, i));
                }
            }
        }
    }
}

/// Only the layout path of a module becomes a reference, where it is none already; nothing else of the
/// schematic changes.
pub proof fn law_layout_paths_become_references(
    i: InstanceView,
    path: Seq<char>,
    reference: Seq<char>,
    key: Seq<char>,
)
    ensures
        with_layout_reference(i, None) == i,
        i.kind != InstanceKind::Module ==> with_layout_reference(i, Some(reference)) == i,
        ({
            let r = with_layout_reference(i, Some(reference));
            &&& r.kind == i.kind
            &&& r.children == i.children
            &&& key != "layout_path"@ ==> r.attributes.dom().contains(key) == i.attributes.dom().contains(
                key,
            ) && (i.attributes.dom().contains(key) ==> r.attributes[key] == i.attributes[key])
            &&& i.kind == InstanceKind::Module && i.attributes.dom().contains("layout_path"@)
                && i.attributes["layout_path"@] == AttributeView::One(ScalarView::Text(path)) ==> (
            r.attributes["layout_path"@] == AttributeView::One(
                ScalarView::Text(
                    if begins(path, "package://"@) {
                        path
                    } else {
                        reference
                    },
                ),
            ))
        }),
{
}

} // verus!
