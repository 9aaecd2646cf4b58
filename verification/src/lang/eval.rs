//! The evaluation of modules: how load paths are resolved, how the contexts of nested evaluations
//! follow from one another, and what becomes of what an evaluation reports.
//!
//! Running code and reading files are the business of the caller, who hands the answers in.

use starlark::collections::SmallMap;
use vstd::prelude::*;

use crate::convert::{param_fits, ModuleParam};
use crate::diagnostic::{caused, extend_reports, lemma_reports_push, plain, reports, somewhere_in};
use crate::diagnostic::{Diagnostic, DiagnosticView, Notice, NoticeView, Place, PlaceView, Severity};
use crate::frozen::{aliased, identity_text, identity_url, FrozenPackage, PackageUrlResolution};
use crate::frozen::ResolvedPackageScope;
use crate::lang::session::{info_of, kept, law_cache, law_forgotten_references, lemma_kept_agrees};
use crate::lang::session::{opt_texts, place_of, refers, same_key, without_file, without_key};
use crate::lang::session::{CacheKey, EvalSession, SymbolInfoView};
use crate::lang::value::{copy_handles, extends, lemma_extends_item, lemma_extends_transitive};
use crate::lang::value::{refers_below, well_founded, DictKey, Item, Store};
use crate::load_spec::{same_spec, LoadSpec, LoadSpecView, PACKAGE_URI_PREFIX};
use crate::map::{find, keys_of, lemma_viewed_insert, text_entries, viewed, SortedMap};
use crate::path::{components, extension, extension_of, file_name, file_name_of, file_stem};
use crate::path::{file_stem_of, is_absolute, lies_under, parent, parent_of, path_eq, path_join};
use crate::path::{path_joined, path_starts_with, same_path};
use crate::resolved::{canonical_or_same, file_url, indexed_owner, referenced_path, scope_of};
use crate::resolved::ResolutionResult;
use crate::schematic::{make_text, text_attribute, AttributeValue, AttributeView, Instance};
use crate::schematic::{InstanceKind, InstancePath, InstanceView, IoDirection, Json, Scalar};
use crate::schematic::ScalarView;
use crate::small_map::{count_handles, distinct, handle_at, handles_in, lemma_place, lemma_put};
use crate::small_map::{new_handles, place, put, put_handle, under};
use crate::text::{as_opt_str, begins, clone_opt, clone_texts, contains_text, cut_last, join};
use crate::text::{joined, lemma_texts_push, opt_str, opt_text, replace_all, replaced, rsplit_once};
use crate::text::{same, starts_with, strip_prefix, texts};
use crate::workspace::{covers, is_longest_cover, law_longest_cover_is_unique, WorkspaceInfo};
use crate::{asked_canonical, asked_whether_exists, case_differs, holds_spec, made_canonical};
use crate::{normalize_url_path, specs, url_segments, validate_path_case_with_canonical};
use crate::{FileProvider, ResolveContext, SymbolInfo, SymbolKind};

verus! {

/// What is wrong with a load.
pub struct EvalError {
    pub message: String,
}

// ---------------------------------------------------------------------------------------------
// Configurations

/// How a module is evaluated.
pub struct EvalContextConfig {
    /// The names on the way from the root to the module.
    pub tree_path: InstancePath,
    /// The files whose loads led to this one.
    pub load_chain: Vec<String>,
    /// The file of the module.
    pub source_path: Option<String>,
    /// The package whose dependencies count.
    pub active_root_package: Option<String>,
    /// The text of the module, where it is given.
    pub contents: Option<String>,
    /// Whether a value that is neither given nor optional is an error.
    pub strict_io_config: bool,
    /// Whether the modules inside are made.
    pub build_circuit: bool,
    /// Whether all files of the workspace are read at once.
    pub eager: bool,
    /// Whether the names of the prelude are at hand.
    pub inject_prelude: bool,
}

/// The contents of a configuration.
pub struct ConfigView {
    pub tree_path: Seq<Seq<char>>,
    pub load_chain: Seq<Seq<char>>,
    pub source_path: Option<Seq<char>>,
    pub active_root_package: Option<Seq<char>>,
    pub contents: Option<Seq<char>>,
    pub strict_io_config: bool,
    pub build_circuit: bool,
    pub eager: bool,
    pub inject_prelude: bool,
}

impl View for EvalContextConfig {
    type V = ConfigView;

    open spec fn view(&self) -> ConfigView {
        ConfigView {
            tree_path: self.tree_path@,
            load_chain: texts(self.load_chain@),
            source_path: opt_text(self.source_path),
            active_root_package: opt_text(self.active_root_package),
            contents: opt_text(self.contents),
            strict_io_config: self.strict_io_config,
            build_circuit: self.build_circuit,
            eager: self.eager,
            inject_prelude: self.inject_prelude,
        }
    }
}

/// The configuration of a root.
pub open spec fn root_config() -> ConfigView {
    ConfigView {
        tree_path: Seq::<Seq<char>>::empty(),
        load_chain: Seq::<Seq<char>>::empty(),
        source_path: None,
        active_root_package: None,
        contents: None,
        strict_io_config: false,
        build_circuit: false,
        eager: true,
        inject_prelude: true,
    }
}

/// A configuration with the file of its module. The standard library does without the prelude. The
/// package whose dependencies count is that of the file, unless it is known.
pub open spec fn placed(
    c: ConfigView,
    resolution: &ResolutionResult,
    path: Seq<char>,
    canonical: Seq<char>,
) -> ConfigView {
    ConfigView {
        inject_prelude: c.inject_prelude && !lies_under(
            path,
            resolution.workspace_info.stdlib_dir_of(),
        ),
        active_root_package: match c.active_root_package {
            Some(p) => Some(p),
            None => resolution.root_of_file(canonical),
        },
        source_path: Some(path),
        ..c
    }
}

/// The configuration for a module that another loads, before its file is set.
pub open spec fn loaded_by(c: ConfigView, child: Seq<Seq<char>>) -> ConfigView {
    ConfigView {
        tree_path: child,
        load_chain: match c.source_path {
            Some(s) => c.load_chain.push(s),
            None => c.load_chain,
        },
        source_path: None,
        contents: None,
        strict_io_config: false,
        build_circuit: false,
        ..c
    }
}

/// The configuration for a module inside another, before its file is set. Loads start anew.
pub open spec fn inside(c: ConfigView, name: Seq<char>) -> ConfigView {
    ConfigView {
        tree_path: c.tree_path.push(name),
        load_chain: Seq::<Seq<char>>::empty(),
        source_path: None,
        contents: None,
        strict_io_config: false,
        build_circuit: false,
        ..c
    }
}

/// Whether a load chain holds a file.
pub open spec fn in_chain(chain: Seq<Seq<char>>, path: Seq<char>) -> bool {
    exists|i: int| 0 <= i < chain.len() && same_path(#[trigger] chain[i], path)
}

impl EvalContextConfig {
    /// The configuration of a root.
    pub fn new() -> (r: EvalContextConfig)
        ensures
            r@ == root_config(),
    {
        let r = EvalContextConfig {
            tree_path: InstancePath { segments: Vec::new() },
            load_chain: Vec::new(),
            source_path: None,
            active_root_package: None,
            contents: None,
            strict_io_config: false,
            build_circuit: false,
            eager: true,
            inject_prelude: true,
        };
        proof {
            assert(r@.tree_path =~= Seq::<Seq<char>>::empty());
            assert(r@.load_chain =~= Seq::<Seq<char>>::empty());
        }
        r
    }

    /// Sets the file of the module, `canonical` being what links in its path lead to.
    pub fn place_at(self, resolution: &ResolutionResult, path: String, canonical: &str) -> (r:
        EvalContextConfig)
        requires
            resolution.wf(),
        ensures
            r@ == placed(self@, resolution, path@, canonical@),
    {
        let stdlib = resolution.workspace_info.workspace_stdlib_dir();
        let inject_prelude = self.inject_prelude && !path_starts_with(
            path.as_str(),
            stdlib.as_str(),
        );
        let active_root_package = match &self.active_root_package {
            Some(p) => Some(p.clone()),
            None => match resolution.frozen_root_for_file(canonical) {
                Some((url, _)) => Some(url.to_owned()),
                None => None,
            },
        };
        EvalContextConfig { inject_prelude, active_root_package, source_path: Some(path), ..self }
    }

    /// Sets the file of the module. A path that cannot be made canonical is taken as it stands.
    pub fn set_source_path<F: FileProvider>(
        self,
        file_provider: &F,
        resolution: &ResolutionResult,
        path: String,
    ) -> (r: EvalContextConfig)
        requires
            resolution.wf(),
        ensures
            exists|canonical: Seq<char>|
                #[trigger] made_canonical(file_provider, path@, canonical) && placed(
                    self@,
                    resolution,
                    path@,
                    canonical,
                ) == r@,
    {
        let canonical = canonical_or_same(file_provider, path.as_str());
        self.place_at(resolution, path, canonical.as_str())
    }

    /// Gives the text of the module.
    pub fn set_source_contents(self, contents: String) -> (r: EvalContextConfig)
        ensures
            r@ == (ConfigView { contents: Some(contents@), ..self@ }),
    {
        EvalContextConfig { contents: Some(contents), ..self }
    }

    /// Sets whether a value that is neither given nor optional is an error.
    pub fn set_strict_io_config(self, enabled: bool) -> (r: EvalContextConfig)
        ensures
            r@ == (ConfigView { strict_io_config: enabled, ..self@ }),
    {
        EvalContextConfig { strict_io_config: enabled, ..self }
    }

    /// Sets whether the modules inside are made.
    pub fn set_build_circuit(self, enabled: bool) -> (r: EvalContextConfig)
        ensures
            r@ == (ConfigView { build_circuit: enabled, ..self@ }),
    {
        EvalContextConfig { build_circuit: enabled, ..self }
    }

    /// Sets whether all files of the workspace are read at once.
    pub fn set_eager(self, eager: bool) -> (r: EvalContextConfig)
        ensures
            r@ == (ConfigView { eager, ..self@ }),
    {
        EvalContextConfig { eager, ..self }
    }

    /// Sets whether the names of the prelude are at hand.
    pub fn set_inject_prelude(self, inject: bool) -> (r: EvalContextConfig)
        ensures
            r@ == (ConfigView { inject_prelude: inject, ..self@ }),
    {
        EvalContextConfig { inject_prelude: inject, ..self }
    }

    /// The configuration for a module that this one loads, before its file is set.
    pub fn child_for_load(&self, child_path: InstancePath) -> (r: EvalContextConfig)
        ensures
            r@ == loaded_by(self@, child_path@),
    {
        let mut load_chain = clone_texts(&self.load_chain);
        if let Some(s) = &self.source_path {
            let copy = s.clone();
            proof {
                lemma_texts_push(load_chain@, copy);
            }
            load_chain.push(copy);
        }
        EvalContextConfig {
            tree_path: child_path,
            load_chain,
            source_path: None,
            active_root_package: clone_opt(&self.active_root_package),
            contents: None,
            strict_io_config: false,
            build_circuit: false,
            eager: self.eager,
            inject_prelude: self.inject_prelude,
        }
    }

    /// The configuration for a module inside this one, before its file is set.
    pub fn child_for_pending(&self, child_name: &str) -> (r: EvalContextConfig)
        ensures
            r@ == inside(self@, child_name@),
    {
        let r = EvalContextConfig {
            tree_path: self.tree_path.append(child_name),
            load_chain: Vec::new(),
            source_path: None,
            active_root_package: clone_opt(&self.active_root_package),
            contents: None,
            strict_io_config: false,
            build_circuit: false,
            eager: self.eager,
            inject_prelude: self.inject_prelude,
        };
        proof {
            assert(r@.load_chain =~= Seq::<Seq<char>>::empty());
        }
        r
    }

    /// The configuration for another context that shares what this one keeps.
    pub fn child_context(&self, name: Option<&str>) -> (r: EvalContextConfig)
        ensures
            r@ == (ConfigView {
                tree_path: match name {
                    Some(n) => self@.tree_path.push(n@),
                    None => self@.tree_path,
                },
                source_path: None,
                contents: None,
                strict_io_config: false,
                build_circuit: false,
                ..self@
            }),
    {
        let tree_path = match name {
            Some(n) => self.tree_path.append(n),
            None => self.tree_path.copy(),
        };
        EvalContextConfig {
            tree_path,
            load_chain: clone_texts(&self.load_chain),
            source_path: None,
            active_root_package: clone_opt(&self.active_root_package),
            contents: None,
            strict_io_config: false,
            build_circuit: false,
            eager: self.eager,
            inject_prelude: self.inject_prelude,
        }
    }

    /// Whether the load of a file would lead back to one that is being loaded.
    pub fn would_create_cycle(&self, path: &str) -> (r: bool)
        ensures
            r == in_chain(self@.load_chain, path@),
    {
        let ghost chain = texts(self.load_chain@);
        let mut i: usize = 0;
        while i < self.load_chain.len()
            invariant
                i <= self.load_chain@.len(),
                chain == texts(self.load_chain@),
                forall|k: int| 0 <= k < i ==> !same_path(#[trigger] chain[k], path@),
            decreases self.load_chain@.len() - i,
        {
            if path_eq(self.load_chain[i].as_str(), path) {
                proof {
                    assert(same_path(chain[i as int], path@));
                }
                return true;
            }
            i += 1;
        }
        false
    }

    /// The configuration for a module inside another that is to be made: its inputs are due, and its
    /// own modules are made.
    pub fn for_instantiation(self) -> (r: EvalContextConfig)
        ensures
            r@ == (ConfigView { strict_io_config: true, build_circuit: true, ..self@ }),
    {
        EvalContextConfig { strict_io_config: true, build_circuit: true, ..self }
    }

    /// Whether the modules inside are made: those of a root always are.
    pub fn makes_children(&self) -> (r: bool)
        ensures
            r == (self@.build_circuit || self@.tree_path.len() == 0),
    {
        proof {
            assert(self@.tree_path.len() == self.tree_path.segments@.len());
        }
        self.build_circuit || self.tree_path.segments.len() == 0
    }
}

/// A file that loads another is in the chain of what the other loads, however deep: a load of it from
/// there would be a cycle.
pub proof fn law_loading_file_is_in_chain(c: ConfigView, child: Seq<Seq<char>>, path: Seq<char>)
    ensures
        c.source_path is Some ==> in_chain(loaded_by(c, child).load_chain, c.source_path->Some_0),
        in_chain(c.load_chain, path) ==> in_chain(loaded_by(c, child).load_chain, path),
{
    let chain = loaded_by(c, child).load_chain;
    if c.source_path is Some {
        assert(same_path(chain[chain.len() - 1], c.source_path->Some_0));
    }
    if in_chain(c.load_chain, path) {
        let i = choose|i: int|
            0 <= i < c.load_chain.len() && same_path(#[trigger] c.load_chain[i], path);
        assert(chain[i] == c.load_chain[i]);
    }
}

// ---------------------------------------------------------------------------------------------
// Load paths

/// What a fallible step gave: a path, or the text of the error.
pub open spec fn said(r: Result<String, EvalError>) -> Result<Seq<char>, Seq<char>> {
    match r {
        Ok(p) => Ok(p@),
        Err(e) => Err(e.message@),
    }
}

/// The error for a file that belongs to no package.
pub open spec fn outside_packages(file: Seq<char>) -> Seq<char> {
    "Internal error: current file not in any package: "@ + file
}

/// The dependency that a URL stands for within a package; none, where the URL stands for the package
/// itself or for nothing.
pub open spec fn is_dependency(package: FrozenPackage, url: Seq<char>, dep: Seq<char>) -> bool {
    let own = identity_url(package.identity@);
    is_longest_cover(keys_of(package.deps.entries@), url, Some(dep)) && (covers(own, url)
        ==> dep.len() > own.len())
}

/// The part of a URL behind a dependency.
pub open spec fn within_dependency(url: Seq<char>, dep: Seq<char>) -> Seq<char> {
    if begins(url, dep) && begins(url.skip(dep.len() as int), "/"@) {
        url.skip(dep.len() as int).skip(1)
    } else {
        Seq::<char>::empty()
    }
}

/// Where a URL leads: the root of the dependency, the path behind it, and both together.
pub struct UrlTarget {
    pub root: String,
    pub relative_path: String,
    pub full_path: String,
}

/// The contents of a `UrlTarget`.
pub struct TargetView {
    pub root: Seq<char>,
    pub relative_path: Seq<char>,
    pub full_path: Seq<char>,
}

impl View for UrlTarget {
    type V = TargetView;

    open spec fn view(&self) -> TargetView {
        TargetView {
            root: self.root@,
            relative_path: self.relative_path@,
            full_path: self.full_path@,
        }
    }
}

/// Where a URL leads, or the text of the error.
pub open spec fn target_said(r: Result<UrlTarget, EvalError>) -> Result<TargetView, Seq<char>> {
    match r {
        Ok(t) => Ok(t@),
        Err(e) => Err(e.message@),
    }
}

/// Whether a URL names a package of the workspace that is neither the package itself nor declared.
pub open spec fn is_undeclared(
    resolution: &ResolutionResult,
    package: FrozenPackage,
    url: Seq<char>,
    other: Seq<char>,
) -> bool {
    is_longest_cover(
        keys_of(resolution.workspace_info.packages.entries@),
        url,
        Some(other),
    ) && other != identity_url(package.identity@)
}

/// The error for a URL of a package of the workspace that is not declared.
pub open spec fn undeclared_package(url: Seq<char>, other: Seq<char>) -> Seq<char> {
    "No declared dependency matches '"@ + other + "' required by '"@ + url
        + "'\n  Run `pcb sync` to update [dependencies] in pcb.toml"@
}

/// The error for a URL that leads nowhere.
pub open spec fn unmatched_url(package: FrozenPackage, url: Seq<char>, file: Seq<char>) -> Seq<char> {
    if covers(identity_url(package.identity@), url) {
        file + " uses package URL '"@ + url + "' that points into its own package '"@
            + identity_text(package.identity@) + "'; use a relative path instead"@
    } else {
        "No declared dependency matches '"@ + url
            + "'\n  Add a dependency to [dependencies] in pcb.toml that covers this path"@
    }
}

/// Where a URL leads from a file of a package: into the dependency that covers it best. The error
/// names what is missing where there is none.
pub open spec fn leads_to(
    resolution: &ResolutionResult,
    package: FrozenPackage,
    url: Seq<char>,
    file: Seq<char>,
    r: Result<TargetView, Seq<char>>,
) -> bool {
    match r {
        Ok(t) => exists|dep: Seq<char>| #[trigger]
            is_dependency(package, url, dep) && opt_text(find(package.deps.entries@, dep)) == Some(
                t.root,
            ) && t.relative_path == within_dependency(url, dep) && t.full_path == path_within(
                t.root,
                t.relative_path,
            ),
        Err(message) => {
            &&& forall|dep: Seq<char>| !(#[trigger] is_dependency(package, url, dep))
            &&& (exists|p: Seq<char>| #[trigger]
                is_undeclared(resolution, package, url, p) && message == undeclared_package(url, p))
                || ((forall|p: Seq<char>| !(#[trigger] is_undeclared(resolution, package, url, p)))
                && message == unmatched_url(package, url, file))
        },
    }
}

/// A URL leads to one place only: of two targets that fit, both are the same.
pub proof fn law_url_leads_to_one_place(
    resolution: &ResolutionResult,
    package: FrozenPackage,
    url: Seq<char>,
    file: Seq<char>,
    a: Result<TargetView, Seq<char>>,
    b: Result<TargetView, Seq<char>>,
)
    requires
        leads_to(resolution, package, url, file, a),
        leads_to(resolution, package, url, file, b),
    ensures
        a == b,
{
    let deps = keys_of(package.deps.entries@);
    let all = keys_of(resolution.workspace_info.packages.entries@);
    assert forall|x: Seq<char>, y: Seq<char>| #[trigger]
        is_dependency(package, url, x) && #[trigger] is_dependency(package, url, y) implies x
        == y by {
        law_longest_cover_is_unique(deps, url, Some(x), Some(y));
    }
    assert forall|x: Seq<char>, y: Seq<char>| #[trigger]
        is_undeclared(resolution, package, url, x) && #[trigger] is_undeclared(
        resolution,
        package,
        url,
        y,
    ) implies x == y by {
        law_longest_cover_is_unique(all, url, Some(x), Some(y));
    }
}

/// Finds where a URL leads from a package: into the dependency that covers it best.
pub fn locate_url(
    resolution: &ResolutionResult,
    scope: &ResolvedPackageScope,
    url: &str,
    current_file: &str,
) -> (r: Result<UrlTarget, EvalError>)
    requires
        scope.package.deps.wf(),
    ensures
        leads_to(resolution, *scope.package, url@, current_file@, target_said(r)),
{
    let ghost own = identity_url(scope.package.identity@);
    let ghost keys = keys_of(scope.package.deps.entries@);
    let resolved = scope.resolve_package_url(url);
    if let Some(PackageUrlResolution::Dependency { dep_url, root }) = resolved {
        let relative_path: String = match strip_prefix(url, dep_url) {
            Some(rest) => match strip_prefix(rest, "/") {
                Some(tail) => tail.to_owned(),
                None => String::new(),
            },
            None => String::new(),
        };
        proof {
            reveal_strlit("/");
            assert(relative_path@ =~= within_dependency(url@, dep_url@));
            assert(is_dependency(*scope.package, url@, dep_url@));
        }
        let full_path = if relative_path.as_str().unicode_len() == 0 {
            root.to_owned()
        } else {
            path_join(root, relative_path.as_str())
        };
        return Ok(UrlTarget { root: root.to_owned(), relative_path, full_path });
    }
    proof {
        assert forall|dep: Seq<char>| !(#[trigger] is_dependency(*scope.package, url@, dep)) by {
            if is_dependency(*scope.package, url@, dep) {
                assert(keys.contains(dep) && covers(dep, url@));
                let i = choose|i: int| 0 <= i < keys.len() && keys[i] == dep;
                assert(covers(keys[i], url@));
            }
        }
    }
    let owner = resolution.workspace_info.package_url_for_url(url);
    if let Some(package) = owner {
        let is_own = match scope.package_url() {
            Some(u) => same(u, package),
            None => false,
        };
        if !is_own {
            proof {
                assert(is_undeclared(resolution, *scope.package, url@, package@));
            }
            let mut message = "No declared dependency matches '".to_owned();
            message.append(package);
            message.append("' required by '");
            message.append(url);
            message.append("'\n  Run `pcb sync` to update [dependencies] in pcb.toml");
            return Err(EvalError { message });
        }
    }
    proof {
        let all = keys_of(resolution.workspace_info.packages.entries@);
        assert forall|p: Seq<char>| !(#[trigger] is_undeclared(resolution, *scope.package, url@, p)) by {
            if is_undeclared(resolution, *scope.package, url@, p) {
                law_longest_cover_is_unique(all, url@, opt_str(owner), Some(p));
            }
        }
    }
    match resolved {
        Some(PackageUrlResolution::OwnPackage) => {
            let mut message = current_file.to_owned();
            message.append(" uses package URL '");
            message.append(url);
            message.append("' that points into its own package '");
            let shown = scope.display();
            message.append(shown.as_str());
            message.append("'; use a relative path instead");
            Err(EvalError { message })
        },
        _ => {
            let mut message = "No declared dependency matches '".to_owned();
            message.append(url);
            message.append(
                "'\n  Add a dependency to [dependencies] in pcb.toml that covers this path",
            );
            Err(EvalError { message })
        },
    }
}

/// A file below a directory; an empty path stands for the directory itself.
pub open spec fn path_within(root: Seq<char>, path: Seq<char>) -> Seq<char> {
    if path.len() == 0 {
        root
    } else {
        path_joined(root, path)
    }
}

/// The error for a file of a dependency that is not there.
pub open spec fn missing_file(t: TargetView) -> Seq<char> {
    "File not found: "@ + t.relative_path + " (resolved to: "@ + t.full_path + ", dep root: "@
        + t.root + ")"@
}

/// Takes the file that a URL leads to, which has to exist.
pub fn accept_target(t: UrlTarget, file_exists: bool) -> (r: Result<String, EvalError>)
    ensures
        said(r) == accepted(Ok(t@), file_exists),
{
    if file_exists {
        return Ok(t.full_path);
    }
    let mut message = "File not found: ".to_owned();
    message.append(t.relative_path.as_str());
    message.append(" (resolved to: ");
    message.append(t.full_path.as_str());
    message.append(", dep root: ");
    message.append(t.root.as_str());
    message.append(")");
    Err(EvalError { message })
}

/// What becomes of a URL that leads somewhere, by whether the file exists.
pub open spec fn accepted(t: Result<TargetView, Seq<char>>, file_exists: bool) -> Result<
    Seq<char>,
    Seq<char>,
> {
    match t {
        Err(message) => Err(message),
        Ok(t) => if file_exists {
            Ok(t.full_path)
        } else {
            Err(missing_file(t))
        },
    }
}

/// What a load path that is a URL, or one of the standard library, is resolved to from a file.
pub open spec fn url_outcome<F: FileProvider>(
    file_provider: &F,
    c: ConfigView,
    resolution: &ResolutionResult,
    file: Seq<char>,
    asked: LoadSpecView,
    file_exists: bool,
    r: Result<Seq<char>, Seq<char>>,
) -> bool {
    match scope_of(resolution.resolution.entries@, file, c.active_root_package) {
        None => r == Err::<Seq<char>, Seq<char>>(outside_packages(file)),
        Some((_, package)) => match asked {
            LoadSpecView::Stdlib { tag: _, path } => r == Ok::<Seq<char>, Seq<char>>(
                path_within(resolution.workspace_info.stdlib_dir_of(), path),
            ),
            _ => exists|t: Result<TargetView, Seq<char>>| #[trigger]
                leads_to(resolution, package, url_text(asked), file, t) && (t is Ok
                    ==> asked_whether_exists(file_provider, t->Ok_0.full_path, file_exists)) && r
                    == accepted(t, file_exists),
        },
    }
}

/// The URL of a load path; empty for a file path.
pub open spec fn url_text(asked: LoadSpecView) -> Seq<char> {
    match crate::load_spec::full_url(asked) {
        Some(url) => url,
        None => Seq::<char>::empty(),
    }
}

/// Whether a file that is loaded by its path belongs to another package: by the packages that the
/// resolution knows, and, where these agree, by those of the workspace.
pub open spec fn crosses(
    target_root: Option<Seq<char>>,
    root: Seq<char>,
    current_url: Option<Seq<char>>,
    target_url: Option<Seq<char>>,
) -> bool {
    match target_root {
        None => true,
        Some(t) => !same_path(t, root) || (current_url is Some && target_url is Some && current_url
            != target_url),
    }
}

/// Whether a file that is loaded by its path belongs to another package.
pub fn crosses_package_boundary(
    target_root: Option<&str>,
    root: &str,
    current_url: Option<&str>,
    target_url: Option<&str>,
) -> (r: bool)
    ensures
        r == crosses(opt_str(target_root), root@, opt_str(current_url), opt_str(target_url)),
{
    match target_root {
        None => true,
        Some(t) => {
            if !path_eq(t, root) {
                return true;
            }
            match (current_url, target_url) {
                (Some(a), Some(b)) => !same(a, b),
                _ => false,
            }
        },
    }
}

/// The URL of a file that is named by a path from another.
pub open spec fn sibling_of(url: Seq<char>, path: Seq<char>) -> Seq<char> {
    let dir = match cut_last(url, '/') {
        Some((d, _)) => d,
        None => url,
    };
    dir + "/"@ + replaced(path, "\\"@, "/"@)
}

/// Finds the URL of a file that is named by a path from another, once `.` and `..` are followed.
pub fn sibling_url(current_url: &str, path: &str) -> (r: Result<String, EvalError>)
    ensures
        match (r, url_segments(crate::text::pieces(sibling_of(current_url@, path@), '/'))) {
            (Ok(u), Some(parts)) => u@ == joined(parts, "/"@),
            (Err(e), None) => e.message@ == "Relative path escapes beyond package root: '"@
                + sibling_of(current_url@, path@) + "'"@,
            _ => false,
        },
{
    let mut url = match rsplit_once(current_url, '/') {
        Some((d, _)) => d,
        None => current_url.to_owned(),
    };
    url.append("/");
    proof {
        reveal_strlit("\\");
    }
    let slashes = replace_all(path, "\\", "/");
    url.append(slashes.as_str());
    match normalize_url_path(url.as_str()) {
        Ok(u) => Ok(u),
        Err(e) => Err(EvalError { message: e.message() }),
    }
}

/// The error for a path that leads nowhere.
pub open spec fn not_found(path: Seq<char>) -> Seq<char> {
    "File not found: "@ + path
}

/// What the files say of a path: its canonical form or the text of the error, where it exists.
pub open spec fn canonical_said(canonical: Option<Result<String, String>>) -> Option<
    Result<Seq<char>, Seq<char>>,
> {
    match canonical {
        None => None,
        Some(Ok(c)) => Some(Ok(c@)),
        Some(Err(e)) => Some(Err(e@)),
    }
}

/// The error for a path whose name differs from that on disk in letter case alone.
pub open spec fn wrong_case(path: Seq<char>, canonical: Seq<char>) -> Seq<char> {
    "Case mismatch: expected '"@ + file_name_of(path)->Some_0 + "', found '"@ + file_name_of(
        canonical,
    )->Some_0 + "'"@
}

/// What becomes of a path that a load path was resolved to: it has to exist, unless the load path
/// says otherwise, and has to be written as it stands on disk.
pub open spec fn finished(
    asked: LoadSpecView,
    path: Seq<char>,
    canonical: Option<Result<Seq<char>, Seq<char>>>,
) -> Result<Seq<char>, Seq<char>> {
    match canonical {
        None => if asked matches LoadSpecView::Path { allow_not_exist, .. } && allow_not_exist {
            Ok(path)
        } else {
            Err(not_found(path))
        },
        Some(Err(message)) => Err(message),
        Some(Ok(c)) => if case_differs(path, c) {
            Err(wrong_case(path, c))
        } else {
            Ok(path)
        },
    }
}

/// Takes what a load path was resolved to. `canonical` is the path as it stands on disk, where the
/// file exists.
pub fn finish_resolve(
    spec_asked: &LoadSpec,
    resolved_path: String,
    canonical: Option<Result<String, String>>,
) -> (r: Result<String, EvalError>)
    ensures
        said(r) == finished(spec_asked@, resolved_path@, canonical_said(canonical)),
{
    match canonical {
        None => {
            if spec_asked.allow_not_exist() {
                return Ok(resolved_path);
            }
            let mut message = "File not found: ".to_owned();
            message.append(resolved_path.as_str());
            Err(EvalError { message })
        },
        Some(Err(e)) => Err(EvalError { message: e }),
        Some(Ok(c)) => match validate_path_case_with_canonical(resolved_path.as_str(), c.as_str()) {
            Ok(_) => Ok(resolved_path),
            Err(e) => Err(EvalError { message: e.message() }),
        },
    }
}

/// What the files say where a load path leads from one file to another: the canonical forms of the
/// target, of the root of the package of the file, of the root of the package of the target, of the
/// workspace root and of the two files. But for the first two, a path that has no canonical form
/// stands for itself.
pub struct PathAnswers {
    pub target: String,
    pub root: String,
    pub target_root: String,
    pub file_root: String,
    pub workspace_root: String,
    pub current: String,
    pub target_file: String,
}

/// The contents of a `PathAnswers`.
pub struct AnswersView {
    pub target: Seq<char>,
    pub root: Seq<char>,
    pub target_root: Seq<char>,
    pub file_root: Seq<char>,
    pub workspace_root: Seq<char>,
    pub current: Seq<char>,
    pub target_file: Seq<char>,
}

impl View for PathAnswers {
    type V = AnswersView;

    open spec fn view(&self) -> AnswersView {
        AnswersView {
            target: self.target@,
            root: self.root@,
            target_root: self.target_root@,
            file_root: self.file_root@,
            workspace_root: self.workspace_root@,
            current: self.current@,
            target_file: self.target_file@,
        }
    }
}

/// Where a path leads from a file: to a file of the same package, or to a package URL.
pub enum Placement {
    Here { path: String },
    Elsewhere { url: String },
}

/// The contents of a `Placement`.
pub enum PlacementView {
    Here { path: Seq<char> },
    Elsewhere { url: Seq<char> },
}

/// Where a path leads, or the text of the error.
pub open spec fn placement_said(r: Result<Placement, EvalError>) -> Result<
    PlacementView,
    Seq<char>,
> {
    match r {
        Ok(Placement::Here { path }) => Ok(PlacementView::Here { path: path@ }),
        Ok(Placement::Elsewhere { url }) => Ok(PlacementView::Elsewhere { url: url@ }),
        Err(e) => Err(e.message@),
    }
}

/// Whether a path leads from a file into another package.
pub open spec fn leaves_package(
    c: ConfigView,
    resolution: &ResolutionResult,
    a: AnswersView,
) -> bool {
    crosses(
        match scope_of(resolution.resolution.entries@, a.target, c.active_root_package) {
            Some(_) => Some(a.target_root),
            None => None,
        },
        a.root,
        indexed_owner(resolution, a.workspace_root, a.current),
        indexed_owner(resolution, a.workspace_root, a.target_file),
    )
}

/// Where a path leads from a file. Within the package it is the file itself, written as it stands on
/// disk; into another package it is the URL that follows from that of the file.
pub open spec fn path_placed(
    c: ConfigView,
    resolution: &ResolutionResult,
    file: Seq<char>,
    path: Seq<char>,
    a: AnswersView,
) -> Result<PlacementView, Seq<char>> {
    match scope_of(resolution.resolution.entries@, file, c.active_root_package) {
        None => Err(outside_packages(file)),
        Some((dir, package)) => if leaves_package(c, resolution, a) {
            let url = file_url(
                identity_url(package.identity@),
                components(a.file_root),
                dir,
                file,
            );
            match url_segments(crate::text::pieces(sibling_of(url, path), '/')) {
                Some(parts) => Ok(PlacementView::Elsewhere { url: joined(parts, "/"@) }),
                None => Err(
                    "Relative path escapes beyond package root: '"@ + sibling_of(url, path)
                        + "'"@,
                ),
            }
        } else if case_differs(path, a.target) {
            Err(wrong_case(path, a.target))
        } else {
            Ok(PlacementView::Here { path: a.target })
        },
    }
}

/// What the files say of where a load path leads: the canonical form of the target of a path and of
/// the root of its package, each with the text of the error where there is none, and whether the
/// target of a URL exists.
pub struct FileAnswers {
    pub target: Result<Seq<char>, Seq<char>>,
    pub root: Result<Seq<char>, Seq<char>>,
    pub places: AnswersView,
    pub file_exists: bool,
    /// The root of the package of the file, as it is written.
    pub package_root: Seq<char>,
    /// The root of the package of the target, as it is written.
    pub target_package_root: Seq<char>,
}

/// Whether the places are what a file provider makes of the paths that they stand for, where a path
/// leads from a file to a target.
pub open spec fn places_asked<F: FileProvider>(
    file_provider: &F,
    c: ConfigView,
    resolution: &ResolutionResult,
    file: Seq<char>,
    target: Seq<char>,
    root: Seq<char>,
    a: FileAnswers,
) -> bool {
    &&& a.places.target == target
    &&& a.places.root == root
    &&& match scope_of(resolution.resolution.entries@, target, c.active_root_package) {
        Some((dir, _)) => components(a.target_package_root) == dir && made_canonical(
            file_provider,
            a.target_package_root,
            a.places.target_root,
        ),
        None => true,
    }
    &&& made_canonical(file_provider, a.package_root, a.places.file_root)
    &&& made_canonical(
        file_provider,
        resolution.workspace_info.root@,
        a.places.workspace_root,
    )
    &&& made_canonical(file_provider, file, a.places.current)
    &&& made_canonical(file_provider, target, a.places.target_file)
}

/// The error for a load path that was tried before.
pub open spec fn tried_before(asked: LoadSpecView) -> Seq<char> {
    "Circular dependency detected: spec "@ + crate::load_spec::spec_text(asked)
        + " creates a cycle in resolution history"@
}

/// What a load path that is a path is resolved to from a file. A path into another package is
/// resolved by its URL.
pub open spec fn path_outcome<F: FileProvider>(
    file_provider: &F,
    c: ConfigView,
    resolution: &ResolutionResult,
    file: Seq<char>,
    history: Seq<LoadSpecView>,
    path: Seq<char>,
    a: FileAnswers,
    r: Result<Seq<char>, Seq<char>>,
) -> bool {
    match scope_of(resolution.resolution.entries@, file, c.active_root_package) {
        None => r == Err::<Seq<char>, Seq<char>>(outside_packages(file)),
        Some((dir, _)) => match parent_of(file) {
            None => r == Err::<Seq<char>, Seq<char>>("Current file has no parent directory"@),
            Some(parent_dir) => asked_canonical(
                file_provider,
                path_joined(parent_dir, path),
                a.target,
            ) && match a.target {
                Err(message) => r == Err::<Seq<char>, Seq<char>>(message),
                Ok(target) => components(a.package_root) == dir && asked_canonical(
                    file_provider,
                    a.package_root,
                    a.root,
                ) && match a.root {
                    Err(message) => r == Err::<Seq<char>, Seq<char>>(message),
                    Ok(root) => places_asked(
                        file_provider,
                        c,
                        resolution,
                        file,
                        target,
                        root,
                        a,
                    ) && placed_outcome(file_provider, c, resolution, file, history, path, a, r),
                },
            },
        },
    }
}

/// What follows once it is known where a path leads.
pub open spec fn placed_outcome<F: FileProvider>(
    file_provider: &F,
    c: ConfigView,
    resolution: &ResolutionResult,
    file: Seq<char>,
    history: Seq<LoadSpecView>,
    path: Seq<char>,
    a: FileAnswers,
    r: Result<Seq<char>, Seq<char>>,
) -> bool {
    match path_placed(c, resolution, file, path, a.places) {
        Err(message) => r == Err::<Seq<char>, Seq<char>>(message),
        Ok(PlacementView::Here { path: found }) => r == Ok::<Seq<char>, Seq<char>>(found),
        Ok(PlacementView::Elsewhere { url }) => {
            let next = LoadSpecView::Package {
                package: url,
                tag: None,
                path: Seq::<char>::empty(),
            };
            if holds_spec(history, next) {
                r == Err::<Seq<char>, Seq<char>>(tried_before(next))
            } else {
                url_outcome(file_provider, c, resolution, file, next, a.file_exists, r)
            }
        },
    }
}

/// A load path with its alias expanded.
pub open spec fn expanded(
    c: ConfigView,
    resolution: &ResolutionResult,
    file: Seq<char>,
    asked: LoadSpecView,
) -> Result<LoadSpecView, Seq<char>> {
    match asked {
        LoadSpecView::Package { package, tag, path } => match scope_of(
            resolution.resolution.entries@,
            file,
            c.active_root_package,
        ) {
            None => Err(outside_packages(file)),
            Some((_, p)) => match aliased(keys_of(p.deps.entries@), package) {
                Some(url) => Ok(LoadSpecView::Package { package: url, tag, path }),
                None => Err("Unknown alias '@"@ + package + "'"@),
            },
        },
        _ => Ok(asked),
    }
}

/// What the last of the load paths is resolved to, its alias being expanded.
pub open spec fn found_outcome<F: FileProvider>(
    file_provider: &F,
    c: ConfigView,
    resolution: &ResolutionResult,
    file: Seq<char>,
    history: Seq<LoadSpecView>,
    a: FileAnswers,
    r: Result<Seq<char>, Seq<char>>,
) -> bool {
    match history.last() {
        LoadSpecView::Path { path, .. } => path_outcome(
            file_provider,
            c,
            resolution,
            file,
            history,
            path,
            a,
            r,
        ),
        asked => url_outcome(file_provider, c, resolution, file, asked, a.file_exists, r),
    }
}

/// What becomes of the path that the last of the load paths is resolved to, given its canonical
/// form, where it exists.
pub open spec fn finished_outcome<F: FileProvider>(
    file_provider: &F,
    c: ConfigView,
    resolution: &ResolutionResult,
    file: Seq<char>,
    history: Seq<LoadSpecView>,
    a: FileAnswers,
    canonical: Option<Result<Seq<char>, Seq<char>>>,
    r: Result<Seq<char>, Seq<char>>,
) -> bool {
    exists|found: Result<Seq<char>, Seq<char>>| #[trigger]
        found_outcome(file_provider, c, resolution, file, history, a, found) && (found is Ok
            ==> canonical_asked(file_provider, found->Ok_0, canonical)) && r == (match found {
            Ok(path) => finished(history[0], path, canonical),
            Err(message) => Err(message),
        })
}

/// Whether a file provider gives an answer when it is asked whether a path exists, and for its
/// canonical form where it does.
pub open spec fn canonical_asked<F: FileProvider>(
    file_provider: &F,
    path: Seq<char>,
    canonical: Option<Result<Seq<char>, Seq<char>>>,
) -> bool {
    asked_whether_exists(file_provider, path, canonical is Some) && (canonical is Some
        ==> asked_canonical(file_provider, path, canonical->Some_0))
}

/// What the last of the load paths is resolved to from a file, by what the files say.
pub open spec fn resolve_outcome<F: FileProvider>(
    file_provider: &F,
    c: ConfigView,
    resolution: &ResolutionResult,
    file: Seq<char>,
    history: Seq<LoadSpecView>,
    a: FileAnswers,
    canonical: Option<Result<Seq<char>, Seq<char>>>,
    r: Result<Seq<char>, Seq<char>>,
) -> bool {
    match expanded(c, resolution, file, history.last()) {
        Err(message) => r == Err::<Seq<char>, Seq<char>>(message),
        Ok(next) => if same_spec(next, history.last()) {
            finished_outcome(file_provider, c, resolution, file, history, a, canonical, r)
        } else if holds_spec(history, next) {
            r == Err::<Seq<char>, Seq<char>>(tried_before(next))
        } else {
            finished_outcome(file_provider, c, resolution, file, history.push(next), a, canonical, r)
        },
    }
}

/// The load path that is asked for in the place of another: a package reference stands for the path
/// that it names.
pub open spec fn asked_for(
    resolution: &ResolutionResult,
    s: LoadSpecView,
    r: Result<LoadSpecView, Seq<char>>,
) -> bool {
    match s {
        LoadSpecView::PackageUri { uri } => {
            let roots = resolution.indexes.package_roots.entries@;
            let rest = uri.skip(PACKAGE_URI_PREFIX@.len() as int);
            match r {
                Ok(asked) => begins(uri, PACKAGE_URI_PREFIX@) && exists|coord: Seq<char>| #[trigger]
                    is_longest_cover(keys_of(roots), rest, Some(coord)) && match referenced_path(
                        roots,
                        coord,
                        rest,
                    ) {
                        Some(path) => asked == (LoadSpecView::Path { path, allow_not_exist: false }),
                        None => false,
                    },
                Err(message) => message == "Cannot resolve package URI '"@ + uri + "'"@ && (!begins(
                    uri,
                    PACKAGE_URI_PREFIX@,
                ) || is_longest_cover(keys_of(roots), rest, None)),
            }
        },
        _ => r == Ok::<LoadSpecView, Seq<char>>(s),
    }
}

/// Whether resolving the text of a load path from a file can give a file or the text of an error.
pub open spec fn load_path_outcome<F: FileProvider>(
    file_provider: &F,
    c: ConfigView,
    resolution: &ResolutionResult,
    path: Seq<char>,
    current_file: Seq<char>,
    r: Result<Seq<char>, Seq<char>>,
) -> bool {
    match crate::load_spec::parsed_with(path, crate::load_spec::is_package_url(path)) {
        None => r == Err::<Seq<char>, Seq<char>>("Invalid load path spec: "@ + path),
        Some(s) => exists|
            current: Result<Seq<char>, Seq<char>>,
            a: FileAnswers,
            canonical: Option<Result<Seq<char>, Seq<char>>>,
        | #[trigger]
            spec_outcome(file_provider, c, resolution, s, current_file, current, a, canonical, r),
    }
}

/// What a load path is resolved to from a file, by what the files say. `current` is the canonical
/// form of the file.
pub open spec fn spec_outcome<F: FileProvider>(
    file_provider: &F,
    c: ConfigView,
    resolution: &ResolutionResult,
    s: LoadSpecView,
    current_file: Seq<char>,
    current: Result<Seq<char>, Seq<char>>,
    a: FileAnswers,
    canonical: Option<Result<Seq<char>, Seq<char>>>,
    r: Result<Seq<char>, Seq<char>>,
) -> bool {
    exists|asked: Result<LoadSpecView, Seq<char>>| #[trigger]
        asked_for(resolution, s, asked) && match (asked, current) {
            (Err(message), _) => r == Err::<Seq<char>, Seq<char>>(message),
            (_, Err(message)) => asked_canonical(file_provider, current_file, current) && r == Err::<
                Seq<char>,
                Seq<char>,
            >(message),
            (Ok(asked), Ok(file)) => asked_canonical(file_provider, current_file, current)
                && resolve_outcome(
                file_provider,
                c,
                resolution,
                file,
                seq![asked],
                a,
                canonical,
                r,
            ),
        }
}

proof fn lemma_url_outcome_is_determined<F: FileProvider>(
    file_provider: &F,
    c: ConfigView,
    resolution: &ResolutionResult,
    file: Seq<char>,
    asked: LoadSpecView,
    file_exists: bool,
    x: Result<Seq<char>, Seq<char>>,
    y: Result<Seq<char>, Seq<char>>,
)
    requires
        url_outcome(file_provider, c, resolution, file, asked, file_exists, x),
        url_outcome(file_provider, c, resolution, file, asked, file_exists, y),
    ensures
        x == y,
{
    if let Some((_, package)) = scope_of(
        resolution.resolution.entries@,
        file,
        c.active_root_package,
    ) {
        if !(asked is Stdlib) {
            let url = url_text(asked);
            let s = choose|t: Result<TargetView, Seq<char>>| #[trigger]
                leads_to(resolution, package, url, file, t) && (t is Ok ==> asked_whether_exists(
                    file_provider,
                    t->Ok_0.full_path,
                    file_exists,
                )) && x == accepted(t, file_exists);
            let t = choose|t: Result<TargetView, Seq<char>>| #[trigger]
                leads_to(resolution, package, url, file, t) && (t is Ok ==> asked_whether_exists(
                    file_provider,
                    t->Ok_0.full_path,
                    file_exists,
                )) && y == accepted(t, file_exists);
            law_url_leads_to_one_place(resolution, package, url, file, s, t);
        }
    }
}

proof fn lemma_found_outcome_is_determined<F: FileProvider>(
    file_provider: &F,
    c: ConfigView,
    resolution: &ResolutionResult,
    file: Seq<char>,
    history: Seq<LoadSpecView>,
    a: FileAnswers,
    x: Result<Seq<char>, Seq<char>>,
    y: Result<Seq<char>, Seq<char>>,
)
    requires
        found_outcome(file_provider, c, resolution, file, history, a, x),
        found_outcome(file_provider, c, resolution, file, history, a, y),
    ensures
        x == y,
{
    match history.last() {
        LoadSpecView::Path { path, .. } => {
            if let Ok(PlacementView::Elsewhere { url }) = path_placed(
                c,
                resolution,
                file,
                path,
                a.places,
            ) {
                let next = LoadSpecView::Package {
                        package: url,
                        tag: None,
                        path: Seq::<char>::empty(),
                    };
                if url_outcome(file_provider, c, resolution, file, next, a.file_exists, x) && url_outcome(
                    file_provider,
                    c,
                    resolution,
                    file,
                    next,
                    a.file_exists,
                    y,
                ) {
                    lemma_url_outcome_is_determined(file_provider, c, resolution, file, next, a.file_exists, x, y);
                }
            }
        },
        asked => {
            lemma_url_outcome_is_determined(file_provider, c, resolution, file, asked, a.file_exists, x, y);
        },
    }
}

proof fn lemma_finished_outcome_is_determined<F: FileProvider>(
    file_provider: &F,
    c: ConfigView,
    resolution: &ResolutionResult,
    file: Seq<char>,
    history: Seq<LoadSpecView>,
    a: FileAnswers,
    canonical: Option<Result<Seq<char>, Seq<char>>>,
    x: Result<Seq<char>, Seq<char>>,
    y: Result<Seq<char>, Seq<char>>,
)
    requires
        finished_outcome(file_provider, c, resolution, file, history, a, canonical, x),
        finished_outcome(file_provider, c, resolution, file, history, a, canonical, y),
    ensures
        x == y,
{
    let s = choose|s: Result<Seq<char>, Seq<char>>| #[trigger]
        found_outcome(file_provider, c, resolution, file, history, a, s) && (s is Ok ==> canonical_asked(
            file_provider,
            s->Ok_0,
            canonical,
        )) && x == (match s {
            Ok(path) => finished(history[0], path, canonical),
            Err(message) => Err(message),
        });
    let t = choose|t: Result<Seq<char>, Seq<char>>| #[trigger]
        found_outcome(file_provider, c, resolution, file, history, a, t) && (t is Ok ==> canonical_asked(
            file_provider,
            t->Ok_0,
            canonical,
        )) && y == (match t {
            Ok(path) => finished(history[0], path, canonical),
            Err(message) => Err(message),
        });
    lemma_found_outcome_is_determined(file_provider, c, resolution, file, history, a, s, t);
}

/// What the files say settles what a load path is resolved to: of two results that fit, both are the
/// same.
pub proof fn law_resolution_is_determined<F: FileProvider>(
    file_provider: &F,
    c: ConfigView,
    resolution: &ResolutionResult,
    s: LoadSpecView,
    current_file: Seq<char>,
    current: Result<Seq<char>, Seq<char>>,
    a: FileAnswers,
    canonical: Option<Result<Seq<char>, Seq<char>>>,
    x: Result<Seq<char>, Seq<char>>,
    y: Result<Seq<char>, Seq<char>>,
)
    requires
        spec_outcome(file_provider, c, resolution, s, current_file, current, a, canonical, x),
        spec_outcome(file_provider, c, resolution, s, current_file, current, a, canonical, y),
    ensures
        x == y,
{
    assert forall|p: Result<LoadSpecView, Seq<char>>, q: Result<LoadSpecView, Seq<char>>| #[trigger]
        asked_for(resolution, s, p) && #[trigger] asked_for(resolution, s, q) implies p == q by {
        if let LoadSpecView::PackageUri { uri } = s {
            let keys = keys_of(resolution.indexes.package_roots.entries@);
            let rest = uri.skip(PACKAGE_URI_PREFIX@.len() as int);
            assert forall|m: Option<Seq<char>>, n: Option<Seq<char>>| #[trigger]
                is_longest_cover(keys, rest, m) && #[trigger] is_longest_cover(
                keys,
                rest,
                n,
            ) implies m == n by {
                law_longest_cover_is_unique(keys, rest, m, n);
            }
        }
    }
    let p = choose|p: Result<LoadSpecView, Seq<char>>| #[trigger]
        asked_for(resolution, s, p) && match (p, current) {
            (Err(message), _) => x == Err::<Seq<char>, Seq<char>>(message),
            (_, Err(message)) => asked_canonical(file_provider, current_file, current) && x == Err::<
                Seq<char>,
                Seq<char>,
            >(message),
            (Ok(asked), Ok(file)) => asked_canonical(file_provider, current_file, current)
                && resolve_outcome(
                file_provider,
                c,
                resolution,
                file,
                seq![asked],
                a,
                canonical,
                x,
            ),
        };
    let q = choose|q: Result<LoadSpecView, Seq<char>>| #[trigger]
        asked_for(resolution, s, q) && match (q, current) {
            (Err(message), _) => y == Err::<Seq<char>, Seq<char>>(message),
            (_, Err(message)) => asked_canonical(file_provider, current_file, current) && y == Err::<
                Seq<char>,
                Seq<char>,
            >(message),
            (Ok(asked), Ok(file)) => asked_canonical(file_provider, current_file, current)
                && resolve_outcome(
                file_provider,
                c,
                resolution,
                file,
                seq![asked],
                a,
                canonical,
                y,
            ),
        };
    assert(p == q);
    if let (Ok(asked), Ok(file)) = (p, current) {
        let history = seq![asked];
        if let Ok(next) = expanded(c, resolution, file, asked) {
            assert(history.last() == asked);
            if same_spec(next, asked) {
                lemma_finished_outcome_is_determined(
                    file_provider,
                    c,
                    resolution,
                    file,
                    history,
                    a,
                    canonical,
                    x,
                    y,
                );
            } else if !holds_spec(history, next) {
                lemma_finished_outcome_is_determined(
                    file_provider,
                    c,
                    resolution,
                    file,
                    history.push(next),
                    a,
                    canonical,
                    x,
                    y,
                );
            }
        }
    }
}

impl EvalContextConfig {
    /// The package that a file belongs to.
    fn current_package_scope<'a>(&self, resolution: &'a ResolutionResult, file: &str) -> (r: Result<
        ResolvedPackageScope<'a>,
        EvalError,
    >)
        ensures
            match (
                r,
                scope_of(resolution.resolution.entries@, file@, self@.active_root_package),
            ) {
                (Ok(scope), Some((root, package))) => components(scope.root@) == root
                    && *scope.package == package,
                (Err(e), None) => e.message@ == outside_packages(file@),
                _ => false,
            },
    {
        match resolution.package_scope_for_file(file, as_opt_str(&self.active_root_package)) {
            Some(scope) => Ok(scope),
            None => {
                let mut message = "Internal error: current file not in any package: ".to_owned();
                message.append(file);
                Err(EvalError { message })
            },
        }
    }

    /// The URL that an alias stands for in the package of a file.
    pub fn expand_alias(&self, resolution: &ResolutionResult, current_file: &str, alias: &str) -> (r:
        Result<String, EvalError>)
        ensures
            match scope_of(
                resolution.resolution.entries@,
                current_file@,
                self@.active_root_package,
            ) {
                None => r is Err && r->Err_0.message@ == outside_packages(current_file@),
                Some((_, package)) => match (
                    r,
                    aliased(keys_of(package.deps.entries@), alias@),
                ) {
                    (Ok(u), Some(v)) => u@ == v,
                    (Err(e), None) => e.message@ == "Unknown alias '@"@ + alias@ + "'"@,
                    _ => false,
                },
            },
    {
        let scope = match self.current_package_scope(resolution, current_file) {
            Ok(scope) => scope,
            Err(e) => return Err(e),
        };
        match scope.expand_alias(alias) {
            Some(url) => Ok(url.to_owned()),
            None => {
                let mut message = "Unknown alias '@".to_owned();
                message.append(alias);
                message.append("'");
                Err(EvalError { message })
            },
        }
    }

    /// The file that the latest load path leads to, where it is a URL or one of the standard
    /// library.
    fn resolve_url<F: FileProvider>(
        &self,
        file_provider: &F,
        resolution: &ResolutionResult,
        context: &ResolveContext,
    ) -> (r: Result<String, EvalError>)
        requires
            resolution.wf(),
            context.wf(),
        ensures
            exists|file_exists: bool| #[trigger]
                url_outcome(
                    file_provider,
                    self@,
                    resolution,
                    context.current_file@,
                    context.spec_history@.last()@,
                    file_exists,
                    said(r),
                ),
    {
        let scope = match self.current_package_scope(resolution, context.current_file.as_str()) {
            Ok(scope) => scope,
            Err(e) => {
                let r: Result<String, EvalError> = Err(e);
                proof {
                    assert(url_outcome(
                    file_provider,
                    self@,
                    resolution,
                    context.current_file@,
                    context.spec_history@.last()@,
                    false,
                    said(r),
                ));
                }
                return r;
            },
        };
        let spec_now = context.latest_spec();
        if let LoadSpec::Stdlib { tag: _, path } = spec_now {
            let root = resolution.workspace_info.workspace_stdlib_dir();
            let target = if path.as_str().unicode_len() == 0 {
                root
            } else {
                path_join(root.as_str(), path.as_str())
            };
            let r: Result<String, EvalError> = Ok(target);
            proof {
                assert(url_outcome(
                    file_provider,
                    self@,
                    resolution,
                    context.current_file@,
                    context.spec_history@.last()@,
                    false,
                    said(r),
                ));
            }
            return r;
        }
        let url = match spec_now.to_full_url() {
            Some(url) => url,
            None => String::new(),
        };
        proof {
            crate::resolved::lemma_scope_in_order(
                resolution,
                context.current_file@,
                self@.active_root_package,
            );
            assert(url@ =~= url_text(spec_now@));
        }
        let located = locate_url(resolution, &scope, url.as_str(), context.current_file.as_str());
        let ghost t = target_said(located);
        let (r, file_exists): (Result<String, EvalError>, bool) = match located {
            Ok(target) => {
                let file_exists = file_provider.path_exists(target.full_path.as_str());
                (accept_target(target, file_exists), file_exists)
            },
            Err(e) => (Err(e), false),
        };
        proof {
            assert(leads_to(
                resolution,
                *scope.package,
                url_text(spec_now@),
                context.current_file@,
                t,
            ));
            assert(url_outcome(
                    file_provider,
                    self@,
                    resolution,
                    context.current_file@,
                    context.spec_history@.last()@,
                    file_exists,
                    said(r),
                ));
        }
        r
    }

    /// Finds where a path leads from a file, by what the files say: to a file of the same package,
    /// or to the URL of one of another package.
    pub fn place_path(
        &self,
        resolution: &ResolutionResult,
        current_file: &str,
        path: &str,
        answers: &PathAnswers,
    ) -> (r: Result<Placement, EvalError>)
        ensures
            placement_said(r) == path_placed(self@, resolution, current_file@, path@, answers@),
    {
        if let Err(e) = self.current_package_scope(resolution, current_file) {
            return Err(e);
        }
        let active = as_opt_str(&self.active_root_package);
        let target_root: Option<&str> = match resolution.package_scope_for_file(
            answers.target.as_str(),
            active,
        ) {
            Some(_) => Some(answers.target_root.as_str()),
            None => None,
        };
        let workspace_root = answers.workspace_root.as_str();
        let current_url = resolution.workspace_package_url_for_canonical_path(
            workspace_root,
            answers.current.as_str(),
        );
        let target_url = resolution.workspace_package_url_for_canonical_path(
            workspace_root,
            answers.target_file.as_str(),
        );
        if crosses_package_boundary(target_root, answers.root.as_str(), current_url, target_url) {
            let url = match resolution.package_url_for_scoped_file(
                current_file,
                active,
                Some(answers.file_root.as_str()),
            ) {
                Some(u) => u,
                None => String::new(),
            };
            return match sibling_url(url.as_str(), path) {
                Ok(url) => Ok(Placement::Elsewhere { url }),
                Err(e) => Err(e),
            };
        }
        match validate_path_case_with_canonical(path, answers.target.as_str()) {
            Ok(_) => Ok(Placement::Here { path: answers.target.clone() }),
            Err(e) => Err(EvalError { message: e.message() }),
        }
    }

    /// The file that the latest load path leads to, where it is a path: one within the package, or
    /// one of another package by way of its URL.
    fn resolve_relative<F: FileProvider>(
        &self,
        file_provider: &F,
        resolution: &ResolutionResult,
        context: &mut ResolveContext,
        path: &str,
    ) -> (r: Result<String, EvalError>)
        requires
            resolution.wf(),
            old(context).wf(),
        ensures
            final(context).wf(),
            final(context).current_file == old(context).current_file,
            specs(old(context).spec_history@).is_prefix_of(specs(final(context).spec_history@)),
            exists|a: FileAnswers| #[trigger]
                path_outcome(
                    file_provider,
                    self@,
                    resolution,
                    old(context).current_file@,
                    specs(old(context).spec_history@),
                    path@,
                    a,
                    said(r),
                ),
    {
        let ghost file = context.current_file@;
        let ghost before = specs(context.spec_history@);
        let ghost mut a: FileAnswers = arbitrary();
        let scope = match self.current_package_scope(resolution, context.current_file.as_str()) {
            Ok(scope) => scope,
            Err(e) => {
                let r: Result<String, EvalError> = Err(e);
                proof {
                    assert(path_outcome(file_provider, self@, resolution, file, before, path@, a, said(r)));
                }
                return r;
            },
        };
        let dir = match parent(context.current_file.as_str()) {
            Some(dir) => dir,
            None => {
                let r: Result<String, EvalError> = Err(
                    EvalError { message: "Current file has no parent directory".to_owned() },
                );
                proof {
                    assert(path_outcome(file_provider, self@, resolution, file, before, path@, a, said(r)));
                }
                return r;
            },
        };
        let joined_path = path_join(dir.as_str(), path);
        let target = match file_provider.canonicalize(joined_path.as_str()) {
            Ok(p) => p,
            Err(e) => {
                let r: Result<String, EvalError> = Err(EvalError { message: e.message() });
                proof {
                    a = FileAnswers { target: said(r), ..a };
                    assert(path_outcome(file_provider, self@, resolution, file, before, path@, a, said(r)));
                }
                return r;
            },
        };
        proof {
            a = FileAnswers { target: Ok(target@), package_root: scope.root@, ..a };
        }
        let root = match file_provider.canonicalize(scope.root) {
            Ok(p) => p,
            Err(e) => {
                let r: Result<String, EvalError> = Err(EvalError { message: e.message() });
                proof {
                    a = FileAnswers { root: said(r), ..a };
                    assert(path_outcome(file_provider, self@, resolution, file, before, path@, a, said(r)));
                }
                return r;
            },
        };
        proof {
            a = FileAnswers { root: Ok(root@), ..a };
        }
        let target_root = match resolution.package_scope_for_file(
            target.as_str(),
            as_opt_str(&self.active_root_package),
        ) {
            Some(s) => {
                proof {
                    a = FileAnswers { target_package_root: s.root@, ..a };
                }
                canonical_or_same(file_provider, s.root)
            },
            None => String::new(),
        };
        let target_file = canonical_or_same(file_provider, target.as_str());
        let answers = PathAnswers {
            target,
            root,
            target_root,
            file_root: canonical_or_same(file_provider, scope.root),
            workspace_root: canonical_or_same(
                file_provider,
                resolution.workspace_info.root.as_str(),
            ),
            current: canonical_or_same(file_provider, context.current_file.as_str()),
            target_file,
        };
        proof {
            a = FileAnswers { places: answers@, ..a };
            assert(places_asked(
                file_provider,
                self@,
                resolution,
                file,
                target@,
                root@,
                a,
            ));
        }
        let url = match self.place_path(
            resolution,
            context.current_file.as_str(),
            path,
            &answers,
        ) {
            Ok(Placement::Elsewhere { url }) => url,
            Ok(Placement::Here { path: found }) => {
                let r: Result<String, EvalError> = Ok(found);
                proof {
                    assert(path_outcome(file_provider, self@, resolution, file, before, path@, a, said(r)));
                }
                return r;
            },
            Err(e) => {
                let r: Result<String, EvalError> = Err(e);
                proof {
                    assert(path_outcome(file_provider, self@, resolution, file, before, path@, a, said(r)));
                }
                return r;
            },
        };
        let next = LoadSpec::Package { package: url, tag: None, path: String::new() };
        proof {
            assert(next@ == (LoadSpecView::Package {
                package: url@,
                tag: None,
                path: Seq::<char>::empty(),
            }));
        }
        if let Err(e) = context.push_spec(next) {
            let r: Result<String, EvalError> = Err(EvalError { message: e.message() });
            proof {
                assert(path_outcome(file_provider, self@, resolution, file, before, path@, a, said(r)));
            }
            return r;
        }
        proof {
            let after = specs(context.spec_history@);
            assert(after == before.push(next@));
            assert(after.last() == context.spec_history@.last()@);
        }
        let r = self.resolve_url(file_provider, resolution, context);
        proof {
            let e = choose|e: bool| #[trigger]
                url_outcome(file_provider, self@, resolution, file, next@, e, said(r));
            a = FileAnswers { file_exists: e, ..a };
            assert(path_outcome(file_provider, self@, resolution, file, before, path@, a, said(r)));
        }
        r
    }

    /// Resolves a load path: an alias is expanded, a path is taken from the file that loads, and
    /// anything else is a URL. What it leads to has to exist, unless the load path says otherwise.
    pub fn resolve<F: FileProvider>(
        &self,
        file_provider: &F,
        resolution: &ResolutionResult,
        context: &mut ResolveContext,
    ) -> (r: Result<String, EvalError>)
        requires
            resolution.wf(),
            old(context).wf(),
        ensures
            final(context).wf(),
            final(context).current_file == old(context).current_file,
            specs(old(context).spec_history@).is_prefix_of(specs(final(context).spec_history@)),
            exists|a: FileAnswers, canonical: Option<Result<Seq<char>, Seq<char>>>| #[trigger]
                resolve_outcome(
                    file_provider,
                    self@,
                    resolution,
                    old(context).current_file@,
                    specs(old(context).spec_history@),
                    a,
                    canonical,
                    said(r),
                ),
    {
        let ghost file = context.current_file@;
        let ghost first = specs(context.spec_history@);
        let ghost a0: FileAnswers = arbitrary();
        let ghost nothing: Option<Result<Seq<char>, Seq<char>>> = None;
        proof {
            assert(first.last() == context.spec_history@.last()@);
        }
        let mut further: Option<LoadSpec> = None;
        if let LoadSpec::Package { package, tag, path } = context.latest_spec() {
            let url = match self.expand_alias(
                resolution,
                context.current_file.as_str(),
                package.as_str(),
            ) {
                Ok(u) => u,
                Err(e) => {
                    let r: Result<String, EvalError> = Err(e);
                    proof {
                        assert(resolve_outcome(
                            file_provider,
                            self@,
                            resolution,
                            file,
                            first,
                            a0,
                            nothing,
                            said(r),
                        ));
                    }
                    return r;
                },
            };
            let next = LoadSpec::Package {
                package: url,
                tag: clone_opt(tag),
                path: path.clone(),
            };
            if !next.equals(context.latest_spec()) {
                further = Some(next);
            }
        }
        if let Some(next) = further {
            if let Err(e) = context.push_spec(next) {
                let r: Result<String, EvalError> = Err(EvalError { message: e.message() });
                proof {
                    assert(resolve_outcome(file_provider, self@, resolution, file, first, a0, nothing, said(r)));
                }
                return r;
            }
        }
        let ghost history = specs(context.spec_history@);
        proof {
            assert(history.last() == context.spec_history@.last()@);
            assert(history[0] == first[0]);
        }
        let local: Option<String> = match context.latest_spec() {
            LoadSpec::Path { path, allow_not_exist: _ } => Some(path.clone()),
            _ => None,
        };
        let ghost mut a = a0;
        let found = match &local {
            Some(path) => {
                let found = self.resolve_relative(
                    file_provider,
                    resolution,
                    context,
                    path.as_str(),
                );
                proof {
                    a =
                    choose|a: FileAnswers| #[trigger]
                        path_outcome(file_provider, self@, resolution, file, history, path@, a, said(found));
                }
                found
            },
            None => {
                let found = self.resolve_url(file_provider, resolution, context);
                proof {
                    let e = choose|e: bool| #[trigger]
                        url_outcome(file_provider, self@, resolution, file, history.last(), e, said(found));
                    a = FileAnswers { file_exists: e, ..a0 };
                }
                found
            },
        };
        proof {
            assert(found_outcome(file_provider, self@, resolution, file, history, a, said(found)));
            assert(specs(context.spec_history@)[0] == first[0]);
        }
        let resolved_path = match found {
            Ok(p) => p,
            Err(e) => {
                let r: Result<String, EvalError> = Err(e);
                proof {
                    assert(finished_outcome(
                        file_provider,
                        self@,
                        resolution,
                        file,
                        history,
                        a,
                        nothing,
                        said(r),
                    ));
                    assert(resolve_outcome(file_provider, self@, resolution, file, first, a, nothing, said(r)));
                }
                return r;
            },
        };
        let canonical: Option<Result<String, String>> = if file_provider.path_exists(
            resolved_path.as_str(),
        ) {
            match file_provider.canonicalize(resolved_path.as_str()) {
                Ok(c) => Some(Ok(c)),
                Err(e) => Some(Err(e.message())),
            }
        } else {
            None
        };
        let ghost known = canonical_said(canonical);
        let r = finish_resolve(context.original_spec(), resolved_path, canonical);
        proof {
            assert(finished_outcome(file_provider, self@, resolution, file, history, a, known, said(r)));
            assert(resolve_outcome(file_provider, self@, resolution, file, first, a, known, said(r)));
        }
        r
    }

    /// Resolves a load path that was read.
    pub fn resolve_spec<F: FileProvider>(
        &self,
        file_provider: &F,
        resolution: &ResolutionResult,
        load_spec: &LoadSpec,
        current_file: &str,
    ) -> (r: Result<String, EvalError>)
        requires
            resolution.wf(),
        ensures
            exists|
                current: Result<Seq<char>, Seq<char>>,
                a: FileAnswers,
                canonical: Option<Result<Seq<char>, Seq<char>>>,
            | #[trigger]
                spec_outcome(file_provider, self@, resolution, load_spec@, current_file@, current, a, canonical, said(r)),
    {
        let ghost mut current: Result<Seq<char>, Seq<char>> = arbitrary();
        let ghost mut a: FileAnswers = arbitrary();
        let ghost mut known: Option<Result<Seq<char>, Seq<char>>> = None;
        let asked = match load_spec {
            LoadSpec::PackageUri { uri } => match resolution.resolve_package_uri(uri.as_str()) {
                Ok(path) => LoadSpec::local_path(path),
                Err(e) => {
                    let r: Result<String, EvalError> = Err(EvalError { message: e.message() });
                    proof {
                        let q: Result<LoadSpecView, Seq<char>> = Err(r->Err_0.message@);
                        assert(asked_for(resolution, load_spec@, q));
                        assert(spec_outcome(
                            file_provider,
                            self@,
                            resolution,
                            load_spec@,
                            current_file@,
                            current,
                            a,
                            known,
                            said(r),
                        ));
                    }
                    return r;
                },
            },
            other => other.copy(),
        };
        let ghost q: Result<LoadSpecView, Seq<char>> = Ok(asked@);
        proof {
            assert(asked_for(resolution, load_spec@, q));
        }
        let file = match file_provider.canonicalize(current_file) {
            Ok(p) => p,
            Err(e) => {
                let r: Result<String, EvalError> = Err(EvalError { message: e.message() });
                proof {
                    current = said(r);
                    assert(spec_outcome(
                        file_provider,
                        self@,
                        resolution,
                        load_spec@,
                        current_file@,
                        current,
                        a,
                        known,
                        said(r),
                    ));
                }
                return r;
            },
        };
        proof {
            current = Ok(file@);
        }
        let mut context = ResolveContext::new(file, asked);
        let ghost started = context;
        let r = self.resolve(file_provider, resolution, &mut context);
        proof {
            let (b, c) = choose|b: FileAnswers, c: Option<Result<Seq<char>, Seq<char>>>| #[trigger]
                resolve_outcome(
                    file_provider,
                    self@,
                    resolution,
                    started.current_file@,
                    specs(started.spec_history@),
                    b,
                    c,
                    said(r),
                );
            a = b;
            known = c;
            assert(spec_outcome(file_provider, self@, resolution, load_spec@, current_file@, current, a, known, said(r)));
        }
        r
    }

    /// Resolves the text of a load path.
    pub fn resolve_path<F: FileProvider>(
        &self,
        file_provider: &F,
        resolution: &ResolutionResult,
        path: &str,
        current_file: &str,
    ) -> (r: Result<String, EvalError>)
        requires
            resolution.wf(),
        ensures
            load_path_outcome(file_provider, self@, resolution, path@, current_file@, said(r)),
    {
        match LoadSpec::parse(path) {
            Some(load_spec) => self.resolve_spec(
                file_provider,
                resolution,
                &load_spec,
                current_file,
            ),
            None => {
                let mut message = "Invalid load path spec: ".to_owned();
                message.append(path);
                Err(EvalError { message })
            },
        }
    }
}

// ---------------------------------------------------------------------------------------------
// The prelude

/// A module of the standard library with the names of it that are at hand everywhere.
pub struct PreludeModule {
    pub path: String,
    pub names: Vec<String>,
}

/// The modules of the prelude, with their names.
pub open spec fn prelude_modules() -> Seq<(Seq<char>, Seq<Seq<char>>)> {
    seq![
        ("@stdlib/io.zen"@, seq!["io"@, "input"@, "output"@]),
        ("@stdlib/interfaces.zen"@, seq!["Net"@, "Power"@, "Ground"@, "NotConnected"@]),
        ("@stdlib/properties.zen"@, seq!["Layout"@, "Part"@]),
        ("@stdlib/board_config.zen"@, seq!["Board"@]),
    ]
}

/// The contents of a list of prelude modules.
pub open spec fn prelude_views(v: Seq<PreludeModule>) -> Seq<(Seq<char>, Seq<Seq<char>>)> {
    Seq::new(v.len(), |i: int| (v[i].path@, texts(v[i].names@)))
}

/// The modules of the prelude, with their names.
pub fn prelude() -> (r: Vec<PreludeModule>)
    ensures
        prelude_views(r@) == prelude_modules(),
{
    let mut io: Vec<String> = Vec::new();
    io.push("io".to_owned());
    io.push("input".to_owned());
    io.push("output".to_owned());
    let mut interfaces: Vec<String> = Vec::new();
    interfaces.push("Net".to_owned());
    interfaces.push("Power".to_owned());
    interfaces.push("Ground".to_owned());
    interfaces.push("NotConnected".to_owned());
    let mut properties: Vec<String> = Vec::new();
    properties.push("Layout".to_owned());
    properties.push("Part".to_owned());
    let mut board: Vec<String> = Vec::new();
    board.push("Board".to_owned());
    proof {
        assert(texts(io@) =~= seq!["io"@, "input"@, "output"@]);
        assert(texts(interfaces@) =~= seq!["Net"@, "Power"@, "Ground"@, "NotConnected"@]);
        assert(texts(properties@) =~= seq!["Layout"@, "Part"@]);
        assert(texts(board@) =~= seq!["Board"@]);
    }
    let mut out: Vec<PreludeModule> = Vec::new();
    out.push(PreludeModule { path: "@stdlib/io.zen".to_owned(), names: io });
    out.push(PreludeModule { path: "@stdlib/interfaces.zen".to_owned(), names: interfaces });
    out.push(PreludeModule { path: "@stdlib/properties.zen".to_owned(), names: properties });
    out.push(PreludeModule { path: "@stdlib/board_config.zen".to_owned(), names: board });
    proof {
        assert(prelude_views(out@) =~= prelude_modules());
    }
    out
}

/// Whether a path lies below another or not, going by the forms that a file provider makes of both.
pub open spec fn lies_canonically<F: FileProvider>(
    file_provider: &F,
    path: Seq<char>,
    prefix: Seq<char>,
    r: bool,
) -> bool {
    exists|p: Seq<char>, q: Seq<char>|
        #![trigger made_canonical(file_provider, path, p), made_canonical(file_provider, prefix, q)]
        made_canonical(file_provider, path, p) && made_canonical(file_provider, prefix, q) && r
            == lies_under(p, q)
}

/// Whether a path lies below another, both in their canonical form.
fn path_starts_with_canonical<F: FileProvider>(path: &str, prefix: &str, file_provider: &F) -> (r:
    bool)
    ensures
        lies_canonically(file_provider, path@, prefix@, r),
{
    let p = canonical_or_same(file_provider, path);
    let q = canonical_or_same(file_provider, prefix);
    path_starts_with(p.as_str(), q.as_str())
}

/// Whether a file belongs to the standard library or not: to that of the workspace, or to a directory
/// of that name in its root.
pub open spec fn in_stdlib<F: FileProvider>(
    file_provider: &F,
    info: &WorkspaceInfo,
    path: Seq<char>,
    r: bool,
) -> bool {
    ||| r && lies_canonically(file_provider, path, info.stdlib_dir_of(), true)
    ||| lies_canonically(file_provider, path, info.stdlib_dir_of(), false) && lies_canonically(
        file_provider,
        path,
        path_joined(info.root@, "stdlib"@),
        r,
    )
}

/// Whether a file belongs to the standard library.
pub fn is_stdlib_source_path<F: FileProvider>(path: &str, info: &WorkspaceInfo, file_provider: &F) -> (r:
    bool)
    ensures
        in_stdlib(file_provider, info, path@, r),
{
    let stdlib_dir = info.workspace_stdlib_dir();
    if path_starts_with_canonical(path, stdlib_dir.as_str(), file_provider) {
        return true;
    }
    let root_stdlib = path_join(info.root.as_str(), "stdlib");
    path_starts_with_canonical(path, root_stdlib.as_str(), file_provider)
}

/// A `load()` statement: the file that it leads to, where that is known, and the names that it asks
/// for.
pub struct LoadStatement {
    pub target: Option<String>,
    pub names: Vec<String>,
}

/// Those of some names that another list holds.
pub open spec fn shared_names(names: Seq<Seq<char>>, of: Seq<Seq<char>>) -> Seq<Seq<char>>
    decreases names.len(),
{
    if names.len() == 0 {
        Seq::<Seq<char>>::empty()
    } else {
        let r = shared_names(names.drop_last(), of);
        if of.contains(names.last()) {
            r.push(names.last())
        } else {
            r
        }
    }
}

/// Those of some names that another list holds.
fn find_shared(names: &Vec<String>, of: &Vec<String>) -> (r: Vec<String>)
    ensures
        texts(r@) == shared_names(texts(names@), texts(of@)),
{
    let ghost all = texts(names@);
    let mut out: Vec<String> = Vec::new();
    let mut i: usize = 0;
    proof {
        assert(all.take(0) =~= Seq::<Seq<char>>::empty());
        assert(texts(out@) =~= Seq::<Seq<char>>::empty());
    }
    while i < names.len()
        invariant
            i <= names@.len(),
            all == texts(names@),
            texts(out@) == shared_names(all.take(i as int), texts(of@)),
        decreases names@.len() - i,
    {
        proof {
            assert(all.take(i + 1).drop_last() =~= all.take(i as int));
            assert(all.take(i + 1).last() == names@[i as int]@);
        }
        if contains_text(of, names[i].as_str()) {
            let s = names[i].clone();
            proof {
                lemma_texts_push(out@, s);
            }
            out.push(s);
        }
        i += 1;
    }
    proof {
        assert(all.take(all.len() as int) =~= all);
    }
    out
}

/// The names of the module of the prelude that a file is; none, where it is no such module. `files`
/// holds, module by module, the file that it is in, where that is known.
pub open spec fn prelude_names_of(
    files: Seq<Option<String>>,
    modules: Seq<(Seq<char>, Seq<Seq<char>>)>,
    path: Seq<char>,
) -> Seq<Seq<char>>
    decreases files.len(),
{
    if files.len() == 0 || modules.len() == 0 {
        Seq::<Seq<char>>::empty()
    } else if files[0] is Some && same_path(files[0]->Some_0@, path) {
        modules[0].1
    } else {
        prelude_names_of(files.skip(1), modules.skip(1), path)
    }
}

/// Names in quotes.
pub open spec fn quoted_names(names: Seq<Seq<char>>) -> Seq<Seq<char>> {
    Seq::new(names.len(), |i: int| "`"@ + names[i] + "`"@)
}

/// The warning for names of the prelude that are loaded all the same.
pub open spec fn needless_load(names: Seq<Seq<char>>) -> Option<NoticeView> {
    if names.len() == 0 {
        None
    } else {
        Some(
            NoticeView {
                message: joined(quoted_names(names), ", "@) + (if names.len() == 1 {
                    " is"@
                } else {
                    " are"@
                })
                    + " available from the @stdlib prelude; remove from this explicit `load()`"@,
                kind: "stdlib.prelude_load"@,
                severity: Severity::Warning,
            },
        )
    }
}

/// The warning for a `load()` of names of the prelude, if any.
pub open spec fn load_warning(files: Seq<Option<String>>, load: LoadStatement) -> Option<NoticeView> {
    match load.target {
        None => None,
        Some(path) => needless_load(
            shared_names(
                texts(load.names@),
                prelude_names_of(files, prelude_modules(), path@),
            ),
        ),
    }
}

/// The contents of a list of optional notes.
pub open spec fn opt_notices(v: Seq<Option<Notice>>) -> Seq<Option<NoticeView>> {
    Seq::new(
        v.len(),
        |i: int|
            match v[i] {
                Some(n) => Some(n@),
                None => None,
            },
    )
}

/// The warning for a `load()` of names of the prelude, if any.
fn warn_needless_load(files: &Vec<Option<String>>, load: &LoadStatement) -> (r: Option<Notice>)
    requires
        files@.len() == prelude_modules().len(),
    ensures
        match (r, load_warning(files@, *load)) {
            (Some(n), Some(v)) => n@ == v,
            (None, None) => true,
            _ => false,
        },
{
    let path: &String = match &load.target {
        Some(path) => path,
        None => return None,
    };
    let modules = prelude();
    let ghost all = prelude_views(modules@);
    let ghost fs = files@;
    let none: Vec<String> = Vec::new();
    let mut names: &Vec<String> = &none;
    let mut i: usize = 0;
    let mut found = false;
    proof {
        assert(fs.skip(0) =~= fs);
        assert(all.skip(0) =~= all);
        assert(all.len() == modules@.len());
        assert(texts(none@) =~= Seq::<Seq<char>>::empty());
    }
    while i < files.len() && !found
        invariant
            i <= files@.len(),
            fs == files@,
            all == prelude_views(modules@),
            all.len() == modules@.len(),
            fs.len() == all.len(),
            !found ==> texts(names@) == Seq::<Seq<char>>::empty() && prelude_names_of(fs, all, path@)
                == prelude_names_of(fs.skip(i as int), all.skip(i as int), path@),
            found ==> texts(names@) == prelude_names_of(fs, all, path@),
        decreases files@.len() - i + (if found {
            0int
        } else {
            1int
        }),
    {
        proof {
            assert(fs.skip(i as int)[0] == fs[i as int]);
            assert(all.skip(i as int)[0] == all[i as int]);
            assert(fs.skip(i as int).skip(1) =~= fs.skip(i + 1));
            assert(all.skip(i as int).skip(1) =~= all.skip(i + 1));
        }
        let is_module = match &files[i] {
            Some(p) => path_eq(p.as_str(), path.as_str()),
            None => false,
        };
        if is_module {
            names = &modules[i].names;
            found = true;
        } else {
            i += 1;
        }
    }
    proof {
        if !found {
            assert(fs.skip(i as int) =~= Seq::<Option<String>>::empty());
        }
    }
    let shared = find_shared(&load.names, names);
    let ghost list = texts(shared@);
    proof {
        assert(list.len() == shared@.len());
    }
    if shared.len() == 0 {
        return None;
    }
    let mut quoted: Vec<String> = Vec::new();
    let mut k: usize = 0;
    while k < shared.len()
        invariant
            k <= shared@.len(),
            list == texts(shared@),
            quoted@.len() == k,
            forall|j: int| 0 <= j < k ==> (#[trigger] quoted@[j])@ == "`"@ + list[j] + "`"@,
        decreases shared@.len() - k,
    {
        let mut s = "`".to_owned();
        s.append(shared[k].as_str());
        s.append("`");
        quoted.push(s);
        k += 1;
    }
    proof {
        assert(texts(quoted@) =~= quoted_names(list));
    }
    let mut message = join(&quoted, ", ");
    if shared.len() == 1 {
        message.append(" is");
    } else {
        message.append(" are");
    }
    message.append(" available from the @stdlib prelude; remove from this explicit `load()`");
    Some(
        Notice {
            message,
            kind: "stdlib.prelude_load".to_owned(),
            severity: Severity::Warning,
        },
    )
}

/// The warnings for the `load()` statements of a module, statement by statement. `files` holds the
/// files of the modules of the prelude, and `in_stdlib` says whether the module belongs to the
/// standard library, which loads what it needs.
pub fn explicit_prelude_load_diagnostics(
    config: &EvalContextConfig,
    in_stdlib: bool,
    files: &Vec<Option<String>>,
    loads: &Vec<LoadStatement>,
) -> (r: Vec<Option<Notice>>)
    requires
        files@.len() == prelude_modules().len(),
    ensures
        r@.len() == loads@.len(),
        forall|i: int|
            0 <= i < loads@.len() ==> (#[trigger] opt_notices(r@)[i]) == (
            if config@.inject_prelude && config@.source_path is Some && !in_stdlib {
                load_warning(files@, loads@[i])
            } else {
                None
            }),
{
    let active = config.inject_prelude && config.source_path.is_some() && !in_stdlib;
    let mut out: Vec<Option<Notice>> = Vec::new();
    let mut i: usize = 0;
    while i < loads.len()
        invariant
            i <= loads@.len(),
            files@.len() == prelude_modules().len(),
            active == (config@.inject_prelude && config@.source_path is Some && !in_stdlib),
            out@.len() == i,
            forall|k: int|
                0 <= k < i ==> (match #[trigger] out@[k] {
                    Some(n) => Some(n@),
                    None => None,
                }) == (if active {
                    load_warning(files@, loads@[k])
                } else {
                    None
                }),
        decreases loads@.len() - i,
    {
        let n = if active {
            warn_needless_load(files, &loads[i])
        } else {
            None
        };
        out.push(n);
        i += 1;
    }
    out
}

/// A `load()` statement as it is written: the load path and the names that it asks for.
pub struct LoadRequest {
    pub path: String,
    pub names: Vec<String>,
}

/// The contents of some `load()` statements.
pub open spec fn request_views(v: Seq<LoadRequest>) -> Seq<(Seq<char>, Seq<Seq<char>>)> {
    Seq::new(v.len(), |i: int| (v[i].path@, texts(v[i].names@)))
}

/// Whether a load path leads from a file to another file, in the form that a file provider makes of
/// it, or nowhere.
pub open spec fn load_target<F: FileProvider>(
    file_provider: &F,
    c: ConfigView,
    resolution: &ResolutionResult,
    path: Seq<char>,
    source: Seq<char>,
    target: Option<Seq<char>>,
) -> bool {
    exists|found: Result<Seq<char>, Seq<char>>| #[trigger]
        load_path_outcome(file_provider, c, resolution, path, source, found) && match (found, target) {
            (Ok(p), Some(t)) => made_canonical(file_provider, p, t),
            (Err(_), None) => true,
            _ => false,
        }
}

/// The file that a load path leads to.
fn find_target<F: FileProvider>(
    config: &EvalContextConfig,
    file_provider: &F,
    resolution: &ResolutionResult,
    path: &str,
    source: &str,
) -> (r: Option<String>)
    requires
        resolution.wf(),
    ensures
        load_target(file_provider, config@, resolution, path@, source@, opt_text(r)),
{
    let found = config.resolve_path(file_provider, resolution, path, source);
    proof {
        assert(load_path_outcome(file_provider, config@, resolution, path@, source@, said(found)));
    }
    match found {
        Ok(p) => Some(canonical_or_same(file_provider, p.as_str())),
        Err(_) => None,
    }
}

/// Whether files are those that the modules of the prelude lead to from a file.
pub open spec fn prelude_files<F: FileProvider>(
    file_provider: &F,
    c: ConfigView,
    resolution: &ResolutionResult,
    source: Seq<char>,
    files: Seq<Option<String>>,
) -> bool {
    &&& files.len() == prelude_modules().len()
    &&& forall|i: int|
        0 <= i < files.len() ==> load_target(
            file_provider,
            c,
            resolution,
            prelude_modules()[i].0,
            source,
            opt_text(#[trigger] files[i]),
        )
}

/// Whether a note, or none, is the one for a `load()` statement of a file.
pub open spec fn load_noted<F: FileProvider>(
    file_provider: &F,
    c: ConfigView,
    resolution: &ResolutionResult,
    source: Seq<char>,
    files: Seq<Option<String>>,
    load: (Seq<char>, Seq<Seq<char>>),
    note: Option<NoticeView>,
) -> bool {
    exists|target: Option<Seq<char>>| #[trigger]
        load_target(file_provider, c, resolution, load.0, source, target) && note == match target {
            None => None,
            Some(path) => needless_load(
                shared_names(load.1, prelude_names_of(files, prelude_modules(), path)),
            ),
        }
}

/// Whether notes are those for the `load()` statements of a file, which is `inside` the standard
/// library or not. In the library none is noted; elsewhere each by the files of the prelude.
pub open spec fn loads_noted<F: FileProvider>(
    file_provider: &F,
    c: ConfigView,
    resolution: &ResolutionResult,
    source: Seq<char>,
    inside: bool,
    loads: Seq<(Seq<char>, Seq<Seq<char>>)>,
    notes: Seq<Option<NoticeView>>,
) -> bool {
    &&& in_stdlib(file_provider, &resolution.workspace_info, source, inside)
    &&& if inside {
        forall|i: int| 0 <= i < notes.len() ==> (#[trigger] notes[i]) is None
    } else {
        exists|files: Seq<Option<String>>| #[trigger]
            prelude_files(file_provider, c, resolution, source, files) && forall|i: int|
                0 <= i < notes.len() ==> load_noted(
                    file_provider,
                    c,
                    resolution,
                    source,
                    files,
                    loads[i],
                    #[trigger] notes[i],
                )
    }
}

/// The files of the modules of the prelude.
fn find_prelude<F: FileProvider>(
    config: &EvalContextConfig,
    file_provider: &F,
    resolution: &ResolutionResult,
    source: &str,
) -> (r: Vec<Option<String>>)
    requires
        resolution.wf(),
    ensures
        prelude_files(file_provider, config@, resolution, source@, r@),
{
    let modules = prelude();
    let ghost all = prelude_views(modules@);
    let mut out: Vec<Option<String>> = Vec::new();
    let mut i: usize = 0;
    proof {
        assert(all.len() == modules@.len());
    }
    while i < modules.len()
        invariant
            i <= modules@.len(),
            resolution.wf(),
            all == prelude_views(modules@),
            all == prelude_modules(),
            all.len() == modules@.len(),
            out@.len() == i,
            forall|k: int|
                0 <= k < i ==> load_target(
                    file_provider,
                    config@,
                    resolution,
                    all[k].0,
                    source@,
                    opt_text(#[trigger] out@[k]),
                ),
        decreases modules@.len() - i,
    {
        let path = modules[i].path.as_str();
        proof {
            assert(all[i as int].0 == path@);
        }
        out.push(find_target(config, file_provider, resolution, path, source));
        i += 1;
    }
    out
}

/// The files that the `load()` statements of a file lead to.
fn find_loads<F: FileProvider>(
    config: &EvalContextConfig,
    file_provider: &F,
    resolution: &ResolutionResult,
    source: &str,
    loads: &Vec<LoadRequest>,
) -> (r: Vec<LoadStatement>)
    requires
        resolution.wf(),
    ensures
        r@.len() == loads@.len(),
        forall|i: int|
            0 <= i < r@.len() ==> texts((#[trigger] r@[i]).names@) == texts(loads@[i].names@)
                && load_target(
                file_provider,
                config@,
                resolution,
                loads@[i].path@,
                source@,
                opt_text(r@[i].target),
            ),
{
    let mut out: Vec<LoadStatement> = Vec::new();
    let mut i: usize = 0;
    while i < loads.len()
        invariant
            i <= loads@.len(),
            resolution.wf(),
            out@.len() == i,
            forall|k: int|
                0 <= k < i ==> texts((#[trigger] out@[k]).names@) == texts(loads@[k].names@)
                    && load_target(
                    file_provider,
                    config@,
                    resolution,
                    loads@[k].path@,
                    source@,
                    opt_text(out@[k].target),
                ),
        decreases loads@.len() - i,
    {
        let path = loads[i].path.as_str();
        let target = find_target(config, file_provider, resolution, path, source);
        let names = clone_texts(&loads[i].names);
        out.push(LoadStatement { target, names });
        i += 1;
    }
    out
}

/// The warnings for names of the prelude that a module loads, statement by statement. There are none
/// where the prelude is not at hand, and none in the standard library, which loads what it needs.
pub fn needless_loads<F: FileProvider>(
    config: &EvalContextConfig,
    file_provider: &F,
    resolution: &ResolutionResult,
    loads: &Vec<LoadRequest>,
) -> (r: Vec<Option<Notice>>)
    requires
        resolution.wf(),
    ensures
        r@.len() == loads@.len(),
        if config@.inject_prelude && config@.source_path is Some {
            exists|inside: bool| #[trigger]
                loads_noted(
                    file_provider,
                    config@,
                    resolution,
                    config@.source_path->Some_0,
                    inside,
                    request_views(loads@),
                    opt_notices(r@),
                )
        } else {
            forall|i: int| 0 <= i < r@.len() ==> (#[trigger] r@[i]) is None
        },
{
    let ghost mut stands = false;
    if let Some(source) = &config.source_path {
        if config.inject_prelude {
            let info = &resolution.workspace_info;
            let inside = is_stdlib_source_path(source.as_str(), info, file_provider);
            proof {
                stands = inside;
            }
            if !inside {
                let files = find_prelude(config, file_provider, resolution, source.as_str());
                let statements = find_loads(
                    config,
                    file_provider,
                    resolution,
                    source.as_str(),
                    loads,
                );
                let r = explicit_prelude_load_diagnostics(config, inside, &files, &statements);
                proof {
                    assert(prelude_files(file_provider, config@, resolution, source@, files@));
                    assert forall|i: int| 0 <= i < r@.len() implies load_noted(
                        file_provider,
                        config@,
                        resolution,
                        source@,
                        files@,
                        request_views(loads@)[i],
                        #[trigger] opt_notices(r@)[i],
                    ) by {
                        let load = request_views(loads@)[i];
                        assert(load == (loads@[i].path@, texts(loads@[i].names@)));
                        assert(texts(statements@[i].names@) == load.1);
                        assert(opt_notices(r@)[i] == load_warning(files@, statements@[i]));
                        assert(load_target(
                            file_provider,
                            config@,
                            resolution,
                            load.0,
                            source@,
                            opt_text(statements@[i].target),
                        ));
                    }
                    assert(loads_noted(
                        file_provider,
                        config@,
                        resolution,
                        config@.source_path->Some_0,
                        stands,
                        request_views(loads@),
                        opt_notices(r@),
                    ));
                }
                return r;
            }
        }
    }
    let mut out: Vec<Option<Notice>> = Vec::new();
    let mut i: usize = 0;
    while i < loads.len()
        invariant
            i <= loads@.len(),
            out@.len() == i,
            forall|k: int| 0 <= k < i ==> (#[trigger] out@[k]) is None,
        decreases loads@.len() - i,
    {
        out.push(None);
        i += 1;
    }
    proof {
        if config@.inject_prelude && config@.source_path is Some {
            assert(loads_noted(
                file_provider,
                config@,
                resolution,
                config@.source_path->Some_0,
                stands,
                request_views(loads@),
                opt_notices(out@),
            ));
        }
    }
    out
}

// ---------------------------------------------------------------------------------------------
// What an evaluation reports

/// A net that a module introduces, as it stands when the module was evaluated.
pub struct EvaluatedNet {
    pub kind: String,
    /// Whether the net still waits for the name of a variable.
    pub awaits_name: bool,
}

/// Whether a net lacks the name that it has to have.
pub open spec fn lacks_name(nets: Seq<EvaluatedNet>) -> bool {
    exists|i: int|
        0 <= i < nets.len() && (#[trigger] nets[i]).kind@ != "NotConnected"@
            && nets[i].awaits_name
}

/// Whether a net lacks the name that it has to have.
pub fn has_unnamed_net(nets: &Vec<EvaluatedNet>) -> (r: bool)
    ensures
        r == lacks_name(nets@),
{
    let mut i: usize = 0;
    while i < nets.len()
        invariant
            i <= nets@.len(),
            forall|k: int|
                0 <= k < i ==> !((#[trigger] nets@[k]).kind@ != "NotConnected"@
                    && nets@[k].awaits_name),
        decreases nets@.len() - i,
    {
        if nets[i].awaits_name && !same(nets[i].kind.as_str(), "NotConnected") {
            return true;
        }
        i += 1;
    }
    false
}

/// All reports of some lists, one list after the other.
pub open spec fn flat(v: Seq<Vec<Diagnostic>>) -> Seq<DiagnosticView>
    decreases v.len(),
{
    if v.len() == 0 {
        Seq::<DiagnosticView>::empty()
    } else {
        flat(v.drop_last()) + reports(v.last()@)
    }
}

/// Whether reports hold an error.
pub open spec fn has_error(v: Seq<DiagnosticView>) -> bool {
    exists|i: int| 0 <= i < v.len() && (#[trigger] v[i]).severity == Severity::Error
}

/// Whether reports hold an error.
pub fn has_errors(v: &Vec<Diagnostic>) -> (r: bool)
    ensures
        r == has_error(reports(v@)),
{
    let ghost all = reports(v@);
    let mut i: usize = 0;
    while i < v.len()
        invariant
            i <= v@.len(),
            all == reports(v@),
            forall|k: int| 0 <= k < i ==> (#[trigger] all[k]).severity != Severity::Error,
        decreases v@.len() - i,
    {
        proof {
            assert(all[i as int] == v@[i as int]@);
        }
        if v[i].is_error() {
            return true;
        }
        i += 1;
    }
    false
}

/// What a module that was evaluated reports: what its loads reported, what its children reported, its
/// own reports, and, where all is well, the remarks on its style.
pub open spec fn eval_reports(
    loads: Seq<DiagnosticView>,
    children: Seq<DiagnosticView>,
    own: Seq<DiagnosticView>,
    style: Seq<DiagnosticView>,
) -> Seq<DiagnosticView> {
    let all = loads + children + own;
    if has_error(all) {
        all
    } else {
        all + style
    }
}

/// Whether anything came out of a module whose code ran, and what is reported on it.
pub open spec fn eval_result(
    loads: Seq<DiagnosticView>,
    failure: Option<DiagnosticView>,
    nets: Seq<EvaluatedNet>,
    children: Seq<DiagnosticView>,
    own: Seq<DiagnosticView>,
    style: Seq<DiagnosticView>,
) -> (bool, Seq<DiagnosticView>) {
    if failure is Some {
        (false, loads.push(failure->Some_0))
    } else if lacks_name(nets) {
        (
            false,
            loads.push(
                plain(somewhere_in(Seq::<char>::empty()), Severity::Error, "Net is unnamed"@),
            ),
        )
    } else {
        (true, eval_reports(loads, children, own, style))
    }
}

/// Reports on a module whose code ran, and says whether anything came out: nothing does where the
/// code failed or a net lacks a name. `children` holds the reports of the modules inside, in their
/// order.
pub fn finish_eval(
    loads: Vec<Diagnostic>,
    failure: Option<Diagnostic>,
    nets: &Vec<EvaluatedNet>,
    children: Vec<Vec<Diagnostic>>,
    own: Vec<Diagnostic>,
    style: Vec<Diagnostic>,
) -> (r: (bool, Vec<Diagnostic>))
    ensures
        (r.0, reports(r.1@)) == eval_result(
            reports(loads@),
            opt_report(failure),
            nets@,
            flat(children@),
            reports(own@),
            reports(style@),
        ),
{
    let ghost first = reports(loads@);
    let mut out = loads;
    if let Some(d) = failure {
        proof {
            lemma_reports_push(out@, d);
        }
        out.push(d);
        return (false, out);
    }
    if has_unnamed_net(nets) {
        proof {
            reveal_strlit("");
            assert(""@ =~= Seq::<char>::empty());
        }
        let d = Diagnostic::new("", Severity::Error, "Net is unnamed".to_owned());
        proof {
            lemma_reports_push(out@, d);
        }
        out.push(d);
        return (false, out);
    }
    let ghost all = children@;
    let mut rest = children;
    let ghost mut i: int = 0;
    proof {
        assert(all.take(0) =~= Seq::<Vec<Diagnostic>>::empty());
        assert(all.skip(0) =~= all);
        assert(first + flat(all.take(0)) =~= first);
    }
    while rest.len() > 0
        invariant
            0 <= i <= all.len(),
            rest@ == all.skip(i),
            reports(out@) == first + flat(all.take(i)),
        decreases rest@.len(),
    {
        let next = rest.remove(0);
        proof {
            assert(next == all[i]);
            assert(all.take(i + 1).drop_last() =~= all.take(i));
            assert(all.take(i + 1).last() == all[i]);
            assert(rest@ =~= all.skip(i + 1));
            assert(first + flat(all.take(i + 1)) =~= (first + flat(all.take(i))) + reports(next@));
            i = i + 1;
        }
        extend_reports(&mut out, next);
    }
    proof {
        assert(i == all.len());
        assert(all.take(i) =~= all);
    }
    extend_reports(&mut out, own);
    if !has_errors(&out) {
        extend_reports(&mut out, style);
    }
    (true, out)
}

/// An error that a load, a module inside or the module itself reports is reported, and all that they
/// report is, in this order; the style of the source is remarked on where there is no error alone.
pub proof fn law_errors_are_reported(
    loads: Seq<DiagnosticView>,
    children: Seq<DiagnosticView>,
    own: Seq<DiagnosticView>,
    style: Seq<DiagnosticView>,
)
    ensures
        ({
            let all = loads + children + own;
            let r = eval_reports(loads, children, own, style);
            &&& has_error(loads) || has_error(children) || has_error(own) ==> has_error(r) && r == all
            &&& r.take(all.len() as int) == all
        }),
{
    let all = loads + children + own;
    if has_error(loads) {
        let i = choose|i: int| 0 <= i < loads.len() && (#[trigger] loads[i]).severity == Severity::Error;
        assert(all[i] == loads[i]);
    }
    if has_error(children) {
        let i = choose|i: int|
            0 <= i < children.len() && (#[trigger] children[i]).severity == Severity::Error;
        assert(all[loads.len() + i] == children[i]);
    }
    if has_error(own) {
        let i = choose|i: int| 0 <= i < own.len() && (#[trigger] own[i]).severity == Severity::Error;
        assert(all[loads.len() + children.len() + i] == own[i]);
    }
    assert(all.take(all.len() as int) =~= all);
    assert((all + style).take(all.len() as int) =~= all);
}

/// The place of the first error of some reports.
pub open spec fn first_error(v: Seq<DiagnosticView>) -> Option<int>
    decreases v.len(),
{
    if v.len() == 0 {
        None
    } else {
        match first_error(v.drop_last()) {
            Some(i) => Some(i),
            None => if v.last().severity == Severity::Error {
                Some(v.len() - 1)
            } else {
                None
            },
        }
    }
}

/// The warnings of some reports.
pub open spec fn warnings_of(v: Seq<DiagnosticView>) -> Seq<DiagnosticView>
    decreases v.len(),
{
    if v.len() == 0 {
        Seq::<DiagnosticView>::empty()
    } else {
        let r = warnings_of(v.drop_last());
        if v.last().severity == Severity::Warning {
            r.push(v.last())
        } else {
            r
        }
    }
}

/// The warnings of a module, as the module that loads it reports them.
pub open spec fn load_warnings(
    source: PlaceView,
    path: Seq<char>,
    warnings: Seq<DiagnosticView>,
) -> Seq<DiagnosticView> {
    Seq::new(
        warnings.len(),
        |i: int|
            caused(
                source,
                warnings[i].severity,
                "Warning from `"@ + path + "`"@,
                warnings[i],
            ),
    )
}

/// Reports the warnings of a module that is loaded, whether it was just evaluated or is used again.
pub fn add_cached_load_warnings(
    out: &mut Vec<Diagnostic>,
    path: &str,
    source: &Place,
    warnings: &Vec<Diagnostic>,
)
    ensures
        reports(final(out)@) == reports(old(out)@) + load_warnings(
            source@,
            path@,
            reports(warnings@),
        ),
{
    let ghost first = reports(out@);
    let ghost all = load_warnings(source@, path@, reports(warnings@));
    let mut i: usize = 0;
    proof {
        assert(first + all.take(0) =~= first);
    }
    while i < warnings.len()
        invariant
            i <= warnings@.len(),
            all == load_warnings(source@, path@, reports(warnings@)),
            reports(out@) == first + all.take(i as int),
        decreases warnings@.len() - i,
    {
        let mut body = "Warning from `".to_owned();
        body.append(path);
        body.append("`");
        let d = warnings[i].copy().under(source, warnings[i].severity, body);
        proof {
            lemma_reports_push(out@, d);
            assert(reports(warnings@)[i as int] == warnings@[i as int]@);
            assert(d@ == all[i as int]);
            assert(first + all.take(i + 1) =~= (first + all.take(i as int)).push(all[i as int]));
        }
        out.push(d);
        i += 1;
    }
    proof {
        assert(all.take(all.len() as int) =~= all);
    }
}

/// What becomes of a load: its warnings, which are kept with what was loaded, and the error that it
/// fails with, if it does.
pub struct LoadOutcome {
    pub warnings: Vec<Diagnostic>,
    pub failure: Option<Diagnostic>,
}

/// The error that a load fails with, if it does: an error was reported, or nothing came out.
pub open spec fn load_failure(
    v: Seq<DiagnosticView>,
    has_output: bool,
    path: Seq<char>,
    source: PlaceView,
) -> Option<DiagnosticView> {
    match first_error(v) {
        Some(i) => Some(
            caused(source, Severity::Error, "Error loading module `"@ + path + "`"@, v[i]),
        ),
        None => if has_output {
            None
        } else {
            Some(plain(source, Severity::Error, "Failed to load module `"@ + path + "`"@))
        },
    }
}

/// The contents of an optional report.
pub open spec fn opt_report(o: Option<Diagnostic>) -> Option<DiagnosticView> {
    match o {
        Some(d) => Some(d@),
        None => None,
    }
}

proof fn lemma_first_error(v: Seq<DiagnosticView>)
    ensures
        first_error(v) is Some ==> 0 <= first_error(v)->Some_0 < v.len()
            && v[first_error(v)->Some_0].severity == Severity::Error,
        (first_error(v) is Some) == has_error(v),
    decreases v.len(),
{
    if v.len() > 0 {
        lemma_first_error(v.drop_last());
        if has_error(v) && first_error(v.drop_last()) is None {
            let i = choose|i: int| 0 <= i < v.len() && (#[trigger] v[i]).severity == Severity::Error;
            if i < v.len() - 1 {
                assert(v.drop_last()[i] == v[i]);
            }
        }
        if first_error(v.drop_last()) is Some {
            let i = first_error(v.drop_last())->Some_0;
            assert(v.drop_last()[i] == v[i]);
        }
    }
}

/// Finishes a load, given what the module reported: its warnings are reported here too, to `out`, and
/// kept, and its first error makes the load fail.
pub fn finish_load(
    out: &mut Vec<Diagnostic>,
    diagnostics: &Vec<Diagnostic>,
    has_output: bool,
    path: &str,
    source: &Place,
) -> (r: LoadOutcome)
    ensures
        reports(final(out)@) == reports(old(out)@) + load_warnings(
            source@,
            path@,
            warnings_of(reports(diagnostics@)),
        ),
        reports(r.warnings@) == warnings_of(reports(diagnostics@)),
        opt_report(r.failure) == load_failure(
            reports(diagnostics@),
            has_output,
            path@,
            source@,
        ),
{
    let ghost all = reports(diagnostics@);
    let mut warnings: Vec<Diagnostic> = Vec::new();
    let mut cause: Option<usize> = None;
    let mut i: usize = 0;
    proof {
        assert(all.take(0) =~= Seq::<DiagnosticView>::empty());
        assert(reports(warnings@) =~= Seq::<DiagnosticView>::empty());
    }
    while i < diagnostics.len()
        invariant
            i <= diagnostics@.len(),
            all == reports(diagnostics@),
            reports(warnings@) == warnings_of(all.take(i as int)),
            first_error(all.take(i as int)) == (match cause {
                Some(c) => Some(c as int),
                None => None::<int>,
            }),
            cause is Some ==> cause->Some_0 < i,
        decreases diagnostics@.len() - i,
    {
        proof {
            assert(all[i as int] == diagnostics@[i as int]@);
            assert(all.take(i + 1).drop_last() =~= all.take(i as int));
            assert(all.take(i + 1).last() == all[i as int]);
        }
        match diagnostics[i].severity {
            Severity::Error => {
                if cause.is_none() {
                    cause = Some(i);
                }
            },
            Severity::Warning => {
                let d = diagnostics[i].copy();
                proof {
                    lemma_reports_push(warnings@, d);
                }
                warnings.push(d);
            },
            Severity::Advice => {},
        }
        i += 1;
    }
    proof {
        assert(all.take(all.len() as int) =~= all);
    }
    add_cached_load_warnings(out, path, source, &warnings);
    let failure = match cause {
        Some(c) => {
            let mut body = "Error loading module `".to_owned();
            body.append(path);
            body.append("`");
            Some(diagnostics[c].copy().under(source, Severity::Error, body))
        },
        None => if has_output {
            None
        } else {
            let mut body = "Failed to load module `".to_owned();
            body.append(path);
            body.append("`");
            Some(Diagnostic::at(source, Severity::Error, body))
        },
    };
    LoadOutcome { warnings, failure }
}

/// A load fails where an error was reported, and where nothing came out; what is kept of a module
/// that was loaded holds no error.
pub proof fn law_failed_loads(
    v: Seq<DiagnosticView>,
    has_output: bool,
    path: Seq<char>,
    source: PlaceView,
)
    ensures
        load_failure(v, has_output, path, source) is Some <==> has_error(v) || !has_output,
        !has_error(warnings_of(v)),
    decreases v.len(),
{
    lemma_first_error(v);
    if v.len() > 0 {
        law_failed_loads(v.drop_last(), has_output, path, source);
        let w = warnings_of(v);
        let earlier = warnings_of(v.drop_last());
        if has_error(w) {
            let i = choose|i: int| 0 <= i < w.len() && (#[trigger] w[i]).severity == Severity::Error;
            if i < earlier.len() {
                assert(earlier[i] == w[i]);
            }
        }
    }
}

/// The error for a module of the prelude that could not be loaded.
pub fn prelude_failure(prelude_path: &str, source_path: Option<&str>, cause: Option<Diagnostic>) -> (r:
    Diagnostic)
    ensures
        r@ == (DiagnosticView {
            path: match opt_str(source_path) {
                Some(p) => p,
                None => Seq::<char>::empty(),
            },
            span: None,
            severity: Severity::Error,
            body: "Failed to load prelude module `"@ + prelude_path@ + "`"@,
            kind: None,
            is_style: false,
            child: match opt_report(cause) {
                Some(c) => if c.body.len() > 0 || c.path.len() > 0 {
                    Some(Box::new(c))
                } else {
                    None
                },
                None => None,
            },
        }),
{
    let mut body = "Failed to load prelude module `".to_owned();
    body.append(prelude_path);
    body.append("`");
    let path = match source_path {
        Some(p) => p,
        None => "",
    };
    proof {
        reveal_strlit("");
        assert(""@ =~= Seq::<char>::empty());
    }
    match cause {
        Some(c) => if !c.body.as_str().is_empty() || !c.path.as_str().is_empty() {
            c.under(
                &Place { path: path.to_owned(), span: None },
                Severity::Error,
                body,
            )
        } else {
            Diagnostic::new(path, Severity::Error, body)
        },
        None => Diagnostic::new(path, Severity::Error, body),
    }
}

// ---------------------------------------------------------------------------------------------
// Modules inside

/// The text that goes above what a module inside reports.
pub open spec fn instantiation_text(severity: Severity, name: Seq<char>) -> Seq<char> {
    match severity {
        Severity::Error => "Error instantiating `"@ + name + "`"@,
        Severity::Warning => "Warning from `"@ + name + "`"@,
        Severity::Advice => "Issue in `"@ + name + "`"@,
    }
}

/// What a module inside reports, as the module around it reports it: remarks on style as they are, all
/// else under the place where the module is made.
pub open spec fn instantiated(d: DiagnosticView, name: Seq<char>, call_site: PlaceView) -> DiagnosticView {
    if d.is_style {
        d
    } else {
        caused(call_site, d.severity, instantiation_text(d.severity, name), d)
    }
}

/// What modules inside report, as the module around them reports it.
pub open spec fn all_instantiated(
    v: Seq<DiagnosticView>,
    name: Seq<char>,
    call_site: PlaceView,
) -> Seq<DiagnosticView> {
    Seq::new(v.len(), |i: int| instantiated(v[i], name, call_site))
}

fn wrap_child(d: Diagnostic, name: &str, call_site: &Place) -> (r: Diagnostic)
    ensures
        r@ == instantiated(d@, name@, call_site@),
{
    if d.is_style {
        return d;
    }
    let severity = d.severity;
    let mut body = match severity {
        Severity::Error => "Error instantiating `".to_owned(),
        Severity::Warning => "Warning from `".to_owned(),
        Severity::Advice => "Issue in `".to_owned(),
    };
    body.append(name);
    body.append("`");
    d.under(call_site, severity, body)
}

/// The names that were provided and are not used, each once.
pub open spec fn unused_names(provided: Seq<Seq<char>>, used: Seq<Seq<char>>) -> Seq<Seq<char>>
    decreases provided.len(),
{
    if provided.len() == 0 {
        Seq::<Seq<char>>::empty()
    } else {
        let r = unused_names(provided.drop_last(), used);
        if used.contains(provided.last()) || r.contains(provided.last()) {
            r
        } else {
            r.push(provided.last())
        }
    }
}

/// The error for arguments that a module does not know, if any.
pub open spec fn unknown_names(
    name: Seq<char>,
    provided: Seq<Seq<char>>,
    used: Seq<Seq<char>>,
) -> Option<Seq<char>> {
    let unused = unused_names(provided, used);
    if unused.len() == 0 {
        None
    } else {
        Some("Unknown argument(s) provided to module "@ + name + ": "@ + joined(unused, ", "@))
    }
}

/// The error for arguments that a module does not know, if any.
fn unknown_arguments(name: &str, provided: &Vec<String>, used: &Vec<String>) -> (r: Option<String>)
    ensures
        opt_text(r) == unknown_names(name@, texts(provided@), texts(used@)),
{
    let ghost all = texts(provided@);
    let mut out: Vec<String> = Vec::new();
    let mut i: usize = 0;
    proof {
        assert(all.take(0) =~= Seq::<Seq<char>>::empty());
        assert(texts(out@) =~= Seq::<Seq<char>>::empty());
    }
    while i < provided.len()
        invariant
            i <= provided@.len(),
            all == texts(provided@),
            texts(out@) == unused_names(all.take(i as int), texts(used@)),
        decreases provided@.len() - i,
    {
        let p = provided[i].as_str();
        proof {
            assert(all.take(i + 1).drop_last() =~= all.take(i as int));
            assert(all.take(i + 1).last() == p@);
        }
        if !contains_text(used, p) && !contains_text(&out, p) {
            let s = p.to_owned();
            proof {
                lemma_texts_push(out@, s);
            }
            out.push(s);
        }
        i += 1;
    }
    proof {
        assert(all.take(all.len() as int) =~= all);
        assert(texts(out@).len() == out@.len());
    }
    if out.len() == 0 {
        return None;
    }
    let mut message = "Unknown argument(s) provided to module ".to_owned();
    message.append(name);
    message.append(": ");
    let list = join(&out, ", ");
    message.append(list.as_str());
    Some(message)
}

/// What a module inside adds to the reports of the module around it. Where it came out, `outcome`
/// holds the names that were provided to it and those of its signature.
pub open spec fn child_reports(
    v: Seq<DiagnosticView>,
    name: Seq<char>,
    call_site: PlaceView,
    outcome: Option<(Seq<Seq<char>>, Seq<Seq<char>>)>,
) -> Seq<DiagnosticView> {
    let wrapped = all_instantiated(v, name, call_site);
    match outcome {
        None => wrapped,
        Some((provided, used)) => match unknown_names(name, provided, used) {
            None => wrapped,
            Some(body) => wrapped.push(plain(call_site, Severity::Error, body)),
        },
    }
}

/// Reports on a module inside: what it reported itself, and the arguments that it does not know.
pub fn process_pending_child(
    diagnostics: Vec<Diagnostic>,
    name: &str,
    call_site: &Place,
    outcome: Option<(&Vec<String>, &Vec<String>)>,
) -> (r: Vec<Diagnostic>)
    ensures
        reports(r@) == child_reports(
            reports(diagnostics@),
            name@,
            call_site@,
            match outcome {
                Some((provided, used)) => Some((texts(provided@), texts(used@))),
                None => None,
            },
        ),
{
    let ghost all = diagnostics@;
    let ghost wrapped = all_instantiated(reports(all), name@, call_site@);
    let mut rest = diagnostics;
    let mut out: Vec<Diagnostic> = Vec::new();
    let ghost mut i: int = 0;
    proof {
        assert(all.skip(0) =~= all);
        assert(reports(out@) =~= wrapped.take(0));
    }
    while rest.len() > 0
        invariant
            0 <= i <= all.len(),
            rest@ == all.skip(i),
            wrapped == all_instantiated(reports(all), name@, call_site@),
            reports(out@) == wrapped.take(i),
        decreases rest@.len(),
    {
        let next = rest.remove(0);
        let d = wrap_child(next, name, call_site);
        proof {
            assert(next == all[i]);
            assert(reports(all)[i] == next@);
            assert(rest@ =~= all.skip(i + 1));
            lemma_reports_push(out@, d);
            assert(wrapped.take(i + 1) =~= wrapped.take(i).push(wrapped[i]));
            i = i + 1;
        }
        out.push(d);
    }
    proof {
        assert(wrapped.take(i) =~= wrapped);
    }
    if let Some((provided, used)) = outcome {
        if let Some(body) = unknown_arguments(name, provided, used) {
            let d = Diagnostic::at(call_site, Severity::Error, body);
            proof {
                lemma_reports_push(out@, d);
            }
            out.push(d);
        }
    }
    out
}

/// An error of a module inside is an error of the module around it, and an argument that the module
/// does not know is one too.
pub proof fn law_child_errors(
    v: Seq<DiagnosticView>,
    name: Seq<char>,
    call_site: PlaceView,
    provided: Seq<Seq<char>>,
    used: Seq<Seq<char>>,
)
    ensures
        has_error(v) ==> has_error(child_reports(v, name, call_site, None)),
        has_error(v) ==> has_error(child_reports(v, name, call_site, Some((provided, used)))),
        (exists|i: int| 0 <= i < provided.len() && !used.contains(#[trigger] provided[i]))
            ==> has_error(child_reports(v, name, call_site, Some((provided, used)))),
{
    let wrapped = all_instantiated(v, name, call_site);
    let plus = child_reports(v, name, call_site, Some((provided, used)));
    if has_error(v) {
        let i = choose|i: int| 0 <= i < v.len() && (#[trigger] v[i]).severity == Severity::Error;
        assert(wrapped[i].severity == Severity::Error);
        assert(plus[i] == wrapped[i]);
    }
    if exists|i: int| 0 <= i < provided.len() && !used.contains(#[trigger] provided[i]) {
        let i = choose|i: int| 0 <= i < provided.len() && !used.contains(#[trigger] provided[i]);
        lemma_unused(provided, used, i);
        assert(plus.last().severity == Severity::Error);
        assert(plus[plus.len() - 1] == plus.last());
    }
}

proof fn lemma_unused(provided: Seq<Seq<char>>, used: Seq<Seq<char>>, i: int)
    requires
        0 <= i < provided.len(),
        !used.contains(provided[i]),
    ensures
        unused_names(provided, used).contains(provided[i]),
    decreases provided.len(),
{
    let r = unused_names(provided.drop_last(), used);
    if i < provided.len() - 1 {
        lemma_unused(provided.drop_last(), used, i);
        assert(provided.drop_last()[i] == provided[i]);
        let k = choose|k: int| 0 <= k < r.len() && r[k] == provided[i];
        if !(used.contains(provided.last()) || r.contains(provided.last())) {
            assert(r.push(provided.last())[k] == provided[i]);
        }
    } else {
        if !r.contains(provided.last()) {
            assert(r.push(provided.last())[r.len() as int] == provided.last());
        }
    }
}

/// The calls of component modifiers: for each child the module's own, then those of its parents.
pub open spec fn modifier_calls(children: Seq<usize>, own: Seq<usize>, parents: Seq<usize>) -> Seq<
    (usize, usize),
>
    decreases children.len(),
{
    if children.len() == 0 {
        Seq::<(usize, usize)>::empty()
    } else {
        let m = own + parents;
        modifier_calls(children.drop_last(), own, parents) + Seq::new(
            m.len(),
            |i: int| (m[i], children.last()),
        )
    }
}

/// The calls of component modifiers, each a function and the child that it is called on.
pub fn apply_component_modifiers(children: &Vec<usize>, own: &Vec<usize>, parents: &Vec<usize>) -> (r: Vec<
    (usize, usize),
>)
    ensures
        r@ == modifier_calls(children@, own@, parents@),
{
    let ghost all = children@;
    let ghost m = own@ + parents@;
    let mut out: Vec<(usize, usize)> = Vec::new();
    let mut i: usize = 0;
    proof {
        assert(all.take(0) =~= Seq::<usize>::empty());
    }
    while i < children.len()
        invariant
            i <= children@.len(),
            all == children@,
            m == own@ + parents@,
            out@ == modifier_calls(all.take(i as int), own@, parents@),
        decreases children@.len() - i,
    {
        let child: usize = children[i];
        let ghost first = out@;
        let ghost calls = Seq::new(m.len(), |k: int| (m[k], child));
        let mut j: usize = 0;
        proof {
            assert(first + calls.take(0) =~= first);
        }
        while j < own.len()
            invariant
                j <= own@.len(),
                m == own@ + parents@,
                calls == Seq::new(m.len(), |k: int| (m[k], child)),
                out@ == first + calls.take(j as int),
            decreases own@.len() - j,
        {
            out.push((own[j], child));
            proof {
                assert(m[j as int] == own@[j as int]);
                assert(first + calls.take(j + 1) =~= (first + calls.take(j as int)).push(
                    calls[j as int],
                ));
            }
            j += 1;
        }
        let mut k: usize = 0;
        while k < parents.len()
            invariant
                k <= parents@.len(),
                m == own@ + parents@,
                calls == Seq::new(m.len(), |k: int| (m[k], child)),
                out@ == first + calls.take(own@.len() + k),
            decreases parents@.len() - k,
        {
            out.push((parents[k], child));
            proof {
                let at = own@.len() + k;
                assert(m[at] == parents@[k as int]);
                assert(first + calls.take(at + 1) =~= (first + calls.take(at)).push(calls[at]));
            }
            k += 1;
        }
        proof {
            assert(calls.take(m.len() as int) =~= calls);
            assert(all.take(i + 1).drop_last() =~= all.take(i as int));
            assert(all.take(i + 1).last() == child);
        }
        i += 1;
    }
    proof {
        assert(all.take(all.len() as int) =~= all);
    }
    out
}

// ---------------------------------------------------------------------------------------------
// Loads

/// What to do for a load whose file is known.
pub enum LoadPlan {
    /// The load fails.
    Fail(EvalError),
    /// What was loaded before is used.
    Cached,
    /// The file is evaluated, under this configuration once its file is set.
    Evaluate(EvalContextConfig),
}

/// The name that a module that is loaded has in the tree.
pub open spec fn loaded_name(path: Seq<char>) -> Seq<char> {
    match file_stem_of(path) {
        Some(s) => s,
        None => Seq::<char>::empty(),
    }
}

impl EvalContextConfig {
    /// The file that loads, without which no load path can be resolved.
    pub fn loading_file(&self, path: &str) -> (r: Result<&str, EvalError>)
        ensures
            match (r, self@.source_path) {
                (Ok(f), Some(s)) => f@ == s,
                (Err(e), None) => e.message@ == "Cannot resolve load path '"@ + path@
                    + "' without a current file context"@,
                _ => false,
            },
    {
        match &self.source_path {
            Some(s) => Ok(s.as_str()),
            None => {
                let mut message = "Cannot resolve load path '".to_owned();
                message.append(path);
                message.append("' without a current file context");
                Err(EvalError { message })
            },
        }
    }

    /// Decides what to do for a load whose file is known: a load that leads back fails, what was
    /// loaded is used again, and a directory cannot be loaded.
    pub fn plan_load(&self, path: &str, is_cached: bool, is_directory: bool) -> (r: LoadPlan)
        ensures
            match r {
                LoadPlan::Fail(e) => if in_chain(self@.load_chain, path@) {
                    e.message@ == "cyclic load detected while loading `"@ + path@ + "`"@
                } else {
                    !is_cached && is_directory && e.message@
                        == "Directory load syntax is no longer supported"@
                },
                LoadPlan::Cached => !in_chain(self@.load_chain, path@) && is_cached,
                LoadPlan::Evaluate(c) => !in_chain(self@.load_chain, path@) && !is_cached
                    && !is_directory && c@ == loaded_by(
                    self@,
                    self@.tree_path.push(loaded_name(path@)),
                ),
            },
    {
        if self.would_create_cycle(path) {
            let mut message = "cyclic load detected while loading `".to_owned();
            message.append(path);
            message.append("`");
            return LoadPlan::Fail(EvalError { message });
        }
        if is_cached {
            return LoadPlan::Cached;
        }
        if is_directory {
            return LoadPlan::Fail(
                EvalError { message: "Directory load syntax is no longer supported".to_owned() },
            );
        }
        let name = match file_stem(path) {
            Some(s) => s,
            None => {
                let s = String::new();
                proof {
                    assert(s@ =~= Seq::<char>::empty());
                }
                s
            },
        };
        LoadPlan::Evaluate(self.child_for_load(self.tree_path.append(name.as_str())))
    }
}

/// What is left of the footprints once a file is forgotten: all, unless the file is a footprint.
pub open spec fn without_footprint(
    new: Seq<(CacheKey, usize)>,
    s: Seq<(CacheKey, usize)>,
    resolution: &ResolutionResult,
    active: Option<Seq<char>>,
    path: Seq<char>,
    footprint: Seq<char>,
) -> bool {
    if extension_of(path) == Some("kicad_mod"@) {
        exists|k: CacheKey| #[trigger]
            is_key_of(k, resolution, active, footprint) && new == without_key(s, k)
    } else {
        new == s
    }
}

/// A file as the package that it belongs to sees it.
pub open spec fn is_key_of(k: CacheKey, resolution: &ResolutionResult, active: Option<Seq<char>>, path: Seq<char>) -> bool {
    &&& k.path@ == path
    &&& k.detail is None
    &&& match (k.scope, scope_of(resolution.resolution.entries@, path, active)) {
        (Some(s), Some((_, p))) => s.package_identity@ == identity_text(p.identity@)
            && text_entries(s.deps@) == text_entries(p.deps.entries@),
        (None, None) => true,
        _ => false,
    }
}

// ---------------------------------------------------------------------------------------------
// Names

/// What a value of a type is.
pub open spec fn symbol_kind_of(type_label: Seq<char>) -> SymbolKind {
    if type_label == "NativeFunction"@ || type_label == "function"@ || type_label
        == "FrozenNativeFunction"@ {
        SymbolKind::Function
    } else if type_label == "ComponentFactory"@ || type_label == "ComponentType"@ {
        SymbolKind::Component
    } else if type_label == "InterfaceFactory"@ {
        SymbolKind::Interface
    } else if type_label == "ModuleLoader"@ {
        SymbolKind::Module
    } else {
        SymbolKind::Variable
    }
}

/// What a value of a type is.
pub fn symbol_kind(type_label: &str) -> (r: SymbolKind)
    ensures
        r == symbol_kind_of(type_label@),
{
    if same(type_label, "NativeFunction") || same(type_label, "function") || same(
        type_label,
        "FrozenNativeFunction",
    ) {
        SymbolKind::Function
    } else if same(type_label, "ComponentFactory") || same(type_label, "ComponentType") {
        SymbolKind::Component
    } else if same(type_label, "InterfaceFactory") {
        SymbolKind::Interface
    } else if same(type_label, "ModuleLoader") {
        SymbolKind::Module
    } else {
        SymbolKind::Variable
    }
}

/// The file of a module that another file names.
pub open spec fn loader_file(path: Seq<char>, file: Seq<char>) -> Seq<char> {
    if is_absolute(path) {
        path
    } else {
        match parent_of(file) {
            Some(dir) => path_joined(dir, path),
            None => path,
        }
    }
}

/// Finds the file of a module that another file names.
pub fn loader_path(path: &str, file: &str) -> (r: String)
    ensures
        r@ == loader_file(path@, file@),
{
    proof {
        reveal_strlit("/");
        if is_absolute(path@) {
            assert(path@.take(1) =~= "/"@);
        }
        if begins(path@, "/"@) {
            assert(path@.take(1)[0] == path@[0]);
        }
    }
    if starts_with(path, "/") {
        return path.to_owned();
    }
    match parent(file) {
        Some(dir) => path_join(dir.as_str(), path),
        None => path.to_owned(),
    }
}

/// A name of a module that was evaluated.
pub struct DefinedName {
    pub name: String,
    pub type_label: String,
    /// The file and the parameters, where the value loads a module.
    pub loader: Option<(String, Vec<String>)>,
}

/// What is known of a name.
pub open spec fn info_for(n: DefinedName) -> SymbolInfoView {
    match n.loader {
        Some((path, params)) => SymbolInfoView {
            kind: SymbolKind::Module,
            parameters: Some(texts(params@)),
            source_path: Some(path@),
            type_label: "ModuleLoader"@,
            documentation: None,
        },
        None => SymbolInfoView {
            kind: symbol_kind_of(n.type_label@),
            parameters: None,
            source_path: None,
            type_label: n.type_label@,
            documentation: None,
        },
    }
}

/// Where the names of a module lead, and what is known of them.
pub open spec fn analyzed(v: Seq<DefinedName>) -> (
    Map<Seq<char>, Seq<char>>,
    Map<Seq<char>, SymbolInfoView>,
)
    decreases v.len(),
{
    if v.len() == 0 {
        (Map::empty(), Map::empty())
    } else {
        let (index, meta) = analyzed(v.drop_last());
        let n = v.last();
        (
            match n.loader {
                Some((path, _)) => index.insert(n.name@, path@),
                None => index,
            },
            meta.insert(n.name@, info_for(n)),
        )
    }
}

/// Finds where the names of a module lead, and what is known of them.
pub fn analyze_names(v: &Vec<DefinedName>) -> (r: (
    SortedMap<String, String>,
    SortedMap<String, SymbolInfo>,
))
    ensures
        r.0.wf(),
        r.1.wf(),
        (viewed(r.0@), viewed(r.1@)) == analyzed(v@),
{
    let ghost all = v@;
    let mut index: SortedMap<String, String> = SortedMap::new();
    let mut meta: SortedMap<String, SymbolInfo> = SortedMap::new();
    let mut i: usize = 0;
    proof {
        assert(all.take(0) =~= Seq::<DefinedName>::empty());
        assert(viewed(index@) =~= Map::<Seq<char>, Seq<char>>::empty());
        assert(viewed(meta@) =~= Map::<
            Seq<char>,
            SymbolInfoView,
        >::empty());
    }
    while i < v.len()
        invariant
            i <= v@.len(),
            all == v@,
            index.wf(),
            meta.wf(),
            (viewed(index@), viewed(meta@)) == analyzed(all.take(i as int)),
        decreases v@.len() - i,
    {
        let n = &v[i];
        proof {
            assert(all.take(i + 1).drop_last() =~= all.take(i as int));
            assert(all.take(i + 1).last() == all[i as int]);
        }
        let info = match &n.loader {
            Some((path, params)) => {
                let p = path.clone();
                proof {
                    lemma_viewed_insert(index@, n.name@, p);
                }
                index.insert(n.name.clone(), p);
                SymbolInfo {
                    kind: SymbolKind::Module,
                    parameters: Some(clone_texts(params)),
                    source_path: Some(path.clone()),
                    type_label: "ModuleLoader".to_owned(),
                    documentation: None,
                }
            },
            None => SymbolInfo {
                kind: symbol_kind(n.type_label.as_str()),
                parameters: None,
                source_path: None,
                type_label: n.type_label.clone(),
                documentation: None,
            },
        };
        proof {
            lemma_viewed_insert(meta@, n.name@, info);
        }
        meta.insert(n.name.clone(), info);
        i += 1;
    }
    proof {
        assert(all.take(all.len() as int) =~= all);
    }
    (index, meta)
}

/// An index with names that it lacks, all of one file.
pub open spec fn with_names(
    index: Map<Seq<char>, Seq<char>>,
    names: Seq<Seq<char>>,
    path: Seq<char>,
) -> Map<Seq<char>, Seq<char>>
    decreases names.len(),
{
    if names.len() == 0 {
        index
    } else {
        let r = with_names(index, names.drop_last(), path);
        if r.dom().contains(names.last()) {
            r
        } else {
            r.insert(names.last(), path)
        }
    }
}

/// An index with the names of the prelude that it lacks.
pub open spec fn with_prelude(
    index: Map<Seq<char>, Seq<char>>,
    files: Seq<Option<String>>,
    modules: Seq<(Seq<char>, Seq<Seq<char>>)>,
) -> Map<Seq<char>, Seq<char>>
    decreases files.len(),
{
    if files.len() == 0 || modules.len() == 0 {
        index
    } else {
        let r = with_prelude(index, files.drop_last(), modules.drop_last());
        match files.last() {
            Some(p) => with_names(r, modules.last().1, p@),
            None => r,
        }
    }
}

/// A name that a file defines itself leads where the file says, whatever the prelude holds; and a name
/// of the prelude is at hand in every file.
pub proof fn law_own_names_stay(
    index: Map<Seq<char>, Seq<char>>,
    files: Seq<Option<String>>,
    modules: Seq<(Seq<char>, Seq<Seq<char>>)>,
    q: Seq<char>,
)
    requires
        files.len() == modules.len(),
    ensures
        index.dom().contains(q) ==> with_prelude(index, files, modules).dom().contains(q)
            && with_prelude(index, files, modules)[q] == index[q],
        forall|i: int|
            0 <= i < files.len() && (#[trigger] files[i]) is Some && modules[i].1.contains(q)
                ==> with_prelude(index, files, modules).dom().contains(q),
    decreases files.len(),
{
    if files.len() > 0 {
        let (f, m) = (files.drop_last(), modules.drop_last());
        law_own_names_stay(index, f, m, q);
        let r = with_prelude(index, f, m);
        if files.last() is Some {
            lemma_with_names(r, modules.last().1, files.last()->Some_0@, q);
        }
        assert forall|i: int|
            0 <= i < files.len() && (#[trigger] files[i]) is Some && modules[i].1.contains(q)
            implies with_prelude(index, files, modules).dom().contains(q) by {
            if i < files.len() - 1 {
                assert(f[i] == files[i]);
                assert(m[i] == modules[i]);
            }
        }
    }
}

proof fn lemma_with_names(
    index: Map<Seq<char>, Seq<char>>,
    names: Seq<Seq<char>>,
    path: Seq<char>,
    q: Seq<char>,
)
    ensures
        index.dom().contains(q) ==> with_names(index, names, path).dom().contains(q)
            && with_names(index, names, path)[q] == index[q],
        names.contains(q) ==> with_names(index, names, path).dom().contains(q),
    decreases names.len(),
{
    if names.len() > 0 {
        lemma_with_names(index, names.drop_last(), path, q);
        if names.contains(q) && q != names.last() {
            let i = choose|i: int| 0 <= i < names.len() && names[i] == q;
            assert(names.drop_last()[i] == q);
        }
    }
}

/// Adds names to an index that it lacks.
fn add_names(index: &mut SortedMap<String, String>, names: &Vec<String>, path: &str)
    requires
        old(index).wf(),
    ensures
        final(index).wf(),
        viewed(final(index)@) == with_names(viewed(old(index)@), texts(names@), path@),
{
    let ghost first = viewed(index@);
    let ghost all = texts(names@);
    let mut i: usize = 0;
    proof {
        assert(all.take(0) =~= Seq::<Seq<char>>::empty());
    }
    while i < names.len()
        invariant
            i <= names@.len(),
            all == texts(names@),
            index.wf(),
            viewed(index@) == with_names(first, all.take(i as int), path@),
        decreases names@.len() - i,
    {
        proof {
            assert(all.take(i + 1).drop_last() =~= all.take(i as int));
            assert(all.take(i + 1).last() == names@[i as int]@);
        }
        if !index.contains_key(&names[i]) {
            let p = path.to_owned();
            proof {
                lemma_viewed_insert(index@, names@[i as int]@, p);
            }
            index.insert(names[i].clone(), p);
        }
        i += 1;
    }
    proof {
        assert(all.take(all.len() as int) =~= all);
    }
}

/// Adds the names of the prelude to an index that it lacks. `files` holds, module by module, the file
/// that it is in, where that is known.
pub fn add_prelude_names(index: &mut SortedMap<String, String>, files: &Vec<Option<String>>)
    requires
        old(index).wf(),
        files@.len() == prelude_modules().len(),
    ensures
        final(index).wf(),
        viewed(final(index)@) == with_prelude(viewed(old(index)@), files@, prelude_modules()),
{
    let ghost first = viewed(index@);
    let ghost fs = files@;
    let modules = prelude();
    let ghost all = prelude_views(modules@);
    let mut i: usize = 0;
    proof {
        assert(fs.take(0) =~= Seq::<Option<String>>::empty());
        assert(all.len() == modules@.len());
    }
    while i < files.len()
        invariant
            i <= files@.len(),
            fs == files@,
            all == prelude_views(modules@),
            all.len() == modules@.len(),
            fs.len() == all.len(),
            index.wf(),
            viewed(index@) == with_prelude(first, fs.take(i as int), all.take(i as int)),
        decreases files@.len() - i,
    {
        proof {
            assert(fs.take(i + 1).drop_last() =~= fs.take(i as int));
            assert(all.take(i + 1).drop_last() =~= all.take(i as int));
            assert(fs.take(i + 1).last() == fs[i as int]);
            assert(all.take(i + 1).last() == all[i as int]);
        }
        if let Some(p) = &files[i] {
            add_names(index, &modules[i].names, p.as_str());
        }
        i += 1;
    }
    proof {
        assert(fs.take(fs.len() as int) =~= fs);
        assert(all.take(all.len() as int) =~= all);
    }
}

/// Whether an entry of a directory is looked at: hidden ones are not.
pub fn is_visible_entry(name: &str) -> (r: bool)
    ensures
        r == !begins(name@, "."@),
{
    !starts_with(name, ".")
}

/// Whether a file holds a module: it is not hidden, and its name ends in `.zen` or `.star`.
pub fn is_workspace_file(path: &str) -> (r: bool)
    ensures
        r == ((file_name_of(path@) is Some ==> !begins(file_name_of(path@)->Some_0, "."@)) && (
        extension_of(path@) == Some("star"@) || extension_of(path@) == Some("zen"@))),
{
    let visible = match file_name(path) {
        Some(n) => is_visible_entry(n.as_str()),
        None => true,
    };
    let is_module = match extension(path) {
        Some(e) => same(e.as_str(), "star") || same(e.as_str(), "zen"),
        None => false,
    };
    visible && is_module
}

// ---------------------------------------------------------------------------------------------
// Schematics

/// The error for a schematic that could not be made, if any; `errors` holds what was reported.
pub open spec fn schematic_failure(has_output: bool, has_errors: bool, errors: Seq<Seq<char>>) -> Option<
    Seq<char>,
> {
    if has_output && !has_errors {
        None
    } else if has_output {
        Some("Schematic conversion had errors:\n"@ + joined(errors, "\n"@))
    } else {
        Some("Schematic conversion failed:\n"@ + joined(errors, "\n"@))
    }
}

/// The error for a schematic that could not be made, if any.
pub fn schematic_error(has_output: bool, has_errors: bool, errors: &Vec<String>) -> (r: Option<String>)
    ensures
        opt_text(r) == schematic_failure(has_output, has_errors, texts(errors@)),
{
    if has_output && !has_errors {
        return None;
    }
    let mut message = if has_output {
        "Schematic conversion had errors:\n".to_owned()
    } else {
        "Schematic conversion failed:\n".to_owned()
    };
    let list = join(errors, "\n");
    message.append(list.as_str());
    Some(message)
}

/// The layout path of a module that is to become a package reference.
pub open spec fn raw_layout_path(i: InstanceView) -> Option<Seq<char>> {
    if i.kind != InstanceKind::Module || !i.attributes.dom().contains(crate::attrs::LAYOUT_PATH@) {
        None
    } else {
        match i.attributes[crate::attrs::LAYOUT_PATH@] {
            AttributeView::One(ScalarView::Text(s)) => if begins(s, "package://"@) {
                None
            } else {
                Some(s)
            },
            _ => None,
        }
    }
}

/// Finds the layout path of a module that is to become a package reference.
pub fn layout_path_to_resolve(instance: &Instance) -> (r: Option<String>)
    ensures
        opt_text(r) == raw_layout_path(instance@),
{
    match instance.kind {
        InstanceKind::Module => {},
        _ => {
            return None;
        },
    }
    let key = crate::attrs::LAYOUT_PATH.to_owned();
    match instance.attributes.get(&key) {
        Some(a) => match a {
            AttributeValue::One(s) => match s {
                Scalar::Text(t) => if starts_with(t.as_str(), "package://") {
                    None
                } else {
                    Some(t.clone())
                },
                _ => None,
            },
            _ => None,
        },
        None => None,
    }
}

/// An instance whose layout path has become a package reference, where there is one.
pub open spec fn with_layout_reference(i: InstanceView, reference: Option<Seq<char>>) -> InstanceView {
    match reference {
        Some(uri) if raw_layout_path(i) is Some => InstanceView {
            attributes: i.attributes.insert(crate::attrs::LAYOUT_PATH@, text_attribute(uri)),
            ..i
        },
        _ => i,
    }
}

/// Turns the layout paths of modules into package references. `references` holds, instance by
/// instance, what its layout path stands for, if anything.
pub fn resolve_layout_paths(
    instances: &mut SortedMap<InstancePath, Instance>,
    references: &Vec<Option<String>>,
)
    requires
        references@.len() == old(instances).entries@.len(),
        forall|i: int|
            0 <= i < old(instances).entries@.len() ==> (#[trigger] old(instances).entries@[i]).1.wf(),
    ensures
        final(instances).entries@.len() == old(instances).entries@.len(),
        forall|i: int|
            0 <= i < old(instances).entries@.len() ==> (#[trigger] final(instances).entries@[i]).0
                == old(instances).entries@[i].0 && final(instances).entries@[i].1.wf() && final(instances).entries@[i].1@ == with_layout_reference(
                old(instances).entries@[i].1@,
                opt_text(references@[i]),
            ),
{
    let ghost start = instances.entries@;
    let mut i: usize = 0;
    while i < instances.entries.len()
        invariant
            i <= instances.entries@.len(),
            instances.entries@.len() == start.len(),
            references@.len() == start.len(),
            forall|k: int| 0 <= k < start.len() ==> (#[trigger] start[k]).1.wf(),
            forall|k: int|
                0 <= k < i ==> (#[trigger] instances.entries@[k]).0 == start[k].0
                    && instances.entries@[k].1.wf() && instances.entries@[k].1@
                    == with_layout_reference(start[k].1@, opt_text(references@[k])),
            forall|k: int| i <= k < start.len() ==> #[trigger] instances.entries@[k] == start[k],
        decreases instances.entries@.len() - i,
    {
        proof {
            assert(start[i as int].1.wf());
            assert(instances.entries@[i as int] == start[i as int]);
        }
        let raw = layout_path_to_resolve(&instances.entries[i].1);
        if raw.is_some() {
            if let Some(uri) = &references[i] {
                let value = make_text(uri.as_str());
                let instance = instances.value_mut(i);
                instance.add_attribute(crate::attrs::LAYOUT_PATH, value);
            }
        }
        i += 1;
    }
}

// ---------------------------------------------------------------------------------------------
// Inputs

/// A whole number as the evaluator keeps it.
pub open spec fn kept_number(n: i64) -> int {
    let low = n as int % 0x1_0000_0000;
    if low < 0x8000_0000 {
        low
    } else {
        low - 0x1_0000_0000
    }
}

/// Whether a value of the store is what a given value becomes.
pub open spec fn becomes(j: Json, items: Seq<Item>, h: usize) -> bool
    decreases j,
{
    match j {
        Json::Null => items[h as int] == Item::Nothing,
        Json::Bool(b) => items[h as int] == Item::Bool(b),
        Json::Number(n) => match items[h as int] {
            Item::Int(m) => m == kept_number(n),
            _ => false,
        },
        Json::Text(s) => match items[h as int] {
            Item::Text(t) => s@ == t@,
            _ => false,
        },
        Json::Array(v) => match items[h as int] {
            Item::List(l) => l@.len() == v@.len() && forall|i: int|
                #![trigger l@[i]]
                0 <= i < v@.len() ==> becomes(v@[i], items, l@[i]),
            _ => false,
        },
        Json::Object(v) => match items[h as int] {
            Item::Dict(d) => d@.len() == v@.len() && forall|i: int|
                #![trigger d@[i]]
                0 <= i < v@.len() ==> d@[i].0.text@ == v@[i].0@ && d@[i].0.is_string && becomes(
                    v@[i].1,
                    items,
                    d@[i].1,
                ),
            _ => false,
        },
        _ => false,
    }
}

/// Whether a given value is one that a document can hold.
pub open spec fn is_plain(j: Json) -> bool
    decreases j,
{
    match j {
        Json::Array(v) => forall|i: int| 0 <= i < v@.len() ==> is_plain(#[trigger] v@[i]),
        Json::Object(v) => forall|i: int| 0 <= i < v@.len() ==> is_plain((#[trigger] v@[i]).1),
        Json::Net { id: _, name: _, properties: _ } => false,
        Json::Interface { fields: _ } => false,
        Json::Outside { value: _, type_label: _ } => false,
        _ => true,
    }
}

proof fn lemma_becomes_later(j: Json, earlier: Seq<Item>, later: Seq<Item>, h: usize)
    requires
        well_founded(earlier),
        extends(later, earlier),
        h < earlier.len(),
        becomes(j, earlier, h),
    ensures
        becomes(j, later, h),
    decreases j,
{
    lemma_extends_item(later, earlier, h as int);
    assert(refers_below(earlier[h as int], h as int));
    match j {
        Json::Array(v) => {
            if let Item::List(l) = earlier[h as int] {
                assert forall|i: int| 0 <= i < v@.len() implies becomes(
                    v@[i],
                    later,
                    #[trigger] l@[i],
                ) by {
                    lemma_becomes_later(v@[i], earlier, later, l@[i]);
                }
            }
        },
        Json::Object(v) => {
            if let Item::Dict(d) = earlier[h as int] {
                assert forall|i: int| 0 <= i < v@.len() implies (#[trigger] d@[i]).0.text@
                    == v@[i].0@ && d@[i].0.is_string && becomes(v@[i].1, later, d@[i].1) by {
                    lemma_becomes_later(v@[i].1, earlier, later, d@[i].1);
                }
            }
        },
        _ => {},
    }
}

fn keep_number(n: i64) -> (r: i64)
    ensures
        r == kept_number(n),
{
    let low: u32 = #[verifier::truncate] (n as u32);
    proof {
        assert(n as u32 as int == n as int % 0x1_0000_0000) by (bit_vector);
    }
    if low < 0x8000_0000u32 {
        low as i64
    } else {
        low as i64 - 0x1_0000_0000i64
    }
}

/// Puts a given value into the store, all that it holds included.
pub fn json_value_to_heap_value(store: &mut Store, j: &Json) -> (r: usize)
    requires
        old(store).wf(),
        is_plain(*j),
    ensures
        final(store).wf(),
        extends(final(store).items@, old(store).items@),
        r < final(store).items@.len(),
        becomes(*j, final(store).items@, r),
        final(store).next_net_id == old(store).next_net_id,
    decreases j,
{
    let ghost first = store.items@;
    let ghost id = store.next_net_id;
    let item = match j {
        Json::Bool(b) => Item::Bool(*b),
        Json::Number(n) => Item::Int(keep_number(*n)),
        Json::Text(s) => Item::Text(s.clone()),
        Json::Array(v) => {
            let mut list: Vec<usize> = Vec::new();
            let mut i: usize = 0;
            proof {
                assert(first.take(first.len() as int) =~= first);
            }
            while i < v.len()
                invariant
                    i <= v@.len(),
                    *j == Json::Array(*v),
                    is_plain(*j),
                    store.wf(),
                    store.next_net_id == id,
                    extends(store.items@, first),
                    list@.len() == i,
                    forall|k: int| 0 <= k < i ==> (#[trigger] list@[k]) < store.items@.len(),
                    forall|k: int|
                        #![trigger list@[k]]
                        0 <= k < i ==> becomes(v@[k], store.items@, list@[k]),
                decreases v@.len() - i,
            {
                let ghost before = store.items@;
                proof {
                    assert(decreases_to!(*v => v@[i as int]));
                    assert(is_plain(j->Array_0@[i as int]));
                }
                let h = json_value_to_heap_value(store, &v[i]);
                proof {
                    assert forall|k: int| 0 <= k < i implies becomes(
                        v@[k],
                        store.items@,
                        #[trigger] list@[k],
                    ) by {
                        lemma_becomes_later(v@[k], before, store.items@, list@[k]);
                    }
                    lemma_extends_transitive(store.items@, before, first);
                }
                list.push(h);
                i += 1;
            }
            Item::List(list)
        },
        Json::Object(v) => {
            let mut dict: Vec<(DictKey, usize)> = Vec::new();
            let mut i: usize = 0;
            proof {
                assert(first.take(first.len() as int) =~= first);
            }
            while i < v.len()
                invariant
                    i <= v@.len(),
                    *j == Json::Object(*v),
                    is_plain(*j),
                    store.wf(),
                    store.next_net_id == id,
                    extends(store.items@, first),
                    dict@.len() == i,
                    forall|k: int| 0 <= k < i ==> (#[trigger] dict@[k]).1 < store.items@.len(),
                    forall|k: int|
                        #![trigger dict@[k]]
                        0 <= k < i ==> dict@[k].0.text@ == v@[k].0@ && dict@[k].0.is_string && becomes(
                            v@[k].1,
                            store.items@,
                            dict@[k].1,
                        ),
                decreases v@.len() - i,
            {
                let ghost before = store.items@;
                proof {
                    assert(decreases_to!(*v => v@[i as int]));
                    assert(is_plain(j->Object_0@[i as int].1));
                }
                let h = json_value_to_heap_value(store, &v[i].1);
                proof {
                    assert forall|k: int| 0 <= k < i implies becomes(
                        v@[k].1,
                        store.items@,
                        (#[trigger] dict@[k]).1,
                    ) by {
                        lemma_becomes_later(v@[k].1, before, store.items@, dict@[k].1);
                    }
                    lemma_extends_transitive(store.items@, before, first);
                }
                dict.push((DictKey { text: v[i].0.clone(), is_string: true }, h));
                i += 1;
            }
            Item::Dict(dict)
        },
        _ => Item::Nothing,
    };
    let ghost middle = store.items@;
    proof {
        assert(first.take(first.len() as int) =~= first);
        assert(extends(middle, first));
        assert(refers_below(item, middle.len() as int));
    }
    let ghost made = item;
    let r = store.allocate(item);
    proof {
        assert(store.items@.take(middle.len() as int) =~= middle);
        lemma_extends_transitive(store.items@, middle, first);
        match j {
            Json::Array(v) => {
                if let Item::List(l) = made {
                    assert forall|k: int| 0 <= k < v@.len() implies becomes(
                        v@[k],
                        store.items@,
                        #[trigger] l@[k],
                    ) by {
                        lemma_becomes_later(v@[k], middle, store.items@, l@[k]);
                    }
                }
            },
            Json::Object(v) => {
                if let Item::Dict(d) = made {
                    assert forall|k: int| 0 <= k < v@.len() implies becomes(
                        v@[k].1,
                        store.items@,
                        (#[trigger] d@[k]).1,
                    ) by {
                        lemma_becomes_later(v@[k].1, middle, store.items@, d@[k].1);
                    }
                }
            },
            _ => {},
        }
    }
    r
}

/// How a value of a signature is shown: by its text, or in the form that its own type gives it.
pub enum ParameterForm {
    Text(String),
    Native(usize),
}

/// How a value of a signature is shown: enumerations and physical quantities by their text.
pub fn serialize_parameter_value(store: &Store, h: usize) -> (r: ParameterForm)
    requires
        h < store.items@.len(),
    ensures
        match (store.items@[h as int], r) {
            (Item::Choice { type_label: _, value }, ParameterForm::Text(s)) => s@ == value@,
            (Item::Quantity { type_label: _, shown, repr: _ }, ParameterForm::Text(s)) => s@ == shown@,
            (Item::Choice { type_label: _, value: _ }, _) => false,
            (Item::Quantity { type_label: _, shown: _, repr: _ }, _) => false,
            (_, ParameterForm::Native(n)) => n == h,
            _ => false,
        },
{
    match &store.items[h] {
        Item::Choice { type_label: _, value } => ParameterForm::Text(value.clone()),
        Item::Quantity { type_label: _, shown, repr: _ } => ParameterForm::Text(shown.clone()),
        _ => ParameterForm::Native(h),
    }
}

/// The form that a value of a signature is shown in; none, where its own type has none to give.
pub open spec fn parameter_form(items: Seq<Item>, has_form: Seq<bool>, h: usize) -> Option<
    ParameterFormView,
> {
    match items[h as int] {
        Item::Choice { type_label: _, value } => Some(ParameterFormView::Text(value@)),
        Item::Quantity { type_label: _, shown, repr: _ } => Some(ParameterFormView::Text(shown@)),
        _ => if has_form[h as int] {
            Some(ParameterFormView::Native(h))
        } else {
            None
        },
    }
}

/// The contents of a `ParameterForm`.
pub enum ParameterFormView {
    Text(Seq<char>),
    Native(usize),
}

impl View for ParameterForm {
    type V = ParameterFormView;

    open spec fn view(&self) -> ParameterFormView {
        match *self {
            ParameterForm::Text(s) => ParameterFormView::Text(s@),
            ParameterForm::Native(h) => ParameterFormView::Native(h),
        }
    }
}

/// The contents of an optional form.
pub open spec fn opt_form(o: Option<ParameterForm>) -> Option<ParameterFormView> {
    match o {
        Some(f) => Some(f@),
        None => None,
    }
}

/// The contents of a list of forms.
pub open spec fn form_views(v: Seq<ParameterForm>) -> Seq<ParameterFormView> {
    Seq::new(v.len(), |i: int| v[i]@)
}

/// The forms of values, but for those that have none.
pub open spec fn parameter_forms(items: Seq<Item>, has_form: Seq<bool>, hs: Seq<usize>) -> Seq<
    ParameterFormView,
>
    decreases hs.len(),
{
    if hs.len() == 0 {
        Seq::<ParameterFormView>::empty()
    } else {
        let first = parameter_forms(items, has_form, hs.drop_last());
        match parameter_form(items, has_form, hs.last()) {
            Some(f) => first.push(f),
            None => first,
        }
    }
}

/// A parameter of a module, as tools see it.
pub struct SignatureParameter {
    pub name: String,
    pub type_value: usize,
    pub required: bool,
    pub default_value: Option<ParameterForm>,
    pub default_display: Option<String>,
    pub allowed_values: Option<Vec<ParameterForm>>,
    pub allowed_display: Option<Vec<String>>,
    pub help: Option<String>,
    pub direction: Option<IoDirection>,
}

/// Whether a parameter is shown as tools are to see it. `shown` is the text of its default.
pub open spec fn shows_parameter(
    r: SignatureParameter,
    items: Seq<Item>,
    has_form: Seq<bool>,
    p: ModuleParam,
    shown: Option<Seq<char>>,
) -> bool {
    &&& r.name@ == p.name@
    &&& r.type_value == p.type_value
    &&& r.required == !p.optional
    &&& opt_form(r.default_value) == (match p.default_value {
        Some(h) => parameter_form(items, has_form, h),
        None => None,
    })
    &&& opt_text(r.default_display) == shown
    &&& match (r.allowed_values, p.allowed_values) {
        (Some(v), Some(hs)) => form_views(v@) == parameter_forms(items, has_form, hs@),
        (None, None) => true,
        _ => false,
    }
    &&& opt_texts(r.allowed_display) == opt_texts(p.allowed_display)
    &&& opt_text(r.help) == opt_text(p.help)
    &&& r.direction == p.direction
}

/// The form that a value of a signature is shown in, where it has one.
fn form_of_parameter(store: &Store, has_form: &Vec<bool>, h: usize) -> (r: Option<ParameterForm>)
    requires
        h < store.items@.len(),
        has_form@.len() == store.items@.len(),
    ensures
        opt_form(r) == parameter_form(store.items@, has_form@, h),
{
    match serialize_parameter_value(store, h) {
        ParameterForm::Text(s) => Some(ParameterForm::Text(s)),
        ParameterForm::Native(n) => if has_form[n] {
            Some(ParameterForm::Native(n))
        } else {
            None
        },
    }
}

/// The forms of values, but for those that have none.
fn forms_of_parameter(store: &Store, has_form: &Vec<bool>, hs: &Vec<usize>) -> (r: Vec<
    ParameterForm,
>)
    requires
        has_form@.len() == store.items@.len(),
        forall|i: int| 0 <= i < hs@.len() ==> (#[trigger] hs@[i]) < store.items@.len(),
    ensures
        form_views(r@) == parameter_forms(store.items@, has_form@, hs@),
{
    let ghost all = hs@;
    let mut out: Vec<ParameterForm> = Vec::new();
    let mut i: usize = 0;
    proof {
        assert(all.take(0) =~= Seq::<usize>::empty());
        assert(form_views(out@) =~= Seq::<ParameterFormView>::empty());
    }
    while i < hs.len()
        invariant
            i <= hs@.len(),
            all == hs@,
            has_form@.len() == store.items@.len(),
            forall|k: int| 0 <= k < hs@.len() ==> (#[trigger] hs@[k]) < store.items@.len(),
            form_views(out@) == parameter_forms(store.items@, has_form@, all.take(i as int)),
        decreases hs@.len() - i,
    {
        proof {
            assert(all.take(i + 1).drop_last() =~= all.take(i as int));
            assert(all.take(i + 1).last() == all[i as int]);
        }
        if let Some(f) = form_of_parameter(store, has_form, hs[i]) {
            let ghost prior = out@;
            out.push(f);
            proof {
                assert(form_views(out@) =~= form_views(prior).push(f@));
            }
        }
        i += 1;
    }
    proof {
        assert(all.take(all.len() as int) =~= all);
    }
    out
}

/// The signature of a module that was evaluated, as tools see it. `shown` holds the texts of the
/// defaults, parameter by parameter, and `has_form` says of each value whether its own type gives it
/// a form.
pub fn evaluated_signature(
    store: &Store,
    params: &Vec<ModuleParam>,
    shown: &Vec<Option<String>>,
    has_form: &Vec<bool>,
) -> (r: Vec<SignatureParameter>)
    requires
        has_form@.len() == store.items@.len(),
        shown@.len() == params@.len(),
        forall|i: int|
            0 <= i < params@.len() ==> param_fits(
                #[trigger] params@[i],
                store.items@.len() as int,
            ),
    ensures
        r@.len() == params@.len(),
        forall|i: int|
            0 <= i < r@.len() ==> shows_parameter(
                #[trigger] r@[i],
                store.items@,
                has_form@,
                params@[i],
                opt_text(shown@[i]),
            ),
{
    let mut out: Vec<SignatureParameter> = Vec::new();
    let mut i: usize = 0;
    while i < params.len()
        invariant
            i <= params@.len(),
            has_form@.len() == store.items@.len(),
            shown@.len() == params@.len(),
            forall|k: int|
                0 <= k < params@.len() ==> param_fits(
                    #[trigger] params@[k],
                    store.items@.len() as int,
                ),
            out@.len() == i,
            forall|k: int|
                0 <= k < i ==> shows_parameter(
                    #[trigger] out@[k],
                    store.items@,
                    has_form@,
                    params@[k],
                    opt_text(shown@[k]),
                ),
        decreases params@.len() - i,
    {
        let p = &params[i];
        proof {
            assert(param_fits(params@[i as int], store.items@.len() as int));
        }
        let default_value = match p.default_value {
            Some(h) => form_of_parameter(store, has_form, h),
            None => None,
        };
        let allowed_values = match &p.allowed_values {
            Some(hs) => Some(forms_of_parameter(store, has_form, hs)),
            None => None,
        };
        let allowed_display = match &p.allowed_display {
            Some(v) => Some(clone_texts(v)),
            None => None,
        };
        out.push(
            SignatureParameter {
                name: p.name.clone(),
                type_value: p.type_value,
                required: !p.optional,
                default_value,
                default_display: clone_opt(&shown[i]),
                allowed_values,
                allowed_display,
                help: clone_opt(&p.help),
                direction: p.direction,
            },
        );
        i += 1;
    }
    out
}

// ---------------------------------------------------------------------------------------------
// Contexts

/// What a module is evaluated in.
pub struct EvalContext {
    pub session: EvalSession,
    pub config: EvalContextConfig,
    /// What is known of the built-in functions.
    pub builtin_docs: SortedMap<String, String>,
    /// The values that are given to the module.
    pub pending_inputs: SmallMap<String, usize>,
    pub pending_properties: SmallMap<String, usize>,
    /// The values that a document gives to the module.
    pub json_inputs: SmallMap<String, usize>,
    pub parent_component_modifiers: Vec<usize>,
    /// What the loads of the module reported.
    pub load_diagnostics: Vec<Diagnostic>,
}

/// Entries with those of another map put on top.
pub open spec fn with_all(s: Seq<(Seq<char>, usize)>, more: Seq<(Seq<char>, usize)>) -> Seq<
    (Seq<char>, usize),
>
    decreases more.len(),
{
    if more.len() == 0 {
        s
    } else {
        put(with_all(s, more.drop_last()), more.last().0, more.last().1)
    }
}

/// Puts the entries of one map on top of those of another.
fn put_all(m: &mut SmallMap<String, usize>, more: &SmallMap<String, usize>)
    ensures
        handles_in(*final(m)) == with_all(handles_in(*old(m)), handles_in(*more)),
{
    let ghost first = handles_in(*m);
    let ghost all = handles_in(*more);
    let n = count_handles(more);
    let mut i: usize = 0;
    proof {
        assert(all.take(0) =~= Seq::<(Seq<char>, usize)>::empty());
    }
    while i < n
        invariant
            i <= n,
            n == all.len(),
            all == handles_in(*more),
            handles_in(*m) == with_all(first, all.take(i as int)),
        decreases n - i,
    {
        proof {
            assert(all.take(i + 1).drop_last() =~= all.take(i as int));
            assert(all.take(i + 1).last() == all[i as int]);
        }
        if let Some((k, v)) = handle_at(more, i) {
            put_handle(m, k.to_owned(), v);
        }
        i += 1;
    }
    proof {
        assert(all.take(all.len() as int) =~= all);
    }
}

/// A value that is given last is the one that counts.
pub proof fn law_last_input_counts(
    s: Seq<(Seq<char>, usize)>,
    more: Seq<(Seq<char>, usize)>,
    k: Seq<char>,
)
    requires
        distinct(s),
        distinct(more),
    ensures
        distinct(with_all(s, more)),
        under(with_all(s, more), k) == (match under(more, k) {
            Some(v) => Some(v),
            None => under(s, k),
        }),
    decreases more.len(),
{
    if more.len() > 0 {
        let d = more.drop_last();
        let (q, v) = more.last();
        assert forall|i: int, j: int| 0 <= i < j < d.len() implies (#[trigger] d[i]).0
            != (#[trigger] d[j]).0 by {
            assert(more[i].0 != more[j].0);
        }
        law_last_input_counts(s, d, k);
        lemma_put(with_all(s, d), q, v);
        lemma_place(d, k);
        lemma_place(more, k);
        lemma_place(d, q);
        let p = place(more, k);
        if q == k {
            assert(more[more.len() - 1].0 == k);
            if p < more.len() - 1 {
                assert(more[p].0 != more[more.len() - 1].0);
            }
        } else if p < more.len() {
            assert(p < more.len() - 1);
            assert(d[p].0 == k);
            let e = place(d, k);
            if e != p {
                assert(more[e].0 == d[e].0);
                if e < p {
                    assert(d[e].0 != d[p].0);
                } else {
                    assert(d[p].0 != d[e].0);
                }
            }
        } else {
            let e = place(d, k);
            if e < d.len() {
                assert(more[e].0 == k);
            }
        }
    } else {
        lemma_place(more, k);
    }
}

/// Whether a session is ready for the analysis of a file.
pub open spec fn analysis_begun(before: EvalSession, after: EvalSession, path: Seq<char>) -> bool {
    &&& after.source_cache.entries@.len() == 0
    &&& after.load_cache.entries@.len() == 0
    &&& after.footprint_cache.entries@.len() == 0
    &&& after.symbol_cache.entries@.len() == 0
    &&& after.spice_cache.entries@.len() == 0
    &&& after.module_tree.entries@.len() == 0
    &&& after.symbol_index@ == before.symbol_index@.remove(components(path))
    &&& after.symbol_meta@ == before.symbol_meta@.remove(components(path))
    &&& after.module_deps == before.module_deps
}

/// Whether what was derived from a file whose path is canonical is forgotten.
pub open spec fn canonical_file_forgotten(
    before: EvalSession,
    after: EvalSession,
    resolution: &ResolutionResult,
    active: Option<Seq<char>>,
    path: Seq<char>,
    footprint: Seq<char>,
) -> bool {
    &&& after.source_cache.entries@ == without_file(
        before.source_cache.entries@,
        path,
        false,
    )
    &&& after.symbol_cache.entries@ == without_file(
        before.symbol_cache.entries@,
        path,
        true,
    )
    &&& after.spice_cache.entries@ == without_file(
        before.spice_cache.entries@,
        path,
        false,
    )
    &&& without_footprint(
        after.footprint_cache.entries@,
        before.footprint_cache.entries@,
        resolution,
        active,
        path,
        footprint,
    )
    &&& after.load_cache == before.load_cache
    &&& after.symbol_index == before.symbol_index
    &&& after.symbol_meta == before.symbol_meta
    &&& after.module_deps == before.module_deps
    &&& after.module_tree == before.module_tree
}

impl EvalContext {
    /// The invariant: the maps are in order, and no value is given twice under one name.
    pub open spec fn wf(&self) -> bool {
        self.session.wf() && self.builtin_docs.wf()
    }

    /// A context with a session and a configuration; nothing is given to the module yet.
    pub fn from_session_and_config(
        session: EvalSession,
        config: EvalContextConfig,
        builtin_docs: SortedMap<String, String>,
    ) -> (r: EvalContext)
        requires
            session.wf(),
            builtin_docs.wf(),
        ensures
            r.wf(),
            r.session == session,
            r.config == config,
            r.builtin_docs == builtin_docs,
            handles_in(r.pending_inputs).len() == 0,
            handles_in(r.pending_properties).len() == 0,
            handles_in(r.json_inputs).len() == 0,
            r.parent_component_modifiers@.len() == 0,
            r.load_diagnostics@.len() == 0,
    {
        EvalContext {
            session,
            config,
            builtin_docs,
            pending_inputs: new_handles(),
            pending_properties: new_handles(),
            json_inputs: new_handles(),
            parent_component_modifiers: Vec::new(),
            load_diagnostics: Vec::new(),
        }
    }

    /// A context with a session of its own.
    pub fn new(builtin_docs: SortedMap<String, String>) -> (r: EvalContext)
        requires
            builtin_docs.wf(),
        ensures
            r.wf(),
            r.config@ == root_config(),
            r.builtin_docs == builtin_docs,
            r.session.source_cache.entries@.len() == 0,
            r.session.load_cache.entries@.len() == 0,
            r.session.footprint_cache.entries@.len() == 0,
            r.session.symbol_cache.entries@.len() == 0,
            r.session.spice_cache.entries@.len() == 0,
            r.session.symbol_index.entries@.len() == 0,
            r.session.symbol_meta.entries@.len() == 0,
            r.session.module_deps@.len() == 0,
            r.session.module_tree.entries@.len() == 0,
            handles_in(r.pending_inputs).len() == 0,
            handles_in(r.pending_properties).len() == 0,
            handles_in(r.json_inputs).len() == 0,
            r.parent_component_modifiers@.len() == 0,
            r.load_diagnostics@.len() == 0,
    {
        EvalContext::from_session_and_config(
            EvalSession::new(),
            EvalContextConfig::new(),
            builtin_docs,
        )
    }

    pub fn config(&self) -> (r: &EvalContextConfig)
        ensures
            *r == self.config,
    {
        &self.config
    }

    pub fn get_config(&self) -> (r: &EvalContextConfig)
        ensures
            *r == self.config,
    {
        &self.config
    }

    pub fn session(&self) -> (r: &EvalSession)
        ensures
            *r == self.session,
    {
        &self.session
    }

    /// The file of the module.
    pub fn source_path(&self) -> (r: Option<&str>)
        ensures
            opt_str(r) == self.config@.source_path,
    {
        as_opt_str(&self.config.source_path)
    }

    /// The file of the module.
    pub fn get_source_path(&self) -> (r: Option<&str>)
        ensures
            opt_str(r) == self.config@.source_path,
    {
        self.source_path()
    }

    /// The names on the way from the root to the module.
    pub fn path_in_tree(&self) -> (r: &InstancePath)
        ensures
            r@ == self.config@.tree_path,
    {
        &self.config.tree_path
    }

    pub fn strict_io_config(&self) -> (r: bool)
        ensures
            r == self.config@.strict_io_config,
    {
        self.config.strict_io_config
    }

    /// The configuration for a module that the module loads, before its file is set.
    pub fn child_config_for_load(&self, child_path: InstancePath) -> (r: EvalContextConfig)
        ensures
            r@ == loaded_by(self.config@, child_path@),
    {
        self.config.child_for_load(child_path)
    }

    pub fn is_eager(&self) -> (r: bool)
        ensures
            r == self.config@.eager,
    {
        self.config.eager
    }

    pub fn set_strict_io_config(self, enabled: bool) -> (r: EvalContext)
        ensures
            r.config@ == (ConfigView { strict_io_config: enabled, ..self.config@ }),
            (EvalContext { config: self.config, ..r }) == self,
    {
        let config = self.config.set_strict_io_config(enabled);
        EvalContext { config, ..self }
    }

    pub fn set_eager(self, eager: bool) -> (r: EvalContext)
        ensures
            r.config@ == (ConfigView { eager, ..self.config@ }),
            (EvalContext { config: self.config, ..r }) == self,
    {
        let config = self.config.set_eager(eager);
        EvalContext { config, ..self }
    }

    pub fn set_inject_prelude(self, inject: bool) -> (r: EvalContext)
        ensures
            r.config@ == (ConfigView { inject_prelude: inject, ..self.config@ }),
            (EvalContext { config: self.config, ..r }) == self,
    {
        let config = self.config.set_inject_prelude(inject);
        EvalContext { config, ..self }
    }

    pub fn set_source_contents(self, contents: String) -> (r: EvalContext)
        ensures
            r.config@ == (ConfigView { contents: Some(contents@), ..self.config@ }),
            (EvalContext { config: self.config, ..r }) == self,
    {
        let config = self.config.set_source_contents(contents);
        EvalContext { config, ..self }
    }

    pub fn set_source_path<F: FileProvider>(
        self,
        file_provider: &F,
        resolution: &ResolutionResult,
        path: String,
    ) -> (r: EvalContext)
        requires
            resolution.wf(),
        ensures
            exists|canonical: Seq<char>|
                #[trigger] made_canonical(file_provider, path@, canonical) && placed(
                    self.config@,
                    resolution,
                    path@,
                    canonical,
                ) == r.config@,
            (EvalContext { config: self.config, ..r }) == self,
    {
        let config = self.config.set_source_path(file_provider, resolution, path);
        EvalContext { config, ..self }
    }

    /// Gives values to the module.
    pub fn set_inputs_from_frozen_values(&mut self, parent_inputs: &SmallMap<String, usize>)
        ensures
            handles_in(final(self).pending_inputs) == with_all(
                handles_in(old(self).pending_inputs),
                handles_in(*parent_inputs),
            ),
            (EvalContext { pending_inputs: old(self).pending_inputs, ..*final(self) }) == *old(self),
    {
        put_all(&mut self.pending_inputs, parent_inputs);
    }

    /// Gives properties to the module.
    pub fn set_properties_from_frozen_values(&mut self, parent_properties: &SmallMap<String, usize>)
        ensures
            handles_in(final(self).pending_properties) == with_all(
                handles_in(old(self).pending_properties),
                handles_in(*parent_properties),
            ),
            (EvalContext { pending_properties: old(self).pending_properties, ..*final(self) })
                == *old(self),
    {
        put_all(&mut self.pending_properties, parent_properties);
    }

    /// Sets the modifiers of the modules around the module.
    pub fn set_parent_component_modifiers_from_frozen_values(&mut self, parent_modifiers: Vec<usize>)
        ensures
            *final(self) == (EvalContext {
                parent_component_modifiers: parent_modifiers,
                ..*old(self)
            }),
    {
        self.parent_component_modifiers = parent_modifiers;
    }

    /// Adds to what the loads reported.
    pub fn add_load_diagnostic(&mut self, diagnostic: Diagnostic)
        ensures
            final(self).load_diagnostics@ == old(self).load_diagnostics@.push(diagnostic),
            (EvalContext { load_diagnostics: old(self).load_diagnostics, ..*final(self) })
                == *old(self),
    {
        self.load_diagnostics.push(diagnostic);
    }

    /// Takes what the loads reported.
    pub fn take_load_diagnostics(&mut self) -> (r: Vec<Diagnostic>)
        ensures
            r@ == old(self).load_diagnostics@,
            final(self).load_diagnostics@.len() == 0,
            (EvalContext { load_diagnostics: old(self).load_diagnostics, ..*final(self) })
                == *old(self),
    {
        let mut out: Vec<Diagnostic> = Vec::new();
        std::mem::swap(&mut out, &mut self.load_diagnostics);
        out
    }

    /// The key of a module that is loaded: the file, as its package sees it.
    pub fn load_cache_key(&self, resolution: &ResolutionResult, path: &str) -> (r: CacheKey)
        requires
            resolution.wf(),
        ensures
            is_key_of(r, resolution, self.config@.active_root_package, path@),
    {
        let scope = resolution.load_cache_scope_key_for_file(
            path,
            as_opt_str(&self.config.active_root_package),
        );
        CacheKey { scope, path: path.to_owned(), detail: None }
    }

    /// What was loaded from a file before.
    pub fn get_cached_module(&self, resolution: &ResolutionResult, path: &str) -> (r: Option<usize>)
        requires
            resolution.wf(),
        ensures
            forall|k: CacheKey| #[trigger]
                is_key_of(k, resolution, self.config@.active_root_package, path@) ==> r == kept(
                    self.session.load_cache.entries@,
                    k,
                ),
    {
        let key = self.load_cache_key(resolution, path);
        proof {
            assert forall|k: CacheKey| #[trigger]
                is_key_of(k, resolution, self.config@.active_root_package, path@) implies kept(
                self.session.load_cache.entries@,
                key,
            ) == kept(self.session.load_cache.entries@, k) by {
                lemma_keys_agree(key, k, resolution, self.config@.active_root_package, path@);
                lemma_kept_agrees(self.session.load_cache.entries@, key, k);
            }
        }
        self.session.load_cache.get(&key)
    }

    /// Keeps what was loaded from a file.
    pub fn cache_module(&mut self, resolution: &ResolutionResult, path: &str, module: usize)
        requires
            resolution.wf(),
        ensures
            exists|k: CacheKey| #[trigger]
                is_key_of(k, resolution, old(self).config@.active_root_package, path@) && final(self).session.load_cache.entries@ == without_key(
                    old(self).session.load_cache.entries@,
                    k,
                ).push((k, module)),
            final(self).session.source_cache == old(self).session.source_cache,
            final(self).session.footprint_cache == old(self).session.footprint_cache,
            final(self).session.symbol_cache == old(self).session.symbol_cache,
            final(self).session.spice_cache == old(self).session.spice_cache,
            final(self).session.symbol_index == old(self).session.symbol_index,
            final(self).session.symbol_meta == old(self).session.symbol_meta,
            final(self).session.module_deps == old(self).session.module_deps,
            final(self).session.module_tree == old(self).session.module_tree,
            (EvalContext { session: old(self).session, ..*final(self) }) == *old(self),
    {
        let key = self.load_cache_key(resolution, path);
        let ghost k = key;
        self.session.load_cache.insert(key, module);
        proof {
            assert(is_key_of(k, resolution, old(self).config@.active_root_package, path@));
        }
    }

    /// The key of a footprint, whose path is canonical.
    pub fn footprint_cache_key(&self, resolution: &ResolutionResult, canonical: &str) -> (r: CacheKey)
        requires
            resolution.wf(),
        ensures
            is_key_of(r, resolution, self.config@.active_root_package, canonical@),
    {
        self.load_cache_key(resolution, canonical)
    }

    /// Forgets what was derived from a file whose path is canonical. `footprint` is the canonical path
    /// that a footprint in the file is kept under.
    pub fn invalidate_canonical_file(
        &mut self,
        resolution: &ResolutionResult,
        path: &str,
        footprint: &str,
    )
        requires
            old(self).wf(),
            resolution.wf(),
        ensures
            final(self).wf(),
            (EvalContext { session: old(self).session, ..*final(self) }) == *old(self),
            canonical_file_forgotten(
                old(self).session,
                final(self).session,
                resolution,
                old(self).config@.active_root_package,
                path@,
                footprint@,
            ),
    {
        let is_footprint = match extension(path) {
            Some(e) => same(e.as_str(), "kicad_mod"),
            None => false,
        };
        let key = if is_footprint {
            Some(self.footprint_cache_key(resolution, footprint))
        } else {
            None
        };
        proof {
            if key is Some {
                assert(is_key_of(
                    key->Some_0,
                    resolution,
                    old(self).config@.active_root_package,
                    footprint@,
                ));
            }
        }
        self.session.invalidate_file(path, key);
    }

    /// Forgets what was derived from a file. A path that cannot be made canonical is taken as it
    /// stands.
    pub fn invalidate_file<F: FileProvider>(
        &mut self,
        file_provider: &F,
        resolution: &ResolutionResult,
        path: &str,
    )
        requires
            old(self).wf(),
            resolution.wf(),
        ensures
            final(self).wf(),
            exists|p: Seq<char>, footprint: Seq<char>|
                #![trigger made_canonical(file_provider, path@, p), made_canonical(file_provider, p, footprint)]
                {
                    &&& made_canonical(file_provider, path@, p)
                    &&& made_canonical(file_provider, p, footprint)
                    &&& final(self).session.source_cache.entries@ == without_file(
                        old(self).session.source_cache.entries@,
                        p,
                        false,
                    )
                    &&& final(self).session.symbol_cache.entries@ == without_file(
                        old(self).session.symbol_cache.entries@,
                        p,
                        true,
                    )
                    &&& final(self).session.spice_cache.entries@ == without_file(
                        old(self).session.spice_cache.entries@,
                        p,
                        false,
                    )
                    &&& without_footprint(
                        final(self).session.footprint_cache.entries@,
                        old(self).session.footprint_cache.entries@,
                        resolution,
                        old(self).config@.active_root_package,
                        p,
                        footprint,
                    )
                },
            final(self).session.load_cache == old(self).session.load_cache,
            final(self).session.symbol_index == old(self).session.symbol_index,
            final(self).session.symbol_meta == old(self).session.symbol_meta,
            final(self).session.module_deps == old(self).session.module_deps,
            final(self).session.module_tree == old(self).session.module_tree,
            (EvalContext { session: old(self).session, ..*final(self) }) == *old(self),
    {
        let canonical = canonical_or_same(file_provider, path);
        let footprint = canonical_or_same(file_provider, canonical.as_str());
        self.invalidate_canonical_file(resolution, canonical.as_str(), footprint.as_str());
    }

    // -----------------------------------------------------------------------------------------
    // Names

    /// The text on a built-in function.
    pub fn get_builtin_docs(&self, symbol: &str) -> (r: Option<&str>)
        ensures
            opt_str(r) == opt_text(find(self.builtin_docs.entries@, symbol@)),
    {
        let key = symbol.to_owned();
        match self.builtin_docs.get(&key) {
            Some(s) => Some(s.as_str()),
            None => None,
        }
    }

    /// What is known of a name of a file; a name that the file does not define may be a built-in
    /// function.
    pub fn get_symbol_info(&self, current_file: &str, symbol: &str) -> (r: Option<SymbolInfo>)
        ensures
            (match r {
                Some(i) => Some(i@),
                None => None,
            }) == known_symbol(
                info_of(self.session.symbol_meta.entries@, current_file@, symbol@),
                opt_text(find(self.builtin_docs.entries@, symbol@)),
            ),
    {
        if let Some(info) = self.session.get_symbol_info(current_file, symbol) {
            return Some(copy_info(info));
        }
        match self.get_builtin_docs(symbol) {
            Some(doc) => Some(
                SymbolInfo {
                    kind: SymbolKind::Function,
                    parameters: None,
                    source_path: None,
                    type_label: "function".to_owned(),
                    documentation: Some(doc.to_owned()),
                },
            ),
            None => None,
        }
    }

    /// What is known of a name of a file.
    pub fn get_hover_for_value(&self, current_file: &str, symbol: &str) -> (r: Option<SymbolInfo>)
        ensures
            (match r {
                Some(i) => Some(i@),
                None => None,
            }) == known_symbol(
                info_of(self.session.symbol_meta.entries@, current_file@, symbol@),
                opt_text(find(self.builtin_docs.entries@, symbol@)),
            ),
    {
        self.get_symbol_info(current_file, symbol)
    }

    /// The parameters of a name of a file, where it has any.
    pub fn get_params_for_global_symbol(&self, current_file: &str, symbol: &str) -> (r: Option<
        Vec<String>,
    >)
        ensures
            opt_texts(r) == (match info_of(
                self.session.symbol_meta.entries@,
                current_file@,
                symbol@,
            ) {
                Some(i) => match i.parameters {
                    Some(p) => if p.len() > 0 {
                        Some(p)
                    } else {
                        None
                    },
                    None => None,
                },
                None => None,
            }),
    {
        self.session.get_symbol_params(current_file, symbol)
    }

    /// Where a name of a file is defined.
    pub fn get_url_for_global_symbol(&self, current_file: &str, symbol: &str) -> (r: Option<&str>)
        ensures
            opt_str(r) == place_of(self.session.symbol_index.entries@, current_file@, symbol@),
    {
        self.session.get_url_for_global_symbol(current_file, symbol)
    }

    /// Whether one file is known to refer to another.
    pub fn module_dep_exists(&self, from: &str, to: &str) -> (r: bool)
        ensures
            r == refers(self.session.module_deps@, from@, to@),
    {
        self.session.module_dep_exists(from, to)
    }

    /// Makes ready for the analysis of a file: what was loaded, the tree, and what is known of the
    /// names of the file are forgotten.
    pub fn begin_analysis(&mut self, path: &str)
        requires
            old(self).wf(),
        ensures
            final(self).wf(),
            (EvalContext { session: old(self).session, ..*final(self) }) == *old(self),
            analysis_begun(old(self).session, final(self).session, path@),
    {
        self.session.clear_load_cache();
        self.session.prepare_for_root_eval();
        self.session.clear_symbol_maps(path);
    }

    /// Takes note of the names of a file that was evaluated: where they lead, what is known of them,
    /// and which files it refers to. `prelude_files` holds the files of the prelude's modules.
    pub fn finish_analysis(
        &mut self,
        path: &str,
        names: &Vec<DefinedName>,
        prelude_files: &Vec<Option<String>>,
    )
        requires
            old(self).wf(),
            prelude_files@.len() == prelude_modules().len(),
        ensures
            final(self).wf(),
            analysis_of(
                names@,
                prelude_files@,
                old(self).config@.inject_prelude,
                old(self).session.symbol_index@,
                old(self).session.symbol_meta@,
                final(self).session.symbol_index@,
                final(self).session.symbol_meta@,
                components(path@),
            ),
            forall|to: Seq<char>| #[trigger]
                refers(final(self).session.module_deps@, path@, to) == loads_file(names@, to),
            forall|from: Seq<char>, to: Seq<char>|
                !same_path(from, path@) ==> #[trigger] refers(
                    final(self).session.module_deps@,
                    from,
                    to,
                ) == refers(old(self).session.module_deps@, from, to),
            final(self).session.source_cache == old(self).session.source_cache,
            final(self).session.load_cache == old(self).session.load_cache,
            final(self).session.footprint_cache == old(self).session.footprint_cache,
            final(self).session.symbol_cache == old(self).session.symbol_cache,
            final(self).session.spice_cache == old(self).session.spice_cache,
            final(self).session.module_tree == old(self).session.module_tree,
            (EvalContext { session: old(self).session, ..*final(self) }) == *old(self),
    {
        self.session.clear_module_dependencies(path);
        let ghost before = old(self).session.module_deps@;
        let ghost other = self.session;
        let mut i: usize = 0;
        proof {
            assert forall|to: Seq<char>| #[trigger]
                refers(self.session.module_deps@, path@, to) == loads_file(names@.take(0), to) by {
                law_forgotten_references(before, path@, path@, to);
            }
            assert forall|from: Seq<char>, to: Seq<char>|
                !same_path(from, path@) implies #[trigger] refers(
                self.session.module_deps@,
                from,
                to,
            ) == refers(before, from, to) by {
                law_forgotten_references(before, path@, from, to);
            }
        }
        while i < names.len()
            invariant
                i <= names@.len(),
                self.session.wf(),
                before == old(self).session.module_deps@,
                forall|to: Seq<char>| #[trigger]
                    refers(self.session.module_deps@, path@, to) == loads_file(
                        names@.take(i as int),
                        to,
                    ),
                forall|from: Seq<char>, to: Seq<char>|
                    !same_path(from, path@) ==> #[trigger] refers(
                        self.session.module_deps@,
                        from,
                        to,
                    ) == refers(before, from, to),
                (EvalSession { module_deps: other.module_deps, ..self.session }) == other,
                (EvalContext { session: old(self).session, ..*self }) == *old(self),
            decreases names@.len() - i,
        {
            let ghost deps = self.session.module_deps@;
            if let Some((target, _)) = &names[i].loader {
                self.session.record_module_dependency(path, target.as_str());
                proof {
                    lemma_noted(deps, self.session.module_deps@, path@, target@);
                }
            }
            proof {
                let now = self.session.module_deps@;
                assert forall|to: Seq<char>| #[trigger] refers(now, path@, to) == loads_file(
                    names@.take(i + 1),
                    to,
                ) by {
                    lemma_loads_one_more(names@, i as int, to);
                    assert(refers(deps, path@, to) == loads_file(names@.take(i as int), to));
                }
                assert forall|from: Seq<char>, to: Seq<char>|
                    !same_path(from, path@) implies #[trigger] refers(now, from, to) == refers(
                    before,
                    from,
                    to,
                ) by {
                    assert(refers(deps, from, to) == refers(before, from, to));
                }
            }
            i += 1;
        }
        proof {
            assert(names@.take(names@.len() as int) =~= names@);
        }
        let (mut index, meta) = analyze_names(names);
        if self.config.inject_prelude {
            add_prelude_names(&mut index, prelude_files);
        }
        let ghost (known_index, known_meta) = (index, meta);
        self.session.update_symbol_maps(path, index, meta);
        proof {
            let file = components(path@);
            let before = old(self).session;
            assert(self.session.symbol_index@ == kept_index(before.symbol_index@, file, known_index));
            assert(self.session.symbol_meta@ == kept_meta(before.symbol_meta@, file, known_meta));
        }
    }
}

/// What is known of a name: what its file says, or what it is as a built-in function.
pub open spec fn known_symbol(own: Option<SymbolInfoView>, doc: Option<Seq<char>>) -> Option<
    SymbolInfoView,
> {
    match (own, doc) {
        (Some(i), _) => Some(i),
        (None, Some(d)) => Some(
            SymbolInfoView {
                kind: SymbolKind::Function,
                parameters: None,
                source_path: None,
                type_label: "function"@,
                documentation: Some(d),
            },
        ),
        (None, None) => None,
    }
}

fn copy_info(info: &SymbolInfo) -> (r: SymbolInfo)
    ensures
        r@ == info@,
{
    SymbolInfo {
        kind: info.kind,
        parameters: match &info.parameters {
            Some(p) => Some(clone_texts(p)),
            None => None,
        },
        source_path: clone_opt(&info.source_path),
        type_label: info.type_label.clone(),
        documentation: clone_opt(&info.documentation),
    }
}

/// Whether a name of a module loads a file.
pub open spec fn loads_file(names: Seq<DefinedName>, to: Seq<char>) -> bool {
    exists|i: int|
        0 <= i < names.len() && (#[trigger] names[i]).loader is Some && same_path(
            names[i].loader->Some_0.0@,
            to,
        )
}

proof fn lemma_loads_one_more(names: Seq<DefinedName>, i: int, to: Seq<char>)
    requires
        0 <= i < names.len(),
    ensures
        loads_file(names.take(i + 1), to) == (loads_file(names.take(i), to) || (
        names[i].loader is Some && same_path(names[i].loader->Some_0.0@, to))),
{
    let a = names.take(i);
    let b = names.take(i + 1);
    if loads_file(b, to) {
        let k = choose|k: int|
            0 <= k < b.len() && (#[trigger] b[k]).loader is Some && same_path(
                b[k].loader->Some_0.0@,
                to,
            );
        if k < i {
            assert(a[k] == b[k]);
        }
    }
    if loads_file(a, to) {
        let k = choose|k: int|
            0 <= k < a.len() && (#[trigger] a[k]).loader is Some && same_path(
                a[k].loader->Some_0.0@,
                to,
            );
        assert(b[k] == a[k]);
    }
    assert(b[i] == names[i]);
}

/// A reference that was noted is known, and no other is that was not.
proof fn lemma_noted(
    before: Seq<(String, String)>,
    after: Seq<(String, String)>,
    from: Seq<char>,
    to: Seq<char>,
)
    requires
        refers(after, from, to),
        refers(before, from, to) ==> after == before,
        !refers(before, from, to) ==> after.len() == before.len() + 1 && after.drop_last() == before
            && after.last().0@ == from && after.last().1@ == to,
    ensures
        forall|f: Seq<char>, t: Seq<char>| #[trigger]
            refers(after, f, t) == (refers(before, f, t) || (same_path(from, f) && same_path(to, t))),
{
    assert forall|f: Seq<char>, t: Seq<char>| #[trigger] refers(after, f, t) == (refers(before, f, t)
        || (same_path(from, f) && same_path(to, t))) by {
        if refers(before, from, to) {
            let k = choose|k: int|
                0 <= k < before.len() && same_path((#[trigger] before[k]).0@, from) && same_path(
                    before[k].1@,
                    to,
                );
            if same_path(from, f) && same_path(to, t) {
                assert(same_path(before[k].0@, f) && same_path(before[k].1@, t));
            }
        } else {
            let n = after.len() - 1;
            if refers(after, f, t) {
                let k = choose|k: int|
                    0 <= k < after.len() && same_path((#[trigger] after[k]).0@, f) && same_path(
                        after[k].1@,
                        t,
                    );
                if k < n {
                    assert(before[k] == after[k]);
                }
            }
            if refers(before, f, t) {
                let k = choose|k: int|
                    0 <= k < before.len() && same_path((#[trigger] before[k]).0@, f) && same_path(
                        before[k].1@,
                        t,
                    );
                assert(after[k] == before[k]);
            }
            if same_path(from, f) && same_path(to, t) {
                assert(same_path(after[n].0@, f) && same_path(after[n].1@, t));
            }
        }
    }
}

/// What an analysis leaves in the maps: the names of the file, where it has any, and all that was known
/// of other files.
pub open spec fn analysis_of(
    names: Seq<DefinedName>,
    prelude_files: Seq<Option<String>>,
    inject_prelude: bool,
    index_before: Map<Seq<Seq<char>>, SortedMap<String, String>>,
    meta_before: Map<Seq<Seq<char>>, SortedMap<String, SymbolInfo>>,
    index_after: Map<Seq<Seq<char>>, SortedMap<String, String>>,
    meta_after: Map<Seq<Seq<char>>, SortedMap<String, SymbolInfo>>,
    file: Seq<Seq<char>>,
) -> bool {
    exists|index: SortedMap<String, String>, meta: SortedMap<String, SymbolInfo>|
        {
            &&& viewed(index@) == (if inject_prelude {
                with_prelude(analyzed(names).0, prelude_files, prelude_modules())
            } else {
                analyzed(names).0
            })
            &&& viewed(meta@) == analyzed(names).1
            &&& index_after == #[trigger] kept_index(index_before, file, index)
            &&& meta_after == #[trigger] kept_meta(meta_before, file, meta)
        }
}

/// The index with that of one file, where it holds anything.
pub open spec fn kept_index(
    m: Map<Seq<Seq<char>>, SortedMap<String, String>>,
    file: Seq<Seq<char>>,
    index: SortedMap<String, String>,
) -> Map<Seq<Seq<char>>, SortedMap<String, String>> {
    if index.entries@.len() == 0 {
        m
    } else {
        m.insert(file, index)
    }
}

/// What is known with what is known of one file, where that is anything.
pub open spec fn kept_meta(
    m: Map<Seq<Seq<char>>, SortedMap<String, SymbolInfo>>,
    file: Seq<Seq<char>>,
    meta: SortedMap<String, SymbolInfo>,
) -> Map<Seq<Seq<char>>, SortedMap<String, SymbolInfo>> {
    if meta.entries@.len() == 0 {
        m
    } else {
        m.insert(file, meta)
    }
}

proof fn lemma_keys_agree(
    a: CacheKey,
    b: CacheKey,
    resolution: &ResolutionResult,
    active: Option<Seq<char>>,
    path: Seq<char>,
)
    requires
        is_key_of(a, resolution, active, path),
        is_key_of(b, resolution, active, path),
    ensures
        same_key(a, b),
{
    if a.scope is Some {
        let (x, y) = (a.scope->Some_0.deps@, b.scope->Some_0.deps@);
        let (tx, ty) = (text_entries(x), text_entries(y));
        assert(tx == ty);
        assert(tx.len() == x.len());
        assert(ty.len() == y.len());
        assert forall|i: int| 0 <= i < x.len() implies (#[trigger] x[i]).0@ == y[i].0@ && same_path(
            x[i].1@,
            y[i].1@,
        ) by {
            assert(tx[i] == ty[i]);
        }
    }
}

/// What was kept for a file is found again by every context with the same root package, and what was
/// forgotten is found by none.
pub proof fn law_loaded_module_is_found(
    s: Seq<(CacheKey, usize)>,
    a: CacheKey,
    b: CacheKey,
    resolution: &ResolutionResult,
    active: Option<Seq<char>>,
    path: Seq<char>,
    module: usize,
)
    requires
        is_key_of(a, resolution, active, path),
        is_key_of(b, resolution, active, path),
    ensures
        kept(without_key(s, a).push((a, module)), b) == Some(module),
        kept(without_key(s, a), b) is None,
{
    lemma_keys_agree(a, b, resolution, active, path);
    law_cache(s, a, module, a);
    lemma_kept_agrees(without_key(s, a).push((a, module)), a, b);
    lemma_kept_agrees(without_key(s, a), a, b);
}

/// Whether values of the store are what given values become, each under its name.
pub open spec fn all_become(
    inputs: Seq<(String, Json)>,
    items: Seq<Item>,
    handles: Seq<(Seq<char>, usize)>,
) -> bool {
    handles.len() == inputs.len() && forall|i: int|
        0 <= i < inputs.len() ==> (#[trigger] handles[i]).0 == inputs[i].0@ && handles[i].1
            < items.len() && becomes(inputs[i].1, items, handles[i].1)
}

/// What the code of a module is taken from.
pub enum SourcePlan {
    /// There is no file.
    Fail(EvalError),
    /// The text that is given.
    Given,
    /// What was read before.
    Cached(usize),
    /// The file.
    Read,
}

/// The key of the source of a file.
pub open spec fn is_source_key(k: CacheKey, path: Seq<char>) -> bool {
    k.path@ == path && k.scope is None && k.detail is None
}

/// What is kept of the source of a file.
pub open spec fn source_kept(s: Seq<(CacheKey, usize)>, path: Seq<char>) -> Option<usize> {
    kept(s, choose|k: CacheKey| is_source_key(k, path))
}

impl EvalContext {
    /// Gives values of a document to the module; they count before values of the module around it.
    pub fn set_json_inputs(&mut self, store: &mut Store, inputs: &Vec<(String, Json)>)
        requires
            old(store).wf(),
            forall|i: int| 0 <= i < inputs@.len() ==> is_plain((#[trigger] inputs@[i]).1),
        ensures
            final(store).wf(),
            extends(final(store).items@, old(store).items@),
            final(store).next_net_id == old(store).next_net_id,
            exists|handles: Seq<(Seq<char>, usize)>| #[trigger]
                all_become(inputs@, final(store).items@, handles) && handles_in(
                    final(self).json_inputs,
                ) == with_all(handles_in(old(self).json_inputs), handles),
            (EvalContext { json_inputs: old(self).json_inputs, ..*final(self) }) == *old(self),
    {
        let ghost first = handles_in(self.json_inputs);
        let ghost items = store.items@;
        let ghost id = store.next_net_id;
        let ghost mut handles = Seq::<(Seq<char>, usize)>::empty();
        let mut i: usize = 0;
        proof {
            assert(items.take(items.len() as int) =~= items);
            assert(all_become(inputs@.take(0), store.items@, handles));
        }
        while i < inputs.len()
            invariant
                i <= inputs@.len(),
                forall|k: int| 0 <= k < inputs@.len() ==> is_plain((#[trigger] inputs@[k]).1),
                store.wf(),
                store.next_net_id == id,
                extends(store.items@, items),
                all_become(inputs@.take(i as int), store.items@, handles),
                handles_in(self.json_inputs) == with_all(first, handles),
                (EvalContext { json_inputs: old(self).json_inputs, ..*self }) == *old(self),
            decreases inputs@.len() - i,
        {
            let ghost before = store.items@;
            let ghost earlier = handles;
            let h = json_value_to_heap_value(store, &inputs[i].1);
            put_handle(&mut self.json_inputs, inputs[i].0.clone(), h);
            proof {
                handles = earlier.push((inputs@[i as int].0@, h));
                assert(handles.drop_last() =~= earlier);
                lemma_extends_transitive(store.items@, before, items);
                let so_far = inputs@.take(i + 1);
                assert forall|k: int| 0 <= k < so_far.len() implies (#[trigger] handles[k]).0
                    == so_far[k].0@ && handles[k].1 < store.items@.len() && becomes(
                    so_far[k].1,
                    store.items@,
                    handles[k].1,
                ) by {
                    if k < i {
                        assert(earlier[k] == handles[k]);
                        assert(inputs@.take(i as int)[k] == inputs@[k]);
                        lemma_becomes_later(inputs@[k].1, before, store.items@, handles[k].1);
                    }
                }
            }
            i += 1;
        }
        proof {
            assert(inputs@.take(inputs@.len() as int) =~= inputs@);
        }
    }

    /// All values that are given to the module.
    pub fn module_inputs(&self) -> (r: SmallMap<String, usize>)
        requires
            distinct(handles_in(self.pending_inputs)),
        ensures
            handles_in(r) == with_all(
                handles_in(self.pending_inputs),
                handles_in(self.json_inputs),
            ),
    {
        let mut out = copy_handles(&self.pending_inputs);
        put_all(&mut out, &self.json_inputs);
        out
    }

    /// Decides what the code of the module is taken from: a text that is given is not kept, a file is
    /// read once.
    pub fn plan_source(&self) -> (r: SourcePlan)
        ensures
            match (r, self.config@.source_path) {
                (SourcePlan::Fail(e), None) => e.message@
                    == "source_path not set on Context before eval()"@,
                (SourcePlan::Given, Some(_)) => self.config@.contents is Some,
                (SourcePlan::Cached(h), Some(path)) => self.config@.contents is None && source_kept(
                    self.session.source_cache.entries@,
                    path,
                ) == Some(h),
                (SourcePlan::Read, Some(path)) => self.config@.contents is None && source_kept(
                    self.session.source_cache.entries@,
                    path,
                ) is None,
                _ => false,
            },
    {
        let path = match &self.config.source_path {
            Some(p) => p,
            None => return SourcePlan::Fail(
                EvalError { message: "source_path not set on Context before eval()".to_owned() },
            ),
        };
        if self.config.contents.is_some() {
            return SourcePlan::Given;
        }
        let key = CacheKey { scope: None, path: path.clone(), detail: None };
        let found = self.session.source_cache.get(&key);
        proof {
            assert(is_source_key(key, path@));
            let chosen = choose|k: CacheKey| is_source_key(k, path@);
            lemma_kept_agrees(self.session.source_cache.entries@, chosen, key);
        }
        match found {
            Some(h) => SourcePlan::Cached(h),
            None => SourcePlan::Read,
        }
    }

    /// Keeps what was read of the module's file, so that it is not read again.
    pub fn keep_source(&mut self, source: usize)
        ensures
            match old(self).config@.source_path {
                None => *final(self) == *old(self),
                Some(path) => exists|k: CacheKey| #[trigger]
                    is_source_key(k, path) && final(self).session.source_cache.entries@
                        == without_key(old(self).session.source_cache.entries@, k).push(
                        (k, source),
                    ),
            },
            old(self).config@.source_path matches Some(path) ==> source_kept(
                final(self).session.source_cache.entries@,
                path,
            ) == Some(source),
            final(self).session.load_cache == old(self).session.load_cache,
            final(self).session.footprint_cache == old(self).session.footprint_cache,
            final(self).session.symbol_cache == old(self).session.symbol_cache,
            final(self).session.spice_cache == old(self).session.spice_cache,
            final(self).session.symbol_index == old(self).session.symbol_index,
            final(self).session.symbol_meta == old(self).session.symbol_meta,
            final(self).session.module_deps == old(self).session.module_deps,
            final(self).session.module_tree == old(self).session.module_tree,
            (EvalContext { session: old(self).session, ..*final(self) }) == *old(self),
    {
        let path = match &self.config.source_path {
            Some(p) => p.clone(),
            None => return ,
        };
        let key = CacheKey { scope: None, path, detail: None };
        let ghost k = key;
        let ghost before = self.session.source_cache.entries@;
        self.session.source_cache.insert(key, source);
        proof {
            assert(is_source_key(k, path@));
            law_cache(before, k, source, k);
            let chosen = choose|c: CacheKey| is_source_key(c, path@);
            lemma_kept_agrees(self.session.source_cache.entries@, chosen, k);
        }
    }
}

// ---------------------------------------------------------------------------------------------
// Outputs

/// What a module of the tree holds beside its parts.
pub struct ModuleChecks {
    pub testbenches: Vec<usize>,
    pub electrical_checks: Vec<usize>,
}

/// What came out of an evaluation.
pub struct EvalOutput {
    pub config: EvalContextConfig,
    /// What the module printed.
    pub print_output: Vec<String>,
    /// The modules of the tree, in their order.
    pub modules: Vec<ModuleChecks>,
}

/// The test benches of some modules.
pub open spec fn testbenches_of(v: Seq<ModuleChecks>) -> Seq<usize>
    decreases v.len(),
{
    if v.len() == 0 {
        Seq::<usize>::empty()
    } else {
        testbenches_of(v.drop_last()) + v.last().testbenches@
    }
}

/// The electrical checks of some modules, each with its module.
pub open spec fn checks_of(v: Seq<ModuleChecks>) -> Seq<(usize, int)>
    decreases v.len(),
{
    if v.len() == 0 {
        Seq::<(usize, int)>::empty()
    } else {
        let own = v.last().electrical_checks@;
        checks_of(v.drop_last()) + Seq::new(own.len(), |i: int| (own[i], v.len() - 1))
    }
}

/// Checks with their modules, as mathematics.
pub open spec fn check_views(v: Seq<(usize, usize)>) -> Seq<(usize, int)> {
    Seq::new(v.len(), |i: int| (v[i].0, v[i].1 as int))
}

impl EvalOutput {
    /// All test benches of the tree.
    pub fn collect_testbenches(&self) -> (r: Vec<usize>)
        ensures
            r@ == testbenches_of(self.modules@),
    {
        let ghost all = self.modules@;
        let mut out: Vec<usize> = Vec::new();
        let mut i: usize = 0;
        proof {
            assert(all.take(0) =~= Seq::<ModuleChecks>::empty());
        }
        while i < self.modules.len()
            invariant
                i <= self.modules@.len(),
                all == self.modules@,
                out@ == testbenches_of(all.take(i as int)),
            decreases self.modules@.len() - i,
        {
            proof {
                assert(all.take(i + 1).drop_last() =~= all.take(i as int));
                assert(all.take(i + 1).last() == all[i as int]);
            }
            let ghost first = out@;
            let own = &self.modules[i].testbenches;
            let mut k: usize = 0;
            proof {
                assert(first + own@.take(0) =~= first);
            }
            while k < own.len()
                invariant
                    k <= own@.len(),
                    out@ == first + own@.take(k as int),
                decreases own@.len() - k,
            {
                out.push(own[k]);
                proof {
                    assert(first + own@.take(k + 1) =~= (first + own@.take(k as int)).push(
                        own@[k as int],
                    ));
                }
                k += 1;
            }
            proof {
                assert(own@.take(own@.len() as int) =~= own@);
            }
            i += 1;
        }
        proof {
            assert(all.take(all.len() as int) =~= all);
        }
        out
    }

    /// All electrical checks of the tree, each with its module.
    pub fn collect_electrical_checks(&self) -> (r: Vec<(usize, usize)>)
        ensures
            check_views(r@) == checks_of(self.modules@),
    {
        let ghost all = self.modules@;
        let mut out: Vec<(usize, usize)> = Vec::new();
        let mut i: usize = 0;
        proof {
            assert(all.take(0) =~= Seq::<ModuleChecks>::empty());
            assert(check_views(out@) =~= Seq::<(usize, int)>::empty());
        }
        while i < self.modules.len()
            invariant
                i <= self.modules@.len(),
                all == self.modules@,
                check_views(out@) == checks_of(all.take(i as int)),
            decreases self.modules@.len() - i,
        {
            proof {
                assert(all.take(i + 1).drop_last() =~= all.take(i as int));
                assert(all.take(i + 1).last() == all[i as int]);
            }
            let ghost first = check_views(out@);
            let own = &self.modules[i].electrical_checks;
            let ghost added = Seq::new(own@.len(), |k: int| (own@[k], i as int));
            let mut k: usize = 0;
            proof {
                assert(first + added.take(0) =~= first);
            }
            while k < own.len()
                invariant
                    k <= own@.len(),
                    added == Seq::new(own@.len(), |k: int| (own@[k], i as int)),
                    check_views(out@) == first + added.take(k as int),
                decreases own@.len() - k,
            {
                let ghost before = out@;
                out.push((own[k], i));
                proof {
                    assert(check_views(out@) =~= check_views(before).push((own@[k as int], i as int)));
                    assert(first + added.take(k + 1) =~= (first + added.take(k as int)).push(
                        added[k as int],
                    ));
                }
                k += 1;
            }
            proof {
                assert(added.take(added.len() as int) =~= added);
            }
            i += 1;
        }
        proof {
            assert(all.take(all.len() as int) =~= all);
        }
        out
    }
}

} // verus!
