//! What holds of whatever a call returns.

use starlark::collections::SmallMap;
use vstd::prelude::*;

use crate::config::{ManifestError, PcbToml};
use crate::convert::{BomEntry, FileNotice, ModuleConverter, ModuleValue, PortLabel, SchematicNet};
use crate::diagnostic::{Notice, Place};
use crate::frozen::{PackageUrlResolution, ResolvedPackageScope};
use crate::kicad_library::{default_kicad_library, kicad_http_mirror_template_for_repo};
use crate::kicad_library::{kicad_parts_url_for_symbol_repo, library_views};
use crate::kicad_library::{match_kicad_managed_repo, names_repo, KicadLibraryConfig};
use crate::kicad_library::{KicadLibraryError, KicadRepoMatch};
use crate::lang::builtin::{read_sim_setup, sim_setup_source, Builtin, BuiltinError};
use crate::lang::builtin::{ElectricalCheck, SimSetupSource};
use crate::lang::eval::{in_chain, EvalContext, EvalContextConfig, LoadPlan, SourcePlan};
use crate::lang::net::{compatible_net_type_view, NetAttr, NetValue};
use crate::lang::part::PartValue;
use crate::lang::symbol::{choose_library_path, finish_library_symbol, split_symbol_path};
use crate::lang::symbol::{symbol_origin, EdaSymbol, SymbolError, SymbolOrigin, SymbolValue};
use crate::lang::value::Store;
use crate::library_laws::{is_entry_for, law_entry_of_repository};
use crate::path::file_stem_of;
use crate::small_map::{distinct, handles_in, texts_in, under};
use crate::text::{opt_text, texts, trimmed};
use crate::version::Version;
use crate::workspace::{declares_board, BoardInfo, WorkspaceError, WorkspaceInfo};

verus! {

// ---------------------------------------------------------------------------------------------
// KiCad libraries

proof fn lemma_entries(entries: &Vec<KicadLibraryConfig>, repo: Seq<char>, symbols_only: bool)
    ensures
        library_views(entries@).len() == entries@.len(),
        forall|i: int|
            0 <= i < entries@.len() ==> names_repo(
                #[trigger] library_views(entries@)[i],
                repo,
                symbols_only,
            ) == is_entry_for(entries@[i]@, repo, symbols_only),
{
    let s = library_views(entries@);
    assert forall|i: int| 0 <= i < entries@.len() implies names_repo(
        #[trigger] s[i],
        repo,
        symbols_only,
    ) == is_entry_for(entries@[i]@, repo, symbols_only) by {
        assert(s[i] == entries@[i]@);
    }
}

/// A repository is managed exactly where an entry names it, and matched where one of those has its
/// major version.
pub proof fn law_managed_repository(
    entries: &Vec<KicadLibraryConfig>,
    repo: &str,
    version: &Version,
    r: KicadRepoMatch,
)
    requires
        call_ensures(match_kicad_managed_repo, (entries, repo, version), r),
    ensures
        r == KicadRepoMatch::NotManaged ==> forall|i: int|
            0 <= i < entries@.len() ==> !is_entry_for((#[trigger] entries@[i])@, repo@, false),
        r == KicadRepoMatch::SelectorMismatch ==> exists|i: int|
            0 <= i < entries@.len() && is_entry_for((#[trigger] entries@[i])@, repo@, false),
        r == KicadRepoMatch::SelectorMatched ==> exists|i: int|
            0 <= i < entries@.len() && is_entry_for((#[trigger] entries@[i])@, repo@, false)
                && entries@[i].version.major == version.major,
        r != KicadRepoMatch::SelectorMatched ==> forall|i: int|
            0 <= i < entries@.len() && is_entry_for((#[trigger] entries@[i])@, repo@, false)
                ==> entries@[i].version.major != version.major,
{
    let s = library_views(entries@);
    lemma_entries(entries, repo@, false);
    law_entry_of_repository(s, repo@, version.major, false);
    let k = crate::kicad_library::entry_at(s, repo@, version.major, false);
    if k < s.len() {
        assert(s[k] == entries@[k]@);
        assert(is_entry_for(entries@[k]@, repo@, false));
    } else {
        assert forall|i: int|
            0 <= i < entries@.len() && is_entry_for((#[trigger] entries@[i])@, repo@, false) implies entries@[i].version.major
            != version.major by {
            assert(s[i] == entries@[i]@);
        }
        if crate::kicad_library::some_names(s, repo@, false) {
            let i = choose|i: int| 0 <= i < s.len() && names_repo(#[trigger] s[i], repo@, false);
            assert(is_entry_for(entries@[i]@, repo@, false));
        } else {
            assert forall|i: int| 0 <= i < entries@.len() implies !is_entry_for(
                (#[trigger] entries@[i])@,
                repo@,
                false,
            ) by {
                assert(!names_repo(s[i], repo@, false));
            }
        }
    }
}

/// The mirror of a repository is that of the first entry that names it and has its major version;
/// where entries name it and none has the version that is an error; and a repository that no entry
/// names has none.
pub proof fn law_mirror_of_repository(
    entries: &Vec<KicadLibraryConfig>,
    repo: &str,
    version: &Version,
    r: Result<Option<String>, KicadLibraryError>,
)
    requires
        call_ensures(kicad_http_mirror_template_for_repo, (entries, repo, version), r),
    ensures
        match r {
            Ok(Some(t)) => exists|i: int|
                0 <= i < entries@.len() && is_entry_for((#[trigger] entries@[i])@, repo@, false)
                    && entries@[i].version.major == version.major && opt_text(entries@[i].http_mirror)
                    == Some(t@),
            Ok(None) => true,
            Err(_) => forall|i: int|
                0 <= i < entries@.len() && is_entry_for((#[trigger] entries@[i])@, repo@, false)
                    ==> entries@[i].version.major != version.major,
        },
{
    let s = library_views(entries@);
    lemma_entries(entries, repo@, false);
    law_entry_of_repository(s, repo@, version.major, false);
    let k = crate::kicad_library::entry_at(s, repo@, version.major, false);
    if k < s.len() {
        assert(s[k] == entries@[k]@);
        assert(is_entry_for(entries@[k]@, repo@, false));
    } else {
        assert forall|i: int|
            0 <= i < entries@.len() && is_entry_for((#[trigger] entries@[i])@, repo@, false) implies entries@[i].version.major
            != version.major by {
            assert(s[i] == entries@[i]@);
        }
    }
}

/// Parts are listed for symbol repositories alone: by the first entry whose symbols they are and that
/// has the major version.
pub proof fn law_parts_of_symbol_repository(
    entries: &Vec<KicadLibraryConfig>,
    repo: &str,
    version: &Version,
    r: Result<Option<String>, KicadLibraryError>,
)
    requires
        call_ensures(kicad_parts_url_for_symbol_repo, (entries, repo, version), r),
    ensures
        r is Ok && r->Ok_0 is Some ==> exists|i: int|
            0 <= i < entries@.len() && (#[trigger] entries@[i]).symbols@ == repo@
                && entries@[i].version.major == version.major && entries@[i].parts is Some,
        (forall|i: int| 0 <= i < entries@.len() ==> (#[trigger] entries@[i]).symbols@ != repo@) ==> r
            == Ok::<Option<String>, KicadLibraryError>(None),
{
    let s = library_views(entries@);
    lemma_entries(entries, repo@, true);
    law_entry_of_repository(s, repo@, version.major, true);
    let k = crate::kicad_library::entry_at(s, repo@, version.major, true);
    if k < s.len() {
        assert(s[k] == entries@[k]@);
        assert(is_entry_for(entries@[k]@, repo@, true));
        assert(entries@[k].symbols@ == repo@);
    }
    if forall|i: int| 0 <= i < entries@.len() ==> (#[trigger] entries@[i]).symbols@ != repo@ {
        if crate::kicad_library::some_names(s, repo@, true) {
            let i = choose|i: int| 0 <= i < s.len() && names_repo(#[trigger] s[i], repo@, true);
            assert(entries@[i].symbols@ == repo@);
        }
    }
}

/// A workspace that declares no libraries has those of KiCad 10.
pub proof fn law_default_libraries(r: Vec<KicadLibraryConfig>)
    requires
        call_ensures(default_kicad_library, (), r),
    ensures
        r@.len() == 1,
        r@[0].version.major == 10,
        is_entry_for(r@[0]@, "gitlab.com/kicad/libraries/kicad-symbols"@, true),
        is_entry_for(r@[0]@, "gitlab.com/kicad/libraries/kicad-footprints"@, false),
        r@[0].http_mirror is None,
        r@[0].parts is None,
{
}

// ---------------------------------------------------------------------------------------------
// Workspaces

/// A board is found by its name exactly where a package declares it with a file.
pub proof fn law_board_is_found(
    ws: &WorkspaceInfo,
    name: &str,
    r: Result<BoardInfo, WorkspaceError>,
)
    requires
        call_ensures(WorkspaceInfo::find_board_by_name, (ws, name), r),
    ensures
        r is Ok <==> exists|i: int|
            0 <= i < ws.packages.entries@.len() && declares_board(
                (#[trigger] ws.packages.entries@[i]).1,
                name@,
            ),
        r is Ok ==> r->Ok_0@.name == name@,
{
    crate::workspace::law_board_lies_in_its_package(ws.packages.entries@, ws.root@, name@);
}

/// A workspace has a namespace where it has a repository: the repository, and the path of the
/// workspace within it, with all that lies below.
pub proof fn law_namespace_of_workspace(ws: &WorkspaceInfo, url: &str, r: bool)
    requires
        call_ensures(WorkspaceInfo::is_workspace_namespace_url, (ws, url), r),
    ensures
        ws.repository_of() is None ==> !r,
        ws.repository_of() is Some && ws.subpath_of() is None ==> (r
            <==> crate::lang::eval_laws::lies_at(url@, ws.repository_of()->Some_0)),
        ws.repository_of() is Some && ws.subpath_of() is Some ==> (r
            <==> crate::lang::eval_laws::lies_at(
            url@,
            ws.repository_of()->Some_0 + seq!['/'] + ws.subpath_of()->Some_0,
        )),
{
    reveal_strlit("/");
    assert("/"@ =~= seq!['/']);
    if let Some(base) = crate::workspace::base_url(ws.repository_of(), ws.subpath_of()) {
        crate::lang::eval_laws::lemma_covers(base, url@);
    }
}

/// A URL belongs to the package of the workspace that says most of it.
pub proof fn law_package_of_url<'a>(ws: &'a WorkspaceInfo, url: &str, r: Option<&'a str>)
    requires
        call_ensures(WorkspaceInfo::package_url_for_url, (ws, url), r),
    ensures
        match r {
            Some(p) => crate::lang::eval_laws::is_best_of(
                crate::map::keys_of(ws.packages.entries@),
                p@,
                url@,
            ),
            None => forall|i: int|
                0 <= i < ws.packages.entries@.len() ==> !crate::lang::eval_laws::lies_at(
                    url@,
                    (#[trigger] ws.packages.entries@[i]).0@,
                ),
        },
{
    let keys = crate::map::keys_of(ws.packages.entries@);
    match r {
        Some(p) => {
            crate::lang::eval_laws::lemma_best(keys, p@, url@);
        },
        None => {
            assert forall|i: int| 0 <= i < ws.packages.entries@.len() implies !crate::lang::eval_laws::lies_at(
                url@,
                (#[trigger] ws.packages.entries@[i]).0@,
            ) by {
                assert(keys[i] == ws.packages.entries@[i].0@);
                crate::lang::eval_laws::lemma_covers(keys[i], url@);
            }
        },
    }
}

/// A manifest is accepted unless it requires a toolchain whose series cannot be read; all of it is kept
/// but the dependencies on KiCad libraries.
pub proof fn law_manifest_is_accepted(m: PcbToml, r: Result<PcbToml, ManifestError>)
    requires
        call_ensures(PcbToml::finish_parse, (m,), r),
    ensures
        m.workspace is None ==> r is Ok,
        m.workspace is Some && m.workspace->Some_0.pcb_version is None ==> r is Ok,
        m.workspace is Some && m.workspace->Some_0.pcb_version is Some ==> (r is Ok
            <==> crate::config::series(m.workspace->Some_0.pcb_version->Some_0@) is Some),
        r is Ok ==> {
            &&& r->Ok_0@.workspace == m@.workspace
            &&& r->Ok_0@.board == m@.board
            &&& r->Ok_0@.patch == m@.patch
            &&& r->Ok_0@.parts == m@.parts
            &&& r->Ok_0@.access == m@.access
        },
{
}

// ---------------------------------------------------------------------------------------------
// Packages

/// A URL belongs to a dependency that says most of it, and to the package itself where that says as
/// much; it belongs to neither where none says anything of it.
pub proof fn law_package_or_dependency<'a>(
    scope: &ResolvedPackageScope<'a>,
    url: &str,
    r: Option<PackageUrlResolution<'a>>,
)
    requires
        call_ensures(ResolvedPackageScope::resolve_package_url, (scope, url), r),
    ensures
        ({
            let own = crate::frozen::identity_url(scope.package.identity@);
            let keys = crate::map::keys_of(scope.package.deps.entries@);
            match r {
                Some(PackageUrlResolution::OwnPackage) => crate::lang::eval_laws::lies_at(url@, own),
                Some(PackageUrlResolution::Dependency { dep_url, root }) => {
                    &&& crate::lang::eval_laws::is_best_of(keys, dep_url@, url@)
                    &&& opt_text(crate::map::find(scope.package.deps.entries@, dep_url@)) == Some(root@)
                    &&& crate::lang::eval_laws::lies_at(url@, own) ==> own.len() < dep_url@.len()
                },
                None => !crate::lang::eval_laws::lies_at(url@, own),
            }
        }),
{
    let own = crate::frozen::identity_url(scope.package.identity@);
    let keys = crate::map::keys_of(scope.package.deps.entries@);
    crate::lang::eval_laws::lemma_covers(own, url@);
    if let Some(PackageUrlResolution::Dependency { dep_url, root: _ }) = r {
        crate::lang::eval_laws::lemma_best(keys, dep_url@, url@);
    }
}

// ---------------------------------------------------------------------------------------------
// Symbols

/// A library's file counts before its directory, where it exists; a directory that exists counts before
/// a file that does not; and where there is neither, the file that was looked for is named.
pub proof fn law_library_path(
    file: Result<(String, bool), String>,
    directory: Option<String>,
    r: Result<String, SymbolError>,
)
    requires
        call_ensures(choose_library_path, (file, directory), r),
    ensures
        file is Ok && file->Ok_0.1 ==> r == Ok::<String, SymbolError>(file->Ok_0.0),
        file is Ok && !file->Ok_0.1 && directory is None ==> r == Ok::<String, SymbolError>(
            file->Ok_0.0,
        ),
        !(file is Ok && file->Ok_0.1) && directory is Some ==> r == Ok::<String, SymbolError>(
            directory->Some_0,
        ),
        file is Err && directory is None ==> r is Err,
{
}

/// A symbol comes from its definition where it has one, and else from its library, which is read from
/// the file of the module.
pub proof fn law_origin_of_symbol(
    definition: Option<usize>,
    library: Option<String>,
    current_file: Option<String>,
    r: Result<SymbolOrigin, SymbolError>,
)
    requires
        call_ensures(symbol_origin, (definition, library, current_file), r),
    ensures
        definition is Some ==> r == Ok::<SymbolOrigin, SymbolError>(
            SymbolOrigin::Definition(definition->Some_0),
        ),
        definition is None && library is Some && current_file is Some ==> r is Ok
            && r->Ok_0 is Library && r->Ok_0->path == library->Some_0 && r->Ok_0->current_file
            == current_file->Some_0,
        definition is None && (library is None || current_file is None) ==> r is Err,
{
}

/// A symbol of a library is made exactly where the library stands in a package: it refers to the
/// library there.
pub proof fn law_symbol_of_library(
    symbol: &EdaSymbol,
    source_path: &str,
    source_uri: Option<String>,
    raw_sexp: Option<String>,
    properties: SmallMap<String, String>,
    r: Result<SymbolValue, SymbolError>,
)
    requires
        distinct(texts_in(properties)),
        call_ensures(
            finish_library_symbol,
            (symbol, source_path, source_uri, raw_sexp, properties),
            r,
        ),
    ensures
        r is Ok <==> source_uri is Some,
        r is Ok ==> {
            &&& r->Ok_0@.source_uri == opt_text(source_uri)
            &&& r->Ok_0@.raw_sexp == opt_text(raw_sexp)
            &&& r->Ok_0@.properties == texts_in(properties)
            &&& r->Ok_0@.in_bom == symbol.in_bom
            &&& r->Ok_0@.name == Some(symbol.name@)
        },
{
}

/// A symbol of a library that is a directory has a file of its own there, under its name.
pub proof fn law_file_of_symbol(dir: &str, name: &str, r: String)
    requires
        call_ensures(split_symbol_path, (dir, name), r),
    ensures
        r@ == crate::path::path_joined(dir@, name@ + ".kicad_sym"@),
{
}

// ---------------------------------------------------------------------------------------------
// Evaluation

/// A load that leads back to a file that waits for it fails, whatever was kept; what was loaded before
/// is used again; a directory cannot be loaded; and a file is evaluated under its own name, with the
/// loading file among those that wait.
pub proof fn law_plan_of_load(
    c: &EvalContextConfig,
    path: &str,
    is_cached: bool,
    is_directory: bool,
    r: LoadPlan,
)
    requires
        call_ensures(EvalContextConfig::plan_load, (c, path, is_cached, is_directory), r),
    ensures
        in_chain(c@.load_chain, path@) ==> r is Fail,
        !in_chain(c@.load_chain, path@) && is_cached ==> r is Cached,
        !in_chain(c@.load_chain, path@) && !is_cached && is_directory ==> r is Fail,
        !in_chain(c@.load_chain, path@) && !is_cached && !is_directory ==> r is Evaluate && {
            let d = r->Evaluate_0@;
            &&& d.load_chain.len() == c@.load_chain.len() + (if c@.source_path is Some {
                1int
            } else {
                0int
            })
            &&& c@.source_path is Some ==> d.load_chain.last() == c@.source_path->Some_0
            &&& file_stem_of(path@) is Some ==> d.tree_path == c@.tree_path.push(
                file_stem_of(path@)->Some_0,
            )
            &&& d.active_root_package == c@.active_root_package
        },
{
}

/// The text that is given counts before the file, and what was read of the file before counts before
/// the file; without a file nothing can be evaluated.
pub proof fn law_plan_of_source(c: &EvalContext, r: SourcePlan)
    requires
        call_ensures(EvalContext::plan_source, (c,), r),
    ensures
        c.config@.source_path is None ==> r is Fail,
        c.config@.source_path is Some && c.config@.contents is Some ==> r is Given,
        c.config@.source_path is Some && c.config@.contents is None ==> r is Cached || r is Read,
{
}

/// A context that shares what another keeps stands at the same place of the tree, or below it under a
/// name, and starts without a file.
pub proof fn law_shared_context(c: &EvalContextConfig, name: Option<&str>, r: EvalContextConfig)
    requires
        call_ensures(EvalContextConfig::child_context, (c, name), r),
    ensures
        r@.tree_path == (match name {
            Some(n) => c@.tree_path + seq![n@],
            None => c@.tree_path,
        }),
        r@.load_chain == c@.load_chain,
        r@.active_root_package == c@.active_root_package,
        r@.source_path is None,
        r@.contents is None,
        !r@.strict_io_config,
        !r@.build_circuit,
        r@.inject_prelude == c@.inject_prelude,
{
    if let Some(n) = name {
        assert(c@.tree_path.push(n@) =~= c@.tree_path + seq![n@]);
    }
}

// ---------------------------------------------------------------------------------------------
// Built-in functions

/// A part is made of what is given, where nothing of it is blank.
pub proof fn law_part_is_made(
    mpn: String,
    manufacturer: String,
    qualifications: Vec<String>,
    datasheet: Option<String>,
    r: Result<PartValue, BuiltinError>,
)
    requires
        call_ensures(Builtin::part, (mpn, manufacturer, qualifications, datasheet), r),
    ensures
        r is Ok <==> trimmed(mpn@).len() > 0 && trimmed(manufacturer@).len() > 0 && (datasheet is Some
            ==> trimmed(datasheet->Some_0@).len() > 0),
        r is Ok ==> {
            &&& r->Ok_0@.mpn == mpn@
            &&& r->Ok_0@.manufacturer == manufacturer@
            &&& r->Ok_0@.qualifications == texts(qualifications@)
            &&& r->Ok_0@.datasheet == opt_text(datasheet)
        },
{
    crate::lang::symbol_laws::law_part_is_named(mpn@, manufacturer@, opt_text(datasheet));
}

/// A check is kept as it was given, with the place of the call, where its severity is one.
pub proof fn law_check_is_kept(
    name: String,
    check_func: usize,
    inputs: SmallMap<String, usize>,
    severity: String,
    call_site: Option<Place>,
    r: Result<ElectricalCheck, BuiltinError>,
)
    requires
        call_ensures(Builtin::electrical_check, (name, check_func, inputs, severity, call_site), r),
    ensures
        r is Ok <==> severity@ == "error"@ || severity@ == "warning"@ || severity@ == "advice"@,
        r is Ok ==> {
            &&& r->Ok_0.name == name
            &&& r->Ok_0.check_func == check_func
            &&& r->Ok_0.inputs == inputs
            &&& r->Ok_0.severity == severity
            &&& call_site is Some ==> r->Ok_0.source_path@ == call_site->Some_0@.path
                && r->Ok_0.call_span == call_site->Some_0@.span
        },
{
}

/// A modifier of components is a function.
pub proof fn law_modifier_is_function(store: &Store, h: usize, r: Result<(), BuiltinError>)
    requires
        h < store.items@.len(),
        call_ensures(Builtin::check_component_modifier, (store, h), r),
    ensures
        r is Ok <==> crate::lang::value::type_of(store.items@[h as int]) == "function"@,
{
}

/// The setup of a simulation is a file or a text, and not both.
pub proof fn law_source_of_sim_setup(
    path: Option<String>,
    content: Option<String>,
    r: Result<SimSetupSource, BuiltinError>,
)
    requires
        call_ensures(sim_setup_source, (path, content), r),
    ensures
        r is Ok <==> (path is Some) != (content is Some),
        r is Ok && path is Some ==> r->Ok_0 == SimSetupSource::File(path->Some_0),
        r is Ok && content is Some ==> r->Ok_0 == SimSetupSource::Content(content->Some_0),
{
}

/// The setup of a simulation that is a file is what was read there.
pub proof fn law_sim_setup_is_read(
    resolved: Result<String, String>,
    content: Result<String, String>,
    r: Result<String, BuiltinError>,
)
    requires
        call_ensures(read_sim_setup, (resolved, content), r),
    ensures
        r is Ok <==> resolved is Ok && content is Ok,
        r is Ok ==> r->Ok_0@ == content->Ok_0@,
{
}

// ---------------------------------------------------------------------------------------------
// Nets

/// A net has its properties as attributes, a view as a plain net, and the fields of its type that are
/// not set.
pub proof fn law_attributes_of_net(n: &NetValue, attribute: &str, r: Option<NetAttr>)
    requires
        call_ensures(NetValue::get_attr, (n, attribute), r),
    ensures
        attribute@ == "NET"@ ==> r == Some(NetAttr::AsNet),
        attribute@ != "NET"@ && under(handles_in(n.properties), attribute@) is Some ==> r == Some(
            NetAttr::Property(under(handles_in(n.properties), attribute@)->Some_0),
        ),
        attribute@ != "NET"@ && under(handles_in(n.properties), attribute@) is None ==> (r is Some
            <==> crate::lang::net::optional_fields(n.type_label@).contains(attribute@)),
{
}

/// Every net can be seen as a plain one, and as none of any other type.
pub proof fn law_views_of_nets<'a>(actual: &str, expected: &'a str, r: Option<&'a str>)
    requires
        call_ensures(compatible_net_type_view, (actual, expected), r),
    ensures
        r is Some <==> expected@ == "Net"@ && actual@ != "Net"@,
        r is Some ==> r->Some_0@ == "Net"@,
{
}

/// A net goes where its type is expected, and an open one everywhere.
pub proof fn law_types_of_nets(n: &NetValue, expected: &str, r: bool)
    requires
        call_ensures(NetValue::matches_type_name, (n, expected), r),
    ensures
        r <==> n.connection_intent == crate::lang::net::ConnectionIntent::Open || n.type_label@
            == expected@,
{
}

// ---------------------------------------------------------------------------------------------
// Schematics

/// A schematic holds all modules with their components, and its nets are listed; it is refused where
/// what stands for a simulation model is none, or a net lacks the name that it has to have.
pub proof fn law_schematic_is_built(
    store: &Store,
    modules: &Vec<ModuleValue>,
    i: int,
    r: Result<(ModuleConverter, Vec<SchematicNet>), Notice>,
)
    requires
        call_ensures(ModuleConverter::build, (store, modules), r),
        0 <= i < modules@.len(),
    ensures
        r is Ok ==> forall|j: int, k: int|
            0 <= j < modules@.len() && 0 <= k < modules@[j].components@.len()
                ==> crate::position_laws::has_usable_model(
                #[trigger] modules@[j].components@[k],
                store.items@,
            ),
        r is Ok ==> forall|j: int, k: int|
            0 <= j < modules@[i].components@.len() && 0 <= k < modules@[i].components@[j]@.symbol.pads.len()
                ==> is_placed(
                r->Ok_0.0@,
                modules@[i],
                j,
                #[trigger] modules@[i].components@[j]@.symbol.pads[k],
            ),
        r is Ok ==> r->Ok_0.1@.len() <= r->Ok_0.0.nets.entries@.len(),
{
    crate::position_laws::law_models_must_be_models(modules@, store.items@);
    if r is Ok {
        let empty = crate::convert::Model {
            instances: Map::empty(),
            nets: Map::empty(),
            aliases: Map::empty(),
            models: Seq::empty(),
        };
        let m = crate::convert::with_modules(empty, modules@, store.items@);
        assert forall|j: int, k: int|
            0 <= j < modules@[i].components@.len() && 0 <= k < modules@[i].components@[j]@.symbol.pads.len()
            implies is_placed(
            r->Ok_0.0@,
            modules@[i],
            j,
            #[trigger] modules@[i].components@[j]@.symbol.pads[k],
        ) by {
            crate::convert_laws::law_everything_is_in_the_schematic(
                empty,
                modules@,
                store.items@,
                i,
                j,
                k,
            );
        }
        lemma_row_count(r->Ok_0.0.nets.entries@);
    }
}

/// Whether a component of a module and the port of one of its pads are in a schematic.
pub open spec fn is_placed(
    m: crate::convert::Model,
    v: ModuleValue,
    j: int,
    pad: (Seq<char>, Seq<char>),
) -> bool {
    let path = v.path@.push(v.components@[j]@.name);
    &&& m.instances.dom().contains(v.path@)
    &&& m.instances.dom().contains(path)
    &&& m.instances.dom().contains(path.push(pad.1))
}

proof fn lemma_row_count(s: Seq<(u64, crate::convert::NetInfo)>)
    ensures
        crate::convert::rows_of(s) is Some ==> crate::convert::rows_of(s)->Some_0.len() <= s.len(),
    decreases s.len(),
{
    if s.len() > 0 {
        lemma_row_count(s.drop_last());
    }
}

/// What a conversion says in the end is what it says of directives, of missing parts, of unused inputs
/// and of open nets, in this order; and a path that was moved leads where the directives or the names
/// of the nets say.
pub proof fn law_conversion_is_concluded(
    c: &ModuleConverter,
    store: &Store,
    modules: &Vec<ModuleValue>,
    existing: &Vec<String>,
    bom: &Vec<BomEntry>,
    open_nets: Vec<Vec<PortLabel>>,
    root_path: &str,
    r: (crate::map::SortedMap<String, String>, Vec<FileNotice>),
)
    requires
        call_ensures(
            ModuleConverter::conclude,
            (c, store, modules, existing, bom, open_nets, root_path),
            r,
        ),
    ensures
        ({
            let moved = crate::convert::all_moved(modules@, texts(existing@));
            let parts = crate::convert::missing_parts(bom@);
            let inputs = crate::convert::unused_io(c@, store.items@, modules@);
            let n = moved.1.len() as int;
            let said = crate::convert::file_notices(r.1@);
            &&& said.len() >= n + parts.len() + inputs.len()
            &&& said.subrange(n, n + parts.len() as int) == parts
            &&& said.subrange(n + parts.len() as int, n + parts.len() as int + inputs.len() as int) == inputs
            &&& said.len() <= n + parts.len() + inputs.len() + open_nets@.len()
            &&& forall|k: Seq<char>|
                moved.0.dom().contains(k) ==> #[trigger] crate::map::viewed(r.0@).dom().contains(k)
                    && crate::map::viewed(r.0@)[k] == moved.0[k]
        }),
{
    let moved = crate::convert::all_moved(modules@, texts(existing@));
    let parts = crate::convert::missing_parts(bom@);
    let inputs = crate::convert::unused_io(c@, store.items@, modules@);
    let said = crate::convert::file_notices(r.1@);
    let n = moved.1.len() as int;
    let l = choose|l: Seq<Seq<(Seq<char>, Seq<char>)>>| #[trigger]
        crate::convert::lists_all(l, open_nets@) && said == crate::convert::moved_said(moved.1) + parts
            + inputs + crate::convert::open_net_notes(root_path@, l);
    crate::position_laws::law_open_nets_are_on_one_port(root_path@, l);
    assert(said.subrange(n, n + parts.len() as int) =~= parts);
    assert(said.subrange(n + parts.len() as int, n + parts.len() as int + inputs.len() as int)
        =~= inputs);
}

} // verus!
