use pcb_zen_core::convert::ModuleParam;
use pcb_zen_core::diagnostic::{Diagnostic, Place, Severity, SourceSpan};
use pcb_zen_core::frozen::{
    FrozenPackage, FrozenPackageIdentity, FrozenResolutionMap, FrozenResolutionSet,
};
use pcb_zen_core::lang::eval::{
    apply_component_modifiers, evaluated_signature, explicit_prelude_load_diagnostics, finish_eval,
    finish_load, has_unnamed_net,
    is_stdlib_source_path, is_workspace_file, json_value_to_heap_value, layout_path_to_resolve,
    loader_path, needless_loads, prelude, prelude_failure, process_pending_child, resolve_layout_paths,
    schematic_error,
    serialize_parameter_value, symbol_kind, DefinedName, EvalContext, EvalContextConfig,
    EvalOutput, EvaluatedNet, LoadPlan, LoadRequest, LoadStatement, ModuleChecks, ParameterForm, PathAnswers,
    Placement, SourcePlan,
};
use pcb_zen_core::lang::load::needless_load_reports;
use pcb_zen_core::lang::session::CacheKey;
use pcb_zen_core::lang::source::parse_ast;
use pcb_zen_core::lang::symbol::resolve_symbol_library_path;
use pcb_zen_core::lang::value::{Item, Store};
use pcb_zen_core::map::{PathKey, SortedMap};
use pcb_zen_core::resolved::ResolutionResult;
use pcb_zen_core::schematic::{
    make_text, AttributeValue, Instance, InstanceKind, InstancePath, Json, Scalar,
};
use pcb_zen_core::workspace::WorkspaceInfo;
use pcb_zen_core::{normalize_path, FileProvider, FileProviderError, SymbolKind};
use starlark::collections::SmallMap;

struct Files {
    paths: Vec<String>,
}

impl Files {
    fn new(paths: &[&str]) -> Self {
        Files {
            paths: paths.iter().map(|p| p.to_string()).collect(),
        }
    }
}

impl FileProvider for Files {
    fn read_file(&self, path: &str) -> Result<String, FileProviderError> {
        Err(FileProviderError::NotFound(path.to_string()))
    }

    fn path_exists(&self, path: &str) -> bool {
        self.paths.iter().any(|p| p == path)
    }

    fn is_directory(&self, _path: &str) -> bool {
        false
    }

    fn is_symlink(&self, _path: &str) -> bool {
        false
    }

    fn list_directory(&self, path: &str) -> Result<Vec<String>, FileProviderError> {
        Err(FileProviderError::NotFound(path.to_string()))
    }

    fn canonicalize(&self, path: &str) -> Result<String, FileProviderError> {
        Ok(normalize_path(path))
    }
}

#[test]
fn invalidate_file_invalidates_canonicalized_footprint_cache_key() {
    let provider = Files::new(&[]);
    let resolution = ResolutionResult::empty();
    let mut context = EvalContext::new(SortedMap::new());
    let cached_path = "/dir/bad.kicad_mod";
    let invalidation_path = "/dir/../dir/bad.kicad_mod";
    let key = context.footprint_cache_key(&resolution, cached_path);
    let same = context.footprint_cache_key(&resolution, cached_path);

    context.session.footprint_cache.insert(key, 0);
    assert!(context.session.footprint_cache.get(&same).is_some());

    context.invalidate_file(&provider, &resolution, invalidation_path);

    assert!(context.session.footprint_cache.get(&same).is_none());
}

#[test]
fn a_module_file_keeps_footprints() {
    let resolution = ResolutionResult::empty();
    let mut context = EvalContext::new(SortedMap::new());
    let key = context.footprint_cache_key(&resolution, "/dir/x.kicad_mod");
    let same = context.footprint_cache_key(&resolution, "/dir/x.kicad_mod");
    context.session.footprint_cache.insert(key, 3);
    context.session.source_cache.insert(
        CacheKey {
            scope: None,
            path: "/dir/x.zen".to_string(),
            detail: None,
        },
        4,
    );
    context.invalidate_file(&Files::new(&[]), &resolution, "/dir/x.zen");
    assert_eq!(context.session.footprint_cache.get(&same), Some(3));
    assert!(context.session.source_cache.entries.is_empty());
}

#[test]
fn modules_that_were_loaded_are_found_again() {
    let resolution = ResolutionResult::empty();
    let mut context = EvalContext::new(SortedMap::new());
    assert_eq!(context.get_cached_module(&resolution, "/w/a.zen"), None);
    context.cache_module(&resolution, "/w/a.zen", 5);
    context.cache_module(&resolution, "/w/b.zen", 6);
    context.cache_module(&resolution, "/w/a.zen", 7);
    assert_eq!(context.get_cached_module(&resolution, "/w/a.zen"), Some(7));
    assert_eq!(context.get_cached_module(&resolution, "/w/b.zen"), Some(6));
}

fn files() -> Vec<Option<String>> {
    vec![
        Some("/lib/io.zen".to_string()),
        Some("/lib/interfaces.zen".to_string()),
        None,
        Some("/lib/board_config.zen".to_string()),
    ]
}

fn config(path: Option<&str>) -> EvalContextConfig {
    let mut config = EvalContextConfig::new();
    config.source_path = path.map(|p| p.to_string());
    config.inject_prelude = true;
    config
}

fn load(target: Option<&str>, names: &[&str]) -> LoadStatement {
    LoadStatement {
        target: target.map(|t| t.to_string()),
        names: names.iter().map(|n| n.to_string()).collect(),
    }
}

#[test]
fn the_prelude_has_its_names() {
    let names: Vec<String> = prelude().into_iter().flat_map(|m| m.names).collect();
    assert_eq!(
        names,
        [
            "io",
            "input",
            "output",
            "Net",
            "Power",
            "Ground",
            "NotConnected",
            "Layout",
            "Part",
            "Board"
        ]
    );
}

#[test]
fn needless_loads_are_warned_of() {
    let loads = vec![
        load(Some("/lib/interfaces.zen"), &["Net", "Spi", "Power"]),
        load(Some("/lib/io.zen"), &["io"]),
        load(Some("/lib/interfaces.zen"), &["Spi"]),
        load(Some("/lib/units.zen"), &["Net"]),
        load(None, &["Net"]),
    ];
    let notes = explicit_prelude_load_diagnostics(&config(Some("/w/x.zen")), false, &files(), &loads);
    let texts: Vec<Option<String>> = notes.into_iter().map(|n| n.map(|n| n.message)).collect();
    assert_eq!(
        texts,
        [
            Some(
                "`Net`, `Power` are available from the @stdlib prelude; remove from this explicit `load()`"
                    .to_string()
            ),
            Some(
                "`io` is available from the @stdlib prelude; remove from this explicit `load()`"
                    .to_string()
            ),
            None,
            None,
            None
        ]
    );
    let inside = explicit_prelude_load_diagnostics(&config(Some("/lib/x.zen")), true, &files(), &loads);
    assert!(inside.iter().all(|n| n.is_none()));
    let nowhere = explicit_prelude_load_diagnostics(&config(None), false, &files(), &loads);
    assert!(nowhere.iter().all(|n| n.is_none()));
}

fn report(severity: Severity, body: &str) -> Diagnostic {
    Diagnostic::new("/w/x.zen", severity, body.to_string())
}

fn place(path: &str) -> Place {
    Place {
        path: path.to_string(),
        span: Some(SourceSpan {
            begin_row: 2,
            begin_col: 0,
            end_row: 2,
            end_col: 9,
        }),
    }
}

fn bodies(v: &[Diagnostic]) -> Vec<String> {
    v.iter().map(|d| d.body.clone()).collect()
}

#[test]
fn a_load_passes_its_warnings_on() {
    let mut out = Vec::new();
    let diagnostics = vec![
        report(Severity::Warning, "w"),
        report(Severity::Advice, "a"),
    ];
    let outcome = finish_load(&mut out, &diagnostics, true, "./m.zen", &place("/w/y.zen"));
    assert!(outcome.failure.is_none());
    assert_eq!(bodies(&outcome.warnings), ["w"]);
    assert_eq!(bodies(&out), ["Warning from `./m.zen`"]);
    assert_eq!(out[0].child.as_ref().unwrap().body, "w");
    assert_eq!(out[0].path, "/w/y.zen");
    assert_eq!(out[0].span, place("").span);
    assert_eq!(out[0].child.as_ref().unwrap().span, None);
}

#[test]
fn a_load_fails_by_its_first_error() {
    let mut out = Vec::new();
    let diagnostics = vec![report(Severity::Error, "e"), report(Severity::Error, "f")];
    let outcome = finish_load(&mut out, &diagnostics, true, "./m.zen", &place("/w/y.zen"));
    let failure = outcome.failure.unwrap();
    assert_eq!(failure.body, "Error loading module `./m.zen`");
    assert_eq!(failure.child.unwrap().body, "e");
    let outcome = finish_load(&mut out, &Vec::new(), false, "./m.zen", &place("/w/y.zen"));
    assert_eq!(
        outcome.failure.unwrap().body,
        "Failed to load module `./m.zen`"
    );
}

#[test]
fn modules_inside_report_under_their_call() {
    let mut style = report(Severity::Warning, "s");
    style.is_style = true;
    let diagnostics = vec![
        report(Severity::Error, "e"),
        report(Severity::Warning, "w"),
        report(Severity::Advice, "a"),
        style,
    ];
    let provided = vec!["a".to_string(), "b".to_string(), "c".to_string()];
    let used = vec!["b".to_string()];
    let out = process_pending_child(diagnostics, "M", &place("/w/p.zen"), Some((&provided, &used)));
    assert_eq!(
        bodies(&out),
        [
            "Error instantiating `M`",
            "Warning from `M`",
            "Issue in `M`",
            "s",
            "Unknown argument(s) provided to module M: a, c"
        ]
    );
    let out = process_pending_child(Vec::new(), "M", &place("/w/p.zen"), None);
    assert!(out.is_empty());
}

#[test]
fn style_counts_only_where_all_is_well() {
    let net = |kind: &str, awaits_name: bool| EvaluatedNet {
        kind: kind.to_string(),
        awaits_name,
    };
    let (came_out, out) = finish_eval(
        vec![report(Severity::Warning, "load")],
        None,
        &vec![net("NotConnected", true), net("Net", false)],
        vec![
            vec![report(Severity::Warning, "c1")],
            vec![report(Severity::Warning, "c2")],
        ],
        vec![report(Severity::Advice, "own")],
        vec![report(Severity::Advice, "style")],
    );
    assert!(came_out);
    assert_eq!(bodies(&out), ["load", "c1", "c2", "own", "style"]);
    let (came_out, out) = finish_eval(
        Vec::new(),
        None,
        &Vec::new(),
        Vec::new(),
        vec![report(Severity::Error, "own")],
        vec![report(Severity::Advice, "style")],
    );
    assert!(came_out);
    assert_eq!(bodies(&out), ["own"]);
    let (came_out, out) = finish_eval(
        Vec::new(),
        None,
        &vec![net("Net", true)],
        Vec::new(),
        Vec::new(),
        Vec::new(),
    );
    assert!(!came_out);
    assert_eq!(bodies(&out), ["Net is unnamed"]);
    let (came_out, out) = finish_eval(
        vec![report(Severity::Warning, "load")],
        Some(report(Severity::Error, "failed")),
        &Vec::new(),
        vec![vec![report(Severity::Warning, "c1")]],
        vec![report(Severity::Advice, "own")],
        vec![report(Severity::Advice, "style")],
    );
    assert!(!came_out);
    assert_eq!(bodies(&out), ["load", "failed"]);
}

#[test]
fn a_prelude_that_cannot_be_loaded_is_an_error() {
    let d = prelude_failure("@stdlib/io.zen", Some("/w/x.zen"), Some(report(Severity::Error, "e")));
    assert_eq!(d.body, "Failed to load prelude module `@stdlib/io.zen`");
    assert_eq!(d.child.unwrap().body, "e");
    let blank = Diagnostic::new("", Severity::Error, String::new());
    assert!(prelude_failure("@stdlib/io.zen", None, Some(blank)).child.is_none());
}

#[test]
fn modifiers_run_own_first() {
    let calls = apply_component_modifiers(&vec![1, 2], &vec![10], &vec![20, 21]);
    assert_eq!(
        calls,
        [(10, 1), (20, 1), (21, 1), (10, 2), (20, 2), (21, 2)]
    );
}

#[test]
fn loads_are_planned() {
    let mut c = config(Some("/w/x.zen"));
    c.load_chain = vec!["/w/a.zen".to_string()];
    match c.plan_load("/w/a.zen", true, false) {
        LoadPlan::Fail(e) => {
            assert_eq!(e.message, "cyclic load detected while loading `/w/a.zen`")
        }
        _ => panic!("a cycle"),
    }
    assert!(matches!(
        c.plan_load("/w/b.zen", true, true),
        LoadPlan::Cached
    ));
    match c.plan_load("/w/b", false, true) {
        LoadPlan::Fail(e) => assert_eq!(e.message, "Directory load syntax is no longer supported"),
        _ => panic!("a directory"),
    }
    match c.plan_load("/w/b.zen", false, false) {
        LoadPlan::Evaluate(child) => {
            assert_eq!(child.tree_path.segments, ["b"]);
            assert!(child.would_create_cycle("/w/x.zen"));
        }
        _ => panic!("a module"),
    }
    assert_eq!(
        config(None).loading_file("./m.zen").err().unwrap().message,
        "Cannot resolve load path './m.zen' without a current file context"
    );
}

#[test]
fn contexts_inside_are_strict() {
    let c = config(Some("/w/x.zen")).set_eager(true);
    let child = c.child_for_pending("usb");
    assert_eq!(child.tree_path.segments, ["usb"]);
    assert!(child.eager);
    let child = child.for_instantiation();
    assert!(child.strict_io_config && child.build_circuit);
    assert!(child.makes_children());
    assert!(c.makes_children());
    let named = c.child_context(Some("usb"));
    assert!(!named.makes_children());
    assert!(!named.strict_io_config);
}

#[test]
fn values_of_documents_enter_the_store() {
    let mut store = Store::new();
    let document = Json::Object(vec![
        ("n".to_string(), Json::Number(0x1_0000_0005)),
        ("neg".to_string(), Json::Number(-1)),
        ("big".to_string(), Json::Number(0x8000_0000)),
        (
            "l".to_string(),
            Json::Array(vec![Json::Null, Json::Bool(true), Json::Text("t".to_string())]),
        ),
    ]);
    let h = json_value_to_heap_value(&mut store, &document);
    let Item::Dict(d) = &store.items[h] else {
        panic!("a dictionary");
    };
    assert_eq!(d[0].0.text, "n");
    assert!(matches!(store.items[d[0].1], Item::Int(5)));
    assert!(matches!(store.items[d[1].1], Item::Int(-1)));
    assert!(matches!(store.items[d[2].1], Item::Int(-0x8000_0000)));
    let Item::List(l) = &store.items[d[3].1] else {
        panic!("a list");
    };
    assert!(store.is_none(l[0]));
    assert_eq!(store.truth(l[1]), Some(true));
    assert_eq!(store.text(l[2]), Some("t"));
}

#[test]
fn values_of_signatures_have_texts() {
    let mut store = Store::new();
    let q = store.allocate(Item::Quantity {
        type_label: "Voltage".to_string(),
        shown: "3.3V".to_string(),
        repr: "Voltage(3.3V)".to_string(),
    });
    let n = store.allocate(Item::Int(3));
    match serialize_parameter_value(&store, q) {
        ParameterForm::Text(s) => assert_eq!(s, "3.3V"),
        ParameterForm::Native(_) => panic!("a quantity"),
    }
    assert!(matches!(
        serialize_parameter_value(&store, n),
        ParameterForm::Native(_)
    ));
}

#[test]
fn inputs_of_documents_count_most() {
    let mut store = Store::new();
    let a = store.alloc_text("a");
    let b = store.alloc_text("b");
    let mut context = EvalContext::new(SortedMap::new());
    let mut first = SmallMap::new();
    first.insert("x".to_string(), a);
    first.insert("y".to_string(), a);
    context.set_inputs_from_frozen_values(&first);
    let mut second = SmallMap::new();
    second.insert("y".to_string(), b);
    context.set_inputs_from_frozen_values(&second);
    context.set_json_inputs(&mut store, &vec![("x".to_string(), Json::Text("j".to_string()))]);
    let inputs = context.module_inputs();
    assert_eq!(inputs.get("y"), Some(&b));
    assert_eq!(store.text(*inputs.get("x").unwrap()), Some("j"));
    context.set_properties_from_frozen_values(&first);
    assert_eq!(context.pending_properties.len(), 2);
    context.set_parent_component_modifiers_from_frozen_values(vec![9]);
    assert_eq!(context.parent_component_modifiers, [9]);
}

#[test]
fn a_source_is_given_kept_or_read() {
    let context = EvalContext::new(SortedMap::new());
    match context.plan_source() {
        SourcePlan::Fail(e) => {
            assert_eq!(e.message, "source_path not set on Context before eval()")
        }
        _ => panic!("no file"),
    }
    let mut context = context;
    context.config.source_path = Some("/w/x.zen".to_string());
    assert!(matches!(context.plan_source(), SourcePlan::Read));
    context.session.source_cache.insert(
        CacheKey {
            scope: None,
            path: "/w/x.zen".to_string(),
            detail: None,
        },
        8,
    );
    assert!(matches!(context.plan_source(), SourcePlan::Cached(8)));
    let context = context.set_source_contents("x = 1".to_string());
    assert!(matches!(context.plan_source(), SourcePlan::Given));
}

fn defined(name: &str, type_label: &str, loader: Option<&str>) -> DefinedName {
    DefinedName {
        name: name.to_string(),
        type_label: type_label.to_string(),
        loader: loader.map(|p| (p.to_string(), vec!["vin".to_string()])),
    }
}

#[test]
fn names_of_a_file_are_analyzed() {
    let mut docs = SortedMap::new();
    docs.insert("Module".to_string(), "Loads a module.".to_string());
    let mut context = EvalContext::new(docs).set_inject_prelude(true);
    context.begin_analysis("/w/x.zen");
    context.finish_analysis(
        "/w/x.zen",
        &vec![
            defined("Usb", "ModuleLoader", Some("/w/usb.zen")),
            defined("f", "function", None),
            defined("Net", "ModuleLoader", Some("/w/net.zen")),
        ],
        &files(),
    );
    assert_eq!(
        context.get_url_for_global_symbol("/w/x.zen", "Usb"),
        Some("/w/usb.zen")
    );
    assert_eq!(
        context.get_url_for_global_symbol("/w/x.zen", "io"),
        Some("/lib/io.zen")
    );
    assert_eq!(
        context.get_url_for_global_symbol("/w/x.zen", "Net"),
        Some("/w/net.zen")
    );
    assert_eq!(context.get_url_for_global_symbol("/w/x.zen", "Layout"), None);
    assert_eq!(
        context.get_params_for_global_symbol("/w/x.zen", "Usb"),
        Some(vec!["vin".to_string()])
    );
    let f = context.get_symbol_info("/w/x.zen", "f").unwrap();
    assert_eq!(f.kind, SymbolKind::Function);
    let built_in = context.get_hover_for_value("/w/x.zen", "Module").unwrap();
    assert_eq!(built_in.documentation.as_deref(), Some("Loads a module."));
    assert!(context.get_symbol_info("/w/x.zen", "g").is_none());
    assert!(context.module_dep_exists("/w/x.zen", "/w/usb.zen"));

    context.finish_analysis("/w/x.zen", &vec![defined("f", "function", None)], &files());
    assert!(!context.module_dep_exists("/w/x.zen", "/w/usb.zen"));
}

#[test]
fn kinds_of_names_follow_their_types() {
    assert_eq!(symbol_kind("FrozenNativeFunction"), SymbolKind::Function);
    assert_eq!(symbol_kind("ComponentType"), SymbolKind::Component);
    assert_eq!(symbol_kind("InterfaceFactory"), SymbolKind::Interface);
    assert_eq!(symbol_kind("ModuleLoader"), SymbolKind::Module);
    assert_eq!(symbol_kind("int"), SymbolKind::Variable);
    assert_eq!(loader_path("m.zen", "/w/x.zen"), "/w/m.zen");
    assert_eq!(loader_path("/m.zen", "/w/x.zen"), "/m.zen");
}

#[test]
fn module_files_are_told_by_their_names() {
    assert!(is_workspace_file("/w/a.zen"));
    assert!(is_workspace_file("/w/a.star"));
    assert!(!is_workspace_file("/w/.a.zen"));
    assert!(!is_workspace_file("/w/a.py"));
}

#[test]
fn a_schematic_that_fails_says_why() {
    assert_eq!(schematic_error(true, false, &Vec::new()), None);
    let errors = vec!["a".to_string(), "b".to_string()];
    assert_eq!(
        schematic_error(true, true, &errors).as_deref(),
        Some("Schematic conversion had errors:\na\nb")
    );
    assert_eq!(
        schematic_error(false, false, &errors).as_deref(),
        Some("Schematic conversion failed:\na\nb")
    );
}

#[test]
fn layout_paths_become_references_once() {
    let with = |kind: InstanceKind, path: &str| {
        let mut attributes = SortedMap::new();
        attributes.insert("layout_path".to_string(), make_text(path));
        Instance::new(kind, "/w/x.zen", "x", attributes)
    };
    assert_eq!(
        layout_path_to_resolve(&with(InstanceKind::Module, "layout/x")).as_deref(),
        Some("layout/x")
    );
    assert_eq!(
        layout_path_to_resolve(&with(InstanceKind::Module, "package://a/layout")),
        None
    );
    assert_eq!(
        layout_path_to_resolve(&with(InstanceKind::Component, "layout/x")),
        None
    );
}

#[test]
fn checks_are_collected_in_order() {
    let output = EvalOutput {
        config: EvalContextConfig::new(),
        print_output: Vec::new(),
        modules: vec![
            ModuleChecks {
                testbenches: vec![1],
                electrical_checks: vec![5, 6],
            },
            ModuleChecks {
                testbenches: vec![2, 3],
                electrical_checks: vec![7],
            },
        ],
    };
    assert_eq!(output.collect_testbenches(), [1, 2, 3]);
    assert_eq!(
        output.collect_electrical_checks(),
        [(5, 0), (6, 0), (7, 1)]
    );
}

fn resolution() -> ResolutionResult {
    let mut deps = SortedMap::new();
    deps.insert("github.com/acme/dep".to_string(), "/cache/dep".to_string());
    let mut packages = SortedMap::new();
    packages.insert(
        PathKey {
            path: "/w".to_string(),
        },
        FrozenPackage {
            identity: FrozenPackageIdentity::Workspace("github.com/acme/root".to_string()),
            deps,
            parts: Vec::new(),
        },
    );
    let mut set: FrozenResolutionSet = SortedMap::new();
    set.insert(
        "github.com/acme/root".to_string(),
        FrozenResolutionMap {
            selected_remote: SortedMap::new(),
            packages,
        },
    );
    ResolutionResult::frozen(
        WorkspaceInfo {
            root: "/w".to_string(),
            cache_dir: String::new(),
            config: None,
            packages: SortedMap::new(),
            errors: Vec::new(),
        },
        set,
        SortedMap::new(),
    )
}

fn request(path: &str, names: &[&str]) -> LoadRequest {
    LoadRequest {
        path: path.to_string(),
        names: names.iter().map(|n| n.to_string()).collect(),
    }
}

#[test]
fn needless_loads_are_found_by_their_files() {
    let resolution = resolution();
    let provider = Files::new(&[
        "/w/.pcb/stdlib/io.zen",
        "/w/.pcb/stdlib/interfaces.zen",
        "/w/.pcb/stdlib/units.zen",
    ]);
    let placed = |file: &str| {
        let mut c = EvalContextConfig::new().place_at(&resolution, file.to_string(), file);
        c.inject_prelude = true;
        c
    };
    let loads = vec![
        request("@stdlib/interfaces.zen", &["Net", "Spi", "Power"]),
        request("@stdlib/units.zen", &["Net"]),
        request("@stdlib/absent.zen", &["Net"]),
        request("@stdlib/io.zen", &["io"]),
    ];
    let texts = |c: &EvalContextConfig| -> Vec<Option<String>> {
        needless_loads(c, &provider, &resolution, &loads)
            .into_iter()
            .map(|n| n.map(|n| n.message))
            .collect()
    };
    assert_eq!(
        texts(&placed("/w/src/x.zen")),
        [
            Some(
                "`Net`, `Power` are available from the @stdlib prelude; remove from this explicit `load()`"
                    .to_string()
            ),
            None,
            None,
            Some(
                "`io` is available from the @stdlib prelude; remove from this explicit `load()`"
                    .to_string()
            ),
        ]
    );
    assert_eq!(texts(&placed("/w/.pcb/stdlib/io.zen")), [None, None, None, None]);
    let mut without = placed("/w/src/x.zen");
    without.inject_prelude = false;
    assert_eq!(texts(&without), [None, None, None, None]);
}

#[test]
fn needless_loads_of_a_text_stand_at_their_statements() {
    let resolution = resolution();
    let provider = Files::new(&["/w/.pcb/stdlib/io.zen", "/w/.pcb/stdlib/interfaces.zen"]);
    let mut config = EvalContextConfig::new().place_at(
        &resolution,
        "/w/src/x.zen".to_string(),
        "/w/src/x.zen",
    );
    config.inject_prelude = true;
    let text = "x = 1\nload(\"@stdlib/interfaces.zen\", \"Spi\")\nload(\"@stdlib/interfaces.zen\", N = \"Net\")\n";
    let source = parse_ast("/w/src/x.zen", text.to_string()).ok().unwrap();
    let reports = needless_load_reports(&config, &provider, &resolution, &source);
    assert_eq!(reports.len(), 1);
    assert_eq!(reports[0].path, "/w/src/x.zen");
    assert_eq!(
        reports[0].span,
        Some(SourceSpan {
            begin_row: 2,
            begin_col: 0,
            end_row: 2,
            end_col: 41
        })
    );
    assert_eq!(
        reports[0].body,
        "`Net` is available from the @stdlib prelude; remove from this explicit `load()`"
    );
    assert_eq!(reports[0].kind.as_deref(), Some("stdlib.prelude_load"));
}

#[test]
fn the_standard_library_stands_in_two_places() {
    let info = resolution().workspace_info;
    let provider = Files::new(&[]);
    assert!(is_stdlib_source_path("/w/.pcb/stdlib/x.zen", &info, &provider));
    assert!(is_stdlib_source_path("/w/src/../stdlib/x.zen", &info, &provider));
    assert!(!is_stdlib_source_path("/w/src/x.zen", &info, &provider));
}

#[test]
fn a_symbol_library_is_a_file_or_a_directory() {
    let resolution = resolution();
    let c = EvalContextConfig::new().place_at(
        &resolution,
        "/w/src/x.zen".to_string(),
        "/w/src/x.zen",
    );
    let find = |files: &Files, library: &str| {
        resolve_symbol_library_path(library, &c, files, &resolution, "/w/src/x.zen")
    };
    let both = Files::new(&["/w/src/R.kicad_sym", "/w/src/R.kicad_symdir"]);
    assert_eq!(find(&both, "./R.kicad_sym").ok().unwrap(), "/w/src/R.kicad_sym");
    let split = Files::new(&["/w/src/R.kicad_symdir"]);
    assert_eq!(find(&split, "./R.kicad_sym").ok().unwrap(), "/w/src/R.kicad_symdir");
    let neither = Files::new(&[]);
    match find(&neither, "./R.kicad_sym") {
        Err(e) => assert!(e.message().starts_with("Failed to resolve library path: ")),
        Ok(_) => panic!("there is no library"),
    }
}

#[test]
fn a_source_is_read_once() {
    let mut context = EvalContext::new(SortedMap::new());
    context.keep_source(3);
    assert!(context.session.source_cache.entries.is_empty());
    context.config.source_path = Some("/w/x.zen".to_string());
    assert!(matches!(context.plan_source(), SourcePlan::Read));
    context.keep_source(5);
    assert!(matches!(context.plan_source(), SourcePlan::Cached(5)));
    context.config.source_path = Some("/w/y.zen".to_string());
    assert!(matches!(context.plan_source(), SourcePlan::Read));
}

#[test]
fn an_unnamed_net_is_found() {
    let net = |kind: &str, awaits_name: bool| EvaluatedNet {
        kind: kind.to_string(),
        awaits_name,
    };
    assert!(has_unnamed_net(&vec![net("Net", false), net("Power", true)]));
    assert!(!has_unnamed_net(&vec![net("Net", false), net("NotConnected", true)]));
}

#[test]
fn load_paths_are_resolved() {
    let resolution = resolution();
    let provider = Files::new(&["/w/src/m.zen", "/cache/dep/lib/a.zen", "/w/.pcb/stdlib/io.zen"]);
    let c = EvalContextConfig::new().place_at(
        &resolution,
        "/w/src/x.zen".to_string(),
        "/w/src/x.zen",
    );
    assert_eq!(
        c.active_root_package.as_deref(),
        Some("github.com/acme/root")
    );
    let resolve = |path: &str| c.resolve_path(&provider, &resolution, path, "/w/src/x.zen");
    assert_eq!(resolve("./m.zen").ok().as_deref(), Some("/w/src/m.zen"));
    assert_eq!(
        resolve("github.com/acme/dep/lib/a.zen").ok().as_deref(),
        Some("/cache/dep/lib/a.zen")
    );
    assert_eq!(
        resolve("@stdlib/io.zen").ok().as_deref(),
        Some("/w/.pcb/stdlib/io.zen")
    );
    assert!(resolve("./missing.zen").is_err());
    assert!(resolve("github.com/other/dep/a.zen").is_err());
    assert!(InstancePath {
        segments: Vec::new()
    }
    .starts_with(&c.tree_path));
}

#[test]
fn paths_are_placed_by_package() {
    let resolution = resolution();
    let c = EvalContextConfig::new().place_at(
        &resolution,
        "/w/src/x.zen".to_string(),
        "/w/src/x.zen",
    );
    let answers = |target: &str, target_root: &str| PathAnswers {
        target: target.to_string(),
        root: "/w".to_string(),
        target_root: target_root.to_string(),
        file_root: "/w".to_string(),
        workspace_root: "/w".to_string(),
        current: "/w/src/x.zen".to_string(),
        target_file: target.to_string(),
    };
    let place = |file: &str, path: &str, target: &str, target_root: &str| {
        c.place_path(&resolution, file, path, &answers(target, target_root))
    };
    match place("/w/src/x.zen", "./m.zen", "/w/src/m.zen", "/w") {
        Ok(Placement::Here { path }) => assert_eq!(path, "/w/src/m.zen"),
        _ => panic!("not in the package"),
    }
    match place("/w/src/x.zen", "../../dep/a.zen", "/dep/a.zen", "") {
        Ok(Placement::Elsewhere { url }) => assert_eq!(url, "github.com/acme/dep/a.zen"),
        _ => panic!("not in another package"),
    }
    let message = |r: Result<Placement, pcb_zen_core::lang::eval::EvalError>| match r {
        Ok(_) => String::new(),
        Err(e) => e.message,
    };
    assert_eq!(
        message(place("/w/src/x.zen", "./M.zen", "/w/src/m.zen", "/w")),
        "Case mismatch: expected 'M.zen', found 'm.zen'"
    );
    assert_eq!(
        message(place(
            "/w/src/x.zen",
            "../../../../../a.zen",
            "/a.zen",
            ""
        )),
        "Relative path escapes beyond package root: 'github.com/acme/root/src/../../../../../a.zen'"
    );
    assert_eq!(
        message(place("/v/x.zen", "./m.zen", "/v/m.zen", "")),
        "Internal error: current file not in any package: /v/x.zen"
    );
}

#[test]
fn paths_into_other_packages_go_by_url() {
    let resolution = resolution();
    let provider = Files::new(&["/cache/dep/a.zen"]);
    let c = EvalContextConfig::new().place_at(
        &resolution,
        "/w/src/x.zen".to_string(),
        "/w/src/x.zen",
    );
    let resolve = |path: &str| c.resolve_path(&provider, &resolution, path, "/w/src/x.zen");
    assert_eq!(
        resolve("../../dep/a.zen").ok().as_deref(),
        Some("/cache/dep/a.zen")
    );
    let message = |path: &str| match resolve(path) {
        Ok(_) => String::new(),
        Err(e) => e.message,
    };
    assert_eq!(
        message("../../dep/b.zen"),
        "File not found: b.zen (resolved to: /cache/dep/b.zen, dep root: /cache/dep)"
    );
    assert_eq!(
        message("../../other/b.zen"),
        "No declared dependency matches 'github.com/acme/other/b.zen'\n  Add a dependency to [dependencies] in pcb.toml that covers this path"
    );
}

#[test]
fn layout_paths_are_replaced_in_place() {
    let mut instances = SortedMap::new();
    for (name, path) in [("a", "layout/a"), ("b", "package://b/layout"), ("c", "layout/c")] {
        let mut attributes = SortedMap::new();
        attributes.insert("layout_path".to_string(), make_text(path));
        instances.insert(
            InstancePath {
                segments: vec![name.to_string()],
            },
            Instance::new(InstanceKind::Module, "/w/x.zen", "x", attributes),
        );
    }
    let reference = |s: &str| Some(s.to_string());
    resolve_layout_paths(
        &mut instances,
        &vec![reference("package://a/layout"), reference("package://x"), None],
    );
    let shown: Vec<Option<String>> = (0..3)
        .map(|i| {
            let key = "layout_path".to_string();
            match instances.value_at(i).attributes.get(&key) {
                Some(AttributeValue::One(Scalar::Text(t))) => Some(t.clone()),
                _ => None,
            }
        })
        .collect();
    assert_eq!(
        shown,
        [
            reference("package://a/layout"),
            reference("package://b/layout"),
            reference("layout/c"),
        ]
    );
}

#[test]
fn signatures_show_what_has_a_form() {
    let mut store = Store::new();
    let q = store.allocate(Item::Quantity {
        type_label: "Voltage".to_string(),
        shown: "3.3V".to_string(),
        repr: "Voltage(3.3V)".to_string(),
    });
    let n = store.allocate(Item::Int(3));
    let opaque = store.allocate(Item::Int(4));
    let param = ModuleParam {
        name: "v".to_string(),
        type_value: q,
        optional: true,
        is_config: true,
        help: Some("a voltage".to_string()),
        direction: None,
        default_value: Some(opaque),
        actual_value: None,
        allowed_values: Some(vec![q, opaque, n]),
        allowed_display: None,
        declaration_path: None,
    };
    let signature = evaluated_signature(
        &store,
        &vec![param],
        &vec![Some("four".to_string())],
        &vec![true, true, false],
    );
    assert_eq!(signature.len(), 1);
    let p = &signature[0];
    assert_eq!(p.name, "v");
    assert!(!p.required);
    assert!(p.default_value.is_none());
    assert_eq!(p.default_display.as_deref(), Some("four"));
    assert_eq!(p.help.as_deref(), Some("a voltage"));
    match p.allowed_values.as_ref().unwrap().as_slice() {
        [ParameterForm::Text(s), ParameterForm::Native(h)] => {
            assert_eq!(s, "3.3V");
            assert_eq!(*h, n);
        }
        _ => panic!("two forms"),
    }
}

#[test]
fn files_and_roots_have_urls() {
    let resolution = resolution();
    let provider = Files::new(&[]);
    let active = Some("github.com/acme/root");
    assert_eq!(
        resolution
            .package_url_for_file("/w/src/x.zen", active, &provider)
            .as_deref(),
        Some("github.com/acme/root/src/x.zen")
    );
    assert_eq!(
        resolution.package_url_for_file("/v/x.zen", active, &provider),
        None
    );
    assert_eq!(
        resolution
            .package_url_for_package_root("/w/.pcb/stdlib/x/..", &provider)
            .as_deref(),
        Some("stdlib")
    );
    assert_eq!(
        resolution.package_url_for_package_root("/v", &provider),
        None
    );
    assert_eq!(
        resolution.workspace_package_url_for_path(&provider, "/w/src/x.zen"),
        None
    );
    assert_eq!(resolution.remote_package_versions().len(), 0);
}
