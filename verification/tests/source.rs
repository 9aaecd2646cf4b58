use pcb_zen_core::diagnostic::{Diagnostic, Severity, SourceSpan};
use pcb_zen_core::lang::eval::{EvalContext, EvaluatedNet};
use pcb_zen_core::lang::load::needless_load_reports;
use pcb_zen_core::lang::source::{parse_ast, resolved_span_from_byte_span, NESTING_LIMIT};
use pcb_zen_core::map::SortedMap;
use pcb_zen_core::resolved::ResolutionResult;
use pcb_zen_core::{normalize_path, FileProvider, FileProviderError};
use std::cell::Cell;

const TEXT: &str = "\"\"\"Docs.\"\"\"\nload(\"./a.zen\", \"A\", b = \"B\")\nx = 1\nload(\"./c.zen\", \"C\")\nload(\"./a.zen\", \"D\")\n";

fn span(begin_row: usize, begin_col: usize, end_row: usize, end_col: usize) -> SourceSpan {
    SourceSpan {
        begin_row,
        begin_col,
        end_row,
        end_col,
    }
}

struct OneFile {
    path: String,
    contents: String,
    reads: Cell<usize>,
}

impl FileProvider for OneFile {
    fn read_file(&self, path: &str) -> Result<String, FileProviderError> {
        self.reads.set(self.reads.get() + 1);
        if path == self.path {
            Ok(self.contents.clone())
        } else {
            Err(FileProviderError::NotFound(path.to_string()))
        }
    }

    fn path_exists(&self, path: &str) -> bool {
        path == self.path
    }

    fn is_directory(&self, _path: &str) -> bool {
        false
    }

    fn is_symlink(&self, _path: &str) -> bool {
        false
    }

    fn list_directory(&self, path: &str) -> Result<Vec<String>, FileProviderError> {
        Err(FileProviderError::NotFound(path.to_string()))
    }

    fn canonicalize(&self, path: &str) -> Result<String, FileProviderError> {
        Ok(normalize_path(path))
    }
}

fn one_file(contents: &str) -> OneFile {
    OneFile {
        path: "/w/x.zen".to_string(),
        contents: contents.to_string(),
        reads: Cell::new(0),
    }
}

fn context(path: Option<&str>, contents: Option<&str>) -> EvalContext {
    let mut context = EvalContext::new(SortedMap::new());
    context.config.source_path = path.map(|p| p.to_string());
    context.config.contents = contents.map(|c| c.to_string());
    context
}

#[test]
fn the_loads_of_a_text_are_read() {
    let source = parse_ast("/w/x.zen", TEXT.to_string()).ok().unwrap();
    assert_eq!(source.path, "/w/x.zen");
    assert_eq!(source.contents, TEXT);
    assert_eq!(source.statements.len(), 5);
    assert!(source.statements[0].is_none());
    assert!(source.statements[2].is_none());
    let load = source.statements[1].as_ref().unwrap();
    assert_eq!(load.path, "./a.zen");
    assert_eq!(load.names, ["A", "B"]);
    assert_eq!(load.path_span, span(1, 5, 1, 14));
    assert_eq!(load.span, span(1, 0, 1, 29));
}

#[test]
fn a_text_that_is_no_module_has_a_fault() {
    let fault = parse_ast("/w/x.zen", "x = 1\nload(\n".to_string()).err().unwrap();
    assert!(!fault.message.is_empty());
    assert_eq!(fault.span.map(|s| s.begin_row), Some(2));
    assert!(parse_ast("/w/x.zen", "x = f\"{y}\"\n".to_string()).is_ok());
}

#[test]
fn nesting_has_a_limit() {
    let brackets = |n: usize| format!("x = {}1{}\n", "(".repeat(n), ")".repeat(n));
    let minus = |n: usize| format!("x = {}1\n", "-".repeat(n));
    let sum = |n: usize| format!("x = 1{}\n", " * 1".repeat(n));
    let elifs = |n: usize| format!("if a:\n  x = 1\n{}", "elif a:\n  x = 1\n".repeat(n));
    let lambdas = |n: usize| format!("x = {}1\n", "lambda a, b: ".repeat(n));
    let blocks = |n: usize| {
        let mut text = String::new();
        for depth in 0..n {
            text.push_str(&format!("{}if a:\n", " ".repeat(depth)));
        }
        text.push_str(&format!("{}pass\n", " ".repeat(n)));
        text
    };
    let parses = |text: String| parse_ast("/w/x.zen", text).is_ok();
    assert_eq!(NESTING_LIMIT, 4000);
    assert!(parses(brackets(99)));
    assert!(parses(minus(799)));
    assert!(parses(sum(1998)));
    assert!(parses(elifs(198)));
    assert!(parses(lambdas(199)));
    assert!(parses(blocks(159)));
    let deep = |text: String| parse_ast("/w/x.zen", text).err().unwrap().message;
    for text in [
        brackets(100),
        minus(800),
        sum(1999),
        elifs(199),
        lambdas(200),
        blocks(160),
        brackets(100_000),
    ] {
        assert_eq!(deep(text), "Source is nested too deep");
    }
    let flat: String = (0..5000).map(|i| format!("x{i} = [(1, 2), {{3: 4}}]\n")).collect();
    assert!(parses(flat));
    let list = format!("x = [{}]\n", "(1), ".repeat(5000));
    assert!(parses(list));
}

#[test]
fn bytes_have_rows_and_columns() {
    let text = "a\u{e9}\nb\u{1f600}c\n";
    assert_eq!(resolved_span_from_byte_span(text, 0, 3), span(0, 0, 0, 2));
    assert_eq!(resolved_span_from_byte_span(text, 4, 9), span(1, 0, 1, 2));
    assert_eq!(resolved_span_from_byte_span(text, 9, 11), span(1, 2, 2, 0));
}

#[test]
fn a_load_is_found_in_the_text() {
    let loads = context(Some("/w/x.zen"), Some(TEXT));
    assert_eq!(loads.resolve_load_span("./a.zen"), Some(span(1, 5, 1, 14)));
    assert_eq!(loads.resolve_load_span("./c.zen"), Some(span(3, 5, 3, 14)));
    assert_eq!(loads.resolve_load_span("./d.zen"), None);
    assert_eq!(context(Some("/w/x.zen"), None).resolve_load_span("./a.zen"), None);
    assert_eq!(context(None, Some(TEXT)).resolve_load_span("./a.zen"), None);
    assert_eq!(
        context(Some("/w/x.zen"), Some("load(")).resolve_load_span("./a.zen"),
        None
    );
}

#[test]
fn reports_on_a_load_stand_at_the_load() {
    let warnings = vec![Diagnostic::new("/w/c.zen", Severity::Warning, "odd".to_string())];
    let mut loads = context(Some("/w/x.zen"), Some(TEXT));
    loads.reuse_load("./c.zen", None, &Vec::new());
    assert!(loads.load_diagnostics.is_empty());
    loads.reuse_load("./c.zen", None, &warnings);
    loads.reuse_load("./c.zen", Some(span(7, 0, 7, 1)), &warnings);
    assert_eq!(loads.load_diagnostics[0].path, "/w/x.zen");
    assert_eq!(loads.load_diagnostics[0].span, Some(span(3, 5, 3, 14)));
    assert_eq!(loads.load_diagnostics[0].body, "Warning from `./c.zen`");
    assert_eq!(loads.load_diagnostics[1].span, Some(span(7, 0, 7, 1)));

    let mut loads = context(Some("/w/x.zen"), Some(TEXT));
    let outcome = loads.conclude_load("./c.zen", None, &warnings, false);
    assert_eq!(outcome.warnings.len(), 1);
    let failure = outcome.failure.unwrap();
    assert_eq!(failure.span, Some(span(3, 5, 3, 14)));
    assert_eq!(failure.body, "Failed to load module `./c.zen`");
    assert_eq!(loads.load_diagnostics.len(), 1);
    let outcome = loads.conclude_load("./c.zen", None, &Vec::new(), true);
    assert!(outcome.failure.is_none());
    assert_eq!(loads.load_diagnostics.len(), 1);
}

#[test]
fn a_file_is_parsed_once() {
    let provider = one_file(TEXT);
    let resolution = ResolutionResult::empty();
    let mut sources = Vec::new();
    let mut module = context(Some("/w/x.zen"), None);
    let first = module.parsed_source(&provider, &mut sources).ok().unwrap();
    let second = module.parsed_source(&provider, &mut sources).ok().unwrap();
    assert_eq!((first, second), (0, 0));
    assert_eq!(provider.reads.get(), 1);
    assert_eq!(sources[0].contents, TEXT);
    let begun = module.begin_eval(&provider, &resolution, &mut sources);
    assert_eq!(begun.ok(), Some(0));
    assert_eq!(module.config.contents.as_deref(), Some(TEXT));
    let given = module.parsed_source(&provider, &mut sources);
    assert_eq!(given.ok(), Some(1));
    assert_eq!(provider.reads.get(), 1);
}

#[test]
fn code_that_is_not_there_is_reported() {
    let provider = one_file("load(");
    let mut sources = Vec::new();
    let mut nowhere = context(None, None);
    let report = nowhere.parsed_source(&provider, &mut sources).err().unwrap();
    assert_eq!(report.body, "source_path not set on Context before eval()");
    let mut missing = context(Some("/w/y.zen"), None);
    let report = missing.parsed_source(&provider, &mut sources).err().unwrap();
    assert_eq!(report.body, "Failed to read file: File not found: /w/y.zen");
    let mut broken = context(Some("/w/x.zen"), None);
    let report = broken.parsed_source(&provider, &mut sources).err().unwrap();
    assert_eq!(report.path, "/w/x.zen");
    assert!(report.span.is_some());
    assert!(sources.is_empty());
    assert!(broken.session.source_cache.entries.is_empty());
}

#[test]
fn nothing_is_needless_without_the_prelude() {
    let source = parse_ast("/w/x.zen", TEXT.to_string()).ok().unwrap();
    let mut module = context(Some("/w/x.zen"), None);
    module.config.inject_prelude = false;
    let reports = needless_load_reports(
        &module.config,
        &one_file(TEXT),
        &ResolutionResult::empty(),
        &source,
    );
    assert!(reports.is_empty());
}

#[test]
fn modules_inside_are_made_when_all_is_well() {
    let config = context(Some("/w/x.zen"), None).config;
    let named = vec![EvaluatedNet {
        kind: "Net".to_string(),
        awaits_name: false,
    }];
    let unnamed = vec![EvaluatedNet {
        kind: "Net".to_string(),
        awaits_name: true,
    }];
    assert!(config.goes_on(false, &named));
    assert!(!config.goes_on(true, &named));
    assert!(!config.goes_on(false, &unnamed));
    let child = config.child_for_pending("a");
    assert!(!child.goes_on(false, &named));
    assert!(child.set_build_circuit(true).goes_on(false, &named));
}
