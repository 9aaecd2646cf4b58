use pcb_zen_core::diagnostic::{Place, SourceSpan};
use pcb_zen_core::file_extensions::{is_kicad_symbol_file, is_starlark_file};
use pcb_zen_core::glob::{combine_results, expand_patterns, match_any};
use pcb_zen_core::lang::footprint::{
    resolve_file_backed_footprint, validate_footprint_file, validate_footprints, FootprintIssue,
    FootprintRead, FootprintUse,
};
use pcb_zen_core::lang::session::{CacheKey, CacheMap, EvalSession};
use pcb_zen_core::map::{PathKey, SortedMap};
use pcb_zen_core::path::{
    ancestors, extension, file_name, file_stem, parent, path_eq, path_join, path_starts_with,
    split_path, strip_base,
};
use pcb_zen_core::render::{show_entries, Frame};
use pcb_zen_core::schematic::InstancePath;
use pcb_zen_core::stdlib::{include_path, source_candidates, source_matches_target, StdlibFile};
use pcb_zen_core::text::{
    is_before, join, parse_u64, replace_all, rsplit_once, same_ignoring_case, sort_texts,
    split_on, split_once, split_whitespace, to_decimal, trim,
};

fn strings(v: &[&str]) -> Vec<String> {
    v.iter().map(|s| s.to_string()).collect()
}

#[test]
fn patterns_match_paths() {
    let patterns = strings(&["modules/ignored/**", "*.tmp"]);
    assert_eq!(match_any(&patterns, "modules/ignored/x"), Ok(true));
    assert_eq!(match_any(&patterns, "modules/keep"), Ok(false));
    assert_eq!(match_any(&patterns, "a.tmp"), Ok(true));
    assert!(match_any(&strings(&["["]), "a").is_err());
    assert_eq!(match_any(&Vec::new(), "a"), Ok(false));
    assert_eq!(
        expand_patterns(&strings(&["a/**", "b/*", "c"])),
        ["a/**", "a", "b/*", "b", "c"]
    );
}

#[test]
fn the_first_fault_of_a_set_counts() {
    let results = vec![
        Ok(true),
        Err("first".to_string()),
        Err("second".to_string()),
    ];
    assert_eq!(combine_results(&results), Err("first".to_string()));
    assert_eq!(combine_results(&vec![Ok(false), Ok(true)]), Ok(true));
    assert_eq!(combine_results(&vec![Ok(false)]), Ok(false));
}

#[test]
fn files_of_the_standard_library_are_chosen() {
    assert!(include_path("units.zen"));
    assert!(!include_path("test/units_test.zen"));
    let candidates = source_candidates("/opt/tool/bin/pcb");
    assert!(candidates.contains(&"/opt/tool/lib/std".to_string()));
    let file = |path: &str, contents: &[u8]| StdlibFile {
        path: path.to_string(),
        contents: contents.to_vec(),
    };
    let a = vec![file("a", b"1"), file("b", b"2")];
    let same = vec![file("a", b"1"), file("b", b"2")];
    let other = vec![file("a", b"1"), file("b", b"3")];
    assert!(source_matches_target(&a, &same));
    assert!(!source_matches_target(&a, &other));
    assert!(!source_matches_target(&a, &vec![file("a", b"1")]));
}

#[test]
fn file_kinds_are_told_by_extensions() {
    assert!(is_starlark_file(Some("zen")));
    assert!(!is_starlark_file(Some("py")));
    assert!(!is_starlark_file(None));
    assert!(is_kicad_symbol_file(Some("kicad_sym")));
}

#[test]
fn footprints_are_files_or_not() {
    let r = |footprint: &str| resolve_file_backed_footprint(footprint, "/w/x.zen", Some("/r".to_string()));
    assert_eq!(r("R_0603"), None);
    assert_eq!(r("fp/R.kicad_mod").as_deref(), Some("/w/fp/R.kicad_mod"));
    assert_eq!(r("/fp/R.kicad_mod").as_deref(), Some("/fp/R.kicad_mod"));
    assert_eq!(r("package://a/R.kicad_mod").as_deref(), Some("/r"));
    assert!(validate_footprint_file("/w/R.kicad_mod", &FootprintRead::NotFound).is_empty());
    let failed =
        validate_footprint_file("/w/R.kicad_mod", &FootprintRead::Failed("denied".to_string()));
    assert_eq!(
        failed[0].body,
        "Failed to read KiCad footprint for validation: denied"
    );
    assert_eq!(failed[0].kind.as_deref(), Some("footprint.read"));
    assert_eq!(failed[0].path, "/w/R.kicad_mod");
    assert_eq!(failed[0].span, None);
}

#[test]
fn faults_of_footprints_have_their_places() {
    let span = |begin_row: usize, begin_col: usize, end_row: usize, end_col: usize| SourceSpan {
        begin_row,
        begin_col,
        end_row,
        end_col,
    };
    let place = |path: &str| Place {
        path: path.to_string(),
        span: Some(span(5, 0, 9, 1)),
    };
    let issue = |message: &str, bytes: Option<(usize, usize)>| FootprintIssue {
        message: message.to_string(),
        bytes,
    };
    let reports = validate_footprints(&vec![
        FootprintUse {
            component: "R1".to_string(),
            footprint: "a.kicad_mod".to_string(),
            site: place("/w/x.zen"),
            path: "/w/a.kicad_mod".to_string(),
            read: FootprintRead::Valid,
        },
        FootprintUse {
            component: "R2".to_string(),
            footprint: "b.kicad_mod".to_string(),
            site: place("/w/y.zen"),
            path: "/w/b.kicad_mod".to_string(),
            read: FootprintRead::Issues(
                "(a\n (b))".to_string(),
                vec![issue("x", None), issue("y", Some((4, 7)))],
            ),
        },
    ]);
    assert_eq!(reports.len(), 2);
    assert_eq!(
        reports[0].body,
        "Component `R2` uses invalid footprint `b.kicad_mod`"
    );
    assert_eq!(reports[0].path, "/w/y.zen");
    assert_eq!(reports[0].span, Some(span(5, 0, 9, 1)));
    assert_eq!(reports[0].kind.as_deref(), Some("footprint.component"));
    assert_eq!(reports[0].child.as_ref().unwrap().span, None);
    let cause = reports[1].child.as_ref().unwrap();
    assert_eq!(cause.body, "Invalid KiCad footprint: y");
    assert_eq!(cause.path, "/w/b.kicad_mod");
    assert_eq!(cause.span, Some(span(1, 1, 1, 4)));
    assert_eq!(cause.kind.as_deref(), Some("footprint.invalid"));
}

#[test]
fn caches_keep_the_last_value() {
    let key = |path: &str, detail: Option<&str>| CacheKey {
        scope: None,
        path: path.to_string(),
        detail: detail.map(|d| d.to_string()),
    };
    let mut cache = CacheMap::new();
    cache.insert(key("/lib/a.kicad_sym", Some("R")), 1);
    cache.insert(key("/lib/a.kicad_sym", Some("C")), 2);
    cache.insert(key("/lib/./a.kicad_sym", Some("R")), 3);
    assert_eq!(cache.get(&key("/lib/a.kicad_sym", Some("R"))), Some(3));
    assert_eq!(cache.get(&key("/lib/a.kicad_sym", Some("C"))), Some(2));
    cache.insert(key("/lib/dir", Some("R")), 4);
    cache.forget_file("/lib/dir/R.kicad_sym", true);
    assert_eq!(cache.get(&key("/lib/dir", Some("R"))), None);
    cache.forget_file("/lib/a.kicad_sym", false);
    assert!(cache.entries.is_empty());
}

#[test]
fn a_session_forgets_what_it_is_told_to() {
    let mut session = EvalSession::new();
    session.insert_module(
        InstancePath {
            segments: strings(&["usb"]),
        },
        4,
    );
    session.record_module_dependency("/w/x.zen", "/w/m.zen");
    session.record_module_dependency("/w/x.zen", "/w/./m.zen");
    session.record_module_dependency("/w/y.zen", "/w/m.zen");
    assert_eq!(
        session.get_module_dependencies("/w/x.zen"),
        Some(strings(&["/w/m.zen"]))
    );
    session.clear_module_dependencies("/w/x.zen");
    assert!(!session.module_dep_exists("/w/x.zen", "/w/m.zen"));
    assert!(session.module_dep_exists("/w/y.zen", "/w/m.zen"));
    session.prepare_for_root_eval();
    assert!(session.module_tree.is_empty());
}

#[test]
fn paths_have_parts() {
    assert_eq!(split_path("/a/./b//c"), ["/", "a", "b", "c"]);
    assert!(path_eq("/a/b/", "/a/b"));
    assert_eq!(parent("/a/b").as_deref(), Some("/a"));
    assert_eq!(parent("/"), None);
    assert_eq!(parent("a").as_deref(), Some(""));
    assert_eq!(file_name("/a/b.c").as_deref(), Some("b.c"));
    assert_eq!(file_name("/a/..").as_deref(), None);
    assert_eq!(extension("/a/b.tar.gz").as_deref(), Some("gz"));
    assert_eq!(extension("/a/.hidden"), None);
    assert_eq!(file_stem("/a/b.tar.gz").as_deref(), Some("b.tar"));
    assert_eq!(path_join("/a", "b"), "/a/b");
    assert_eq!(path_join("/a", "/b"), "/b");
    assert!(path_starts_with("/a/b", "/a"));
    assert!(!path_starts_with("/ab", "/a"));
    assert_eq!(strip_base("/a/b/c", "/a").as_deref(), Some("b/c"));
    assert_eq!(ancestors("/a/b"), ["/a/b", "/a", "/"]);
}

#[test]
fn texts_are_taken_apart() {
    assert_eq!(split_on("a,b,", ','), ["a", "b", ""]);
    assert_eq!(
        split_once("a=b=c", '='),
        Some(("a".to_string(), "b=c".to_string()))
    );
    assert_eq!(
        rsplit_once("a=b=c", '='),
        Some(("a=b".to_string(), "c".to_string()))
    );
    assert_eq!(split_once("abc", '='), None);
    assert_eq!(trim("\t a b \n"), "a b");
    assert_eq!(split_whitespace(" a  b\tc "), ["a", "b", "c"]);
    assert_eq!(join(&strings(&["a", "b"]), ", "), "a, b");
    assert_eq!(split_on(&join(&strings(&["a", "", "b"]), "/"), '/'), ["a", "", "b"]);
    assert_eq!(parse_u64("18446744073709551615"), Some(u64::MAX));
    assert_eq!(parse_u64("18446744073709551616"), None);
    assert_eq!(parse_u64(""), None);
    assert_eq!(to_decimal(1050), "1050");
    assert_eq!(to_decimal(0), "0");
    assert_eq!(replace_all("aXbX", "X", "--"), "a--b--");
    assert!(same_ignoring_case("AbC", "aBc"));
    assert!(is_before("a", "ab"));
    assert!(!is_before("b", "ab"));
    assert_eq!(sort_texts(&strings(&["b", "a", "b"])), ["a", "b", "b"]);
}

#[test]
fn maps_are_in_order() {
    let mut m: SortedMap<String, u64> = SortedMap::new();
    for (k, v) in [("b", 1), ("a", 2), ("c", 3), ("b", 4)] {
        m.insert(k.to_string(), v);
    }
    assert_eq!(m.len(), 3);
    assert_eq!((m.key_at(0).as_str(), *m.value_at(0)), ("a", 2));
    assert_eq!(m.get(&"b".to_string()), Some(&4));
    m.remove(&"b".to_string());
    assert_eq!(m.get(&"b".to_string()), None);
    assert!(m.contains_key(&"c".to_string()));

    let mut p: SortedMap<PathKey, u64> = SortedMap::new();
    let key = |s: &str| PathKey {
        path: s.to_string(),
    };
    p.insert(key("/a/b"), 1);
    p.insert(key("/a/./b/"), 2);
    assert_eq!(p.len(), 1);
    assert_eq!(p.get(&key("/a/b")), Some(&2));
}

#[test]
fn entries_are_shown_by_name() {
    let frame = Frame {
        before: "<",
        between: "=",
        behind: ">",
    };
    let entries = vec![
        ("b".to_string(), "1".to_string()),
        ("a".to_string(), "2".to_string()),
    ];
    assert_eq!(show_entries(&frame, &entries), ["<a=2>", "<b=1>"]);
}

#[test]
fn the_nearest_library_with_a_manifest_counts() {
    let exe = "/t/1.2.3/a/pcbc";
    let found = |dir: &str| {
        let has: Vec<bool> = pcb_zen_core::stdlib::source_candidates(exe).iter().map(|c| c == dir).collect();
        pcb_zen_core::stdlib::discover_source_from_exe(exe, &has)
    };
    assert_eq!(found("/t/1.2.3/a/lib/std"), Ok("/t/1.2.3/a/lib/std".to_string()));
    assert_eq!(
        found("/elsewhere"),
        Err("could not find stdlib source next to /t/1.2.3/a/pcbc; expected an ancestor containing lib/std/pcb.toml".to_string())
    );
}
