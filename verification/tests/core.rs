use pcb_zen_core::{
    complete_version, is_kicad_library_dependency_key, is_kicad_library_package,
    is_stdlib_module_path, normalize_path, normalize_url_path, parse_relaxed_version,
    validate_path_case_with_canonical, workspace_stdlib_root, PathError, ResolveContext,
};
use pcb_zen_core::load_spec::LoadSpec;
use pcb_zen_core::version::Version;

#[test]
fn parses_relaxed_dependency_versions() {
    for (raw, version) in [
        ("^v1.2.3", Version::new(1, 2, 3)),
        ("1.2.3-beta.1", Version::parse("1.2.3-beta.1").unwrap()),
        ("2", Version::new(2, 0, 0)),
        ("2.5", Version::new(2, 5, 0)),
    ] {
        assert!(parse_relaxed_version(raw).unwrap().equals(&version));
    }
    assert!(parse_relaxed_version("abc").is_none());
    assert!(parse_relaxed_version("1.2.3.4").is_none());
}

#[test]
fn versions_have_all_their_parts() {
    let v = Version::parse("1.2.3-beta.1+build.7").unwrap();
    assert_eq!((v.major, v.minor, v.patch), (1, 2, 3));
    assert_eq!(v.pre, "beta.1");
    assert_eq!(v.build, "build.7");
    assert_eq!(v.to_text(), "1.2.3-beta.1+build.7");
    assert!(Version::parse("1.2").is_none());
}

#[test]
fn versions_are_in_order() {
    let texts = [
        "0.9.9",
        "1.0.0-alpha",
        "1.0.0-alpha.1",
        "1.0.0-alpha.beta",
        "1.0.0-beta.2",
        "1.0.0-beta.11",
        "1.0.0",
        "1.0.1",
        "1.2.0",
    ];
    for pair in texts.windows(2) {
        let a = Version::parse(pair[0]).unwrap();
        let b = Version::parse(pair[1]).unwrap();
        assert!(a.is_before(&b), "{} before {}", pair[0], pair[1]);
        assert!(!b.is_before(&a));
        assert!(!a.is_before(&a));
    }
}

#[test]
fn shorthands_are_completed_only_where_needed() {
    let given = Version::new(3, 2, 1);
    assert_eq!(
        complete_version("7", Some(given)).unwrap().to_text(),
        "3.2.1"
    );
    assert_eq!(complete_version("7", None).unwrap().to_text(), "7.0.0");
    assert_eq!(complete_version("7.1", None).unwrap().to_text(), "7.1.0");
    assert!(complete_version("7.x", None).is_none());
}

#[test]
fn test_normalize_url_path() {
    assert_eq!(
        normalize_url_path("github.com/org/repo/boards/DM0002/../../modules/Led/Led.zen")
            .ok()
            .unwrap(),
        "github.com/org/repo/modules/Led/Led.zen"
    );
    assert_eq!(
        normalize_url_path("boards/DM0002/../../modules/Led/Led.zen")
            .ok()
            .unwrap(),
        "modules/Led/Led.zen"
    );
    assert_eq!(
        normalize_url_path("github.com/org/repo/src/./utils.zen")
            .ok()
            .unwrap(),
        "github.com/org/repo/src/utils.zen"
    );
}

#[test]
fn test_normalize_url_path_underflow() {
    assert!(normalize_url_path("a/../../b.zen").is_err());
    assert!(normalize_url_path("../../x.zen").is_err());
}

#[test]
fn an_escaping_path_names_itself() {
    match normalize_url_path("../../x.zen") {
        Err(e) => {
            assert!(matches!(e, PathError::Escapes { .. }));
            assert!(e.message().contains("../../x.zen"));
        }
        Ok(_) => panic!("a path above the root"),
    }
}

#[test]
fn paths_are_normalized() {
    assert_eq!(normalize_path("/a/./b/../c"), "/a/c");
    assert_eq!(normalize_path("a/b/../../c"), "c");
    assert_eq!(normalize_path("/.."), "/..");
    assert_eq!(normalize_path("../a"), "../a");
    assert_eq!(normalize_path("../../x"), "../../x");
    assert_eq!(normalize_path("a/../../../x/./y/.."), "../../x");
    assert_eq!(normalize_path("/../x"), "/../x");
    assert_eq!(normalize_path("/../../x"), "/x");
    assert_eq!(normalize_path("/../../../x"), "/../x");
    assert_eq!(normalize_path("/a/../.."), "/..");
}

#[test]
fn letter_case_must_match_the_disk() {
    assert!(validate_path_case_with_canonical("/w/lib/Foo.zen", "/w/lib/Foo.zen").is_ok());
    match validate_path_case_with_canonical("/w/lib/foo.zen", "/w/lib/Foo.zen") {
        Err(e) => assert!(matches!(e, PathError::CaseMismatch { .. })),
        Ok(()) => panic!("the case differs"),
    }
}

#[test]
fn specs_that_come_back_are_a_cycle() {
    let first = LoadSpec::parse("@stdlib/a.zen").unwrap();
    let mut context = ResolveContext::new("/w/x.zen".to_string(), first.copy());
    let second = LoadSpec::parse("github.com/acme/lib/a.zen").unwrap();
    assert!(context.push_spec(second.copy()).is_ok());
    assert!(context.latest_spec().equals(&second));
    assert!(context.original_spec().equals(&first));
    match context.push_spec(first) {
        Err(e) => assert!(matches!(e, PathError::Cycle { .. })),
        Ok(()) => panic!("a cycle"),
    }
}

#[test]
fn special_packages_are_known() {
    assert!(is_stdlib_module_path("stdlib"));
    assert!(!is_stdlib_module_path("stdlib/x"));
    assert!(is_kicad_library_package(
        "gitlab.com/kicad/libraries/kicad-symbols"
    ));
    assert!(!is_kicad_library_package("gitlab.com/kicad/libraries"));
    assert!(is_kicad_library_dependency_key(
        "gitlab.com/kicad/libraries/kicad-symbols@v9"
    ));
    assert_eq!(workspace_stdlib_root("/w"), "/w/.pcb/stdlib");
}

#[test]
fn a_link_to_a_directory_is_no_directory() {
    let entry = |directory: bool, link: bool| {
        let e = pcb_zen_core::DirEntry::seen("/w/a".to_string(), directory, link);
        assert_eq!(e.path, "/w/a");
        (e.is_dir, e.is_symlink)
    };
    assert_eq!(entry(true, false), (true, false));
    assert_eq!(entry(true, true), (false, true));
    assert_eq!(entry(false, false), (false, false));
}
