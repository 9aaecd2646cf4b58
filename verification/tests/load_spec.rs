use pcb_zen_core::load_spec::{parts_name_package, LoadSpec};

fn assert_spec(spec: Option<LoadSpec>, expected: Option<LoadSpec>) {
    match (&spec, &expected) {
        (Some(a), Some(b)) => assert!(a.equals(b), "{} is not {}", a.to_text(), b.to_text()),
        (None, None) => {}
        _ => panic!("only one of the two is there"),
    }
}

#[test]
fn test_parse_load_spec_package_no_tag() {
    let spec = LoadSpec::parse("@stdlib/math.zen");
    assert_spec(
        spec,
        Some(LoadSpec::Stdlib {
            tag: None,
            path: "math.zen".to_string(),
        }),
    );
}

#[test]
fn test_parse_load_spec_kicad_symbol_alias() {
    let spec = LoadSpec::parse("@kicad-symbols/Device.kicad_symdir/C.kicad_sym");
    assert_spec(
        spec,
        Some(LoadSpec::Stdlib {
            tag: None,
            path: "kicad-symbols/Device.kicad_symdir/C.kicad_sym".to_string(),
        }),
    );
}

#[test]
fn test_parse_load_spec_kicad_footprint_alias() {
    let spec =
        LoadSpec::parse("@kicad-footprints/Capacitor_SMD.pretty/C_0603_1608Metric.kicad_mod");
    assert_spec(
        spec,
        Some(LoadSpec::Stdlib {
            tag: None,
            path: "kicad-footprints/Capacitor_SMD.pretty/C_0603_1608Metric.kicad_mod".to_string(),
        }),
    );
}

#[test]
fn test_parse_load_spec_github_no_rev() {
    let spec = LoadSpec::parse("github.com/foo/bar/scripts/build.zen");
    assert_spec(
        spec,
        Some(LoadSpec::Url {
            url: "github.com/foo/bar/scripts/build.zen".to_string(),
        }),
    );
}

#[test]
fn test_parse_load_spec_gitlab_nested_path() {
    let spec = LoadSpec::parse("gitlab.com/example/packages/components/Device.kicad_sym");
    assert_spec(
        spec,
        Some(LoadSpec::Url {
            url: "gitlab.com/example/packages/components/Device.kicad_sym".to_string(),
        }),
    );
}

#[test]
fn test_parse_load_spec_domain_like_package_url() {
    let url =
        "code.diode.computer/diode/b/IP0010/components/Diodes_Inc/AP22653W6M7/AP22653W6M7.zen";
    let spec = LoadSpec::parse(url);
    assert_eq!(
        spec.as_ref().and_then(|spec| spec.to_full_url()),
        Some(url.to_string())
    );
    assert_spec(
        spec,
        Some(LoadSpec::Url {
            url: url.to_string(),
        }),
    );
}

#[test]
fn test_parse_load_spec_relative_path() {
    let spec = LoadSpec::parse("./math.zen");
    assert_spec(spec, Some(LoadSpec::local_path("./math.zen".to_string())));
}

#[test]
fn test_parse_load_spec_relative_path_parent() {
    let spec = LoadSpec::parse("../utils/helper.zen");
    assert_spec(
        spec,
        Some(LoadSpec::local_path("../utils/helper.zen".to_string())),
    );
}

#[test]
fn test_parse_load_spec_absolute_path() {
    let spec = LoadSpec::parse("/absolute/path/file.zen");
    assert_spec(
        spec,
        Some(LoadSpec::local_path("/absolute/path/file.zen".to_string())),
    );
}

#[test]
fn test_parse_load_spec_simple_filename() {
    let spec = LoadSpec::parse("math.zen");
    assert_spec(spec, Some(LoadSpec::local_path("math.zen".to_string())));
}

#[test]
fn test_parse_load_spec_package_uri() {
    let spec =
        LoadSpec::parse("package://github.com/diodeinc/registry/reference/TPS54331/TPS54331.zen");
    assert_spec(
        spec,
        Some(LoadSpec::PackageUri {
            uri: "package://github.com/diodeinc/registry/reference/TPS54331/TPS54331.zen"
                .to_string(),
        }),
    );
}

#[test]
fn test_parse_load_spec_package_uri_empty() {
    let spec = LoadSpec::parse("package://");
    assert_spec(spec, None);
}

#[test]
fn local_paths_are_no_urls() {
    // A host without a dot, and a host without a path, name no package.
    assert_spec(
        LoadSpec::parse("modules/usb.zen"),
        Some(LoadSpec::local_path("modules/usb.zen".to_string())),
    );
    assert!(!parts_name_package(&Some((Some("localhost".to_string()), "/x".to_string()))));
    assert!(!parts_name_package(&Some((Some("a.b".to_string()), "/".to_string()))));
    assert!(!parts_name_package(&Some((None, "/x".to_string()))));
    assert!(!parts_name_package(&None));
    assert!(parts_name_package(&Some((Some("a.b".to_string()), "/x".to_string()))));
}

#[test]
fn the_answer_on_urls_decides_between_url_and_path() {
    assert_spec(
        LoadSpec::parse_with("a.b/c.zen", true),
        Some(LoadSpec::Url {
            url: "a.b/c.zen".to_string(),
        }),
    );
    assert_spec(
        LoadSpec::parse_with("a.b/c.zen", false),
        Some(LoadSpec::local_path("a.b/c.zen".to_string())),
    );
}

#[test]
fn a_tag_is_no_part_of_the_package() {
    assert_spec(
        LoadSpec::parse("@stdlib:1.2.3/math.zen"),
        Some(LoadSpec::Stdlib {
            tag: Some("1.2.3".to_string()),
            path: "math.zen".to_string(),
        }),
    );
    let spec = LoadSpec::parse("@acme:v2/a/b.zen").unwrap();
    assert!(spec.equals(&LoadSpec::Package {
        package: "acme".to_string(),
        tag: Some("v2".to_string()),
        path: "a/b.zen".to_string(),
    }));
    assert_eq!(spec.tag(), Some("v2"));
    assert_eq!(spec.to_text(), "@acme:v2/a/b.zen");
    assert_eq!(spec.to_full_url().as_deref(), Some("acme/a/b.zen"));
    assert_eq!(LoadSpec::parse("@acme/a.zen").unwrap().tag(), Some("latest"));
    assert_eq!(LoadSpec::parse("./a.zen").unwrap().tag(), None);
    assert!(LoadSpec::parse("@:v2/a.zen").is_none());
    assert!(!spec.equals(&LoadSpec::parse("@acme/a/b.zen").unwrap()));
}
