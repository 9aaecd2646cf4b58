use pcb_zen_core::config::{DependencyDetail, DependencySpec, DependencyTable, PcbToml};
use pcb_zen_core::frozen::{
    FrozenPackage, FrozenPackageIdentity, FrozenResolutionMap, FrozenResolutionSet,
    PackageUrlResolution, ResolvedPackageScope,
};
use pcb_zen_core::map::{PathKey, SortedMap};
use pcb_zen_core::resolution::{
    build_resolution_map, closure_requests, collect_package_deps, compatibility_lane,
    parse_lane_qualified_key,
    select_version_for_detail, selected_remote_from_hydrated_manifest,
    selected_remote_from_manifest, semver_family, FrozenDepId, ModuleLine, PackagePathResolver,
    VendoredPathResolver,
};
use pcb_zen_core::resolved::{package_uri, ResolutionResult};
use pcb_zen_core::version::Version;
use pcb_zen_core::workspace::{WorkspaceInfo, WorkspacePackage, LOCAL_WORKSPACE_ROOT_URL};
use pcb_zen_core::STDLIB_MODULE_PATH;

fn key(path: &str) -> PathKey {
    PathKey {
        path: path.to_string(),
    }
}

fn empty_workspace(root: &str) -> WorkspaceInfo {
    WorkspaceInfo {
        root: root.to_string(),
        cache_dir: String::new(),
        config: None,
        packages: SortedMap::new(),
        errors: vec![],
    }
}

fn deps(entries: &[(&str, &str)]) -> SortedMap<String, String> {
    let mut out = SortedMap::new();
    for (k, v) in entries {
        out.insert(k.to_string(), v.to_string());
    }
    out
}

fn frozen_map(packages: Vec<(&str, FrozenPackage)>) -> FrozenResolutionMap {
    let mut map = SortedMap::new();
    for (root, package) in packages {
        map.insert(key(root), package);
    }
    FrozenResolutionMap {
        selected_remote: SortedMap::new(),
        packages: map,
    }
}

fn resolution_set(maps: Vec<(&str, FrozenResolutionMap)>) -> FrozenResolutionSet {
    let mut set = SortedMap::new();
    for (url, map) in maps {
        set.insert(url.to_string(), map);
    }
    set
}

fn shared_package(dep_root: &str) -> FrozenPackage {
    FrozenPackage {
        identity: FrozenPackageIdentity::Remote {
            dep_id: FrozenDepId {
                path: "github.com/acme/shared".into(),
                lane: "v1".into(),
            },
            version: Version::parse("1.0.0").unwrap(),
        },
        deps: deps(&[("github.com/acme/base", dep_root)]),
        parts: Vec::new(),
    }
}

const SHARED_ROOT: &str = "/cache/github.com/acme/shared/1.0.0";

fn two_roots(dep_a: &str, dep_b: &str) -> ResolutionResult {
    ResolutionResult::frozen(
        empty_workspace("/workspace"),
        resolution_set(vec![
            (
                "github.com/acme/root-a",
                frozen_map(vec![(SHARED_ROOT, shared_package(dep_a))]),
            ),
            (
                "github.com/acme/root-b",
                frozen_map(vec![(SHARED_ROOT, shared_package(dep_b))]),
            ),
        ]),
        SortedMap::new(),
    )
}

#[test]
fn resolves_nested_package_url() {
    let nested_root = "/workspace/boards/demo/modules/usb";
    let package = FrozenPackage {
        identity: FrozenPackageIdentity::Workspace("github.com/acme/repo/boards/demo".into()),
        deps: deps(&[("github.com/acme/repo/boards/demo/modules/usb", nested_root)]),
        parts: Vec::new(),
    };
    let scope = ResolvedPackageScope::frozen("/workspace/boards/demo", &package);

    let resolved =
        scope.resolve_package_url("github.com/acme/repo/boards/demo/modules/usb/Usb.zen");

    match resolved {
        Some(PackageUrlResolution::Dependency { dep_url, root }) => {
            assert_eq!(dep_url, "github.com/acme/repo/boards/demo/modules/usb");
            assert_eq!(root, nested_root);
        }
        _ => panic!("expected nested dependency resolution"),
    }

    let resolved = scope.resolve_package_url("github.com/acme/repo/boards/demo/src/Main.zen");

    assert!(matches!(resolved, Some(PackageUrlResolution::OwnPackage)));
}

#[test]
fn package_roots_reflect_frozen_dependency_roots() {
    let dep_root = "/cache/github.com/acme/dep/1.2.3";
    let dep_coord = "github.com/acme/dep@1.2.3";
    let result = ResolutionResult::frozen(
        empty_workspace("/workspace"),
        resolution_set(vec![(
            "github.com/acme/root",
            frozen_map(vec![(
                "/workspace",
                FrozenPackage {
                    identity: FrozenPackageIdentity::Workspace("github.com/acme/root".into()),
                    deps: deps(&[("github.com/acme/dep", dep_root)]),
                    parts: Vec::new(),
                },
            )]),
        )]),
        SortedMap::new(),
    );

    assert_eq!(
        result.package_roots().get(&dep_coord.to_string()),
        Some(&dep_root.to_string())
    );
}

#[test]
fn frozen_root_for_file_uses_frozen_package_roots() {
    let result = ResolutionResult::frozen(
        empty_workspace("/workspace"),
        resolution_set(vec![(
            LOCAL_WORKSPACE_ROOT_URL,
            frozen_map(vec![(
                "/private/workspace",
                FrozenPackage {
                    identity: FrozenPackageIdentity::Workspace(
                        LOCAL_WORKSPACE_ROOT_URL.to_string(),
                    ),
                    deps: SortedMap::new(),
                    parts: Vec::new(),
                },
            )]),
        )]),
        SortedMap::new(),
    );

    assert_eq!(
        result
            .frozen_root_for_file("/private/workspace/Board.zen")
            .map(|(package_url, _)| package_url),
        Some(LOCAL_WORKSPACE_ROOT_URL)
    );
}

#[test]
fn frozen_scope_cache_key_is_package_local() {
    let base = "/cache/github.com/acme/base/1.0.0";
    let resolution = two_roots(base, base);
    let file = format!("{SHARED_ROOT}/lib.zen");

    let a = resolution
        .load_cache_scope_key_for_file(&file, Some("github.com/acme/root-a"))
        .unwrap();
    let b = resolution
        .load_cache_scope_key_for_file(&file, Some("github.com/acme/root-b"))
        .unwrap();
    assert!(a.equals(&b));
}

#[test]
fn frozen_scope_cache_key_changes_with_package_deps() {
    let resolution = two_roots(
        "/cache/github.com/acme/base/1.0.0",
        "/cache/github.com/acme/base/2.0.0",
    );
    let file = format!("{SHARED_ROOT}/lib.zen");

    let a = resolution
        .load_cache_scope_key_for_file(&file, Some("github.com/acme/root-a"))
        .unwrap();
    let b = resolution
        .load_cache_scope_key_for_file(&file, Some("github.com/acme/root-b"))
        .unwrap();
    assert!(!a.equals(&b));
}

#[test]
fn frozen_scope_requires_active_root_for_shared_package() {
    let resolution = two_roots(
        "/cache/github.com/acme/base/1.0.0",
        "/cache/github.com/acme/base/2.0.0",
    );

    assert!(resolution
        .load_cache_scope_key_for_file(&format!("{SHARED_ROOT}/lib.zen"), None)
        .is_none());
}

#[test]
fn test_format_package_uri_cache_rewrite() {
    let workspace_root = "/workspace";
    let mut workspace = empty_workspace(workspace_root);
    workspace.cache_dir = "/Users/test/.pcb/cache".to_string();

    let result = ResolutionResult::frozen(workspace, SortedMap::new(), SortedMap::new());

    let abs = format!("{workspace_root}/.pcb/{STDLIB_MODULE_PATH}/test.kicad_mod");
    let uri = result.format_package_uri(&abs);
    assert_eq!(uri.as_deref(), Some("package://stdlib/test.kicad_mod"));
}

#[test]
fn test_package_roots_include_workspace_fallback_for_standalone_files() {
    let result = ResolutionResult::frozen(
        empty_workspace("/workspace"),
        SortedMap::new(),
        SortedMap::new(),
    );

    let abs = "/workspace/lib.kicad_sym";
    let uri = result.format_package_uri(abs);
    assert_eq!(uri.as_deref(), Some("package://workspace/lib.kicad_sym"));
    assert_eq!(
        result.resolve_package_uri(uri.as_deref().unwrap()).ok(),
        Some(abs.to_string())
    );
}

#[test]
fn test_rev_dep_uses_selected_path() {
    struct RecordingResolver {
        expected_version: String,
        resolved_path: String,
        closure: SortedMap<ModuleLine, Version>,
    }

    impl PackagePathResolver for RecordingResolver {
        fn resolve_package(&self, module: &str, version: &str) -> Option<String> {
            if module == "github.com/diodeinc/registry/modules/CastellatedHoles"
                && version == self.expected_version
            {
                Some(self.resolved_path.clone())
            } else {
                None
            }
        }

        fn selected_versions(&self) -> &SortedMap<ModuleLine, Version> {
            &self.closure
        }
    }

    let workspace_root = "/workspace";
    let package_root = format!("{workspace_root}/boards/IP0003");
    let dep_url = "github.com/diodeinc/registry/modules/CastellatedHoles".to_string();
    let stable_version = Version::parse("0.3.1").unwrap();
    let pseudo_version =
        Version::parse("0.4.3-0.20260318022845-ef7e97a27f6e57783bfbeece051aa2d81a365ace").unwrap();
    let resolved_path = format!("/cache/{}/{}", dep_url, pseudo_version.to_text());

    let mut direct = SortedMap::new();
    direct.insert(
        dep_url.clone(),
        DependencySpec::Detailed(DependencyDetail {
            version: None,
            branch: Some("diode/boards/IP0003".into()),
            rev: Some("ef7e97a27f6e57783bfbeece051aa2d81a365ace".into()),
            path: None,
        }),
    );
    let mut config = PcbToml::default();
    config.dependencies = DependencyTable {
        direct,
        indirect: SortedMap::new(),
    };
    let mut workspace = empty_workspace(workspace_root);
    workspace.packages.insert(
        "github.com/dioderobot/diode/boards/IP0003".to_string(),
        WorkspacePackage {
            rel_path: "boards/IP0003".to_string(),
            config,
            version: None,
            published_at: None,
            preferred: false,
            dirty: false,
            entrypoints: Vec::new(),
            symbol_files: Vec::new(),
        },
    );
    let mut closure = SortedMap::new();
    closure.insert(
        ModuleLine::new(dep_url.clone(), &stable_version),
        stable_version,
    );
    closure.insert(
        ModuleLine::new(dep_url.clone(), &pseudo_version),
        pseudo_version.copy(),
    );
    let resolver = RecordingResolver {
        expected_version: pseudo_version.to_text(),
        resolved_path: resolved_path.clone(),
        closure,
    };

    let results = build_resolution_map(&resolver, &workspace, &Vec::new());

    assert_eq!(
        results
            .get(&key(&package_root))
            .and_then(|deps| deps.get(&dep_url))
            .cloned(),
        Some(resolved_path)
    );
}

#[test]
fn test_rev_dep_ignores_non_pseudo_prerelease() {
    let dep = "github.com/diodeinc/registry/modules/CastellatedHoles";
    let prerelease = Version::parse("1.0.0-alpha-1").unwrap();
    let pseudo =
        Version::parse("1.0.0-0.20260319233030-1cdbd386c7adffd8373fbedf7532122b55092108").unwrap();
    let rev = "1cdbd386c7adffd8373fbedf7532122b55092108";
    let mut selected = SortedMap::new();
    selected.insert(ModuleLine::new(dep.to_string(), &prerelease), prerelease);
    selected.insert(ModuleLine::new(dep.to_string(), &pseudo), pseudo);
    let detail = DependencyDetail {
        version: None,
        branch: Some("main".into()),
        rev: Some(rev.into()),
        path: None,
    };

    let version = select_version_for_detail(dep, &detail, &selected).unwrap();
    assert_eq!(
        version,
        "1.0.0-0.20260319233030-1cdbd386c7adffd8373fbedf7532122b55092108"
    );
}

#[test]
fn lanes_and_families_follow_the_first_number() {
    assert_eq!(compatibility_lane(&Version::new(2, 3, 4)), "2");
    assert_eq!(compatibility_lane(&Version::new(0, 3, 4)), "0.3");
    assert_eq!(semver_family(&Version::new(2, 3, 4)), "v2");
    assert_eq!(semver_family(&Version::new(0, 3, 4)), "v0.3");
    let id = FrozenDepId::for_version("github.com/a/b".to_string(), &Version::new(1, 0, 0));
    assert_eq!(id.indirect_key(), "github.com/a/b@1");
    let back = parse_lane_qualified_key("github.com/a/b@1").ok().unwrap();
    assert_eq!((back.path.as_str(), back.lane.as_str()), ("github.com/a/b", "1"));
    assert!(parse_lane_qualified_key("github.com/a/b").is_err());
}

fn manifest_with(direct: &[(&str, &str)], indirect: &[(&str, &str)]) -> PcbToml {
    let mut config = PcbToml::default();
    for (k, v) in direct {
        config
            .dependencies
            .direct
            .insert(k.to_string(), DependencySpec::Version(v.to_string()));
    }
    for (k, v) in indirect {
        config
            .dependencies
            .indirect
            .insert(k.to_string(), DependencySpec::Version(v.to_string()));
    }
    config
}

#[test]
fn selected_versions_come_from_a_manifest() {
    let workspace = empty_workspace("/workspace");
    let config = manifest_with(
        &[("github.com/a/b", "1.2.3")],
        &[("github.com/c/d@2", "2.0.1")],
    );
    let selected = selected_remote_from_manifest(&workspace, &config).ok().unwrap();
    assert_eq!(selected.len(), 2);
    let id = FrozenDepId::new("github.com/c/d".to_string(), "2".to_string());
    assert_eq!(selected.get(&id).unwrap().to_text(), "2.0.1");

    let wrong = manifest_with(&[], &[("github.com/c/d@1", "2.0.1")]);
    assert!(selected_remote_from_manifest(&workspace, &wrong).is_err());
    let unqualified = manifest_with(&[], &[("github.com/c/d", "2.0.1")]);
    assert!(selected_remote_from_manifest(&workspace, &unqualified).is_err());
    assert!(selected_remote_from_hydrated_manifest(&workspace, "github.com/x/y").is_err());
}

#[test]
fn vendored_packages_stand_by_module_and_version() {
    let mut closure = SortedMap::new();
    let version = Version::new(1, 2, 3);
    closure.insert(
        ModuleLine::new("github.com/a/b".to_string(), &version),
        version,
    );
    let requests = closure_requests(&closure);
    assert_eq!(
        requests,
        vec![("github.com/a/b".to_string(), "1.2.3".to_string())]
    );
    let resolver = VendoredPathResolver::from_selected_versions("/vendor".to_string(), closure);
    assert_eq!(
        resolver.resolve_package("github.com/a/b", "1.2.3").as_deref(),
        Some("/vendor/github.com/a/b/1.2.3")
    );
}

#[test]
fn references_to_packages_are_resolved_again() {
    let result = ResolutionResult::frozen(
        empty_workspace("/workspace"),
        resolution_set(vec![(
            "github.com/acme/root",
            frozen_map(vec![(
                "/workspace",
                FrozenPackage {
                    identity: FrozenPackageIdentity::Workspace("github.com/acme/root".into()),
                    deps: deps(&[("github.com/acme/dep", "/cache/github.com/acme/dep/1.2.3")]),
                    parts: Vec::new(),
                },
            )]),
        )]),
        SortedMap::new(),
    );
    let abs = "/cache/github.com/acme/dep/1.2.3/sub/x.kicad_mod";
    let uri = result.format_package_uri(abs).unwrap();
    assert_eq!(uri, package_uri("github.com/acme/dep@1.2.3", "sub/x.kicad_mod"));
    assert_eq!(result.resolve_package_uri(&uri).ok(), Some(abs.to_string()));
    assert!(result.resolve_package_uri("package://github.com/no/such@1.0.0/x").is_err());
}

#[test]
fn known_directories_count_before_found_ones() {
    let workspace = empty_workspace("/w");
    let mut config = manifest_with(
        &[
            ("github.com/acme/a", "1.0.0"),
            ("github.com/acme/b", "1.0.0"),
            ("github.com/acme/c", "1.0.0"),
        ],
        &[],
    );
    config.dependencies.direct.insert(
        "github.com/acme/c".to_string(),
        DependencySpec::Detailed(DependencyDetail {
            version: None,
            branch: None,
            rev: None,
            path: Some("../c".to_string()),
        }),
    );
    let found = vec![Some("/cache/a".to_string()), None, Some("/cache/c".to_string())];
    let dirs = collect_package_deps(&workspace, "/w", &config, &found);
    let dir = |url: &str| dirs.get(&url.to_string()).cloned();
    assert_eq!(dir("github.com/acme/a").as_deref(), Some("/cache/a"));
    assert_eq!(dir("github.com/acme/b"), None);
    assert_eq!(dir("github.com/acme/c").as_deref(), Some("/w/../c"));
    assert_eq!(dirs.len(), 2);
}
