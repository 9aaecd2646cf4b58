use pcb_zen_core::config::{
    extract_inline_manifest, parse_pcb_version, pcb_version_from_cargo, Board, DependencySpec, PatchSpec, PcbToml,
    WorkspaceConfig,
};
use pcb_zen_core::discovery::{
    assemble_workspace, begin_discovery, find_single_zen_file, find_workspace_root, is_builtin_excluded_dir,
    find_search_start, locate_root_manifest, place_boards, workspace_search_start, Discovery, FoundManifest, ManifestAt,
    RootManifest,
};
use pcb_zen_core::path::{ancestors, path_join};
use pcb_zen_core::workspace::{
    package_url_covers, validate_workspace_pcb_version, WorkspaceError, WorkspaceInfo,
    WorkspacePackage,
};
use pcb_zen_core::{normalize_path, DirEntry, FileProvider, FileProviderError};
use std::collections::BTreeMap;

/// Files that exist only here.
struct InMemoryFileProvider {
    files: BTreeMap<String, String>,
}

impl InMemoryFileProvider {
    fn new(files: &[(&str, &str)]) -> Self {
        InMemoryFileProvider {
            files: files
                .iter()
                .map(|(k, v)| (k.to_string(), v.to_string()))
                .collect(),
        }
    }
}

impl FileProvider for InMemoryFileProvider {
    fn read_file(&self, path: &str) -> Result<String, FileProviderError> {
        match self.files.get(path) {
            Some(s) => Ok(s.clone()),
            None => Err(FileProviderError::NotFound(path.to_string())),
        }
    }

    fn path_exists(&self, path: &str) -> bool {
        self.files.contains_key(path) || self.is_directory(path)
    }

    fn is_directory(&self, path: &str) -> bool {
        let prefix = format!("{path}/");
        self.files.keys().any(|f| f.starts_with(&prefix))
    }

    fn is_symlink(&self, _path: &str) -> bool {
        false
    }

    fn list_directory(&self, path: &str) -> Result<Vec<String>, FileProviderError> {
        let prefix = format!("{path}/");
        let mut out: Vec<String> = Vec::new();
        for f in self.files.keys() {
            if let Some(rest) = f.strip_prefix(&prefix) {
                let name = rest.split('/').next().unwrap();
                let child = format!("{prefix}{name}");
                if !out.contains(&child) {
                    out.push(child);
                }
            }
        }
        if out.is_empty() {
            return Err(FileProviderError::NotFound(path.to_string()));
        }
        Ok(out)
    }

    fn canonicalize(&self, path: &str) -> Result<String, FileProviderError> {
        Ok(normalize_path(path))
    }
}

fn strings(v: Option<&toml::Value>) -> Vec<String> {
    match v.and_then(|v| v.as_array()) {
        Some(a) => a
            .iter()
            .map(|s| s.as_str().unwrap().to_string())
            .collect(),
        None => Vec::new(),
    }
}

fn text(v: Option<&toml::Value>) -> Option<String> {
    v.and_then(|v| v.as_str()).map(|s| s.to_string())
}

/// The manifest that a text holds, as far as these tests need it.
fn manifest(source: &str) -> Result<PcbToml, String> {
    let table: toml::Table = source.parse().map_err(|e| format!("{e}"))?;
    let mut out = PcbToml::default();
    if let Some(w) = table.get("workspace") {
        let mut workspace = WorkspaceConfig::default();
        workspace.pcb_version = text(w.get("pcb-version"));
        workspace.repository = text(w.get("repository"));
        workspace.exclude = strings(w.get("exclude"));
        workspace.preferred = strings(w.get("preferred"));
        out.workspace = Some(workspace);
    }
    if let Some(b) = table.get("board") {
        out.board = Some(Board {
            name: text(b.get("name")).unwrap(),
            path: text(b.get("path")),
            description: text(b.get("description")).unwrap_or_default(),
        });
    }
    if let Some(d) = table.get("dependencies").and_then(|d| d.as_table()) {
        for (k, v) in d {
            let version = v.as_str().unwrap().to_string();
            out.dependencies
                .direct
                .insert(k.clone(), DependencySpec::Version(version));
        }
    }
    if let Some(p) = table.get("patch").and_then(|p| p.as_table()) {
        for (k, v) in p {
            out.patch.insert(
                k.clone(),
                PatchSpec {
                    path: text(v.get("path")),
                    branch: text(v.get("branch")),
                    rev: text(v.get("rev")),
                },
            );
        }
    }
    out.finish_parse().map_err(|e| e.message())
}

fn get_workspace_info(
    provider: &InMemoryFileProvider,
    start: &str,
) -> Result<WorkspaceInfo, String> {
    let dir = find_search_start(provider, start)?;
    let manifests: Vec<ManifestAt> = ancestors(&dir)
        .iter()
        .map(|d| match provider.read_file(&path_join(d, "pcb.toml")) {
            Err(_) => ManifestAt::Absent,
            Ok(s) => match manifest(&s) {
                Ok(m) => ManifestAt::Present(m.is_workspace()),
                Err(e) => ManifestAt::Invalid(e),
            },
        })
        .collect();
    let root = find_workspace_root(&dir, &manifests)?;
    let own = path_join(&root, "pcb.toml");
    let place = locate_root_manifest(provider.path_exists(&own), start);
    let (config, source) = match place {
        RootManifest::File => {
            let s = provider.read_file(&own).map_err(|e| e.message())?;
            (Some(manifest(&s)?), own.clone())
        }
        RootManifest::Inline => {
            let s = provider.read_file(start).map_err(|e| e.message())?;
            let inline = match extract_inline_manifest(&s) {
                Some(m) => Some(manifest(&m)?),
                None => None,
            };
            (inline, start.to_string())
        }
        RootManifest::Nowhere => (None, own.clone()),
    };
    if let Some(c) = &config {
        validate_workspace_pcb_version(c, &source).map_err(|e| e.message())?;
    }
    let begun = begin_discovery(root.clone(), config.as_ref(), place).map_err(|e| e.message())?;
    let mut search = match begun {
        Some(s) => s,
        None => {
            return Ok(assemble_workspace(
                root,
                String::new(),
                config,
                Vec::new(),
                Vec::new(),
            ))
        }
    };
    while let Some(dir) = search.next_dir().map(|d| d.to_string()) {
        search.visit(provider.list_directory_entries(&dir));
    }
    let found = search
        .found
        .iter()
        .map(|(dir, rel_path)| FoundManifest {
            dir: dir.clone(),
            rel_path: rel_path.clone(),
            manifest: provider
                .read_file(&path_join(dir, "pcb.toml"))
                .map_err(|e| e.message())
                .and_then(|s| manifest(&s)),
        })
        .collect();
    let mut info = assemble_workspace(root, String::new(), config, found, search.errors);
    let listed = info
        .all_packages()
        .iter()
        .map(|p| {
            let entries = provider.list_directory_entries(&p.dir(&info.root));
            entries.ok().and_then(|e| find_single_zen_file(&e))
        })
        .collect();
    place_boards(&mut info, listed);
    Ok(info)
}

fn package<'a>(info: &'a WorkspaceInfo, url: &str) -> Option<&'a WorkspacePackage> {
    info.packages.get(&url.to_string())
}

#[test]
fn test_package_level_workspace_section_is_discovery_error() {
    let provider = InMemoryFileProvider::new(&[
        (
            "/repo/pcb.toml",
            r#"
[workspace]
pcb-version = "0.4"
"#,
        ),
        (
            "/repo/boards/demo/pcb.toml",
            r#"
[workspace]
pcb-version = "0.4"
"#,
        ),
    ]);

    let info = get_workspace_info(&provider, "/repo").unwrap();
    assert_eq!(info.errors.len(), 1);
    assert!(info.errors[0]
        .error
        .contains("workspace package cannot have a [workspace] section"));
}

#[test]
fn test_package_discovery_ignores_dot_pcb_directories() {
    let provider = InMemoryFileProvider::new(&[
        (
            "/repo/pcb.toml",
            r#"
[workspace]
pcb-version = "0.4"
"#,
        ),
        ("/repo/boards/demo/pcb.toml", "[dependencies]\n"),
        (
            "/repo/boards/demo/.pcb/edit/github.com/example/dep/pcb.toml",
            r#"
[workspace]
pcb-version = "0.4"
"#,
        ),
    ]);

    let info = get_workspace_info(&provider, "/repo").unwrap();
    assert_eq!(info.packages.len(), 1);
    assert!(info.errors.is_empty());
    assert!(package(&info, "boards/demo").is_some());
}

#[test]
fn test_workspace_exclude_prunes_discovery() {
    let provider = InMemoryFileProvider::new(&[
        (
            "/repo/pcb.toml",
            r#"
[workspace]
pcb-version = "0.4"
exclude = ["modules/ignored/**"]
"#,
        ),
        ("/repo/modules/keep/pcb.toml", "[dependencies]\n"),
        ("/repo/modules/ignored/pcb.toml", "[dependencies]\n"),
        (
            "/repo/modules/ignored/nested/pcb.toml",
            "[workspace]\npcb-version = \"0.4\"\n",
        ),
    ]);

    let info = get_workspace_info(&provider, "/repo").unwrap();
    assert!(info.errors.is_empty());
    assert!(package(&info, "modules/keep").is_some());
    assert!(package(&info, "modules/ignored").is_none());
    assert!(package(&info, "modules/ignored/nested").is_none());
}

#[test]
fn test_workspace_discovery_max_depth_is_eight() {
    let provider = InMemoryFileProvider::new(&[
        ("/repo/pcb.toml", "[workspace]\npcb-version = \"0.4\"\n"),
        ("/repo/a/b/c/d/e/f/g/h/pcb.toml", "[dependencies]\n"),
        ("/repo/a/b/c/d/e/f/g/h/i/pcb.toml", "[dependencies]\n"),
    ]);

    let info = get_workspace_info(&provider, "/repo").unwrap();
    assert!(info.errors.is_empty());
    assert!(package(&info, "a/b/c/d/e/f/g/h").is_some());
    assert!(package(&info, "a/b/c/d/e/f/g/h/i").is_none());
}

#[test]
fn test_package_url_for_path_uses_most_specific_package() {
    let provider = InMemoryFileProvider::new(&[
        ("/repo/pcb.toml", "[workspace]\npcb-version = \"0.4\"\n"),
        ("/repo/modules/parent/pcb.toml", "[dependencies]\n"),
        ("/repo/modules/parent/child/pcb.toml", "[dependencies]\n"),
        ("/repo/modules/parent/child/board.zen", ""),
    ]);

    let info = get_workspace_info(&provider, "/repo").unwrap();

    assert_eq!(
        info.package_url_for_path(&provider, "/repo/modules/parent/child/board.zen"),
        Some("modules/parent/child")
    );
    assert_eq!(
        info.package_url_for_path(&provider, "/repo/modules/parent/local.zen"),
        Some("modules/parent")
    );
    assert_eq!(
        info.package_url_for_path(&provider, "/repo/modules/parental/board.zen"),
        None
    );
}

#[test]
fn test_workspace_stdlib_dir_uses_patch_path() {
    let provider = InMemoryFileProvider::new(&[(
        "/repo/pcb.toml",
        r#"
[workspace]
pcb-version = "0.4"

[patch]
stdlib = { path = "third_party/stdlib" }
"#,
    )]);

    let info = get_workspace_info(&provider, "/repo").unwrap();
    assert_eq!(info.workspace_stdlib_dir(), "/repo/third_party/stdlib");
}

#[test]
fn test_workspace_stdlib_dir_ignores_legacy_patch_key() {
    let provider = InMemoryFileProvider::new(&[(
        "/repo/pcb.toml",
        r#"
[workspace]
pcb-version = "0.4"

[patch]
"github.com/diodeinc/stdlib" = { path = "../stdlib-fork" }
"#,
    )]);

    let info = get_workspace_info(&provider, "/repo").unwrap();
    assert_eq!(info.workspace_stdlib_dir(), "/repo/.pcb/stdlib");
}

#[test]
fn test_workspace_preferred_marks_matching_packages() {
    let provider = InMemoryFileProvider::new(&[
        (
            "/repo/pcb.toml",
            r#"
[workspace]
pcb-version = "0.4"
preferred = ["components/preferred-part"]
"#,
        ),
        (
            "/repo/components/preferred-part/pcb.toml",
            r#"
[dependencies]
"github.com/diodeinc/stdlib" = "0.5.11"
"#,
        ),
        (
            "/repo/modules/regular-module/pcb.toml",
            r#"
[dependencies]
"github.com/diodeinc/stdlib" = "0.5.11"
"#,
        ),
    ]);

    let info = get_workspace_info(&provider, "/repo").unwrap();
    assert!(
        package(&info, "components/preferred-part").unwrap().preferred,
        "preferred package should be annotated"
    );
    assert!(
        !package(&info, "modules/regular-module").unwrap().preferred,
        "non-preferred package should not be annotated"
    );
}

#[test]
fn test_workspace_rejects_newer_required_pcb_version() {
    let (major, minor) = parse_pcb_version(&pcb_version_from_cargo()).unwrap();
    let required = format!("{}.{}", major, minor + 1);
    let source = format!("\n[workspace]\npcb-version = \"{}\"\n", required);
    let provider = InMemoryFileProvider::new(&[("/repo/pcb.toml", &source)]);

    let err = match get_workspace_info(&provider, "/repo") {
        Err(e) => e,
        Ok(_) => panic!("expected workspace requiring a newer pcb minor version to fail"),
    };
    assert!(err.contains(&required));
}

#[test]
fn the_root_is_the_nearest_workspace_else_the_nearest_manifest() {
    let provider = InMemoryFileProvider::new(&[
        ("/w/pcb.toml", "[workspace]\n"),
        ("/w/a/pcb.toml", "[dependencies]\n"),
        ("/w/a/b/x.zen", ""),
        ("/v/a/pcb.toml", "[dependencies]\n"),
        ("/v/a/b/x.zen", ""),
        ("/u/x.zen", ""),
        ("/t/pcb.toml", "[workspace"),
        ("/t/x.zen", ""),
    ]);
    assert_eq!(get_workspace_info(&provider, "/w/a/b/x.zen").unwrap().root, "/w");
    assert_eq!(get_workspace_info(&provider, "/v/a/b").unwrap().root, "/v/a");
    assert_eq!(get_workspace_info(&provider, "/u/x.zen").unwrap().root, "/u");
    assert!(get_workspace_info(&provider, "/t/x.zen").is_err());
}

#[test]
fn a_module_may_hold_its_manifest() {
    let provider = InMemoryFileProvider::new(&[
        (
            "/s/x.zen",
            "# ```pcb\n# [workspace]\n# pcb-version = \"0.4\"\n# ```\n",
        ),
        ("/s/sub/pcb.toml", "[dependencies]\n"),
    ]);
    let info = get_workspace_info(&provider, "/s/x.zen").unwrap();
    assert_eq!(info.pcb_version(), Some("0.4"));
    assert_eq!(info.package_count(), 1);
    assert!(package(&info, "workspace").is_some());
}

#[test]
fn packages_get_urls_under_the_repository() {
    let provider = InMemoryFileProvider::new(&[
        (
            "/w/pcb.toml",
            "[workspace]\nrepository = \"github.com/acme/repo\"\n",
        ),
        ("/w/boards/x/pcb.toml", "[board]\nname = \"X\"\n"),
        ("/w/boards/x/X.zen", ""),
        ("/w/modules/m/pcb.toml", "[dependencies]\n"),
    ]);
    let info = get_workspace_info(&provider, "/w").unwrap();
    assert_eq!(info.workspace_base_url().as_deref(), Some("github.com/acme/repo"));
    assert!(package(&info, "github.com/acme/repo/boards/x").is_some());
    assert!(info.is_workspace_namespace_url("github.com/acme/repo/other"));
    assert!(!info.is_workspace_namespace_url("github.com/acme/repository"));
    assert_eq!(
        info.package_url_for_url("github.com/acme/repo/modules/m/a.zen"),
        Some("github.com/acme/repo/modules/m")
    );
    assert_eq!(info.publishable_packages().len(), 1);
    assert_eq!(info.all_packages().len(), info.package_count());
    assert_eq!(
        info.find_board_by_name("X").ok().map(|b| b.name),
        Some("X".to_string())
    );
    assert!(matches!(
        info.find_board_by_name("Y"),
        Err(WorkspaceError::BoardNotFound { .. })
    ));
}

#[test]
fn a_single_module_file_is_found() {
    let file = |path: &str| DirEntry {
        path: path.to_string(),
        is_dir: false,
        is_symlink: false,
    };
    assert_eq!(
        find_single_zen_file(&vec![file("/d/a.zen"), file("/d/readme.md")]).as_deref(),
        Some("a.zen")
    );
    assert_eq!(
        find_single_zen_file(&vec![file("/d/a.zen"), file("/d/b.zen")]),
        None
    );
    assert!(is_builtin_excluded_dir("/w/.pcb"));
    assert!(!is_builtin_excluded_dir("/w/src"));
}

#[test]
fn a_package_covers_what_lies_below_it() {
    assert!(package_url_covers("a/b", "a/b"));
    assert!(package_url_covers("a/b", "a/b/c"));
    assert!(!package_url_covers("a/b", "a/bc"));
}

#[test]
fn directories_that_cannot_be_read_are_errors() {
    let mut search = Discovery::start("/w".to_string(), &Vec::new())
        .ok()
        .unwrap();
    assert_eq!(search.next_dir(), Some("/w"));
    search.visit(Ok(vec![DirEntry {
        path: "/w/a".to_string(),
        is_dir: true,
        is_symlink: false,
    }]));
    assert_eq!(search.next_dir(), Some("/w/a"));
    search.visit(Err(FileProviderError::PermissionDenied("/w/a".to_string())));
    assert_eq!(search.next_dir(), None);
    assert_eq!(search.errors.len(), 1);
    assert_eq!(search.errors[0].path, "/w/a");
}

#[test]
fn patterns_of_a_manifest_must_be_patterns() {
    match Discovery::start("/w".to_string(), &vec!["[".to_string()]) {
        Err(e) => assert!(matches!(e, WorkspaceError::InvalidPattern { .. })),
        Ok(_) => panic!("no pattern"),
    }
}

#[test]
fn a_workspace_root_is_absolute() {
    let absent = |n: usize| (0..n).map(|_| ManifestAt::Absent).collect::<Vec<_>>();
    assert_eq!(
        find_workspace_root("a/b", &absent(ancestors("a/b").len())),
        Err("Cannot search for a workspace from a path that is not absolute: a/b".to_string())
    );
    assert_eq!(
        find_workspace_root("/a/b", &absent(3)),
        Ok("/a/b".to_string())
    );
    let provider = InMemoryFileProvider::new(&[("/a/b/x.zen", "")]);
    assert_eq!(
        find_search_start(&provider, "/a/./b/x.zen"),
        Ok("/a/b".to_string())
    );
    assert_eq!(workspace_search_start("/a/b", true), "/a/b");
}
