use pcb_zen_core::config::{
    extract_inline_manifest, parse_pcb_version, pcb_version_from_cargo, pcb_version_is_older,
    split_repo_and_subpath, Board, DependencyDetail, DependencySpec, DependencyTable, PcbToml,
    WorkspaceConfig,
};
use pcb_zen_core::map::SortedMap;

fn with_version(version: Option<&str>) -> PcbToml {
    let mut workspace = WorkspaceConfig::default();
    workspace.pcb_version = version.map(|v| v.to_string());
    let mut config = PcbToml::default();
    config.workspace = Some(workspace);
    config
}

fn board(name: &str) -> Board {
    Board {
        name: name.to_string(),
        path: None,
        description: String::new(),
    }
}

#[test]
fn test_extract_inline_manifest_basic() {
    let zen_content = r#"#!/usr/bin/env pcb build
#
# ```pcb
# [workspace]
# pcb-version = "0.4"
#
# [dependencies]
# ```

load("@stdlib/units.zen", "Voltage")
"#;

    let result = extract_inline_manifest(zen_content);
    assert!(result.is_some());
    let toml = result.unwrap();
    assert!(toml.contains("[workspace]"));
    assert!(toml.contains("pcb-version = \"0.4\""));
    assert!(toml.contains("[dependencies]"));
}

#[test]
fn test_extract_inline_manifest_no_shebang() {
    let zen_content = r#"# ```pcb
# [workspace]
# pcb-version = "0.4"
# ```

load("foo.zen", "Bar")
"#;

    let result = extract_inline_manifest(zen_content);
    assert!(result.is_some());
}

#[test]
fn test_extract_inline_manifest_missing() {
    let zen_content = r#"# Just a regular comment
load("foo.zen", "Bar")
"#;

    let result = extract_inline_manifest(zen_content);
    assert!(result.is_none());
}

#[test]
fn test_extract_inline_manifest_unclosed() {
    let zen_content = r#"# ```pcb
# [workspace]
# pcb-version = "0.4"
# Missing closing marker

load("foo.zen", "Bar")
"#;

    let result = extract_inline_manifest(zen_content);
    // Unclosed block should return None
    assert!(result.is_none());
}

#[test]
fn inline_manifest_text_is_exact() {
    let content = "# ```pcb\n# [workspace]\n#x = 1\n\n# ```\nrest\n";
    assert_eq!(
        extract_inline_manifest(content),
        Some("[workspace]\nx = 1".to_string())
    );
}

#[test]
fn a_repository_is_whole() {
    for module in ["github.com/user/repo/a/b", "github.com/user", "gitlab.com/a/b/c/d"] {
        let (repo, _) = split_repo_and_subpath(module);
        assert_eq!(split_repo_and_subpath(repo), (repo, ""));
    }
}

#[test]
fn test_split_repo_and_subpath() {
    assert_eq!(
        split_repo_and_subpath("github.com/user/repo"),
        ("github.com/user/repo", "")
    );
    assert_eq!(
        split_repo_and_subpath("github.com/user/repo/pkg"),
        ("github.com/user/repo", "pkg")
    );
    assert_eq!(
        split_repo_and_subpath("github.com/user/repo/a/b/c"),
        ("github.com/user/repo", "a/b/c")
    );
    // Non-github repos return full path as repo_url
    assert_eq!(
        split_repo_and_subpath("gitlab.com/group/project/pkg"),
        ("gitlab.com/group/project/pkg", "")
    );
}

#[test]
fn test_empty_manifest_parses() {
    let config = PcbToml::default().finish_parse().ok().unwrap();
    assert!(config.workspace.is_none());
    assert!(config.board.is_none());
}

#[test]
fn test_workspace_no_pcb_version_parses() {
    let config = with_version(None).finish_parse().ok().unwrap();
    assert!(config.is_workspace());
    assert_eq!(config.workspace.unwrap().pcb_version, None);
}

#[test]
fn test_workspace_old_pcb_version_parses() {
    let config = with_version(Some("0.2")).finish_parse().ok().unwrap();
    assert_eq!(
        config.workspace.unwrap().pcb_version.as_deref(),
        Some("0.2")
    );
}

#[test]
fn test_parse_rejects_patch_pcb_version() {
    let err = with_version(Some("0.4.1")).finish_parse().err().unwrap();
    assert!(err.message().contains("expected \"major.minor\""));
}

#[test]
fn test_v2_workspace_and_board() {
    let mut config = with_version(Some("0.4"));
    config.board = Some(board("RootBoard"));
    let config = config.finish_parse().ok().unwrap();
    assert!(config.is_workspace());
    assert!(config.is_board());
}

#[test]
fn a_board_alone_is_no_workspace() {
    let mut config = PcbToml::default();
    config.board = Some(board("TestBoard"));
    assert!(config.is_board());
    assert!(!config.is_workspace());
}

#[test]
fn parsing_drops_dependencies_on_the_kicad_libraries() {
    let mut config = PcbToml::default();
    for key in [
        "gitlab.com/kicad/libraries/kicad-symbols",
        "github.com/acme/dep",
    ] {
        config.dependencies.direct.insert(
            key.to_string(),
            DependencySpec::Version("1.0.0".to_string()),
        );
    }
    let config = config.finish_parse().ok().unwrap();
    assert_eq!(config.dependencies.direct.len(), 1);
    assert_eq!(config.dependencies.direct.key_at(0), "github.com/acme/dep");
}

#[test]
fn versions_of_the_toolchain_are_series() {
    assert_eq!(parse_pcb_version("0.4"), Some((0, 4)));
    assert_eq!(parse_pcb_version("12.30"), Some((12, 30)));
    assert_eq!(parse_pcb_version("0.4.1"), None);
    assert_eq!(parse_pcb_version("x.4"), None);
    assert_eq!(pcb_version_is_older("0.3", "0.4"), Some(true));
    assert_eq!(pcb_version_is_older("0.10", "0.9"), Some(false));
    assert_eq!(pcb_version_is_older("0.4", "0.4"), Some(false));
    assert_eq!(pcb_version_is_older("0.4", "nonsense"), None);
    assert!(parse_pcb_version(&pcb_version_from_cargo()).is_some());
}

#[test]
fn a_table_is_empty_without_entries() {
    let mut table = DependencyTable {
        direct: SortedMap::new(),
        indirect: SortedMap::new(),
    };
    assert!(table.is_empty());
    table.indirect.insert(
        "github.com/acme/dep@v1".to_string(),
        DependencySpec::Detailed(DependencyDetail {
            version: Some("1.2.3".to_string()),
            branch: None,
            rev: None,
            path: None,
        }),
    );
    assert!(!table.is_empty());
}

#[test]
fn aliases_stand_for_the_only_dependency_of_a_name() {
    let mut config = PcbToml::default();
    for key in [
        "github.com/acme/usb",
        "github.com/acme/common",
        "github.com/other/common",
    ] {
        config.dependencies.direct.insert(
            key.to_string(),
            DependencySpec::Version("1.0.0".to_string()),
        );
    }
    let aliases = config.auto_generated_aliases();
    assert_eq!(
        aliases.get(&"usb".to_string()),
        Some(&"github.com/acme/usb".to_string())
    );
    assert_eq!(aliases.get(&"common".to_string()), None);
}
