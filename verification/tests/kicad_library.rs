use pcb_zen_core::kicad_library::{
    default_kicad_library, effective_kicad_library_for_repo, kicad_dependency_aliases,
    kicad_http_mirror_template_for_repo, kicad_parts_url_for_symbol_repo,
    match_kicad_library_for_symbol_repo, match_kicad_managed_repo, package_coord_for_path,
    render_repo_url_template, validate_kicad_library_config, KicadLibraryConfig, KicadRepoMatch,
    KicadSymbolLibraryMatch,
};
use pcb_zen_core::map::SortedMap;
use pcb_zen_core::version::Version;

fn default_entry() -> KicadLibraryConfig {
    default_kicad_library()
        .into_iter()
        .next()
        .expect("default kicad library")
}

#[test]
fn test_kicad_dependency_aliases_includes_symbols_and_footprints() {
    let aliases = kicad_dependency_aliases(&vec![default_entry()]);
    assert_eq!(
        aliases.get(&"kicad-symbols".to_string()),
        Some(&"gitlab.com/kicad/libraries/kicad-symbols".to_string())
    );
    assert_eq!(
        aliases.get(&"kicad-footprints".to_string()),
        Some(&"gitlab.com/kicad/libraries/kicad-footprints".to_string())
    );
}

#[test]
fn test_render_repo_url_template() {
    let url = render_repo_url_template(
        "https://mirror.example/{major}/{repo}/{repo_name}/{version}",
        "gitlab.com/kicad/libraries/kicad-symbols",
        &Version::new(9, 0, 3),
    )
    .ok()
    .unwrap();
    assert_eq!(
        url,
        "https://mirror.example/9/gitlab.com/kicad/libraries/kicad-symbols/kicad-symbols/9.0.3"
    );
}

#[test]
fn test_symbol_repo_can_match_default_kicad10_entry() {
    let entries = default_kicad_library();
    let symbol_repo = "gitlab.com/kicad/libraries/kicad-symbols";

    let matched =
        match_kicad_library_for_symbol_repo(&entries, symbol_repo, &Version::new(10, 0, 0));

    let KicadSymbolLibraryMatch::Matched(entry) = matched else {
        panic!("expected default KiCad 10 match");
    };
    assert!(entry.version.equals(&Version::new(10, 0, 0)));
    assert_eq!(
        entry
            .models
            .get(&"KICAD10_3DMODEL_DIR".to_string())
            .map(String::as_str),
        Some("gitlab.com/kicad/libraries/kicad-packages3D")
    );
}

#[test]
fn test_default_kicad10_entry_has_no_http_mirror() {
    let entries = default_kicad_library();

    let template = kicad_http_mirror_template_for_repo(
        &entries,
        "gitlab.com/kicad/libraries/kicad-symbols",
        &Version::new(10, 0, 0),
    )
    .ok()
    .unwrap();

    assert!(template.is_none());
}

#[test]
fn repositories_are_matched_by_their_major_version() {
    let entries = default_kicad_library();
    let repo = "gitlab.com/kicad/libraries/kicad-symbols";
    assert!(matches!(
        match_kicad_managed_repo(&entries, repo, &Version::new(10, 0, 5)),
        KicadRepoMatch::SelectorMatched
    ));
    assert!(matches!(
        match_kicad_managed_repo(&entries, repo, &Version::new(99, 0, 0)),
        KicadRepoMatch::SelectorMismatch
    ));
    assert!(matches!(
        match_kicad_managed_repo(&entries, "github.com/acme/dep", &Version::new(10, 0, 0)),
        KicadRepoMatch::NotManaged
    ));
    assert!(matches!(
        match_kicad_library_for_symbol_repo(&entries, "github.com/acme/dep", &Version::new(1, 0, 0)),
        KicadSymbolLibraryMatch::NotSymbolRepo
    ));
    assert!(effective_kicad_library_for_repo(&entries, repo, &Version::new(10, 0, 0)).is_some());
    assert!(kicad_http_mirror_template_for_repo(&entries, repo, &Version::new(99, 0, 0)).is_err());
}

#[test]
fn a_repository_needs_a_name() {
    let r = render_repo_url_template(
        "https://mirror.example/{repo_name}",
        "gitlab.com/kicad/",
        &Version::new(9, 0, 3),
    );
    assert_eq!(
        r.err().unwrap().message(),
        "Invalid module path: gitlab.com/kicad/"
    );
}

#[test]
fn a_parts_index_stands_beside_the_library() {
    let mut entry = default_entry();
    entry.parts = Some("https://parts.example/{major}/parts.json".to_string());
    let version = entry.version.copy();
    let url = kicad_parts_url_for_symbol_repo(
        &vec![entry],
        "gitlab.com/kicad/libraries/kicad-symbols",
        &version,
    );
    let url = url.ok().unwrap();
    assert!(url.is_some());
}

#[test]
fn a_library_must_be_complete() {
    assert!(validate_kicad_library_config(&default_entry()).is_ok());
}

#[test]
fn the_package_of_a_path_is_the_most_specific_one() {
    let mut roots: SortedMap<String, String> = SortedMap::new();
    roots.insert("github.com/acme/a@1.0.0".to_string(), "/cache/a".to_string());
    roots.insert(
        "github.com/acme/a/b@2.0.0".to_string(),
        "/cache/a/b".to_string(),
    );
    let found = package_coord_for_path("/cache/a/b/x.zen", &roots);
    assert_eq!(
        found.map(|f| f.0),
        Some("github.com/acme/a/b".to_string())
    );
}
