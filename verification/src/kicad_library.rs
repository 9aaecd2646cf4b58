//! The KiCad libraries that a workspace uses.

use vstd::prelude::*;

use crate::map::{copy_text_map, find, text_entries, SortedMap};
use crate::path::{components, lies_under, path_starts_with, split_path};
use crate::text::{after_last, before_first, clone_opt, cut_last, first_segment, is_blank};
use crate::text::{is_blank_text, last_segment, opt_text, replace_all, replaced, rsplit_once, same};
use crate::text::texts;
use crate::version::{version_text, Version, VersionParts};

verus! {

/// The file that lists the parts of a symbol library.
pub const KICAD_PARTS_INDEX_FILE: &'static str = "parts.json";

/// The repositories of one release of the KiCad libraries.
pub struct KicadLibraryConfig {
    /// The release; its major version selects the entry.
    pub version: Version,
    /// Repository of the symbols.
    pub symbols: String,
    /// Repository of the footprints.
    pub footprints: String,
    /// Repositories of the 3D models by the variable that footprints refer to them with.
    pub models: SortedMap<String, String>,
    /// Template of the address of the parts list.
    pub parts: Option<String>,
    /// Template of the address of an HTTP mirror.
    pub http_mirror: Option<String>,
}

/// The contents of an entry.
pub struct KicadLibraryView {
    pub version: VersionParts,
    pub symbols: Seq<char>,
    pub footprints: Seq<char>,
    pub models: Seq<(Seq<char>, Seq<char>)>,
    pub parts: Option<Seq<char>>,
    pub http_mirror: Option<Seq<char>>,
}

impl View for KicadLibraryConfig {
    type V = KicadLibraryView;

    open spec fn view(&self) -> KicadLibraryView {
        KicadLibraryView {
            version: self.version@,
            symbols: self.symbols@,
            footprints: self.footprints@,
            models: text_entries(self.models.entries@),
            parts: opt_text(self.parts),
            http_mirror: opt_text(self.http_mirror),
        }
    }
}

impl KicadLibraryConfig {
    /// Another entry with the same contents.
    pub fn copy(&self) -> (r: KicadLibraryConfig)
        ensures
            r@ == self@,
    {
        KicadLibraryConfig {
            version: self.version.copy(),
            symbols: self.symbols.clone(),
            footprints: self.footprints.clone(),
            models: copy_text_map(&self.models),
            parts: clone_opt(&self.parts),
            http_mirror: clone_opt(&self.http_mirror),
        }
    }
}

/// The entries of a workspace that declares none: the libraries of KiCad 10.
pub fn default_kicad_library() -> (r: Vec<KicadLibraryConfig>)
    ensures
        r@.len() == 1,
        r@[0].version@ == (10u64, 0u64, 0u64, Seq::<char>::empty(), Seq::<char>::empty()),
        r@[0].symbols@ == "gitlab.com/kicad/libraries/kicad-symbols"@,
        r@[0].footprints@ == "gitlab.com/kicad/libraries/kicad-footprints"@,
        r@[0].models.wf(),
        forall|q: Seq<char>|
            opt_text(#[trigger] find(r@[0].models.entries@, q)) == (if q
                == "KICAD10_3DMODEL_DIR"@ {
                Some("gitlab.com/kicad/libraries/kicad-packages3D"@)
            } else {
                None
            }),
        r@[0].parts is None,
        r@[0].http_mirror is None,
{
    let mut models: SortedMap<String, String> = SortedMap::new();
    let ghost empty = models.entries@;
    models.insert(
        "KICAD10_3DMODEL_DIR".to_owned(),
        "gitlab.com/kicad/libraries/kicad-packages3D".to_owned(),
    );
    proof {
        assert forall|q: Seq<char>|
            opt_text(#[trigger] find(models.entries@, q)) == (if q == "KICAD10_3DMODEL_DIR"@ {
                Some("gitlab.com/kicad/libraries/kicad-packages3D"@)
            } else {
                None
            }) by {
            assert(find(empty, q) is None);
        }
    }
    let mut out: Vec<KicadLibraryConfig> = Vec::new();
    out.push(
        KicadLibraryConfig {
            version: Version::new(10, 0, 0),
            symbols: "gitlab.com/kicad/libraries/kicad-symbols".to_owned(),
            footprints: "gitlab.com/kicad/libraries/kicad-footprints".to_owned(),
            models,
            parts: None,
            http_mirror: None,
        },
    );
    out
}

/// The entry that a version of a symbol repository belongs to.
pub enum KicadSymbolLibraryMatch {
    Matched(KicadLibraryConfig),
    /// The repository is known, the major version is not.
    SelectorMismatch,
    NotSymbolRepo,
}

/// Whether a version of a repository belongs to an entry.
#[derive(Clone, Copy, PartialEq, Eq, Structural, Debug)]
pub enum KicadRepoMatch {
    NotManaged,
    SelectorMatched,
    /// The repository is known, the major version is not.
    SelectorMismatch,
}

/// Whether an entry names a repository, of the symbols alone or of any sort.
pub open spec fn names_repo(e: KicadLibraryView, repo: Seq<char>, symbols_only: bool) -> bool {
    e.symbols == repo || (!symbols_only && (e.footprints == repo || exists|i: int|
        0 <= i < e.models.len() && (#[trigger] e.models[i]).1 == repo))
}

/// The contents of a list of entries.
pub open spec fn library_views(s: Seq<KicadLibraryConfig>) -> Seq<KicadLibraryView> {
    Seq::new(s.len(), |i: int| s[i]@)
}

/// Whether some entry names a repository.
pub open spec fn some_names(s: Seq<KicadLibraryView>, repo: Seq<char>, symbols_only: bool) -> bool {
    exists|i: int| 0 <= i < s.len() && names_repo(#[trigger] s[i], repo, symbols_only)
}

/// The first entry that names a repository and has the major version, as its place, or the number
/// of entries.
pub open spec fn entry_at(
    s: Seq<KicadLibraryView>,
    repo: Seq<char>,
    major: u64,
    symbols_only: bool,
) -> int
    decreases s.len(),
{
    if s.len() == 0 {
        0
    } else if names_repo(s[0], repo, symbols_only) && s[0].version.0 == major {
        0
    } else {
        1 + entry_at(s.skip(1), repo, major, symbols_only)
    }
}

/// Whether an entry names a repository.
fn includes_repo(e: &KicadLibraryConfig, repo: &str, symbols_only: bool) -> (r: bool)
    ensures
        r == names_repo(e@, repo@, symbols_only),
{
    if same(e.symbols.as_str(), repo) {
        return true;
    }
    if symbols_only {
        return false;
    }
    if same(e.footprints.as_str(), repo) {
        return true;
    }
    let mut i: usize = 0;
    while i < e.models.entries.len()
        invariant
            i <= e.models.entries@.len(),
            !symbols_only,
            forall|k: int| 0 <= k < i ==> (#[trigger] e@.models[k]).1 != repo@,
        decreases e.models.entries@.len() - i,
    {
        if same(e.models.entries[i].1.as_str(), repo) {
            proof {
                assert(e@.models[i as int].1 == repo@);
            }
            return true;
        }
        i += 1;
    }
    false
}

/// Finds the first entry that names a repository and has the major version; says too whether any
/// entry names the repository.
fn match_kicad_entry<'a>(
    entries: &'a Vec<KicadLibraryConfig>,
    repo: &str,
    version: &Version,
    symbols_only: bool,
) -> (r: (bool, Option<&'a KicadLibraryConfig>))
    ensures
        ({
            let s = library_views(entries@);
            let k = entry_at(s, repo@, version.major, symbols_only);
            &&& r.0 == some_names(s, repo@, symbols_only)
            &&& 0 <= k <= s.len()
            &&& match r.1 {
                Some(e) => k < s.len() && e@ == s[k],
                None => k == s.len(),
            }
        }),
{
    let ghost s = library_views(entries@);
    let mut saw: bool = false;
    let mut i: usize = 0;
    proof {
        assert(s.skip(0) =~= s);
    }
    while i < entries.len()
        invariant
            i <= entries@.len(),
            s == library_views(entries@),
            i + entry_at(s.skip(i as int), repo@, version.major, symbols_only) == entry_at(
                s,
                repo@,
                version.major,
                symbols_only,
            ),
            saw == (exists|k: int| 0 <= k < i && names_repo(#[trigger] s[k], repo@, symbols_only)),
        decreases entries@.len() - i,
    {
        proof {
            assert(s.skip(i as int)[0] == entries@[i as int]@);
            assert(s.skip(i as int).skip(1) =~= s.skip(i + 1));
        }
        if includes_repo(&entries[i], repo, symbols_only) {
            saw = true;
            proof {
                assert(names_repo(s[i as int], repo@, symbols_only));
            }
            if entries[i].version.major == version.major {
                return (true, Some(&entries[i]));
            }
        }
        i += 1;
    }
    (saw, None)
}

/// The entry that a version of a repository belongs to.
pub fn effective_kicad_library_for_repo(
    entries: &Vec<KicadLibraryConfig>,
    repo: &str,
    version: &Version,
) -> (r: Option<KicadLibraryConfig>)
    ensures
        ({
            let s = library_views(entries@);
            let k = entry_at(s, repo@, version.major, false);
            match r {
                Some(e) => 0 <= k < s.len() && e@ == s[k],
                None => k == s.len(),
            }
        }),
{
    match match_kicad_entry(entries, repo, version, false).1 {
        Some(e) => Some(e.copy()),
        None => None,
    }
}

/// The entry that a version of a symbol repository belongs to.
pub fn match_kicad_library_for_symbol_repo(
    entries: &Vec<KicadLibraryConfig>,
    symbol_repo: &str,
    symbol_version: &Version,
) -> (r: KicadSymbolLibraryMatch)
    ensures
        ({
            let s = library_views(entries@);
            let k = entry_at(s, symbol_repo@, symbol_version.major, true);
            match r {
                KicadSymbolLibraryMatch::Matched(e) => 0 <= k < s.len() && e@ == s[k],
                KicadSymbolLibraryMatch::SelectorMismatch => k == s.len() && some_names(
                    s,
                    symbol_repo@,
                    true,
                ),
                KicadSymbolLibraryMatch::NotSymbolRepo => k == s.len() && !some_names(
                    s,
                    symbol_repo@,
                    true,
                ),
            }
        }),
{
    let (saw, matched) = match_kicad_entry(entries, symbol_repo, symbol_version, true);
    match matched {
        Some(e) => KicadSymbolLibraryMatch::Matched(e.copy()),
        None => if saw {
            KicadSymbolLibraryMatch::SelectorMismatch
        } else {
            KicadSymbolLibraryMatch::NotSymbolRepo
        },
    }
}

/// Whether a version of a repository belongs to an entry.
pub fn match_kicad_managed_repo(
    entries: &Vec<KicadLibraryConfig>,
    repo: &str,
    version: &Version,
) -> (r: KicadRepoMatch)
    ensures
        ({
            let s = library_views(entries@);
            r == (if entry_at(s, repo@, version.major, false) < s.len() {
                KicadRepoMatch::SelectorMatched
            } else if some_names(s, repo@, false) {
                KicadRepoMatch::SelectorMismatch
            } else {
                KicadRepoMatch::NotManaged
            })
        }),
{
    let (saw, matched) = match_kicad_entry(entries, repo, version, false);
    if matched.is_some() {
        KicadRepoMatch::SelectorMatched
    } else if saw {
        KicadRepoMatch::SelectorMismatch
    } else {
        KicadRepoMatch::NotManaged
    }
}

/// What is wrong with the KiCad libraries of a workspace.
pub enum KicadLibraryError {
    /// A repository is known, the major version of a dependency on it is not.
    NoSuchMajor { repo: String, version: String },
    InvalidModule { repo: String },
    SymbolsEmpty,
    FootprintsEmpty,
    ModelVariableEmpty,
    ModelRepoEmpty { var: String },
    PartsEmpty,
    MirrorEmpty,
}

impl KicadLibraryError {
    /// The text of the error.
    pub open spec fn text(&self) -> Seq<char> {
        match *self {
            KicadLibraryError::NoSuchMajor { repo, version } => "Dependency "@ + repo@ + "@"@
                + version@ + " does not match any [[workspace.kicad_library]] major version"@,
            KicadLibraryError::InvalidModule { repo } => "Invalid module path: "@ + repo@,
            KicadLibraryError::SymbolsEmpty =>
            "Invalid [[workspace.kicad_library]]: `symbols` must not be empty"@,
            KicadLibraryError::FootprintsEmpty =>
            "Invalid [[workspace.kicad_library]]: `footprints` must not be empty"@,
            KicadLibraryError::ModelVariableEmpty =>
            "Invalid [[workspace.kicad_library]]: model variable names must not be empty"@,
            KicadLibraryError::ModelRepoEmpty { var } =>
            "Invalid [[workspace.kicad_library]]: model repo for `"@ + var@
                + "` must not be empty"@,
            KicadLibraryError::PartsEmpty =>
            "Invalid [[workspace.kicad_library]]: `parts` must not be empty"@,
            KicadLibraryError::MirrorEmpty =>
            "Invalid [[workspace.kicad_library]]: `http_mirror` must not be empty"@,
        }
    }

    /// The text of the error.
    pub fn message(&self) -> (r: String)
        ensures
            r@ == self.text(),
    {
        match self {
            KicadLibraryError::NoSuchMajor { repo, version } => {
                let mut out = "Dependency ".to_owned();
                out.append(repo.as_str());
                out.append("@");
                out.append(version.as_str());
                out.append(" does not match any [[workspace.kicad_library]] major version");
                out
            },
            KicadLibraryError::InvalidModule { repo } => {
                let mut out = "Invalid module path: ".to_owned();
                out.append(repo.as_str());
                out
            },
            KicadLibraryError::SymbolsEmpty =>
            "Invalid [[workspace.kicad_library]]: `symbols` must not be empty".to_owned(),
            KicadLibraryError::FootprintsEmpty =>
            "Invalid [[workspace.kicad_library]]: `footprints` must not be empty".to_owned(),
            KicadLibraryError::ModelVariableEmpty =>
            "Invalid [[workspace.kicad_library]]: model variable names must not be empty".to_owned(),
            KicadLibraryError::ModelRepoEmpty { var } => {
                let mut out =
                    "Invalid [[workspace.kicad_library]]: model repo for `".to_owned();
                out.append(var.as_str());
                out.append("` must not be empty");
                out
            },
            KicadLibraryError::PartsEmpty =>
            "Invalid [[workspace.kicad_library]]: `parts` must not be empty".to_owned(),
            KicadLibraryError::MirrorEmpty =>
            "Invalid [[workspace.kicad_library]]: `http_mirror` must not be empty".to_owned(),
        }
    }
}

/// Whether an error says that no entry has the major version of a repository.
pub open spec fn says_no_such_major(
    e: KicadLibraryError,
    repo: Seq<char>,
    version: VersionParts,
) -> bool {
    match e {
        KicadLibraryError::NoSuchMajor { repo: r, version: v } => r@ == repo && v@ == version_text(
            version,
        ),
        _ => false,
    }
}

/// The template of the HTTP mirror of a version of a repository, if one is configured.
pub fn kicad_http_mirror_template_for_repo(
    entries: &Vec<KicadLibraryConfig>,
    repo: &str,
    version: &Version,
) -> (r: Result<Option<String>, KicadLibraryError>)
    ensures
        ({
            let s = library_views(entries@);
            let k = entry_at(s, repo@, version.major, false);
            match r {
                Ok(template) => (k < s.len() && opt_text(template) == s[k].http_mirror) || (k
                    == s.len() && !some_names(s, repo@, false) && template is None),
                Err(e) => k == s.len() && some_names(s, repo@, false) && says_no_such_major(
                    e,
                    repo@,
                    version@,
                ),
            }
        }),
{
    let (saw, matched) = match_kicad_entry(entries, repo, version, false);
    match matched {
        Some(e) => Ok(clone_opt(&e.http_mirror)),
        None => if saw {
            Err(
                KicadLibraryError::NoSuchMajor {
                    repo: repo.to_owned(),
                    version: version.to_text(),
                },
            )
        } else {
            Ok(None)
        },
    }
}

/// A template with `{repo}`, `{repo_name}`, `{version}` and `{major}` filled in, in this order.
pub open spec fn filled(template: Seq<char>, repo: Seq<char>, version: Seq<char>) -> Seq<char> {
    replaced(
        replaced(
            replaced(replaced(template, "{repo}"@, repo), "{repo_name}"@, after_last(repo, '/')),
            "{version}"@,
            version,
        ),
        "{major}"@,
        before_first(version, '.'),
    )
}

/// Fills in a template: `{repo}` is the repository, `{repo_name}` its last segment, `{version}` the
/// version and `{major}` what precedes the first dot of the version.
pub fn render_repo_url_template(template: &str, repo: &str, version: &Version) -> (r: Result<
    String,
    KicadLibraryError,
>)
    ensures
        match r {
            Ok(url) => after_last(repo@, '/').len() > 0 && url@ == filled(
                template@,
                repo@,
                version_text(version@),
            ),
            Err(KicadLibraryError::InvalidModule { repo: m }) => after_last(repo@, '/').len() == 0
                && m@ == repo@,
            Err(_) => false,
        },
{
    let name = last_segment(repo, '/');
    if name.as_str().unicode_len() == 0 {
        return Err(KicadLibraryError::InvalidModule { repo: repo.to_owned() });
    }
    let text = version.to_text();
    let major = first_segment(text.as_str(), '.');
    proof {
        reveal_strlit("{repo}");
        reveal_strlit("{repo_name}");
        reveal_strlit("{version}");
        reveal_strlit("{major}");
    }
    let a = replace_all(template, "{repo}", repo);
    let b = replace_all(a.as_str(), "{repo_name}", name.as_str());
    let c = replace_all(b.as_str(), "{version}", text.as_str());
    Ok(replace_all(c.as_str(), "{major}", major.as_str()))
}

/// What `{major}` stands for is the major version.
pub proof fn law_major_of_text(v: VersionParts)
    ensures
        before_first(version_text(v), '.') == crate::text::decimal(v.0 as nat),
{
    let d = crate::text::decimal(v.0 as nat);
    crate::text::lemma_decimal(v.0 as nat);
    let t = version_text(v);
    crate::text::lemma_first_at(t, '.');
    let k = d.len() as int;
    assert(t[k] == '.');
    assert(t.contains('.'));
    let j = crate::text::first_at(t, '.');
    assert(j <= k);
    if j < k {
        assert(t[j] == d[j]);
    }
    assert(t.take(k) =~= d);
}

/// The address of the parts list of a version of a symbol repository, if one is configured.
pub fn kicad_parts_url_for_symbol_repo(
    entries: &Vec<KicadLibraryConfig>,
    symbol_repo: &str,
    symbol_version: &Version,
) -> (r: Result<Option<String>, KicadLibraryError>)
    ensures
        ({
            let s = library_views(entries@);
            let k = entry_at(s, symbol_repo@, symbol_version.major, true);
            let named = after_last(symbol_repo@, '/').len() > 0;
            match r {
                Ok(Some(url)) => 0 <= k < s.len() && s[k].parts is Some && named && url@ == filled(
                    s[k].parts->Some_0,
                    symbol_repo@,
                    version_text(symbol_version@),
                ),
                Ok(None) => (k < s.len() && s[k].parts is None) || (k == s.len() && !some_names(
                    s,
                    symbol_repo@,
                    true,
                )),
                Err(e) => if k < s.len() {
                    s[k].parts is Some && !named && e.text() == "Invalid module path: "@
                        + symbol_repo@
                } else {
                    some_names(s, symbol_repo@, true) && says_no_such_major(
                        e,
                        symbol_repo@,
                        symbol_version@,
                    )
                },
            }
        }),
{
    match match_kicad_library_for_symbol_repo(entries, symbol_repo, symbol_version) {
        KicadSymbolLibraryMatch::Matched(e) => match &e.parts {
            Some(template) => match render_repo_url_template(
                template.as_str(),
                symbol_repo,
                symbol_version,
            ) {
                Ok(url) => Ok(Some(url)),
                Err(err) => Err(err),
            },
            None => Ok(None),
        },
        KicadSymbolLibraryMatch::SelectorMismatch => Err(
            KicadLibraryError::NoSuchMajor {
                repo: symbol_repo.to_owned(),
                version: symbol_version.to_text(),
            },
        ),
        KicadSymbolLibraryMatch::NotSymbolRepo => Ok(None),
    }
}

/// The repositories of the symbols and footprints, entry by entry.
pub open spec fn repos_of(s: Seq<KicadLibraryView>) -> Seq<Seq<char>>
    decreases s.len(),
{
    if s.len() == 0 {
        Seq::<Seq<char>>::empty()
    } else {
        repos_of(s.drop_last()).push(s.last().symbols).push(s.last().footprints)
    }
}

/// Whether an alias stands for a repository: it is the last segment of the repository and of no
/// other.
pub open spec fn alias_stands_for(repos: Seq<Seq<char>>, alias: Seq<char>, repo: Seq<char>) -> bool {
    alias.len() > 0 && repos.contains(repo) && after_last(repo, '/') == alias && forall|i: int|
        0 <= i < repos.len() && after_last(#[trigger] repos[i], '/') == alias ==> repos[i] == repo
}

/// The repositories of the symbols and footprints, entry by entry.
fn collect_repos(entries: &Vec<KicadLibraryConfig>) -> (r: Vec<String>)
    ensures
        texts(r@) == repos_of(library_views(entries@)),
{
    let ghost s = library_views(entries@);
    let mut out: Vec<String> = Vec::new();
    let mut i: usize = 0;
    proof {
        assert(s.take(0) =~= Seq::<KicadLibraryView>::empty());
        assert(texts(out@) =~= Seq::<Seq<char>>::empty());
    }
    while i < entries.len()
        invariant
            i <= entries@.len(),
            s == library_views(entries@),
            texts(out@) == repos_of(s.take(i as int)),
        decreases entries@.len() - i,
    {
        let ghost prior = texts(out@);
        proof {
            assert(s.take(i + 1).drop_last() =~= s.take(i as int));
            assert(s.take(i + 1).last() == entries@[i as int]@);
        }
        out.push(entries[i].symbols.clone());
        out.push(entries[i].footprints.clone());
        proof {
            assert(texts(out@) =~= prior.push(entries@[i as int].symbols@).push(
                entries@[i as int].footprints@,
            ));
        }
        i += 1;
    }
    proof {
        assert(s.take(s.len() as int) =~= s);
    }
    out
}

/// Whether a repository shares its last segment with no other.
fn is_unambiguous(repos: &Vec<String>, repo: &str, alias: &str) -> (r: bool)
    ensures
        r == (forall|i: int|
            0 <= i < texts(repos@).len() && after_last(#[trigger] texts(repos@)[i], '/') == alias@
                ==> texts(repos@)[i] == repo@),
{
    let mut i: usize = 0;
    while i < repos.len()
        invariant
            i <= repos@.len(),
            forall|k: int|
                0 <= k < i && after_last(#[trigger] texts(repos@)[k], '/') == alias@ ==> texts(
                    repos@,
                )[k] == repo@,
        decreases repos@.len() - i,
    {
        let other = last_segment(repos[i].as_str(), '/');
        if same(other.as_str(), alias) && !same(repos[i].as_str(), repo) {
            proof {
                assert(after_last(texts(repos@)[i as int], '/') == alias@);
            }
            return false;
        }
        i += 1;
    }
    true
}

/// The repositories of the symbols and footprints by alias, the last segment of their URL. An alias
/// that two repositories share stands for none.
pub fn kicad_dependency_aliases(entries: &Vec<KicadLibraryConfig>) -> (r: SortedMap<String, String>)
    ensures
        r.wf(),
        forall|alias: Seq<char>, repo: Seq<char>|
            (opt_text(#[trigger] find(r.entries@, alias)) == Some(repo)) <==> #[trigger]
            alias_stands_for(repos_of(library_views(entries@)), alias, repo),
{
    let repos = collect_repos(entries);
    let ghost all = texts(repos@);
    let mut out: SortedMap<String, String> = SortedMap::new();
    let mut i: usize = 0;
    while i < repos.len()
        invariant
            i <= repos@.len(),
            all == texts(repos@),
            out.wf(),
            forall|alias: Seq<char>|
                #[trigger] find(out.entries@, alias) is Some ==> alias_stands_for(
                    all,
                    alias,
                    find(out.entries@, alias)->Some_0@,
                ),
            forall|k: int|
                0 <= k < i && alias_stands_for(all, after_last(#[trigger] all[k], '/'), all[k])
                    ==> find(out.entries@, after_last(all[k], '/')) is Some,
        decreases repos@.len() - i,
    {
        let ghost before = out.entries@;
        let alias = last_segment(repos[i].as_str(), '/');
        let ghost name = alias@;
        proof {
            assert(all[i as int] == repos@[i as int]@);
        }
        if alias.as_str().unicode_len() > 0 && is_unambiguous(
            &repos,
            repos[i].as_str(),
            alias.as_str(),
        ) {
            proof {
                assert(all.contains(all[i as int]));
            }
            out.insert(alias, repos[i].clone());
        }
        proof {
            assert forall|a: Seq<char>| #[trigger] find(out.entries@, a) is Some implies
                alias_stands_for(all, a, find(out.entries@, a)->Some_0@) by {
                if find(out.entries@, a) == find(before, a) {
                    assert(find(before, a) is Some);
                }
            }
            assert forall|k: int|
                0 <= k < i + 1 && alias_stands_for(all, after_last(#[trigger] all[k], '/'), all[k]) implies find(
                out.entries@,
                after_last(all[k], '/'),
            ) is Some by {
                if k < i {
                    assert(find(before, after_last(all[k], '/')) is Some);
                }
            }
        }
        i += 1;
    }
    proof {
        assert forall|alias: Seq<char>, repo: Seq<char>|
            (opt_text(#[trigger] find(out.entries@, alias)) == Some(repo)) <==> #[trigger]
            alias_stands_for(all, alias, repo) by {
            if alias_stands_for(all, alias, repo) {
                let k = choose|k: int| 0 <= k < all.len() && all[k] == repo;
                assert(alias_stands_for(all, after_last(all[k], '/'), all[k]));
                assert(find(out.entries@, alias) is Some);
                let other = find(out.entries@, alias)->Some_0@;
                assert(alias_stands_for(all, alias, other));
                let j = choose|j: int| 0 <= j < all.len() && all[j] == other;
                assert(after_last(all[j], '/') == alias);
            }
        }
    }
    out
}

/// The place of the coordinate with a version whose root lies deepest above a path, or -1; of two
/// equally deep ones the later.
pub open spec fn coordinate_at(s: Seq<(String, String)>, path: Seq<char>) -> int
    decreases s.len(),
{
    if s.len() == 0 {
        -1
    } else {
        let b = coordinate_at(s.drop_last(), path);
        if lies_under(path, s.last().1@) && cut_last(s.last().0@, '@') is Some && (b < 0
            || components(s.last().1@).len() >= components(s[b].1@).len()) {
            s.len() - 1
        } else {
            b
        }
    }
}

/// The repository, the version and the root of the package that a path belongs to.
pub fn package_coord_for_path(path: &str, package_roots: &SortedMap<String, String>) -> (r: Option<
    (String, String, String),
>)
    ensures
        ({
            let s = package_roots.entries@;
            let k = coordinate_at(s, path@);
            match r {
                Some((repo, version, root)) => 0 <= k < s.len() && cut_last(s[k].0@, '@') == Some(
                    (repo@, version@),
                ) && root@ == s[k].1@,
                None => k == -1,
            }
        }),
{
    let s = &package_roots.entries;
    let mut best: Option<usize> = None;
    let mut i: usize = 0;
    proof {
        assert(s@.take(0) =~= Seq::<(String, String)>::empty());
    }
    while i < s.len()
        invariant
            i <= s@.len(),
            s@ == package_roots.entries@,
            match best {
                Some(b) => coordinate_at(s@.take(i as int), path@) == b && b < i && cut_last(
                    s@[b as int].0@,
                    '@',
                ) is Some,
                None => coordinate_at(s@.take(i as int), path@) == -1,
            },
        decreases s@.len() - i,
    {
        proof {
            assert(s@.take(i + 1).drop_last() =~= s@.take(i as int));
            assert(s@.take(i + 1).last() == s@[i as int]);
        }
        if path_starts_with(path, s[i].1.as_str()) && rsplit_once(s[i].0.as_str(), '@').is_some() {
            let better = match best {
                Some(b) => split_path(s[i].1.as_str()).len() >= split_path(s[b].1.as_str()).len(),
                None => true,
            };
            if better {
                best = Some(i);
            }
        }
        i += 1;
    }
    proof {
        assert(s@.take(s@.len() as int) =~= s@);
    }
    match best {
        Some(b) => match rsplit_once(s[b].0.as_str(), '@') {
            Some((repo, version)) => Some((repo, version, s[b].1.clone())),
            None => None,
        },
        None => None,
    }
}

/// The first thing that is wrong with the models of an entry.
pub open spec fn model_error(s: Seq<(Seq<char>, Seq<char>)>) -> Option<Seq<char>>
    decreases s.len(),
{
    if s.len() == 0 {
        None
    } else {
        match model_error(s.drop_last()) {
            Some(e) => Some(e),
            None => if is_blank(s.last().0) {
                Some("Invalid [[workspace.kicad_library]]: model variable names must not be empty"@)
            } else if is_blank(s.last().1) {
                Some(
                    "Invalid [[workspace.kicad_library]]: model repo for `"@ + s.last().0
                        + "` must not be empty"@,
                )
            } else {
                None
            },
        }
    }
}

/// The first thing that is wrong with an entry.
pub open spec fn library_error(e: KicadLibraryView) -> Option<Seq<char>> {
    if is_blank(e.symbols) {
        Some("Invalid [[workspace.kicad_library]]: `symbols` must not be empty"@)
    } else if is_blank(e.footprints) {
        Some("Invalid [[workspace.kicad_library]]: `footprints` must not be empty"@)
    } else if model_error(e.models) is Some {
        model_error(e.models)
    } else if e.parts is Some && is_blank(e.parts->Some_0) {
        Some("Invalid [[workspace.kicad_library]]: `parts` must not be empty"@)
    } else if e.http_mirror is Some && is_blank(e.http_mirror->Some_0) {
        Some("Invalid [[workspace.kicad_library]]: `http_mirror` must not be empty"@)
    } else {
        None
    }
}

proof fn lemma_model_error_stays(s: Seq<(Seq<char>, Seq<char>)>, k: int)
    requires
        0 <= k <= s.len(),
        model_error(s.take(k)) is Some,
    ensures
        model_error(s) == model_error(s.take(k)),
    decreases s.len(),
{
    if k == s.len() {
        assert(s.take(k) =~= s);
    } else {
        assert(s.drop_last().take(k) =~= s.take(k));
        lemma_model_error_stays(s.drop_last(), k);
    }
}

/// Refuses an entry that leaves out what it needs.
pub fn validate_kicad_library_config(entry: &KicadLibraryConfig) -> (r: Result<
    (),
    KicadLibraryError,
>)
    ensures
        match r {
            Ok(_) => library_error(entry@) is None,
            Err(e) => library_error(entry@) == Some(e.text()),
        },
{
    if is_blank_text(entry.symbols.as_str()) {
        return Err(KicadLibraryError::SymbolsEmpty);
    }
    if is_blank_text(entry.footprints.as_str()) {
        return Err(KicadLibraryError::FootprintsEmpty);
    }
    let ghost m = entry@.models;
    let mut i: usize = 0;
    proof {
        assert(m.take(0) =~= Seq::<(Seq<char>, Seq<char>)>::empty());
    }
    while i < entry.models.entries.len()
        invariant
            i <= entry.models.entries@.len(),
            m == entry@.models,
            !is_blank(entry.symbols@),
            !is_blank(entry.footprints@),
            model_error(m.take(i as int)) is None,
        decreases entry.models.entries@.len() - i,
    {
        let e = &entry.models.entries[i];
        proof {
            assert(m.take(i + 1).drop_last() =~= m.take(i as int));
            assert(m.take(i + 1).last() == (e.0@, e.1@));
        }
        if is_blank_text(e.0.as_str()) {
            proof {
                lemma_model_error_stays(m, i + 1);
            }
            return Err(KicadLibraryError::ModelVariableEmpty);
        }
        if is_blank_text(e.1.as_str()) {
            proof {
                lemma_model_error_stays(m, i + 1);
            }
            return Err(KicadLibraryError::ModelRepoEmpty { var: e.0.clone() });
        }
        i += 1;
    }
    proof {
        assert(m.take(m.len() as int) =~= m);
    }
    if let Some(parts) = &entry.parts {
        if is_blank_text(parts.as_str()) {
            return Err(KicadLibraryError::PartsEmpty);
        }
    }
    if let Some(mirror) = &entry.http_mirror {
        if is_blank_text(mirror.as_str()) {
            return Err(KicadLibraryError::MirrorEmpty);
        }
    }
    Ok(())
}

} // verus!
