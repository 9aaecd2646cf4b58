//! Workspaces: the packages of a directory tree, and what is known of them.

use vstd::prelude::*;

use crate::path::{components, is_absolute, law_join_appends_components, law_join_is_associative};
use crate::path::{lies_under, path_join, path_joined, path_starts_with, relative_to, split_path};
use crate::path::{starts_here, strip_base};
use crate::config::{default_workspace, parse_pcb_version, pcb_version_from_cargo};
use crate::config::{pcb_version_is_older, required_series, series, series_before, toolchain_series};
use crate::config::{Board, PcbToml, WorkspaceConfig};
use crate::map::{find, keys_of, lemma_slot, lemma_slot_at, slot, SortedMap};
use crate::text::{as_opt_str, begins, join, joined, opt_str, opt_text, same, strip_prefix, texts};
use crate::{made_canonical, stdlib_root_of, workspace_stdlib_root, FileProvider};
use crate::STDLIB_MODULE_PATH;

verus! {

/// The URL of the root package of a workspace without a repository.
pub const LOCAL_WORKSPACE_ROOT_URL: &'static str = "workspace";

/// How deep below the workspace root packages are looked for.
pub const WORKSPACE_DISCOVERY_MAX_DEPTH: usize = 8;

/// Whether the package `prefix` covers `url`: it is the URL or a whole number of its first segments.
pub open spec fn covers(prefix: Seq<char>, url: Seq<char>) -> bool {
    url == prefix || (begins(url, prefix) && url.len() > prefix.len() && url[prefix.len() as int]
        == '/')
}

/// Whether the package `prefix` covers `url`.
pub fn package_url_covers(prefix: &str, url: &str) -> (r: bool)
    ensures
        r == covers(prefix@, url@),
{
    if same(prefix, url) {
        return true;
    }
    match strip_prefix(url, prefix) {
        Some(rest) => {
            proof {
                if rest@.len() > 0 {
                    assert(rest@[0] == url@[prefix@.len() as int]);
                }
            }
            rest.unicode_len() > 0 && rest.get_char(0) == '/'
        },
        None => false,
    }
}

/// The URL under which a workspace's packages stand.
pub open spec fn base_url(repository: Option<Seq<char>>, path: Option<Seq<char>>) -> Option<
    Seq<char>,
> {
    match (repository, path) {
        (Some(repo), Some(p)) => Some(repo + "/"@ + p),
        (Some(repo), None) => Some(repo),
        _ => None,
    }
}

/// The URL under which a workspace's packages stand.
fn build_workspace_base_url(repository: Option<&str>, path: Option<&str>) -> (r: Option<String>)
    ensures
        opt_text(r) == base_url(opt_str(repository), opt_str(path)),
{
    match (repository, path) {
        (Some(repo), Some(p)) => {
            let mut out = repo.to_owned();
            out.append("/");
            out.append(p);
            Some(out)
        },
        (Some(repo), None) => Some(repo.to_owned()),
        _ => None,
    }
}

/// Why a workspace could not be read.
pub enum WorkspaceError {
    /// The workspace needs a newer toolchain.
    NewerToolchain { required: String, current: String, manifest: String },
    /// No board has the name asked for.
    BoardNotFound { name: String, available: Vec<String> },
    /// A pattern of the manifest is none.
    InvalidPattern { error: String },
}

impl WorkspaceError {
    /// The text of the error.
    pub open spec fn text(&self) -> Seq<char> {
        match *self {
            WorkspaceError::NewerToolchain { required, current, manifest } =>
            "Workspace requires pcb-version = \""@ + required@ + "\" but the current pcb is "@
                + current@
                + "\n  Upgrade pcb before building or updating this workspace.\n  Manifest: "@
                + manifest@,
            WorkspaceError::BoardNotFound { name, available } => "Board '"@ + name@
                + "' not found. Available: ["@ + joined(texts(available@), ", "@) + "]"@,
            WorkspaceError::InvalidPattern { error } => error@,
        }
    }

    /// The text of the error.
    pub fn message(&self) -> (r: String)
        ensures
            r@ == self.text(),
    {
        match self {
            WorkspaceError::NewerToolchain { required, current, manifest } => {
                let mut out = "Workspace requires pcb-version = \"".to_owned();
                out.append(required.as_str());
                out.append("\" but the current pcb is ");
                out.append(current.as_str());
                out.append(
                    "\n  Upgrade pcb before building or updating this workspace.\n  Manifest: ",
                );
                out.append(manifest.as_str());
                out
            },
            WorkspaceError::BoardNotFound { name, available } => {
                let mut out = "Board '".to_owned();
                out.append(name.as_str());
                out.append("' not found. Available: [");
                let names = join(available, ", ");
                out.append(names.as_str());
                out.append("]");
                out
            },
            WorkspaceError::InvalidPattern { error } => error.clone(),
        }
    }
}

/// Whether a manifest requires a toolchain that selects versions the second way: series 0.4 or later.
pub open spec fn selects_second_way(required: Option<Seq<char>>) -> bool {
    match required {
        Some(v) => match series(v) {
            Some(s) => !series_before(s, (0, 4)),
            None => false,
        },
        None => false,
    }
}

/// Whether a manifest requires a newer toolchain than this one.
pub open spec fn needs_newer_toolchain(required: Option<Seq<char>>) -> bool {
    match required {
        Some(v) => match series(v) {
            Some(s) => series_before(toolchain_series(), s),
            None => false,
        },
        None => false,
    }
}

/// Refuses a workspace that requires a newer toolchain than this one.
pub fn validate_workspace_pcb_version(config: &PcbToml, source: &str) -> (r: Result<
    (),
    WorkspaceError,
>)
    ensures
        r is Err <==> needs_newer_toolchain(required_series(config@)),
        match r {
            Ok(_) => true,
            Err(WorkspaceError::NewerToolchain { required, current, manifest }) => Some(required@)
                == required_series(config@) && series(current@) == Some(toolchain_series())
                && manifest@ == source@,
            Err(_) => false,
        },
{
    let current = pcb_version_from_cargo();
    let required: &String = match &config.workspace {
        Some(w) => match &w.pcb_version {
            Some(v) => v,
            None => return Ok(()),
        },
        None => return Ok(()),
    };
    match pcb_version_is_older(current.as_str(), required.as_str()) {
        Some(true) => Err(
            WorkspaceError::NewerToolchain {
                required: required.clone(),
                current,
                manifest: source.to_owned(),
            },
        ),
        _ => Ok(()),
    }
}

/// A package found in a workspace.
pub struct WorkspacePackage {
    /// The package's directory, relative to the workspace root.
    pub rel_path: String,
    pub config: PcbToml,
    /// The latest published version.
    pub version: Option<String>,
    /// When that version was published.
    pub published_at: Option<String>,
    /// Whether the workspace prefers this package.
    pub preferred: bool,
    /// Whether the package has changes that are not published.
    pub dirty: bool,
    /// The package's top-level Zener files.
    pub entrypoints: Vec<String>,
    /// The package's top-level symbol libraries.
    pub symbol_files: Vec<SymbolFileInfo>,
}

/// The symbols of a symbol library.
pub struct SymbolFileInfo {
    pub path: String,
    pub symbols: Vec<String>,
}

/// A board of a workspace.
pub struct BoardInfo {
    pub name: String,
    /// The board's file, relative to the workspace root.
    pub zen_path: String,
    pub description: String,
}

/// The contents of a board.
pub struct BoardInfoView {
    pub name: Seq<char>,
    pub zen_path: Seq<char>,
    pub description: Seq<char>,
}

impl View for BoardInfo {
    type V = BoardInfoView;

    open spec fn view(&self) -> BoardInfoView {
        BoardInfoView {
            name: self.name@,
            zen_path: self.zen_path@,
            description: self.description@,
        }
    }
}

/// What went wrong at a path while packages were looked for.
pub struct DiscoveryError {
    pub path: String,
    pub error: String,
}

/// What is known of a workspace.
pub struct WorkspaceInfo {
    pub root: String,
    /// The global package cache; empty where there is none.
    pub cache_dir: String,
    /// The manifest of the root.
    pub config: Option<PcbToml>,
    /// The packages by URL.
    pub packages: SortedMap<String, WorkspacePackage>,
    pub errors: Vec<DiscoveryError>,
}

impl WorkspacePackage {
    /// The package's directory.
    pub open spec fn dir_of(&self, root: Seq<char>) -> Seq<char> {
        path_joined(root, self.rel_path@)
    }

    /// The package's directory.
    pub fn dir(&self, workspace_root: &str) -> (r: String)
        ensures
            r@ == self.dir_of(workspace_root@),
    {
        path_join(workspace_root, self.rel_path.as_str())
    }

    /// The URLs of the direct dependencies.
    pub fn dependencies(&self) -> (r: Vec<String>)
        ensures
            texts(r@) == keys_of(self.config.dependencies.direct.entries@),
    {
        let entries = &self.config.dependencies.direct.entries;
        let mut out: Vec<String> = Vec::new();
        let mut i: usize = 0;
        while i < entries.len()
            invariant
                i <= entries@.len(),
                out@.len() == i,
                forall|k: int| 0 <= k < i ==> (#[trigger] out@[k])@ == entries@[k].0@,
            decreases entries@.len() - i,
        {
            out.push(entries[i].0.clone());
            i += 1;
        }
        proof {
            assert(texts(out@) =~= keys_of(entries@));
        }
        out
    }
}

impl BoardInfoView {
    /// The board's file.
    pub open spec fn file_in(&self, root: Seq<char>) -> Seq<char> {
        path_joined(root, self.zen_path)
    }
}

impl BoardInfo {
    /// The board's file.
    pub fn absolute_zen_path(&self, workspace_root: &str) -> (r: String)
        ensures
            r@ == self@.file_in(workspace_root@),
    {
        path_join(workspace_root, self.zen_path.as_str())
    }

    /// Another board with the same contents.
    pub fn copy(&self) -> (r: BoardInfo)
        ensures
            r@ == self@,
    {
        BoardInfo {
            name: self.name.clone(),
            zen_path: self.zen_path.clone(),
            description: self.description.clone(),
        }
    }
}

/// The board that a package declares, where its file is known.
pub open spec fn board_of(p: WorkspacePackage) -> Option<BoardInfoView> {
    match p.config.board {
        Some(b) => match b.path {
            Some(zen) => Some(
                BoardInfoView {
                    name: b.name@,
                    zen_path: path_joined(p.rel_path@, zen@),
                    description: b.description@,
                },
            ),
            None => None,
        },
        None => None,
    }
}

/// The board of that name which the last package declares.
pub open spec fn board_named(s: Seq<(String, WorkspacePackage)>, q: Seq<char>) -> Option<
    BoardInfoView,
>
    decreases s.len(),
{
    if s.len() == 0 {
        None
    } else {
        match board_of(s.last().1) {
            Some(b) => if b.name == q {
                Some(b)
            } else {
                board_named(s.drop_last(), q)
            },
            None => board_named(s.drop_last(), q),
        }
    }
}

/// The contents of an optional board.
pub open spec fn opt_board(o: Option<BoardInfo>) -> Option<BoardInfoView> {
    match o {
        Some(b) => Some(b@),
        None => None,
    }
}

/// The place of the covering package that is written longest.
pub open spec fn is_longest_cover(keys: Seq<Seq<char>>, url: Seq<char>, r: Option<Seq<char>>) -> bool {
    match r {
        Some(k) => keys.contains(k) && covers(k, url) && forall|i: int|
            0 <= i < keys.len() && covers(#[trigger] keys[i], url) ==> keys[i].len() <= k.len(),
        None => forall|i: int| 0 <= i < keys.len() ==> !covers(#[trigger] keys[i], url),
    }
}

/// There is one covering package at most that is written longest.
pub proof fn law_longest_cover_is_unique(
    keys: Seq<Seq<char>>,
    url: Seq<char>,
    a: Option<Seq<char>>,
    b: Option<Seq<char>>,
)
    requires
        is_longest_cover(keys, url, a),
        is_longest_cover(keys, url, b),
    ensures
        a == b,
{
    if a is Some {
        let i = choose|i: int| 0 <= i < keys.len() && keys[i] == a->Some_0;
        assert(covers(keys[i], url));
        assert(b is Some);
    }
    if b is Some {
        let j = choose|j: int| 0 <= j < keys.len() && keys[j] == b->Some_0;
        assert(covers(keys[j], url));
        assert(a is Some);
        let x = a->Some_0;
        let y = b->Some_0;
        assert(x.len() == y.len());
        assert(x =~= url.take(x.len() as int));
        assert(y =~= url.take(y.len() as int));
    }
}

/// The deepest package that owns a path, as its place among the packages; of two equally deep ones
/// the later.
pub open spec fn owner_at(s: Seq<(String, WorkspacePackage)>, rel: Seq<char>) -> int
    decreases s.len(),
{
    if s.len() == 0 {
        -1
    } else {
        let b = owner_at(s.drop_last(), rel);
        let p = s.last().1.rel_path@;
        if lies_under(rel, p) && (b < 0 || components(p).len() >= components(
            s[b].1.rel_path@,
        ).len()) {
            s.len() - 1
        } else {
            b
        }
    }
}

pub proof fn lemma_owner_at(s: Seq<(String, WorkspacePackage)>, rel: Seq<char>)
    ensures
        -1 <= owner_at(s, rel) < s.len(),
        owner_at(s, rel) >= 0 ==> lies_under(rel, s[owner_at(s, rel)].1.rel_path@),
        forall|i: int|
            0 <= i < s.len() && lies_under(rel, (#[trigger] s[i]).1.rel_path@) ==> owner_at(s, rel)
                >= 0 && components(s[i].1.rel_path@).len() <= components(
                s[owner_at(s, rel)].1.rel_path@,
            ).len(),
    decreases s.len(),
{
    if s.len() > 0 {
        let t = s.drop_last();
        lemma_owner_at(t, rel);
        assert forall|i: int| 0 <= i < s.len() && lies_under(rel, (#[trigger] s[i]).1.rel_path@) implies
            owner_at(s, rel) >= 0 && components(s[i].1.rel_path@).len() <= components(
            s[owner_at(s, rel)].1.rel_path@,
        ).len() by {
            if i < t.len() {
                assert(t[i] == s[i]);
            }
        }
    }
}

/// The package that owns a path is the deepest of those whose directory holds it.
pub proof fn law_owner_is_most_specific(s: Seq<(String, WorkspacePackage)>, rel: Seq<char>, i: int)
    requires
        0 <= i < s.len(),
        lies_under(rel, s[i].1.rel_path@),
    ensures
        0 <= owner_at(s, rel) < s.len(),
        lies_under(rel, s[owner_at(s, rel)].1.rel_path@),
        components(s[i].1.rel_path@).len() <= components(s[owner_at(s, rel)].1.rel_path@).len(),
{
    lemma_owner_at(s, rel);
}

impl WorkspaceInfo {
    /// The invariant: the packages stand in the order of their URLs.
    pub open spec fn wf(&self) -> bool {
        self.packages.wf()
    }

    /// The repository of the workspace.
    pub open spec fn repository_of(&self) -> Option<Seq<char>> {
        match self.config {
            Some(c) => match c.workspace {
                Some(w) => opt_text(w.repository),
                None => None,
            },
            None => None,
        }
    }

    /// The path of the workspace within its repository.
    pub open spec fn subpath_of(&self) -> Option<Seq<char>> {
        match self.config {
            Some(c) => match c.workspace {
                Some(w) => opt_text(w.path),
                None => None,
            },
            None => None,
        }
    }

    /// The patch that stands for the standard library.
    pub open spec fn stdlib_patch_of(&self) -> Option<Seq<char>> {
        match self.config {
            Some(c) => match find(c.patch.entries@, STDLIB_MODULE_PATH@) {
                Some(p) => match p.path {
                    Some(path) => Some(path_joined(self.root@, path@)),
                    None => None,
                },
                None => None,
            },
            None => None,
        }
    }

    /// Where the workspace has its standard library.
    pub open spec fn stdlib_dir_of(&self) -> Seq<char> {
        match self.stdlib_patch_of() {
            Some(p) => p,
            None => stdlib_root_of(self.root@),
        }
    }

    /// The workspace-local package cache.
    pub fn workspace_cache_dir(&self) -> (r: String)
        ensures
            r@ == path_joined(self.root@, ".pcb/cache"@),
    {
        path_join(self.root.as_str(), ".pcb/cache")
    }

    /// The directory that the root manifest puts in the place of the standard library, if any.
    pub fn stdlib_patch_path(&self) -> (r: Option<String>)
        ensures
            opt_text(r) == self.stdlib_patch_of(),
    {
        let c: &PcbToml = match &self.config {
            Some(c) => c,
            None => return None,
        };
        match c.patch.get(&STDLIB_MODULE_PATH.to_owned()) {
            Some(p) => match &p.path {
                Some(path) => Some(path_join(self.root.as_str(), path.as_str())),
                None => None,
            },
            None => None,
        }
    }

    /// Where the workspace has its standard library.
    pub fn workspace_stdlib_dir(&self) -> (r: String)
        ensures
            r@ == self.stdlib_dir_of(),
    {
        match self.stdlib_patch_path() {
            Some(p) => p,
            None => workspace_stdlib_root(self.root.as_str()),
        }
    }

    /// The workspace section of the root manifest, or the default one.
    pub fn workspace_config(&self) -> (r: WorkspaceConfig)
        ensures
            r@ == (match self.config {
                Some(c) => match c.workspace {
                    Some(w) => w@,
                    None => default_workspace(),
                },
                None => default_workspace(),
            }),
    {
        match &self.config {
            Some(c) => match &c.workspace {
                Some(w) => w.copy(),
                None => WorkspaceConfig::default(),
            },
            None => WorkspaceConfig::default(),
        }
    }

    /// The manifests of the workspace, that of the root first.
    pub open spec fn manifests_of(&self) -> Seq<PcbToml> {
        let rest = Seq::new(
            self.packages.entries@.len(),
            |i: int| self.packages.entries@[i].1.config,
        );
        match self.config {
            Some(c) => seq![c] + rest,
            None => rest,
        }
    }

    /// The manifests of the workspace, that of the root first.
    pub fn manifests(&self) -> (r: Vec<&PcbToml>)
        ensures
            manifest_derefs(r@) == self.manifests_of(),
    {
        let mut out: Vec<&PcbToml> = Vec::new();
        if let Some(c) = &self.config {
            out.push(c);
        }
        let ghost first = out@.len();
        let mut i: usize = 0;
        proof {
            assert(manifest_derefs(out@) =~= self.manifests_of().take(first as int));
        }
        while i < self.packages.entries.len()
            invariant
                i <= self.packages.entries@.len(),
                first == (if self.config is Some {
                    1int
                } else {
                    0int
                }),
                manifest_derefs(out@) == self.manifests_of().take(first + i),
            decreases self.packages.entries@.len() - i,
        {
            let ghost prior = manifest_derefs(out@);
            out.push(&self.packages.entries[i].1.config);
            proof {
                assert(manifest_derefs(out@) =~= prior.push(
                    self.packages.entries@[i as int].1.config,
                ));
                assert(self.manifests_of().take(first + i + 1) =~= self.manifests_of().take(
                    first + i,
                ).push(self.packages.entries@[i as int].1.config));
            }
            i += 1;
        }
        proof {
            assert(self.manifests_of().take(self.manifests_of().len() as int)
                =~= self.manifests_of());
        }
        out
    }

    /// The repository of the workspace.
    pub fn repository(&self) -> (r: Option<&str>)
        ensures
            opt_str(r) == self.repository_of(),
    {
        match &self.config {
            Some(c) => match &c.workspace {
                Some(w) => as_opt_str(&w.repository),
                None => None,
            },
            None => None,
        }
    }

    /// The path of the workspace within its repository.
    pub fn path(&self) -> (r: Option<&str>)
        ensures
            opt_str(r) == self.subpath_of(),
    {
        match &self.config {
            Some(c) => match &c.workspace {
                Some(w) => as_opt_str(&w.path),
                None => None,
            },
            None => None,
        }
    }

    /// The URL under which the workspace's packages stand; none where there is no repository.
    pub fn workspace_base_url(&self) -> (r: Option<String>)
        ensures
            opt_text(r) == base_url(self.repository_of(), self.subpath_of()),
    {
        build_workspace_base_url(self.repository(), self.path())
    }

    /// Whether a URL belongs to the workspace's own namespace.
    pub fn is_workspace_namespace_url(&self, url: &str) -> (r: bool)
        ensures
            r == (match base_url(self.repository_of(), self.subpath_of()) {
                Some(base) => covers(base, url@),
                None => false,
            }),
    {
        match self.workspace_base_url() {
            Some(base) => package_url_covers(base.as_str(), url),
            None => false,
        }
    }

    /// The most specific package whose URL covers `url`.
    pub fn package_url_for_url(&self, url: &str) -> (r: Option<&str>)
        ensures
            is_longest_cover(keys_of(self.packages.entries@), url@, opt_str(r)),
    {
        let entries = &self.packages.entries;
        let ghost keys = keys_of(entries@);
        let mut best: Option<usize> = None;
        let mut i: usize = 0;
        while i < entries.len()
            invariant
                i <= entries@.len(),
                keys == keys_of(entries@),
                match best {
                    Some(b) => b < i && covers(keys[b as int], url@) && forall|k: int|
                        0 <= k < i && covers(#[trigger] keys[k], url@) ==> keys[k].len()
                            <= keys[b as int].len(),
                    None => forall|k: int| 0 <= k < i ==> !covers(#[trigger] keys[k], url@),
                },
            decreases entries@.len() - i,
        {
            proof {
                assert(keys[i as int] == entries@[i as int].0@);
            }
            if package_url_covers(entries[i].0.as_str(), url) {
                match best {
                    Some(b) => {
                        proof {
                            assert(keys[b as int] == entries@[b as int].0@);
                        }
                        if entries[i].0.as_str().unicode_len() >= entries[b].0.as_str().unicode_len() {
                            best = Some(i);
                        }
                    },
                    None => {
                        best = Some(i);
                    },
                }
            }
            i += 1;
        }
        match best {
            Some(b) => {
                proof {
                    assert(keys[b as int] == entries@[b as int].0@);
                    assert(keys.contains(keys[b as int]));
                }
                Some(entries[b].0.as_str())
            },
            None => None,
        }
    }

    /// The URL of the package that owns a path, both paths taken as they stand.
    pub open spec fn owner_url(&self, root: Seq<char>, path: Seq<char>) -> Option<Seq<char>> {
        match relative_to(path, root) {
            Some(rel) => {
                let k = owner_at(self.packages.entries@, rel);
                if k >= 0 {
                    Some(self.packages.entries@[k].0@)
                } else {
                    None
                }
            },
            None => None,
        }
    }

    /// The most specific package that owns a path, where both the workspace root and the path are
    /// canonical.
    pub fn package_url_for_canonical_path(&self, root: &str, path: &str) -> (r: Option<&str>)
        ensures
            opt_str(r) == self.owner_url(root@, path@),
    {
        let rel = match strip_base(path, root) {
            Some(rel) => rel,
            None => return None,
        };
        let entries = &self.packages.entries;
        let mut best: Option<usize> = None;
        let mut i: usize = 0;
        proof {
            assert(entries@.take(0) =~= Seq::<(String, WorkspacePackage)>::empty());
        }
        while i < entries.len()
            invariant
                i <= entries@.len(),
                match best {
                    Some(b) => owner_at(entries@.take(i as int), rel@) == b && b < i,
                    None => owner_at(entries@.take(i as int), rel@) == -1,
                },
            decreases entries@.len() - i,
        {
            proof {
                assert(entries@.take(i + 1).drop_last() =~= entries@.take(i as int));
                assert(entries@.take(i + 1).last() == entries@[i as int]);
            }
            let p = entries[i].1.rel_path.as_str();
            if path_starts_with(rel.as_str(), p) {
                let better = match best {
                    Some(b) => split_path(p).len() >= split_path(entries[b].1.rel_path.as_str()).len(),
                    None => true,
                };
                if better {
                    best = Some(i);
                }
            }
            i += 1;
        }
        proof {
            assert(entries@.take(entries@.len() as int) =~= entries@);
        }
        match best {
            Some(b) => Some(entries[b].0.as_str()),
            None => None,
        }
    }

    /// The most specific package that owns a path. A path that the file provider cannot make
    /// canonical is taken as it stands.
    pub fn package_url_for_path<F: FileProvider>(&self, file_provider: &F, path: &str) -> (r: Option<
        &str,
    >)
        ensures
            exists|root: Seq<char>, p: Seq<char>|
                opt_str(r) == #[trigger] self.owner_url(root, p) && made_canonical(
                    file_provider,
                    self.root@,
                    root,
                ) && made_canonical(file_provider, path@, p),
    {
        let root = crate::resolved::canonical_or_same(file_provider, self.root.as_str());
        let canonical = crate::resolved::canonical_or_same(file_provider, path);
        self.package_url_for_canonical_path(root.as_str(), canonical.as_str())
    }

    /// The toolchain release series that the workspace requires.
    pub fn pcb_version(&self) -> (r: Option<&str>)
        ensures
            opt_str(r) == (match self.config {
                Some(c) => required_series(c@),
                None => None,
            }),
    {
        match &self.config {
            Some(c) => match &c.workspace {
                Some(w) => as_opt_str(&w.pcb_version),
                None => None,
            },
            None => None,
        }
    }

    /// Whether the workspace requires a toolchain that selects versions the second way: series 0.4
    /// or later.
    pub fn requires_mvs_v2(&self) -> (r: bool)
        ensures
            r == selects_second_way(
                match self.config {
                    Some(c) => required_series(c@),
                    None => None,
                },
            ),
    {
        match self.pcb_version() {
            Some(v) => match parse_pcb_version(v) {
                Some(s) => s.0 > 0 || s.1 >= 4,
                None => false,
            },
            None => false,
        }
    }

    /// The packages in the order of their URLs.
    pub fn all_packages(&self) -> (r: Vec<&WorkspacePackage>)
        ensures
            r@.len() == self.packages.entries@.len(),
            forall|i: int| 0 <= i < r@.len() ==> *(#[trigger] r@[i]) == self.packages.entries@[i].1,
    {
        let mut out: Vec<&WorkspacePackage> = Vec::new();
        let mut i: usize = 0;
        while i < self.packages.entries.len()
            invariant
                i <= self.packages.entries@.len(),
                out@.len() == i,
                forall|k: int| 0 <= k < i ==> *(#[trigger] out@[k]) == self.packages.entries@[k].1,
            decreases self.packages.entries@.len() - i,
        {
            out.push(&self.packages.entries[i].1);
            i += 1;
        }
        out
    }

    /// The packages that can be published, those without a board, in the order of their URLs.
    pub fn publishable_packages(&self) -> (r: Vec<&WorkspacePackage>)
        ensures
            derefs(r@) == without_board(self.packages.entries@),
    {
        let mut out: Vec<&WorkspacePackage> = Vec::new();
        let ghost all = self.packages.entries@;
        let mut i: usize = 0;
        proof {
            assert(all.take(0) =~= Seq::<(String, WorkspacePackage)>::empty());
            assert(derefs(out@) =~= Seq::<WorkspacePackage>::empty());
        }
        while i < self.packages.entries.len()
            invariant
                i <= self.packages.entries@.len(),
                all == self.packages.entries@,
                derefs(out@) == without_board(all.take(i as int)),
            decreases self.packages.entries@.len() - i,
        {
            proof {
                assert(all.take(i + 1).drop_last() =~= all.take(i as int));
                assert(all.take(i + 1).last() == all[i as int]);
            }
            if self.packages.entries[i].1.config.board.is_none() {
                let ghost prior = derefs(out@);
                out.push(&self.packages.entries[i].1);
                proof {
                    assert(derefs(out@) =~= prior.push(all[i as int].1));
                }
            }
            i += 1;
        }
        proof {
            assert(all.take(all.len() as int) =~= all);
        }
        out
    }

    /// The number of packages.
    pub fn package_count(&self) -> (r: usize)
        ensures
            r == self.packages.entries@.len(),
    {
        self.packages.len()
    }

    /// The boards of the workspace by name. Where two packages declare a board of the same name the
    /// later package counts.
    pub fn boards(&self) -> (r: SortedMap<String, BoardInfo>)
        ensures
            r.wf(),
            forall|q: Seq<char>|
                opt_board(#[trigger] find(r.entries@, q)) == board_named(self.packages.entries@, q),
    {
        let ghost all = self.packages.entries@;
        let mut out: SortedMap<String, BoardInfo> = SortedMap::new();
        let mut i: usize = 0;
        proof {
            assert(all.take(0) =~= Seq::<(String, WorkspacePackage)>::empty());
        }
        while i < self.packages.entries.len()
            invariant
                i <= self.packages.entries@.len(),
                all == self.packages.entries@,
                out.wf(),
                forall|q: Seq<char>|
                    opt_board(#[trigger] find(out.entries@, q)) == board_named(
                        all.take(i as int),
                        q,
                    ),
            decreases self.packages.entries@.len() - i,
        {
            proof {
                assert(all.take(i + 1).drop_last() =~= all.take(i as int));
                assert(all.take(i + 1).last() == all[i as int]);
            }
            let ghost before = out.entries@;
            let p = &self.packages.entries[i].1;
            if let Some(b) = &p.config.board {
                if let Some(zen) = &b.path {
                    let info = BoardInfo {
                        name: b.name.clone(),
                        zen_path: path_join(p.rel_path.as_str(), zen.as_str()),
                        description: b.description.clone(),
                    };
                    out.insert(b.name.clone(), info);
                }
            }
            proof {
                assert forall|q: Seq<char>|
                    opt_board(#[trigger] find(out.entries@, q)) == board_named(
                        all.take(i + 1),
                        q,
                    ) by {
                    assert(opt_board(find(before, q)) == board_named(all.take(i as int), q));
                }
            }
            i += 1;
        }
        proof {
            assert(all.take(all.len() as int) =~= all);
        }
        out
    }

    /// Finds a board by name; the error lists the boards that there are.
    pub fn find_board_by_name(&self, board_name: &str) -> (r: Result<BoardInfo, WorkspaceError>)
        ensures
            match r {
                Ok(b) => board_named(self.packages.entries@, board_name@) == Some(b@),
                Err(WorkspaceError::BoardNotFound { name, available }) => board_named(
                    self.packages.entries@,
                    board_name@,
                ) is None && name@ == board_name@ && crate::text::strictly_ascending(
                    texts(available@),
                ) && forall|q: Seq<char>|
                    #[trigger] texts(available@).contains(q) <==> board_named(
                        self.packages.entries@,
                        q,
                    ) is Some,
                Err(_) => false,
            },
    {
        let boards = self.boards();
        match boards.get(&board_name.to_owned()) {
            Some(b) => {
                proof {
                    assert(opt_board(find(boards.entries@, board_name@)) is Some);
                }
                return Ok(b.copy());
            },
            None => {
                proof {
                    assert(opt_board(find(boards.entries@, board_name@)) is None);
                }
            },
        }
        let mut available: Vec<String> = Vec::new();
        let mut i: usize = 0;
        while i < boards.entries.len()
            invariant
                i <= boards.entries@.len(),
                available@.len() == i,
                forall|k: int| 0 <= k < i ==> (#[trigger] available@[k])@ == boards.entries@[k].0@,
            decreases boards.entries@.len() - i,
        {
            available.push(boards.entries[i].0.clone());
            i += 1;
        }
        proof {
            let names = texts(available@);
            assert forall|a: int, b: int| 0 <= a < b < names.len() implies crate::text::text_before(
                #[trigger] names[a],
                #[trigger] names[b],
            ) by {
                assert(names[a] == boards.entries@[a].0@);
                assert(names[b] == boards.entries@[b].0@);
                assert(<String as crate::map::Key>::before(
                    boards.entries@[a].0@,
                    boards.entries@[b].0@,
                ));
            }
            assert forall|q: Seq<char>|
                #[trigger] names.contains(q) <==> board_named(
                    self.packages.entries@,
                    q,
                ) is Some by {
                assert(opt_board(find(boards.entries@, q)) == board_named(
                    self.packages.entries@,
                    q,
                ));
                lemma_slot(boards.entries@, q);
                if names.contains(q) {
                    let k = choose|k: int| 0 <= k < names.len() && names[k] == q;
                    lemma_slot_at(boards.entries@, k);
                }
                if find(boards.entries@, q) is Some {
                    let k = slot(boards.entries@, q);
                    assert(names[k] == q);
                }
            }
        }
        Err(WorkspaceError::BoardNotFound { name: board_name.to_owned(), available })
    }
}

/// The manifests behind a list of references.
pub open spec fn manifest_derefs(v: Seq<&PcbToml>) -> Seq<PcbToml> {
    Seq::new(v.len(), |i: int| *v[i])
}

/// The packages behind a list of references.
pub open spec fn derefs(v: Seq<&WorkspacePackage>) -> Seq<WorkspacePackage> {
    Seq::new(v.len(), |i: int| *v[i])
}

/// The packages without a board, in order.
pub open spec fn without_board(s: Seq<(String, WorkspacePackage)>) -> Seq<WorkspacePackage>
    decreases s.len(),
{
    if s.len() == 0 {
        Seq::<WorkspacePackage>::empty()
    } else if s.last().1.config.board is None {
        without_board(s.drop_last()).push(s.last().1)
    } else {
        without_board(s.drop_last())
    }
}

/// Whether a package declares a board of a name, with a file.
pub open spec fn declares_board(p: WorkspacePackage, q: Seq<char>) -> bool {
    p.config.board is Some && p.config.board->Some_0.name@ == q && p.config.board->Some_0.path is Some
}

/// A board is there exactly where a package declares one of that name with a file; it is that of the
/// last such package, and its file lies in the directory of the package.
pub proof fn law_board_lies_in_its_package(
    s: Seq<(String, WorkspacePackage)>,
    root: Seq<char>,
    q: Seq<char>,
)
    ensures
        match board_named(s, q) {
            None => forall|i: int| 0 <= i < s.len() ==> !declares_board((#[trigger] s[i]).1, q),
            Some(b) => exists|i: int|
                {
                    let p = (#[trigger] s[i]).1;
                    let zen = p.config.board->Some_0.path->Some_0@;
                    &&& 0 <= i < s.len()
                    &&& declares_board(p, q)
                    &&& forall|k: int| i < k < s.len() ==> !declares_board((#[trigger] s[k]).1, q)
                    &&& b.name == q
                    &&& b.description == p.config.board->Some_0.description@
                    &&& !is_absolute(zen) && !starts_here(zen) ==> components(b.file_in(root))
                        == components(p.dir_of(root)) + components(zen)
                },
        },
    decreases s.len(),
{
    if s.len() > 0 {
        let d = s.drop_last();
        let p = s.last().1;
        assert(s[s.len() - 1] == s.last());
        if declares_board(p, q) {
            let zen = p.config.board->Some_0.path->Some_0@;
            let b = board_named(s, q)->Some_0;
            if !is_absolute(zen) && !starts_here(zen) {
                law_join_is_associative(root, p.rel_path@, zen);
                law_join_appends_components(p.dir_of(root), zen);
            }
        } else {
            law_board_lies_in_its_package(d, root, q);
            match board_named(d, q) {
                None => {
                    assert forall|i: int| 0 <= i < s.len() implies !declares_board(
                        (#[trigger] s[i]).1,
                        q,
                    ) by {
                        if i < d.len() {
                            assert(d[i] == s[i]);
                        }
                    }
                },
                Some(b) => {
                    let i = choose|i: int|
                        {
                            let p = (#[trigger] d[i]).1;
                            let zen = p.config.board->Some_0.path->Some_0@;
                            &&& 0 <= i < d.len()
                            &&& declares_board(p, q)
                            &&& forall|k: int|
                                i < k < d.len() ==> !declares_board((#[trigger] d[k]).1, q)
                            &&& b.name == q
                            &&& b.description == p.config.board->Some_0.description@
                            &&& !is_absolute(zen) && !starts_here(zen) ==> components(
                                b.file_in(root),
                            ) == components(p.dir_of(root)) + components(zen)
                        };
                    assert(s[i] == d[i]);
                    assert forall|k: int| i < k < s.len() implies !declares_board(
                        (#[trigger] s[k]).1,
                        q,
                    ) by {
                        if k < d.len() {
                            assert(d[k] == s[k]);
                        }
                    }
                },
            }
        }
    }
}

} // verus!
