//! Core of the Zener toolchain: workspaces, packages, load paths and the circuit model.
//!
//! Paths, URLs and names are text; a contract speaks of text through its view, the sequence of its
//! characters. Input and output stay outside: a file provider reads, and the functions here decide.

use vstd::prelude::*;

pub mod attrs;
pub mod call_laws;
pub mod config;
pub mod convert;
pub mod convert_laws;
pub mod diagnostic;
pub mod discovery;
pub mod discovery_laws;
pub mod file_extensions;
pub mod frozen;
pub mod frozen_laws;
pub mod glob;
pub mod kicad_library;
pub mod lang;
pub mod library_laws;
pub mod load_spec;
pub mod manifest_laws;
pub mod map;
pub mod path;
pub mod position_laws;
pub mod render;
pub mod render_laws;
pub mod resolution;
pub mod resolution_laws;
pub mod resolved;
pub mod schematic;
pub mod small_map;
pub mod stdlib;
pub mod text;
pub mod version;
pub mod workspace;
pub mod workspace_laws;

use crate::load_spec::{same_spec, spec_text, LoadSpec, LoadSpecView};
use crate::path::{components, file_name, file_name_of, is_absolute, is_plain_component};
use crate::path::{law_join_appends_components, law_joined_components, path_join, path_joined};
use crate::path::{rendered, split_path};
use crate::text::{cut_last, join, joined, lemma_texts_push, number, parse_u64, pieces, rsplit_once};
use crate::text::{same, split_on, texts, to_lowercase, unicode_lowercase};
use crate::version::{opt_version, semver_parse, semver_parsed, Version, VersionParts};

verus! {

/// Canonical virtual module path of the standard library.
pub const STDLIB_MODULE_PATH: &'static str = "stdlib";

/// Initial version assigned to unpublished packages.
pub const INITIAL_PACKAGE_VERSION: &'static str = "0.1.0";

/// Version of this toolchain release.
pub const TOOLCHAIN_VERSION: &'static str = "0.4.0";

/// The initial version of a package.
pub fn initial_package_version() -> (r: Version)
    ensures
        r@ == (0u64, 1u64, 0u64, Seq::<char>::empty(), Seq::<char>::empty()),
{
    Version::new(0, 1, 0)
}

/// `s` without the characters `c` that it begins with.
pub open spec fn without_leading(s: Seq<char>, c: char) -> Seq<char>
    decreases s.len(),
{
    if s.len() > 0 && s[0] == c {
        without_leading(s.skip(1), c)
    } else {
        s
    }
}

/// Drops the characters `c` that `s` begins with.
fn skip_leading(s: &str, c: char) -> (r: &str)
    ensures
        r@ == without_leading(s@, c),
{
    let n: usize = s.unicode_len();
    let mut i: usize = 0;
    proof {
        assert(s@.skip(0) =~= s@);
    }
    while i < n && s.get_char(i) == c
        invariant
            i <= n,
            n == s@.len(),
            without_leading(s@.skip(i as int), c) == without_leading(s@, c),
        decreases n - i,
    {
        proof {
            assert(s@.skip(i as int).skip(1) =~= s@.skip(i + 1));
        }
        i += 1;
    }
    proof {
        assert(s@.subrange(i as int, n as int) =~= s@.skip(i as int));
    }
    s.substring_char(i, n)
}

/// A version that is written as its numbers alone.
pub open spec fn plain_version(major: int, minor: int) -> VersionParts {
    (major as u64, minor as u64, 0u64, Seq::<char>::empty(), Seq::<char>::empty())
}

/// The version that one or two numbers, separated by a dot, stand for.
pub open spec fn shorthand_version(t: Seq<char>) -> Option<VersionParts> {
    let p = pieces(t, '.');
    let max = u64::MAX as int;
    if p.len() == 1 && number(p[0], max) is Some {
        Some(plain_version(number(p[0], max)->Some_0, 0))
    } else if p.len() == 2 && number(p[0], max) is Some && number(p[1], max) is Some {
        Some(plain_version(number(p[0], max)->Some_0, number(p[1], max)->Some_0))
    } else {
        None
    }
}

/// A version specifier without its leading `^` and `v`.
pub open spec fn bare_version(s: Seq<char>) -> Seq<char> {
    without_leading(without_leading(s, '^'), 'v')
}

/// The version that a specifier stands for: a full version, or a shorthand for one.
pub open spec fn relaxed_version(s: Seq<char>) -> Option<VersionParts> {
    let t = bare_version(s);
    match semver_parsed(t) {
        Some(v) => Some(v),
        None => shorthand_version(t),
    }
}

/// The version of a bare text, where `parsed` is the full version that it holds, if it holds one.
pub fn complete_version(t: &str, parsed: Option<Version>) -> (r: Option<Version>)
    ensures
        opt_version(r) == (match parsed {
            Some(v) => Some(v@),
            None => shorthand_version(t@),
        }),
{
    if let Some(v) = parsed {
        return Some(v);
    }
    let parts = split_on(t, '.');
    proof {
        assert forall|i: int| 0 <= i < parts@.len() implies #[trigger] parts@[i]@ == pieces(
            t@,
            '.',
        )[i] by {
            assert(texts(parts@)[i] == parts@[i]@);
        }
    }
    if parts.len() == 1 {
        match parse_u64(parts[0].as_str()) {
            Some(major) => Some(Version::new(major, 0, 0)),
            None => None,
        }
    } else if parts.len() == 2 {
        match (parse_u64(parts[0].as_str()), parse_u64(parts[1].as_str())) {
            (Some(major), Some(minor)) => Some(Version::new(major, minor, 0)),
            _ => None,
        }
    } else {
        None
    }
}

/// Reads a dependency version with optional `^` or `v` and shorthand numbers.
pub fn parse_relaxed_version(s: &str) -> (r: Option<Version>)
    ensures
        opt_version(r) == relaxed_version(s@),
{
    let t = skip_leading(skip_leading(s, '^'), 'v');
    complete_version(t, semver_parse(t))
}

/// Whether a module path is that of the standard library.
pub fn is_stdlib_module_path(path: &str) -> (r: bool)
    ensures
        r == (path@ == STDLIB_MODULE_PATH@),
{
    same(path, STDLIB_MODULE_PATH)
}

/// The packages of the KiCad libraries, which come with the toolchain.
pub open spec fn kicad_package(path: Seq<char>) -> bool {
    path == "gitlab.com/kicad/libraries/kicad-symbols"@ || path
        == "gitlab.com/kicad/libraries/kicad-footprints"@ || path
        == "gitlab.com/kicad/libraries/kicad-packages3D"@
}

/// What precedes the last `@` of a dependency key, or all of it.
pub open spec fn key_path(key: Seq<char>) -> Seq<char> {
    match cut_last(key, '@') {
        Some(p) => p.0,
        None => key,
    }
}

/// Whether a package belongs to the KiCad libraries.
pub fn is_kicad_library_package(path: &str) -> (r: bool)
    ensures
        r == kicad_package(path@),
{
    same(path, "gitlab.com/kicad/libraries/kicad-symbols") || same(
        path,
        "gitlab.com/kicad/libraries/kicad-footprints",
    ) || same(path, "gitlab.com/kicad/libraries/kicad-packages3D")
}

/// Whether a dependency key, with or without a lane, names a package of the KiCad libraries.
pub fn is_kicad_library_dependency_key(key: &str) -> (r: bool)
    ensures
        r == kicad_package(key_path(key@)),
{
    match rsplit_once(key, '@') {
        Some((path, _)) => is_kicad_library_package(path.as_str()),
        None => is_kicad_library_package(key),
    }
}

/// Where a workspace keeps its standard library.
pub open spec fn stdlib_root_of(root: Seq<char>) -> Seq<char> {
    path_joined(path_joined(root, ".pcb"@), STDLIB_MODULE_PATH@)
}

/// The directory of the workspace-local standard library, `<workspace_root>/.pcb/stdlib`.
pub fn workspace_stdlib_root(workspace_root: &str) -> (r: String)
    ensures
        r@ == stdlib_root_of(workspace_root@),
{
    path_join(path_join(workspace_root, ".pcb").as_str(), STDLIB_MODULE_PATH)
}

/// A directory entry with the file type that its directory's listing reported.
pub struct DirEntry {
    pub path: String,
    /// Whether the entry is a directory, symbolic links not followed.
    pub is_dir: bool,
    pub is_symlink: bool,
}

impl DirEntry {
    /// The entry of a path. `leads_to_directory` says whether the path is a directory once symbolic
    /// links are followed.
    pub fn seen(path: String, leads_to_directory: bool, is_symlink: bool) -> (r: DirEntry)
        ensures
            r.path@ == path@,
            r.is_dir == (leads_to_directory && !is_symlink),
            r.is_symlink == is_symlink,
    {
        DirEntry { path, is_dir: leads_to_directory && !is_symlink, is_symlink }
    }
}

/// Why a file provider could not answer.
pub enum FileProviderError {
    NotFound(String),
    PermissionDenied(String),
    IoError(String),
}

impl FileProviderError {
    /// The text of the error.
    pub open spec fn text(&self) -> Seq<char> {
        match *self {
            FileProviderError::NotFound(path) => "File not found: "@ + path@,
            FileProviderError::PermissionDenied(path) => "Permission denied: "@ + path@,
            FileProviderError::IoError(what) => "IO error: "@ + what@,
        }
    }

    /// The text of the error.
    pub fn message(&self) -> (r: String)
        ensures
            r@ == self.text(),
    {
        let (mut out, rest): (String, &String) = match self {
            FileProviderError::NotFound(path) => ("File not found: ".to_owned(), path),
            FileProviderError::PermissionDenied(path) => ("Permission denied: ".to_owned(), path),
            FileProviderError::IoError(what) => ("IO error: ".to_owned(), what),
        };
        out.append(rest.as_str());
        out
    }
}

/// Access to files, for the users of the library to implement.
pub trait FileProvider {
    /// Reads a file.
    fn read_file(&self, path: &str) -> Result<String, FileProviderError>;

    /// Whether a path exists.
    fn path_exists(&self, path: &str) -> bool;

    /// Whether a path is a directory.
    fn is_directory(&self, path: &str) -> bool;

    /// Whether a path is a symbolic link.
    fn is_symlink(&self, path: &str) -> bool;

    /// The paths in a directory.
    fn list_directory(&self, path: &str) -> Result<Vec<String>, FileProviderError>;

    /// A directory's entries with their file types. By default each path of the directory becomes
    /// one entry, in the order of the listing, and is asked whether it is a symbolic link and whether
    /// it is a directory; a listing that fails is passed on.
    fn list_directory_entries(&self, path: &str) -> (r: Result<Vec<DirEntry>, FileProviderError>)
        default_ensures
            match r {
                Ok(entries) => exists|paths: Vec<String>| #[trigger]
                    call_ensures(
                        Self::list_directory,
                        (self, path),
                        Ok::<Vec<String>, FileProviderError>(paths),
                    ) && entries@.len() == paths@.len() && forall|i: int|
                        0 <= i < paths@.len() ==> (#[trigger] entries@[i]).path@ == paths@[i]@
                            && exists|p: &str, leads_to_directory: bool|
                            p@ == paths@[i]@ && #[trigger] call_ensures(
                                Self::is_directory,
                                (self, p),
                                leads_to_directory,
                            ) && call_ensures(
                                Self::is_symlink,
                                (self, p),
                                entries@[i].is_symlink,
                            ) && entries@[i].is_dir == (leads_to_directory
                                && !entries@[i].is_symlink),
                Err(e) => call_ensures(
                    Self::list_directory,
                    (self, path),
                    Err::<Vec<String>, FileProviderError>(e),
                ),
            },
    {
        let paths = match self.list_directory(path) {
            Ok(paths) => paths,
            Err(e) => return Err(e),
        };
        let mut out: Vec<DirEntry> = Vec::new();
        let mut i: usize = 0;
        while i < paths.len()
            invariant
                i <= paths.len(),
                out.len() == i,
                forall|k: int|
                    0 <= k < i ==> (#[trigger] out@[k]).path@ == paths@[k]@ && exists|
                        p: &str,
                        leads_to_directory: bool,
                    |
                        p@ == paths@[k]@ && #[trigger] call_ensures(
                            Self::is_directory,
                            (self, p),
                            leads_to_directory,
                        ) && call_ensures(Self::is_symlink, (self, p), out@[k].is_symlink)
                            && out@[k].is_dir == (leads_to_directory && !out@[k].is_symlink),
            decreases paths.len() - i,
        {
            let p = paths[i].as_str();
            let is_symlink = self.is_symlink(p);
            let is_directory = self.is_directory(p);
            let ghost before = out@;
            out.push(DirEntry::seen(paths[i].clone(), is_directory, is_symlink));
            proof {
                assert forall|k: int| 0 <= k < i + 1 implies (#[trigger] out@[k]).path@ == paths@[k]@
                    && exists|q: &str, d: bool|
                    q@ == paths@[k]@ && #[trigger] call_ensures(Self::is_directory, (self, q), d)
                        && call_ensures(Self::is_symlink, (self, q), out@[k].is_symlink)
                        && out@[k].is_dir == (d && !out@[k].is_symlink) by {
                    if k < i {
                        assert(out@[k] == before[k]);
                    } else {
                        assert(p@ == paths@[k]@);
                    }
                }
            }
            i += 1;
        }
        Ok(out)
    }

    /// Makes a path absolute and resolves its links.
    fn canonicalize(&self, path: &str) -> Result<String, FileProviderError>;

    /// The global package cache; by default there is none.
    fn cache_dir(&self) -> (r: String)
        default_ensures
            r@.len() == 0,
    {
        String::new()
    }
}

/// Whether a file provider gives an answer, or the text of an error, when it is asked for the
/// canonical form of a path.
pub open spec fn asked_canonical<F: FileProvider>(
    file_provider: &F,
    path: Seq<char>,
    r: Result<Seq<char>, Seq<char>>,
) -> bool {
    exists|s: &str, a: Result<String, FileProviderError>|
        s@ == path && #[trigger] call_ensures(F::canonicalize, (file_provider, s), a) && r == (
        match a {
            Ok(q) => Ok(q@),
            Err(e) => Err(e.text()),
        })
}

/// Whether a text is what a file provider makes of a path: its canonical form, or the path itself
/// where it has none.
pub open spec fn made_canonical<F: FileProvider>(
    file_provider: &F,
    path: Seq<char>,
    r: Seq<char>,
) -> bool {
    exists|s: &str, a: Result<String, FileProviderError>|
        s@ == path && #[trigger] call_ensures(F::canonicalize, (file_provider, s), a) && r == (
        match a {
            Ok(q) => q@,
            Err(_) => path,
        })
}

/// Whether a file provider gives an answer when it is asked whether a path exists.
pub open spec fn asked_whether_exists<F: FileProvider>(
    file_provider: &F,
    path: Seq<char>,
    r: bool,
) -> bool {
    exists|s: &str| s@ == path && #[trigger] call_ensures(F::path_exists, (file_provider, s), r)
}

/// What a name of a module stands for.
#[derive(Clone, Copy, PartialEq, Eq, Structural, Debug)]
pub enum SymbolKind {
    Function,
    Module,
    Class,
    Variable,
    Interface,
    Component,
}

/// What is known of a name of a module.
pub struct SymbolInfo {
    pub kind: SymbolKind,
    pub parameters: Option<Vec<String>>,
    pub source_path: Option<String>,
    pub type_label: String,
    pub documentation: Option<String>,
}

/// A package alias: its target, and the manifest that defines it, if one does.
pub struct AliasInfo {
    pub target: String,
    pub source_path: Option<String>,
}

/// Why a load path could not be resolved by its text alone.
pub enum PathError {
    /// A load path led back to one that had been tried.
    Cycle { spec: String },
    /// A relative path leaves the package root.
    Escapes { url: String },
    /// The name on disk differs in letter case.
    CaseMismatch { expected: String, found: String },
}

impl PathError {
    /// The text of the error.
    pub open spec fn text(&self) -> Seq<char> {
        match *self {
            PathError::Cycle { spec } => "Circular dependency detected: spec "@ + spec@
                + " creates a cycle in resolution history"@,
            PathError::Escapes { url } => "Relative path escapes beyond package root: '"@ + url@
                + "'"@,
            PathError::CaseMismatch { expected, found } => "Case mismatch: expected '"@ + expected@
                + "', found '"@ + found@ + "'"@,
        }
    }

    /// The text of the error.
    pub fn message(&self) -> (r: String)
        ensures
            r@ == self.text(),
    {
        match self {
            PathError::Cycle { spec } => {
                let mut out = "Circular dependency detected: spec ".to_owned();
                out.append(spec.as_str());
                out.append(" creates a cycle in resolution history");
                out
            },
            PathError::Escapes { url } => {
                let mut out = "Relative path escapes beyond package root: '".to_owned();
                out.append(url.as_str());
                out.append("'");
                out
            },
            PathError::CaseMismatch { expected, found } => {
                let mut out = "Case mismatch: expected '".to_owned();
                out.append(expected.as_str());
                out.append("', found '");
                out.append(found.as_str());
                out.append("'");
                out
            },
        }
    }
}

/// The state of resolving one load path: the file that loads, and the load paths tried so far, the
/// original one first.
pub struct ResolveContext {
    pub current_file: String,
    pub spec_history: Vec<LoadSpec>,
}

/// The contents of a list of load paths.
pub open spec fn specs(v: Seq<LoadSpec>) -> Seq<LoadSpecView> {
    Seq::new(v.len(), |i: int| v[i]@)
}

/// Whether no two load paths of a list are the same.
pub open spec fn all_apart(v: Seq<LoadSpecView>) -> bool {
    forall|i: int, j: int| 0 <= i < j < v.len() ==> !same_spec(#[trigger] v[i], #[trigger] v[j])
}

/// Whether a list holds a load path.
pub open spec fn holds_spec(v: Seq<LoadSpecView>, s: LoadSpecView) -> bool {
    exists|i: int| 0 <= i < v.len() && same_spec(#[trigger] v[i], s)
}

/// Whether a load path was recorded, unless it was tried before.
pub open spec fn spec_recorded(
    before: ResolveContext,
    after: ResolveContext,
    asked: LoadSpecView,
    r: Result<(), PathError>,
) -> bool {
    &&& after.current_file == before.current_file
    &&& r is Err <==> holds_spec(specs(before.spec_history@), asked)
    &&& match r {
        Ok(_) => specs(after.spec_history@) == specs(before.spec_history@).push(asked),
        Err(e) => after == before && e.text() == "Circular dependency detected: spec "@
            + spec_text(asked) + " creates a cycle in resolution history"@,
    }
}

impl ResolveContext {
    /// The invariant: some load path was asked for, and none was tried twice.
    pub open spec fn wf(&self) -> bool {
        self.spec_history@.len() > 0 && all_apart(specs(self.spec_history@))
    }

    /// Starts to resolve a load path.
    pub fn new(current_file: String, load_spec: LoadSpec) -> (r: ResolveContext)
        ensures
            r.wf(),
            r.current_file@ == current_file@,
            specs(r.spec_history@) == seq![load_spec@],
    {
        let mut history: Vec<LoadSpec> = Vec::new();
        history.push(load_spec);
        proof {
            assert(specs(history@) =~= seq![load_spec@]);
        }
        ResolveContext { current_file, spec_history: history }
    }

    /// The load path resolved furthest.
    pub fn latest_spec(&self) -> (r: &LoadSpec)
        requires
            self.wf(),
        ensures
            *r == self.spec_history@.last(),
    {
        &self.spec_history[self.spec_history.len() - 1]
    }

    /// The load path asked for.
    pub fn original_spec(&self) -> (r: &LoadSpec)
        requires
            self.wf(),
        ensures
            *r == self.spec_history@[0],
    {
        &self.spec_history[0]
    }

    /// Records a load path resolved further, unless it was tried before.
    pub fn push_spec(&mut self, spec: LoadSpec) -> (r: Result<(), PathError>)
        requires
            old(self).wf(),
        ensures
            final(self).wf(),
            spec_recorded(*old(self), *final(self), spec@, r),
    {
        let ghost before = specs(self.spec_history@);
        let mut i: usize = 0;
        while i < self.spec_history.len()
            invariant
                i <= self.spec_history.len(),
                *self == *old(self),
                self.wf(),
                before == specs(self.spec_history@),
                forall|k: int| 0 <= k < i ==> !same_spec(#[trigger] before[k], spec@),
            decreases self.spec_history.len() - i,
        {
            if self.spec_history[i].equals(&spec) {
                proof {
                    assert(same_spec(before[i as int], spec@));
                }
                return Err(PathError::Cycle { spec: spec.to_text() });
            }
            i += 1;
        }
        self.spec_history.push(spec);
        proof {
            assert(specs(self.spec_history@) =~= before.push(spec@));
        }
        Ok(())
    }
}

/// One step of resolving `.` and `..`: a name goes down, `..` goes up where there is a name to go up
/// from, and is kept where there is not. Under the root one `..` is kept at most, and the next takes
/// it away again.
pub open spec fn normalized_step(acc: Seq<Seq<char>>, c: Seq<char>) -> Seq<Seq<char>> {
    if c == seq!['.'] {
        acc
    } else if c == seq!['.', '.'] {
        if acc.len() == 0 || acc == seq![seq!['/']] || (acc[0] != seq!['/'] && acc.last() == seq![
            '.',
            '.',
        ]) {
            acc.push(c)
        } else {
            acc.drop_last()
        }
    } else {
        acc.push(c)
    }
}

/// Components with `.` and `..` resolved.
pub open spec fn normalized(c: Seq<Seq<char>>) -> Seq<Seq<char>>
    decreases c.len(),
{
    if c.len() == 0 {
        c
    } else {
        normalized_step(normalized(c.drop_last()), c.last())
    }
}

/// A path with its `.` and `..` components resolved.
pub open spec fn normal_form(p: Seq<char>) -> Seq<char> {
    rendered(normalized(components(p)))
}

/// Resolves the `.` and `..` components of a path. A `..` that no name stands before is kept; under
/// the root one such `..` is kept and the next takes it away.
pub fn normalize_path(p: &str) -> (r: String)
    ensures
        r@ == normal_form(p@),
{
    let parts = split_path(p);
    let ghost all = texts(parts@);
    let mut acc: Vec<String> = Vec::new();
    let mut i: usize = 0;
    proof {
        reveal_strlit("/");
        reveal_strlit(".");
        reveal_strlit("..");
        assert("/"@ =~= seq!['/']);
        assert("."@ =~= seq!['.']);
        assert(".."@ =~= seq!['.', '.']);
        assert(all.take(0) =~= Seq::<Seq<char>>::empty());
        assert(texts(acc@) =~= Seq::<Seq<char>>::empty());
    }
    while i < parts.len()
        invariant
            i <= parts.len(),
            all == texts(parts@),
            texts(acc@) == normalized(all.take(i as int)),
            "/"@ == seq!['/'],
            "."@ == seq!['.'],
            ".."@ == seq!['.', '.'],
        decreases parts.len() - i,
    {
        proof {
            assert(all.take(i + 1).drop_last() =~= all.take(i as int));
            assert(all.take(i + 1).last() == parts@[i as int]@);
        }
        if same(parts[i].as_str(), ".") {
        } else if same(parts[i].as_str(), "..") {
            let rooted = acc.len() > 0 && same(acc[0].as_str(), "/");
            let at_root = rooted && acc.len() == 1;
            proof {
                if at_root {
                    assert(texts(acc@) =~= seq![seq!['/']]);
                }
                if texts(acc@) == seq![seq!['/']] {
                    assert(texts(acc@).len() == acc@.len());
                    assert(texts(acc@)[0] == acc@[0]@);
                }
            }
            let goes_up = acc.len() > 0 && !rooted && same(acc[acc.len() - 1].as_str(), "..");
            proof {
                if acc@.len() > 0 {
                    assert(texts(acc@)[0] == acc@[0]@);
                    assert(texts(acc@).last() == acc@.last()@);
                }
            }
            if acc.len() == 0 || at_root || goes_up {
                proof {
                    lemma_texts_push(acc@, parts@[i as int]);
                }
                acc.push(parts[i].clone());
            } else {
                let ghost prior = texts(acc@);
                let _ = acc.pop();
                proof {
                    assert(texts(acc@) =~= prior.drop_last());
                }
            }
        } else {
            proof {
                lemma_texts_push(acc@, parts@[i as int]);
            }
            acc.push(parts[i].clone());
        }
        i += 1;
    }
    proof {
        assert(all.take(all.len() as int) =~= all);
    }
    if acc.len() > 0 && same(acc[0].as_str(), "/") {
        let mut out = "/".to_owned();
        let rest = crate::text::join_range(&acc, 1, acc.len(), "/");
        out.append(rest.as_str());
        proof {
            assert(texts(acc@).subrange(1, acc@.len() as int) =~= texts(acc@).skip(1));
            assert(texts(acc@)[0] == acc@[0]@);
        }
        out
    } else {
        proof {
            if acc@.len() > 0 {
                assert(texts(acc@)[0] == acc@[0]@);
            }
        }
        join(&acc, "/")
    }
}

/// Whether components are those that a path can have: plain ones, behind `/` or `.` where the path
/// begins with one.
pub open spec fn are_components(c: Seq<Seq<char>>) -> bool {
    forall|k: int|
        0 <= k < c.len() ==> is_plain_component(#[trigger] c[k]) || (k == 0 && (c[k] == seq!['/']
            || c[k] == seq!['.']))
}

/// Whether no `.` is left and each `..` stands before all names, under the root one at most.
pub open spec fn are_resolved(c: Seq<Seq<char>>) -> bool {
    forall|k: int|
        0 <= k < c.len() ==> #[trigger] c[k] != seq!['.'] && (c[k] == seq!['.', '.'] ==> k == 0 || (k
            == 1 && c[0] == seq!['/']) || (c[0] != seq!['/'] && c[k - 1] == seq!['.', '.']))
}

/// The root of a path, where it has one.
pub open spec fn root_part(c: Seq<Seq<char>>) -> Seq<Seq<char>> {
    if c.len() > 0 && c[0] == seq!['/'] {
        seq![c[0]]
    } else {
        Seq::<Seq<char>>::empty()
    }
}

/// What is left on a stack when each name is put on it and each `..` takes one off.
pub open spec fn left_on_stack(c: Seq<Seq<char>>) -> Seq<Seq<char>>
    decreases c.len(),
{
    if c.len() == 0 {
        c
    } else {
        let below = left_on_stack(c.drop_last());
        if c.last() == seq!['/'] || c.last() == seq!['.'] {
            below
        } else if c.last() == seq!['.', '.'] {
            below.drop_last()
        } else {
            below.push(c.last())
        }
    }
}

/// How many names more than `..` there are.
pub open spec fn depth_of(c: Seq<Seq<char>>) -> int
    decreases c.len(),
{
    if c.len() == 0 {
        0
    } else {
        depth_of(c.drop_last()) + (if c.last() == seq!['/'] || c.last() == seq!['.'] {
            0int
        } else if c.last() == seq!['.', '.'] {
            -1
        } else {
            1
        })
    }
}

/// Whether no `..` goes above where a path begins.
pub open spec fn stays_inside(c: Seq<Seq<char>>) -> bool {
    forall|k: int| 0 <= k <= c.len() ==> depth_of(#[trigger] c.take(k)) >= 0
}

proof fn lemma_path_components(p: Seq<char>)
    ensures
        are_components(components(p)),
        is_absolute(p) <==> components(p).len() > 0 && components(p)[0] == seq!['/'],
{
    let c = components(p);
    crate::path::lemma_spans(p);
    assert forall|k: int| 0 <= k < c.len() implies is_plain_component(#[trigger] c[k]) || (k == 0 && (
    c[k] == seq!['/'] || c[k] == seq!['.'])) by {
        crate::path::lemma_component(p, k);
    }
    if c.len() > 0 {
        crate::path::lemma_component(p, 0);
        if is_plain_component(c[0]) {
            assert(c[0] != seq!['/']) by {
                if c[0] == seq!['/'] {
                    assert(c[0][0] == '/');
                }
            }
        }
    }
}

proof fn lemma_normalized(c: Seq<Seq<char>>)
    requires
        are_components(c),
    ensures
        are_components(normalized(c)),
        are_resolved(normalized(c)),
        root_part(normalized(c)) == root_part(c),
    decreases c.len(),
{
    if c.len() > 0 {
        let d = c.drop_last();
        assert forall|k: int| 0 <= k < d.len() implies is_plain_component(#[trigger] d[k]) || (k == 0
            && (d[k] == seq!['/'] || d[k] == seq!['.'])) by {
            assert(d[k] == c[k]);
        }
        lemma_normalized(d);
        let n = normalized(d);
        let m = normalized(c);
        let last = c[c.len() - 1];
        assert(is_plain_component(last) || c.len() == 1);
        if is_plain_component(last) {
            assert(last != seq!['/']) by {
                if last == seq!['/'] {
                    assert(last[0] == '/');
                }
            }
        }
        assert(seq!['.', '.'] != seq!['.'] && seq!['.', '.'] != seq!['/']) by {
            assert(seq!['.', '.'].len() == 2);
        }
        assert(seq!['.'] != seq!['/']) by {
            assert(seq!['.'][0] == '.');
        }
        assert forall|k: int| 0 <= k < m.len() implies #[trigger] m[k] != seq!['.'] && (m[k]
            == seq!['.', '.'] ==> k == 0 || (k == 1 && m[0] == seq!['/']) || (m[0] != seq!['/'] && m[k - 1]
            == seq!['.', '.'])) by {
            if k < n.len() {
                assert(m[k] == n[k]);
                if k > 0 {
                    assert(m[k - 1] == n[k - 1]);
                    assert(m[0] == n[0]);
                }
            }
        }
        assert forall|k: int| 0 <= k < m.len() implies is_plain_component(#[trigger] m[k]) || (k == 0
            && (m[k] == seq!['/'] || m[k] == seq!['.'])) by {
            if k < n.len() {
                assert(m[k] == n[k]);
            } else {
                assert(m[k] == last);
            }
        }
        if n.len() > 0 && m.len() > 0 {
            assert(m[0] == n[0]);
        }
        if n.len() == 1 {
            assert(n =~= seq![n[0]]);
        }
        if d.len() > 0 {
            assert(d[0] == c[0]);
        } else {
            assert(n.len() == 0);
            assert(c[0] == last);
        }
        if root_part(d).len() > 0 {
            assert(root_part(n)[0] == n[0]);
        }
        assert(root_part(m) =~= root_part(c));
    }
}

proof fn lemma_resolved_stay(n: Seq<Seq<char>>)
    requires
        are_resolved(n),
    ensures
        normalized(n) == n,
    decreases n.len(),
{
    if n.len() > 0 {
        let d = n.drop_last();
        assert forall|k: int| 0 <= k < d.len() implies #[trigger] d[k] != seq!['.'] && (d[k]
            == seq!['.', '.'] ==> k == 0 || (k == 1 && d[0] == seq!['/']) || (d[0] != seq!['/'] && d[k - 1]
            == seq!['.', '.'])) by {
            assert(d[k] == n[k]);
            if k > 0 {
                assert(d[k - 1] == n[k - 1]);
            }
        }
        lemma_resolved_stay(d);
        let k = n.len() - 1;
        assert(n[k] == n.last());
        if k == 1 {
            assert(d =~= seq![n[0]]);
        }
        if k > 0 {
            assert(d.last() == n[k - 1]);
        }
        assert(d.push(n.last()) =~= n);
    }
}

proof fn lemma_rendered_components(n: Seq<Seq<char>>)
    requires
        are_components(n),
        are_resolved(n),
    ensures
        components(rendered(n)) == n,
        is_absolute(rendered(n)) <==> root_part(n).len() > 0,
{
    if n.len() > 0 && n[0] == seq!['/'] {
        let rest = n.skip(1);
        assert forall|i: int| 0 <= i < rest.len() implies is_plain_component(#[trigger] rest[i]) by {
            assert(rest[i] == n[i + 1]);
        }
        law_joined_components(rest);
        let t = joined(rest, seq!['/']);
        let base = seq!['/'];
        law_join_appends_components(base, t);
        assert(path_joined(base, t) == rendered(n));
        lemma_path_components(base);
        crate::path::lemma_root_components();
        assert(n =~= seq![seq!['/']] + rest);
        assert(rendered(n)[0] == '/');
    } else {
        assert forall|i: int| 0 <= i < n.len() implies is_plain_component(#[trigger] n[i]) by {
            assert(n[i] != seq!['.']);
        }
        law_joined_components(n);
    }
}

/// A resolved path holds no `.`, and `..` only before all names, one at most under the root; it is absolute where the path is;
/// and resolving it again changes nothing.
pub proof fn law_path_resolution_is_final(p: Seq<char>)
    ensures
        components(normal_form(p)) == normalized(components(p)),
        are_resolved(components(normal_form(p))),
        is_absolute(normal_form(p)) == is_absolute(p),
        normal_form(normal_form(p)) == normal_form(p),
{
    let c = components(p);
    lemma_path_components(p);
    lemma_normalized(c);
    lemma_rendered_components(normalized(c));
    lemma_resolved_stay(normalized(c));
}

/// Where no `..` goes above where a path begins, the resolved path holds none, and its names are
/// what is left on a stack when each name is put on it and each `..` takes one off.
pub proof fn law_path_names_are_left_on_stack(p: Seq<char>)
    requires
        stays_inside(components(p)),
    ensures
        components(normal_form(p)) == root_part(components(p)) + left_on_stack(components(p)),
        !components(normal_form(p)).contains(seq!['.', '.']),
        !components(normal_form(p)).contains(seq!['.']),
{
    law_path_resolution_is_final(p);
    lemma_path_components(p);
    lemma_stack(components(p));
    let n = normalized(components(p));
    if n.contains(seq!['.']) {
        let i = choose|i: int| 0 <= i < n.len() && n[i] == seq!['.'];
        assert(n[i] != seq!['.']);
    }
    if n.contains(seq!['.', '.']) {
        let i = choose|i: int| 0 <= i < n.len() && n[i] == seq!['.', '.'];
        let r = root_part(components(p));
        if i < r.len() {
            assert(n[i] == seq!['/']);
            assert(n[i].len() == 1);
        } else {
            assert(n[i] == left_on_stack(components(p))[i - r.len()]);
        }
    }
}

proof fn lemma_stack(c: Seq<Seq<char>>)
    requires
        are_components(c),
        stays_inside(c),
    ensures
        normalized(c) == root_part(c) + left_on_stack(c),
        left_on_stack(c).len() == depth_of(c),
        forall|i: int|
            0 <= i < left_on_stack(c).len() ==> #[trigger] left_on_stack(c)[i] != seq!['.', '.']
                && left_on_stack(c)[i] != seq!['/'],
    decreases c.len(),
{
    if c.len() == 0 {
        assert(normalized(c) =~= root_part(c) + left_on_stack(c));
    } else {
        let d = c.drop_last();
        assert forall|k: int| 0 <= k < d.len() implies is_plain_component(#[trigger] d[k]) || (k == 0
            && (d[k] == seq!['/'] || d[k] == seq!['.'])) by {
            assert(d[k] == c[k]);
        }
        assert forall|k: int| 0 <= k <= d.len() implies depth_of(#[trigger] d.take(k)) >= 0 by {
            assert(d.take(k) =~= c.take(k));
        }
        lemma_stack(d);
        assert(c.take(c.len() as int) =~= c);
        let last = c[c.len() - 1];
        let s = left_on_stack(d);
        let n = normalized(d);
        assert(is_plain_component(last) || c.len() == 1);
        if is_plain_component(last) {
            assert(last != seq!['/']) by {
                if last == seq!['/'] {
                    assert(last[0] == '/');
                }
            }
        }
        assert(seq!['.', '.'].len() == 2 && seq!['.'].len() == 1 && seq!['/'].len() == 1);
        assert(seq!['.'][0] == '.' && seq!['/'][0] == '/');
        if d.len() > 0 {
            assert(d[0] == c[0]);
        }
        if last == seq!['.', '.'] {
            assert(depth_of(c) >= 0);
            assert(s.len() > 0);
            assert(n.last() == s[s.len() - 1]);
            assert(n.len() == root_part(d).len() + s.len());
            assert(n.drop_last() =~= root_part(c) + s.drop_last());
        } else if last == seq!['/'] {
            assert(d =~= Seq::<Seq<char>>::empty());
            assert(normalized(c) =~= root_part(c) + left_on_stack(c));
        } else {
            assert(normalized(c) =~= root_part(c) + left_on_stack(c));
        }
    }
}

/// The segments of a URL with `.` and `..` resolved; `None` where `..` leaves the first segment.
pub open spec fn url_segments(parts: Seq<Seq<char>>) -> Option<Seq<Seq<char>>>
    decreases parts.len(),
{
    if parts.len() == 0 {
        Some(parts)
    } else {
        match url_segments(parts.drop_last()) {
            None => None,
            Some(acc) => if parts.last() == ".."@ {
                if acc.len() == 0 {
                    None
                } else {
                    Some(acc.drop_last())
                }
            } else if parts.last() == "."@ || parts.last().len() == 0 {
                Some(acc)
            } else {
                Some(acc.push(parts.last()))
            },
        }
    }
}

/// Once a URL has left its first segment, what follows does not bring it back.
proof fn lemma_url_segments_none(parts: Seq<Seq<char>>, k: int)
    requires
        0 <= k <= parts.len(),
        url_segments(parts.take(k)) is None,
    ensures
        url_segments(parts) is None,
    decreases parts.len() - k,
{
    if k < parts.len() {
        assert(parts.take(k + 1).drop_last() =~= parts.take(k));
        lemma_url_segments_none(parts, k + 1);
    } else {
        assert(parts.take(k) =~= parts);
    }
}

/// Resolves `.` and `..` in a URL-like path, which is text with `/` between its segments.
pub fn normalize_url_path(url: &str) -> (r: Result<String, PathError>)
    ensures
        match (r, url_segments(pieces(url@, '/'))) {
            (Ok(t), Some(parts)) => t@ == joined(parts, "/"@),
            (Err(e), None) => e.text() == "Relative path escapes beyond package root: '"@ + url@
                + "'"@,
            _ => false,
        },
{
    let parts = split_on(url, '/');
    let ghost all = texts(parts@);
    let mut acc: Vec<String> = Vec::new();
    let mut i: usize = 0;
    proof {
        assert(all.take(0) =~= Seq::<Seq<char>>::empty());
        assert(texts(acc@) =~= Seq::<Seq<char>>::empty());
    }
    while i < parts.len()
        invariant
            i <= parts.len(),
            all == texts(parts@),
            all == pieces(url@, '/'),
            url_segments(all.take(i as int)) == Some(texts(acc@)),
        decreases parts.len() - i,
    {
        proof {
            assert(all.take(i + 1).drop_last() =~= all.take(i as int));
            assert(all.take(i + 1).last() == parts@[i as int]@);
        }
        if same(parts[i].as_str(), "..") {
            if acc.len() == 0 {
                proof {
                    lemma_url_segments_none(all, i + 1);
                }
                return Err(PathError::Escapes { url: url.to_owned() });
            }
            let ghost prior = texts(acc@);
            let _ = acc.pop();
            proof {
                assert(texts(acc@) =~= prior.drop_last());
            }
        } else if same(parts[i].as_str(), ".") || parts[i].as_str().is_empty() {
        } else {
            proof {
                lemma_texts_push(acc@, parts@[i as int]);
            }
            acc.push(parts[i].clone());
        }
        i += 1;
    }
    proof {
        assert(all.take(all.len() as int) =~= all);
    }
    Ok(join(&acc, "/"))
}

/// Whether a resolved URL holds no `.`, no `..` and no empty segment.
pub open spec fn plain_segments(parts: Seq<Seq<char>>) -> bool {
    forall|i: int|
        0 <= i < parts.len() ==> #[trigger] parts[i] != ".."@ && parts[i] != "."@ && parts[i].len()
            > 0
}

/// A resolved URL holds no `.`, no `..` and no empty segment, and resolving it again changes
/// nothing.
pub proof fn law_url_resolution_is_final(parts: Seq<Seq<char>>)
    requires
        url_segments(parts) is Some,
    ensures
        plain_segments(url_segments(parts)->Some_0),
        url_segments(url_segments(parts)->Some_0) == url_segments(parts),
    decreases parts.len(),
{
    lemma_segments_plain(parts);
    lemma_plain_segments_stay(url_segments(parts)->Some_0);
}

proof fn lemma_segments_plain(parts: Seq<Seq<char>>)
    requires
        url_segments(parts) is Some,
    ensures
        plain_segments(url_segments(parts)->Some_0),
    decreases parts.len(),
{
    if parts.len() > 0 {
        lemma_segments_plain(parts.drop_last());
    }
}

proof fn lemma_plain_segments_stay(parts: Seq<Seq<char>>)
    requires
        plain_segments(parts),
    ensures
        url_segments(parts) == Some(parts),
    decreases parts.len(),
{
    if parts.len() > 0 {
        let t = parts.drop_last();
        assert forall|i: int| 0 <= i < t.len() implies #[trigger] t[i] != ".."@ && t[i] != "."@
            && t[i].len() > 0 by {
            assert(t[i] == parts[i]);
        }
        lemma_plain_segments_stay(t);
        assert(parts[parts.len() - 1] == parts.last());
        assert(t.push(parts.last()) =~= parts);
    }
}

/// Whether the name of a path and the name on disk are the same but for letter case.
pub open spec fn case_differs(original: Seq<char>, canonical: Seq<char>) -> bool {
    match (file_name_of(original), file_name_of(canonical)) {
        (Some(expected), Some(actual)) => expected != actual && unicode_lowercase(actual)
            == unicode_lowercase(expected),
        _ => false,
    }
}

/// Rejects a path whose name differs from that on disk in letter case alone, so that what works on
/// a file system that ignores case works on every other.
pub fn validate_path_case_with_canonical(original: &str, canonical: &str) -> (r: Result<
    (),
    PathError,
>)
    ensures
        r is Err <==> case_differs(original@, canonical@),
        match r {
            Ok(_) => true,
            Err(e) => e.text() == "Case mismatch: expected '"@ + file_name_of(original@)->Some_0
                + "', found '"@ + file_name_of(canonical@)->Some_0 + "'"@,
        },
{
    let expected = match file_name(original) {
        Some(name) => name,
        None => return Ok(()),
    };
    let found = match file_name(canonical) {
        Some(name) => name,
        None => return Ok(()),
    };
    if !same(expected.as_str(), found.as_str()) {
        let a = to_lowercase(found.as_str());
        let b = to_lowercase(expected.as_str());
        if same(a.as_str(), b.as_str()) {
            return Err(PathError::CaseMismatch { expected, found });
        }
    }
    Ok(())
}

} // verus!
