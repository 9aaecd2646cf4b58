//! What the text in a `load()` names.

use vstd::prelude::*;

use crate::path::{path_eq, path_join, path_joined, same_path};
use crate::text::{as_opt_str, before_first, begins, clone_opt, contains_char, cut_first, first_at};
use crate::text::{opt_str, opt_text, same, split_once, starts_with, strip_prefix};
use crate::STDLIB_MODULE_PATH;

verus! {

/// The prefix of a package URI.
pub const PACKAGE_URI_PREFIX: &'static str = "package://";

/// The tag that a package reference without one means.
pub const DEFAULT_PKG_TAG: &'static str = "latest";

/// A parsed load path.
pub enum LoadSpec {
    Package { package: String, tag: Option<String>, path: String },
    Stdlib { tag: Option<String>, path: String },
    Url { url: String },
    Path { path: String, allow_not_exist: bool },
    PackageUri { uri: String },
}

/// The contents of a load path.
pub enum LoadSpecView {
    Package { package: Seq<char>, tag: Option<Seq<char>>, path: Seq<char> },
    Stdlib { tag: Option<Seq<char>>, path: Seq<char> },
    Url { url: Seq<char> },
    Path { path: Seq<char>, allow_not_exist: bool },
    PackageUri { uri: Seq<char> },
}

impl View for LoadSpec {
    type V = LoadSpecView;

    open spec fn view(&self) -> LoadSpecView {
        match *self {
            LoadSpec::Package { package, tag, path } => LoadSpecView::Package {
                package: package@,
                tag: opt_text(tag),
                path: path@,
            },
            LoadSpec::Stdlib { tag, path } => LoadSpecView::Stdlib {
                tag: opt_text(tag),
                path: path@,
            },
            LoadSpec::Url { url } => LoadSpecView::Url { url: url@ },
            LoadSpec::Path { path, allow_not_exist } => LoadSpecView::Path {
                path: path@,
                allow_not_exist,
            },
            LoadSpec::PackageUri { uri } => LoadSpecView::PackageUri { uri: uri@ },
        }
    }
}

/// The contents of an optional load path.
pub open spec fn opt_spec(o: Option<LoadSpec>) -> Option<LoadSpecView> {
    match o {
        Some(s) => Some(s@),
        None => None,
    }
}

/// Whether two load paths name the same: paths are compared by their components.
pub open spec fn same_spec(a: LoadSpecView, b: LoadSpecView) -> bool {
    match (a, b) {
        (
            LoadSpecView::Package { package: p, tag: s, path: x },
            LoadSpecView::Package { package: q, tag: t, path: y },
        ) => p == q && s == t && same_path(x, y),
        (
            LoadSpecView::Stdlib { tag: s, path: x },
            LoadSpecView::Stdlib { tag: t, path: y },
        ) => s == t && same_path(x, y),
        (LoadSpecView::Url { url: x }, LoadSpecView::Url { url: y }) => x == y,
        (
            LoadSpecView::Path { path: x, allow_not_exist: m },
            LoadSpecView::Path { path: y, allow_not_exist: n },
        ) => same_path(x, y) && m == n,
        (LoadSpecView::PackageUri { uri: x }, LoadSpecView::PackageUri { uri: y }) => x == y,
        _ => false,
    }
}

/// A package name with the path behind it.
pub open spec fn package_path(package: Seq<char>, path: Seq<char>) -> Seq<char> {
    if path.len() == 0 {
        package
    } else {
        package + seq!['/'] + path
    }
}

/// A package name with its tag.
pub open spec fn tagged(package: Seq<char>, tag: Option<Seq<char>>) -> Seq<char> {
    match tag {
        Some(t) => package + seq![':'] + t,
        None => package,
    }
}

/// The text of a load path.
pub open spec fn spec_text(s: LoadSpecView) -> Seq<char> {
    match s {
        LoadSpecView::Package { package, tag, path } => seq!['@'] + package_path(
            tagged(package, tag),
            path,
        ),
        LoadSpecView::Stdlib { tag, path } => seq!['@'] + package_path(
            tagged(STDLIB_MODULE_PATH@, tag),
            path,
        ),
        LoadSpecView::Url { url } => url,
        LoadSpecView::Path { path, .. } => path,
        LoadSpecView::PackageUri { uri } => uri,
    }
}

/// What `url::Url::parse` finds in a text: the host, if any, and the path.
pub uninterp spec fn url_host_and_path(text: Seq<char>) -> Option<(Option<Seq<char>>, Seq<char>)>;

/// The contents of what `url_parts` returns.
pub open spec fn url_parts_view(r: Option<(Option<String>, String)>) -> Option<
    (Option<Seq<char>>, Seq<char>),
> {
    match r {
        Some((host, path)) => Some((crate::text::opt_text(host), path@)),
        None => None,
    }
}

/// `url::Url::parse` with `host_str` and `path` of what it returns, by its name.
#[verifier::external_body]
fn url_parts(text: &str) -> (r: Option<(Option<String>, String)>)
    ensures
        url_parts_view(r) == url_host_and_path(text@),
{
    let url = url::Url::parse(text).ok()?;
    Some((url.host_str().map(|h| h.to_string()), url.path().to_string()))
}

/// Whether a host and a path name a package: the host is a domain, and the path is not the root.
pub open spec fn names_package(parts: Option<(Option<Seq<char>>, Seq<char>)>) -> bool {
    match parts {
        Some((Some(host), path)) => host.contains('.') && path != seq!['/'],
        _ => false,
    }
}

/// Whether a text is written like a relative or an absolute file path.
pub open spec fn is_explicit_path(s: Seq<char>) -> bool {
    begins(s, "./"@) || begins(s, "../"@) || begins(s, "/"@)
}

/// Whether a text is a package URL.
pub open spec fn is_package_url(s: Seq<char>) -> bool {
    !is_explicit_path(s) && names_package(url_host_and_path("https://"@ + s))
}

/// Whether the parts of a URL name a package.
pub fn parts_name_package(parts: &Option<(Option<String>, String)>) -> (r: bool)
    ensures
        r == names_package(url_parts_view(*parts)),
{
    proof {
        reveal_strlit("/");
        assert("/"@ =~= seq!['/']);
    }
    match parts {
        Some((Some(host), path)) => contains_char(host.as_str(), '.') && !same(path.as_str(), "/"),
        _ => false,
    }
}

/// Whether a text is a package URL.
fn check_package_url(s: &str) -> (r: bool)
    ensures
        r == is_package_url(s@),
{
    if starts_with(s, "./") || starts_with(s, "../") || starts_with(s, "/") {
        return false;
    }
    let mut text = "https://".to_owned();
    text.append(s);
    parts_name_package(&url_parts(text.as_str()))
}

/// Whether a package name stands for a directory of the standard library.
pub open spec fn is_kicad_alias(package: Seq<char>) -> bool {
    package == "kicad-symbols"@ || package == "kicad-footprints"@
}

/// What follows the first `/`, or nothing.
pub open spec fn after_first_slash(s: Seq<char>) -> Seq<char> {
    match cut_first(s, '/') {
        Some(p) => p.1,
        None => Seq::<char>::empty(),
    }
}

/// What follows the first `:`, where there is one.
pub open spec fn tag_of(s: Seq<char>) -> Option<Seq<char>> {
    match cut_first(s, ':') {
        Some(p) => Some(p.1),
        None => None,
    }
}

/// What a text behind `@` names: a package with its tag, if any, before the first `/`, and a path
/// behind it.
pub open spec fn parsed_package(rest: Seq<char>) -> Option<LoadSpecView> {
    let package = before_first(before_first(rest, '/'), ':');
    let tag = tag_of(before_first(rest, '/'));
    let path = after_first_slash(rest);
    if package.len() == 0 || package == "github"@ || package == "gitlab"@ {
        None
    } else if package == STDLIB_MODULE_PATH@ {
        Some(LoadSpecView::Stdlib { tag, path })
    } else if is_kicad_alias(package) {
        Some(
            LoadSpecView::Stdlib {
                tag,
                path: if path.len() == 0 {
                    package
                } else {
                    path_joined(package, path)
                },
            },
        )
    } else {
        Some(LoadSpecView::Package { package, tag, path })
    }
}

/// What a text names, where `is_url` says whether it is a package URL.
pub open spec fn parsed_with(s: Seq<char>, is_url: bool) -> Option<LoadSpecView> {
    if begins(s, PACKAGE_URI_PREFIX@) {
        if s == PACKAGE_URI_PREFIX@ {
            None
        } else {
            Some(LoadSpecView::PackageUri { uri: s })
        }
    } else if s.len() > 0 && s[0] == '@' {
        parsed_package(s.skip(1))
    } else if is_url {
        Some(LoadSpecView::Url { url: s })
    } else {
        Some(LoadSpecView::Path { path: s, allow_not_exist: false })
    }
}

/// A load path without its tag.
pub open spec fn untagged(s: LoadSpecView) -> LoadSpecView {
    match s {
        LoadSpecView::Package { package, tag: _, path } => LoadSpecView::Package {
            package,
            tag: None,
            path,
        },
        LoadSpecView::Stdlib { tag: _, path } => LoadSpecView::Stdlib { tag: None, path },
        other => other,
    }
}

/// The tag of a load path that names a package: the one given, else the latest.
pub open spec fn effective_tag(s: LoadSpecView) -> Option<Seq<char>> {
    match s {
        LoadSpecView::Package { tag: Some(t), .. } => Some(t),
        LoadSpecView::Stdlib { tag: Some(t), .. } => Some(t),
        LoadSpecView::Package { .. } => Some(DEFAULT_PKG_TAG@),
        LoadSpecView::Stdlib { .. } => Some(DEFAULT_PKG_TAG@),
        _ => None,
    }
}

/// The URL of a load path: its text without the leading `@` and without the tag, which is no part of
/// a package's name; a file path has none.
pub open spec fn full_url(s: LoadSpecView) -> Option<Seq<char>> {
    match s {
        LoadSpecView::Path { .. } => None,
        _ => {
            let t = spec_text(untagged(s));
            Some(
                if t.len() > 0 && t[0] == '@' {
                    t.skip(1)
                } else {
                    t
                },
            )
        },
    }
}

impl LoadSpec {
    /// A local path, which must exist.
    pub fn local_path(path: String) -> (r: LoadSpec)
        ensures
            r@ == (LoadSpecView::Path { path: path@, allow_not_exist: false }),
    {
        LoadSpec::Path { path, allow_not_exist: false }
    }

    /// Whether the path that this names need not exist.
    pub fn allow_not_exist(&self) -> (r: bool)
        ensures
            r == (self@ matches LoadSpecView::Path { allow_not_exist, .. } && allow_not_exist),
    {
        match self {
            LoadSpec::Path { allow_not_exist, .. } => *allow_not_exist,
            _ => false,
        }
    }

    /// Another load path with the same contents.
    pub fn copy(&self) -> (r: LoadSpec)
        ensures
            r@ == self@,
    {
        match self {
            LoadSpec::Package { package, tag, path } => LoadSpec::Package {
                package: package.clone(),
                tag: clone_opt(tag),
                path: path.clone(),
            },
            LoadSpec::Stdlib { tag, path } => LoadSpec::Stdlib {
                tag: clone_opt(tag),
                path: path.clone(),
            },
            LoadSpec::Url { url } => LoadSpec::Url { url: url.clone() },
            LoadSpec::Path { path, allow_not_exist } => LoadSpec::Path {
                path: path.clone(),
                allow_not_exist: *allow_not_exist,
            },
            LoadSpec::PackageUri { uri } => LoadSpec::PackageUri { uri: uri.clone() },
        }
    }

    /// Whether two load paths name the same.
    pub fn equals(&self, other: &LoadSpec) -> (r: bool)
        ensures
            r == same_spec(self@, other@),
    {
        match (self, other) {
            (
                LoadSpec::Package { package: p, tag: s, path: x },
                LoadSpec::Package { package: q, tag: t, path: y },
            ) => same(p.as_str(), q.as_str()) && same_tag(s, t) && path_eq(x.as_str(), y.as_str()),
            (
                LoadSpec::Stdlib { tag: s, path: x },
                LoadSpec::Stdlib { tag: t, path: y },
            ) => same_tag(s, t) && path_eq(x.as_str(), y.as_str()),
            (LoadSpec::Url { url: x }, LoadSpec::Url { url: y }) => same(x.as_str(), y.as_str()),
            (
                LoadSpec::Path { path: x, allow_not_exist: m },
                LoadSpec::Path { path: y, allow_not_exist: n },
            ) => path_eq(x.as_str(), y.as_str()) && *m == *n,
            (LoadSpec::PackageUri { uri: x }, LoadSpec::PackageUri { uri: y }) => same(
                x.as_str(),
                y.as_str(),
            ),
            _ => false,
        }
    }

    /// The text of a load path.
    pub fn to_text(&self) -> (r: String)
        ensures
            r@ == spec_text(self@),
    {
        match self {
            LoadSpec::Package { package, tag, path } => at_package(
                package.as_str(),
                as_opt_str(tag),
                path.as_str(),
            ),
            LoadSpec::Stdlib { tag, path } => at_package(
                STDLIB_MODULE_PATH,
                as_opt_str(tag),
                path.as_str(),
            ),
            LoadSpec::Url { url } => url.clone(),
            LoadSpec::Path { path, .. } => path.clone(),
            LoadSpec::PackageUri { uri } => uri.clone(),
        }
    }

    /// Reads a load path, where `is_url` says whether the text is a package URL.
    pub fn parse_with(s: &str, is_url: bool) -> (r: Option<LoadSpec>)
        ensures
            opt_spec(r) == parsed_with(s@, is_url),
    {
        if let Some(uri) = strip_prefix(s, PACKAGE_URI_PREFIX) {
            let empty = uri.is_empty();
            proof {
                if s@ == PACKAGE_URI_PREFIX@ {
                    assert(uri@.len() == 0);
                }
                if uri@.len() == 0 {
                    assert(s@.take(PACKAGE_URI_PREFIX@.len() as int) =~= s@);
                }
            }
            if empty {
                return None;
            }
            return Some(LoadSpec::PackageUri { uri: s.to_owned() });
        }
        let n: usize = s.unicode_len();
        if n > 0 && s.get_char(0) == '@' {
            let rest = s.substring_char(1, n);
            proof {
                assert(rest@ =~= s@.skip(1));
            }
            Self::parse_package(rest)
        } else if is_url {
            Some(LoadSpec::Url { url: s.to_owned() })
        } else {
            Some(LoadSpec::local_path(s.to_owned()))
        }
    }

    fn parse_package(rest: &str) -> (r: Option<LoadSpec>)
        ensures
            opt_spec(r) == parsed_package(rest@),
    {
        proof {
            crate::text::lemma_first_at(rest@, '/');
        }
        let (name, path) = match split_once(rest, '/') {
            Some((a, b)) => (a, b),
            None => {
                proof {
                    assert(rest@.take(first_at(rest@, '/')) =~= rest@);
                }
                (rest.to_owned(), String::new())
            },
        };
        proof {
            crate::text::lemma_first_at(name@, ':');
        }
        let (package, tag): (String, Option<String>) = match split_once(name.as_str(), ':') {
            Some((a, b)) => (a, Some(b)),
            None => {
                proof {
                    assert(name@.take(first_at(name@, ':')) =~= name@);
                }
                (name, None)
            },
        };
        if package.as_str().is_empty() {
            return None;
        }
        if same(package.as_str(), "github") || same(package.as_str(), "gitlab") {
            return None;
        }
        if same(package.as_str(), STDLIB_MODULE_PATH) {
            return Some(LoadSpec::Stdlib { tag, path });
        }
        if same(package.as_str(), "kicad-symbols") || same(package.as_str(), "kicad-footprints") {
            if path.as_str().is_empty() {
                return Some(LoadSpec::Stdlib { tag, path: package });
            }
            let joined = path_join(package.as_str(), path.as_str());
            return Some(LoadSpec::Stdlib { tag, path: joined });
        }
        Some(LoadSpec::Package { package, tag, path })
    }

    /// Reads the text passed to `load()`, without touching any file.
    ///
    /// - `@<package>[:<tag>]/<path>` names a package, with `@stdlib` and the two aliases of the
    ///   bundled libraries standing for the standard library; where there is no tag, the latest is
    ///   meant;
    /// - `package://<url>/<path>` is a stable reference to a file of a resolved package;
    /// - `<host>/<package>/<path>` with a domain for a host is a package URL;
    /// - anything else is a file path.
    pub fn parse(s: &str) -> (r: Option<LoadSpec>)
        ensures
            opt_spec(r) == parsed_with(s@, is_package_url(s@)),
    {
        let is_url = check_package_url(s);
        Self::parse_with(s, is_url)
    }

    /// The tag of a load path that names a package: the one given, else the latest.
    pub fn tag(&self) -> (r: Option<&str>)
        ensures
            opt_str(r) == effective_tag(self@),
    {
        match self {
            LoadSpec::Package { package: _, tag, path: _ } => match tag {
                Some(t) => Some(t.as_str()),
                None => Some(DEFAULT_PKG_TAG),
            },
            LoadSpec::Stdlib { tag, path: _ } => match tag {
                Some(t) => Some(t.as_str()),
                None => Some(DEFAULT_PKG_TAG),
            },
            _ => None,
        }
    }

    /// The text of a load path without its tag.
    fn untagged_text(&self) -> (r: String)
        ensures
            r@ == spec_text(untagged(self@)),
    {
        match self {
            LoadSpec::Package { package, tag: _, path } => at_package(
                package.as_str(),
                None,
                path.as_str(),
            ),
            LoadSpec::Stdlib { tag: _, path } => at_package(
                STDLIB_MODULE_PATH,
                None,
                path.as_str(),
            ),
            other => other.to_text(),
        }
    }

    /// The URL of this load path, without `@` and without the tag; a file path has none.
    pub fn to_full_url(&self) -> (r: Option<String>)
        ensures
            crate::text::opt_text(r) == full_url(self@),
    {
        match self {
            LoadSpec::Path { .. } => None,
            other => {
                let t = other.untagged_text();
                let n: usize = t.as_str().unicode_len();
                if n > 0 && t.as_str().get_char(0) == '@' {
                    let rest = t.as_str().substring_char(1, n);
                    proof {
                        assert(rest@ =~= t@.skip(1));
                    }
                    Some(rest.to_owned())
                } else {
                    Some(t)
                }
            },
        }
    }
}

/// Whether two tags are the same.
fn same_tag(a: &Option<String>, b: &Option<String>) -> (r: bool)
    ensures
        r == (opt_text(*a) == opt_text(*b)),
{
    match (a, b) {
        (Some(x), Some(y)) => same(x.as_str(), y.as_str()),
        (None, None) => true,
        _ => false,
    }
}

/// `@`, a package name with its tag, and the path behind it.
fn at_package(package: &str, tag: Option<&str>, path: &str) -> (r: String)
    ensures
        r@ == seq!['@'] + package_path(tagged(package@, opt_str(tag)), path@),
{
    let mut out = String::new();
    out.push('@');
    out.append(package);
    if let Some(t) = tag {
        out.push(':');
        out.append(t);
    }
    let ghost name = tagged(package@, opt_str(tag));
    proof {
        assert(out@ =~= seq!['@'] + name);
    }
    if !path.is_empty() {
        out.push('/');
        out.append(path);
        proof {
            assert(out@ =~= seq!['@'] + (name + seq!['/'] + path@));
        }
    }
    out
}

/// The URL of a package reference is the package and the path behind it, whatever the tag.
pub proof fn law_full_url_of_package(
    package: Seq<char>,
    tag: Option<Seq<char>>,
    path: Seq<char>,
)
    ensures
        full_url(LoadSpecView::Package { package, tag, path }) == Some(
            package_path(package, path),
        ),
        full_url(LoadSpecView::Stdlib { tag, path }) == Some(
            package_path(STDLIB_MODULE_PATH@, path),
        ),
{
    let a = seq!['@'] + package_path(package, path);
    let b = seq!['@'] + package_path(STDLIB_MODULE_PATH@, path);
    assert(a.skip(1) =~= package_path(package, path));
    assert(b.skip(1) =~= package_path(STDLIB_MODULE_PATH@, path));
}

/// A package reference is read back from its own text, with its tag, where its name is a plain one.
pub proof fn law_package_reference_round_trip(
    package: Seq<char>,
    tag: Option<Seq<char>>,
    path: Seq<char>,
    is_url: bool,
)
    requires
        package.len() > 0,
        !package.contains('/'),
        !package.contains(':'),
        tag is Some ==> !tag->Some_0.contains('/'),
        package != "github"@,
        package != "gitlab"@,
        package != STDLIB_MODULE_PATH@,
        !is_kicad_alias(package),
    ensures
        parsed_with(spec_text(LoadSpecView::Package { package, tag, path }), is_url) == Some(
            LoadSpecView::Package { package, tag, path },
        ),
{
    let name = tagged(package, tag);
    assert(!name.contains('/')) by {
        if name.contains('/') {
            let i = choose|i: int| 0 <= i < name.len() && name[i] == '/';
            if i < package.len() {
                assert(package[i] == '/');
            } else if i > package.len() {
                assert(tag->Some_0[i - package.len() - 1] == '/');
            }
        }
    }
    let rest = package_path(name, path);
    let t = seq!['@'] + rest;
    assert(t.skip(1) =~= rest);
    reveal_strlit("package://");
    if begins(t, PACKAGE_URI_PREFIX@) {
        assert(t.take(PACKAGE_URI_PREFIX@.len() as int)[0] == '@');
    }
    crate::text::lemma_first_at(rest, '/');
    crate::text::lemma_first_at(name, '/');
    let k = first_at(rest, '/');
    if path.len() > 0 {
        assert(rest[name.len() as int] == '/');
        assert(k == name.len()) by {
            if k < name.len() {
                assert(rest[k] == name[k]);
            }
        }
        assert(rest.take(k) =~= name);
        assert(rest.skip(k + 1) =~= path);
    } else {
        assert(rest.take(k) =~= name);
        assert(path =~= Seq::<char>::empty());
    }
    crate::text::lemma_first_at(name, ':');
    crate::text::lemma_first_at(package, ':');
    let j = first_at(name, ':');
    match tag {
        Some(g) => {
            assert(name[package.len() as int] == ':');
            assert(j == package.len()) by {
                if j < package.len() {
                    assert(name[j] == package[j]);
                }
            }
            assert(name.take(j) =~= package);
            assert(name.skip(j + 1) =~= g);
        },
        None => {
            assert(name.take(j) =~= package);
        },
    }
}

} // verus!
