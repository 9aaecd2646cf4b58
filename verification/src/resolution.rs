//! Dependency resolution: which version of a package is meant, and where it stands.

use vstd::prelude::*;

use crate::path::{components, is_plain_component, law_join_appends_components};
use crate::path::{law_joined_components, path_join, path_joined};
use crate::text::{begins, clone_opt, cut_last, decimal, is_before, joined, last_at};
use crate::text::{law_decimal_round_trip, lemma_decimal, lemma_last_at};
use crate::text::{lemma_text_before_irreflexive, lemma_text_before_total};
use crate::text::{lemma_text_before_transitive, opt_text, rsplit_once, same, starts_with};
use crate::text::{text_before, to_decimal};
use crate::config::{DependencyDetail, DependencySpec, DependencySpecView, PcbToml};
use crate::map::{find, in_order, lemma_slot, lemma_slot_at, slot, text_entries, Key, PathKey};
use crate::map::SortedMap;
use crate::version::{opt_version, semver_parsed, version_before, version_text, Version};
use crate::version::VersionParts;
use crate::workspace::{base_url, covers, package_url_covers, WorkspaceInfo, WorkspacePackage};
use crate::workspace::LOCAL_WORKSPACE_ROOT_URL;
use crate::{is_stdlib_module_path, parse_relaxed_version, relaxed_version, STDLIB_MODULE_PATH};

verus! {

// ---------------------------------------------------------------------------------------------
// Versions

/// The family of compatible versions that a version belongs to: below 1.0 the minor version counts,
/// from 1.0 on the major one.
pub open spec fn family_of(v: VersionParts) -> Seq<char> {
    if v.0 == 0 {
        "v0."@ + decimal(v.1 as nat)
    } else {
        "v"@ + decimal(v.0 as nat)
    }
}

/// The lane of compatible versions that a version belongs to.
pub open spec fn lane_of(v: VersionParts) -> Seq<char> {
    if v.0 == 0 {
        "0."@ + decimal(v.1 as nat)
    } else {
        decimal(v.0 as nat)
    }
}

/// The family of compatible versions that a version belongs to.
pub fn semver_family(v: &Version) -> (r: String)
    ensures
        r@ == family_of(v@),
{
    if v.major == 0 {
        let mut out = "v0.".to_owned();
        let n = to_decimal(v.minor);
        out.append(n.as_str());
        out
    } else {
        let mut out = "v".to_owned();
        let n = to_decimal(v.major);
        out.append(n.as_str());
        out
    }
}

/// The lane of compatible versions that a version belongs to.
pub fn compatibility_lane(version: &Version) -> (r: String)
    ensures
        r@ == lane_of(version@),
{
    if version.major == 0 {
        let mut out = "0.".to_owned();
        let n = to_decimal(version.minor);
        out.append(n.as_str());
        out
    } else {
        to_decimal(version.major)
    }
}

/// A family is its lane behind a `v`, so two versions share a family where they share a lane.
pub proof fn law_family_is_lane(a: VersionParts, b: VersionParts)
    ensures
        family_of(a) == "v"@ + lane_of(a),
        family_of(a) == family_of(b) <==> lane_of(a) == lane_of(b),
{
    reveal_strlit("v0.");
    reveal_strlit("v");
    reveal_strlit("0.");
    assert(family_of(a) =~= "v"@ + lane_of(a));
    assert(family_of(b) =~= "v"@ + lane_of(b));
    assert(lane_of(a) =~= family_of(a).skip(1));
    assert(lane_of(b) =~= family_of(b).skip(1));
}

/// A line of compatible versions of a module, of which one version is selected.
pub struct ModuleLine {
    /// The module, such as `github.com/org/pkg`.
    pub path: String,
    /// The family, such as `v0.3` or `v1`.
    pub family: String,
}

impl ModuleLine {
    /// The line that a version of a module belongs to.
    pub fn new(path: String, version: &Version) -> (r: ModuleLine)
        ensures
            r@ == (path@, family_of(version@)),
    {
        ModuleLine { path, family: semver_family(version) }
    }
}

impl View for ModuleLine {
    type V = (Seq<char>, Seq<char>);

    open spec fn view(&self) -> (Seq<char>, Seq<char>) {
        (self.path@, self.family@)
    }
}

/// A dependency of a frozen resolution: a module and the lane of its versions.
pub struct FrozenDepId {
    pub path: String,
    pub lane: String,
}

impl View for FrozenDepId {
    type V = (Seq<char>, Seq<char>);

    open spec fn view(&self) -> (Seq<char>, Seq<char>) {
        (self.path@, self.lane@)
    }
}

/// The text of a lane-qualified key.
pub open spec fn key_text(id: (Seq<char>, Seq<char>)) -> Seq<char> {
    id.0 + "@"@ + id.1
}

/// The dependency that a lane-qualified key names: what precedes and what follows its last `@`,
/// neither being empty.
pub open spec fn parsed_key(raw: Seq<char>) -> Option<(Seq<char>, Seq<char>)> {
    match cut_last(raw, '@') {
        Some(p) => if p.0.len() > 0 && p.1.len() > 0 {
            Some(p)
        } else {
            None
        },
        None => None,
    }
}

impl FrozenDepId {
    /// The dependency on a lane of a module.
    pub fn new(path: String, lane: String) -> (r: FrozenDepId)
        ensures
            r@ == (path@, lane@),
    {
        FrozenDepId { path, lane }
    }

    /// The dependency on the lane of a version.
    pub fn for_version(path: String, version: &Version) -> (r: FrozenDepId)
        ensures
            r@ == (path@, lane_of(version@)),
    {
        FrozenDepId { path, lane: compatibility_lane(version) }
    }

    /// The key under which an indirect dependency stands in a manifest.
    pub fn indirect_key(&self) -> (r: String)
        ensures
            r@ == key_text(self@),
    {
        let mut out = self.path.clone();
        out.append("@");
        out.append(self.lane.as_str());
        out
    }

    /// Another dependency with the same contents.
    pub fn copy(&self) -> (r: FrozenDepId)
        ensures
            r@ == self@,
    {
        FrozenDepId { path: self.path.clone(), lane: self.lane.clone() }
    }
}

/// A dependency's key names that dependency, as long as its lane holds no `@` and nothing is empty.
pub proof fn law_indirect_key_round_trip(id: (Seq<char>, Seq<char>))
    requires
        id.0.len() > 0,
        id.1.len() > 0,
        !id.1.contains('@'),
    ensures
        parsed_key(key_text(id)) == Some(id),
{
    reveal_strlit("@");
    let t = key_text(id);
    let k = id.0.len() as int;
    assert(t[k] == '@');
    lemma_last_at(t, '@');
    assert(t.contains('@'));
    let j = last_at(t, '@');
    if j > k {
        assert(t[j] == id.1[j - k - 1]);
        assert(id.1.contains('@'));
    }
    assert(t.take(k) =~= id.0);
    assert(t.skip(k + 1) =~= id.1);
}

/// The key that is written for a version of a module names that module and the version's lane.
pub proof fn law_version_key_round_trip(module: Seq<char>, v: VersionParts)
    requires
        module.len() > 0,
    ensures
        parsed_key(key_text((module, lane_of(v)))) == Some((module, lane_of(v))),
{
    reveal_strlit("0.");
    lemma_decimal(v.0 as nat);
    lemma_decimal(v.1 as nat);
    let lane = lane_of(v);
    if lane.contains('@') {
        let i = choose|i: int| 0 <= i < lane.len() && lane[i] == '@';
        if v.0 == 0 {
            if i >= 2 {
                assert(lane[i] == decimal(v.1 as nat)[i - 2]);
            }
        }
    }
    law_indirect_key_round_trip((module, lane));
}

/// Why a resolution could not be read.
pub enum ResolutionError {
    /// A key is not of the form `<module>@<lane>`.
    NotLaneQualified { raw: String },
    UnknownPackage { url: String },
    /// A dependency is not fixed to a version.
    NotExact { dep: String },
    InvalidVersion { dep: String, raw: String },
    /// An indirect dependency stands under another lane than its version has.
    WrongLane { key: String, expected: String, found: String },
    /// A package reference names no known package.
    UnknownReference { uri: String },
}

impl ResolutionError {
    /// The text of the error.
    pub open spec fn text(&self) -> Seq<char> {
        match *self {
            ResolutionError::NotLaneQualified { raw } => not_lane_qualified(raw@),
            ResolutionError::UnknownPackage { url } => "Unknown workspace package "@ + url@,
            ResolutionError::NotExact { dep } => not_exact(dep@),
            ResolutionError::InvalidVersion { dep, raw } => invalid_version(dep@, raw@),
            ResolutionError::WrongLane { key, expected, found } => wrong_lane(
                key@,
                expected@,
                found@,
            ),
            ResolutionError::UnknownReference { uri } => "Cannot resolve package URI '"@ + uri@
                + "'"@,
        }
    }

    /// The text of the error.
    pub fn message(&self) -> (r: String)
        ensures
            r@ == self.text(),
    {
        match self {
            ResolutionError::NotLaneQualified { raw } => {
                let mut out =
                    "Expected lane-qualified dependency key '<module>@<lane>', got '".to_owned();
                out.append(raw.as_str());
                out.append("'");
                out
            },
            ResolutionError::UnknownPackage { url } => {
                let mut out = "Unknown workspace package ".to_owned();
                out.append(url.as_str());
                out
            },
            ResolutionError::NotExact { dep } => {
                let mut out = "Dependency ".to_owned();
                out.append(dep.as_str());
                out.append(
                    " must specify an exact version; run `pcb sync` to update dependency versions",
                );
                out
            },
            ResolutionError::InvalidVersion { dep, raw } => {
                let mut out = "Dependency ".to_owned();
                out.append(dep.as_str());
                out.append(" has invalid version '");
                out.append(raw.as_str());
                out.append("'");
                out
            },
            ResolutionError::WrongLane { key, expected, found } => {
                let mut out = "Indirect dependency ".to_owned();
                out.append(key.as_str());
                out.append(" resolves to lane ");
                out.append(expected.as_str());
                out.append(", not ");
                out.append(found.as_str());
                out
            },
            ResolutionError::UnknownReference { uri } => {
                let mut out = "Cannot resolve package URI '".to_owned();
                out.append(uri.as_str());
                out.append("'");
                out
            },
        }
    }
}

/// The error for a key without a lane.
pub open spec fn not_lane_qualified(raw: Seq<char>) -> Seq<char> {
    "Expected lane-qualified dependency key '<module>@<lane>', got '"@ + raw + "'"@
}

/// The error for a dependency that is not fixed to a version.
pub open spec fn not_exact(dep: Seq<char>) -> Seq<char> {
    "Dependency "@ + dep
        + " must specify an exact version; run `pcb sync` to update dependency versions"@
}

/// The error for a version that is none.
pub open spec fn invalid_version(dep: Seq<char>, raw: Seq<char>) -> Seq<char> {
    "Dependency "@ + dep + " has invalid version '"@ + raw + "'"@
}

/// The error for an indirect dependency under the wrong lane.
pub open spec fn wrong_lane(key: Seq<char>, expected: Seq<char>, found: Seq<char>) -> Seq<char> {
    "Indirect dependency "@ + key + " resolves to lane "@ + expected + ", not "@ + found
}

/// Reads a lane-qualified key.
pub fn parse_lane_qualified_key(raw: &str) -> (r: Result<FrozenDepId, ResolutionError>)
    ensures
        match r {
            Ok(id) => parsed_key(raw@) == Some(id@),
            Err(e) => parsed_key(raw@) is None && e.text() == not_lane_qualified(raw@),
        },
{
    match rsplit_once(raw, '@') {
        Some((path, lane)) => {
            if path.as_str().unicode_len() == 0 || lane.as_str().unicode_len() == 0 {
                Err(ResolutionError::NotLaneQualified { raw: raw.to_owned() })
            } else {
                Ok(FrozenDepId::new(path, lane))
            }
        },
        None => Err(ResolutionError::NotLaneQualified { raw: raw.to_owned() }),
    }
}

/// The version that a manifest's dependency is fixed to, or the error.
pub open spec fn exact_version(dep: Seq<char>, spec: DependencySpecView) -> Result<
    VersionParts,
    Seq<char>,
> {
    let raw = match spec {
        DependencySpecView::Version(v) => Some(v),
        DependencySpecView::Detailed { version, branch: _, rev: _, path: _ } => version,
    };
    match raw {
        Some(v) => match relaxed_version(v) {
            Some(parts) => Ok(parts),
            None => Err(invalid_version(dep, v)),
        },
        None => Err(not_exact(dep)),
    }
}

/// The version that a manifest's dependency is fixed to.
fn exact_manifest_version(dep_url: &str, spec: &DependencySpec) -> (r: Result<
    Version,
    ResolutionError,
>)
    ensures
        match r {
            Ok(v) => exact_version(dep_url@, spec@) == Ok::<VersionParts, Seq<char>>(v@),
            Err(e) => exact_version(dep_url@, spec@) == Err::<VersionParts, Seq<char>>(e.text()),
        },
{
    let raw: &String = match spec {
        DependencySpec::Version(v) => v,
        DependencySpec::Detailed(d) => match &d.version {
            Some(v) => v,
            None => return Err(ResolutionError::NotExact { dep: dep_url.to_owned() }),
        },
    };
    match parse_relaxed_version(raw.as_str()) {
        Some(v) => Ok(v),
        None => Err(ResolutionError::InvalidVersion { dep: dep_url.to_owned(), raw: raw.clone() }),
    }
}

/// Whether a manifest's dependency comes from elsewhere: it is not the standard library, not of the
/// workspace, and names no path.
pub open spec fn is_remote(ws: &WorkspaceInfo, dep: Seq<char>, spec: DependencySpecView) -> bool {
    &&& dep != STDLIB_MODULE_PATH@
    &&& forall|i: int|
        0 <= i < ws.packages.entries@.len() ==> !covers(
            (#[trigger] ws.packages.entries@[i]).0@,
            dep,
        )
    &&& base_url(ws.repository_of(), ws.subpath_of()) != Some(dep)
    &&& match spec {
        DependencySpecView::Detailed { version: _, branch: _, rev: _, path } => path is None,
        DependencySpecView::Version(_) => true,
    }
}

/// Whether a manifest's dependency comes from elsewhere.
fn is_remote_manifest_dependency(
    workspace: &WorkspaceInfo,
    dep_url: &str,
    spec: &DependencySpec,
) -> (r: bool)
    ensures
        r == is_remote(workspace, dep_url@, spec@),
{
    if is_stdlib_module_path(dep_url) {
        return false;
    }
    let mut i: usize = 0;
    while i < workspace.packages.entries.len()
        invariant
            i <= workspace.packages.entries@.len(),
            forall|k: int|
                0 <= k < i ==> !covers((#[trigger] workspace.packages.entries@[k]).0@, dep_url@),
        decreases workspace.packages.entries@.len() - i,
    {
        if package_url_covers(workspace.packages.entries[i].0.as_str(), dep_url) {
            return false;
        }
        i += 1;
    }
    if let Some(base) = workspace.workspace_base_url() {
        if same(base.as_str(), dep_url) {
            return false;
        }
    }
    match spec {
        DependencySpec::Detailed(d) => d.path.is_none(),
        DependencySpec::Version(_) => true,
    }
}

/// What is wrong with a direct dependency of a manifest.
pub open spec fn direct_error(
    ws: &WorkspaceInfo,
    e: (Seq<char>, DependencySpecView),
) -> Option<Seq<char>> {
    match exact_version(e.0, e.1) {
        Err(t) if is_remote(ws, e.0, e.1) => Some(t),
        _ => None,
    }
}

/// What is wrong with an indirect dependency of a manifest.
pub open spec fn indirect_error(e: (Seq<char>, DependencySpecView)) -> Option<Seq<char>> {
    match parsed_key(e.0) {
        None => Some(not_lane_qualified(e.0)),
        Some(id) => match exact_version(e.0, e.1) {
            Err(t) => Some(t),
            Ok(v) => if id.1 != lane_of(v) {
                Some(wrong_lane(e.0, lane_of(v), id.1))
            } else {
                None
            },
        },
    }
}

/// The first thing that is wrong with the direct dependencies of a manifest.
pub open spec fn first_direct_error(
    ws: &WorkspaceInfo,
    s: Seq<(String, DependencySpec)>,
) -> Option<Seq<char>>
    decreases s.len(),
{
    if s.len() == 0 {
        None
    } else {
        match first_direct_error(ws, s.drop_last()) {
            Some(t) => Some(t),
            None => direct_error(ws, (s.last().0@, s.last().1@)),
        }
    }
}

/// The first thing that is wrong with the indirect dependencies of a manifest.
pub open spec fn first_indirect_error(s: Seq<(String, DependencySpec)>) -> Option<Seq<char>>
    decreases s.len(),
{
    if s.len() == 0 {
        None
    } else {
        match first_indirect_error(s.drop_last()) {
            Some(t) => Some(t),
            None => indirect_error((s.last().0@, s.last().1@)),
        }
    }
}

/// The first thing that is wrong with the dependencies of a manifest.
pub open spec fn manifest_error(ws: &WorkspaceInfo, config: &PcbToml) -> Option<Seq<char>> {
    match first_direct_error(ws, config.dependencies.direct.entries@) {
        Some(t) => Some(t),
        None => first_indirect_error(config.dependencies.indirect.entries@),
    }
}

/// The version that the direct dependencies select for a dependency.
pub open spec fn direct_version(
    ws: &WorkspaceInfo,
    s: Seq<(String, DependencySpec)>,
    id: (Seq<char>, Seq<char>),
) -> Option<VersionParts>
    decreases s.len(),
{
    if s.len() == 0 {
        None
    } else {
        let e = s.last();
        match exact_version(e.0@, e.1@) {
            Ok(v) if is_remote(ws, e.0@, e.1@) && id == (e.0@, lane_of(v)) => Some(v),
            _ => direct_version(ws, s.drop_last(), id),
        }
    }
}

/// The version that the indirect dependencies select for a dependency.
pub open spec fn indirect_version(
    s: Seq<(String, DependencySpec)>,
    id: (Seq<char>, Seq<char>),
) -> Option<VersionParts>
    decreases s.len(),
{
    if s.len() == 0 {
        None
    } else {
        let e = s.last();
        match exact_version(e.0@, e.1@) {
            Ok(v) if parsed_key(e.0@) == Some(id) => Some(v),
            _ => indirect_version(s.drop_last(), id),
        }
    }
}

/// The version that a manifest selects for a dependency: an indirect one counts before a direct one.
pub open spec fn manifest_version(
    ws: &WorkspaceInfo,
    config: &PcbToml,
    id: (Seq<char>, Seq<char>),
) -> Option<VersionParts> {
    match indirect_version(config.dependencies.indirect.entries@, id) {
        Some(v) => Some(v),
        None => direct_version(ws, config.dependencies.direct.entries@, id),
    }
}

/// The versions from elsewhere that a manifest fixes.
pub fn selected_remote_from_manifest(workspace: &WorkspaceInfo, config: &PcbToml) -> (r: Result<
    SortedMap<FrozenDepId, Version>,
    ResolutionError,
>)
    ensures
        match r {
            Ok(m) => manifest_error(workspace, config) is None && m.wf() && forall|
                id: (Seq<char>, Seq<char>),
            |
                opt_version(#[trigger] find(m.entries@, id)) == manifest_version(
                    workspace,
                    config,
                    id,
                ),
            Err(e) => manifest_error(workspace, config) == Some(e.text()),
        },
{
    let mut out: SortedMap<FrozenDepId, Version> = SortedMap::new();
    let s = &config.dependencies.direct.entries;
    let mut i: usize = 0;
    proof {
        assert(s@.take(0) =~= Seq::<(String, DependencySpec)>::empty());
    }
    while i < s.len()
        invariant
            i <= s@.len(),
            s@ == config.dependencies.direct.entries@,
            out.wf(),
            first_direct_error(workspace, s@.take(i as int)) is None,
            forall|id: (Seq<char>, Seq<char>)|
                opt_version(#[trigger] find(out.entries@, id)) == direct_version(
                    workspace,
                    s@.take(i as int),
                    id,
                ),
        decreases s@.len() - i,
    {
        let ghost before = out.entries@;
        proof {
            assert(s@.take(i + 1).drop_last() =~= s@.take(i as int));
            assert(s@.take(i + 1).last() == s@[i as int]);
        }
        if is_remote_manifest_dependency(workspace, s[i].0.as_str(), &s[i].1) {
            match exact_manifest_version(s[i].0.as_str(), &s[i].1) {
                Ok(version) => {
                    let id = FrozenDepId::for_version(s[i].0.clone(), &version);
                    out.insert(id, version);
                },
                Err(e) => {
                    proof {
                        assert(first_direct_error(workspace, s@.take(i + 1)) == Some(e.text()));
                        lemma_direct_error_stays(workspace, s@, i + 1);
                    }
                    return Err(e);
                },
            }
        }
        proof {
            assert forall|id: (Seq<char>, Seq<char>)|
                opt_version(#[trigger] find(out.entries@, id)) == direct_version(
                    workspace,
                    s@.take(i + 1),
                    id,
                ) by {
                assert(opt_version(find(before, id)) == direct_version(
                    workspace,
                    s@.take(i as int),
                    id,
                ));
            }
        }
        i += 1;
    }
    proof {
        assert(s@.take(s@.len() as int) =~= s@);
    }
    let t = &config.dependencies.indirect.entries;
    let mut j: usize = 0;
    proof {
        assert(t@.take(0) =~= Seq::<(String, DependencySpec)>::empty());
    }
    while j < t.len()
        invariant
            j <= t@.len(),
            s@ == config.dependencies.direct.entries@,
            t@ == config.dependencies.indirect.entries@,
            out.wf(),
            first_direct_error(workspace, s@) is None,
            first_indirect_error(t@.take(j as int)) is None,
            forall|id: (Seq<char>, Seq<char>)|
                opt_version(#[trigger] find(out.entries@, id)) == (match indirect_version(
                    t@.take(j as int),
                    id,
                ) {
                    Some(v) => Some(v),
                    None => direct_version(workspace, s@, id),
                }),
        decreases t@.len() - j,
    {
        let ghost before = out.entries@;
        proof {
            assert(t@.take(j + 1).drop_last() =~= t@.take(j as int));
            assert(t@.take(j + 1).last() == t@[j as int]);
        }
        let key = t[j].0.as_str();
        let id = match parse_lane_qualified_key(key) {
            Ok(id) => id,
            Err(e) => {
                proof {
                    assert(first_indirect_error(t@.take(j + 1)) == Some(e.text()));
                    lemma_indirect_error_stays(t@, j + 1);
                }
                return Err(e);
            },
        };
        let version = match exact_manifest_version(key, &t[j].1) {
            Ok(version) => version,
            Err(e) => {
                proof {
                    assert(first_indirect_error(t@.take(j + 1)) == Some(e.text()));
                    lemma_indirect_error_stays(t@, j + 1);
                }
                return Err(e);
            },
        };
        let expected = compatibility_lane(&version);
        if !same(id.lane.as_str(), expected.as_str()) {
            let e = ResolutionError::WrongLane {
                key: t[j].0.clone(),
                expected,
                found: id.lane,
            };
            proof {
                assert(first_indirect_error(t@.take(j + 1)) == Some(e.text()));
                lemma_indirect_error_stays(t@, j + 1);
            }
            return Err(e);
        }
        out.insert(id, version);
        proof {
            assert forall|q: (Seq<char>, Seq<char>)|
                opt_version(#[trigger] find(out.entries@, q)) == (match indirect_version(
                    t@.take(j + 1),
                    q,
                ) {
                    Some(v) => Some(v),
                    None => direct_version(workspace, s@, q),
                }) by {
                assert(opt_version(find(before, q)) == (match indirect_version(
                    t@.take(j as int),
                    q,
                ) {
                    Some(v) => Some(v),
                    None => direct_version(workspace, s@, q),
                }));
            }
        }
        j += 1;
    }
    proof {
        assert(t@.take(t@.len() as int) =~= t@);
    }
    Ok(out)
}

proof fn lemma_direct_error_stays(ws: &WorkspaceInfo, s: Seq<(String, DependencySpec)>, k: int)
    requires
        0 <= k <= s.len(),
        first_direct_error(ws, s.take(k)) is Some,
    ensures
        first_direct_error(ws, s) == first_direct_error(ws, s.take(k)),
    decreases s.len(),
{
    if k == s.len() {
        assert(s.take(k) =~= s);
    } else {
        assert(s.drop_last().take(k) =~= s.take(k));
        lemma_direct_error_stays(ws, s.drop_last(), k);
    }
}

proof fn lemma_indirect_error_stays(s: Seq<(String, DependencySpec)>, k: int)
    requires
        0 <= k <= s.len(),
        first_indirect_error(s.take(k)) is Some,
    ensures
        first_indirect_error(s) == first_indirect_error(s.take(k)),
    decreases s.len(),
{
    if k == s.len() {
        assert(s.take(k) =~= s);
    } else {
        assert(s.drop_last().take(k) =~= s.take(k));
        lemma_indirect_error_stays(s.drop_last(), k);
    }
}

/// The manifest of a package of the workspace; a workspace without packages is its own one.
pub open spec fn hydrated_manifest(ws: &WorkspaceInfo, url: Seq<char>) -> Option<Option<PcbToml>> {
    match find(ws.packages.entries@, url) {
        Some(p) => Some(Some(p.config)),
        None => if ws.packages.entries@.len() == 0 && url == LOCAL_WORKSPACE_ROOT_URL@ {
            Some(ws.config)
        } else {
            None
        },
    }
}

/// The versions from elsewhere that a package of the workspace fixes.
pub fn selected_remote_from_hydrated_manifest(workspace: &WorkspaceInfo, package_url: &str) -> (r:
    Result<SortedMap<FrozenDepId, Version>, ResolutionError>)
    ensures
        match hydrated_manifest(workspace, package_url@) {
            None => match r {
                Ok(_) => false,
                Err(e) => e.text() == "Unknown workspace package "@ + package_url@,
            },
            Some(None) => r is Ok && r->Ok_0.wf() && r->Ok_0.entries@.len() == 0,
            Some(Some(config)) => match r {
                Ok(m) => manifest_error(workspace, &config) is None && m.wf() && forall|
                    id: (Seq<char>, Seq<char>),
                |
                    opt_version(#[trigger] find(m.entries@, id)) == manifest_version(
                        workspace,
                        &config,
                        id,
                    ),
                Err(e) => manifest_error(workspace, &config) == Some(e.text()),
            },
        },
{
    if let Some(package) = workspace.packages.get(&package_url.to_owned()) {
        return selected_remote_from_manifest(workspace, &package.config);
    }
    if workspace.packages.is_empty() && same(package_url, LOCAL_WORKSPACE_ROOT_URL) {
        return match &workspace.config {
            Some(config) => selected_remote_from_manifest(workspace, config),
            None => Ok(SortedMap::new()),
        };
    }
    Err(ResolutionError::UnknownPackage { url: package_url.to_owned() })
}

/// Whether the pair `a` comes strictly before the pair `b`.
pub open spec fn pair_before(a: (Seq<char>, Seq<char>), b: (Seq<char>, Seq<char>)) -> bool {
    if a.0 != b.0 {
        text_before(a.0, b.0)
    } else {
        text_before(a.1, b.1)
    }
}

proof fn lemma_pair_before(
    a: (Seq<char>, Seq<char>),
    b: (Seq<char>, Seq<char>),
    c: (Seq<char>, Seq<char>),
)
    ensures
        !pair_before(a, a),
        pair_before(a, b) || a == b || pair_before(b, a),
        pair_before(a, b) && pair_before(b, c) ==> pair_before(a, c),
{
    lemma_text_before_irreflexive(a.1);
    lemma_text_before_irreflexive(a.0);
    lemma_text_before_total(a.0, b.0);
    lemma_text_before_total(a.1, b.1);
    if text_before(a.0, b.0) && text_before(b.0, c.0) {
        lemma_text_before_transitive(a.0, b.0, c.0);
    }
    if text_before(a.1, b.1) && text_before(b.1, c.1) {
        lemma_text_before_transitive(a.1, b.1, c.1);
    }
}

/// Whether one pair comes strictly before another.
fn pair_precedes(a: (&str, &str), b: (&str, &str)) -> (r: bool)
    ensures
        r == pair_before((a.0@, a.1@), (b.0@, b.1@)),
{
    if same(a.0, b.0) {
        is_before(a.1, b.1)
    } else {
        is_before(a.0, b.0)
    }
}

impl Key for ModuleLine {
    open spec fn before(a: (Seq<char>, Seq<char>), b: (Seq<char>, Seq<char>)) -> bool {
        pair_before(a, b)
    }

    proof fn irreflexive(a: (Seq<char>, Seq<char>)) {
        lemma_pair_before(a, a, a);
    }

    proof fn transitive(
        a: (Seq<char>, Seq<char>),
        b: (Seq<char>, Seq<char>),
        c: (Seq<char>, Seq<char>),
    ) {
        lemma_pair_before(a, b, c);
    }

    proof fn total(a: (Seq<char>, Seq<char>), b: (Seq<char>, Seq<char>)) {
        lemma_pair_before(a, b, a);
    }

    fn precedes(&self, other: &Self) -> (r: bool) {
        pair_precedes(
            (self.path.as_str(), self.family.as_str()),
            (other.path.as_str(), other.family.as_str()),
        )
    }

    fn equals(&self, other: &Self) -> (r: bool) {
        same(self.path.as_str(), other.path.as_str()) && same(
            self.family.as_str(),
            other.family.as_str(),
        )
    }
}

impl Key for FrozenDepId {
    open spec fn before(a: (Seq<char>, Seq<char>), b: (Seq<char>, Seq<char>)) -> bool {
        pair_before(a, b)
    }

    proof fn irreflexive(a: (Seq<char>, Seq<char>)) {
        lemma_pair_before(a, a, a);
    }

    proof fn transitive(
        a: (Seq<char>, Seq<char>),
        b: (Seq<char>, Seq<char>),
        c: (Seq<char>, Seq<char>),
    ) {
        lemma_pair_before(a, b, c);
    }

    proof fn total(a: (Seq<char>, Seq<char>), b: (Seq<char>, Seq<char>)) {
        lemma_pair_before(a, b, a);
    }

    fn precedes(&self, other: &Self) -> (r: bool) {
        pair_precedes(
            (self.path.as_str(), self.lane.as_str()),
            (other.path.as_str(), other.lane.as_str()),
        )
    }

    fn equals(&self, other: &Self) -> (r: bool) {
        same(self.path.as_str(), other.path.as_str()) && same(
            self.lane.as_str(),
            other.lane.as_str(),
        )
    }
}

/// The commit that a pseudo version stands for: its pre-release begins with `0.`, and what follows
/// the last `-` is the commit.
pub open spec fn commit_of(v: VersionParts) -> Option<Seq<char>> {
    if begins(v.3, "0."@) {
        match cut_last(v.3, '-') {
            Some(p) => Some(p.1),
            None => None,
        }
    } else {
        None
    }
}

/// Whether a pseudo version stands for a revision; either may be shortened.
pub open spec fn matches_rev(v: VersionParts, rev: Seq<char>) -> bool {
    match commit_of(v) {
        Some(commit) => begins(commit, rev) || begins(rev, commit),
        None => false,
    }
}

/// The commit that a pseudo version stands for.
fn pseudo_version_commit(version: &Version) -> (r: Option<String>)
    ensures
        opt_text(r) == commit_of(version@),
{
    if !starts_with(version.pre.as_str(), "0.") {
        return None;
    }
    match rsplit_once(version.pre.as_str(), '-') {
        Some((_, commit)) => Some(commit),
        None => None,
    }
}

/// Whether a pseudo version stands for a revision.
pub fn pseudo_matches_rev(version: &Version, rev: &str) -> (r: bool)
    ensures
        r == matches_rev(version@, rev@),
{
    match pseudo_version_commit(version) {
        Some(commit) => starts_with(commit.as_str(), rev) || starts_with(rev, commit.as_str()),
        None => false,
    }
}

/// The place of the first selected version of a module that stands for a revision, or the number
/// of selected versions.
pub open spec fn rev_at(s: Seq<(ModuleLine, Version)>, module: Seq<char>, rev: Seq<char>) -> int
    decreases s.len(),
{
    if s.len() == 0 {
        0
    } else if s[0].0.path@ == module && matches_rev(s[0].1@, rev) {
        0
    } else {
        1 + rev_at(s.skip(1), module, rev)
    }
}

/// The place of the highest selected version of a module, or -1; of equal ones the last.
pub open spec fn highest_at(s: Seq<(ModuleLine, Version)>, module: Seq<char>) -> int
    decreases s.len(),
{
    if s.len() == 0 {
        -1
    } else {
        let b = highest_at(s.drop_last(), module);
        if s.last().0.path@ == module && (b < 0 || !version_before(s.last().1@, s[b].1@)) {
            s.len() - 1
        } else {
            b
        }
    }
}

/// The version that a detailed dependency asks for: the one that it names; else the selected one
/// that stands for its revision; else the highest selected one.
pub open spec fn version_for(
    module: Seq<char>,
    version: Option<Seq<char>>,
    rev: Option<Seq<char>>,
    s: Seq<(ModuleLine, Version)>,
) -> Option<Seq<char>> {
    let k = highest_at(s, module);
    match (version, rev) {
        (Some(v), _) => Some(v),
        (None, Some(r)) if rev_at(s, module, r) < s.len() => Some(
            version_text(s[rev_at(s, module, r)].1@),
        ),
        _ => if k >= 0 {
            Some(version_text(s[k].1@))
        } else {
            None
        },
    }
}

/// The version that a detailed dependency asks for.
pub fn select_version_for_detail(
    module: &str,
    detail: &DependencyDetail,
    selected: &SortedMap<ModuleLine, Version>,
) -> (r: Option<String>)
    ensures
        opt_text(r) == version_for(
            module@,
            opt_text(detail.version),
            opt_text(detail.rev),
            selected.entries@,
        ),
{
    if let Some(version) = &detail.version {
        return Some(version.clone());
    }
    let s = &selected.entries;
    if let Some(rev) = &detail.rev {
        let mut i: usize = 0;
        proof {
            assert(s@.skip(0) =~= s@);
        }
        while i < s.len()
            invariant
                i <= s@.len(),
                s@ == selected.entries@,
                detail.version is None,
                detail.rev == Some(*rev),
                i + rev_at(s@.skip(i as int), module@, rev@) == rev_at(s@, module@, rev@),
            decreases s@.len() - i,
        {
            if same(s[i].0.path.as_str(), module) && pseudo_matches_rev(&s[i].1, rev.as_str()) {
                return Some(s[i].1.to_text());
            }
            proof {
                assert(s@.skip(i as int).skip(1) =~= s@.skip(i + 1));
            }
            i += 1;
        }
    }
    let mut best: Option<usize> = None;
    let mut i: usize = 0;
    proof {
        assert(s@.take(0) =~= Seq::<(ModuleLine, Version)>::empty());
    }
    while i < s.len()
        invariant
            i <= s@.len(),
            match best {
                Some(b) => highest_at(s@.take(i as int), module@) == b && b < i,
                None => highest_at(s@.take(i as int), module@) == -1,
            },
        decreases s@.len() - i,
    {
        proof {
            assert(s@.take(i + 1).drop_last() =~= s@.take(i as int));
            assert(s@.take(i + 1).last() == s@[i as int]);
        }
        if same(s[i].0.path.as_str(), module) {
            let better = match best {
                Some(b) => !s[i].1.is_before(&s[b].1),
                None => true,
            };
            if better {
                best = Some(i);
            }
        }
        i += 1;
    }
    proof {
        assert(s@.take(s@.len() as int) =~= s@);
    }
    match best {
        Some(b) => Some(s[b].1.to_text()),
        None => None,
    }
}

// ---------------------------------------------------------------------------------------------
// Dependencies of one package

/// Where the packages stand that are not of the workspace, for the users of the library to
/// implement.
pub trait PackagePathResolver {
    /// The root of a version of a module.
    fn resolve_package(&self, module: &str, version: &str) -> Option<String>;

    /// The selected versions.
    fn selected_versions(&self) -> &SortedMap<ModuleLine, Version>;

    /// The root of the version that a detailed dependency asks for. By default it is that of the
    /// version that the selected ones give for it, where they give one.
    fn resolve_selected_package(&self, module: &str, detail: &DependencyDetail) -> (r: Option<
        String,
    >)
        default_ensures
            exists|selected: &SortedMap<ModuleLine, Version>| #[trigger]
                call_ensures(Self::selected_versions, (self,), selected) && match version_for(
                    module@,
                    opt_text(detail.version),
                    opt_text(detail.rev),
                    selected.entries@,
                ) {
                    Some(version) => exists|v: &str|
                        v@ == version && #[trigger] call_ensures(
                            Self::resolve_package,
                            (self, module, v),
                            r,
                        ),
                    None => r is None,
                },
    {
        let selected = self.selected_versions();
        proof {
            assert(call_ensures(Self::selected_versions, (self,), selected));
        }
        match select_version_for_detail(module, detail, selected) {
            Some(version) => {
                let v = version.as_str();
                let r = self.resolve_package(module, v);
                proof {
                    assert(call_ensures(Self::resolve_package, (self, module, v), r));
                }
                r
            },
            None => None,
        }
    }
}

/// What a dependency comes from.
pub enum DependencySource<'a> {
    /// A directory that is known.
    Directory(String),
    /// A version that the resolver has to find.
    Version(&'a str),
    /// A dependency in detail that the resolver has to find.
    Detail(&'a DependencyDetail),
}

/// The directory that a dependency is known to come from: the path that it names, or the workspace
/// package of that URL.
pub open spec fn known_directory(
    ws: &WorkspaceInfo,
    base_dir: Seq<char>,
    url: Seq<char>,
    spec: &DependencySpec,
) -> Option<Seq<char>> {
    let member = match find(ws.packages.entries@, url) {
        Some(p) => Some(p.dir_of(ws.root@)),
        None => None,
    };
    match *spec {
        DependencySpec::Detailed(d) => match d.path {
            Some(p) => Some(path_joined(base_dir, p@)),
            None => member,
        },
        DependencySpec::Version(_) => member,
    }
}

/// What a dependency comes from.
pub fn dependency_source<'a>(
    ws: &WorkspaceInfo,
    base_dir: &str,
    url: &str,
    spec: &'a DependencySpec,
) -> (r: DependencySource<'a>)
    ensures
        match r {
            DependencySource::Directory(d) => known_directory(ws, base_dir@, url@, spec) == Some(d@),
            DependencySource::Version(v) => known_directory(ws, base_dir@, url@, spec) is None
                && spec@ == DependencySpecView::Version(v@),
            DependencySource::Detail(d) => known_directory(ws, base_dir@, url@, spec) is None
                && *spec == DependencySpec::Detailed(*d),
        },
{
    if let DependencySpec::Detailed(d) = spec {
        if let Some(p) = &d.path {
            return DependencySource::Directory(path_join(base_dir, p.as_str()));
        }
    }
    if let Some(member) = ws.packages.get(&url.to_owned()) {
        return DependencySource::Directory(member.dir(ws.root.as_str()));
    }
    match spec {
        DependencySpec::Version(v) => DependencySource::Version(v.as_str()),
        DependencySpec::Detailed(d) => DependencySource::Detail(d),
    }
}

/// Whether a resolver gives an answer when it is asked for a dependency: for the version that it
/// names, or for the one that its details select.
pub open spec fn dependency_asked<R: PackagePathResolver>(
    resolver: &R,
    url: Seq<char>,
    spec: DependencySpec,
    r: Option<Seq<char>>,
) -> bool {
    match spec {
        DependencySpec::Version(v) => exists|m: &str, w: &str, a: Option<String>|
            m@ == url && w@ == v@ && #[trigger] call_ensures(
                R::resolve_package,
                (resolver, m, w),
                a,
            ) && r == opt_text(a),
        DependencySpec::Detailed(d) => exists|m: &str, a: Option<String>|
            m@ == url && #[trigger] call_ensures(
                R::resolve_selected_package,
                (resolver, m, &d),
                a,
            ) && r == opt_text(a),
    }
}

/// Whether a map from dependency to directory follows a manifest: it holds direct dependencies
/// alone, each with the directory that is known of it, else with what a resolver finds.
pub open spec fn follows_manifest<R: PackagePathResolver>(
    resolver: &R,
    m: Seq<(String, String)>,
    ws: &WorkspaceInfo,
    base_dir: Seq<char>,
    config: &PcbToml,
) -> bool {
    forall|q: Seq<char>|
        match find(config.dependencies.direct.entries@, q) {
            Some(spec) => match known_directory(ws, base_dir, q, &spec) {
                Some(dir) => opt_text(#[trigger] find(m, q)) == Some(dir),
                None => dependency_asked(resolver, q, spec, opt_text(#[trigger] find(m, q))),
            },
            None => #[trigger] find(m, q) is None,
        }
}

/// The directory of a direct dependency: the one that it is known to come from, else the one that
/// was found for it, in the order of the manifest.
pub open spec fn dependency_dir(
    ws: &WorkspaceInfo,
    base_dir: Seq<char>,
    s: Seq<(String, DependencySpec)>,
    found: Seq<Option<String>>,
    q: Seq<char>,
) -> Option<Seq<char>> {
    if slot(s, q) < s.len() {
        match known_directory(ws, base_dir, q, &s[slot(s, q)].1) {
            Some(dir) => Some(dir),
            None => opt_text(found[slot(s, q)]),
        }
    } else {
        None
    }
}

/// The directories of a package's direct dependencies. `found` holds, dependency by dependency, the
/// directory that a resolver found for one that is not known; those that nobody finds are left out.
pub fn collect_package_deps(
    workspace: &WorkspaceInfo,
    base_dir: &str,
    config: &PcbToml,
    found: &Vec<Option<String>>,
) -> (r: SortedMap<String, String>)
    requires
        config.dependencies.direct.wf(),
        found@.len() == config.dependencies.direct.entries@.len(),
    ensures
        r.wf(),
        forall|q: Seq<char>|
            opt_text(#[trigger] find(r.entries@, q)) == dependency_dir(
                workspace,
                base_dir@,
                config.dependencies.direct.entries@,
                found@,
                q,
            ),
{
    let s = &config.dependencies.direct.entries;
    let mut out: SortedMap<String, String> = SortedMap::new();
    let mut i: usize = 0;
    proof {
        assert forall|q: Seq<char>| (#[trigger] find(out.entries@, q)) is None && slot(s@, q) >= 0 by {
            lemma_slot(s@, q);
        }
    }
    while i < s.len()
        invariant
            i <= s@.len(),
            found@.len() == s@.len(),
            in_order(s@),
            out.wf(),
            forall|q: Seq<char>|
                opt_text(#[trigger] find(out.entries@, q)) == (if slot(s@, q) < i {
                    dependency_dir(workspace, base_dir@, s@, found@, q)
                } else {
                    None
                }),
        decreases s@.len() - i,
    {
        let ghost before = out.entries@;
        proof {
            lemma_slot_at(s@, i as int);
        }
        let dep = match dependency_source(workspace, base_dir, s[i].0.as_str(), &s[i].1) {
            DependencySource::Directory(dir) => Some(dir),
            _ => clone_opt(&found[i]),
        };
        let ghost dir = opt_text(dep);
        if let Some(dir) = dep {
            out.insert(s[i].0.clone(), dir);
        }
        proof {
            assert(dir == dependency_dir(workspace, base_dir@, s@, found@, s@[i as int].0@));
            assert forall|q: Seq<char>|
                opt_text(#[trigger] find(out.entries@, q)) == (if slot(s@, q) < i + 1 {
                    dependency_dir(workspace, base_dir@, s@, found@, q)
                } else {
                    None
                }) by {
                lemma_slot(s@, q);
                assert(opt_text(find(before, q)) == (if slot(s@, q) < i {
                    dependency_dir(workspace, base_dir@, s@, found@, q)
                } else {
                    None
                }));
            }
        }
        i += 1;
    }
    out
}

/// The directories of a package's direct dependencies; those that nobody finds are left out.
pub fn resolve_package_deps<R: PackagePathResolver>(
    resolver: &R,
    workspace: &WorkspaceInfo,
    base_dir: &str,
    config: &PcbToml,
) -> (r: SortedMap<String, String>)
    requires
        config.dependencies.direct.wf(),
    ensures
        r.wf(),
        follows_manifest(resolver, r.entries@, workspace, base_dir@, config),
{
    let s = &config.dependencies.direct.entries;
    let mut found: Vec<Option<String>> = Vec::new();
    let mut i: usize = 0;
    while i < s.len()
        invariant
            i <= s@.len(),
            found@.len() == i,
            forall|k: int|
                0 <= k < i && known_directory(
                    workspace,
                    base_dir@,
                    (#[trigger] s@[k]).0@,
                    &s@[k].1,
                ) is None ==> dependency_asked(resolver, s@[k].0@, s@[k].1, opt_text(found@[k])),
        decreases s@.len() - i,
    {
        let url = s[i].0.as_str();
        let dir = match dependency_source(workspace, base_dir, url, &s[i].1) {
            DependencySource::Directory(_) => None,
            DependencySource::Version(v) => {
                let dir = resolver.resolve_package(url, v);
                proof {
                    assert(call_ensures(R::resolve_package, (resolver, url, v), dir));
                }
                dir
            },
            DependencySource::Detail(d) => {
                let dir = resolver.resolve_selected_package(url, d);
                proof {
                    assert(call_ensures(R::resolve_selected_package, (resolver, url, d), dir));
                }
                dir
            },
        };
        found.push(dir);
        i += 1;
    }
    let out = collect_package_deps(workspace, base_dir, config, &found);
    proof {
        assert forall|q: Seq<char>|
            match find(s@, q) {
                Some(spec) => match known_directory(workspace, base_dir@, q, &spec) {
                    Some(dir) => opt_text(#[trigger] find(out.entries@, q)) == Some(dir),
                    None => dependency_asked(
                        resolver,
                        q,
                        spec,
                        opt_text(#[trigger] find(out.entries@, q)),
                    ),
                },
                None => #[trigger] find(out.entries@, q) is None,
            } by {
            lemma_slot(s@, q);
            assert(opt_text(find(out.entries@, q)) == dependency_dir(
                workspace,
                base_dir@,
                s@,
                found@,
                q,
            ));
            if slot(s@, q) < s@.len() {
                assert(s@[slot(s@, q)].0@ == q);
            }
        }
    }
    out
}

/// A resolver that looks for packages below one directory alone.
pub struct VendoredPathResolver {
    pub vendor_dir: String,
    /// The selected version of each module line.
    pub closure: SortedMap<ModuleLine, Version>,
}

/// Where a version of a module stands below a directory.
pub open spec fn vendored_at(
    dir: Seq<char>,
    closure: Seq<(ModuleLine, Version)>,
    module: Seq<char>,
    version: Seq<char>,
    parsed: Option<VersionParts>,
) -> Seq<char> {
    let asked = path_joined(path_joined(dir, module), version);
    match parsed {
        Some(v) => match find(closure, (module, family_of(v))) {
            Some(selected) => path_joined(path_joined(dir, module), version_text(selected@)),
            None => asked,
        },
        None => asked,
    }
}

impl VendoredPathResolver {
    /// The selected version of each module line.
    pub fn closure(&self) -> (r: &SortedMap<ModuleLine, Version>)
        ensures
            *r == self.closure,
    {
        &self.closure
    }

    /// A resolver for a directory and the selected versions.
    pub fn from_selected_versions(
        vendor_dir: String,
        closure: SortedMap<ModuleLine, Version>,
    ) -> (r: VendoredPathResolver)
        ensures
            r.vendor_dir == vendor_dir,
            r.closure == closure,
    {
        VendoredPathResolver { vendor_dir, closure }
    }

    /// Where a version of a module stands, `parsed` being the version that the text holds, if it
    /// holds one: in the directory of the version that is selected for its line, else in its own.
    pub fn place_of(&self, module: &str, version: &str, parsed: Option<Version>) -> (r: String)
        ensures
            r@ == vendored_at(
                self.vendor_dir@,
                self.closure.entries@,
                module@,
                version@,
                opt_version(parsed),
            ),
    {
        let dir = path_join(self.vendor_dir.as_str(), module);
        if let Some(v) = parsed {
            let line = ModuleLine::new(module.to_owned(), &v);
            if let Some(selected) = self.closure.get(&line) {
                let text = selected.to_text();
                return path_join(dir.as_str(), text.as_str());
            }
        }
        path_join(dir.as_str(), version)
    }
}

impl PackagePathResolver for VendoredPathResolver {
    fn resolve_package(&self, module: &str, version: &str) -> (r: Option<String>)
        ensures
            opt_text(r) == Some(
                vendored_at(
                    self.vendor_dir@,
                    self.closure.entries@,
                    module@,
                    version@,
                    semver_parsed(version@),
                ),
            ),
    {
        Some(self.place_of(module, version, Version::parse(version)))
    }

    fn selected_versions(&self) -> (r: &SortedMap<ModuleLine, Version>)
        ensures
            *r == self.closure,
    {
        &self.closure
    }
}

/// The directories of a package's direct dependencies, by the package's root.
pub type ResolutionTable = SortedMap<PathKey, SortedMap<String, String>>;

/// The place of the last workspace package that stands at a path, or -1.
pub open spec fn package_at(
    s: Seq<(String, WorkspacePackage)>,
    root: Seq<char>,
    q: Seq<Seq<char>>,
) -> int
    decreases s.len(),
{
    if s.len() == 0 {
        -1
    } else if components(s.last().1.dir_of(root)) == q {
        s.len() - 1
    } else {
        package_at(s.drop_last(), root, q)
    }
}

/// The place of the first manifest that was read at a path, or the number of manifests.
pub open spec fn external_at(s: Seq<(String, PcbToml)>, q: Seq<Seq<char>>) -> int
    decreases s.len(),
{
    if s.len() == 0 {
        0
    } else if components(s[0].0@) == q {
        0
    } else {
        1 + external_at(s.skip(1), q)
    }
}

/// What stands in a resolution table at a path before other packages are added.
pub open spec fn workspace_entry<R: PackagePathResolver>(
    resolver: &R,
    o: Option<SortedMap<String, String>>,
    ws: &WorkspaceInfo,
    q: Seq<Seq<char>>,
) -> bool {
    let k = package_at(ws.packages.entries@, ws.root@, q);
    if k >= 0 {
        let p = ws.packages.entries@[k].1;
        o is Some && follows_manifest(resolver, o->Some_0.entries@, ws, p.dir_of(ws.root@), &p.config)
    } else if components(ws.root@) == q {
        o is Some && match ws.config {
            Some(c) => follows_manifest(resolver, o->Some_0.entries@, ws, ws.root@, &c),
            None => o->Some_0.entries@.len() == 0,
        }
    } else {
        o is None
    }
}

/// What stands in a resolution table at a path.
pub open spec fn resolution_entry<R: PackagePathResolver>(
    resolver: &R,
    o: Option<SortedMap<String, String>>,
    ws: &WorkspaceInfo,
    external: Seq<(String, PcbToml)>,
    q: Seq<Seq<char>>,
) -> bool {
    let k = package_at(ws.packages.entries@, ws.root@, q);
    let e = external_at(external, q);
    if k >= 0 || components(ws.root@) == q || e >= external.len() {
        workspace_entry(resolver, o, ws, q)
    } else {
        o is Some && follows_manifest(resolver, o->Some_0.entries@, ws, external[e].0@, &external[e].1)
    }
}

/// Whether the manifests of a workspace keep their dependencies in order.
pub open spec fn manifests_in_order(ws: &WorkspaceInfo) -> bool {
    &&& forall|i: int|
        0 <= i < ws.packages.entries@.len() ==> (
        #[trigger] ws.packages.entries@[i]).1.config.dependencies.direct.wf()
    &&& ws.config is Some ==> ws.config->Some_0.dependencies.direct.wf()
}

proof fn lemma_package_at(s: Seq<(String, WorkspacePackage)>, root: Seq<char>, q: Seq<Seq<char>>)
    ensures
        -1 <= package_at(s, root, q) < s.len(),
    decreases s.len(),
{
    if s.len() > 0 {
        lemma_package_at(s.drop_last(), root, q);
    }
}

/// What a resolver is asked for: each module with the text of its selected version.
pub open spec fn requests_of(s: Seq<(ModuleLine, Version)>) -> Seq<(Seq<char>, Seq<char>)> {
    Seq::new(s.len(), |i: int| (s[i].0.path@, version_text(s[i].1@)))
}

/// What a resolver is asked for, in the order of the module lines.
pub fn closure_requests(closure: &SortedMap<ModuleLine, Version>) -> (r: Vec<(String, String)>)
    ensures
        text_entries(r@) == requests_of(closure.entries@),
{
    let mut out: Vec<(String, String)> = Vec::new();
    let mut i: usize = 0;
    while i < closure.entries.len()
        invariant
            i <= closure.entries@.len(),
            out@.len() == i,
            forall|k: int|
                0 <= k < i ==> (#[trigger] out@[k]).0@ == closure.entries@[k].0.path@
                    && out@[k].1@ == version_text(closure.entries@[k].1@),
        decreases closure.entries@.len() - i,
    {
        let version = closure.entries[i].1.to_text();
        out.push((closure.entries[i].0.path.clone(), version));
        i += 1;
    }
    proof {
        assert(text_entries(out@) =~= requests_of(closure.entries@));
    }
    out
}

/// The dependencies of the workspace's packages, of the workspace root, and of the packages whose
/// manifests were read at the given roots. What stands at a root already is kept.
pub fn build_resolution_map<R: PackagePathResolver>(
    resolver: &R,
    workspace: &WorkspaceInfo,
    external: &Vec<(String, PcbToml)>,
) -> (r: ResolutionTable)
    requires
        manifests_in_order(workspace),
        forall|i: int|
            0 <= i < external@.len() ==> (#[trigger] external@[i]).1.dependencies.direct.wf(),
    ensures
        r.wf(),
        forall|q: Seq<Seq<char>>|
            resolution_entry(resolver, #[trigger] find(r.entries@, q), workspace, external@, q),
{
    let mut out: ResolutionTable = SortedMap::new();
    let ghost all = workspace.packages.entries@;
    let ghost root = workspace.root@;
    let mut i: usize = 0;
    proof {
        assert(all.take(0) =~= Seq::<(String, WorkspacePackage)>::empty());
    }
    while i < workspace.packages.entries.len()
        invariant
            i <= workspace.packages.entries@.len(),
            all == workspace.packages.entries@,
            root == workspace.root@,
            manifests_in_order(workspace),
            out.wf(),
            forall|q: Seq<Seq<char>>|
                (#[trigger] find(out.entries@, q) is Some) == (package_at(
                    all.take(i as int),
                    root,
                    q,
                ) >= 0),
            forall|q: Seq<Seq<char>>|
                #[trigger] find(out.entries@, q) is Some ==> {
                    let p = all[package_at(all.take(i as int), root, q)].1;
                    follows_manifest(
                        resolver,
                        find(out.entries@, q)->Some_0.entries@,
                        workspace,
                        p.dir_of(root),
                        &p.config,
                    )
                },
        decreases workspace.packages.entries@.len() - i,
    {
        let ghost before = out.entries@;
        let p = &workspace.packages.entries[i].1;
        let dir = p.dir(workspace.root.as_str());
        proof {
            assert(all.take(i + 1).drop_last() =~= all.take(i as int));
            assert(all.take(i + 1).last() == all[i as int]);
        }
        let deps = resolve_package_deps(resolver, workspace, dir.as_str(), &p.config);
        out.insert(PathKey { path: dir }, deps);
        proof {
            assert forall|q: Seq<Seq<char>>|
                (#[trigger] find(out.entries@, q) is Some) == (package_at(
                    all.take(i + 1),
                    root,
                    q,
                ) >= 0) && (find(out.entries@, q) is Some ==> {
                    let p = all[package_at(all.take(i + 1), root, q)].1;
                    follows_manifest(
                        resolver,
                        find(out.entries@, q)->Some_0.entries@,
                        workspace,
                        p.dir_of(root),
                        &p.config,
                    )
                }) by {
                assert((find(before, q) is Some) == (package_at(all.take(i as int), root, q) >= 0));
                lemma_package_at(all.take(i as int), root, q);
            }
        }
        i += 1;
    }
    proof {
        assert(all.take(all.len() as int) =~= all);
    }
    let root_key = PathKey { path: workspace.root.clone() };
    let ghost before = out.entries@;
    if !out.contains_key(&root_key) {
        let deps: SortedMap<String, String> = match &workspace.config {
            Some(c) => resolve_package_deps(resolver, workspace, workspace.root.as_str(), c),
            None => SortedMap::new(),
        };
        out.insert(root_key, deps);
    }
    proof {
        assert forall|q: Seq<Seq<char>>|
            workspace_entry(resolver, #[trigger] find(out.entries@, q), workspace, q) by {
            assert((find(before, q) is Some) == (package_at(all, root, q) >= 0));
        }
    }
    let ghost ext = external@;
    let mut j: usize = 0;
    proof {
        assert(ext.take(0) =~= Seq::<(String, PcbToml)>::empty());
    }
    while j < external.len()
        invariant
            j <= external@.len(),
            ext == external@,
            out.wf(),
            forall|i: int|
                0 <= i < external@.len() ==> (#[trigger] external@[i]).1.dependencies.direct.wf(),
            forall|q: Seq<Seq<char>>|
                resolution_entry(resolver, #[trigger] find(out.entries@, q), workspace, ext.take(j as int), q),
        decreases external@.len() - j,
    {
        let key = PathKey { path: external[j].0.clone() };
        let ghost before = out.entries@;
        let known = out.contains_key(&key);
        if !known {
            let deps = resolve_package_deps(
                resolver,
                workspace,
                external[j].0.as_str(),
                &external[j].1,
            );
            out.insert(key, deps);
        }
        proof {
            let path = components(ext[j as int].0@);
            assert forall|q: Seq<Seq<char>>|
                resolution_entry(
                    resolver,
                    #[trigger] find(out.entries@, q),
                    workspace,
                    ext.take(j + 1),
                    q,
                ) by {
                assert(resolution_entry(resolver, find(before, q), workspace, ext.take(j as int), q));
                lemma_external_at(ext, j as int, q);
                assert(resolution_entry(resolver, find(before, path), workspace, ext.take(j as int), path));
                lemma_external_at(ext, j as int, path);
            }
        }
        j += 1;
    }
    proof {
        assert(ext.take(ext.len() as int) =~= ext);
    }
    out
}

proof fn lemma_external_at(s: Seq<(String, PcbToml)>, j: int, q: Seq<Seq<char>>)
    requires
        0 <= j < s.len(),
    ensures
        0 <= external_at(s.take(j), q) <= j,
        external_at(s.take(j), q) < j ==> external_at(s.take(j + 1), q) == external_at(
            s.take(j),
            q,
        ),
        external_at(s.take(j), q) == j ==> external_at(s.take(j + 1), q) == (if components(
            s[j].0@,
        ) == q {
            j
        } else {
            j + 1
        }),
    decreases j,
{
    if j == 0 {
        assert(s.take(1).skip(1) =~= Seq::<(String, PcbToml)>::empty());
        assert(s.take(1)[0] == s[0]);
        assert(external_at(s.take(1).skip(1), q) == 0);
    } else {
        assert(s.take(j).skip(1) =~= s.skip(1).take(j - 1));
        assert(s.take(j + 1).skip(1) =~= s.skip(1).take(j));
        assert(s.take(j)[0] == s[0] && s.take(j + 1)[0] == s[0]);
        lemma_external_at(s.skip(1), j - 1, q);
        assert(s.skip(1)[j - 1] == s[j]);
    }
}

/// Versions belong to one family exactly where their major versions are the same and, below 1.0, their
/// minor versions as well.
pub proof fn law_compatible_versions_share_a_family(a: VersionParts, b: VersionParts)
    ensures
        family_of(a) == family_of(b) <==> a.0 == b.0 && (a.0 != 0 || a.1 == b.1),
{
    reveal_strlit("v0.");
    reveal_strlit("v");
    let x = family_of(a);
    let y = family_of(b);
    let max = u64::MAX as int;
    law_decimal_round_trip(a.0 as nat, max);
    law_decimal_round_trip(b.0 as nat, max);
    law_decimal_round_trip(a.1 as nat, max);
    law_decimal_round_trip(b.1 as nat, max);
    lemma_decimal(a.0 as nat);
    lemma_decimal(b.0 as nat);
    lemma_decimal(a.1 as nat);
    lemma_decimal(b.1 as nat);
    if x == y {
        if a.0 == 0 && b.0 == 0 {
            assert(x.skip(3) =~= decimal(a.1 as nat));
            assert(y.skip(3) =~= decimal(b.1 as nat));
        } else if a.0 != 0 && b.0 != 0 {
            assert(x.skip(1) =~= decimal(a.0 as nat));
            assert(y.skip(1) =~= decimal(b.0 as nat));
        } else {
            let (low, high, n) = if a.0 == 0 {
                (x, decimal(b.0 as nat), a.1)
            } else {
                (y, decimal(a.0 as nat), b.1)
            };
            assert(low == "v0."@ + decimal(n as nat));
            assert(low == "v"@ + high);
            assert(low.len() == 3 + decimal(n as nat).len());
            assert(low[2] == '.');
            assert(low[2] == high[1]);
        }
    }
}

/// Once a version is selected for a family of a module, every version of the family stands in the
/// directory of the selected one. Where none is selected, a version stands in a directory of its own.
pub proof fn law_selected_version_is_used(
    dir: Seq<char>,
    closure: Seq<(ModuleLine, Version)>,
    module: Seq<char>,
    a: Seq<char>,
    v: VersionParts,
    b: Seq<char>,
    w: VersionParts,
)
    requires
        v.0 == w.0 && (v.0 != 0 || v.1 == w.1),
    ensures
        ({
            let base = path_joined(dir, module);
            let first = vendored_at(dir, closure, module, a, Some(v));
            let second = vendored_at(dir, closure, module, b, Some(w));
            match find(closure, (module, family_of(v))) {
                Some(s) => first == second && (is_plain_component(version_text(s@)) ==> components(
                    first,
                ) == components(base).push(version_text(s@))),
                None => (is_plain_component(a) ==> components(first) == components(base).push(a))
                    && (is_plain_component(b) ==> components(second) == components(base).push(b)),
            }
        }),
        is_plain_component(a) ==> components(vendored_at(dir, closure, module, a, None))
            == components(path_joined(dir, module)).push(a),
{
    let base = path_joined(dir, module);
    law_compatible_versions_share_a_family(v, w);
    lemma_joined_name(base, a);
    lemma_joined_name(base, b);
    if let Some(s) = find(closure, (module, family_of(v))) {
        lemma_joined_name(base, version_text(s@));
    }
}

/// A name behind a path is the path's last component.
proof fn lemma_joined_name(base: Seq<char>, name: Seq<char>)
    ensures
        is_plain_component(name) ==> components(path_joined(base, name)) == components(base).push(name),
{
    if is_plain_component(name) {
        law_joined_components(seq![name]);
        law_join_appends_components(base, name);
        assert(joined(seq![name], seq!['/']) == name);
        assert(components(base) + seq![name] =~= components(base).push(name));
    }
}

} // verus!
