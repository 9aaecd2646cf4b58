//! Manifests: the contents of `pcb.toml`.

use vstd::prelude::*;

use crate::text::{after_last, clone_opt, clone_texts, contains_char, cut_first, decimal, join};
use crate::text::{joined, last_segment, law_join_split, law_split_join, lemma_texts_push, number};
use crate::text::{opt_text, parse_u32, pieces, same, split_on, split_once, texts, to_decimal, trim};
use crate::text::trimmed;
use crate::map::{find, in_order, SortedMap};
use crate::{is_kicad_library_dependency_key, is_kicad_library_package, key_path, kicad_package};
use crate::TOOLCHAIN_VERSION;

verus! {

/// A manifest.
pub struct PcbToml {
    pub workspace: Option<WorkspaceConfig>,
    pub board: Option<Board>,
    pub dependencies: DependencyTable,
    /// Patches for local development.
    pub patch: SortedMap<String, PatchSpec>,
    /// Parts associated with symbols of the package.
    pub parts: Vec<ManifestPart>,
    pub access: Option<AccessConfig>,
}

/// The dependencies of a package. Direct keys are module paths; indirect keys carry a lane, as in
/// `<module>@<lane>`.
pub struct DependencyTable {
    pub direct: SortedMap<String, DependencySpec>,
    pub indirect: SortedMap<String, DependencySpec>,
}

/// The workspace section of a manifest.
pub struct WorkspaceConfig {
    pub name: Option<String>,
    /// Repository of the workspace, such as `github.com/diodeinc/registry`.
    pub repository: Option<String>,
    /// Path of the workspace within its repository.
    pub path: Option<String>,
    /// Oldest toolchain release series that can build the workspace.
    pub pcb_version: Option<String>,
    pub endpoint: Option<String>,
    pub bom: BomConfig,
    pub default_board: Option<String>,
    /// Patterns of the dependencies to vendor.
    pub vendor: Vec<String>,
    /// Paths of the packages to highlight.
    pub preferred: Vec<String>,
    /// Patterns of the paths in which no package is looked for.
    pub exclude: Vec<String>,
}

/// How the bill of materials is made.
#[derive(Clone, Copy, PartialEq, Eq, Structural, Debug)]
pub struct BomConfig {
    /// Whether availability is asked for by exact part number.
    pub strict: bool,
}

/// Who has access.
pub struct AccessConfig {
    pub allow: Vec<String>,
}

/// The board section of a manifest.
pub struct Board {
    pub name: String,
    /// The board's file, relative to the manifest.
    pub path: Option<String>,
    pub description: String,
}

/// Another name for the board section.
pub type BoardConfig = Board;

/// What a dependency asks for.
pub enum DependencySpec {
    /// A version, such as `0.3.2`, `^0.3.2` or `0`.
    Version(String),
    Detailed(DependencyDetail),
}

/// What a dependency asks for, in detail.
pub struct DependencyDetail {
    pub version: Option<String>,
    pub branch: Option<String>,
    pub rev: Option<String>,
    pub path: Option<String>,
}

/// What stands in the place of a dependency.
pub struct PatchSpec {
    pub path: Option<String>,
    pub branch: Option<String>,
    pub rev: Option<String>,
}

/// A manufacturer part associated with a symbol of a package.
pub struct ManifestPart {
    pub mpn: String,
    /// Path of the symbol library within the package.
    pub symbol: String,
    /// Name of the symbol within its library.
    pub symbol_name: Option<String>,
    pub manufacturer: String,
    pub qualifications: Vec<String>,
    pub datasheet: Option<String>,
}

// ---------------------------------------------------------------------------------------------
// Contents

/// The contents of a dependency specification.
pub enum DependencySpecView {
    Version(Seq<char>),
    Detailed {
        version: Option<Seq<char>>,
        branch: Option<Seq<char>>,
        rev: Option<Seq<char>>,
        path: Option<Seq<char>>,
    },
}

impl View for DependencySpec {
    type V = DependencySpecView;

    open spec fn view(&self) -> DependencySpecView {
        match *self {
            DependencySpec::Version(v) => DependencySpecView::Version(v@),
            DependencySpec::Detailed(d) => DependencySpecView::Detailed {
                version: opt_text(d.version),
                branch: opt_text(d.branch),
                rev: opt_text(d.rev),
                path: opt_text(d.path),
            },
        }
    }
}

/// The contents of a patch.
pub struct PatchView {
    pub path: Option<Seq<char>>,
    pub branch: Option<Seq<char>>,
    pub rev: Option<Seq<char>>,
}

impl View for PatchSpec {
    type V = PatchView;

    open spec fn view(&self) -> PatchView {
        PatchView {
            path: opt_text(self.path),
            branch: opt_text(self.branch),
            rev: opt_text(self.rev),
        }
    }
}

/// The contents of a manifest part.
pub struct ManifestPartView {
    pub mpn: Seq<char>,
    pub symbol: Seq<char>,
    pub symbol_name: Option<Seq<char>>,
    pub manufacturer: Seq<char>,
    pub qualifications: Seq<Seq<char>>,
    pub datasheet: Option<Seq<char>>,
}

impl View for ManifestPart {
    type V = ManifestPartView;

    open spec fn view(&self) -> ManifestPartView {
        ManifestPartView {
            mpn: self.mpn@,
            symbol: self.symbol@,
            symbol_name: opt_text(self.symbol_name),
            manufacturer: self.manufacturer@,
            qualifications: texts(self.qualifications@),
            datasheet: opt_text(self.datasheet),
        }
    }
}

/// The contents of a board section.
pub struct BoardView {
    pub name: Seq<char>,
    pub path: Option<Seq<char>>,
    pub description: Seq<char>,
}

impl View for Board {
    type V = BoardView;

    open spec fn view(&self) -> BoardView {
        BoardView {
            name: self.name@,
            path: opt_text(self.path),
            description: self.description@,
        }
    }
}

/// The contents of a workspace section.
pub struct WorkspaceConfigView {
    pub name: Option<Seq<char>>,
    pub repository: Option<Seq<char>>,
    pub path: Option<Seq<char>>,
    pub pcb_version: Option<Seq<char>>,
    pub endpoint: Option<Seq<char>>,
    pub bom: BomConfig,
    pub default_board: Option<Seq<char>>,
    pub vendor: Seq<Seq<char>>,
    pub preferred: Seq<Seq<char>>,
    pub exclude: Seq<Seq<char>>,
}

impl View for WorkspaceConfig {
    type V = WorkspaceConfigView;

    open spec fn view(&self) -> WorkspaceConfigView {
        WorkspaceConfigView {
            name: opt_text(self.name),
            repository: opt_text(self.repository),
            path: opt_text(self.path),
            pcb_version: opt_text(self.pcb_version),
            endpoint: opt_text(self.endpoint),
            bom: self.bom,
            default_board: opt_text(self.default_board),
            vendor: texts(self.vendor@),
            preferred: texts(self.preferred@),
            exclude: texts(self.exclude@),
        }
    }
}

/// The contents of a table of dependencies, in the order of its keys.
pub open spec fn spec_entries(s: Seq<(String, DependencySpec)>) -> Seq<
    (Seq<char>, DependencySpecView),
> {
    Seq::new(s.len(), |i: int| (s[i].0@, s[i].1@))
}

/// The contents of a table of patches, in the order of its keys.
pub open spec fn patch_entries(s: Seq<(String, PatchSpec)>) -> Seq<(Seq<char>, PatchView)> {
    Seq::new(s.len(), |i: int| (s[i].0@, s[i].1@))
}

/// The contents of a list of manifest parts.
pub open spec fn part_views(s: Seq<ManifestPart>) -> Seq<ManifestPartView> {
    Seq::new(s.len(), |i: int| s[i]@)
}

/// The contents of a manifest.
pub struct PcbTomlView {
    pub workspace: Option<WorkspaceConfigView>,
    pub board: Option<BoardView>,
    pub direct: Seq<(Seq<char>, DependencySpecView)>,
    pub indirect: Seq<(Seq<char>, DependencySpecView)>,
    pub patch: Seq<(Seq<char>, PatchView)>,
    pub parts: Seq<ManifestPartView>,
    pub access: Option<Seq<Seq<char>>>,
}

impl View for PcbToml {
    type V = PcbTomlView;

    open spec fn view(&self) -> PcbTomlView {
        PcbTomlView {
            workspace: match self.workspace {
                Some(w) => Some(w@),
                None => None,
            },
            board: match self.board {
                Some(b) => Some(b@),
                None => None,
            },
            direct: spec_entries(self.dependencies.direct.entries@),
            indirect: spec_entries(self.dependencies.indirect.entries@),
            patch: patch_entries(self.patch.entries@),
            parts: part_views(self.parts@),
            access: match self.access {
                Some(a) => Some(texts(a.allow@)),
                None => None,
            },
        }
    }
}

// ---------------------------------------------------------------------------------------------
// Copies

impl DependencySpec {
    /// Another specification with the same contents.
    pub fn copy(&self) -> (r: DependencySpec)
        ensures
            r@ == self@,
    {
        match self {
            DependencySpec::Version(v) => DependencySpec::Version(v.clone()),
            DependencySpec::Detailed(d) => DependencySpec::Detailed(
                DependencyDetail {
                    version: clone_opt(&d.version),
                    branch: clone_opt(&d.branch),
                    rev: clone_opt(&d.rev),
                    path: clone_opt(&d.path),
                },
            ),
        }
    }
}

impl ManifestPart {
    /// Another part with the same contents.
    pub fn copy(&self) -> (r: ManifestPart)
        ensures
            r@ == self@,
    {
        ManifestPart {
            mpn: self.mpn.clone(),
            symbol: self.symbol.clone(),
            symbol_name: clone_opt(&self.symbol_name),
            manufacturer: self.manufacturer.clone(),
            qualifications: clone_texts(&self.qualifications),
            datasheet: clone_opt(&self.datasheet),
        }
    }
}

impl Board {
    /// Another board section with the same contents.
    pub fn copy(&self) -> (r: Board)
        ensures
            r@ == self@,
    {
        Board {
            name: self.name.clone(),
            path: clone_opt(&self.path),
            description: self.description.clone(),
        }
    }
}

impl WorkspaceConfig {
    /// Another workspace section with the same contents.
    pub fn copy(&self) -> (r: WorkspaceConfig)
        ensures
            r@ == self@,
    {
        WorkspaceConfig {
            name: clone_opt(&self.name),
            repository: clone_opt(&self.repository),
            path: clone_opt(&self.path),
            pcb_version: clone_opt(&self.pcb_version),
            endpoint: clone_opt(&self.endpoint),
            bom: self.bom,
            default_board: clone_opt(&self.default_board),
            vendor: clone_texts(&self.vendor),
            preferred: clone_texts(&self.preferred),
            exclude: clone_texts(&self.exclude),
        }
    }
}

/// The contents of the default workspace section.
pub open spec fn default_workspace() -> WorkspaceConfigView {
    WorkspaceConfigView {
        name: None,
        repository: None,
        path: None,
        pcb_version: None,
        endpoint: None,
        bom: BomConfig { strict: false },
        default_board: None,
        vendor: Seq::<Seq<char>>::empty(),
        preferred: Seq::<Seq<char>>::empty(),
        exclude: Seq::<Seq<char>>::empty(),
    }
}

impl Default for WorkspaceConfig {
    fn default() -> (r: WorkspaceConfig)
        ensures
            r@ == default_workspace(),
    {
        let r = WorkspaceConfig {
            name: None,
            repository: None,
            path: None,
            pcb_version: None,
            endpoint: None,
            bom: BomConfig { strict: false },
            default_board: None,
            vendor: Vec::new(),
            preferred: Vec::new(),
            exclude: Vec::new(),
        };
        proof {
            assert(texts(r.vendor@) =~= Seq::<Seq<char>>::empty());
            assert(texts(r.preferred@) =~= Seq::<Seq<char>>::empty());
            assert(texts(r.exclude@) =~= Seq::<Seq<char>>::empty());
        }
        r
    }
}

impl BomConfig {
    /// Whether nothing departs from the default.
    pub fn is_default(&self) -> (r: bool)
        ensures
            r == (*self == (BomConfig { strict: false })),
    {
        !self.strict
    }
}

fn copy_specs(m: &SortedMap<String, DependencySpec>) -> (r: SortedMap<String, DependencySpec>)
    ensures
        spec_entries(r.entries@) == spec_entries(m.entries@),
        m.wf() ==> r.wf(),
{
    let mut out: Vec<(String, DependencySpec)> = Vec::new();
    let mut i: usize = 0;
    while i < m.entries.len()
        invariant
            i <= m.entries@.len(),
            out@.len() == i,
            forall|k: int|
                0 <= k < i ==> (#[trigger] out@[k]).0@ == m.entries@[k].0@ && out@[k].1@
                    == m.entries@[k].1@,
        decreases m.entries@.len() - i,
    {
        out.push((m.entries[i].0.clone(), m.entries[i].1.copy()));
        i += 1;
    }
    proof {
        assert(spec_entries(out@) =~= spec_entries(m.entries@));
    }
    SortedMap { entries: out }
}

fn copy_patches(m: &SortedMap<String, PatchSpec>) -> (r: SortedMap<String, PatchSpec>)
    ensures
        patch_entries(r.entries@) == patch_entries(m.entries@),
        m.wf() ==> r.wf(),
{
    let mut out: Vec<(String, PatchSpec)> = Vec::new();
    let mut i: usize = 0;
    while i < m.entries.len()
        invariant
            i <= m.entries@.len(),
            out@.len() == i,
            forall|k: int|
                0 <= k < i ==> (#[trigger] out@[k]).0@ == m.entries@[k].0@ && out@[k].1@
                    == m.entries@[k].1@,
        decreases m.entries@.len() - i,
    {
        let p = &m.entries[i].1;
        let q = PatchSpec {
            path: clone_opt(&p.path),
            branch: clone_opt(&p.branch),
            rev: clone_opt(&p.rev),
        };
        out.push((m.entries[i].0.clone(), q));
        i += 1;
    }
    proof {
        assert(patch_entries(out@) =~= patch_entries(m.entries@));
    }
    SortedMap { entries: out }
}

/// Copies a list of manifest parts.
pub fn copy_parts(v: &Vec<ManifestPart>) -> (r: Vec<ManifestPart>)
    ensures
        part_views(r@) == part_views(v@),
{
    let mut out: Vec<ManifestPart> = Vec::new();
    let mut i: usize = 0;
    while i < v.len()
        invariant
            i <= v.len(),
            out@.len() == i,
            forall|k: int| 0 <= k < i ==> (#[trigger] out@[k])@ == v@[k]@,
        decreases v.len() - i,
    {
        out.push(v[i].copy());
        i += 1;
    }
    proof {
        assert(part_views(out@) =~= part_views(v@));
    }
    out
}

impl PcbToml {
    /// The invariant: the tables are ordered.
    pub open spec fn wf(&self) -> bool {
        self.dependencies.direct.wf() && self.dependencies.indirect.wf() && self.patch.wf()
    }

    /// Another manifest with the same contents.
    pub fn copy(&self) -> (r: PcbToml)
        ensures
            r@ == self@,
            self.wf() ==> r.wf(),
    {
        PcbToml {
            workspace: match &self.workspace {
                Some(w) => Some(w.copy()),
                None => None,
            },
            board: match &self.board {
                Some(b) => Some(b.copy()),
                None => None,
            },
            dependencies: DependencyTable {
                direct: copy_specs(&self.dependencies.direct),
                indirect: copy_specs(&self.dependencies.indirect),
            },
            patch: copy_patches(&self.patch),
            parts: copy_parts(&self.parts),
            access: match &self.access {
                Some(a) => Some(AccessConfig { allow: clone_texts(&a.allow) }),
                None => None,
            },
        }
    }
}

/// The contents of the empty manifest.
pub open spec fn empty_manifest() -> PcbTomlView {
    PcbTomlView {
        workspace: None,
        board: None,
        direct: Seq::<(Seq<char>, DependencySpecView)>::empty(),
        indirect: Seq::<(Seq<char>, DependencySpecView)>::empty(),
        patch: Seq::<(Seq<char>, PatchView)>::empty(),
        parts: Seq::<ManifestPartView>::empty(),
        access: None,
    }
}

impl Default for PcbToml {
    fn default() -> (r: PcbToml)
        ensures
            r@ == empty_manifest(),
            r.wf(),
    {
        let r = PcbToml {
            workspace: None,
            board: None,
            dependencies: DependencyTable { direct: SortedMap::new(), indirect: SortedMap::new() },
            patch: SortedMap::new(),
            parts: Vec::new(),
            access: None,
        };
        proof {
            assert(spec_entries(r.dependencies.direct.entries@) =~= Seq::<
                (Seq<char>, DependencySpecView),
            >::empty());
            assert(spec_entries(r.dependencies.indirect.entries@) =~= Seq::<
                (Seq<char>, DependencySpecView),
            >::empty());
            assert(patch_entries(r.patch.entries@) =~= Seq::<(Seq<char>, PatchView)>::empty());
            assert(part_views(r.parts@) =~= Seq::<ManifestPartView>::empty());
        }
        r
    }
}

// ---------------------------------------------------------------------------------------------
// Dependencies

/// Whether an entry is kept: its package, or for a lane-qualified key the package before the lane,
/// is not one of the KiCad libraries.
pub open spec fn keeps(key: Seq<char>, qualified: bool) -> bool {
    !kicad_package(
        if qualified {
            key_path(key)
        } else {
            key
        },
    )
}

/// The entries that are kept, in order.
pub open spec fn kept(s: Seq<(String, DependencySpec)>, qualified: bool) -> Seq<
    (String, DependencySpec),
>
    decreases s.len(),
{
    if s.len() == 0 {
        s
    } else if keeps(s.last().0@, qualified) {
        kept(s.drop_last(), qualified).push(s.last())
    } else {
        kept(s.drop_last(), qualified)
    }
}

proof fn lemma_kept(s: Seq<(String, DependencySpec)>, qualified: bool)
    ensures
        kept(s, qualified).len() <= s.len(),
        forall|i: int|
            0 <= i < kept(s, qualified).len() ==> s.contains(#[trigger] kept(s, qualified)[i]),
        in_order(s) ==> in_order(kept(s, qualified)),
    decreases s.len(),
{
    if s.len() > 0 {
        let t = s.drop_last();
        let k = kept(t, qualified);
        lemma_kept(t, qualified);
        assert forall|i: int| 0 <= i < kept(s, qualified).len() implies s.contains(
            #[trigger] kept(s, qualified)[i],
        ) by {
            if i < k.len() {
                assert(kept(s, qualified)[i] == k[i]);
                let j = choose|j: int| 0 <= j < t.len() && t[j] == k[i];
                assert(s[j] == k[i]);
            } else {
                assert(s[s.len() - 1] == kept(s, qualified)[i]);
            }
        }
        if in_order(s) {
            assert forall|i: int, j: int| 0 <= i < j < t.len() implies crate::text::text_before(
                #[trigger] t[i].0@,
                #[trigger] t[j].0@,
            ) by {
                assert(t[i] == s[i] && t[j] == s[j]);
                assert(<String as crate::map::Key>::before(s[i].0@, s[j].0@));
            }
            assert(in_order(t));
            let r = kept(s, qualified);
            assert forall|i: int, j: int| 0 <= i < j < r.len() implies <String as crate::map::Key>::before(
                #[trigger] r[i].0@,
                #[trigger] r[j].0@,
            ) by {
                if j < k.len() {
                    assert(r[i] == k[i] && r[j] == k[j]);
                } else {
                    assert(r[i] == k[i]);
                    let m = choose|m: int| 0 <= m < t.len() && t[m] == k[i];
                    assert(s[m] == k[i]);
                    assert(<String as crate::map::Key>::before(s[m].0@, s[s.len() - 1].0@));
                }
            }
        }
    }
}

fn drop_kicad(m: &mut SortedMap<String, DependencySpec>, qualified: bool)
    requires
        old(m).wf(),
    ensures
        final(m).entries@ == kept(old(m).entries@, qualified),
        final(m).wf(),
{
    let ghost all = m.entries@;
    let ghost mut done: int = 0;
    let mut i: usize = 0;
    proof {
        assert(all.take(0) =~= Seq::<(String, DependencySpec)>::empty());
        assert(kept(all.take(0), qualified) + all.skip(0) =~= all);
    }
    while i < m.entries.len()
        invariant
            0 <= done <= all.len(),
            i == kept(all.take(done), qualified).len(),
            m.entries@ == kept(all.take(done), qualified) + all.skip(done),
        decreases m.entries@.len() - i,
    {
        let ghost head = kept(all.take(done), qualified);
        proof {
            assert(m.entries@.len() == head.len() + (all.len() - done));
            assert(m.entries@[i as int] == all[done]);
            assert(all.take(done + 1).drop_last() =~= all.take(done));
        }
        let kicad = if qualified {
            is_kicad_library_dependency_key(m.entries[i].0.as_str())
        } else {
            is_kicad_library_package(m.entries[i].0.as_str())
        };
        if kicad {
            let _ = m.entries.remove(i);
            proof {
                assert(m.entries@ =~= head + all.skip(done + 1));
            }
        } else {
            i += 1;
            proof {
                assert(m.entries@ =~= head.push(all[done]) + all.skip(done + 1));
            }
        }
        proof {
            done = done + 1;
        }
    }
    proof {
        assert(all.skip(done).len() == 0);
        assert(all.take(done) =~= all);
        assert(m.entries@ =~= kept(all, qualified));
        lemma_kept(all, qualified);
    }
}

impl DependencyTable {
    /// Whether there is no dependency.
    pub fn is_empty(&self) -> (r: bool)
        ensures
            r == (self.direct.entries@.len() == 0 && self.indirect.entries@.len() == 0),
    {
        self.direct.is_empty() && self.indirect.is_empty()
    }

    /// Drops the dependencies on the KiCad libraries, which come with the toolchain.
    pub fn remove_kicad_library_dependencies(&mut self)
        requires
            old(self).direct.wf(),
            old(self).indirect.wf(),
        ensures
            final(self).direct.entries@ == kept(old(self).direct.entries@, false),
            final(self).indirect.entries@ == kept(old(self).indirect.entries@, true),
            final(self).direct.wf(),
            final(self).indirect.wf(),
    {
        drop_kicad(&mut self.direct, false);
        drop_kicad(&mut self.indirect, true);
    }
}

// ---------------------------------------------------------------------------------------------
// Toolchain versions

/// The release series that a text names, as its major and minor number.
pub open spec fn series(s: Seq<char>) -> Option<(int, int)> {
    match cut_first(s, '.') {
        Some(p) => if p.1.contains('.') {
            None
        } else {
            match (number(p.0, u32::MAX as int), number(p.1, u32::MAX as int)) {
                (Some(major), Some(minor)) => Some((major, minor)),
                _ => None,
            }
        },
        None => None,
    }
}

/// Reads a release series, `major.minor`.
pub fn parse_pcb_version(s: &str) -> (r: Option<(u32, u32)>)
    ensures
        match r {
            Some(v) => series(s@) == Some((v.0 as int, v.1 as int)),
            None => series(s@) is None,
        },
{
    let (major, minor) = match split_once(s, '.') {
        Some((a, b)) => (a, b),
        None => return None,
    };
    if contains_char(minor.as_str(), '.') {
        return None;
    }
    match (parse_u32(major.as_str()), parse_u32(minor.as_str())) {
        (Some(x), Some(y)) => Some((x, y)),
        _ => None,
    }
}

/// The first two numbers of this toolchain's version.
pub open spec fn toolchain_series() -> (int, int) {
    let p = pieces(TOOLCHAIN_VERSION@, '.');
    (number(p[0], u32::MAX as int)->Some_0, number(p[1], u32::MAX as int)->Some_0)
}

pub proof fn lemma_toolchain_series()
    ensures
        pieces(TOOLCHAIN_VERSION@, '.').len() == 3,
        number(pieces(TOOLCHAIN_VERSION@, '.')[0], u32::MAX as int) == Some(0int),
        number(pieces(TOOLCHAIN_VERSION@, '.')[1], u32::MAX as int) == Some(4int),
{
    reveal_strlit("0.4.0");
    reveal_with_fuel(pieces, 6);
    reveal_with_fuel(crate::text::digits_value, 2);
    let t = TOOLCHAIN_VERSION@;
    assert(t =~= seq!['0', '.', '4', '.', '0']);
    let p = pieces(t, '.');
    let t4 = seq!['0', '.', '4', '.'];
    let t3 = seq!['0', '.', '4'];
    let t2 = seq!['0', '.'];
    let t1 = seq!['0'];
    assert(t.drop_last() =~= t4);
    assert(t4.drop_last() =~= t3);
    assert(t3.drop_last() =~= t2);
    assert(t2.drop_last() =~= t1);
    assert(t1.drop_last() =~= Seq::<char>::empty());
    assert(pieces(t1, '.') =~= seq![seq!['0']]) by {
        assert(Seq::<char>::empty().push('0') =~= seq!['0']);
    }
    assert(pieces(t2, '.') =~= seq![seq!['0'], Seq::<char>::empty()]);
    assert(pieces(t3, '.') =~= seq![seq!['0'], seq!['4']]) by {
        assert(Seq::<char>::empty().push('4') =~= seq!['4']);
    }
    assert(pieces(t4, '.') =~= seq![seq!['0'], seq!['4'], Seq::<char>::empty()]);
    assert(p.len() == 3 && p[0] =~= seq!['0'] && p[1] =~= seq!['4']);
    assert(seq!['0'].drop_last() =~= Seq::<char>::empty());
    assert(seq!['4'].drop_last() =~= Seq::<char>::empty());
}

/// The release series of this toolchain, as `major.minor`.
pub fn pcb_version_from_cargo() -> (r: String)
    ensures
        r@ == decimal(toolchain_series().0 as nat) + "."@ + decimal(toolchain_series().1 as nat),
        series(r@) == Some(toolchain_series()),
{
    let parts = split_on(TOOLCHAIN_VERSION, '.');
    proof {
        lemma_toolchain_series();
        assert(texts(parts@)[0] == parts@[0]@);
        assert(texts(parts@)[1] == parts@[1]@);
    }
    let (major, minor): (u32, u32) = match (
        parse_u32(parts[0].as_str()),
        parse_u32(parts[1].as_str()),
    ) {
        (Some(x), Some(y)) => (x, y),
        _ => (0, 0),
    };
    let mut out = to_decimal(major as u64);
    out.append(".");
    let tail = to_decimal(minor as u64);
    out.append(tail.as_str());
    proof {
        reveal_strlit(".");
        lemma_series_round_trip(major as nat, minor as nat);
        assert("."@ =~= seq!['.']);
    }
    out
}

/// A release series is read back from its text.
pub proof fn lemma_series_round_trip(major: nat, minor: nat)
    requires
        major <= u32::MAX,
        minor <= u32::MAX,
    ensures
        series(decimal(major) + seq!['.'] + decimal(minor)) == Some((major as int, minor as int)),
{
    let a = decimal(major);
    let b = decimal(minor);
    let s = a + seq!['.'] + b;
    crate::text::lemma_decimal(major);
    crate::text::lemma_decimal(minor);
    crate::text::law_decimal_round_trip(major, u32::MAX as int);
    crate::text::law_decimal_round_trip(minor, u32::MAX as int);
    crate::text::lemma_first_at(s, '.');
    assert(s[a.len() as int] == '.');
    let k = crate::text::first_at(s, '.');
    assert(k == a.len()) by {
        if k < a.len() {
            assert(s[k] == a[k]);
            assert('0' <= a[k] <= '9');
        }
    }
    assert(s.take(k) =~= a);
    assert(s.skip(k + 1) =~= b);
    if b.contains('.') {
        let i = choose|i: int| 0 <= i < b.len() && b[i] == '.';
        assert('0' <= b[i] <= '9');
    }
}

/// Whether one series comes before another.
pub open spec fn series_before(a: (int, int), b: (int, int)) -> bool {
    a.0 < b.0 || (a.0 == b.0 && a.1 < b.1)
}

/// Whether the toolchain `current` is older than the one `required`; `None` where one of them is no
/// release series.
pub fn pcb_version_is_older(current: &str, required: &str) -> (r: Option<bool>)
    ensures
        match (series(current@), series(required@)) {
            (Some(a), Some(b)) => r == Some(series_before(a, b)),
            _ => r is None,
        },
{
    match (parse_pcb_version(current), parse_pcb_version(required)) {
        (Some(a), Some(b)) => Some(a.0 < b.0 || (a.0 == b.0 && a.1 < b.1)),
        _ => None,
    }
}

/// Why a manifest is not accepted.
pub enum ManifestError {
    InvalidPcbVersion { version: String },
}

impl ManifestError {
    /// The text of the error.
    pub open spec fn text(&self) -> Seq<char> {
        match *self {
            ManifestError::InvalidPcbVersion { version } =>
            "invalid `pcb-version`: expected \"major.minor\" like \"0.4\", got \""@ + version@
                + "\""@,
        }
    }

    /// The text of the error.
    pub fn message(&self) -> (r: String)
        ensures
            r@ == self.text(),
    {
        match self {
            ManifestError::InvalidPcbVersion { version } => {
                let mut out =
                    "invalid `pcb-version`: expected \"major.minor\" like \"0.4\", got \"".to_owned();
                out.append(version.as_str());
                out.append("\"");
                out
            },
        }
    }
}

/// The release series that a manifest requires, if it requires one.
pub open spec fn required_series(m: PcbTomlView) -> Option<Seq<char>> {
    match m.workspace {
        Some(w) => w.pcb_version,
        None => None,
    }
}

/// The contents of what is left of a table when the KiCad libraries are dropped.
pub open spec fn kept_views(s: Seq<(Seq<char>, DependencySpecView)>, qualified: bool) -> Seq<
    (Seq<char>, DependencySpecView),
>
    decreases s.len(),
{
    if s.len() == 0 {
        s
    } else if keeps(s.last().0, qualified) {
        kept_views(s.drop_last(), qualified).push(s.last())
    } else {
        kept_views(s.drop_last(), qualified)
    }
}

proof fn lemma_kept_views(s: Seq<(String, DependencySpec)>, qualified: bool)
    ensures
        spec_entries(kept(s, qualified)) == kept_views(spec_entries(s), qualified),
    decreases s.len(),
{
    if s.len() == 0 {
        assert(spec_entries(kept(s, qualified)) =~= kept_views(spec_entries(s), qualified));
    } else {
        lemma_kept_views(s.drop_last(), qualified);
        assert(spec_entries(s).drop_last() =~= spec_entries(s.drop_last()));
        let k = kept(s.drop_last(), qualified);
        assert(spec_entries(k.push(s.last())) =~= spec_entries(k).push(
            (s.last().0@, s.last().1@),
        ));
    }
}

impl PcbToml {
    /// Accepts a manifest that was read from text: drops the dependencies on the KiCad libraries,
    /// and refuses a required toolchain version that is no release series.
    pub fn finish_parse(self) -> (r: Result<PcbToml, ManifestError>)
        requires
            self.wf(),
        ensures
            r is Err <==> (required_series(self@) is Some && series(
                required_series(self@)->Some_0,
            ) is None),
            match r {
                Ok(m) => m.wf() && m@ == (PcbTomlView {
                    direct: kept_views(self@.direct, false),
                    indirect: kept_views(self@.indirect, true),
                    ..self@
                }),
                Err(e) => e == (ManifestError::InvalidPcbVersion {
                    version: self.workspace->Some_0.pcb_version->Some_0,
                }),
            },
    {
        let mut out = self;
        out.dependencies.remove_kicad_library_dependencies();
        proof {
            lemma_kept_views(self.dependencies.direct.entries@, false);
            lemma_kept_views(self.dependencies.indirect.entries@, true);
        }
        match out.validate_pcb_version() {
            Ok(_) => Ok(out),
            Err(e) => Err(e),
        }
    }

    /// Refuses a required toolchain version that is no release series.
    fn validate_pcb_version(&self) -> (r: Result<(), ManifestError>)
        ensures
            r is Err <==> (required_series(self@) is Some && series(
                required_series(self@)->Some_0,
            ) is None),
            match r {
                Ok(_) => true,
                Err(e) => e == (ManifestError::InvalidPcbVersion {
                    version: self.workspace->Some_0.pcb_version->Some_0,
                }),
            },
    {
        match &self.workspace {
            Some(w) => match &w.pcb_version {
                Some(version) => if parse_pcb_version(version.as_str()).is_none() {
                    Err(ManifestError::InvalidPcbVersion { version: version.clone() })
                } else {
                    Ok(())
                },
                None => Ok(()),
            },
            None => Ok(()),
        }
    }

    /// Whether this manifest is that of a workspace.
    pub fn is_workspace(&self) -> (r: bool)
        ensures
            r == (self.workspace is Some),
    {
        self.workspace.is_some()
    }

    /// Whether this manifest is that of a board.
    pub fn is_board(&self) -> (r: bool)
        ensures
            r == (self.board is Some),
    {
        self.board.is_some()
    }

    /// Short names for the direct dependencies: the last segment of each URL, where no other URL
    /// has the same.
    pub fn auto_generated_aliases(&self) -> (r: SortedMap<String, String>)
        ensures
            r.wf(),
            forall|q: Seq<char>|
                opt_text(find(r.entries@, q)) == #[trigger] alias_target(
                    crate::map::keys_of(self.dependencies.direct.entries@),
                    q,
                ),
    {
        let entries = &self.dependencies.direct.entries;
        let ghost urls = crate::map::keys_of(entries@);
        let mut out: SortedMap<String, String> = SortedMap::new();
        let mut i: usize = 0;
        while i < entries.len()
            invariant
                i <= entries@.len(),
                urls == crate::map::keys_of(entries@),
                out.wf(),
                forall|q: Seq<char>|
                    opt_text(#[trigger] find(out.entries@, q)) == (if with_last(urls, q).len() == 1
                        && with_last(urls.take(i as int), q).len() == 1 {
                        Some(with_last(urls, q)[0])
                    } else {
                        None
                    }),
            decreases entries@.len() - i,
        {
            let name = last_segment(entries[i].0.as_str(), '/');
            let n = count_last(entries, name.as_str());
            let ghost before = out.entries@;
            proof {
                assert(urls[i as int] == entries@[i as int].0@);
                assert(urls.take(i + 1).drop_last() =~= urls.take(i as int));
                assert(urls.take(i + 1).last() == urls[i as int]);
            }
            if n == 1 {
                let url = entries[i].0.clone();
                proof {
                    lemma_with_last_single(urls, i as int, name@);
                }
                out.insert(name, url);
            } else {
                proof {
                    lemma_with_last_part(urls, i as int, name@);
                }
            }
            proof {
                assert forall|q: Seq<char>|
                    opt_text(#[trigger] find(out.entries@, q)) == (if with_last(urls, q).len() == 1
                        && with_last(urls.take(i + 1), q).len() == 1 {
                        Some(with_last(urls, q)[0])
                    } else {
                        None
                    }) by {
                    assert(opt_text(find(before, q)) == (if with_last(urls, q).len() == 1
                        && with_last(urls.take(i as int), q).len() == 1 {
                        Some(with_last(urls, q)[0])
                    } else {
                        None
                    }));
                    if q != name@ {
                        assert(with_last(urls.take(i + 1), q) == with_last(urls.take(i as int), q));
                    }
                }
            }
            i += 1;
        }
        proof {
            assert(urls.take(urls.len() as int) =~= urls);
        }
        out
    }
}

/// The URLs whose last segment is `q`.
pub open spec fn with_last(urls: Seq<Seq<char>>, q: Seq<char>) -> Seq<Seq<char>>
    decreases urls.len(),
{
    if urls.len() == 0 {
        urls
    } else if after_last(urls.last(), '/') == q {
        with_last(urls.drop_last(), q).push(urls.last())
    } else {
        with_last(urls.drop_last(), q)
    }
}

/// The one URL whose last segment is `q`, where there is just one.
pub open spec fn alias_target(urls: Seq<Seq<char>>, q: Seq<char>) -> Option<Seq<char>> {
    if with_last(urls, q).len() == 1 {
        Some(with_last(urls, q)[0])
    } else {
        None
    }
}

proof fn lemma_with_last_part(urls: Seq<Seq<char>>, i: int, q: Seq<char>)
    requires
        0 <= i <= urls.len(),
    ensures
        with_last(urls.take(i), q).len() <= with_last(urls, q).len(),
        with_last(urls.take(i), q) == with_last(urls, q).take(
            with_last(urls.take(i), q).len() as int,
        ),
    decreases urls.len(),
{
    if i == urls.len() {
        assert(urls.take(i) =~= urls);
        assert(with_last(urls, q).take(with_last(urls, q).len() as int) =~= with_last(urls, q));
    } else {
        lemma_with_last_part(urls.drop_last(), i, q);
        assert(urls.drop_last().take(i) =~= urls.take(i));
        let a = with_last(urls.take(i), q);
        let b = with_last(urls.drop_last(), q);
        assert(with_last(urls, q).take(a.len() as int) =~= b.take(a.len() as int));
    }
}

proof fn lemma_with_last_single(urls: Seq<Seq<char>>, i: int, q: Seq<char>)
    requires
        0 <= i < urls.len(),
        after_last(urls[i], '/') == q,
        with_last(urls, q).len() == 1,
    ensures
        with_last(urls, q)[0] == urls[i],
        with_last(urls.take(i), q).len() == 0,
        with_last(urls.take(i + 1), q).len() == 1,
{
    lemma_with_last_part(urls, i, q);
    lemma_with_last_part(urls, i + 1, q);
    assert(urls.take(i + 1).drop_last() =~= urls.take(i));
    let a = with_last(urls.take(i), q);
    let b = with_last(urls.take(i + 1), q);
    assert(b == a.push(urls[i]));
    assert(b[0] == with_last(urls, q)[0]);
}

/// The number of entries whose key has the last segment `q`.
fn count_last(entries: &Vec<(String, DependencySpec)>, q: &str) -> (r: usize)
    ensures
        r == with_last(crate::map::keys_of(entries@), q@).len(),
{
    let ghost urls = crate::map::keys_of(entries@);
    let mut n: usize = 0;
    let mut i: usize = 0;
    proof {
        assert(urls.take(0) =~= Seq::<Seq<char>>::empty());
    }
    while i < entries.len()
        invariant
            i <= entries@.len(),
            urls == crate::map::keys_of(entries@),
            n <= i,
            n == with_last(urls.take(i as int), q@).len(),
        decreases entries@.len() - i,
    {
        proof {
            assert(urls.take(i + 1).drop_last() =~= urls.take(i as int));
            assert(urls.take(i + 1).last() == entries@[i as int].0@);
        }
        let name = last_segment(entries[i].0.as_str(), '/');
        if same(name.as_str(), q) {
            n += 1;
        }
        i += 1;
    }
    proof {
        assert(urls.take(urls.len() as int) =~= urls);
    }
    n
}

// ---------------------------------------------------------------------------------------------
// Inline manifests

/// A comment line, from its `#` on, without the `#` and one space behind it.
pub open spec fn comment_content(t: Seq<char>) -> Seq<char> {
    let c = t.skip(1);
    if c.len() > 0 && c[0] == ' ' {
        c.skip(1)
    } else {
        c
    }
}

/// The lines of the first manifest block in the leading comments of a file. A block is opened by
/// the comment "```pcb" and closed by "```"; the leading comments end at the first line that is
/// neither empty nor a comment.
pub open spec fn manifest_lines(
    lines: Seq<Seq<char>>,
    in_block: bool,
    acc: Seq<Seq<char>>,
) -> Option<Seq<Seq<char>>>
    decreases lines.len(),
{
    if lines.len() == 0 {
        None
    } else {
        let t = trimmed(lines[0]);
        let rest = lines.skip(1);
        if t.len() == 0 {
            manifest_lines(rest, in_block, acc)
        } else if t[0] != '#' {
            None
        } else {
            let mark = trimmed(t.skip(1));
            if !in_block {
                manifest_lines(rest, mark == "```pcb"@, acc)
            } else if mark == "```"@ {
                Some(acc)
            } else {
                manifest_lines(rest, true, acc.push(comment_content(t)))
            }
        }
    }
}

/// The manifest that stands in the leading comments of a file, without the comment signs.
pub open spec fn inline_manifest(content: Seq<char>) -> Option<Seq<char>> {
    match manifest_lines(pieces(content, '\n'), false, Seq::<Seq<char>>::empty()) {
        Some(lines) => Some(joined(lines, "\n"@)),
        None => None,
    }
}

/// Finds the manifest that stands in the leading comments of a file.
pub fn extract_inline_manifest(zen_content: &str) -> (r: Option<String>)
    ensures
        opt_text(r) == inline_manifest(zen_content@),
{
    let lines = split_on(zen_content, '\n');
    let ghost all = texts(lines@);
    let mut in_block: bool = false;
    let mut acc: Vec<String> = Vec::new();
    let mut i: usize = 0;
    proof {
        assert(all.skip(0) =~= all);
        assert(texts(acc@) =~= Seq::<Seq<char>>::empty());
    }
    while i < lines.len()
        invariant
            i <= lines@.len(),
            all == texts(lines@),
            all == pieces(zen_content@, '\n'),
            manifest_lines(all.skip(i as int), in_block, texts(acc@)) == manifest_lines(
                all,
                false,
                Seq::<Seq<char>>::empty(),
            ),
        decreases lines@.len() - i,
    {
        proof {
            assert(all.skip(i as int)[0] == lines@[i as int]@);
            assert(all.skip(i as int).skip(1) =~= all.skip(i + 1));
        }
        let t = trim(lines[i].as_str());
        let n: usize = t.as_str().unicode_len();
        if n > 0 {
            if t.as_str().get_char(0) != '#' {
                return None;
            }
            let body = t.as_str().substring_char(1, n);
            let mark = trim(body);
            proof {
                assert(body@ =~= t@.skip(1));
            }
            if !in_block {
                in_block = same(mark.as_str(), "```pcb");
            } else if same(mark.as_str(), "```") {
                return Some(join(&acc, "\n"));
            } else {
                let line = if n > 1 && body.get_char(0) == ' ' {
                    let c = body.substring_char(1, n - 1);
                    proof {
                        assert(c@ =~= t@.skip(1).skip(1));
                    }
                    c.to_owned()
                } else {
                    body.to_owned()
                };
                proof {
                    lemma_texts_push(acc@, line);
                }
                acc.push(line);
            }
        }
        i += 1;
    }
    None
}

// ---------------------------------------------------------------------------------------------
// Repositories

/// A joined list is its first `k` parts joined, the separator, and the others joined.
pub proof fn lemma_joined_cut(parts: Seq<Seq<char>>, sep: Seq<char>, k: int)
    requires
        0 < k < parts.len(),
    ensures
        joined(parts, sep) == joined(parts.take(k), sep) + sep + joined(parts.skip(k), sep),
    decreases parts.len(),
{
    let t = parts.drop_last();
    if k == parts.len() - 1 {
        assert(t =~= parts.take(k));
        assert(parts.skip(k) =~= seq![parts.last()]);
    } else {
        lemma_joined_cut(t, sep, k);
        assert(t.take(k) =~= parts.take(k));
        assert(t.skip(k) =~= parts.skip(k).drop_last());
        assert(parts.skip(k).last() == parts.last());
        assert(joined(parts, sep) =~= joined(parts.take(k), sep) + sep + (joined(
            parts.skip(k).drop_last(),
            sep,
        ) + sep + parts.last()));
    }
}

/// A module path as its repository and the path within it: the first three segments of a module on
/// `github.com` are the repository.
pub open spec fn repo_and_subpath(path: Seq<char>) -> (Seq<char>, Seq<char>) {
    let p = pieces(path, '/');
    if p[0] == "github.com"@ && p.len() > 3 {
        (joined(p.take(3), "/"@), joined(p.skip(3), "/"@))
    } else {
        (path, Seq::<char>::empty())
    }
}

/// Splits a module path into its repository and the path within it.
pub fn split_repo_and_subpath(module: &str) -> (r: (&str, &str))
    ensures
        (r.0@, r.1@) == repo_and_subpath(module@),
{
    let parts = split_on(module, '/');
    proof {
        assert(texts(parts@)[0] == parts@[0]@);
    }
    if same(parts[0].as_str(), "github.com") && parts.len() > 3 {
        let head = crate::text::join_range(&parts, 0, 3, "/");
        let n: usize = head.as_str().unicode_len();
        let m: usize = module.unicode_len();
        let ghost p = texts(parts@);
        proof {
            reveal_strlit("/");
            assert("/"@ =~= seq!['/']);
            law_split_join(module@, '/');
            lemma_joined_cut(p, "/"@, 3);
            assert(p.subrange(0, 3) =~= p.take(3));
            assert(module@.take(n as int) =~= head@);
            assert(module@.subrange(0, n as int) =~= head@);
            assert(module@.subrange(n + 1, m as int) =~= joined(p.skip(3), "/"@));
        }
        (module.substring_char(0, n), module.substring_char(n + 1, m))
    } else {
        proof {
            reveal_strlit("");
            assert(""@ =~= Seq::<char>::empty());
        }
        (module, "")
    }
}

/// A repository and the path within it make up the module path.
pub proof fn law_repo_and_subpath_make_module_path(path: Seq<char>)
    ensures
        ({
            let (repo, sub) = repo_and_subpath(path);
            path == repo + "/"@ + sub || (path == repo && sub.len() == 0)
        }),
{
    reveal_strlit("/");
    assert("/"@ =~= seq!['/']);
    law_split_join(path, '/');
    let p = pieces(path, '/');
    if p[0] == "github.com"@ && p.len() > 3 {
        lemma_joined_cut(p, "/"@, 3);
    }
}

/// Splitting a repository again gives the repository, with nothing within it.
pub proof fn law_repository_is_whole(path: Seq<char>)
    ensures
        repo_and_subpath(repo_and_subpath(path).0) == (
            repo_and_subpath(path).0,
            Seq::<char>::empty(),
        ),
{
    reveal_strlit("/");
    assert("/"@ =~= seq!['/']);
    law_split_join(path, '/');
    let p = pieces(path, '/');
    if p[0] == "github.com"@ && p.len() > 3 {
        let head = p.take(3);
        assert forall|i: int| 0 <= i < head.len() implies !(#[trigger] head[i]).contains('/') by {
            assert(head[i] == p[i]);
        }
        law_join_split(head, '/');
    }
}

} // verus!
