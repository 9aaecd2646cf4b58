//! Finding the packages of a workspace.
//!
//! The search asks for one directory's listing after the other, and decides what each listing
//! means; reading directories and manifests is the caller's part.

use vstd::prelude::*;

use crate::config::{Board, BoardView, PcbToml, PcbTomlView};
use crate::glob::{expand_patterns, match_any, set_result, with_variants};
use crate::map::{find, SortedMap};
use crate::path::{ancestors, ancestors_of, components, extension, extension_of, file_name};
use crate::path::{file_name_of, is_absolute, path_eq, path_join, path_joined, relative_to};
use crate::path::{same_path, split_path, strip_base};
use crate::text::{clone_opt, contains_text, join, joined, opt_text, same, texts};
use crate::workspace::{base_url, DiscoveryError, WorkspaceError, WorkspaceInfo, WorkspacePackage};
use crate::workspace::{LOCAL_WORKSPACE_ROOT_URL, WORKSPACE_DISCOVERY_MAX_DEPTH};
use crate::{asked_canonical, DirEntry, FileProvider, FileProviderError};

verus! {

/// Names of directories in which no package is looked for.
pub open spec fn excluded_name(name: Seq<char>) -> bool {
    name == ".git"@ || name == ".pcb"@ || name == "fork"@ || name == "node_modules"@ || name
        == "target"@ || name == "vendor"@
}

/// Whether no package is ever looked for in a directory, by its name.
pub open spec fn builtin_excluded(p: Seq<char>) -> bool {
    match file_name_of(p) {
        Some(name) => excluded_name(name),
        None => false,
    }
}

/// Whether no package is ever looked for in a directory, by its name.
pub fn is_builtin_excluded_dir(p: &str) -> (r: bool)
    ensures
        r == builtin_excluded(p@),
{
    match file_name(p) {
        Some(name) => {
            let n = name.as_str();
            same(n, ".git") || same(n, ".pcb") || same(n, "fork") || same(n, "node_modules")
                || same(n, "target") || same(n, "vendor")
        },
        None => false,
    }
}

/// The components of a path with `/` between them.
pub open spec fn slashed(p: Seq<char>) -> Seq<char> {
    joined(components(p), "/"@)
}

/// The components of a path with `/` between them.
pub fn rel_path_string(p: &str) -> (r: String)
    ensures
        r@ == slashed(p@),
{
    join(&split_path(p), "/")
}

/// Whether the search goes down into an entry of a directory: a directory, not a link, not one that
/// is always left out, below the root, and matched by no pattern.
pub open spec fn descends(e: DirEntry, root: Seq<char>, patterns: Seq<Seq<char>>) -> bool {
    e.is_dir && !e.is_symlink && !builtin_excluded(e.path@) && relative_to(e.path@, root) is Some
        && set_result(patterns, slashed(relative_to(e.path@, root)->Some_0)) == Ok::<
        bool,
        Seq<char>,
    >(false)
}

/// The directories to visit among a directory's first entries.
pub open spec fn children(
    entries: Seq<DirEntry>,
    root: Seq<char>,
    patterns: Seq<Seq<char>>,
    depth: int,
) -> Seq<(Seq<char>, int)>
    decreases entries.len(),
{
    if entries.len() == 0 {
        Seq::<(Seq<char>, int)>::empty()
    } else {
        let r = children(entries.drop_last(), root, patterns, depth);
        if descends(entries.last(), root, patterns) {
            r.push((entries.last().path@, depth))
        } else {
            r
        }
    }
}

/// Whether a directory's listing holds a manifest.
pub open spec fn lists_manifest(entries: Seq<DirEntry>) -> bool {
    exists|i: int|
        0 <= i < entries.len() && !(#[trigger] entries[i]).is_dir && file_name_of(entries[i].path@)
            == Some("pcb.toml"@)
}

/// A search for packages: what is left to visit, with each directory's depth below the root, and
/// what was found.
pub struct Discovery {
    pub root: String,
    pub patterns: Vec<String>,
    pub stack: Vec<(String, usize)>,
    /// The packages' directories, each with its path relative to the root.
    pub found: Vec<(String, String)>,
    pub errors: Vec<DiscoveryError>,
}

/// The contents of what is left to visit.
pub open spec fn stack_view(s: Seq<(String, usize)>) -> Seq<(Seq<char>, int)> {
    Seq::new(s.len(), |i: int| (s[i].0@, s[i].1 as int))
}

/// The contents of a list of pairs.
pub open spec fn pair_views(s: Seq<(String, String)>) -> Seq<(Seq<char>, Seq<char>)> {
    Seq::new(s.len(), |i: int| (s[i].0@, s[i].1@))
}

/// The contents of a list of errors.
pub open spec fn error_views(s: Seq<DiscoveryError>) -> Seq<(Seq<char>, Seq<char>)> {
    Seq::new(s.len(), |i: int| (s[i].path@, s[i].error@))
}

/// Whether a directory may be left to visit: the root, or one that the search goes down into.
pub open spec fn may_visit(p: Seq<char>, depth: int, root: Seq<char>, patterns: Seq<Seq<char>>) -> bool {
    0 <= depth <= WORKSPACE_DISCOVERY_MAX_DEPTH && (depth == 0 || (!builtin_excluded(p)
        && relative_to(p, root) is Some && set_result(
        patterns,
        slashed(relative_to(p, root)->Some_0),
    ) == Ok::<bool, Seq<char>>(false)))
}

/// Whether a search took the listing of the directory that was asked for.
pub open spec fn visited(
    before: Discovery,
    after: Discovery,
    listing: Result<Vec<DirEntry>, FileProviderError>,
) -> bool {
    &&& after.root@ == before.root@
    &&& after.patterns@ == before.patterns@
    &&& ({
        let (dir, depth) = stack_view(before.stack@).last();
        let rest = stack_view(before.stack@).drop_last();
        match listing {
            Err(e) => {
                &&& stack_view(after.stack@) == rest
                &&& pair_views(after.found@) == pair_views(before.found@)
                &&& error_views(after.errors@) == (if same_path(
                    dir,
                    before.root@,
                ) {
                    error_views(before.errors@)
                } else {
                    error_views(before.errors@).push((dir, e.text()))
                })
            },
            Ok(entries) => {
                &&& stack_view(after.stack@) == (if depth
                    == WORKSPACE_DISCOVERY_MAX_DEPTH {
                    rest
                } else {
                    rest + children(
                        entries@,
                        before.root@,
                        texts(before.patterns@),
                        depth + 1,
                    )
                })
                &&& pair_views(after.found@) == (if depth > 0 && lists_manifest(
                    entries@,
                ) && relative_to(dir, before.root@) is Some {
                    pair_views(before.found@).push(
                        (dir, relative_to(dir, before.root@)->Some_0),
                    )
                } else {
                    pair_views(before.found@)
                })
                &&& error_views(after.errors@) == error_views(before.errors@)
            },
        }
    })
}

impl Discovery {
    /// The invariant: no directory is visited that is too deep or left out, and every package found
    /// lies below the root.
    pub open spec fn wf(&self) -> bool {
        &&& forall|i: int|
            0 <= i < self.stack@.len() ==> may_visit(
                (#[trigger] self.stack@[i]).0@,
                self.stack@[i].1 as int,
                self.root@,
                texts(self.patterns@),
            )
        &&& forall|i: int|
            0 <= i < self.found@.len() ==> relative_to((#[trigger] self.found@[i]).0@, self.root@)
                == Some(self.found@[i].1@)
    }

    /// Whether the root itself is neither left to visit again nor found as a package.
    pub open spec fn stays_below(&self) -> bool {
        &&& forall|i: int|
            0 <= i < self.stack@.len() && (#[trigger] self.stack@[i]).1 > 0 ==> !same_path(
                self.stack@[i].0@,
                self.root@,
            )
        &&& forall|i: int|
            0 <= i < self.found@.len() ==> !same_path(
                (#[trigger] self.found@[i]).0@,
                self.root@,
            )
    }

    /// Starts a search below `root`, leaving out what the patterns match; refuses a pattern that is
    /// none.
    pub fn start(root: String, exclude: &Vec<String>) -> (r: Result<Discovery, WorkspaceError>)
        ensures
            match r {
                Ok(d) => set_result(with_variants(texts(exclude@)), Seq::<char>::empty()) is Ok
                    && d.wf() && d.stays_below() && d.root@ == root@ && texts(d.patterns@) == with_variants(
                    texts(exclude@),
                ) && stack_view(d.stack@) == seq![(root@, 0int)] && d.found@.len() == 0
                    && d.errors@.len() == 0,
                Err(e) => set_result(with_variants(texts(exclude@)), Seq::<char>::empty()) == Err::<
                    bool,
                    Seq<char>,
                >(e.text()),
            },
    {
        let patterns = expand_patterns(exclude);
        proof {
            reveal_strlit("");
            assert(""@ =~= Seq::<char>::empty());
        }
        match match_any(&patterns, "") {
            Ok(_) => {},
            Err(error) => return Err(WorkspaceError::InvalidPattern { error }),
        }
        let mut stack: Vec<(String, usize)> = Vec::new();
        stack.push((root.clone(), 0));
        proof {
            assert(stack_view(stack@) =~= seq![(root@, 0int)]);
        }
        Ok(Discovery { root, patterns, stack, found: Vec::new(), errors: Vec::new() })
    }

    /// The directory whose listing is asked for; none where the search has ended.
    pub fn next_dir(&self) -> (r: Option<&str>)
        ensures
            match r {
                Some(d) => self.stack@.len() > 0 && d@ == self.stack@.last().0@,
                None => self.stack@.len() == 0,
            },
    {
        if self.stack.len() == 0 {
            None
        } else {
            Some(self.stack[self.stack.len() - 1].0.as_str())
        }
    }

    /// Takes the listing of the directory that was asked for.
    ///
    /// A directory below the root whose listing holds a manifest is a package. Its subdirectories
    /// are visited next unless they are left out or too deep. A directory that cannot be listed is
    /// an error, but for the root.
    pub fn visit(&mut self, listing: Result<Vec<DirEntry>, FileProviderError>)
        requires
            old(self).wf(),
            old(self).stack@.len() > 0,
        ensures
            final(self).wf(),
            old(self).stays_below() && (listing is Ok ==> forall|i: int|
                0 <= i < listing->Ok_0@.len() ==> !same_path(
                    (#[trigger] listing->Ok_0@[i]).path@,
                    old(self).root@,
                )) ==> final(self).stays_below(),
            visited(*old(self), *final(self), listing),
    {
        let ghost before = stack_view(self.stack@);
        let ghost old_stack = self.stack@;
        let (dir, depth): (String, usize) = match self.stack.pop() {
            Some(top) => top,
            None => return,
        };
        proof {
            assert(before.last() == (dir@, depth as int));
            assert(stack_view(self.stack@) =~= before.drop_last());
            assert(may_visit(
                old_stack[old_stack.len() - 1].0@,
                old_stack[old_stack.len() - 1].1 as int,
                self.root@,
                texts(self.patterns@),
            ));
            assert forall|i: int| 0 <= i < self.stack@.len() implies may_visit(
                (#[trigger] self.stack@[i]).0@,
                self.stack@[i].1 as int,
                self.root@,
                texts(self.patterns@),
            ) by {
                assert(self.stack@[i] == old_stack[i]);
            }
        }
        let entries: Vec<DirEntry> = match listing {
            Ok(entries) => entries,
            Err(e) => {
                if !path_eq(dir.as_str(), self.root.as_str()) {
                    let error = e.message();
                    let ghost prior = error_views(self.errors@);
                    self.errors.push(DiscoveryError { path: dir, error });
                    proof {
                        assert(error_views(self.errors@) =~= prior.push((dir@, e.text())));
                    }
                }
                return;
            },
        };
        if depth > 0 && has_manifest(&entries) {
            if let Some(rel) = strip_base(dir.as_str(), self.root.as_str()) {
                let ghost prior = self.found@;
                self.found.push((dir, rel));
                proof {
                    assert(pair_views(self.found@) =~= pair_views(prior).push((dir@, rel@)));
                    assert forall|i: int| 0 <= i < self.found@.len() implies relative_to(
                        (#[trigger] self.found@[i]).0@,
                        self.root@,
                    ) == Some(self.found@[i].1@) by {
                        if i < prior.len() {
                            assert(self.found@[i] == prior[i]);
                        }
                    }
                }
            }
        }
        let ghost below = old(self).stays_below();
        proof {
            if below {
                assert(old_stack[old_stack.len() - 1] == (dir, depth));
                assert forall|i: int|
                    0 <= i < self.stack@.len() && (#[trigger] self.stack@[i]).1 > 0 implies !same_path(
                    self.stack@[i].0@,
                    self.root@,
                ) by {
                    assert(self.stack@[i] == old_stack[i]);
                }
            }
        }
        if depth == WORKSPACE_DISCOVERY_MAX_DEPTH {
            return;
        }
        let ghost rest = stack_view(self.stack@);
        let ghost found = self.found@;
        let ghost kept_out = forall|i: int|
            0 <= i < entries@.len() ==> !same_path((#[trigger] entries@[i]).path@, self.root@);
        let ghost all = entries@;
        let mut i: usize = 0;
        proof {
            assert(all.take(0) =~= Seq::<DirEntry>::empty());
            assert(rest + Seq::<(Seq<char>, int)>::empty() =~= rest);
        }
        while i < entries.len()
            invariant
                i <= entries@.len(),
                all == entries@,
                depth < WORKSPACE_DISCOVERY_MAX_DEPTH,
                self.wf(),
                kept_out == forall|i: int|
                    0 <= i < entries@.len() ==> !same_path(
                        (#[trigger] entries@[i]).path@,
                        self.root@,
                    ),
                below && kept_out ==> self.stays_below(),
                self.found@ == found,
                self.root@ == old(self).root@,
                self.patterns@ == old(self).patterns@,
                self.errors@ == old(self).errors@,
                stack_view(self.stack@) == rest + children(
                    all.take(i as int),
                    self.root@,
                    texts(self.patterns@),
                    depth + 1,
                ),
            decreases entries@.len() - i,
        {
            proof {
                assert(all.take(i + 1).drop_last() =~= all.take(i as int));
                assert(all.take(i + 1).last() == all[i as int]);
            }
            if self.goes_down(&entries[i]) {
                let ghost prior = self.stack@;
                let ghost kids = children(
                    all.take(i as int),
                    self.root@,
                    texts(self.patterns@),
                    depth + 1,
                );
                self.stack.push((entries[i].path.clone(), depth + 1));
                proof {
                    assert(stack_view(self.stack@) =~= stack_view(prior).push(
                        (all[i as int].path@, depth + 1),
                    ));
                    assert(rest + kids.push((all[i as int].path@, depth + 1)) =~= (rest
                        + kids).push((all[i as int].path@, depth + 1)));
                    assert forall|k: int| 0 <= k < self.stack@.len() implies may_visit(
                        (#[trigger] self.stack@[k]).0@,
                        self.stack@[k].1 as int,
                        self.root@,
                        texts(self.patterns@),
                    ) by {
                        if k < prior.len() {
                            assert(self.stack@[k] == prior[k]);
                        }
                    }
                    if below && kept_out {
                        assert forall|k: int|
                            0 <= k < self.stack@.len() && (
                            #[trigger] self.stack@[k]).1 > 0 implies !same_path(
                            self.stack@[k].0@,
                            self.root@,
                        ) by {
                            if k < prior.len() {
                                assert(self.stack@[k] == prior[k]);
                            } else {
                                assert(!same_path(entries@[i as int].path@, self.root@));
                            }
                        }
                    }
                }
            }
            i += 1;
        }
        proof {
            assert(all.take(all.len() as int) =~= all);
        }
    }

    /// Whether the search goes down into an entry.
    fn goes_down(&self, e: &DirEntry) -> (r: bool)
        ensures
            r == descends(*e, self.root@, texts(self.patterns@)),
    {
        if !e.is_dir || e.is_symlink || is_builtin_excluded_dir(e.path.as_str()) {
            return false;
        }
        match strip_base(e.path.as_str(), self.root.as_str()) {
            Some(rel) => {
                let text = rel_path_string(rel.as_str());
                match match_any(&self.patterns, text.as_str()) {
                    Ok(hit) => !hit,
                    Err(_) => false,
                }
            },
            None => false,
        }
    }
}

/// Whether a directory's listing holds a manifest.
fn has_manifest(entries: &Vec<DirEntry>) -> (r: bool)
    ensures
        r == lists_manifest(entries@),
{
    let mut i: usize = 0;
    while i < entries.len()
        invariant
            i <= entries@.len(),
            forall|k: int|
                0 <= k < i ==> !(!(#[trigger] entries@[k]).is_dir && file_name_of(
                    entries@[k].path@,
                ) == Some("pcb.toml"@)),
        decreases entries@.len() - i,
    {
        if !entries[i].is_dir {
            if let Some(name) = file_name(entries[i].path.as_str()) {
                if same(name.as_str(), "pcb.toml") {
                    return true;
                }
            }
        }
        i += 1;
    }
    false
}

/// The Zener files of a directory's listing, in order.
pub open spec fn zen_files(entries: Seq<DirEntry>) -> Seq<Seq<char>>
    decreases entries.len(),
{
    if entries.len() == 0 {
        Seq::<Seq<char>>::empty()
    } else {
        let r = zen_files(entries.drop_last());
        let e = entries.last();
        if !e.is_dir && extension_of(e.path@) == Some("zen"@) {
            r.push(e.path@)
        } else {
            r
        }
    }
}

/// The one Zener file of a directory, by name; none where there is not just one.
pub fn find_single_zen_file(entries: &Vec<DirEntry>) -> (r: Option<String>)
    ensures
        opt_text(r) == (if zen_files(entries@).len() == 1 {
            file_name_of(zen_files(entries@)[0])
        } else {
            None
        }),
{
    let ghost all = entries@;
    let mut hit: Option<usize> = None;
    let mut n: usize = 0;
    let mut i: usize = 0;
    proof {
        assert(all.take(0) =~= Seq::<DirEntry>::empty());
    }
    while i < entries.len()
        invariant
            i <= entries@.len(),
            all == entries@,
            n <= i,
            n == zen_files(all.take(i as int)).len(),
            n == 1 ==> hit is Some,
            match hit {
                Some(k) => k < i && n >= 1 && zen_files(all.take(i as int))[n - 1]
                    == all[k as int].path@,
                None => n == 0,
            },
        decreases entries@.len() - i,
    {
        proof {
            assert(all.take(i + 1).drop_last() =~= all.take(i as int));
            assert(all.take(i + 1).last() == all[i as int]);
        }
        if !entries[i].is_dir {
            if let Some(ext) = extension(entries[i].path.as_str()) {
                if same(ext.as_str(), "zen") {
                    n += 1;
                    hit = Some(i);
                }
            }
        }
        i += 1;
    }
    proof {
        assert(all.take(all.len() as int) =~= all);
    }
    match hit {
        Some(k) => if n == 1 {
            file_name(entries[k].path.as_str())
        } else {
            None
        },
        None => None,
    }
}

// ---------------------------------------------------------------------------------------------
// The workspace root

/// The directory that a search for the workspace root starts from: the path itself, or the
/// directory that holds it where the path is no directory.
pub open spec fn start_dir_of(abs_start: Seq<char>, is_dir: bool) -> Seq<char> {
    if is_dir {
        abs_start
    } else {
        match crate::path::parent_of(abs_start) {
            Some(p) => p,
            None => abs_start,
        }
    }
}

/// The directory that a search for the workspace root starts from.
pub fn workspace_search_start(abs_start: &str, is_dir: bool) -> (r: String)
    ensures
        r@ == start_dir_of(abs_start@, is_dir),
{
    if is_dir {
        return abs_start.to_owned();
    }
    match crate::path::parent(abs_start) {
        Some(p) => p,
        None => abs_start.to_owned(),
    }
}

/// The first candidate that declares a workspace, or the first of all.
pub open spec fn chosen_root(candidates: Seq<(Seq<char>, bool)>, start: Seq<char>) -> Seq<char>
    decreases candidates.len(),
{
    if candidates.len() == 0 {
        start
    } else if candidates[0].1 {
        candidates[0].0
    } else {
        let c = first_explicit(candidates);
        if c < candidates.len() {
            candidates[c].0
        } else {
            candidates[0].0
        }
    }
}

/// The place of the first candidate that declares a workspace, or the number of candidates.
pub open spec fn first_explicit(candidates: Seq<(Seq<char>, bool)>) -> int
    decreases candidates.len(),
{
    if candidates.len() == 0 {
        0
    } else if candidates[0].1 {
        0
    } else {
        1 + first_explicit(candidates.skip(1))
    }
}

proof fn lemma_first_explicit(c: Seq<(Seq<char>, bool)>, k: int)
    requires
        0 <= k <= c.len(),
        forall|i: int| 0 <= i < k ==> !(#[trigger] c[i]).1,
        k < c.len() ==> c[k].1,
    ensures
        first_explicit(c) == k,
    decreases c.len(),
{
    if c.len() > 0 && k > 0 {
        let t = c.skip(1);
        assert forall|i: int| 0 <= i < k - 1 implies !(#[trigger] t[i]).1 by {
            assert(t[i] == c[i + 1]);
        }
        assert(!c[0].1);
        if k < c.len() {
            assert(t[k - 1] == c[k]);
        }
        lemma_first_explicit(t, k - 1);
    }
}

/// The contents of a list of candidates.
pub open spec fn candidate_views(v: Seq<(String, bool)>) -> Seq<(Seq<char>, bool)> {
    Seq::new(v.len(), |i: int| (v[i].0@, v[i].1))
}

/// Chooses the workspace root among the directories with a manifest, nearest first: the first that
/// declares a workspace, else the first of all, else the directory that the search started from.
pub fn select_workspace_root(candidates: &Vec<(String, bool)>, start_dir: &str) -> (r: String)
    ensures
        r@ == chosen_root(candidate_views(candidates@), start_dir@),
{
    if candidates.len() == 0 {
        return start_dir.to_owned();
    }
    let ghost c = candidate_views(candidates@);
    let mut i: usize = 0;
    while i < candidates.len() && !candidates[i].1
        invariant
            i <= candidates@.len(),
            c == candidate_views(candidates@),
            forall|k: int| 0 <= k < i ==> !(#[trigger] c[k]).1,
        decreases candidates@.len() - i,
    {
        i += 1;
    }
    proof {
        lemma_first_explicit(c, i as int);
    }
    if i < candidates.len() {
        candidates[i].0.clone()
    } else {
        candidates[0].0.clone()
    }
}

/// What stands under the name of a manifest in a directory.
pub enum ManifestAt {
    Absent,
    /// A file that is no manifest, with the reason.
    Invalid(String),
    /// A manifest, and whether it declares a workspace.
    Present(bool),
}

/// The first reason why a file is no manifest.
pub open spec fn first_fault(manifests: Seq<ManifestAt>) -> Option<Seq<char>>
    decreases manifests.len(),
{
    if manifests.len() == 0 {
        None
    } else {
        match first_fault(manifests.drop_last()) {
            Some(e) => Some(e),
            None => match manifests.last() {
                ManifestAt::Invalid(e) => Some(e@),
                _ => None,
            },
        }
    }
}

/// The directories with a manifest.
pub open spec fn with_manifest(dirs: Seq<Seq<char>>, manifests: Seq<ManifestAt>) -> Seq<
    (Seq<char>, bool),
>
    decreases manifests.len(),
{
    if manifests.len() == 0 {
        Seq::<(Seq<char>, bool)>::empty()
    } else {
        let r = with_manifest(dirs, manifests.drop_last());
        match manifests.last() {
            ManifestAt::Present(b) => r.push((dirs[manifests.len() - 1], b)),
            _ => r,
        }
    }
}

proof fn lemma_first_fault(manifests: Seq<ManifestAt>, i: int)
    requires
        0 <= i <= manifests.len(),
        first_fault(manifests.take(i)) is Some,
    ensures
        first_fault(manifests) == first_fault(manifests.take(i)),
    decreases manifests.len(),
{
    if i < manifests.len() {
        assert(manifests.drop_last().take(i) =~= manifests.take(i));
        lemma_first_fault(manifests.drop_last(), i);
    } else {
        assert(manifests.take(i) =~= manifests);
    }
}

proof fn lemma_with_manifest(dirs: Seq<Seq<char>>, manifests: Seq<ManifestAt>, k: int)
    requires
        manifests.len() <= dirs.len(),
        0 <= k < with_manifest(dirs, manifests).len(),
    ensures
        dirs.contains(with_manifest(dirs, manifests)[k].0),
    decreases manifests.len(),
{
    let r = with_manifest(dirs, manifests.drop_last());
    if k < r.len() {
        lemma_with_manifest(dirs, manifests.drop_last(), k);
    } else {
        assert(dirs[manifests.len() - 1] == with_manifest(dirs, manifests)[k].0);
    }
}

proof fn lemma_first_explicit_bound(c: Seq<(Seq<char>, bool)>)
    ensures
        0 <= first_explicit(c) <= c.len(),
    decreases c.len(),
{
    if c.len() > 0 {
        lemma_first_explicit_bound(c.skip(1));
    }
}

/// The root of a workspace is the directory that the search started from or one above it, and is
/// absolute where that directory is.
pub proof fn law_root_is_above_start(start: Seq<char>, manifests: Seq<ManifestAt>)
    requires
        manifests.len() <= ancestors_of(start).len(),
    ensures
        ({
            let root = chosen_root(with_manifest(ancestors_of(start), manifests), start);
            &&& ancestors_of(start).contains(root)
            &&& is_absolute(start) ==> is_absolute(root)
        }),
{
    let dirs = ancestors_of(start);
    let c = with_manifest(dirs, manifests);
    let root = chosen_root(c, start);
    assert(dirs[0] == start);
    lemma_first_explicit_bound(c);
    if c.len() > 0 {
        lemma_with_manifest(dirs, manifests, 0);
        let e = first_explicit(c);
        if e < c.len() {
            lemma_with_manifest(dirs, manifests, e);
        }
    }
    assert(dirs.contains(root));
    if is_absolute(start) {
        let i = choose|i: int| 0 <= i < dirs.len() && dirs[i] == root;
        crate::path::lemma_ancestors_are_absolute(start, i);
    }
}

/// The error for a search that starts from a directory whose place is not known.
pub open spec fn not_absolute(start: Seq<char>) -> Seq<char> {
    "Cannot search for a workspace from a path that is not absolute: "@ + start
}

/// Finds the root of the workspace that a directory belongs to. `manifests` says what stands in the
/// directory and in those above it. A file that is no manifest is an error, and so is a directory
/// that is not absolute: the root always is. Absolute is what begins with `/`, so a start with a drive
/// prefix is such an error.
pub fn find_workspace_root(start_dir: &str, manifests: &Vec<ManifestAt>) -> (r: Result<String, String>)
    requires
        manifests@.len() == ancestors_of(start_dir@).len(),
    ensures
        match (r, first_fault(manifests@)) {
            (Ok(root), None) => is_absolute(start_dir@) && root@ == chosen_root(
                with_manifest(ancestors_of(start_dir@), manifests@),
                start_dir@,
            ),
            (Err(e), Some(reason)) => e@ == (if is_absolute(start_dir@) {
                reason
            } else {
                not_absolute(start_dir@)
            }),
            (Err(e), None) => !is_absolute(start_dir@) && e@ == not_absolute(start_dir@),
            (Ok(_), Some(_)) => false,
        },
        r is Ok ==> is_absolute(r->Ok_0@) && ancestors_of(start_dir@).contains(r->Ok_0@),
{
    let absolute = start_dir.unicode_len() > 0 && start_dir.get_char(0) == '/';
    if !absolute {
        let mut message = "Cannot search for a workspace from a path that is not absolute: ".to_owned();
        message.append(start_dir);
        return Err(message);
    }
    let dirs = ancestors(start_dir);
    let ghost all = manifests@;
    let ghost above = ancestors_of(start_dir@);
    let mut candidates: Vec<(String, bool)> = Vec::new();
    let mut i: usize = 0;
    proof {
        assert(all.take(0) =~= Seq::<ManifestAt>::empty());
        assert(candidate_views(candidates@) =~= Seq::<(Seq<char>, bool)>::empty());
        assert(texts(dirs@).len() == dirs@.len());
    }
    while i < manifests.len()
        invariant
            i <= manifests@.len(),
            all == manifests@,
            texts(dirs@) == above,
            dirs@.len() == all.len(),
            is_absolute(start_dir@),
            first_fault(all.take(i as int)) is None,
            candidate_views(candidates@) == with_manifest(above, all.take(i as int)),
        decreases manifests@.len() - i,
    {
        proof {
            assert(all.take(i + 1).drop_last() =~= all.take(i as int));
            assert(all.take(i + 1).last() == all[i as int]);
            assert(texts(dirs@)[i as int] == dirs@[i as int]@);
        }
        match &manifests[i] {
            ManifestAt::Absent => {},
            ManifestAt::Invalid(e) => {
                proof {
                    lemma_first_fault(all, i + 1);
                }
                return Err(e.clone());
            },
            ManifestAt::Present(b) => {
                let ghost before = candidates@;
                candidates.push((dirs[i].clone(), *b));
                proof {
                    assert(candidate_views(candidates@) =~= candidate_views(before).push(
                        (above[i as int], *b),
                    ));
                }
            },
        }
        i += 1;
    }
    proof {
        assert(all.take(all.len() as int) =~= all);
    }
    proof {
        law_root_is_above_start(start_dir@, all);
    }
    Ok(select_workspace_root(&candidates, start_dir))
}

/// Finds the directory that a search for the workspace root starts from: the canonical form of a
/// path, or the directory that holds it where it is no directory. A path without a canonical form is
/// an error.
pub fn find_search_start<F: FileProvider>(file_provider: &F, start: &str) -> (r: Result<
    String,
    String,
>)
    ensures
        match r {
            Ok(dir) => exists|abs_start: Seq<char>, is_dir: bool|
                asked_canonical(file_provider, start@, Ok(abs_start))
                    && #[trigger] asked_whether_directory(file_provider, abs_start, is_dir) && dir@
                    == start_dir_of(abs_start, is_dir),
            Err(e) => asked_canonical(file_provider, start@, Err(e@)),
        },
{
    let answer = file_provider.canonicalize(start);
    proof {
        assert(call_ensures(F::canonicalize, (file_provider, start), answer));
    }
    match answer {
        Ok(abs_start) => {
            let p = abs_start.as_str();
            let is_dir = file_provider.is_directory(p);
            proof {
                assert(call_ensures(F::is_directory, (file_provider, p), is_dir));
                assert(asked_canonical(file_provider, start@, Ok(abs_start@)));
                assert(asked_whether_directory(file_provider, abs_start@, is_dir));
            }
            Ok(workspace_search_start(p, is_dir))
        },
        Err(e) => Err(e.message()),
    }
}

/// Whether a file provider gives an answer when it is asked whether a path is a directory.
pub open spec fn asked_whether_directory<F: FileProvider>(
    file_provider: &F,
    path: Seq<char>,
    r: bool,
) -> bool {
    exists|s: &str| s@ == path && #[trigger] call_ensures(F::is_directory, (file_provider, s), r)
}

// ---------------------------------------------------------------------------------------------
// The workspace's packages

/// A manifest found below the workspace root: where, and what was read there.
pub struct FoundManifest {
    pub dir: String,
    pub rel_path: String,
    pub manifest: Result<PcbToml, String>,
}

/// The URL of the package at a path below the root.
pub open spec fn package_url(base: Option<Seq<char>>, rel: Seq<char>) -> Seq<char> {
    match base {
        Some(b) => b + "/"@ + slashed(rel),
        None => slashed(rel),
    }
}

/// Whether a found manifest makes a package: it could be read and declares no workspace.
pub open spec fn makes_package(f: FoundManifest) -> bool {
    match f.manifest {
        Ok(m) => m.workspace is None,
        Err(_) => false,
    }
}

/// The place of the last found manifest whose package has the URL `q`, or -1.
pub open spec fn package_from(found: Seq<FoundManifest>, base: Option<Seq<char>>, q: Seq<char>) -> int
    decreases found.len(),
{
    if found.len() == 0 {
        -1
    } else if makes_package(found.last()) && package_url(base, found.last().rel_path@) == q {
        found.len() - 1
    } else {
        package_from(found.drop_last(), base, q)
    }
}

/// What is wrong with the found manifests, in order.
pub open spec fn manifest_errors(found: Seq<FoundManifest>) -> Seq<(Seq<char>, Seq<char>)>
    decreases found.len(),
{
    if found.len() == 0 {
        Seq::<(Seq<char>, Seq<char>)>::empty()
    } else {
        let r = manifest_errors(found.drop_last());
        let f = found.last();
        let at = path_joined(f.dir@, "pcb.toml"@);
        match f.manifest {
            Err(e) => r.push((at, e@)),
            Ok(m) => if m.workspace is Some {
                r.push((at, "workspace package cannot have a [workspace] section"@))
            } else {
                r
            },
        }
    }
}

/// Whether some found manifest makes a package.
pub open spec fn some_package(found: Seq<FoundManifest>) -> bool {
    exists|i: int| 0 <= i < found.len() && makes_package(#[trigger] found[i])
}

/// Whether the root manifest is that of a package: there is no other, or it has a board,
/// dependencies or parts.
pub open spec fn root_is_package(config: PcbToml, alone: bool) -> bool {
    alone || config.board is Some || config.dependencies.direct.entries@.len() > 0
        || config.dependencies.indirect.entries@.len() > 0 || config.parts@.len() > 0
}

/// The URL of the root package.
pub open spec fn root_url(base: Option<Seq<char>>) -> Seq<char> {
    match base {
        Some(b) => b,
        None => LOCAL_WORKSPACE_ROOT_URL@,
    }
}

/// Whether a package is the one that a found manifest makes.
pub open spec fn is_package_of(
    p: WorkspacePackage,
    rel: Seq<char>,
    config: PcbTomlView,
    preferred: bool,
) -> bool {
    &&& p.rel_path@ == rel
    &&& p.config@ == config
    &&& p.version is None
    &&& p.published_at is None
    &&& p.preferred == preferred
    &&& !p.dirty
    &&& p.entrypoints@.len() == 0
    &&& p.symbol_files@.len() == 0
}

/// The package that stands under a URL: that of the root manifest, or that of the last manifest
/// found for the URL.
pub open spec fn stands_under(
    o: Option<WorkspacePackage>,
    config: Option<PcbToml>,
    found: Seq<FoundManifest>,
    base: Option<Seq<char>>,
    preferred: Seq<Seq<char>>,
    q: Seq<char>,
) -> bool {
    let k = package_from(found, base, q);
    match config {
        Some(c) if root_is_package(c, !some_package(found)) && q == root_url(base) => o is Some
            && is_package_of(o->Some_0, Seq::<char>::empty(), c@, false),
        _ => if k >= 0 {
            o is Some && is_package_of(
                o->Some_0,
                found[k].rel_path@,
                found[k].manifest->Ok_0@,
                preferred.contains(slashed(found[k].rel_path@)),
            )
        } else {
            o is None
        },
    }
}

/// Whether the root manifest is that of a package.
fn root_manifest_is_package(config: &PcbToml, no_descendant_packages: bool) -> (r: bool)
    ensures
        r == root_is_package(*config, no_descendant_packages),
{
    no_descendant_packages || config.board.is_some() || !config.dependencies.is_empty()
        || config.parts.len() > 0
}

proof fn lemma_package_from(found: Seq<FoundManifest>, base: Option<Seq<char>>, q: Seq<char>)
    ensures
        -1 <= package_from(found, base, q) < found.len(),
        package_from(found, base, q) >= 0 ==> makes_package(found[package_from(found, base, q)])
            && package_url(base, found[package_from(found, base, q)].rel_path@) == q,
    decreases found.len(),
{
    if found.len() > 0 {
        lemma_package_from(found.drop_last(), base, q);
    }
}

/// The repository that a manifest declares.
pub open spec fn declared_base(config: Option<PcbToml>) -> Option<Seq<char>> {
    match config {
        Some(c) => match c.workspace {
            Some(w) => base_url(opt_text(w.repository), opt_text(w.path)),
            None => None,
        },
        None => None,
    }
}

/// A path below a root, and not the root itself, has some text relative to it.
proof fn lemma_below_root(p: Seq<char>, root: Seq<char>)
    requires
        is_absolute(root),
        relative_to(p, root) is Some,
        !same_path(p, root),
    ensures
        slashed(relative_to(p, root)->Some_0).len() > 0,
{
    let n = components(root).len() as int;
    crate::path::lemma_spans(root);
    crate::path::lemma_tail_components_of(p, n);
    let c = components(p).skip(n);
    if c.len() == 0 {
        assert(components(p).take(n) =~= components(p));
    }
    crate::path::lemma_component(p, components(p).len() - 1);
    assert(c.last() == components(p)[components(p).len() - 1]);
    assert(c.last().len() > 0);
    assert(joined(c, "/"@).len() >= c.last().len());
}

/// The packages that a search finds lie below the root, where no listing holds the root itself.
pub proof fn law_found_packages_lie_below(d: &Discovery, i: int)
    requires
        d.wf(),
        d.stays_below(),
        is_absolute(d.root@),
        0 <= i < d.found@.len(),
    ensures
        slashed(d.found@[i].1@).len() > 0,
{
    assert(relative_to(d.found@[i].0@, d.root@) == Some(d.found@[i].1@));
    lemma_below_root(d.found@[i].0@, d.root@);
}

/// The URLs of a workspace's packages follow from its repository and from where they stand: that of
/// the root is the repository, and that of any other is its path below the repository. A package
/// below the root declares no workspace, and is preferred where the workspace prefers its path. None
/// has a version yet.
pub proof fn law_package_urls(
    packages: Seq<(String, WorkspacePackage)>,
    config: Option<PcbToml>,
    found: Seq<FoundManifest>,
    q: Seq<char>,
)
    requires
        forall|u: Seq<char>|
            stands_under(
                #[trigger] find(packages, u),
                config,
                found,
                declared_base(config),
                declared_preferred(config),
                u,
            ),
        forall|i: int| 0 <= i < found.len() ==> slashed((#[trigger] found[i]).rel_path@).len() > 0,
        find(packages, q) is Some,
    ensures
        ({
            let p = find(packages, q)->Some_0;
            let rel = slashed(p.rel_path@);
            let base = declared_base(config);
            &&& rel.len() == 0 ==> q == root_url(base)
            &&& rel.len() > 0 ==> q == package_url(base, p.rel_path@) && p.config@.workspace is None
                && p.preferred == declared_preferred(config).contains(rel)
            &&& p.version is None
            &&& p.published_at is None
        }),
{
    let base = declared_base(config);
    assert(stands_under(find(packages, q), config, found, base, declared_preferred(config), q));
    lemma_package_from(found, base, q);
    crate::path::lemma_spans(Seq::<char>::empty());
    assert(components(Seq::<char>::empty()) =~= Seq::<Seq<char>>::empty());
    assert(slashed(Seq::<char>::empty()) =~= Seq::<char>::empty());
    let k = package_from(found, base, q);
    if k >= 0 {
        assert(slashed(found[k].rel_path@).len() > 0);
    }
}

/// The paths that a manifest prefers.
pub open spec fn declared_preferred(config: Option<PcbToml>) -> Seq<Seq<char>> {
    match config {
        Some(c) => match c.workspace {
            Some(w) => texts(w.preferred@),
            None => Seq::<Seq<char>>::empty(),
        },
        None => Seq::<Seq<char>>::empty(),
    }
}

/// Where the root manifest of a workspace is read.
#[derive(Clone, Copy, PartialEq, Eq, Structural, Debug)]
pub enum RootManifest {
    /// In the file for it.
    File,
    /// In the comments of the module that the search started from.
    Inline,
    Nowhere,
}

/// Decides where the root manifest of a workspace is read.
pub fn locate_root_manifest(file_exists: bool, start_path: &str) -> (r: RootManifest)
    ensures
        r == (if file_exists {
            RootManifest::File
        } else if extension_of(start_path@) == Some("zen"@) {
            RootManifest::Inline
        } else {
            RootManifest::Nowhere
        }),
{
    if file_exists {
        return RootManifest::File;
    }
    match extension(start_path) {
        Some(e) => if same(e.as_str(), "zen") {
            RootManifest::Inline
        } else {
            RootManifest::Nowhere
        },
        None => RootManifest::Nowhere,
    }
}

/// The patterns that a manifest excludes.
pub open spec fn declared_exclude(config: PcbToml) -> Seq<Seq<char>> {
    match config.workspace {
        Some(w) => texts(w.exclude@),
        None => Seq::<Seq<char>>::empty(),
    }
}

/// Starts the search for the packages of a workspace. Only a workspace that is declared in a file has
/// packages below its root.
pub fn begin_discovery(root: String, config: Option<&PcbToml>, place: RootManifest) -> (r: Result<
    Option<Discovery>,
    WorkspaceError,
>)
    ensures
        match r {
            Ok(None) => !(place == RootManifest::File && config is Some
                && config->Some_0.workspace is Some),
            Ok(Some(d)) => {
                &&& place == RootManifest::File
                &&& config is Some
                &&& config->Some_0.workspace is Some
                &&& set_result(
                    with_variants(declared_exclude(*config->Some_0)),
                    Seq::<char>::empty(),
                ) is Ok
                &&& d.wf()
                &&& d.stays_below()
                &&& d.root@ == root@
                &&& texts(d.patterns@) == with_variants(declared_exclude(*config->Some_0))
                &&& stack_view(d.stack@) == seq![(root@, 0int)]
                &&& d.found@.len() == 0
                &&& d.errors@.len() == 0
            },
            Err(e) => {
                &&& place == RootManifest::File
                &&& config is Some
                &&& config->Some_0.workspace is Some
                &&& set_result(
                    with_variants(declared_exclude(*config->Some_0)),
                    Seq::<char>::empty(),
                ) == Err::<bool, Seq<char>>(e.text())
            },
        },
{
    match place {
        RootManifest::File => {},
        _ => {
            return Ok(None);
        },
    }
    match config {
        Some(c) => match &c.workspace {
            Some(w) => match Discovery::start(root, &w.exclude) {
                Ok(d) => Ok(Some(d)),
                Err(e) => Err(e),
            },
            None => Ok(None),
        },
        None => Ok(None),
    }
}

/// Puts a workspace together from its root manifest and the manifests found below the root.
pub fn assemble_workspace(
    root: String,
    cache_dir: String,
    config: Option<PcbToml>,
    found: Vec<FoundManifest>,
    errors: Vec<DiscoveryError>,
) -> (r: WorkspaceInfo)
    ensures
        r.wf(),
        r.root@ == root@,
        r.cache_dir@ == cache_dir@,
        r.config == config,
        error_views(r.errors@) == error_views(errors@) + manifest_errors(found@),
        forall|q: Seq<char>|
            stands_under(
                #[trigger] find(r.packages.entries@, q),
                config,
                found@,
                declared_base(config),
                declared_preferred(config),
                q,
            ),
{
    let (base, preferred): (Option<String>, Vec<String>) = match &config {
        Some(c) => match &c.workspace {
            Some(w) => (
                match (&w.repository, &w.path) {
                    (Some(repo), Some(p)) => {
                        let mut out = repo.clone();
                        out.append("/");
                        out.append(p.as_str());
                        Some(out)
                    },
                    (Some(repo), None) => Some(repo.clone()),
                    _ => None,
                },
                crate::text::clone_texts(&w.preferred),
            ),
            None => (None, Vec::new()),
        },
        None => (None, Vec::new()),
    };
    let ghost pref = texts(preferred@);
    proof {
        assert(opt_text(base) == declared_base(config));
        assert(pref =~= declared_preferred(config));
    }
    let ghost all = found@;
    let ghost given = error_views(errors@);
    let mut errors = errors;
    let mut packages: SortedMap<String, WorkspacePackage> = SortedMap::new();
    let mut rest = found;
    let mut any: bool = false;
    let mut done: usize = 0;
    let total: usize = rest.len();
    proof {
        assert(all.take(0) =~= Seq::<FoundManifest>::empty());
        assert(all.skip(0) =~= all);
        assert(given + Seq::<(Seq<char>, Seq<char>)>::empty() =~= given);
    }
    while done < total
        invariant
            done <= total,
            total == all.len(),
            rest@ == all.skip(done as int),
            packages.wf(),
            pref == texts(preferred@),
            opt_text(base) == declared_base(config),
            error_views(errors@) == given + manifest_errors(all.take(done as int)),
            any == some_package(all.take(done as int)),
            any == (packages.entries@.len() > 0),
            forall|q: Seq<char>|
                stands_under(
                    #[trigger] find(packages.entries@, q),
                    None,
                    all.take(done as int),
                    declared_base(config),
                    pref,
                    q,
                ),
        decreases total - done,
    {
        let ghost seen = all.take(done as int);
        let ghost next = all.take(done + 1);
        let f = rest.remove(0);
        proof {
            assert(f == all[done as int]);
            assert(rest@ =~= all.skip(done + 1));
            assert(next.drop_last() =~= seen);
            assert(next.last() == f);
            assert(some_package(next) == (some_package(seen) || makes_package(f))) by {
                if some_package(seen) {
                    let i = choose|i: int| 0 <= i < seen.len() && makes_package(#[trigger] seen[i]);
                    assert(makes_package(next[i]));
                }
                if makes_package(f) {
                    assert(makes_package(next[done as int]));
                }
                if some_package(next) {
                    let i = choose|i: int| 0 <= i < next.len() && makes_package(#[trigger] next[i]);
                    if i < done {
                        assert(makes_package(seen[i]));
                    }
                }
            }
        }
        let at = path_join(f.dir.as_str(), "pcb.toml");
        let ghost prior = error_views(errors@);
        let ghost before = packages.entries@;
        match f.manifest {
            Err(e) => {
                errors.push(DiscoveryError { path: at, error: e });
                proof {
                    assert(error_views(errors@) =~= prior.push((at@, e@)));
                    assert(error_views(errors@) =~= given + manifest_errors(next));
                }
            },
            Ok(m) => {
                if m.is_workspace() {
                    errors.push(
                        DiscoveryError {
                            path: at,
                            error: "workspace package cannot have a [workspace] section".to_owned(),
                        },
                    );
                    proof {
                        assert(error_views(errors@) =~= prior.push(
                            (at@, "workspace package cannot have a [workspace] section"@),
                        ));
                        assert(error_views(errors@) =~= given + manifest_errors(next));
                    }
                } else {
                    let rel = rel_path_string(f.rel_path.as_str());
                    let url = match &base {
                        Some(b) => {
                            let mut out = b.clone();
                            out.append("/");
                            out.append(rel.as_str());
                            out
                        },
                        None => rel.clone(),
                    };
                    let p = WorkspacePackage {
                        rel_path: f.rel_path,
                        config: m,
                        version: None,
                        published_at: None,
                        preferred: contains_text(&preferred, rel.as_str()),
                        dirty: false,
                        entrypoints: Vec::new(),
                        symbol_files: Vec::new(),
                    };
                    proof {
                        assert(url@ == package_url(declared_base(config), f.rel_path@));
                    }
                    packages.insert(url, p);
                    any = true;
                    proof {
                        crate::map::lemma_slot(packages.entries@, url@);
                        assert(find(packages.entries@, url@) is Some);
                        assert(packages.entries@.len() > 0);
                        assert(is_package_of(
                            p,
                            f.rel_path@,
                            m@,
                            pref.contains(slashed(f.rel_path@)),
                        ));
                    }
                }
            },
        }
        proof {
            assert forall|q: Seq<char>|
                stands_under(
                    #[trigger] find(packages.entries@, q),
                    None,
                    next,
                    declared_base(config),
                    pref,
                    q,
                ) by {
                assert(stands_under(
                    find(before, q),
                    None,
                    seen,
                    declared_base(config),
                    pref,
                    q,
                ));
                lemma_package_from(seen, declared_base(config), q);
                let k = package_from(seen, declared_base(config), q);
                if k >= 0 {
                    assert(seen[k] == next[k]);
                }
            }
        }
        done += 1;
    }
    proof {
        assert(all.take(all.len() as int) =~= all);
    }
    let ghost before = packages.entries@;
    if let Some(c) = &config {
        if root_manifest_is_package(c, packages.is_empty()) {
            let url = match base {
                Some(b) => b,
                None => LOCAL_WORKSPACE_ROOT_URL.to_owned(),
            };
            let p = WorkspacePackage {
                rel_path: String::new(),
                config: c.copy(),
                version: None,
                published_at: None,
                preferred: false,
                dirty: false,
                entrypoints: Vec::new(),
                symbol_files: Vec::new(),
            };
            packages.insert(url, p);
        }
    }
    proof {
        assert forall|q: Seq<char>|
            stands_under(
                #[trigger] find(packages.entries@, q),
                config,
                all,
                declared_base(config),
                declared_preferred(config),
                q,
            ) by {
            assert(stands_under(find(before, q), None, all, declared_base(config), pref, q));
        }
    }
    WorkspaceInfo { root, cache_dir, config, packages, errors }
}

/// Whether a package is another, but that a board without a path has got one.
pub open spec fn board_placed(before: WorkspacePackage, after: WorkspacePackage, path: Option<Seq<char>>) -> bool {
    match before.config.board {
        Some(board) if board.path is None => {
            &&& after == (WorkspacePackage {
                config: PcbToml { board: after.config.board, ..before.config },
                ..before
            })
            &&& after.config.board is Some
            &&& after.config.board->Some_0@ == (BoardView { path, ..board@ })
        },
        _ => after == before,
    }
}

/// Gives the boards without a path the only module file of their package. `listed` holds, package by
/// package, that file, where there is exactly one.
pub fn place_boards(info: &mut WorkspaceInfo, listed: Vec<Option<String>>)
    requires
        listed@.len() == old(info).packages.entries@.len(),
    ensures
        final(info).packages.entries@.len() == old(info).packages.entries@.len(),
        forall|i: int|
            0 <= i < listed@.len() ==> (#[trigger] final(info).packages.entries@[i]).0 == old(info).packages.entries@[i].0 && board_placed(
                old(info).packages.entries@[i].1,
                final(info).packages.entries@[i].1,
                opt_text(listed@[i]),
            ),
        (WorkspaceInfo { packages: old(info).packages, ..*final(info) }) == *old(info),
{
    let ghost before = info.packages.entries@;
    let mut i: usize = 0;
    while i < listed.len()
        invariant
            i <= listed@.len(),
            listed@.len() == before.len(),
            before == old(info).packages.entries@,
            info.packages.entries@.len() == before.len(),
            forall|k: int|
                0 <= k < i ==> (#[trigger] info.packages.entries@[k]).0 == before[k].0
                    && board_placed(
                    before[k].1,
                    info.packages.entries@[k].1,
                    opt_text(listed@[k]),
                ),
            forall|k: int| i <= k < before.len() ==> #[trigger] info.packages.entries@[k] == before[k],
            (WorkspaceInfo { packages: old(info).packages, ..*info }) == *old(info),
        decreases listed@.len() - i,
    {
        let package = info.packages.value_mut(i);
        if let Some(board) = &package.config.board {
            if board.path.is_none() {
                let placed = Board {
                    name: board.name.clone(),
                    path: clone_opt(&listed[i]),
                    description: board.description.clone(),
                };
                package.config.board = Some(placed);
            }
        }
        i += 1;
    }
}

} // verus!
