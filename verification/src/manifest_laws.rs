//! What holds of every manifest: of what it requires, and of how it is found and read.

use vstd::prelude::*;

use crate::config::{inline_manifest, lemma_toolchain_series, manifest_lines, series_before};
use crate::config::{DependencySpec, DependencySpecView, PcbToml};
use crate::map::find;
use crate::path::components;
use crate::relaxed_version;
use crate::resolution::{direct_error, exact_version, external_at, first_direct_error};
use crate::resolution::{first_indirect_error, hydrated_manifest, indirect_error, is_remote};
use crate::resolution::{lane_of, manifest_error, package_at, parsed_key};
use crate::text::{decimal, is_space, joined, last_at, lemma_last_at, pieces, trimmed};
use crate::text::trimmed_start;
use crate::workspace::{needs_newer_toolchain, selects_second_way, WorkspaceInfo, WorkspacePackage};
use crate::workspace_laws::law_series_round_trip;

verus! {

// ---------------------------------------------------------------------------------------------
// Toolchains

/// A workspace needs a newer toolchain exactly where it requires a series after 0.4, and selects
/// versions the second way exactly where it requires 0.4 or a later one. One that requires none does
/// neither.
pub proof fn law_required_toolchain(major: nat, minor: nat)
    requires
        major <= u32::MAX,
        minor <= u32::MAX,
    ensures
        ({
            let required = Some(decimal(major) + seq!['.'] + decimal(minor));
            &&& needs_newer_toolchain(required) <==> major > 0 || minor > 4
            &&& selects_second_way(required) <==> major > 0 || minor >= 4
        }),
        !needs_newer_toolchain(None),
        !selects_second_way(None),
{
    law_series_round_trip(major, minor);
    lemma_toolchain_series();
}

/// A series is before another by its first number, and among equals by its second.
pub proof fn law_order_of_series(a: (int, int), b: (int, int), c: (int, int))
    ensures
        a.0 < b.0 ==> series_before(a, b),
        a.0 == b.0 ==> (series_before(a, b) <==> a.1 < b.1),
        series_before(a, b) ==> !series_before(b, a),
        series_before(a, b) || series_before(b, a) || a == b,
        series_before(a, b) && series_before(b, c) ==> series_before(a, c),
{
}

// ---------------------------------------------------------------------------------------------
// Manifests within files

pub proof fn lemma_trimmed_is_same(s: Seq<char>)
    requires
        s.len() > 0 ==> !is_space(s[0]) && !is_space(s.last()),
    ensures
        trimmed(s) == s,
{
}

/// Comment lines with some texts.
pub open spec fn commented(texts: Seq<Seq<char>>) -> Seq<Seq<char>> {
    Seq::new(texts.len(), |i: int| seq!['#', ' '] + texts[i])
}

/// Whether a text can stand in a manifest within a file as it is: it neither begins nor ends with
/// white space, and does not close the manifest.
pub open spec fn is_plain_line(s: Seq<char>) -> bool {
    s.len() > 0 && !is_space(s[0]) && !is_space(s.last()) && s != "```"@
}

proof fn lemma_comment(x: Seq<char>)
    requires
        x.len() > 0,
        !is_space(x[0]),
        !is_space(x.last()),
    ensures
        trimmed(seq!['#', ' '] + x) == seq!['#', ' '] + x,
        trimmed((seq!['#', ' '] + x).skip(1)) == x,
        crate::config::comment_content(seq!['#', ' '] + x) == x,
{
    let t = seq!['#', ' '] + x;
    assert(t.last() == x.last());
    assert(!is_space('#'));
    lemma_trimmed_is_same(t);
    let c = t.skip(1);
    assert(c =~= seq![' '] + x);
    assert(c[0] == ' ');
    assert(is_space(' '));
    assert(c.skip(1) =~= x);
    assert(trimmed_start(x) == x);
    assert(trimmed_start(c) == x);
    lemma_trimmed_is_same(x);
}

proof fn lemma_block(texts: Seq<Seq<char>>, rest: Seq<Seq<char>>, acc: Seq<Seq<char>>)
    requires
        forall|i: int| 0 <= i < texts.len() ==> is_plain_line(#[trigger] texts[i]),
    ensures
        manifest_lines(commented(texts) + seq![seq!['#', ' '] + "```"@] + rest, true, acc) == Some(
            acc + texts,
        ),
    decreases texts.len(),
{
    let close = seq!['#', ' '] + "```"@;
    let lines = commented(texts) + seq![close] + rest;
    reveal_strlit("```");
    if texts.len() == 0 {
        assert(lines[0] == close);
        lemma_comment("```"@);
        assert(acc + texts =~= acc);
    } else {
        let t = texts.skip(1);
        assert(is_plain_line(texts[0]));
        assert(lines[0] == seq!['#', ' '] + texts[0]);
        lemma_comment(texts[0]);
        assert(lines.skip(1) =~= commented(t) + seq![close] + rest);
        assert forall|i: int| 0 <= i < t.len() implies is_plain_line(#[trigger] t[i]) by {
            assert(t[i] == texts[i + 1]);
        }
        lemma_block(t, rest, acc.push(texts[0]));
        assert(acc.push(texts[0]) + t =~= acc + texts);
    }
}

/// The manifest within a file is what stands in its leading comments between an opening and a closing
/// line.
pub proof fn law_manifest_within_file(texts: Seq<Seq<char>>, rest: Seq<Seq<char>>)
    requires
        forall|i: int| 0 <= i < texts.len() ==> is_plain_line(#[trigger] texts[i]),
    ensures
        manifest_lines(
            seq![seq!['#', ' '] + "```pcb"@] + commented(texts) + seq![seq!['#', ' '] + "```"@] + rest,
            false,
            Seq::<Seq<char>>::empty(),
        ) == Some(texts),
{
    let open = seq!['#', ' '] + "```pcb"@;
    let lines = seq![open] + commented(texts) + seq![seq!['#', ' '] + "```"@] + rest;
    reveal_strlit("```pcb");
    assert(lines[0] == open);
    lemma_comment("```pcb"@);
    assert(lines.skip(1) =~= commented(texts) + seq![seq!['#', ' '] + "```"@] + rest);
    lemma_block(texts, rest, Seq::<Seq<char>>::empty());
    assert(Seq::<Seq<char>>::empty() + texts =~= texts);
}

/// Empty lines and other comments may stand before the manifest; code may not.
pub proof fn law_lines_before_manifest(line: Seq<char>, rest: Seq<Seq<char>>)
    ensures
        ({
            let none = Seq::<Seq<char>>::empty();
            let t = trimmed(line);
            let r = manifest_lines(seq![line] + rest, false, none);
            &&& t.len() == 0 ==> r == manifest_lines(rest, false, none)
            &&& t.len() > 0 && t[0] == '#' && trimmed(t.skip(1)) != "```pcb"@ ==> r
                == manifest_lines(rest, false, none)
            &&& t.len() > 0 && t[0] != '#' ==> r is None
        }),
        manifest_lines(Seq::<Seq<char>>::empty(), true, rest) is None,
        manifest_lines(Seq::<Seq<char>>::empty(), false, rest) is None,
{
    let lines = seq![line] + rest;
    assert(lines[0] == line);
    assert(lines.skip(1) =~= rest);
}

/// The text of the manifest within a file is made of its lines.
pub proof fn law_text_of_manifest_within_file(content: Seq<char>)
    ensures
        match manifest_lines(pieces(content, '\n'), false, Seq::<Seq<char>>::empty()) {
            Some(lines) => inline_manifest(content) == Some(joined(lines, seq!['\n'])),
            None => inline_manifest(content) is None,
        },
{
    reveal_strlit("\n");
    assert("\n"@ =~= seq!['\n']);
}

// ---------------------------------------------------------------------------------------------
// Dependencies

/// Whether a dependency is fixed to a version.
pub open spec fn is_fixed(spec: DependencySpecView) -> bool {
    match spec {
        DependencySpecView::Version(v) => relaxed_version(v) is Some,
        DependencySpecView::Detailed { version, branch: _, rev: _, path: _ } => version is Some
            && relaxed_version(version->Some_0) is Some,
    }
}

/// The version that a dependency is fixed to.
pub open spec fn fixed_version(spec: DependencySpecView) -> Option<crate::version::VersionParts> {
    match spec {
        DependencySpecView::Version(v) => relaxed_version(v),
        DependencySpecView::Detailed { version, branch: _, rev: _, path: _ } => if version is Some {
            relaxed_version(version->Some_0)
        } else {
            None
        },
    }
}

/// Whether a key names a module and the lane of a version.
pub open spec fn is_key_for(key: Seq<char>, v: crate::version::VersionParts) -> bool {
    exists|module: Seq<char>|
        module.len() > 0 && key == #[trigger] (module + seq!['@'] + lane_of(v))
}

/// A dependency is fixed to the version that it names, and is refused where it names none.
pub proof fn law_exact_versions(dep: Seq<char>, spec: DependencySpecView)
    ensures
        match exact_version(dep, spec) {
            Ok(v) => fixed_version(spec) == Some(v),
            Err(_) => fixed_version(spec) is None,
        },
{
}

/// A manifest can be used exactly where every direct dependency that comes from elsewhere is fixed to
/// a version, and every indirect one is under its module and the lane of its version.
pub proof fn law_manifest_can_be_used(ws: &WorkspaceInfo, config: &PcbToml)
    ensures
        manifest_error(ws, config) is None <==> {
            let direct = config.dependencies.direct.entries@;
            let indirect = config.dependencies.indirect.entries@;
            &&& forall|i: int|
                0 <= i < direct.len() && is_remote(ws, (#[trigger] direct[i]).0@, direct[i].1@)
                    ==> is_fixed(direct[i].1@)
            &&& forall|i: int|
                0 <= i < indirect.len() ==> fixed_version((#[trigger] indirect[i]).1@) is Some
                    && is_key_for(indirect[i].0@, fixed_version(indirect[i].1@)->Some_0)
        },
{
    lemma_direct_errors(ws, config.dependencies.direct.entries@);
    lemma_indirect_errors(config.dependencies.indirect.entries@);
}

proof fn lemma_direct_errors(ws: &WorkspaceInfo, s: Seq<(String, DependencySpec)>)
    ensures
        first_direct_error(ws, s) is None <==> forall|i: int|
            0 <= i < s.len() && is_remote(ws, (#[trigger] s[i]).0@, s[i].1@) ==> is_fixed(s[i].1@),
    decreases s.len(),
{
    if s.len() > 0 {
        let d = s.drop_last();
        let n = s.len() - 1;
        lemma_direct_errors(ws, d);
        assert(s[n] == s.last());
        assert(direct_error(ws, (s.last().0@, s.last().1@)) is None <==> (is_remote(
            ws,
            s[n].0@,
            s[n].1@,
        ) ==> is_fixed(s[n].1@)));
        if first_direct_error(ws, s) is None {
            assert forall|i: int| 0 <= i < s.len() && is_remote(ws, (#[trigger] s[i]).0@, s[i].1@) implies is_fixed(
                s[i].1@,
            ) by {
                if i < n {
                    assert(d[i] == s[i]);
                }
            }
        }
        if forall|i: int|
            0 <= i < s.len() && is_remote(ws, (#[trigger] s[i]).0@, s[i].1@) ==> is_fixed(s[i].1@) {
            assert forall|i: int| 0 <= i < d.len() && is_remote(ws, (#[trigger] d[i]).0@, d[i].1@) implies is_fixed(
                d[i].1@,
            ) by {
                assert(d[i] == s[i]);
            }
        }
    }
}

proof fn lemma_lane(v: crate::version::VersionParts)
    ensures
        lane_of(v).len() > 0,
        !lane_of(v).contains('@'),
{
    reveal_strlit("0.");
    crate::text::lemma_decimal(v.0 as nat);
    crate::text::lemma_decimal(v.1 as nat);
    let lane = lane_of(v);
    if lane.contains('@') {
        let i = choose|i: int| 0 <= i < lane.len() && lane[i] == '@';
        if v.0 == 0 {
            if i < 2 {
                assert("0."@[i] == '@');
            } else {
                assert(decimal(v.1 as nat)[i - 2] == '@');
            }
        } else {
            assert(decimal(v.0 as nat)[i] == '@');
        }
    }
}

proof fn lemma_key_for(key: Seq<char>, v: crate::version::VersionParts)
    ensures
        parsed_key(key) is Some && parsed_key(key)->Some_0.1 == lane_of(v) <==> is_key_for(key, v),
{
    let lane = lane_of(v);
    lemma_lane(v);
    lemma_last_at(key, '@');
    let k = last_at(key, '@');
    if parsed_key(key) is Some && parsed_key(key)->Some_0.1 == lane {
        let module = key.take(k);
        assert(key =~= module + seq!['@'] + lane);
    }
    if is_key_for(key, v) {
        let module = choose|module: Seq<char>|
            module.len() > 0 && key == #[trigger] (module + seq!['@'] + lane);
        assert(key[module.len() as int] == '@');
        if k > module.len() {
            assert(lane[k - module.len() - 1] == '@');
        }
        assert(k == module.len());
        assert(key.take(k) =~= module);
        assert(key.skip(k + 1) =~= lane);
    }
}

/// Whether an indirect dependency is under its module and the lane of its version.
pub open spec fn is_in_lane(e: (String, DependencySpec)) -> bool {
    fixed_version(e.1@) is Some && is_key_for(e.0@, fixed_version(e.1@)->Some_0)
}

proof fn lemma_indirect_errors(s: Seq<(String, DependencySpec)>)
    ensures
        first_indirect_error(s) is None <==> forall|i: int|
            0 <= i < s.len() ==> is_in_lane(#[trigger] s[i]),
    decreases s.len(),
{
    if s.len() > 0 {
        let d = s.drop_last();
        let n = s.len() - 1;
        lemma_indirect_errors(d);
        assert(s[n] == s.last());
        law_exact_versions(s[n].0@, s[n].1@);
        if fixed_version(s[n].1@) is Some {
            lemma_key_for(s[n].0@, fixed_version(s[n].1@)->Some_0);
        }
        assert(indirect_error((s.last().0@, s.last().1@)) is None <==> is_in_lane(s[n]));
        if first_indirect_error(s) is None {
            assert forall|i: int| 0 <= i < s.len() implies is_in_lane(#[trigger] s[i]) by {
                if i < n {
                    assert(d[i] == s[i]);
                }
            }
        }
        if forall|i: int| 0 <= i < s.len() ==> is_in_lane(#[trigger] s[i]) {
            assert forall|i: int| 0 <= i < d.len() implies is_in_lane(#[trigger] d[i]) by {
                assert(d[i] == s[i]);
            }
        }
    }
}

/// A package of the workspace has its own manifest; a workspace without packages has that of the
/// workspace, under a URL of its own.
pub proof fn law_manifest_of_package(ws: &WorkspaceInfo, url: Seq<char>)
    ensures
        find(ws.packages.entries@, url) is Some ==> hydrated_manifest(ws, url) == Some(
            Some(find(ws.packages.entries@, url)->Some_0.config),
        ),
        find(ws.packages.entries@, url) is None && ws.packages.entries@.len() > 0
            ==> hydrated_manifest(ws, url) is None,
        ws.packages.entries@.len() == 0 ==> hydrated_manifest(ws, url) == (if url
            == "workspace"@ {
            Some(ws.config)
        } else {
            None
        }),
{
}

/// The last package of the workspace that stands at a path counts.
pub proof fn law_package_at_path(
    s: Seq<(String, WorkspacePackage)>,
    root: Seq<char>,
    q: Seq<Seq<char>>,
)
    ensures
        ({
            let k = package_at(s, root, q);
            &&& -1 <= k < s.len()
            &&& k >= 0 ==> components(s[k].1.dir_of(root)) == q
            &&& forall|i: int|
                k < i < s.len() ==> components((#[trigger] s[i]).1.dir_of(root)) != q
        }),
    decreases s.len(),
{
    if s.len() > 0 {
        let d = s.drop_last();
        assert(s[s.len() - 1] == s.last());
        law_package_at_path(d, root, q);
        let k = package_at(s, root, q);
        assert forall|i: int| k < i < s.len() implies components((#[trigger] s[i]).1.dir_of(root)) != q by {
            if i < d.len() {
                assert(d[i] == s[i]);
            }
        }
    }
}

/// The first manifest that was read at a path counts.
pub proof fn law_manifest_at_path(s: Seq<(String, PcbToml)>, q: Seq<Seq<char>>)
    ensures
        ({
            let k = external_at(s, q);
            &&& 0 <= k <= s.len()
            &&& k < s.len() ==> components(s[k].0@) == q
            &&& forall|i: int| 0 <= i < k ==> components((#[trigger] s[i]).0@) != q
        }),
    decreases s.len(),
{
    if s.len() > 0 && components(s[0].0@) != q {
        let t = s.skip(1);
        law_manifest_at_path(t, q);
        assert forall|i: int| 0 <= i < external_at(s, q) implies components((#[trigger] s[i]).0@) != q by {
            if i > 0 {
                assert(s[i] == t[i - 1]);
            }
        }
    }
}

} // verus!
