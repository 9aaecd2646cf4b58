//! Footprints that stand in files.

use vstd::prelude::*;

use crate::lang::component_value::ComponentValue;
use crate::load_spec::PACKAGE_URI_PREFIX;
use crate::map::keys_of;
use crate::resolved::{referenced_path, ResolutionResult};
use crate::workspace::is_longest_cover;
use crate::diagnostic::{categorized, categorized_cause, extend_reports, lemma_reports_push};
use crate::diagnostic::{reports, somewhere_in, Diagnostic, DiagnosticView, Notice, NoticeView};
use crate::diagnostic::{Place, PlaceView, Severity};
use crate::lang::source::{is_boundary, is_span_of, resolved_span_from_byte_span};
use crate::path::{is_absolute, parent, parent_of, path_join, path_joined};
use crate::text::{begins, ends, ends_with, opt_text, starts_with};
use crate::{FileProvider, FileProviderError};

verus! {

/// The file of a footprint, where it is in one. `referred` is what a package reference resolved to.
pub open spec fn footprint_file(
    footprint: Seq<char>,
    source_path: Seq<char>,
    referred: Option<Seq<char>>,
) -> Option<Seq<char>> {
    if !ends(footprint, ".kicad_mod"@) {
        None
    } else if begins(footprint, "package://"@) {
        referred
    } else if is_absolute(footprint) {
        Some(footprint)
    } else {
        match parent_of(source_path) {
            Some(dir) => Some(path_joined(dir, footprint)),
            None => None,
        }
    }
}

/// Finds the file of a footprint. `referred` is what a package reference resolved to.
pub fn resolve_file_backed_footprint(
    footprint: &str,
    source_path: &str,
    referred: Option<String>,
) -> (r: Option<String>)
    ensures
        opt_text(r) == footprint_file(footprint@, source_path@, opt_text(referred)),
{
    if !ends_with(footprint, ".kicad_mod") {
        return None;
    }
    if starts_with(footprint, "package://") {
        return referred;
    }
    proof {
        reveal_strlit("/");
        if is_absolute(footprint@) {
            assert(footprint@.take(1) =~= "/"@);
        }
        if begins(footprint@, "/"@) {
            assert(footprint@.take(1)[0] == footprint@[0]);
        }
    }
    if starts_with(footprint, "/") {
        return Some(footprint.to_owned());
    }
    match parent(source_path) {
        Some(dir) => Some(path_join(dir.as_str(), footprint)),
        None => None,
    }
}

/// Whether a package reference leads to a path, or nowhere.
pub open spec fn reference_leads(resolution: &ResolutionResult, uri: Seq<char>, r: Option<Seq<char>>) -> bool {
    let roots = resolution.indexes.package_roots.entries@;
    let rest = uri.skip(PACKAGE_URI_PREFIX@.len() as int);
    match r {
        Some(path) => begins(uri, PACKAGE_URI_PREFIX@) && exists|coord: Seq<char>| #[trigger]
            is_longest_cover(keys_of(roots), rest, Some(coord)) && referenced_path(
                roots,
                coord,
                rest,
            ) == Some(path),
        None => !begins(uri, PACKAGE_URI_PREFIX@) || is_longest_cover(keys_of(roots), rest, None),
    }
}

/// Finds the file of the footprint of a component.
pub fn find_footprint_file(resolution: &ResolutionResult, component: &ComponentValue) -> (r: Option<
    String,
>)
    requires
        resolution.wf(),
    ensures
        exists|referred: Option<Seq<char>>| #[trigger]
            reference_leads(resolution, component@.footprint, referred) && opt_text(r)
                == footprint_file(component@.footprint, component@.source_path, referred),
{
    let referred = match resolution.resolve_package_uri(component.footprint()) {
        Ok(path) => Some(path),
        Err(_) => None,
    };
    proof {
        assert(reference_leads(resolution, component@.footprint, opt_text(referred)));
    }
    resolve_file_backed_footprint(component.footprint(), component.source_path(), referred)
}

/// A fault of a footprint's file.
pub struct FootprintIssue {
    pub message: String,
    /// The bytes of the text that it is about, where that is known.
    pub bytes: Option<(usize, usize)>,
}

/// What became of reading the file of a footprint.
pub enum FootprintRead {
    Valid,
    /// The text, and what is wrong with it.
    Issues(String, Vec<FootprintIssue>),
    NotFound,
    Failed(String),
}

impl FootprintRead {
    /// Whether every fault is about bytes of the text.
    pub open spec fn wf(&self) -> bool {
        match *self {
            FootprintRead::Issues(source, v) => forall|i: int|
                0 <= i < v@.len() ==> lies_in(source@, (#[trigger] v@[i]).bytes),
            _ => true,
        }
    }
}

/// Whether bytes, where they are known, are those of characters of a text.
pub open spec fn lies_in(source: Seq<char>, bytes: Option<(usize, usize)>) -> bool {
    match bytes {
        Some((begin, end)) => begin <= end && is_boundary(source, begin as int) && is_boundary(
            source,
            end as int,
        ),
        None => true,
    }
}

/// Whether what comes of reading a file of a footprint is the text to look at, or is settled: a file
/// that is not there, or one that cannot be read.
pub open spec fn footprint_text<F: FileProvider>(
    file_provider: &F,
    path: Seq<char>,
    r: Result<String, FootprintRead>,
) -> bool {
    exists|s: &str, a: Result<String, FileProviderError>|
        s@ == path && #[trigger] call_ensures(F::read_file, (file_provider, s), a) && match (a, r) {
            (Ok(text), Ok(t)) => t == text,
            (Err(FileProviderError::NotFound(_)), Err(FootprintRead::NotFound)) => true,
            (Err(e), Err(FootprintRead::Failed(m))) => !(e is NotFound) && m@ == e.text(),
            _ => false,
        }
}

/// Reads the file of a footprint.
pub fn read_footprint<F: FileProvider>(file_provider: &F, path: &str) -> (r: Result<
    String,
    FootprintRead,
>)
    ensures
        footprint_text(file_provider, path@, r),
{
    let answer = file_provider.read_file(path);
    let ghost heard = answer;
    let r = match answer {
        Ok(text) => Ok(text),
        Err(FileProviderError::NotFound(_)) => Err(FootprintRead::NotFound),
        Err(e) => Err(FootprintRead::Failed(e.message())),
    };
    proof {
        assert(call_ensures(F::read_file, (file_provider, path), heard));
    }
    r
}

/// The note for a fault of a footprint's file.
pub open spec fn invalid_footprint(issue: Seq<char>) -> NoticeView {
    NoticeView {
        message: "Invalid KiCad footprint: "@ + issue,
        kind: "footprint.invalid"@,
        severity: Severity::Error,
    }
}

/// The note for a footprint's file that cannot be read.
pub open spec fn unread_footprint(error: Seq<char>) -> NoticeView {
    NoticeView {
        message: "Failed to read KiCad footprint for validation: "@ + error,
        kind: "footprint.read"@,
        severity: Severity::Error,
    }
}

/// Whether a report is the one for a fault of a footprint's file: it stands in the file, at the fault,
/// where that is known.
pub open spec fn is_issue_report(
    path: Seq<char>,
    source: Seq<char>,
    issue: FootprintIssue,
    r: DiagnosticView,
) -> bool {
    &&& r == categorized(PlaceView { path, span: r.span }, invalid_footprint(issue.message@))
    &&& match (issue.bytes, r.span) {
        (Some((begin, end)), Some(span)) => is_span_of(source, begin as int, end as int, span),
        (None, None) => true,
        _ => false,
    }
}

/// Whether reports are those for the file of a footprint. One that is not there is none of this
/// check's business.
pub open spec fn are_file_reports(path: Seq<char>, read: FootprintRead, r: Seq<DiagnosticView>) -> bool {
    match read {
        FootprintRead::Valid => r.len() == 0,
        FootprintRead::NotFound => r.len() == 0,
        FootprintRead::Issues(source, v) => r.len() == v@.len() && forall|i: int|
            0 <= i < r.len() ==> is_issue_report(path, source@, v@[i], #[trigger] r[i]),
        FootprintRead::Failed(e) => r == seq![
            categorized(somewhere_in(path), unread_footprint(e@)),
        ],
    }
}

/// The reports for the file of a footprint.
pub fn validate_footprint_file(path: &str, read: &FootprintRead) -> (r: Vec<Diagnostic>)
    requires
        read.wf(),
    ensures
        are_file_reports(path@, *read, reports(r@)),
{
    let mut out: Vec<Diagnostic> = Vec::new();
    match read {
        FootprintRead::Valid => {},
        FootprintRead::NotFound => {},
        FootprintRead::Issues(source, v) => {
            let mut i: usize = 0;
            while i < v.len()
                invariant
                    i <= v@.len(),
                    *read == FootprintRead::Issues(*source, *v),
                    read.wf(),
                    out@.len() == i,
                    forall|k: int|
                        0 <= k < i ==> is_issue_report(
                            path@,
                            source@,
                            v@[k],
                            #[trigger] reports(out@)[k],
                        ),
                decreases v@.len() - i,
            {
                let ghost before = reports(out@);
                proof {
                    assert(lies_in(source@, v@[i as int].bytes));
                }
                let span = match v[i].bytes {
                    Some((begin, end)) => Some(
                        resolved_span_from_byte_span(source.as_str(), begin, end),
                    ),
                    None => None,
                };
                let mut message = "Invalid KiCad footprint: ".to_owned();
                message.append(v[i].message.as_str());
                let notice = Notice {
                    message,
                    kind: "footprint.invalid".to_owned(),
                    severity: Severity::Error,
                };
                let place = Place { path: path.to_owned(), span };
                let d = Diagnostic::categorized(&place, notice);
                proof {
                    lemma_reports_push(out@, d);
                    assert(is_issue_report(path@, source@, v@[i as int], d@));
                    assert forall|k: int| 0 <= k < i implies #[trigger] before.push(d@)[k] == before[k] by {}
                }
                out.push(d);
                i += 1;
            }
        },
        FootprintRead::Failed(e) => {
            let mut message = "Failed to read KiCad footprint for validation: ".to_owned();
            message.append(e.as_str());
            let notice = Notice {
                message,
                kind: "footprint.read".to_owned(),
                severity: Severity::Error,
            };
            let place = Place { path: path.to_owned(), span: None };
            let d = Diagnostic::categorized(&place, notice);
            proof {
                lemma_reports_push(out@, d);
            }
            out.push(d);
            proof {
                assert(reports(out@) =~= seq![d@]);
            }
        },
    }
    out
}

/// The note for a component whose footprint has a fault.
pub open spec fn component_footprint(name: Seq<char>, footprint: Seq<char>) -> NoticeView {
    NoticeView {
        message: "Component `"@ + name + "` uses invalid footprint `"@ + footprint + "`"@,
        kind: "footprint.component"@,
        severity: Severity::Error,
    }
}

/// The note for a component whose footprint has a fault.
fn component_footprint_notice(name: &str, footprint: &str) -> (r: Notice)
    ensures
        r@ == component_footprint(name@, footprint@),
{
    let mut message = "Component `".to_owned();
    message.append(name);
    message.append("` uses invalid footprint `");
    message.append(footprint);
    message.append("`");
    Notice { message, kind: "footprint.component".to_owned(), severity: Severity::Error }
}

/// A component with a footprint in a file, and what became of reading that file.
pub struct FootprintUse {
    pub component: String,
    pub footprint: String,
    /// Where the component is made.
    pub site: Place,
    /// The footprint's file.
    pub path: String,
    pub read: FootprintRead,
}

impl FootprintUse {
    /// The use of a footprint's file by a component.
    pub fn of(component: &ComponentValue, path: String, read: FootprintRead) -> (r: FootprintUse)
        ensures
            r.component@ == component@.name,
            r.footprint@ == component@.footprint,
            r.site@ == (PlaceView {
                path: component@.source_path,
                span: component@.declaration_span,
            }),
            r.path == path,
            r.read == read,
    {
        FootprintUse {
            component: component.name().to_owned(),
            footprint: component.footprint().to_owned(),
            site: Place {
                path: component.source_path().to_owned(),
                span: component.declaration_span(),
            },
            path,
            read,
        }
    }
}

/// Whether reports are those for one component: each stands where the component is made and has one
/// for the file as its cause.
pub open spec fn are_use_reports(u: FootprintUse, r: Seq<DiagnosticView>) -> bool {
    exists|file: Seq<DiagnosticView>| #[trigger]
        are_file_reports(u.path@, u.read, file) && r.len() == file.len() && forall|i: int|
            0 <= i < r.len() ==> #[trigger] r[i] == categorized_cause(
                u.site@,
                component_footprint(u.component@, u.footprint@),
                file[i],
            )
}

/// How many reports the file of a footprint has.
pub open spec fn report_count(read: FootprintRead) -> int {
    match read {
        FootprintRead::Valid => 0,
        FootprintRead::NotFound => 0,
        FootprintRead::Issues(_, v) => v@.len() as int,
        FootprintRead::Failed(_) => 1,
    }
}

/// Whether reports are those for some components, one after the other.
pub open spec fn are_footprint_reports(uses: Seq<FootprintUse>, r: Seq<DiagnosticView>) -> bool
    decreases uses.len(),
{
    if uses.len() == 0 {
        r.len() == 0
    } else {
        let n = r.len() - report_count(uses.last().read);
        &&& 0 <= n
        &&& are_use_reports(uses.last(), r.skip(n))
        &&& are_footprint_reports(uses.drop_last(), r.take(n))
    }
}

/// The reports for one component.
fn validate_use(u: &FootprintUse) -> (r: Vec<Diagnostic>)
    requires
        u.read.wf(),
    ensures
        are_use_reports(*u, reports(r@)),
{
    let mut rest = validate_footprint_file(u.path.as_str(), &u.read);
    let ghost file = reports(rest@);
    let ghost first = rest@;
    let ghost mut k: int = 0;
    let mut out: Vec<Diagnostic> = Vec::new();
    proof {
        assert(first.skip(0) =~= first);
    }
    while rest.len() > 0
        invariant
            0 <= k <= first.len(),
            rest@ == first.skip(k),
            file == reports(first),
            out@.len() == k,
            forall|i: int|
                0 <= i < k ==> #[trigger] reports(out@)[i] == categorized_cause(
                    u.site@,
                    component_footprint(u.component@, u.footprint@),
                    file[i],
                ),
        decreases rest@.len(),
    {
        let cause = rest.remove(0);
        let ghost before = reports(out@);
        let note = component_footprint_notice(u.component.as_str(), u.footprint.as_str());
        let ghost view = note@;
        let ghost inner = cause@;
        let d = Diagnostic::categorized(&u.site, note).with_child(cause);
        proof {
            assert(cause == first[k]);
            assert(file[k] == inner);
            assert(d@ == categorized_cause(u.site@, view, inner));
            lemma_reports_push(out@, d);
            assert(rest@ =~= first.skip(k + 1));
            assert forall|i: int| 0 <= i < k implies #[trigger] before.push(d@)[i] == before[i] by {}
            k = k + 1;
        }
        out.push(d);
    }
    proof {
        assert(are_file_reports(u.path@, u.read, file));
        assert(reports(out@).len() == file.len());
    }
    out
}

/// The reports for the components whose footprints stand in files.
pub fn validate_footprints(uses: &Vec<FootprintUse>) -> (r: Vec<Diagnostic>)
    requires
        forall|i: int| 0 <= i < uses@.len() ==> (#[trigger] uses@[i]).read.wf(),
    ensures
        are_footprint_reports(uses@, reports(r@)),
{
    let ghost all = uses@;
    let mut out: Vec<Diagnostic> = Vec::new();
    let mut i: usize = 0;
    proof {
        assert(all.take(0) =~= Seq::<FootprintUse>::empty());
    }
    while i < uses.len()
        invariant
            i <= uses@.len(),
            all == uses@,
            forall|k: int| 0 <= k < uses@.len() ==> (#[trigger] uses@[k]).read.wf(),
            are_footprint_reports(all.take(i as int), reports(out@)),
        decreases uses@.len() - i,
    {
        let more = validate_use(&uses[i]);
        let ghost first = reports(out@);
        let ghost added = reports(more@);
        extend_reports(&mut out, more);
        proof {
            let r = reports(out@);
            assert(all.take(i + 1).drop_last() =~= all.take(i as int));
            assert(all.take(i + 1).last() == uses@[i as int]);
            assert(r.skip(first.len() as int) =~= added);
            assert(r.take(first.len() as int) =~= first);
            assert(are_footprint_reports(all.take(i + 1), r));
        }
        i += 1;
    }
    proof {
        assert(all.take(all.len() as int) =~= all);
    }
    out
}

} // verus!
