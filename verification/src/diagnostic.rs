//! Notes for the user.

use vstd::prelude::*;

use crate::text::{clone_opt, opt_text};

verus! {

/// How grave a note is.
#[derive(Clone, Copy, PartialEq, Eq, Structural, Debug)]
pub enum Severity {
    Error,
    Warning,
    Advice,
}

/// A note for the user.
pub struct Notice {
    pub message: String,
    /// The kind of the note, such as `pin.no_connect`.
    pub kind: String,
    pub severity: Severity,
}

/// The contents of a note.
pub struct NoticeView {
    pub message: Seq<char>,
    pub kind: Seq<char>,
    pub severity: Severity,
}

impl View for Notice {
    type V = NoticeView;

    open spec fn view(&self) -> NoticeView {
        NoticeView { message: self.message@, kind: self.kind@, severity: self.severity }
    }
}

/// The contents of a list of notes.
pub open spec fn notices(v: Seq<Notice>) -> Seq<NoticeView> {
    Seq::new(v.len(), |i: int| v[i]@)
}

pub proof fn lemma_notices_push(v: Seq<Notice>, n: Notice)
    ensures
        notices(v.push(n)) == notices(v).push(n@),
{
    assert(notices(v.push(n)) =~= notices(v).push(n@));
}

// ---------------------------------------------------------------------------------------------
// Reports

/// A stretch of a file, from one place to another. Rows and columns are counted from 0.
#[derive(Clone, Copy, PartialEq, Eq, Structural, Debug)]
pub struct SourceSpan {
    pub begin_row: usize,
    pub begin_col: usize,
    pub end_row: usize,
    pub end_col: usize,
}

impl SourceSpan {
    /// The stretch from one place to another.
    pub fn between(begin_row: usize, begin_col: usize, end_row: usize, end_col: usize) -> (r:
        SourceSpan)
        ensures
            r == (SourceSpan { begin_row, begin_col, end_row, end_col }),
    {
        SourceSpan { begin_row, begin_col, end_row, end_col }
    }
}

/// A place in the sources: a file, and a stretch of it where that is known.
pub struct Place {
    pub path: String,
    pub span: Option<SourceSpan>,
}

/// The contents of a place.
pub struct PlaceView {
    pub path: Seq<char>,
    pub span: Option<SourceSpan>,
}

impl View for Place {
    type V = PlaceView;

    open spec fn view(&self) -> PlaceView {
        PlaceView { path: self.path@, span: self.span }
    }
}

impl Place {
    /// The same place once more.
    pub fn copy(&self) -> (r: Place)
        ensures
            r@ == self@,
    {
        Place { path: self.path.clone(), span: self.span }
    }
}

/// A note about a place.
pub struct PlacedNotice {
    pub place: Place,
    pub notice: Notice,
}

/// The contents of an optional note about a place.
pub open spec fn opt_placed(o: Option<PlacedNotice>) -> Option<(PlaceView, NoticeView)> {
    match o {
        Some(n) => Some((n.place@, n.notice@)),
        None => None,
    }
}

/// A file as a place.
pub open spec fn somewhere_in(path: Seq<char>) -> PlaceView {
    PlaceView { path, span: None }
}

/// What an evaluation reports: where, how grave, and in which words. A report may have another
/// inside, which is its cause.
pub struct Diagnostic {
    pub path: String,
    pub span: Option<SourceSpan>,
    pub severity: Severity,
    pub body: String,
    /// The kind of the report, such as `footprint.invalid`, where it has one.
    pub kind: Option<String>,
    /// Whether the report is about the style of the source.
    pub is_style: bool,
    pub child: Option<Box<Diagnostic>>,
}

/// The contents of a report.
pub struct DiagnosticView {
    pub path: Seq<char>,
    pub span: Option<SourceSpan>,
    pub severity: Severity,
    pub body: Seq<char>,
    pub kind: Option<Seq<char>>,
    pub is_style: bool,
    pub child: Option<Box<DiagnosticView>>,
}

/// The contents of a report.
pub open spec fn report_of(d: Diagnostic) -> DiagnosticView
    decreases d,
{
    DiagnosticView {
        path: d.path@,
        span: d.span,
        severity: d.severity,
        body: d.body@,
        kind: opt_text(d.kind),
        is_style: d.is_style,
        child: match d.child {
            Some(c) => Some(Box::new(report_of(*c))),
            None => None,
        },
    }
}

impl View for Diagnostic {
    type V = DiagnosticView;

    open spec fn view(&self) -> DiagnosticView {
        report_of(*self)
    }
}

/// The contents of a list of reports.
pub open spec fn reports(v: Seq<Diagnostic>) -> Seq<DiagnosticView> {
    Seq::new(v.len(), |i: int| v[i]@)
}

pub proof fn lemma_reports_push(v: Seq<Diagnostic>, d: Diagnostic)
    ensures
        reports(v.push(d)) == reports(v).push(d@),
{
    assert(reports(v.push(d)) =~= reports(v).push(d@));
}

/// A report with another as its cause.
pub open spec fn caused(
    place: PlaceView,
    severity: Severity,
    body: Seq<char>,
    child: DiagnosticView,
) -> DiagnosticView {
    DiagnosticView {
        path: place.path,
        span: place.span,
        severity,
        body,
        kind: None,
        is_style: false,
        child: Some(Box::new(child)),
    }
}

/// A report without a cause.
pub open spec fn plain(place: PlaceView, severity: Severity, body: Seq<char>) -> DiagnosticView {
    DiagnosticView {
        path: place.path,
        span: place.span,
        severity,
        body,
        kind: None,
        is_style: false,
        child: None,
    }
}

/// A note about a place as a report.
pub open spec fn categorized(place: PlaceView, notice: NoticeView) -> DiagnosticView {
    DiagnosticView { kind: Some(notice.kind), ..plain(place, notice.severity, notice.message) }
}

/// A note about a place as a report with a cause.
pub open spec fn categorized_cause(
    place: PlaceView,
    notice: NoticeView,
    child: DiagnosticView,
) -> DiagnosticView {
    DiagnosticView { child: Some(Box::new(child)), ..categorized(place, notice) }
}

impl Diagnostic {
    /// A report on a file, without a cause.
    pub fn new(path: &str, severity: Severity, body: String) -> (r: Diagnostic)
        ensures
            r@ == plain(somewhere_in(path@), severity, body@),
    {
        Diagnostic {
            path: path.to_owned(),
            span: None,
            severity,
            body,
            kind: None,
            is_style: false,
            child: None,
        }
    }

    /// A report on a place, without a cause.
    pub fn at(place: &Place, severity: Severity, body: String) -> (r: Diagnostic)
        ensures
            r@ == plain(place@, severity, body@),
    {
        Diagnostic {
            path: place.path.clone(),
            span: place.span,
            severity,
            body,
            kind: None,
            is_style: false,
            child: None,
        }
    }

    /// This report as the cause of another.
    pub fn under(self, place: &Place, severity: Severity, body: String) -> (r: Diagnostic)
        ensures
            r@ == caused(place@, severity, body@, self@),
    {
        Diagnostic {
            path: place.path.clone(),
            span: place.span,
            severity,
            body,
            kind: None,
            is_style: false,
            child: Some(Box::new(self)),
        }
    }

    /// A note about a place as a report.
    pub fn categorized(place: &Place, notice: Notice) -> (r: Diagnostic)
        ensures
            r@ == categorized(place@, notice@),
    {
        Diagnostic {
            path: place.path.clone(),
            span: place.span,
            severity: notice.severity,
            body: notice.message,
            kind: Some(notice.kind),
            is_style: false,
            child: None,
        }
    }

    /// The same report with a cause.
    pub fn with_child(self, child: Diagnostic) -> (r: Diagnostic)
        ensures
            r@ == (DiagnosticView { child: Some(Box::new(child@)), ..self@ }),
    {
        Diagnostic { child: Some(Box::new(child)), ..self }
    }

    /// Whether the report is an error.
    pub fn is_error(&self) -> (r: bool)
        ensures
            r == (self@.severity == Severity::Error),
    {
        match self.severity {
            Severity::Error => true,
            _ => false,
        }
    }

    /// The same report once more.
    pub fn copy(&self) -> (r: Diagnostic)
        ensures
            r@ == self@,
        decreases self,
    {
        let child = match &self.child {
            Some(c) => Some(Box::new(c.copy())),
            None => None,
        };
        Diagnostic {
            path: self.path.clone(),
            span: self.span,
            severity: self.severity,
            body: self.body.clone(),
            kind: clone_opt(&self.kind),
            is_style: self.is_style,
            child,
        }
    }
}

/// Adds the reports of another list.
pub fn extend_reports(out: &mut Vec<Diagnostic>, more: Vec<Diagnostic>)
    ensures
        reports(final(out)@) == reports(old(out)@) + reports(more@),
{
    let ghost first = out@;
    let mut more = more;
    let ghost added = more@;
    out.append(&mut more);
    proof {
        assert(reports(out@) =~= reports(first) + reports(added));
    }
}

} // verus!
