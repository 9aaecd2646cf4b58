//! The code of a module on its way to evaluation: where its text comes from, what it loads, and where
//! reports on its loads stand.

use vstd::prelude::*;

use crate::diagnostic::{categorized, extend_reports, lemma_reports_push, plain, reports};
use crate::diagnostic::{somewhere_in, Diagnostic, DiagnosticView, NoticeView, Place, PlaceView};
use crate::diagnostic::{Severity, SourceSpan};
use crate::lang::eval::{add_cached_load_warnings, finish_load, has_unnamed_net, is_source_key};
use crate::lang::eval::{lacks_name, load_failure, load_warnings, loads_noted, needless_loads};
use crate::lang::eval::{opt_notices, opt_report, request_views, source_kept, warnings_of};
use crate::lang::eval::{ConfigView, EvalContext, EvalContextConfig, EvaluatedNet, LoadOutcome};
use crate::lang::eval::{LoadRequest, SourcePlan};
use crate::lang::component::path_result;
use crate::lang::session::{kept, same_key, without_key, CacheKey};
use crate::lang::source::{parse_ast, source_outcome, statement_views, LoadAt, LoadAtView};
use crate::lang::source::{ParsedSource, SourceFault};
use crate::lang::symbol::asked_to_read;
use crate::path::same_path;
use crate::resolved::ResolutionResult;
use crate::text::{clone_texts, same, texts};
use crate::FileProvider;

verus! {

// ---------------------------------------------------------------------------------------------
// Where a load stands

/// Where the path of the first `load()` of a path is written.
pub open spec fn first_load(v: Seq<Option<LoadAtView>>, path: Seq<char>) -> Option<SourceSpan>
    decreases v.len(),
{
    if v.len() == 0 {
        None
    } else if v[0] is Some && v[0]->Some_0.0 == path {
        Some(v[0]->Some_0.2)
    } else {
        first_load(v.skip(1), path)
    }
}

/// A path that a module loads is found, at the first statement that loads it; no other is.
pub proof fn law_loads_are_found(v: Seq<Option<LoadAtView>>, path: Seq<char>)
    ensures
        match first_load(v, path) {
            Some(span) => exists|i: int|
                0 <= i < v.len() && (#[trigger] v[i]) is Some && v[i]->Some_0.0 == path
                    && v[i]->Some_0.2 == span && forall|k: int|
                    0 <= k < i ==> (#[trigger] v[k]) is None || v[k]->Some_0.0 != path,
            None => forall|i: int|
                0 <= i < v.len() ==> (#[trigger] v[i]) is None || v[i]->Some_0.0 != path,
        },
    decreases v.len(),
{
    if v.len() > 0 && !(v[0] is Some && v[0]->Some_0.0 == path) {
        let t = v.skip(1);
        law_loads_are_found(t, path);
        if first_load(t, path) is Some {
            let i = choose|i: int|
                0 <= i < t.len() && (#[trigger] t[i]) is Some && t[i]->Some_0.0 == path
                    && t[i]->Some_0.2 == first_load(t, path)->Some_0 && forall|k: int|
                    0 <= k < i ==> (#[trigger] t[k]) is None || t[k]->Some_0.0 != path;
            assert(v[i + 1] == t[i]);
            assert forall|k: int| 0 <= k < i + 1 implies (#[trigger] v[k]) is None
                || v[k]->Some_0.0 != path by {
                if k > 0 {
                    assert(t[k - 1] == v[k]);
                }
            }
        } else {
            assert forall|k: int| 0 <= k < v.len() implies (#[trigger] v[k]) is None
                || v[k]->Some_0.0 != path by {
                if k > 0 {
                    assert(t[k - 1] == v[k]);
                }
            }
        }
    } else if v.len() > 0 {
        assert(v[0] is Some);
    }
}

/// Finds where the path of the first `load()` of a path is written.
fn find_load(statements: &Vec<Option<LoadAt>>, path: &str) -> (r: Option<SourceSpan>)
    ensures
        r == first_load(statement_views(statements@), path@),
{
    let ghost all = statement_views(statements@);
    let mut i: usize = 0;
    proof {
        assert(all.skip(0) =~= all);
    }
    while i < statements.len()
        invariant
            i <= statements@.len(),
            all == statement_views(statements@),
            all.len() == statements@.len(),
            first_load(all, path@) == first_load(all.skip(i as int), path@),
        decreases statements@.len() - i,
    {
        proof {
            assert(all.skip(i as int)[0] == all[i as int]);
            assert(all.skip(i as int).skip(1) =~= all.skip(i + 1));
        }
        if let Some(load) = &statements[i] {
            if same(load.path.as_str(), path) {
                return Some(load.path_span);
            }
        }
        i += 1;
    }
    None
}

/// Where the module of a configuration first loads a path, going by its text. A text that cannot be
/// parsed does not say.
pub open spec fn load_span_in(c: ConfigView, path: Seq<char>) -> Option<SourceSpan> {
    match (c.source_path, c.contents) {
        (Some(file), Some(contents)) => match source_outcome(file, contents) {
            Ok(v) => first_load(v, path),
            Err(_) => None,
        },
        _ => None,
    }
}

/// Where the reports on a load stand: at the place that is given, or where the text loads the path.
pub open spec fn load_place(c: ConfigView, path: Seq<char>, span: Option<SourceSpan>) -> PlaceView {
    PlaceView {
        path: match c.source_path {
            Some(file) => file,
            None => "<unknown>"@,
        },
        span: if span is Some {
            span
        } else {
            load_span_in(c, path)
        },
    }
}

impl EvalContext {
    /// Finds where the module first loads a path.
    pub fn resolve_load_span(&self, path: &str) -> (r: Option<SourceSpan>)
        ensures
            r == load_span_in(self.config@, path@),
    {
        match (&self.config.source_path, &self.config.contents) {
            (Some(file), Some(contents)) => match parse_ast(file.as_str(), contents.clone()) {
                Ok(source) => find_load(&source.statements, path),
                Err(_) => None,
            },
            _ => None,
        }
    }

    /// Finds where the reports on a load stand.
    fn find_load_place(&self, path: &str, span: Option<SourceSpan>) -> (r: Place)
        ensures
            r@ == load_place(self.config@, path@, span),
    {
        let file = match &self.config.source_path {
            Some(file) => file.clone(),
            None => "<unknown>".to_owned(),
        };
        let span = if span.is_some() {
            span
        } else {
            self.resolve_load_span(path)
        };
        Place { path: file, span }
    }

    /// Reports the warnings of a module that was loaded before and is used again.
    pub fn reuse_load(&mut self, path: &str, span: Option<SourceSpan>, warnings: &Vec<Diagnostic>)
        ensures
            reports(final(self).load_diagnostics@) == reports(old(self).load_diagnostics@)
                + load_warnings(
                load_place(old(self).config@, path@, span),
                path@,
                reports(warnings@),
            ),
            (EvalContext { load_diagnostics: old(self).load_diagnostics, ..*final(self) })
                == *old(self),
    {
        if warnings.len() == 0 {
            proof {
                let none = load_warnings(
                    load_place(self.config@, path@, span),
                    path@,
                    reports(warnings@),
                );
                assert(reports(self.load_diagnostics@) + none =~= reports(self.load_diagnostics@));
            }
            return ;
        }
        let place = self.find_load_place(path, span);
        add_cached_load_warnings(&mut self.load_diagnostics, path, &place, warnings);
    }

    /// Finishes a load, given what the module reported: its warnings are reported here too and kept,
    /// and its first error makes the load fail.
    pub fn conclude_load(
        &mut self,
        path: &str,
        span: Option<SourceSpan>,
        diagnostics: &Vec<Diagnostic>,
        has_output: bool,
    ) -> (r: LoadOutcome)
        ensures
            ({
                let place = load_place(old(self).config@, path@, span);
                let said = reports(diagnostics@);
                &&& reports(final(self).load_diagnostics@) == reports(old(self).load_diagnostics@)
                    + load_warnings(place, path@, warnings_of(said))
                &&& reports(r.warnings@) == warnings_of(said)
                &&& opt_report(r.failure) == load_failure(said, has_output, path@, place)
            }),
            (EvalContext { load_diagnostics: old(self).load_diagnostics, ..*final(self) })
                == *old(self),
    {
        if diagnostics.len() == 0 && has_output {
            let warnings: Vec<Diagnostic> = Vec::new();
            proof {
                assert(reports(warnings@) =~= warnings_of(reports(diagnostics@)));
                let none = load_warnings(
                    load_place(self.config@, path@, span),
                    path@,
                    warnings_of(reports(diagnostics@)),
                );
                assert(reports(self.load_diagnostics@) + none =~= reports(self.load_diagnostics@));
            }
            return LoadOutcome { warnings, failure: None };
        }
        let place = self.find_load_place(path, span);
        finish_load(&mut self.load_diagnostics, diagnostics, has_output, path, &place)
    }
}

// ---------------------------------------------------------------------------------------------
// Names of the prelude that are loaded all the same

/// The `load()` statements among some statements.
pub open spec fn loads_among(v: Seq<Option<LoadAtView>>) -> Seq<LoadAtView>
    decreases v.len(),
{
    if v.len() == 0 {
        Seq::<LoadAtView>::empty()
    } else {
        let r = loads_among(v.drop_last());
        match v.last() {
            Some(load) => r.push(load),
            None => r,
        }
    }
}

/// What some `load()` statements ask for.
pub open spec fn asked_by(v: Seq<LoadAtView>) -> Seq<(Seq<char>, Seq<Seq<char>>)> {
    Seq::new(v.len(), |i: int| (v[i].0, v[i].1))
}

/// The reports on `load()` statements of a file: each note stands at its statement.
pub open spec fn placed_notes(
    path: Seq<char>,
    loads: Seq<LoadAtView>,
    notes: Seq<Option<NoticeView>>,
) -> Seq<DiagnosticView>
    decreases notes.len(),
{
    if notes.len() == 0 || loads.len() != notes.len() {
        Seq::<DiagnosticView>::empty()
    } else {
        let r = placed_notes(path, loads.drop_last(), notes.drop_last());
        match notes.last() {
            Some(n) => r.push(categorized(PlaceView { path, span: Some(loads.last().3) }, n)),
            None => r,
        }
    }
}

/// Whether reports are those on the names of the prelude that a module loads all the same, `loads`
/// being its `load()` statements.
pub open spec fn needless_reported<F: FileProvider>(
    file_provider: &F,
    c: ConfigView,
    resolution: &ResolutionResult,
    loads: Seq<LoadAtView>,
    r: Seq<DiagnosticView>,
) -> bool {
    if c.inject_prelude && c.source_path is Some {
        exists|inside: bool, notes: Seq<Option<NoticeView>>| #[trigger]
            loads_noted(
                file_provider,
                c,
                resolution,
                c.source_path->Some_0,
                inside,
                asked_by(loads),
                notes,
            ) && notes.len() == loads.len() && r == placed_notes(
                c.source_path->Some_0,
                loads,
                notes,
            )
    } else {
        r.len() == 0
    }
}

/// The `load()` statements among some statements: what they ask for, and where they stand.
fn find_requests(statements: &Vec<Option<LoadAt>>) -> (r: (Vec<LoadRequest>, Vec<SourceSpan>))
    ensures
        ({
            let loads = loads_among(statement_views(statements@));
            &&& request_views(r.0@) == asked_by(loads)
            &&& r.1@.len() == loads.len()
            &&& forall|i: int| 0 <= i < loads.len() ==> #[trigger] r.1@[i] == loads[i].3
        }),
{
    let ghost all = statement_views(statements@);
    let mut requests: Vec<LoadRequest> = Vec::new();
    let mut spans: Vec<SourceSpan> = Vec::new();
    let mut i: usize = 0;
    proof {
        assert(all.take(0) =~= Seq::<Option<LoadAtView>>::empty());
        assert(request_views(requests@) =~= asked_by(loads_among(all.take(0))));
    }
    while i < statements.len()
        invariant
            i <= statements@.len(),
            all == statement_views(statements@),
            all.len() == statements@.len(),
            request_views(requests@) == asked_by(loads_among(all.take(i as int))),
            spans@.len() == loads_among(all.take(i as int)).len(),
            forall|k: int|
                0 <= k < spans@.len() ==> #[trigger] spans@[k] == loads_among(
                    all.take(i as int),
                )[k].3,
        decreases statements@.len() - i,
    {
        let ghost before = loads_among(all.take(i as int));
        let ghost asked = requests@;
        let ghost stood = spans@;
        proof {
            assert(all.take(i + 1).drop_last() =~= all.take(i as int));
            assert(all.take(i + 1).last() == all[i as int]);
        }
        if let Some(load) = &statements[i] {
            let request = LoadRequest { path: load.path.clone(), names: clone_texts(&load.names) };
            requests.push(request);
            spans.push(load.span);
            proof {
                let after = before.push(load@);
                assert(loads_among(all.take(i + 1)) == after);
                assert(request_views(asked.push(request)) =~= request_views(asked).push(
                    (request.path@, texts(request.names@)),
                ));
                assert(asked_by(after) =~= asked_by(before).push((load@.0, load@.1)));
                assert forall|k: int| 0 <= k < spans@.len() implies #[trigger] spans@[k] == after[k].3 by {
                    if k < stood.len() {
                        assert(spans@[k] == stood[k]);
                        assert(after[k] == before[k]);
                    }
                }
            }
        }
        i += 1;
    }
    proof {
        assert(all.take(all.len() as int) =~= all);
    }
    (requests, spans)
}

/// The reports on names of the prelude that a module loads all the same, going by its text.
pub fn needless_load_reports<F: FileProvider>(
    config: &EvalContextConfig,
    file_provider: &F,
    resolution: &ResolutionResult,
    source: &ParsedSource,
) -> (r: Vec<Diagnostic>)
    requires
        resolution.wf(),
    ensures
        needless_reported(
            file_provider,
            config@,
            resolution,
            loads_among(statement_views(source.statements@)),
            reports(r@),
        ),
{
    let (requests, spans) = find_requests(&source.statements);
    let ghost loads = loads_among(statement_views(source.statements@));
    let mut rest = needless_loads(config, file_provider, resolution, &requests);
    let n: usize = rest.len();
    let ghost first = rest@;
    let ghost notes = opt_notices(rest@);
    let mut out: Vec<Diagnostic> = Vec::new();
    let path = match &config.source_path {
        Some(path) => path.as_str(),
        None => "",
    };
    let mut i: usize = 0;
    proof {
        assert(asked_by(loads).len() == loads.len());
        assert(request_views(requests@).len() == requests@.len());
        assert(first.skip(0) =~= first);
        assert(reports(out@) =~= placed_notes(path@, loads.take(0), notes.take(0)));
    }
    while rest.len() > 0
        invariant
            i <= first.len(),
            n == first.len(),
            rest@ == first.skip(i as int),
            notes == opt_notices(first),
            notes.len() == first.len(),
            loads.len() == notes.len(),
            spans@.len() == loads.len(),
            forall|k: int| 0 <= k < loads.len() ==> #[trigger] spans@[k] == loads[k].3,
            reports(out@) == placed_notes(path@, loads.take(i as int), notes.take(i as int)),
            !(config@.inject_prelude && config@.source_path is Some) ==> out@.len() == 0
                && forall|k: int| 0 <= k < first.len() ==> (#[trigger] first[k]) is None,
        decreases rest@.len(),
    {
        let note = rest.remove(0);
        proof {
            assert(note == first[i as int]);
            assert(rest@ =~= first.skip(i + 1));
            assert(loads.take(i + 1).drop_last() =~= loads.take(i as int));
            assert(notes.take(i + 1).drop_last() =~= notes.take(i as int));
            assert(loads.take(i + 1).last() == loads[i as int]);
            assert(notes.take(i + 1).last() == notes[i as int]);
        }
        if let Some(notice) = note {
            let place = Place { path: path.to_owned(), span: Some(spans[i]) };
            let d = Diagnostic::categorized(&place, notice);
            proof {
                lemma_reports_push(out@, d);
            }
            out.push(d);
        }
        i += 1;
    }
    proof {
        assert(loads.take(loads.len() as int) =~= loads);
        assert(notes.take(notes.len() as int) =~= notes);
        if config@.inject_prelude && config@.source_path is Some {
            let inside = choose|inside: bool| #[trigger]
                loads_noted(
                    file_provider,
                    config@,
                    resolution,
                    config@.source_path->Some_0,
                    inside,
                    request_views(requests@),
                    notes,
                );
            assert(loads_noted(
                file_provider,
                config@,
                resolution,
                config@.source_path->Some_0,
                inside,
                asked_by(loads),
                notes,
            ));
        }
    }
    out
}

// ---------------------------------------------------------------------------------------------
// Where the code comes from

/// Whether the sources that a session keeps, by number, are texts that were parsed, each of the file
/// that it is kept under.
pub open spec fn sources_fit(s: Seq<(CacheKey, usize)>, sources: Seq<ParsedSource>) -> bool {
    &&& forall|i: int| 0 <= i < sources.len() ==> (#[trigger] sources[i]).wf()
    &&& forall|i: int|
        0 <= i < s.len() ==> (#[trigger] s[i]).1 < sources.len() && same_path(
            sources[s[i].1 as int].path@,
            s[i].0.path@,
        )
}

proof fn lemma_kept_is_there(s: Seq<(CacheKey, usize)>, k: CacheKey)
    requires
        kept(s, k) is Some,
    ensures
        exists|i: int|
            0 <= i < s.len() && (#[trigger] s[i]).1 == kept(s, k)->Some_0 && same_key(s[i].0, k),
    decreases s.len(),
{
    if same_key(s.last().0, k) {
        assert(s[s.len() - 1] == s.last());
    } else {
        let d = s.drop_last();
        lemma_kept_is_there(d, k);
        let i = choose|i: int|
            0 <= i < d.len() && (#[trigger] d[i]).1 == kept(d, k)->Some_0 && same_key(d[i].0, k);
        assert(s[i] == d[i]);
    }
}

proof fn lemma_without_key_keeps(s: Seq<(CacheKey, usize)>, k: CacheKey)
    ensures
        forall|i: int| 0 <= i < without_key(s, k).len() ==> s.contains(#[trigger] without_key(s, k)[i]),
    decreases s.len(),
{
    if s.len() > 0 {
        let d = s.drop_last();
        lemma_without_key_keeps(d, k);
        let r = without_key(s, k);
        assert forall|i: int| 0 <= i < r.len() implies s.contains(#[trigger] r[i]) by {
            if i < without_key(d, k).len() {
                assert(r[i] == without_key(d, k)[i]);
                let j = choose|j: int| 0 <= j < d.len() && d[j] == r[i];
                assert(s[j] == r[i]);
            } else {
                assert(s[s.len() - 1] == r[i]);
            }
        }
    }
}

/// The report on a text that cannot be parsed.
pub open spec fn unparsed(path: Seq<char>, fault: (Seq<char>, Option<SourceSpan>)) -> DiagnosticView {
    plain(PlaceView { path, span: fault.1 }, Severity::Error, fault.0)
}

/// The report on a fault that belongs to no place.
pub open spec fn nowhere(message: Seq<char>) -> DiagnosticView {
    plain(somewhere_in(Seq::<char>::empty()), Severity::Error, message)
}

fn report_nowhere(message: String) -> (r: Diagnostic)
    ensures
        r@ == nowhere(message@),
{
    proof {
        reveal_strlit("");
        assert(""@ =~= Seq::<char>::empty());
    }
    Diagnostic::new("", Severity::Error, message)
}

/// What parsing the text of a file gives: one more source, or a report.
pub open spec fn source_added(
    path: Seq<char>,
    contents: Seq<char>,
    before: Seq<ParsedSource>,
    after: Seq<ParsedSource>,
    r: Result<usize, DiagnosticView>,
) -> bool {
    match source_outcome(path, contents) {
        Err(fault) => after == before && r == Err::<usize, DiagnosticView>(unparsed(path, fault)),
        Ok(_) => {
            &&& r is Ok
            &&& r->Ok_0 == before.len()
            &&& after.len() == before.len() + 1
            &&& after.drop_last() == before
            &&& after.last().wf()
            &&& after.last().path@ == path
            &&& after.last().contents@ == contents
        },
    }
}

/// The contents of a number or a report.
pub open spec fn number_or_report(r: Result<usize, Diagnostic>) -> Result<usize, DiagnosticView> {
    match r {
        Ok(n) => Ok(n),
        Err(d) => Err(d@),
    }
}

/// Parses the text of a file into one more source.
fn add_source(sources: &mut Vec<ParsedSource>, path: &str, contents: String) -> (r: Result<
    usize,
    Diagnostic,
>)
    ensures
        source_added(path@, contents@, old(sources)@, final(sources)@, number_or_report(r)),
{
    let ghost before = sources@;
    match parse_ast(path, contents) {
        Ok(source) => {
            let n: usize = sources.len();
            sources.push(source);
            proof {
                assert(sources@.drop_last() =~= before);
            }
            Ok(n)
        },
        Err(SourceFault { message, span }) => {
            let place = Place { path: path.to_owned(), span };
            Err(Diagnostic::at(&place, Severity::Error, message))
        },
    }
}

/// Reads a file.
fn read_text<F: FileProvider>(file_provider: &F, path: &str) -> (r: Result<String, String>)
    ensures
        asked_to_read(file_provider, path@, path_result(r)),
{
    let answer = file_provider.read_file(path);
    let ghost heard = answer;
    proof {
        assert(call_ensures(F::read_file, (file_provider, path), heard));
    }
    match answer {
        Ok(contents) => Ok(contents),
        Err(e) => Err(e.message()),
    }
}

/// Whether the code of a module is found, among the sources that were parsed, or a report is given:
/// a text that is given is parsed; what a file held before is used again; and a file is read, parsed
/// and kept.
pub open spec fn source_found<F: FileProvider>(
    file_provider: &F,
    c: ConfigView,
    cache: Seq<(CacheKey, usize)>,
    new_cache: Seq<(CacheKey, usize)>,
    before: Seq<ParsedSource>,
    after: Seq<ParsedSource>,
    r: Result<usize, DiagnosticView>,
) -> bool {
    match c.source_path {
        None => new_cache == cache && after == before && r == Err::<usize, DiagnosticView>(
            nowhere("source_path not set on Context before eval()"@),
        ),
        Some(path) => match (c.contents, source_kept(cache, path)) {
            (Some(contents), _) => new_cache == cache && source_added(
                path,
                contents,
                before,
                after,
                r,
            ),
            (None, Some(h)) => new_cache == cache && after == before && r == Ok::<
                usize,
                DiagnosticView,
            >(h),
            (None, None) => exists|heard: Result<Seq<char>, Seq<char>>| #[trigger]
                asked_to_read(file_provider, path, heard) && match heard {
                    Err(e) => new_cache == cache && after == before && r == Err::<
                        usize,
                        DiagnosticView,
                    >(nowhere("Failed to read file: "@ + e)),
                    Ok(contents) => source_added(path, contents, before, after, r) && match r {
                        Ok(n) => source_kept(new_cache, path) == Some(n) && exists|k: CacheKey|
                            #[trigger] is_source_key(k, path) && new_cache == without_key(
                                cache,
                                k,
                            ).push((k, n)),
                        Err(_) => new_cache == cache,
                    },
                },
        },
    }
}

impl EvalContext {
    /// Finds the code of the module and parses it, unless that was done before. The result is the
    /// number of the source.
    pub fn parsed_source<F: FileProvider>(
        &mut self,
        file_provider: &F,
        sources: &mut Vec<ParsedSource>,
    ) -> (r: Result<usize, Diagnostic>)
        requires
            sources_fit(old(self).session.source_cache.entries@, old(sources)@),
        ensures
            source_found(
                file_provider,
                old(self).config@,
                old(self).session.source_cache.entries@,
                final(self).session.source_cache.entries@,
                old(sources)@,
                final(sources)@,
                number_or_report(r),
            ),
            sources_fit(final(self).session.source_cache.entries@, final(sources)@),
            r matches Ok(n) ==> n < final(sources)@.len() && final(self).config@.source_path is Some
                && same_path(
                final(sources)@[n as int].path@,
                final(self).config@.source_path->Some_0,
            ),
            final(self).config == old(self).config,
            final(self).load_diagnostics == old(self).load_diagnostics,
    {
        let ghost cache = self.session.source_cache.entries@;
        let ghost before = sources@;
        match self.plan_source() {
            SourcePlan::Fail(e) => Err(report_nowhere(e.message)),
            SourcePlan::Given => {
                let path = match &self.config.source_path {
                    Some(path) => path.as_str(),
                    None => "",
                };
                let contents = match &self.config.contents {
                    Some(contents) => contents.clone(),
                    None => String::new(),
                };
                let r = add_source(sources, path, contents);
                proof {
                    lemma_more_sources(cache, before, sources@);
                }
                r
            },
            SourcePlan::Cached(h) => {
                proof {
                    let path = self.config@.source_path->Some_0;
                    let known = CacheKey {
                        scope: None,
                        path: self.config.source_path->Some_0,
                        detail: None,
                    };
                    assert(is_source_key(known, path));
                    let k = choose|k: CacheKey| is_source_key(k, path);
                    lemma_kept_is_there(cache, k);
                    let i = choose|i: int|
                        0 <= i < cache.len() && (#[trigger] cache[i]).1 == h && same_key(
                            cache[i].0,
                            k,
                        );
                    assert(cache[i].1 < before.len());
                }
                Ok(h)
            },
            SourcePlan::Read => {
                let path = match &self.config.source_path {
                    Some(path) => path.clone(),
                    None => String::new(),
                };
                let answer = read_text(file_provider, path.as_str());
                proof {
                    assert(asked_to_read(file_provider, path@, path_result(answer)));
                }
                let contents = match answer {
                    Ok(contents) => contents,
                    Err(e) => {
                        let mut message = "Failed to read file: ".to_owned();
                        message.append(e.as_str());
                        return Err(report_nowhere(message));
                    },
                };
                let r = add_source(sources, path.as_str(), contents);
                proof {
                    lemma_more_sources(cache, before, sources@);
                }
                if let Ok(n) = &r {
                    self.keep_source(*n);
                    proof {
                        let k = choose|k: CacheKey| #[trigger]
                            is_source_key(k, path@) && self.session.source_cache.entries@
                                == without_key(cache, k).push((k, *n));
                        let now = self.session.source_cache.entries@;
                        lemma_without_key_keeps(cache, k);
                        assert forall|i: int| 0 <= i < now.len() implies (#[trigger] now[i]).1
                            < sources@.len() && same_path(
                            sources@[now[i].1 as int].path@,
                            now[i].0.path@,
                        ) by {
                            if i < without_key(cache, k).len() {
                                assert(now[i] == without_key(cache, k)[i]);
                                let j = choose|j: int| 0 <= j < cache.len() && cache[j] == now[i];
                                assert(cache[j].1 < sources@.len());
                            } else {
                                assert(now[i] == (k, *n));
                            }
                        }
                    }
                }
                r
            },
        }
    }
}

/// Whether a configuration and reports are those with which a module begins to be evaluated, its code
/// being a source: the text is at hand, and names of the prelude that it loads all the same are
/// reported.
pub open spec fn begun_with<F: FileProvider>(
    file_provider: &F,
    resolution: &ResolutionResult,
    source: ParsedSource,
    before: ConfigView,
    after: ConfigView,
    said: Seq<DiagnosticView>,
    said_after: Seq<DiagnosticView>,
) -> bool {
    &&& after == (ConfigView { contents: Some(source.contents@), ..before })
    &&& exists|more: Seq<DiagnosticView>| #[trigger]
        needless_reported(
            file_provider,
            after,
            resolution,
            loads_among(statement_views(source.statements@)),
            more,
        ) && said_after == said + more
}

impl EvalContext {
    /// Begins to evaluate the module: finds its code, and reports on its loads.
    pub fn begin_eval<F: FileProvider>(
        &mut self,
        file_provider: &F,
        resolution: &ResolutionResult,
        sources: &mut Vec<ParsedSource>,
    ) -> (r: Result<usize, Diagnostic>)
        requires
            resolution.wf(),
            sources_fit(old(self).session.source_cache.entries@, old(sources)@),
        ensures
            source_found(
                file_provider,
                old(self).config@,
                old(self).session.source_cache.entries@,
                final(self).session.source_cache.entries@,
                old(sources)@,
                final(sources)@,
                number_or_report(r),
            ),
            sources_fit(final(self).session.source_cache.entries@, final(sources)@),
            match r {
                Ok(n) => n < final(sources)@.len() && begun_with(
                    file_provider,
                    resolution,
                    final(sources)@[n as int],
                    old(self).config@,
                    final(self).config@,
                    reports(old(self).load_diagnostics@),
                    reports(final(self).load_diagnostics@),
                ),
                Err(_) => final(self).config == old(self).config && final(self).load_diagnostics
                    == old(self).load_diagnostics,
            },
    {
        let n: usize = match self.parsed_source(file_provider, sources) {
            Ok(n) => n,
            Err(d) => return Err(d),
        };
        let source = &sources[n];
        self.config.contents = Some(source.contents.clone());
        let more = needless_load_reports(&self.config, file_provider, resolution, source);
        proof {
            assert(needless_reported(
                file_provider,
                self.config@,
                resolution,
                loads_among(statement_views(source.statements@)),
                reports(more@),
            ));
        }
        extend_reports(&mut self.load_diagnostics, more);
        Ok(n)
    }
}

impl EvalContextConfig {
    /// Whether the modules inside are made once the code of the module ran: not where the code failed
    /// or a net lacks its name.
    pub fn goes_on(&self, failed: bool, nets: &Vec<EvaluatedNet>) -> (r: bool)
        ensures
            r == (!failed && !lacks_name(nets@) && (self@.build_circuit || self@.tree_path.len()
                == 0)),
    {
        !failed && !has_unnamed_net(nets) && self.makes_children()
    }
}

/// Sources stay when more come.
proof fn lemma_more_sources(
    s: Seq<(CacheKey, usize)>,
    before: Seq<ParsedSource>,
    after: Seq<ParsedSource>,
)
    requires
        sources_fit(s, before),
        after == before || (after.len() == before.len() + 1 && after.drop_last() == before
            && after.last().wf()),
    ensures
        sources_fit(s, after),
{
    assert forall|i: int| 0 <= i < after.len() implies (#[trigger] after[i]).wf() by {
        if i < before.len() {
            assert(after[i] == before[i]);
        }
    }
    assert forall|i: int| 0 <= i < s.len() implies (#[trigger] s[i]).1 < after.len() && same_path(
        after[s[i].1 as int].path@,
        s[i].0.path@,
    ) by {
        assert(after[s[i].1 as int] == before[s[i].1 as int]);
    }
}

} // verus!
