//! What holds of source texts, of what is said about them, and of what is kept of them.

use vstd::prelude::*;

use crate::diagnostic::{DiagnosticView, NoticeView, Severity, SourceSpan};
use crate::lang::eval::{becomes, kept_index, kept_meta, known_symbol, schematic_failure};
use crate::lang::eval::ConfigView;
use crate::lang::footprint::{are_file_reports, are_footprint_reports, are_use_reports};
use crate::lang::footprint::{footprint_file, report_count, FootprintUse};
use crate::lang::interface::{instance_prefix, interface_text, names_without};
use crate::lang::load::{load_place, loads_among, placed_notes, source_added};
use crate::lang::session::{referred, SymbolInfoView};
use crate::lang::source::{byte_len, col_after, row_after, source_outcome, width, LoadAtView};
use crate::lang::source::ParsedSource;
use crate::lang::value::Item;
use crate::map::SortedMap;
use crate::path::{is_absolute, parent_of, path_joined, same_path};
use crate::schematic::{form_of, json_view, Json};
use crate::{SymbolInfo, SymbolKind};

verus! {

// ---------------------------------------------------------------------------------------------
// Places

/// A line break begins the next row, at its first column; every other character takes one column.
pub proof fn law_rows_and_columns(before: Seq<char>, line: Seq<char>)
    requires
        !line.contains('\n'),
    ensures
        row_after(line) == 0,
        col_after(line) == line.len(),
        row_after(before + seq!['\n'] + line) == row_after(before) + 1,
        col_after(before + seq!['\n'] + line) == line.len(),
    decreases line.len(),
{
    let s = before + seq!['\n'] + line;
    if line.len() == 0 {
        assert(s.last() == '\n');
        assert(s.drop_last() =~= before);
    } else {
        let d = line.drop_last();
        assert(line[line.len() - 1] == line.last());
        assert(line.contains(line.last()));
        if d.contains('\n') {
            let i = choose|i: int| 0 <= i < d.len() && d[i] == '\n';
            assert(line[i] == '\n');
        }
        law_rows_and_columns(before, d);
        assert(s.last() == line.last());
        assert(s.drop_last() =~= before + seq!['\n'] + d);
    }
}

/// A text has the bytes of its parts, and one byte for each character where all are ASCII.
pub proof fn law_bytes_of_text(a: Seq<char>, b: Seq<char>)
    ensures
        byte_len(a + b) == byte_len(a) + byte_len(b),
        (forall|i: int| 0 <= i < b.len() ==> (#[trigger] b[i] as u32) < 128) ==> byte_len(b) == b.len(),
    decreases b.len(),
{
    if b.len() == 0 {
        assert(a + b =~= a);
    } else {
        let d = b.drop_last();
        law_bytes_of_text(a, d);
        assert((a + b).drop_last() =~= a + d);
        assert((a + b).last() == b.last());
        assert(b[b.len() - 1] == b.last());
        if forall|i: int| 0 <= i < b.len() ==> (#[trigger] b[i] as u32) < 128 {
            assert forall|i: int| 0 <= i < d.len() implies (#[trigger] d[i] as u32) < 128 by {
                assert(d[i] == b[i]);
            }
            assert((b[b.len() - 1] as u32) < 128);
        }
    }
}

/// A character has one to four bytes, more where its number is larger.
pub proof fn law_bytes_of_character(a: char, b: char)
    ensures
        1 <= width(a) <= 4,
        (a as u32) <= (b as u32) ==> width(a) <= width(b),
        (a as u32) < 128 <==> width(a) == 1,
{
}

// ---------------------------------------------------------------------------------------------
// Loads

/// A report on a load stands in the loading file, at the place that is given where one is.
pub proof fn law_place_of_load(c: ConfigView, path: Seq<char>, span: Option<SourceSpan>)
    ensures
        c.source_path is Some ==> load_place(c, path, span).path == c.source_path->Some_0,
        span is Some ==> load_place(c, path, span).span == span,
        span is None && c.contents is None ==> load_place(c, path, span).span is None,
{
}

/// The loads among some statements are those that are loads, in their order.
pub proof fn law_loads_among_statements(
    v: Seq<Option<LoadAtView>>,
    w: Seq<Option<LoadAtView>>,
    x: LoadAtView,
)
    ensures
        loads_among(v + w) == loads_among(v) + loads_among(w),
        loads_among(seq![Some(x)]) == seq![x],
        loads_among(seq![None]).len() == 0,
    decreases w.len(),
{
    let one = seq![Some(x)];
    assert(one.drop_last() =~= Seq::<Option<LoadAtView>>::empty());
    assert(one.last() == Some(x));
    assert(loads_among(one.drop_last()).len() == 0);
    assert(loads_among(one) == loads_among(one.drop_last()).push(x));
    assert(loads_among(one) =~= seq![x]);
    let none = seq![None::<LoadAtView>];
    assert(none.drop_last() =~= Seq::<Option<LoadAtView>>::empty());
    if w.len() == 0 {
        assert(v + w =~= v);
        assert(loads_among(v) + loads_among(w) =~= loads_among(v));
    } else {
        let d = w.drop_last();
        law_loads_among_statements(v, d, x);
        assert((v + w).drop_last() =~= v + d);
        assert((v + w).last() == w.last());
        assert(loads_among(v + w) =~= loads_among(v) + loads_among(w));
    }
}

/// Whether a report is a note on a load, at the place of the load.
pub open spec fn is_note_at(
    d: DiagnosticView,
    path: Seq<char>,
    load: LoadAtView,
    n: NoticeView,
) -> bool {
    &&& d.path == path
    &&& d.span == Some(load.3)
    &&& d.severity == n.severity
    &&& d.body == n.message
    &&& d.kind == Some(n.kind)
    &&& d.child is None
}

/// Every note on a load is reported at its statement, and nothing else is.
pub proof fn law_notes_stand_at_loads(
    path: Seq<char>,
    loads: Seq<LoadAtView>,
    notes: Seq<Option<NoticeView>>,
)
    requires
        loads.len() == notes.len(),
    ensures
        forall|i: int|
            0 <= i < notes.len() && (#[trigger] notes[i]) is Some ==> exists|k: int|
                0 <= k < placed_notes(path, loads, notes).len() && is_note_at(
                    #[trigger] placed_notes(path, loads, notes)[k],
                    path,
                    loads[i],
                    notes[i]->Some_0,
                ),
        forall|k: int|
            0 <= k < placed_notes(path, loads, notes).len() ==> is_some_note(
                #[trigger] placed_notes(path, loads, notes)[k],
                path,
                loads,
                notes,
            ),
    decreases notes.len(),
{
    if notes.len() > 0 {
        let l = loads.drop_last();
        let m = notes.drop_last();
        let n = notes.len() - 1;
        law_notes_stand_at_loads(path, l, m);
        let before = placed_notes(path, l, m);
        let after = placed_notes(path, loads, notes);
        assert(notes[n] == notes.last());
        assert(loads[n] == loads.last());
        assert forall|i: int| 0 <= i < notes.len() && (#[trigger] notes[i]) is Some implies exists|k: int|
            0 <= k < after.len() && is_note_at(
                #[trigger] after[k],
                path,
                loads[i],
                notes[i]->Some_0,
            ) by {
            if i < n {
                assert(m[i] == notes[i] && l[i] == loads[i]);
                let k = choose|k: int|
                    0 <= k < before.len() && is_note_at(
                        #[trigger] before[k],
                        path,
                        l[i],
                        m[i]->Some_0,
                    );
                assert(after[k] == before[k]);
            } else {
                assert(is_note_at(after[before.len() as int], path, loads[i], notes[i]->Some_0));
            }
        }
        assert forall|k: int| 0 <= k < after.len() implies is_some_note(
            #[trigger] after[k],
            path,
            loads,
            notes,
        ) by {
            if k < before.len() {
                assert(after[k] == before[k]);
                assert(is_some_note(before[k], path, l, m));
                let i = choose|i: int|
                    0 <= i < m.len() && (#[trigger] m[i]) is Some && is_note_at(
                        before[k],
                        path,
                        l[i],
                        m[i]->Some_0,
                    );
                assert(notes[i] == m[i] && loads[i] == l[i]);
            } else {
                assert(notes[n] is Some);
            }
        }
    }
}

/// Whether a report is one of some notes, at the place of its load.
pub open spec fn is_some_note(
    d: DiagnosticView,
    path: Seq<char>,
    loads: Seq<LoadAtView>,
    notes: Seq<Option<NoticeView>>,
) -> bool {
    exists|i: int|
        0 <= i < notes.len() && (#[trigger] notes[i]) is Some && is_note_at(
            d,
            path,
            loads[i],
            notes[i]->Some_0,
        )
}

/// A text that can be parsed is kept, behind all that was; one that cannot is reported in its file,
/// and nothing is kept.
pub proof fn law_source_is_kept(
    path: Seq<char>,
    contents: Seq<char>,
    before: Seq<ParsedSource>,
    after: Seq<ParsedSource>,
    r: Result<usize, DiagnosticView>,
)
    requires
        source_added(path, contents, before, after, r),
    ensures
        r is Ok <==> source_outcome(path, contents) is Ok,
        r is Ok ==> after.len() == before.len() + 1 && after[r->Ok_0 as int].path@ == path
            && after[r->Ok_0 as int].contents@ == contents,
        r is Err ==> after == before && r->Err_0.severity == Severity::Error && r->Err_0.path == path,
        forall|i: int| 0 <= i < before.len() ==> #[trigger] after[i] == before[i],
{
    if r is Ok {
        assert forall|i: int| 0 <= i < before.len() implies #[trigger] after[i] == before[i] by {
            assert(after.drop_last()[i] == after[i]);
        }
    }
}

// ---------------------------------------------------------------------------------------------
// What is kept

/// The files that a file refers to are those that were noted for it.
pub proof fn law_references_are_noted(s: Seq<(String, String)>, from: Seq<char>, to: Seq<char>)
    ensures
        referred(s, from).contains(to) <==> exists|i: int|
            0 <= i < s.len() && same_path((#[trigger] s[i]).0@, from) && s[i].1@ == to,
    decreases s.len(),
{
    if s.len() > 0 {
        let d = s.drop_last();
        law_references_are_noted(d, from, to);
        let before = referred(d, from);
        let after = referred(s, from);
        assert(s[s.len() - 1] == s.last());
        if after.contains(to) {
            let i = choose|i: int| 0 <= i < after.len() && after[i] == to;
            if i < before.len() {
                assert(before[i] == to);
                let k = choose|k: int|
                    0 <= k < d.len() && same_path((#[trigger] d[k]).0@, from) && d[k].1@ == to;
                assert(s[k] == d[k]);
            }
        }
        if exists|i: int|
            0 <= i < s.len() && same_path((#[trigger] s[i]).0@, from) && s[i].1@ == to {
            let k = choose|k: int|
                0 <= k < s.len() && same_path((#[trigger] s[k]).0@, from) && s[k].1@ == to;
            if k < d.len() {
                assert(d[k] == s[k]);
                let i = choose|i: int| 0 <= i < before.len() && before[i] == to;
                assert(after[i] == to);
            } else {
                assert(after[before.len() as int] == to);
            }
        }
    }
}

/// What a file says of a name counts before what it is as a function that is built in.
pub proof fn law_own_symbol_counts(own: Option<SymbolInfoView>, doc: Option<Seq<char>>)
    ensures
        own is Some ==> known_symbol(own, doc) == own,
        own is None && doc is Some ==> known_symbol(own, doc) is Some && known_symbol(
            own,
            doc,
        )->Some_0.kind == SymbolKind::Function && known_symbol(own, doc)->Some_0.documentation == doc,
        own is None && doc is None ==> known_symbol(own, doc) is None,
{
}

/// What is found of a file is kept for it, unless that is nothing; what is known of all other files
/// stays.
pub proof fn law_analysis_is_kept(
    m: Map<Seq<Seq<char>>, SortedMap<String, String>>,
    n: Map<Seq<Seq<char>>, SortedMap<String, SymbolInfo>>,
    file: Seq<Seq<char>>,
    other: Seq<Seq<char>>,
    index: SortedMap<String, String>,
    meta: SortedMap<String, SymbolInfo>,
)
    ensures
        index.entries@.len() > 0 ==> kept_index(m, file, index).dom().contains(file) && kept_index(
            m,
            file,
            index,
        )[file] == index,
        meta.entries@.len() > 0 ==> kept_meta(n, file, meta).dom().contains(file) && kept_meta(
            n,
            file,
            meta,
        )[file] == meta,
        other != file && m.dom().contains(other) ==> kept_index(m, file, index).dom().contains(other)
            && kept_index(m, file, index)[other] == m[other],
        other != file && n.dom().contains(other) ==> kept_meta(n, file, meta).dom().contains(other)
            && kept_meta(n, file, meta)[other] == n[other],
        index.entries@.len() == 0 ==> kept_index(m, file, index) == m,
        meta.entries@.len() == 0 ==> kept_meta(n, file, meta) == n,
{
}

/// A schematic is made exactly where something came out and nothing went wrong.
pub proof fn law_schematic_is_made(has_output: bool, has_errors: bool, errors: Seq<Seq<char>>)
    ensures
        schematic_failure(has_output, has_errors, errors) is None <==> has_output && !has_errors,
{
}

// ---------------------------------------------------------------------------------------------
// Inputs

/// A value that is given from outside is shown again as it was given, where its whole numbers have
/// four bytes.
pub proof fn law_given_value_is_shown(j: Json, items: Seq<Item>, h: usize)
    requires
        becomes(j, items, h),
        small_numbers(j),
        refer_back(items),
        h < items.len(),
    ensures
        form_of(items, h) == json_view(j),
    decreases j,
{
    match j {
        Json::Array(v) => {
            let l = items[h as int]->List_0;
            assert(refers_back(items[h as int], h as int));
            let a = form_of(items, h)->Array_0;
            let b = json_view(j)->Array_0;
            assert forall|i: int| 0 <= i < v@.len() implies a[i] == b[i] by {
                assert(l@[i] < h);
                assert(becomes(v@[i], items, l@[i]));
                assert(small_numbers(v@[i]));
                law_given_value_is_shown(v@[i], items, l@[i]);
            }
            assert(a =~= b);
        },
        Json::Object(v) => {
            let l = items[h as int]->Dict_0;
            assert(refers_back(items[h as int], h as int));
            let a = form_of(items, h)->Object_0;
            let b = json_view(j)->Object_0;
            assert forall|i: int| 0 <= i < v@.len() implies a[i] == b[i] by {
                assert(l@[i].1 < h);
                assert(becomes(v@[i].1, items, l@[i].1));
                assert(small_numbers(v@[i].1));
                law_given_value_is_shown(v@[i].1, items, l@[i].1);
            }
            assert(a =~= b);
        },
        _ => {},
    }
}

/// Whether the whole numbers of a value have four bytes.
pub open spec fn small_numbers(j: Json) -> bool
    decreases j,
{
    match j {
        Json::Number(n) => i32::MIN <= n <= i32::MAX,
        Json::Array(v) => forall|i: int| 0 <= i < v@.len() ==> small_numbers(#[trigger] v@[i]),
        Json::Object(v) => forall|i: int| 0 <= i < v@.len() ==> small_numbers((#[trigger] v@[i]).1),
        _ => true,
    }
}

/// Whether a list or a dictionary holds only values that stand before it.
pub open spec fn refers_back(item: Item, h: int) -> bool {
    match item {
        Item::List(v) => forall|i: int| 0 <= i < v@.len() ==> (#[trigger] v@[i]) < h,
        Item::Dict(v) => forall|i: int| 0 <= i < v@.len() ==> (#[trigger] v@[i]).1 < h,
        _ => true,
    }
}

/// Whether every list and dictionary of a store holds only values that stand before it.
pub open spec fn refer_back(items: Seq<Item>) -> bool {
    forall|h: int| 0 <= h < items.len() ==> refers_back(#[trigger] items[h], h)
}

// ---------------------------------------------------------------------------------------------
// Footprints

/// Only a KiCad footprint has a file: where a reference leads, the path itself where it is absolute, or
/// else the path from the directory of the source.
pub proof fn law_file_of_footprint(
    stem: Seq<char>,
    footprint: Seq<char>,
    source_path: Seq<char>,
    resolved: Option<Seq<char>>,
)
    ensures
        ({
            let f = stem + ".kicad_mod"@;
            let r = footprint_file(f, source_path, resolved);
            &&& crate::text::begins(f, "package://"@) ==> r == resolved
            &&& is_absolute(f) ==> r == Some(f)
            &&& !crate::text::begins(f, "package://"@) && !is_absolute(f) && parent_of(source_path) is Some
                ==> r == Some(path_joined(parent_of(source_path)->Some_0, f))
        }),
        (forall|t: Seq<char>| footprint != #[trigger] (t + ".kicad_mod"@)) ==> footprint_file(
            footprint,
            source_path,
            resolved,
        ) is None,
{
    let e = ".kicad_mod"@;
    let f = stem + e;
    assert(f.skip(f.len() - e.len()) =~= e);
    reveal_strlit("package://");
    if crate::text::begins(f, "package://"@) {
        assert(f.take("package://"@.len() as int)[0] == f[0]);
    }
    if crate::text::ends(footprint, e) {
        let t = footprint.take(footprint.len() - e.len());
        assert(footprint =~= t + e);
    }
}

/// The reports on the footprint of a component are errors at the place where the component is made, one
/// for each fault of the file, with that beneath. There are none for a footprint without fault, nor for
/// one that is not there.
pub proof fn law_reports_on_footprint(u: FootprintUse, r: Seq<DiagnosticView>)
    requires
        are_use_reports(u, r),
    ensures
        r.len() == report_count(u.read),
        u.read is Valid || u.read is NotFound ==> r.len() == 0,
        u.read is Failed ==> r.len() == 1,
        forall|i: int| 0 <= i < r.len() ==> is_error_at(#[trigger] r[i], u),
{
    let file = choose|file: Seq<DiagnosticView>| #[trigger]
        are_file_reports(u.path@, u.read, file) && r.len() == file.len() && forall|i: int|
            0 <= i < r.len() ==> #[trigger] r[i] == crate::diagnostic::categorized_cause(
                u.site@,
                crate::lang::footprint::component_footprint(u.component@, u.footprint@),
                file[i],
            );
    assert forall|i: int| 0 <= i < r.len() implies is_error_at(#[trigger] r[i], u) by {
        assert(*r[i].child->Some_0 == file[i]);
        if u.read is Issues {
            assert(crate::lang::footprint::is_issue_report(
                u.path@,
                u.read->Issues_0@,
                u.read->Issues_1@[i],
                file[i],
            ));
        }
    }
}

/// Whether a report is an error where a component is made, with an error in the file of its footprint
/// beneath.
pub open spec fn is_error_at(d: DiagnosticView, u: FootprintUse) -> bool {
    &&& d.severity == Severity::Error
    &&& d.path == u.site@.path
    &&& d.span == u.site@.span
    &&& d.child is Some
    &&& d.child->Some_0.severity == Severity::Error
    &&& d.child->Some_0.path == u.path@
}

/// Every fault of every footprint that is used is reported for each component that uses it.
pub proof fn law_reports_on_footprints(uses: Seq<FootprintUse>, r: Seq<DiagnosticView>, i: int)
    requires
        are_footprint_reports(uses, r),
        0 <= i < uses.len(),
        report_count(uses[i].read) > 0,
    ensures
        exists|k: int| 0 <= k < r.len() && is_error_at(#[trigger] r[k], uses[i]),
    decreases uses.len(),
{
    let n = r.len() - report_count(uses.last().read);
    let d = uses.drop_last();
    if i < d.len() {
        assert(d[i] == uses[i]);
        law_reports_on_footprints(d, r.take(n), i);
        let k = choose|k: int| 0 <= k < r.take(n).len() && is_error_at(#[trigger] r.take(n)[k], d[i]);
        assert(r[k] == r.take(n)[k]);
    } else {
        law_reports_on_footprint(uses.last(), r.skip(n));
        assert(is_error_at(r.skip(n)[0], uses.last()));
        assert(r[n] == r.skip(n)[0]);
    }
}

// ---------------------------------------------------------------------------------------------
// Interfaces

/// An instance of an interface is named by a text that is a good name, or by nothing.
pub proof fn law_name_of_instance(
    items: Seq<Item>,
    name: Option<usize>,
    name_error: Option<Seq<char>>,
)
    ensures
        match instance_prefix(items, name, name_error) {
            Ok(p) => match name {
                None => true,
                Some(h) => items[h as int] is Text && name_error is None && p.old_style
                    == items[h as int]->Text_0@ && p.new_style == items[h as int]->Text_0@
                    && !p.assignment_inferable,
            },
            Err(_) => name is Some && (!(items[name->Some_0 as int] is Text) || name_error is Some),
        },
{
}

/// All names but one are those of the other fields.
pub proof fn law_names_but_one(f: Seq<(Seq<char>, usize)>, name: Seq<char>, q: Seq<char>)
    ensures
        names_without(f, name).contains(q) <==> q != name && exists|i: int|
            0 <= i < f.len() && (#[trigger] f[i]).0 == q,
    decreases f.len(),
{
    if f.len() > 0 {
        let d = f.drop_last();
        law_names_but_one(d, name, q);
        let before = names_without(d, name);
        let after = names_without(f, name);
        assert(f[f.len() - 1] == f.last());
        if after.contains(q) {
            let i = choose|i: int| 0 <= i < after.len() && after[i] == q;
            if i < before.len() {
                assert(before[i] == q);
                let k = choose|k: int| 0 <= k < d.len() && (#[trigger] d[k]).0 == q;
                assert(f[k] == d[k]);
            }
        }
        if q != name && exists|i: int| 0 <= i < f.len() && (#[trigger] f[i]).0 == q {
            let k = choose|k: int| 0 <= k < f.len() && (#[trigger] f[k]).0 == q;
            if k < d.len() {
                assert(d[k] == f[k]);
                let i = choose|i: int| 0 <= i < before.len() && before[i] == q;
                assert(after[i] == q);
            } else {
                assert(after[before.len() as int] == q);
            }
        }
    }
}

/// An interface with a name is shown by it.
pub proof fn law_interface_is_shown_by_name(items: Seq<Item>, h: usize)
    ensures
        items[h as int] is InterfaceFactory && items[h as int]->InterfaceFactory_0.name is Some
            ==> interface_text(items, h) == items[h as int]->InterfaceFactory_0.name->Some_0@,
{
}

} // verus!
