//! What holds of the simulation models that symbols ask for, of parts that are missing, and of the
//! paths that files load.

use vstd::prelude::*;

use crate::convert::{missing_part, BomEntry};
use crate::diagnostic::{NoticeView, Severity};
use crate::lang::component::symbol_field;
use crate::lang::component_call::{derived_model, ComponentFindings};
use crate::lang::component_type::requested_model;
use crate::lang::eval::{leaves_package, load_path_outcome, loads_noted, path_outcome, ConfigView};
use crate::lang::eval::FileAnswers;
use crate::lang::symbol::{defined_pads, definition_table, SymbolView};
use crate::lang::value::Item;
use crate::load_spec::{is_package_url, parsed_with, LoadSpecView};
use crate::path::{parent_of, path_joined};
use crate::resolved::{scope_of, ResolutionResult};
use crate::text::{is_space, lowered, texts, words};
use crate::{asked_canonical, FileProvider};

verus! {

// ---------------------------------------------------------------------------------------------
// Words

/// A text without white space is one word, and white space parts words.
pub proof fn law_words_are_parted(a: Seq<char>, c: char, b: Seq<char>)
    requires
        is_space(c),
    ensures
        words(a + seq![c] + b) == words(a) + words(b),
        b.len() > 0 && (forall|i: int| 0 <= i < b.len() ==> !is_space(#[trigger] b[i])) ==> words(b)
            == seq![b],
        (forall|i: int| 0 <= i < b.len() ==> is_space(#[trigger] b[i])) ==> words(b).len() == 0,
    decreases b.len(),
{
    let s = a + seq![c] + b;
    let none = Seq::<Seq<char>>::empty();
    if b.len() == 0 {
        assert(s.drop_last() =~= a);
        assert(s.last() == c);
        assert(words(a) + words(b) =~= words(a));
    } else {
        let d = b.drop_last();
        let t = a + seq![c] + d;
        assert(s.drop_last() =~= t);
        assert(s.last() == b.last());
        law_words_are_parted(a, c, d);
        assert(b[b.len() - 1] == b.last());
        if forall|i: int| 0 <= i < b.len() ==> !is_space(#[trigger] b[i]) {
            assert forall|i: int| 0 <= i < d.len() implies !is_space(#[trigger] d[i]) by {
                assert(d[i] == b[i]);
            }
            if d.len() == 0 {
                assert(words(d) =~= none);
                assert(none.push(seq![b.last()]) =~= seq![b]) by {
                    assert(seq![b.last()] =~= b);
                }
            } else {
                assert(!is_space(b[b.len() - 2]));
                assert(d.push(b.last()) =~= b);
                assert(seq![d].drop_last().push(d.push(b.last())) =~= seq![b]);
            }
        }
        if forall|i: int| 0 <= i < b.len() ==> is_space(#[trigger] b[i]) {
            assert forall|i: int| 0 <= i < d.len() implies is_space(#[trigger] d[i]) by {
                assert(d[i] == b[i]);
            }
        }
        if !is_space(b.last()) {
            let w = words(d);
            if b.len() >= 2 && !is_space(b[b.len() - 2]) {
                assert(s[s.len() - 2] == b[b.len() - 2]);
                assert(d.last() == b[b.len() - 2]);
                lemma_some_word(d);
                let all = words(a) + w;
                assert(all.last() == w.last());
                assert(all.drop_last() =~= words(a) + w.drop_last());
                assert(all.drop_last().push(all.last().push(b.last())) =~= words(a)
                    + w.drop_last().push(w.last().push(b.last())));
            } else {
                if b.len() == 1 {
                    assert(s[s.len() - 2] == c);
                } else {
                    assert(s[s.len() - 2] == b[b.len() - 2]);
                }
                assert((words(a) + w).push(seq![b.last()]) =~= words(a) + w.push(seq![b.last()]));
            }
        }
    }
}

proof fn lemma_some_word(s: Seq<char>)
    requires
        s.len() > 0,
        !is_space(s.last()),
    ensures
        words(s).len() > 0,
    decreases s.len(),
{
    if s.len() >= 2 && !is_space(s[s.len() - 2]) {
        lemma_some_word(s.drop_last());
    }
}

// ---------------------------------------------------------------------------------------------
// Models

/// A symbol asks for a model where it says which device it is, and from which library, under which name
/// and on which pins the model is to be had, and the device is a subcircuit. What is asked for is what
/// the symbol says.
pub proof fn law_symbol_asks_for_model(symbol: SymbolView, source: Result<Seq<char>, Seq<char>>)
    ensures
        ({
            let device = symbol_field(symbol, "Sim.Device"@);
            let library = symbol_field(symbol, "Sim.Library"@);
            let name = symbol_field(symbol, "Sim.Name"@);
            let pins = symbol_field(symbol, "Sim.Pins"@);
            let params = symbol_field(symbol, "Sim.Params"@);
            let r = requested_model(symbol, source);
            &&& device is None || library is None || name is None || pins is None ==> r is Ok
                && r->Ok_0 is None
            &&& device is Some && library is Some && name is Some && pins is Some && lowered(
                device->Some_0,
            ) != lowered("SUBCKT"@) ==> r is Ok && r->Ok_0 is None
            &&& r is Ok && r->Ok_0 is Some ==> {
                let q = r->Ok_0->Some_0;
                &&& symbol.source_uri is Some
                &&& source == Ok::<_, Seq<char>>(q.source)
                &&& library == Some(q.library)
                &&& name == Some(q.name)
                &&& params is Some ==> q.params == params->Some_0
                &&& params is None ==> q.params.len() == 0
            }
            &&& device is Some && library is Some && name is Some && pins is Some && lowered(
                device->Some_0,
            ) == lowered("SUBCKT"@) ==> (r is Err || r->Ok_0 is Some)
            &&& device is Some && library is Some && name is Some && pins is Some && lowered(
                device->Some_0,
            ) == lowered("SUBCKT"@) && (symbol.source_uri is None || source is Err) ==> r is Err
        }),
{
}

/// The model of a component is the one that was found, under the name that its symbol asks for, on one
/// net for each of the model's terminals.
pub proof fn law_model_of_component(
    symbol: SymbolView,
    connections: Seq<(Seq<char>, usize)>,
    found: ComponentFindings,
)
    ensures
        match derived_model(symbol, connections, found) {
            Ok(Some(m)) => {
                &&& found.model is Ok
                &&& found.model->Ok_0.fault is None
                &&& m.definition == found.model->Ok_0.definition@
                &&& symbol_field(symbol, "Sim.Name"@) == Some(m.name)
                &&& m.nets.len() == found.model->Ok_0.terminals@.len()
            },
            Ok(None) => {
                let q = requested_model(symbol, crate::lang::component::path_result(found.library));
                q is Ok && q->Ok_0 is None
            },
            Err(_) => true,
        },
{
    if let Ok(Some(m)) = derived_model(symbol, connections, found) {
        let q = requested_model(
            symbol,
            crate::lang::component::path_result(found.library),
        )->Ok_0->Some_0;
        crate::lang::sim::law_bound_model_is_complete(
            texts(found.model->Ok_0.terminals@),
            q.signals,
            connections,
            q.params,
        );
    }
}

/// The pads of a symbol are defined by a list, and by nothing else.
pub proof fn law_definition_is_list(items: Seq<Item>, h: usize)
    ensures
        !(items[h as int] is List) ==> definition_table(items, h) is Err,
        items[h as int] is List ==> definition_table(items, h) == defined_pads(
            items,
            items[h as int]->List_0@,
        ),
{
}

// ---------------------------------------------------------------------------------------------
// Parts

/// Whether a component is of a type that a house part can be found for.
pub open spec fn has_house_part(e: BomEntry) -> bool {
    e.component_type is Some && ({
        let t = e.component_type->Some_0@;
        ||| t == "resistor"@
        ||| t == "capacitor"@
        ||| t == "led"@
        ||| t == "ferrite_bead"@
        ||| t == "inductor"@
        ||| t == "rectifier"@
        ||| t == "zener"@
        ||| t == "tvs"@
        ||| t == "crystal"@
        ||| t == "connector"@ && e.connector_type is Some && (lowered(e.connector_type->Some_0@)
            == lowered("pin header"@) || lowered(e.connector_type->Some_0@) == lowered(
            "terminal block"@,
        ))
    })
}

/// A component that is to be bought and has no part is an error, unless nothing is known of its part and
/// a house part can be found for it.
pub proof fn law_house_parts(e: BomEntry)
    ensures
        missing_part(e) is Some <==> !e.dnp && !e.skip_bom && !e.has_part && (e.bom_mpn is Some
            || !has_house_part(e)),
        missing_part(e) is Some ==> {
            let n: NoticeView = missing_part(e)->Some_0.1;
            &&& n.severity == Severity::Error
            &&& missing_part(e)->Some_0.0 == e.source_path@
            &&& n.kind == (if e.bom_mpn is Some {
                "bom.underspecified"@
            } else {
                "bom.unspecified"@
            })
        },
{
    let h = crate::convert::house_types();
    if let Some(t) = e.component_type {
        if h.contains(t@) {
            let i = choose|i: int| 0 <= i < h.len() && h[i] == t@;
            assert(h[0] == "resistor"@ && h[1] == "capacitor"@ && h[2] == "led"@ && h[3]
                == "ferrite_bead"@ && h[4] == "inductor"@ && h[5] == "rectifier"@ && h[6] == "zener"@
                && h[7] == "tvs"@ && h[8] == "crystal"@);
            assert(h.len() == 9);
            assert(i == 0 || i == 1 || i == 2 || i == 3 || i == 4 || i == 5 || i == 6 || i == 7 || i
                == 8);
        } else {
            assert(!h.contains(t@));
            assert(h[0] == "resistor"@ && h[1] == "capacitor"@ && h[2] == "led"@ && h[3]
                == "ferrite_bead"@ && h[4] == "inductor"@ && h[5] == "rectifier"@ && h[6] == "zener"@
                && h[7] == "tvs"@ && h[8] == "crystal"@);
        }
    }
}

// ---------------------------------------------------------------------------------------------
// Paths

/// A path is read from the directory of the file that names it, and leads to what stands there, where
/// that lies in the same package and is written alike. A file of no package leads nowhere.
pub proof fn law_path_leads_within_package<F: FileProvider>(
    file_provider: &F,
    c: ConfigView,
    resolution: &ResolutionResult,
    file: Seq<char>,
    history: Seq<LoadSpecView>,
    path: Seq<char>,
    a: FileAnswers,
    r: Result<Seq<char>, Seq<char>>,
)
    requires
        path_outcome(file_provider, c, resolution, file, history, path, a, r),
    ensures
        ({
            let scope = scope_of(resolution.resolution.entries@, file, c.active_root_package);
            &&& scope is None ==> r is Err
            &&& scope is Some && parent_of(file) is None ==> r is Err
            &&& scope is Some && parent_of(file) is Some ==> asked_canonical(
                file_provider,
                path_joined(parent_of(file)->Some_0, path),
                a.target,
            )
            &&& scope is Some && parent_of(file) is Some && a.target is Err ==> r is Err
            &&& scope is Some && parent_of(file) is Some && a.target is Ok && a.root is Ok
                && !leaves_package(c, resolution, a.places) && !crate::case_differs(
                path,
                a.places.target,
            ) ==> r == Ok::<Seq<char>, Seq<char>>(a.target->Ok_0)
        }),
{
}

/// A text that names neither a file nor a package leads nowhere.
pub proof fn law_bad_load_path<F: FileProvider>(
    file_provider: &F,
    c: ConfigView,
    resolution: &ResolutionResult,
    path: Seq<char>,
    current_file: Seq<char>,
    r: Result<Seq<char>, Seq<char>>,
)
    requires
        load_path_outcome(file_provider, c, resolution, path, current_file, r),
        parsed_with(path, is_package_url(path)) is None,
    ensures
        r is Err,
{
}

/// No load of a file of the standard library is pointed out.
pub proof fn law_library_loads_as_it_likes<F: FileProvider>(
    file_provider: &F,
    c: ConfigView,
    resolution: &ResolutionResult,
    source: Seq<char>,
    loads: Seq<(Seq<char>, Seq<Seq<char>>)>,
    notes: Seq<Option<NoticeView>>,
    i: int,
)
    requires
        loads_noted(file_provider, c, resolution, source, true, loads, notes),
        0 <= i < notes.len(),
    ensures
        notes[i] is None,
{
}

} // verus!
