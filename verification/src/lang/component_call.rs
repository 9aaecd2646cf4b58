//! `Component()` from its arguments to the component.
//!
//! What others have to find out (paths, files, models) comes as a record of findings; which of them
//! count, and in what order things go wrong, is decided here.

use starlark::collections::SmallMap;
use vstd::prelude::*;

use crate::config::ManifestPart;
use crate::diagnostic::{notices, Notice, NoticeView, Place, PlaceView};
use crate::lang::component::{chosen_datasheet, finish_footprint, found_footprint, path_result};
use crate::lang::component::{plan_footprint, planned_footprint, ComponentError, FootprintFound};
use crate::lang::component_type::{begun, choose_spice_model, description, description_notices};
use crate::lang::component_type::{description_stored, finish_spice_model, finish_symbol_datasheet};
use crate::lang::component_type::{found_datasheet, linked, nets_made, plan_symbol_datasheet};
use crate::lang::component_type::{planned_datasheet, request_spice_model, requested_model};
use crate::lang::component_type::{unconnected, ComponentArguments, ComponentDraft, ComponentType};
use crate::lang::component_type::{DatasheetFound, DetailsView, DraftView};
use crate::lang::net::open_net;
use crate::lang::component_value::{ComponentDataView, ComponentValue, ComponentView};
use crate::lang::pins::{pin_notices, PinNotice, PinNoticeView, PinTypes};
use crate::lang::sim::{bound_model, terminal_nets};
use crate::lang::symbol::{SymbolValue, SymbolView};
use crate::lang::value::{all_below, extends, lemma_extends_item, lemma_extends_transitive, Item};
use crate::lang::value::{SpiceModelValue, Store};
use crate::map::{find, SortedMap};
use crate::small_map::{distinct, handles_in, lemma_place, texts_in, under};
use crate::text::{clone_opt, opt_text, texts};

verus! {

/// The simulation model that was found for a request.
pub struct ModelFound {
    pub definition: String,
    /// The terminals that it declares.
    pub terminals: Vec<String>,
    /// What is wrong with the model's use as it was asked for, if anything.
    pub fault: Option<String>,
}

/// What was found out for a component.
pub struct ComponentFindings {
    /// What is wrong with the name, if anything.
    pub name_error: Option<String>,
    /// What the library of the symbol resolved to.
    pub library: Result<String, String>,
    /// Whether the component is made in a file.
    pub in_file: bool,
    pub footprint: FootprintFound,
    pub pin_types: Vec<PinTypes>,
    /// The package reference of each path that has one.
    pub references: SortedMap<String, String>,
    pub symbol_datasheet: DatasheetFound,
    /// The model that the symbol asks for, where it asks for one.
    pub model: Result<ModelFound, String>,
}

/// A path as its package reference, where it has one.
pub open spec fn referenced(references: Seq<(String, String)>, path: Seq<char>) -> Seq<char> {
    match find(references, path) {
        Some(uri) => uri@,
        None => path,
    }
}

/// Writes a path as its package reference, where it has one.
fn refer_to(references: &SortedMap<String, String>, path: String) -> (r: String)
    ensures
        r@ == referenced(references.entries@, path@),
{
    match references.get(&path) {
        Some(uri) => uri.clone(),
        None => path,
    }
}

/// The footprint of a component, or the error.
pub open spec fn component_footprint(draft: DraftView, found: ComponentFindings) -> Result<
    Seq<char>,
    Seq<char>,
> {
    match planned_footprint(
        draft.footprint,
        draft.symbol,
        path_result(found.library),
        found.in_file,
    ) {
        Err(t) => Err(t),
        Ok(plan) => match found_footprint(
            plan,
            path_result(found.footprint.resolved),
            found.footprint.file_exists,
        ) {
            Err(t) => Err(t),
            Ok(path) => Ok(referenced(found.references.entries@, path)),
        },
    }
}

/// The contents of a simulation model.
pub ghost struct ModelView {
    pub definition: Seq<char>,
    pub name: Seq<char>,
    pub nets: Seq<usize>,
    pub args: Seq<(Seq<char>, Seq<char>)>,
}

/// Whether a value is a simulation model.
pub open spec fn is_model(item: Item, model: ModelView) -> bool {
    item matches Item::SpiceModel(m) && m.definition@ == model.definition && m.name@ == model.name
        && m.nets@ == model.nets && texts_in(m.args) == model.args
}

/// The simulation model that a symbol asks for, on the nets of a component, or the error.
pub open spec fn derived_model(
    symbol: SymbolView,
    connections: Seq<(Seq<char>, usize)>,
    found: ComponentFindings,
) -> Result<Option<ModelView>, Seq<char>> {
    match requested_model(symbol, path_result(found.library)) {
        Err(t) => Err(t),
        Ok(None) => Ok(None),
        Ok(Some(q)) => match found.model {
            Err(t) => Err(t@),
            Ok(m) => match bound_model(texts(m.terminals@), q.signals, connections, q.params) {
                Err(t) => Err(t),
                Ok((nets, args)) => match m.fault {
                    Some(t) => Err(t@),
                    None => Ok(
                        Some(ModelView { definition: m.definition@, name: q.name, nets, args }),
                    ),
                },
            },
        },
    }
}

/// The nets of a model stand where the connections do.
proof fn lemma_terminals_below(
    terminals: Seq<Seq<char>>,
    signals: Seq<(Seq<char>, Seq<char>)>,
    connections: Seq<(Seq<char>, usize)>,
    n: int,
)
    requires
        all_below(connections, n),
        terminal_nets(terminals, signals, connections) is Ok,
    ensures
        forall|i: int|
            0 <= i < terminal_nets(terminals, signals, connections)->Ok_0.len() ==> (
            #[trigger] terminal_nets(terminals, signals, connections)->Ok_0[i]) < n,
    decreases terminals.len(),
{
    if terminals.len() > 0 {
        lemma_terminals_below(terminals.drop_last(), signals, connections, n);
        lemma_place(connections, under(signals, terminals.last())->Some_0);
    }
}

/// The same path or error once more.
fn copy_result(r: &Result<String, String>) -> (c: Result<String, String>)
    ensures
        path_result(c) == path_result(*r),
{
    match r {
        Ok(s) => Ok(s.clone()),
        Err(e) => Err(e.clone()),
    }
}

/// The component that comes of its draft, its details and what was found.
pub open spec fn component_made(
    draft: DraftView,
    details: DetailsView,
    footprint: Seq<char>,
    connections: Seq<(Seq<char>, usize)>,
    symbol_datasheet: Option<Seq<char>>,
    spice_model: Option<usize>,
    references: Seq<(String, String)>,
    source_path: Seq<char>,
    site: PlaceView,
) -> ComponentView {
    let component_datasheet = match details.component_datasheet {
        Some(s) => Some(referenced(references, s)),
        None => None,
    };
    ComponentView {
        name: draft.name,
        ctype: details.ctype,
        footprint,
        prefix: details.prefix,
        connections,
        data: ComponentDataView {
            part: details.part,
            bom_mpn: details.bom_mpn,
            spice_model,
            dnp: details.dnp,
            skip_bom: details.skip_bom,
            skip_pos: details.skip_pos,
            datasheet: chosen_datasheet(details.part, component_datasheet, symbol_datasheet),
            component_datasheet,
            symbol_datasheet,
            properties: details.properties,
        },
        source_path,
        declaration_span: site.span,
        symbol: draft.symbol,
        description: details.description,
    }
}

/// What a call of `Component()` is made with, beside the store.
pub ghost struct Call {
    pub args: ComponentArguments,
    pub found: ComponentFindings,
    pub symbol_parts: Seq<(String, Vec<ManifestPart>)>,
    pub module_has_dnp: bool,
    pub source_path: Seq<char>,
    pub site: PlaceView,
}

/// What comes of a call.
pub ghost struct Outcome {
    pub component: Result<ComponentView, Seq<char>>,
    /// The warnings about pins.
    pub said: Seq<PinNoticeView>,
    /// The notes about old inputs.
    pub noted: Seq<NoticeView>,
}

/// The outcome of a call that fails before it says anything.
pub open spec fn refused(error: Seq<char>) -> Outcome {
    Outcome {
        component: Err(error),
        said: Seq::<PinNoticeView>::empty(),
        noted: Seq::<NoticeView>::empty(),
    }
}

/// Whether a call turns the store `before` into `after` and has an outcome, once the pins of the
/// component are connected.
pub open spec fn completes(
    call: Call,
    draft: DraftView,
    footprint: Seq<char>,
    connections: Seq<(Seq<char>, usize)>,
    before: Seq<Item>,
    after: Seq<Item>,
    o: Outcome,
) -> bool {
    let model = if call.args.spice_model is Some {
        Ok(None)
    } else {
        derived_model(draft.symbol, connections, call.found)
    };
    let modelled = o.component is Ok && model is Ok && model->Ok_0 is Some;
    let later = if modelled {
        after.drop_last()
    } else {
        after
    };
    &&& o.noted == description_notices(before, draft, call.args)
    &&& description_stored(before, later, draft, call.args, call.symbol_parts)
    &&& modelled ==> after.len() > before.len() && is_model(after.last(), model->Ok_0->Some_0)
    &&& o.component == match description(
        before,
        later,
        draft,
        call.args,
        call.symbol_parts,
        call.module_has_dnp,
    ) {
        Err(t) => Err(t),
        Ok(details) => match planned_datasheet(draft.symbol, path_result(call.found.library)) {
            Err(t) => Err(t),
            Ok(plan) => match model {
                Err(t) => Err(t),
                Ok(m) => Ok(
                    component_made(
                        draft,
                        details,
                        footprint,
                        connections,
                        found_datasheet(
                            plan,
                            opt_text(call.found.symbol_datasheet.resolved),
                            opt_text(call.found.symbol_datasheet.reference),
                        ),
                        if call.args.spice_model is Some {
                            call.args.spice_model
                        } else if m is Some {
                            Some((after.len() - 1) as usize)
                        } else {
                            None
                        },
                        call.found.references.entries@,
                        call.source_path,
                        call.site,
                    ),
                ),
            },
        },
    }
}

/// Whether a call turns the store `before`, with `id` as next number of a net, into `after`, with
/// `next`, and has an outcome.
pub open spec fn invoked(
    call: Call,
    before: Seq<Item>,
    id: u64,
    after: Seq<Item>,
    next: u64,
    o: Outcome,
) -> bool {
    let unchanged = after == before && next == id;
    match begun(before, call.args, opt_text(call.found.name_error)) {
        Err(t) => unchanged && o == refused(t),
        Ok(draft) => match component_footprint(draft, call.found) {
            Err(t) => unchanged && o == refused(t),
            Ok(footprint) => {
                let (links, said) = linked(
                    before,
                    draft,
                    before[call.args.pins as int]->Dict_0@,
                    call.found.pin_types@,
                    call.site,
                );
                match links {
                    Err(t) => unchanged && o == (Outcome { said, ..refused(t) }),
                    Ok(f) => {
                        let n = before.len() as int;
                        let connected = after.take(n + f.made);
                        &&& next == id + f.made
                        &&& n + f.made <= after.len()
                        &&& nets_made(after, n, f.made, id as int, call.site)
                        &&& if f.missing.len() > 0 {
                            after.len() == n + f.made && o == (Outcome {
                                said,
                                ..refused(unconnected(f.missing))
                            })
                        } else {
                            o.said == said && completes(
                                call,
                                draft,
                                footprint,
                                f.connections,
                                connected,
                                after,
                                o,
                            )
                        }
                    },
                }
            },
        },
    }
}

/// The contents of a component or the error.
pub open spec fn component_result(r: Result<ComponentValue, ComponentError>) -> Result<
    ComponentView,
    Seq<char>,
> {
    match r {
        Ok(c) => Ok(c@),
        Err(e) => Err(e.text()),
    }
}

/// The outcome that a result, warnings and notes make up.
pub open spec fn outcome_of(
    r: Result<ComponentValue, ComponentError>,
    said: Seq<PinNoticeView>,
    noted: Seq<Notice>,
) -> Outcome {
    Outcome { component: component_result(r), said, noted: notices(noted) }
}

/// Finds the footprint of a component.
fn find_footprint(draft: &ComponentDraft, found: &ComponentFindings) -> (r: Result<
    String,
    ComponentError,
>)
    ensures
        match (r, component_footprint(draft@, *found)) {
            (Ok(s), Ok(t)) => s@ == t,
            (Err(e), Err(t)) => e.text() == t,
            _ => false,
        },
{
    let library = copy_result(&found.library);
    let answer = FootprintFound {
        resolved: copy_result(&found.footprint.resolved),
        file_exists: found.footprint.file_exists,
    };
    match plan_footprint(clone_opt(&draft.footprint), &draft.symbol, library, found.in_file) {
        Err(e) => Err(e),
        Ok(plan) => match finish_footprint(plan, answer) {
            Err(e) => Err(e),
            Ok(path) => Ok(refer_to(&found.references, path)),
        },
    }
}

/// Makes the simulation model that a symbol asks for.
fn derive_model(
    symbol: &SymbolValue,
    found: &ComponentFindings,
    connections: &SmallMap<String, usize>,
    n: Ghost<int>,
) -> (r: Result<Option<SpiceModelValue>, ComponentError>)
    requires
        all_below(handles_in(*connections), n@),
    ensures
        match (r, derived_model(symbol@, handles_in(*connections), *found)) {
            (Ok(Some(m)), Ok(Some(v))) => is_model(Item::SpiceModel(m), v),
            (Ok(None), Ok(None)) => true,
            (Err(e), Err(t)) => e.text() == t,
            _ => false,
        },
        r is Ok && r->Ok_0 is Some ==> forall|i: int|
            0 <= i < r->Ok_0->Some_0.nets@.len() ==> (#[trigger] r->Ok_0->Some_0.nets@[i]) < n@,
{
    let request = match request_spice_model(symbol, copy_result(&found.library)) {
        Err(e) => return Err(e),
        Ok(None) => return Ok(None),
        Ok(Some(request)) => request,
    };
    let model = match &found.model {
        Err(t) => return Err(ComponentError::Failed { message: t.clone() }),
        Ok(model) => model,
    };
    let ghost signals = request@.signals;
    match finish_spice_model(request, model.definition.clone(), &model.terminals, connections) {
        Err(e) => Err(e),
        Ok(value) => {
            proof {
                lemma_terminals_below(
                    texts(model.terminals@),
                    signals,
                    handles_in(*connections),
                    n@,
                );
            }
            match &model.fault {
                Some(t) => Err(ComponentError::Failed { message: t.clone() }),
                None => Ok(Some(value)),
            }
        },
    }
}

/// Makes a component whose pins are connected.
fn complete(
    store: &mut Store,
    args: &ComponentArguments,
    found: &ComponentFindings,
    symbol_parts: &SortedMap<String, Vec<ManifestPart>>,
    module_has_dnp: bool,
    source_path: String,
    site: &Place,
    draft: ComponentDraft,
    footprint: String,
    connections: SmallMap<String, usize>,
) -> (r: (Result<ComponentValue, ComponentError>, Vec<Notice>))
    requires
        old(store).wf(),
        args.fits(old(store).items@.len() as int),
        symbol_parts.wf(),
        draft.symbol.wf(),
        distinct(handles_in(connections)),
        all_below(handles_in(connections), old(store).items@.len() as int),
    ensures
        final(store).wf(),
        final(store).next_net_id == old(store).next_net_id,
        extends(final(store).items@, old(store).items@),
        r.0 is Ok ==> r.0->Ok_0.wf(),
        forall|said: Seq<PinNoticeView>|
            completes(
                Call {
                    args: *args,
                    found: *found,
                    symbol_parts: symbol_parts.entries@,
                    module_has_dnp,
                    source_path: source_path@,
                    site: site@,
                },
                draft@,
                footprint@,
                handles_in(connections),
                old(store).items@,
                final(store).items@,
                #[trigger] outcome_of(r.0, said, r.1@),
            ),
{
    let ghost mid = store.items@;
    let (described, noted) = ComponentType::describe(
        store,
        &draft,
        args,
        symbol_parts,
        module_has_dnp,
    );
    let ghost later = store.items@;
    proof {
        assert(later.take(later.len() as int) =~= later);
    }
    let details = match described {
        Err(e) => return (Err(e), noted),
        Ok(details) => details,
    };
    let symbol_datasheet = match plan_symbol_datasheet(
        &draft.symbol,
        copy_result(&found.library),
    ) {
        Err(e) => return (Err(e), noted),
        Ok(plan) => {
            let answer = DatasheetFound {
                resolved: clone_opt(&found.symbol_datasheet.resolved),
                reference: clone_opt(&found.symbol_datasheet.reference),
            };
            finish_symbol_datasheet(plan, answer)
        },
    };
    let mut derived: Option<usize> = None;
    if args.spice_model.is_none() {
        proof {
            crate::lang::value::lemma_below_later(
                handles_in(connections),
                mid.len() as int,
                later.len() as int,
            );
        }
        match derive_model(
            &draft.symbol,
            found,
            &connections,
            Ghost(later.len() as int),
        ) {
            Err(e) => return (Err(e), noted),
            Ok(None) => {},
            Ok(Some(model)) => {
                let h = store.allocate(Item::SpiceModel(model));
                derived = Some(h);
                proof {
                    assert(store.items@.drop_last() =~= later);
                    assert(store.items@.take(later.len() as int) =~= later);
                    lemma_extends_transitive(store.items@, later, mid);
                }
            },
        }
    }
    let component_datasheet = match &details.component_datasheet {
        Some(s) => Some(refer_to(&found.references, s.clone())),
        None => None,
    };
    let component = ComponentType::finish(
        draft,
        details,
        footprint,
        connections,
        component_datasheet,
        symbol_datasheet,
        choose_spice_model(args.spice_model, derived),
        source_path,
        site.span,
    );
    (Ok(component), noted)
}

/// Nets that were made stay in a store that is added to.
proof fn lemma_nets_stay(
    later: Seq<Item>,
    mid: Seq<Item>,
    n: int,
    made: int,
    id: int,
    site: PlaceView,
)
    requires
        extends(later, mid),
        0 <= n,
        mid.len() == n + made,
        nets_made(mid, n, made, id, site),
    ensures
        nets_made(later, n, made, id, site),
{
    assert forall|i: int| 0 <= i < made implies (#[trigger] later[n + i] matches Item::Net(net)
        && net@ == open_net((id + i) as u64, site)) by {
        lemma_extends_item(later, mid, n + i);
        assert(mid[n + i] is Net);
    }
}

impl ComponentType {
    /// Makes a component of the arguments of `Component()`: reads them, finds the footprint, connects
    /// the pins, finds out what else is said about the component, and takes the simulation model that
    /// was given or that the symbol asks for. The first step that fails gives the error. The warnings
    /// about pins and the notes about old inputs come with the result.
    pub fn invoke(
        store: &mut Store,
        args: &ComponentArguments,
        found: &ComponentFindings,
        symbol_parts: &SortedMap<String, Vec<ManifestPart>>,
        module_has_dnp: bool,
        source_path: String,
        site: &Place,
    ) -> (r: (Result<ComponentValue, ComponentError>, Vec<PinNotice>, Vec<Notice>))
        requires
            old(store).wf(),
            args.fits(old(store).items@.len() as int),
            symbol_parts.wf(),
            begun(old(store).items@, *args, opt_text(found.name_error)) matches Ok(d)
                ==> old(store).next_net_id + d.symbol.pads.len() <= u64::MAX,
        ensures
            final(store).wf(),
            extends(final(store).items@, old(store).items@),
            r.0 is Ok ==> r.0->Ok_0.wf(),
            invoked(
                Call {
                    args: *args,
                    found: *found,
                    symbol_parts: symbol_parts.entries@,
                    module_has_dnp,
                    source_path: source_path@,
                    site: site@,
                },
                old(store).items@,
                old(store).next_net_id,
                final(store).items@,
                final(store).next_net_id,
                outcome_of(r.0, pin_notices(r.1@), r.2@),
            ),
    {
        let ghost before = store.items@;
        let ghost n = before.len() as int;
        let ghost id = store.next_net_id;
        let nothing_said: Vec<PinNotice> = Vec::new();
        let nothing_noted: Vec<Notice> = Vec::new();
        proof {
            assert(pin_notices(nothing_said@) =~= Seq::<PinNoticeView>::empty());
            assert(notices(nothing_noted@) =~= Seq::<NoticeView>::empty());
            assert(before.take(n) =~= before);
        }
        let draft = match ComponentType::begin(store, args, clone_opt(&found.name_error)) {
            Err(e) => return (Err(e), nothing_said, nothing_noted),
            Ok(draft) => draft,
        };
        let footprint = match find_footprint(&draft, found) {
            Err(e) => return (Err(e), nothing_said, nothing_noted),
            Ok(footprint) => footprint,
        };
        let (links, said) = ComponentType::connect(
            store,
            &draft,
            args.pins,
            &found.pin_types,
            site,
        );
        let ghost mid = store.items@;
        let ghost f = linked(
            before,
            draft@,
            before[args.pins as int]->Dict_0@,
            found.pin_types@,
            site@,
        ).0->Ok_0;
        proof {
            assert(mid.take(mid.len() as int) =~= mid);
        }
        let connections = match links {
            Err(e) => return (Err(e), said, nothing_noted),
            Ok(connections) => connections,
        };
        let (component, noted) = complete(
            store,
            args,
            found,
            symbol_parts,
            module_has_dnp,
            source_path,
            site,
            draft,
            footprint,
            connections,
        );
        proof {
            let after = store.items@;
            lemma_extends_transitive(after, mid, before);
            lemma_nets_stay(after, mid, n, f.made, id as int, site@);
        }
        (component, said, noted)
    }
}

} // verus!
