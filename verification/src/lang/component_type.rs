//! How a component is made.
//!
//! Paths that have to be resolved, files that have to exist and checks on names are the business of
//! the caller, who hands the answers in. The steps follow one another: `begin`, the footprint,
//! `connect`, `describe`, the symbol's datasheet and simulation model, `finish`. `invoke`, in
//! `component_call`, takes them all.

use starlark::collections::SmallMap;
use vstd::prelude::*;

use crate::diagnostic::{notices, Notice, NoticeView, Place, PlaceView, SourceSpan};
use crate::lang::pins::{all_bridged, all_nets, apply_explicit_jumper_connections, choose_symbol};
use crate::lang::pins::{chosen_symbol, connect_pins, connected, fill_missing_pins, filled};
use crate::lang::pins::{pin_notices, Filled, PinNotice, PinNoticeView, PinTypes};
use crate::lang::value::{all_below, extends, lemma_below_later, lemma_extends_item};
use crate::lang::value::{lemma_extends_transitive, text_of, DictKey, Item, SpiceModelValue, Store};
use crate::config::{part_views, ManifestPart, ManifestPartView};
use crate::lang::component::{alternatives_error, append_alternatives_property, argument_text};
use crate::lang::component::{chosen_datasheet, consolidate_bool_property, consolidated_keys};
use crate::lang::component::{flag_of, given_part, given_properties, known_alternatives};
use crate::lang::component::{legacy_notices, matching_manifest_parts, non_empty_string, or};
use crate::lang::component::{parse_component_properties, parse_optional_part, parts_for};
use crate::lang::component::{path_result, property_text, read_argument_text, read_property_text};
use crate::lang::component::{read_symbol_field, remove_consolidated_component_properties};
use crate::lang::component::{resolve_component_datasheet, resolve_component_sourcing, sourced};
use crate::lang::component::{sourced_text, symbol_field, unless_blank, usable};
use crate::lang::component::{usable_kicad_field_value, warn_legacy_component_inputs, without_keys};
use crate::lang::component::ComponentError;
use crate::lang::component_value::{spice_model_error, validate_spice_model_value, ComponentData};
use crate::lang::component_value::{ComponentDataView, ComponentValue, ComponentView};
use crate::lang::net::{lemma_put_below, open_net};
use crate::lang::part::{opt_part, part_list, PartValue, PartView};
use crate::lang::sim::{assign_terminals, assigned_signals, bind_model, bound_model, parse_sim_pins};
use crate::lang::sim::sim_pins;
use crate::lang::symbol::{jumper_groups, signals_of, SymbolValue, SymbolView};
use crate::map::{find, SortedMap};
use crate::small_map::{distinct, get_text, handles_in, lemma_place, lemma_put, put, put_handle};
use crate::small_map::{texts_in, under};
use crate::text::{begins, lowered, opt_str, opt_text, same_ignoring_case, starts_with, texts};
use crate::text::words;

verus! {

/// The arguments of `Component()`, as values of the store.
pub struct ComponentArguments {
    pub name: usize,
    pub footprint: Option<usize>,
    pub pin_defs: Option<usize>,
    pub pins: usize,
    pub prefix: Option<usize>,
    pub symbol: Option<usize>,
    pub mpn: Option<usize>,
    pub manufacturer: Option<usize>,
    pub part: Option<usize>,
    pub ctype: Option<usize>,
    pub properties: Option<usize>,
    pub spice_model: Option<usize>,
    pub dnp: Option<usize>,
    pub skip_bom: Option<usize>,
    pub skip_pos: Option<usize>,
    pub datasheet: Option<usize>,
    pub description: Option<usize>,
}

/// Whether an argument, where it is given, is a value of the store.
pub open spec fn below(h: Option<usize>, n: int) -> bool {
    h is Some ==> h->Some_0 < n
}

impl ComponentArguments {
    /// Whether every argument that is given is a value of the store.
    pub open spec fn fits(&self, n: int) -> bool {
        &&& self.name < n
        &&& below(self.footprint, n)
        &&& below(self.pin_defs, n)
        &&& self.pins < n
        &&& below(self.prefix, n)
        &&& below(self.symbol, n)
        &&& below(self.mpn, n)
        &&& below(self.manufacturer, n)
        &&& below(self.part, n)
        &&& below(self.ctype, n)
        &&& below(self.properties, n)
        &&& below(self.spice_model, n)
        &&& below(self.dnp, n)
        &&& below(self.skip_bom, n)
        &&& below(self.skip_pos, n)
        &&& below(self.datasheet, n)
        &&& below(self.description, n)
    }
}

/// A component of which the name and the symbol are known.
pub struct ComponentDraft {
    pub name: String,
    /// The footprint that was given.
    pub footprint: Option<String>,
    /// The prefix that was given.
    pub prefix: Option<String>,
    pub symbol: SymbolValue,
}

/// The contents of a draft.
pub struct DraftView {
    pub name: Seq<char>,
    pub footprint: Option<Seq<char>>,
    pub prefix: Option<Seq<char>>,
    pub symbol: SymbolView,
}

impl View for ComponentDraft {
    type V = DraftView;

    open spec fn view(&self) -> DraftView {
        DraftView {
            name: self.name@,
            footprint: opt_text(self.footprint),
            prefix: opt_text(self.prefix),
            symbol: self.symbol@,
        }
    }
}

/// The footprint that was given, or the error.
pub open spec fn given_footprint(items: Seq<Item>, h: Option<usize>) -> Result<
    Option<Seq<char>>,
    Seq<char>,
> {
    match h {
        None => Ok(None),
        Some(h) => match items[h as int] {
            Item::Nothing => Ok(None),
            Item::Text(s) => Ok(Some(s@)),
            _ => Err("`footprint` must be a string"@),
        },
    }
}

/// The draft of a component, or the first thing that is wrong with the arguments. `name_error` is
/// what is wrong with the name, where it is a string.
pub open spec fn begun(items: Seq<Item>, args: ComponentArguments, name_error: Option<Seq<char>>) -> Result<
    DraftView,
    Seq<char>,
> {
    match text_of(items[args.name as int]) {
        None => Err("`name` must be a string"@),
        Some(name) => if name_error is Some {
            Err(name_error->Some_0)
        } else {
            match given_footprint(items, args.footprint) {
                Err(e) => Err(e),
                Ok(footprint) => if !(items[args.pins as int] is Dict) {
                    Err("`pins` must be a dict mapping pin names to Net"@)
                } else {
                    match chosen_symbol(items, args.pin_defs, args.symbol) {
                        Err(e) => Err(e),
                        Ok(symbol) => Ok(
                            DraftView {
                                name,
                                footprint,
                                prefix: argument_text(items, args.prefix),
                                symbol,
                            },
                        ),
                    }
                },
            }
        },
    }
}

/// What becomes of the pins of a component: those that `v` connects, then those that the part connects
/// inside, then those that are to be left open; or the first thing that is wrong. The warnings come
/// with it.
pub open spec fn linked(
    items: Seq<Item>,
    draft: DraftView,
    v: Seq<(DictKey, usize)>,
    types: Seq<PinTypes>,
    site: PlaceView,
) -> (Result<Filled, Seq<char>>, Seq<PinNoticeView>) {
    let signals = signals_of(draft.symbol.pads);
    let (outcome, said) = connected(items, draft.name, signals, types, site, v);
    (
        match outcome {
            Err(t) => Err(t),
            Ok(c) => match all_bridged(
                items,
                draft.name,
                c,
                jumper_groups(draft.symbol.pads, draft.symbol.groups),
            ) {
                Err(t) => Err(t),
                Ok(b) => Ok(filled(b, signals, types, items.len() as int)),
            },
        },
        said,
    )
}

/// Whether open nets that were made at a place stand in the store from `from` on, numbered from `id`
/// on.
pub open spec fn nets_made(items: Seq<Item>, from: int, made: int, id: int, site: PlaceView) -> bool {
    forall|i: int|
        0 <= i < made ==> (#[trigger] items[from + i] matches Item::Net(net) && net@ == open_net(
            (id + i) as u64,
            site,
        ))
}

/// The error about signals that are not connected.
pub open spec fn unconnected(missing: Seq<Seq<char>>) -> Seq<char> {
    "Unconnected pin(s): "@ + crate::text::joined(crate::text::sorted(missing), ", "@)
}

/// What is found out about a component from its arguments, its properties and its symbol.
pub struct ComponentDetails {
    pub part: Option<PartValue>,
    pub bom_mpn: Option<String>,
    /// The component's own datasheet, as it was given.
    pub component_datasheet: Option<String>,
    pub description: Option<String>,
    pub dnp: bool,
    pub skip_bom: bool,
    pub skip_pos: bool,
    pub prefix: String,
    pub ctype: Option<String>,
    pub properties: SmallMap<String, usize>,
}

/// The contents of the details.
pub struct DetailsView {
    pub part: Option<PartView>,
    pub bom_mpn: Option<Seq<char>>,
    pub component_datasheet: Option<Seq<char>>,
    pub description: Option<Seq<char>>,
    pub dnp: bool,
    pub skip_bom: bool,
    pub skip_pos: bool,
    pub prefix: Seq<char>,
    pub ctype: Option<Seq<char>>,
    pub properties: Seq<(Seq<char>, usize)>,
}

impl View for ComponentDetails {
    type V = DetailsView;

    open spec fn view(&self) -> DetailsView {
        DetailsView {
            part: opt_part(self.part),
            bom_mpn: opt_text(self.bom_mpn),
            component_datasheet: opt_text(self.component_datasheet),
            description: opt_text(self.description),
            dnp: self.dnp,
            skip_bom: self.skip_bom,
            skip_pos: self.skip_pos,
            prefix: self.prefix@,
            ctype: opt_text(self.ctype),
            properties: handles_in(self.properties),
        }
    }
}

/// The usable text of an optional field.
pub open spec fn usable_opt(s: Option<Seq<char>>) -> Option<Seq<char>> {
    match s {
        Some(t) => usable(t),
        None => None,
    }
}

/// The component's own datasheet: the argument, else the property.
pub open spec fn own_datasheet(items: Seq<Item>, h: Option<usize>, p: Seq<(Seq<char>, usize)>) -> Option<
    Seq<char>,
> {
    or(
        usable_opt(argument_text(items, h)),
        usable_opt(property_text(items, p, "datasheet"@)),
    )
}

/// The component's description: the argument, else a property, else that of the symbol.
pub open spec fn described_as(
    items: Seq<Item>,
    h: Option<usize>,
    p: Seq<(Seq<char>, usize)>,
    symbol: SymbolView,
) -> Option<Seq<char>> {
    let of_symbol = match under(symbol.properties, "Description"@) {
        Some(s) => if s.len() == 0 {
            None
        } else {
            Some(s)
        },
        None => None,
    };
    or(
        argument_text(items, h),
        or(
            property_text(items, p, "description"@),
            or(
                property_text(items, p, "Description"@),
                or(
                    property_text(items, p, "value"@),
                    or(property_text(items, p, "Value"@), of_symbol),
                ),
            ),
        ),
    )
}

/// The old properties that say that a component is left off the board.
pub open spec fn dnp_keys() -> Seq<Seq<char>> {
    seq!["do_not_populate"@, "Do_not_populate"@, "DNP"@, "dnp"@]
}

/// The old properties that say that a component is left out of the bill of materials.
pub open spec fn skip_bom_keys() -> Seq<Seq<char>> {
    seq!["Exclude_from_bom"@, "exclude_from_bom"@]
}

/// The old properties that say that a component is left out of position files.
pub open spec fn skip_pos_keys() -> Seq<Seq<char>> {
    seq!["Exclude_from_pos_files"@, "exclude_from_pos_files"@]
}

/// What is found out about a component, `p` being all its properties. `part` and `bom_mpn` say where it
/// comes from.
pub open spec fn detailed(
    part: Option<PartView>,
    bom_mpn: Option<Seq<char>>,
    items: Seq<Item>,
    args: ComponentArguments,
    prefix: Option<Seq<char>>,
    symbol: SymbolView,
    p: Seq<(Seq<char>, usize)>,
    module_has_dnp: bool,
) -> DetailsView {
    DetailsView {
        part,
        bom_mpn,
        component_datasheet: own_datasheet(items, args.datasheet, p),
        description: described_as(items, args.description, p, symbol),
        dnp: module_has_dnp || flag_of(items, args.dnp, p, dnp_keys()) == Some(true),
        skip_bom: match flag_of(items, args.skip_bom, p, skip_bom_keys()) {
            Some(b) => b,
            None => !symbol.in_bom,
        },
        skip_pos: flag_of(items, args.skip_pos, p, skip_pos_keys()) == Some(true),
        prefix: match prefix {
            Some(s) => s,
            None => match under(symbol.properties, "Reference"@) {
                Some(s) => s,
                None => "U"@,
            },
        },
        ctype: or(
            argument_text(items, args.ctype),
            or(property_text(items, p, "type"@), property_text(items, p, "Type"@)),
        ),
        properties: without_keys(p, consolidated_keys()),
    }
}

/// The properties with the name of the symbol, which stands at `n`.
pub open spec fn with_symbol_name(p: Seq<(Seq<char>, usize)>, symbol: SymbolView, n: int) -> Seq<
    (Seq<char>, usize),
> {
    match symbol.name {
        Some(_) => put(p, "symbol_name"@, n as usize),
        None => p,
    }
}

/// The parts that the manifests declare for a symbol; none, where its library declares nothing.
pub open spec fn declared_parts(
    symbol_parts: Seq<(String, Vec<ManifestPart>)>,
    symbol: SymbolView,
) -> Option<Seq<ManifestPartView>> {
    match symbol.source_uri {
        None => None,
        Some(uri) => match find(symbol_parts, uri) {
            None => None,
            Some(v) => Some(parts_for(part_views(v@), symbol)),
        },
    }
}

/// Where a component comes from, `p` being its properties with the symbol's name.
pub open spec fn component_source(
    items: Seq<Item>,
    args: ComponentArguments,
    symbol: SymbolView,
    p: Seq<(Seq<char>, usize)>,
    declared: Option<Seq<ManifestPartView>>,
) -> (Option<PartView>, Seq<PartView>, Option<Seq<char>>) {
    let given = match given_part(items, args.part) {
        Ok(g) => g,
        Err(_) => None,
    };
    sourced(
        given,
        sourced_text(
            unless_blank(argument_text(items, args.mpn)),
            items,
            p,
            symbol,
            "mpn"@,
            "Mpn"@,
            "Manufacturer_Part_Number"@,
        ),
        sourced_text(
            unless_blank(argument_text(items, args.manufacturer)),
            items,
            p,
            symbol,
            "manufacturer"@,
            "Manufacturer"@,
            "Manufacturer_Name"@,
        ),
        declared,
    )
}

/// The first thing that is wrong with the simulation model or the part that were given.
pub open spec fn given_error(items: Seq<Item>, args: ComponentArguments) -> Option<Seq<char>> {
    let of_model = match args.spice_model {
        Some(h) => spice_model_error(items[h as int]),
        None => None,
    };
    match of_model {
        Some(e) => Some(e),
        None => match given_part(items, args.part) {
            Err(e) => Some(e),
            Ok(_) => None,
        },
    }
}

/// The first thing that is wrong with the arguments that describe a component, `p` being its
/// properties with the symbol's name and `alternatives` those to be added.
pub open spec fn details_error(
    items: Seq<Item>,
    args: ComponentArguments,
    p: Seq<(Seq<char>, usize)>,
    alternatives: Seq<PartView>,
) -> Option<Seq<char>> {
    match given_error(items, args) {
        Some(e) => Some(e),
        None => if alternatives.len() > 0 {
            alternatives_error(items, p)
        } else {
            None
        },
    }
}

/// Whether alternatives stand in the store from a place on, with a list of them and those that were
/// known at the end.
pub open spec fn alternatives_stored(
    items: Seq<Item>,
    from: int,
    known: Seq<usize>,
    alternatives: Seq<PartView>,
) -> bool {
    let m = alternatives.len();
    &&& items.len() == from + m + 1
    &&& forall|i: int|
        0 <= i < m ==> (#[trigger] items[from + i] matches Item::Part(q) && q@ == alternatives[i])
    &&& (items[from + m] matches Item::List(v) && v@ == known + Seq::new(
        m,
        |i: int| (from + i) as usize,
    ))
}

/// The properties of a component, with the name of its symbol.
pub open spec fn named_properties(items: Seq<Item>, draft: DraftView, args: ComponentArguments) -> Seq<
    (Seq<char>, usize),
> {
    match given_properties(items, args.properties) {
        Ok(p) => with_symbol_name(p, draft.symbol, items.len() as int),
        Err(_) => Seq::<(Seq<char>, usize)>::empty(),
    }
}

/// Where the values that describe a component end in the store, but for its alternatives.
pub open spec fn named_end(items: Seq<Item>, draft: DraftView) -> int {
    items.len() + (if draft.symbol.name is Some {
        1int
    } else {
        0
    })
}

/// The notes about old inputs.
pub open spec fn description_notices(
    items: Seq<Item>,
    draft: DraftView,
    args: ComponentArguments,
) -> Seq<NoticeView> {
    match given_properties(items, args.properties) {
        Err(_) => Seq::<NoticeView>::empty(),
        Ok(p) => legacy_notices(draft.name, args.mpn is Some, args.manufacturer is Some, p),
    }
}

/// What describing a component adds to the store: the name of the symbol, then the alternatives,
/// where there are any and nothing is wrong. `earlier` is the store before and `later` the one after.
pub open spec fn description_stored(
    earlier: Seq<Item>,
    later: Seq<Item>,
    draft: DraftView,
    args: ComponentArguments,
    symbol_parts: Seq<(String, Vec<ManifestPart>)>,
) -> bool {
    if given_properties(earlier, args.properties) is Err {
        later == earlier
    } else {
        let n = earlier.len() as int;
        let n1 = named_end(earlier, draft);
        let p = named_properties(earlier, draft, args);
        let declared = declared_parts(symbol_parts, draft.symbol);
        let alternatives = component_source(later, args, draft.symbol, p, declared).1;
        &&& later.len() >= n1
        &&& draft.symbol.name is Some ==> text_of(later[n]) == draft.symbol.name
        &&& if details_error(later, args, p, alternatives) is None && alternatives.len() > 0 {
            alternatives_stored(later, n1, known_alternatives(later, p), alternatives)
        } else {
            later.len() == n1
        }
    }
}

/// What the arguments, the properties, the symbol and the manifests say about a component, or the
/// first thing that is wrong. `earlier` is the store before and `later` the one after.
pub open spec fn description(
    earlier: Seq<Item>,
    later: Seq<Item>,
    draft: DraftView,
    args: ComponentArguments,
    symbol_parts: Seq<(String, Vec<ManifestPart>)>,
    module_has_dnp: bool,
) -> Result<DetailsView, Seq<char>> {
    match given_properties(earlier, args.properties) {
        Err(t) => Err(t),
        Ok(_) => {
            let p = named_properties(earlier, draft, args);
            let declared = declared_parts(symbol_parts, draft.symbol);
            let (part, alternatives, bom_mpn) = component_source(
                later,
                args,
                draft.symbol,
                p,
                declared,
            );
            match details_error(later, args, p, alternatives) {
                Some(t) => Err(t),
                None => Ok(
                    detailed(
                        part,
                        bom_mpn,
                        later,
                        args,
                        draft.prefix,
                        draft.symbol,
                        if alternatives.len() > 0 {
                            put(p, "alternatives"@, (later.len() - 1) as usize)
                        } else {
                            p
                        },
                        module_has_dnp,
                    ),
                ),
            }
        },
    }
}

/// Texts of properties are the same in a store that was added to.
proof fn lemma_later_texts(later: Seq<Item>, earlier: Seq<Item>, p: Seq<(Seq<char>, usize)>)
    requires
        extends(later, earlier),
        all_below(p, earlier.len() as int),
    ensures
        forall|k: Seq<char>|
            #[trigger] property_text(later, p, k) == property_text(earlier, p, k),
{
    assert forall|k: Seq<char>|
        #[trigger] property_text(later, p, k) == property_text(earlier, p, k) by {
        lemma_place(p, k);
        if under(p, k) is Some {
            lemma_extends_item(later, earlier, under(p, k)->Some_0 as int);
        }
    }
}

/// Where a component comes from is the same in a store that was added to.
proof fn lemma_later_source(
    later: Seq<Item>,
    earlier: Seq<Item>,
    args: ComponentArguments,
    symbol: SymbolView,
    p: Seq<(Seq<char>, usize)>,
    declared: Option<Seq<ManifestPartView>>,
)
    requires
        extends(later, earlier),
        all_below(p, earlier.len() as int),
        args.fits(earlier.len() as int),
    ensures
        component_source(later, args, symbol, p, declared) == component_source(
            earlier,
            args,
            symbol,
            p,
            declared,
        ),
{
    lemma_later_texts(later, earlier, p);
    if let Some(h) = args.part {
        lemma_extends_item(later, earlier, h as int);
    }
    if let Some(h) = args.mpn {
        lemma_extends_item(later, earlier, h as int);
    }
    if let Some(h) = args.manufacturer {
        lemma_extends_item(later, earlier, h as int);
    }
}

/// A table of names.
fn names_table(a: &str, b: &str) -> (r: Vec<String>)
    ensures
        texts(r@) == seq![a@, b@],
{
    let mut out: Vec<String> = Vec::new();
    out.push(a.to_owned());
    out.push(b.to_owned());
    proof {
        assert(texts(out@) =~= seq![a@, b@]);
    }
    out
}

/// The usable text of an optional field.
fn usable_text(s: Option<&str>) -> (r: Option<String>)
    ensures
        opt_text(r) == usable_opt(opt_str(s)),
{
    match s {
        Some(t) => usable_kicad_field_value(t),
        None => None,
    }
}

/// An owned copy of an optional text.
fn owned_text(s: Option<&str>) -> (r: Option<String>)
    ensures
        opt_text(r) == opt_str(s),
{
    match s {
        Some(t) => Some(t.to_owned()),
        None => None,
    }
}

/// The component's description.
fn read_description(
    store: &Store,
    h: Option<usize>,
    p: &SmallMap<String, usize>,
    symbol: &SymbolValue,
) -> (r: Option<String>)
    requires
        below(h, store.items@.len() as int),
        all_below(handles_in(*p), store.items@.len() as int),
    ensures
        opt_text(r) == described_as(store.items@, h, handles_in(*p), symbol@),
{
    let a = owned_text(read_argument_text(store, h));
    if a.is_some() {
        return a;
    }
    let b = owned_text(read_property_text(store, p, "description"));
    if b.is_some() {
        return b;
    }
    let c = owned_text(read_property_text(store, p, "Description"));
    if c.is_some() {
        return c;
    }
    let d = owned_text(read_property_text(store, p, "value"));
    if d.is_some() {
        return d;
    }
    let e = owned_text(read_property_text(store, p, "Value"));
    if e.is_some() {
        return e;
    }
    match get_text(&symbol.properties, "Description") {
        Some(s) => if s.unicode_len() == 0 {
            None
        } else {
            Some(s.to_owned())
        },
        None => None,
    }
}

/// The type of a component.
fn read_ctype(store: &Store, h: Option<usize>, p: &SmallMap<String, usize>) -> (r: Option<String>)
    requires
        below(h, store.items@.len() as int),
        all_below(handles_in(*p), store.items@.len() as int),
    ensures
        opt_text(r) == or(
            argument_text(store.items@, h),
            or(
                property_text(store.items@, handles_in(*p), "type"@),
                property_text(store.items@, handles_in(*p), "Type"@),
            ),
        ),
{
    let a = owned_text(read_argument_text(store, h));
    if a.is_some() {
        return a;
    }
    let b = owned_text(read_property_text(store, p, "type"));
    if b.is_some() {
        return b;
    }
    owned_text(read_property_text(store, p, "Type"))
}

/// The component's own datasheet.
fn read_datasheet(store: &Store, h: Option<usize>, p: &SmallMap<String, usize>) -> (r: Option<String>)
    requires
        below(h, store.items@.len() as int),
        all_below(handles_in(*p), store.items@.len() as int),
    ensures
        opt_text(r) == own_datasheet(store.items@, h, handles_in(*p)),
{
    let a = usable_text(read_argument_text(store, h));
    if a.is_some() {
        return a;
    }
    usable_text(read_property_text(store, p, "datasheet"))
}

/// The details of a component, but for its part.
fn read_details(
    store: &Store,
    args: &ComponentArguments,
    prefix: &Option<String>,
    symbol: &SymbolValue,
    properties: SmallMap<String, usize>,
    module_has_dnp: bool,
) -> (r: ComponentDetails)
    requires
        args.fits(store.items@.len() as int),
        distinct(handles_in(properties)),
        all_below(handles_in(properties), store.items@.len() as int),
    ensures
        r@ == detailed(
            None,
            None,
            store.items@,
            *args,
            opt_text(*prefix),
            symbol@,
            handles_in(properties),
            module_has_dnp,
        ),
        distinct(handles_in(r.properties)),
        all_below(handles_in(r.properties), store.items@.len() as int),
{
    let ghost p = handles_in(properties);
    let component_datasheet = read_datasheet(store, args.datasheet, &properties);
    let description = read_description(store, args.description, &properties, symbol);
    let mut keys = names_table("do_not_populate", "Do_not_populate");
    let ghost prior = texts(keys@);
    keys.push("DNP".to_owned());
    keys.push("dnp".to_owned());
    proof {
        assert(texts(keys@) =~= prior.push("DNP"@).push("dnp"@));
        assert(prior.push("DNP"@).push("dnp"@) =~= dnp_keys());
    }
    let dnp = if module_has_dnp {
        true
    } else {
        match consolidate_bool_property(store, args.dnp, &properties, &keys) {
            Some(b) => b,
            None => false,
        }
    };
    let bom_keys = names_table("Exclude_from_bom", "exclude_from_bom");
    let skip_bom = match consolidate_bool_property(store, args.skip_bom, &properties, &bom_keys) {
        Some(b) => b,
        None => !symbol.in_bom,
    };
    let pos_keys = names_table("Exclude_from_pos_files", "exclude_from_pos_files");
    let skip_pos = match consolidate_bool_property(store, args.skip_pos, &properties, &pos_keys) {
        Some(b) => b,
        None => false,
    };
    let prefix = match prefix {
        Some(s) => s.clone(),
        None => match get_text(&symbol.properties, "Reference") {
            Some(s) => s.to_owned(),
            None => "U".to_owned(),
        },
    };
    let ctype = read_ctype(store, args.ctype, &properties);
    let mut properties = properties;
    remove_consolidated_component_properties(&mut properties);
    ComponentDetails {
        part: None,
        bom_mpn: None,
        component_datasheet,
        description,
        dnp,
        skip_bom,
        skip_pos,
        prefix,
        ctype,
        properties,
    }
}

/// Finds where a component comes from.
fn find_source(
    store: &Store,
    args: &ComponentArguments,
    symbol: &SymbolValue,
    properties: &SmallMap<String, usize>,
    symbol_parts: &SortedMap<String, Vec<ManifestPart>>,
) -> (r: Result<(Option<PartValue>, Vec<PartValue>, Option<String>), ComponentError>)
    requires
        args.fits(store.items@.len() as int),
        all_below(handles_in(*properties), store.items@.len() as int),
        symbol_parts.wf(),
    ensures
        match (r, given_error(store.items@, *args)) {
            (Err(e), Some(t)) => e.text() == t,
            (Ok(found), None) => {
                &&& (opt_part(found.0), part_list(found.1@), opt_text(found.2)) == component_source(
                    store.items@,
                    *args,
                    symbol@,
                    handles_in(*properties),
                    declared_parts(symbol_parts.entries@, symbol@),
                )
            },
            _ => false,
        },
{
    if let Some(h) = args.spice_model {
        if let Err(e) = validate_spice_model_value(store, h) {
            return Err(e);
        }
    }
    let given = match parse_optional_part(store, args.part) {
        Ok(p) => p,
        Err(e) => return Err(e),
    };
    let mpn = non_empty_string(read_argument_text(store, args.mpn));
    let manufacturer = non_empty_string(read_argument_text(store, args.manufacturer));
    let declared: Option<Vec<ManifestPart>> = match &symbol.source_uri {
        None => None,
        Some(uri) => match symbol_parts.get(uri) {
            None => None,
            Some(v) => Some(matching_manifest_parts(v, symbol)),
        },
    };
    Ok(resolve_component_sourcing(
        given.as_ref(),
        mpn,
        manufacturer,
        store,
        properties,
        symbol,
        declared.as_ref(),
    ))
}

/// Where the datasheet of a symbol is looked for.
pub enum DatasheetPlan {
    /// The symbol names none.
    Nothing,
    /// It is a link.
    Link(String),
    /// It is a path, to be resolved from the symbol's library, which is a file.
    Path { path: String, library: String },
}

/// The contents of a plan.
pub enum DatasheetView {
    Nothing,
    Link(Seq<char>),
    Path(Seq<char>, Seq<char>),
}

impl View for DatasheetPlan {
    type V = DatasheetView;

    open spec fn view(&self) -> DatasheetView {
        match *self {
            DatasheetPlan::Nothing => DatasheetView::Nothing,
            DatasheetPlan::Link(s) => DatasheetView::Link(s@),
            DatasheetPlan::Path { path, library } => DatasheetView::Path(path@, library@),
        }
    }
}

/// Where the datasheet of a symbol is looked for, or the error. `source` is what the symbol's library
/// resolved to.
pub open spec fn planned_datasheet(symbol: SymbolView, source: Result<Seq<char>, Seq<char>>) -> Result<
    DatasheetView,
    Seq<char>,
> {
    match symbol_field(symbol, "Datasheet"@) {
        None => Ok(DatasheetView::Nothing),
        Some(s) => if begins(s, "http://"@) || begins(s, "https://"@) || begins(s, "package://"@) {
            Ok(DatasheetView::Link(s))
        } else {
            match symbol.source_uri {
                None => Err(
                    "`symbol` datasheet path can only be inferred when the symbol is loaded from a file"@,
                ),
                Some(uri) => match source {
                    Err(e) => Err("Failed to resolve symbol library '"@ + uri + "': "@ + e),
                    Ok(library) => Ok(DatasheetView::Path(s, library)),
                },
            }
        },
    }
}

/// Plans where the datasheet of a symbol is looked for.
pub fn plan_symbol_datasheet(symbol: &SymbolValue, source: Result<String, String>) -> (r: Result<
    DatasheetPlan,
    ComponentError,
>)
    ensures
        match (r, planned_datasheet(symbol@, path_result(source))) {
            (Ok(p), Ok(q)) => p@ == q,
            (Err(e), Err(t)) => e.text() == t,
            _ => false,
        },
{
    let s: String = match read_symbol_field(symbol, "Datasheet") {
        Some(s) => s,
        None => return Ok(DatasheetPlan::Nothing),
    };
    if starts_with(s.as_str(), "http://") || starts_with(s.as_str(), "https://") || starts_with(
        s.as_str(),
        "package://",
    ) {
        return Ok(DatasheetPlan::Link(s));
    }
    match &symbol.source_uri {
        None => Err(
            ComponentError::Failed {
                message:
                    "`symbol` datasheet path can only be inferred when the symbol is loaded from a file".to_owned(),
            },
        ),
        Some(uri) => match source {
            Err(e) => {
                let mut message = "Failed to resolve symbol library '".to_owned();
                message.append(uri.as_str());
                message.append("': ");
                message.append(e.as_str());
                Err(ComponentError::Failed { message })
            },
            Ok(library) => Ok(DatasheetPlan::Path { path: s, library }),
        },
    }
}

/// What was found of a planned datasheet: the file, where the path resolved, and its package
/// reference, where a package holds it.
pub struct DatasheetFound {
    pub resolved: Option<String>,
    pub reference: Option<String>,
}

/// The datasheet of a symbol.
pub open spec fn found_datasheet(
    plan: DatasheetView,
    resolved: Option<Seq<char>>,
    reference: Option<Seq<char>>,
) -> Option<Seq<char>> {
    match plan {
        DatasheetView::Nothing => None,
        DatasheetView::Link(s) => Some(s),
        DatasheetView::Path(_, _) => match resolved {
            None => None,
            Some(file) => Some(
                match reference {
                    Some(uri) => uri,
                    None => file,
                },
            ),
        },
    }
}

/// Takes what was found of a planned datasheet. A path that does not resolve gives none.
pub fn finish_symbol_datasheet(plan: DatasheetPlan, found: DatasheetFound) -> (r: Option<String>)
    ensures
        opt_text(r) == found_datasheet(
            plan@,
            opt_text(found.resolved),
            opt_text(found.reference),
        ),
{
    match plan {
        DatasheetPlan::Nothing => None,
        DatasheetPlan::Link(s) => Some(s),
        DatasheetPlan::Path { path: _, library: _ } => match found.resolved {
            None => None,
            Some(file) => match found.reference {
                Some(uri) => Some(uri),
                None => Some(file),
            },
        },
    }
}

/// The simulation model that a symbol asks for.
pub struct SpiceRequest {
    /// The file of the symbol's library.
    pub source: String,
    /// The path of the model's library.
    pub library: String,
    pub name: String,
    /// The signal of each terminal.
    pub signals: SmallMap<String, String>,
    pub params: String,
}

/// The contents of a request.
pub struct SpiceRequestView {
    pub source: Seq<char>,
    pub library: Seq<char>,
    pub name: Seq<char>,
    pub signals: Seq<(Seq<char>, Seq<char>)>,
    pub params: Seq<char>,
}

impl View for SpiceRequest {
    type V = SpiceRequestView;

    open spec fn view(&self) -> SpiceRequestView {
        SpiceRequestView {
            source: self.source@,
            library: self.library@,
            name: self.name@,
            signals: texts_in(self.signals),
            params: self.params@,
        }
    }
}

/// The contents of an optional request.
pub open spec fn opt_request(o: Option<SpiceRequest>) -> Option<SpiceRequestView> {
    match o {
        Some(r) => Some(r@),
        None => None,
    }
}

/// The simulation model that a symbol asks for, or the error. Only a subcircuit of which the library,
/// the name and the pins are known is asked for. `source` is what the symbol's library resolved to.
pub open spec fn requested_model(symbol: SymbolView, source: Result<Seq<char>, Seq<char>>) -> Result<
    Option<SpiceRequestView>,
    Seq<char>,
> {
    match (
        symbol_field(symbol, "Sim.Device"@),
        symbol_field(symbol, "Sim.Library"@),
        symbol_field(symbol, "Sim.Name"@),
        symbol_field(symbol, "Sim.Pins"@),
    ) {
        (Some(device), Some(library), Some(name), Some(pins)) => if lowered(device) != lowered(
            "SUBCKT"@,
        ) {
            Ok(None)
        } else {
            match symbol.source_uri {
                None => Err(
                    "Symbol-derived spice_model requires `symbol` to be loaded from a file"@,
                ),
                Some(uri) => match source {
                    Err(e) => Err("Failed to resolve symbol library '"@ + uri + "': "@ + e),
                    Ok(file) => match sim_pins(words(pins)) {
                        Err(e) => Err(e),
                        Ok(mappings) => match assigned_signals(mappings, symbol.pads) {
                            Err(e) => Err(e),
                            Ok(signals) => Ok(
                                Some(
                                    SpiceRequestView {
                                        source: file,
                                        library,
                                        name,
                                        signals,
                                        params: match symbol_field(symbol, "Sim.Params"@) {
                                            Some(p) => p,
                                            None => Seq::<char>::empty(),
                                        },
                                    },
                                ),
                            ),
                        },
                    },
                },
            }
        },
        _ => Ok(None),
    }
}

/// Finds the simulation model that a symbol asks for.
pub fn request_spice_model(symbol: &SymbolValue, source: Result<String, String>) -> (r: Result<
    Option<SpiceRequest>,
    ComponentError,
>)
    ensures
        match (r, requested_model(symbol@, path_result(source))) {
            (Ok(p), Ok(q)) => opt_request(p) == q,
            (Err(e), Err(t)) => e.text() == t,
            _ => false,
        },
{
    let device = read_symbol_field(symbol, "Sim.Device");
    let library = read_symbol_field(symbol, "Sim.Library");
    let name = read_symbol_field(symbol, "Sim.Name");
    let pins = read_symbol_field(symbol, "Sim.Pins");
    match (device, library, name, pins) {
        (Some(device), Some(library), Some(name), Some(pins)) => {
            if !same_ignoring_case(device.as_str(), "SUBCKT") {
                return Ok(None);
            }
            let uri: &String = match &symbol.source_uri {
                Some(uri) => uri,
                None => {
                    return Err(
                        ComponentError::Failed {
                            message:
                                "Symbol-derived spice_model requires `symbol` to be loaded from a file".to_owned(),
                        },
                    );
                },
            };
            let file: String = match source {
                Ok(file) => file,
                Err(e) => {
                    let mut message = "Failed to resolve symbol library '".to_owned();
                    message.append(uri.as_str());
                    message.append("': ");
                    message.append(e.as_str());
                    return Err(ComponentError::Failed { message });
                },
            };
            let mappings = match parse_sim_pins(pins.as_str()) {
                Ok(m) => m,
                Err(e) => return Err(ComponentError::Failed { message: e.message }),
            };
            let signals = match assign_terminals(&mappings, &symbol.pad_to_signal) {
                Ok(s) => s,
                Err(e) => return Err(ComponentError::Failed { message: e.message }),
            };
            let params = match read_symbol_field(symbol, "Sim.Params") {
                Some(p) => p,
                None => String::new(),
            };
            Ok(Some(SpiceRequest { source: file, library, name, signals, params }))
        },
        _ => Ok(None),
    }
}

/// Makes the simulation model that was asked for, of the definition and the terminals that were
/// found.
pub fn finish_spice_model(
    request: SpiceRequest,
    definition: String,
    terminals: &Vec<String>,
    connections: &SmallMap<String, usize>,
) -> (r: Result<SpiceModelValue, ComponentError>)
    ensures
        match (
            r,
            bound_model(
                texts(terminals@),
                request@.signals,
                handles_in(*connections),
                request@.params,
            ),
        ) {
            (Ok(m), Ok((nets, args))) => m.definition@ == definition@ && m.name@ == request@.name
                && m.nets@ == nets && texts_in(m.args) == args,
            (Err(e), Err(t)) => e.text() == t,
            _ => false,
        },
{
    match bind_model(terminals, &request.signals, connections, request.params.as_str()) {
        Ok((nets, args)) => Ok(SpiceModelValue { definition, name: request.name, nets, args }),
        Err(e) => Err(ComponentError::Failed { message: e.message }),
    }
}

/// The simulation model of a component: the one that was given, else the one that its symbol asks for.
pub fn choose_spice_model(explicit: Option<usize>, derived: Option<usize>) -> (r: Option<usize>)
    ensures
        r == (if explicit is Some {
            explicit
        } else {
            derived
        }),
{
    if explicit.is_some() {
        explicit
    } else {
        derived
    }
}

/// `Component()`.
pub struct ComponentType;

impl ComponentType {
    /// Reads the arguments up to the symbol. `name_error` is what is wrong with the name, where it is
    /// a string.
    pub fn begin(store: &Store, args: &ComponentArguments, name_error: Option<String>) -> (r: Result<
        ComponentDraft,
        ComponentError,
    >)
        requires
            store.wf(),
            args.fits(store.items@.len() as int),
        ensures
            match (r, begun(store.items@, *args, opt_text(name_error))) {
                (Ok(d), Ok(v)) => d@ == v && d.symbol.wf(),
                (Err(e), Err(t)) => e.text() == t,
                _ => false,
            },
    {
        let name: String = match store.text(args.name) {
            Some(s) => s.to_owned(),
            None => return Err(ComponentError::NameNotString),
        };
        if let Some(message) = name_error {
            return Err(ComponentError::Failed { message });
        }
        let footprint: Option<String> = match args.footprint {
            None => None,
            Some(h) => match &store.items[h] {
                Item::Nothing => None,
                Item::Text(s) => Some(s.clone()),
                _ => return Err(ComponentError::FootprintNotString),
            },
        };
        let is_dict = match &store.items[args.pins] {
            Item::Dict(_) => true,
            _ => false,
        };
        if !is_dict {
            return Err(ComponentError::PinsNotDict);
        }
        let prefix = owned_text(read_argument_text(store, args.prefix));
        match choose_symbol(store, args.pin_defs, args.symbol) {
            Ok(symbol) => Ok(ComponentDraft { name, footprint, prefix, symbol }),
            Err(e) => Err(e),
        }
    }

    /// Connects the pins: as the arguments say, then those that the part connects inside, then those
    /// that are to be left open.
    pub fn connect(
        store: &mut Store,
        draft: &ComponentDraft,
        pins: usize,
        pin_types: &Vec<PinTypes>,
        site: &Place,
    ) -> (r: (Result<SmallMap<String, usize>, ComponentError>, Vec<PinNotice>))
        requires
            old(store).wf(),
            pins < old(store).items@.len(),
            old(store).items@[pins as int] is Dict,
            old(store).next_net_id + draft@.symbol.pads.len() <= u64::MAX,
        ensures
            final(store).wf(),
            extends(final(store).items@, old(store).items@),
            ({
                let items = old(store).items@;
                let n = items.len();
                let (outcome, said) = linked(
                    items,
                    draft@,
                    items[pins as int]->Dict_0@,
                    pin_types@,
                    site@,
                );
                &&& pin_notices(r.1@) == said
                &&& match outcome {
                    Err(t) => r.0 is Err && r.0->Err_0.text() == t && final(store).items@ == items
                        && final(store).next_net_id == old(store).next_net_id,
                    Ok(f) => {
                        &&& final(store).items@.len() == n + f.made
                        &&& final(store).next_net_id == old(store).next_net_id + f.made
                        &&& nets_made(
                            final(store).items@,
                            n as int,
                            f.made,
                            old(store).next_net_id as int,
                            site@,
                        )
                        &&& match r.0 {
                            Ok(m) => f.missing.len() == 0 && handles_in(m) == f.connections
                                && distinct(f.connections) && all_below(
                                f.connections,
                                final(store).items@.len() as int,
                            ) && all_nets(final(store).items@, f.connections),
                            Err(e) => f.missing.len() > 0 && e.text() == unconnected(f.missing),
                        }
                    },
                }
            }),
    {
        proof {
            assert(store.items@.take(store.items@.len() as int) =~= store.items@);
        }
        let name = draft.name.as_str();
        let (outcome, said) = connect_pins(store, name, &draft.symbol, pin_types, pins, site);
        let given = match outcome {
            Ok(m) => m,
            Err(e) => return (Err(e), said),
        };
        let bridged = match apply_explicit_jumper_connections(store, name, &draft.symbol, given) {
            Ok(m) => m,
            Err(e) => return (Err(e), said),
        };
        let r = fill_missing_pins(store, &draft.symbol, pin_types, bridged, site);
        (r, said)
    }

    /// Finds out what the arguments, the properties, the symbol and the manifests say about the
    /// component. The notes about old inputs come with it.
    #[verifier::rlimit(60)]
    pub fn describe(
        store: &mut Store,
        draft: &ComponentDraft,
        args: &ComponentArguments,
        symbol_parts: &SortedMap<String, Vec<ManifestPart>>,
        module_has_dnp: bool,
    ) -> (r: (Result<ComponentDetails, ComponentError>, Vec<Notice>))
        requires
            old(store).wf(),
            args.fits(old(store).items@.len() as int),
            symbol_parts.wf(),
        ensures
            final(store).wf(),
            final(store).next_net_id == old(store).next_net_id,
            extends(final(store).items@, old(store).items@),
            notices(r.1@) == description_notices(old(store).items@, draft@, *args),
            description_stored(
                old(store).items@,
                final(store).items@,
                draft@,
                *args,
                symbol_parts.entries@,
            ),
            match (
                r.0,
                description(
                    old(store).items@,
                    final(store).items@,
                    draft@,
                    *args,
                    symbol_parts.entries@,
                    module_has_dnp,
                ),
            ) {
                (Ok(d), Ok(v)) => d@ == v && distinct(v.properties) && all_below(
                    v.properties,
                    final(store).items@.len() as int,
                ),
                (Err(e), Err(t)) => e.text() == t,
                _ => false,
            },
    {
        let ghost items0 = store.items@;
        let ghost n = items0.len();
        let symbol = &draft.symbol;
        proof {
            assert(items0.take(n as int) =~= items0);
        }
        let mut properties = match parse_component_properties(store, args.properties) {
            Ok(p) => p,
            Err(e) => return (Err(e), Vec::new()),
        };
        let ghost p0 = handles_in(properties);
        let said = warn_legacy_component_inputs(
            draft.name.as_str(),
            args.mpn.is_some(),
            args.manufacturer.is_some(),
            &properties,
        );
        if let Some(name) = &symbol.name {
            let h = store.alloc_text(name.as_str());
            proof {
                lemma_put(p0, "symbol_name"@, h);
                lemma_below_later(p0, n as int, h + 1);
                lemma_put_below(p0, "symbol_name"@, h, h + 1);
            }
            put_handle(&mut properties, "symbol_name".to_owned(), h);
        }
        let ghost p1 = handles_in(properties);
        let ghost items1 = store.items@;
        let ghost n1 = items1.len();
        proof {
            assert(p1 == with_symbol_name(p0, symbol@, n as int));
            assert(items1.take(n1 as int) =~= items1);
            assert(items1.take(n as int) =~= items0);
        }
        let (part, alternatives, bom_mpn) = match find_source(
            store,
            args,
            symbol,
            &properties,
            symbol_parts,
        ) {
            Ok(found) => found,
            Err(e) => return (Err(e), said),
        };
        let ghost declared_view = declared_parts(symbol_parts.entries@, symbol@);
        let ghost source = component_source(items1, *args, symbol@, p1, declared_view);
        let ghost alts = part_list(alternatives@);
        proof {
            assert(alts == source.1);
            assert(alts.len() == alternatives@.len());
        }
        let ghost given_alternatives = alternatives@;
        let outcome = append_alternatives_property(store, &mut properties, alternatives);
        let ghost items2 = store.items@;
        proof {
            lemma_extends_transitive(items2, items1, items0);
            lemma_later_source(items2, items1, *args, symbol@, p1, declared_view);
            lemma_later_errors(items2, items1, *args, p1, alts);
        }
        if let Err(e) = outcome {
            return (Err(e), said);
        }
        let ghost p2 = handles_in(properties);
        proof {
            if alts.len() > 0 {
                assert(items2.len() == n1 + alts.len() + 1);
                assert forall|i: int| 0 <= i < alts.len() implies (
                #[trigger] items2[n1 + i] matches Item::Part(q) && q@ == alts[i]) by {
                    assert(alts[i] == given_alternatives[i]@);
                }
                assert(alternatives_stored(items2, n1 as int, known_alternatives(items1, p1), alts));
            }
        }
        let details = read_details(
            store,
            args,
            &draft.prefix,
            symbol,
            properties,
            module_has_dnp,
        );
        (Ok(ComponentDetails { part, bom_mpn, ..details }), said)
    }

    /// Makes the component. `footprint` and `component_datasheet` are as the paths resolved.
    pub fn finish(
        draft: ComponentDraft,
        details: ComponentDetails,
        footprint: String,
        connections: SmallMap<String, usize>,
        component_datasheet: Option<String>,
        symbol_datasheet: Option<String>,
        spice_model: Option<usize>,
        source_path: String,
        declaration_span: Option<SourceSpan>,
    ) -> (r: ComponentValue)
        requires
            draft.symbol.wf(),
            distinct(handles_in(connections)),
            distinct(handles_in(details.properties)),
        ensures
            r.wf(),
            r@ == (ComponentView {
                name: draft@.name,
                ctype: details@.ctype,
                footprint: footprint@,
                prefix: details@.prefix,
                connections: handles_in(connections),
                data: ComponentDataView {
                    part: opt_part(details.part),
                    bom_mpn: opt_text(details.bom_mpn),
                    spice_model,
                    dnp: details@.dnp,
                    skip_bom: details@.skip_bom,
                    skip_pos: details@.skip_pos,
                    datasheet: chosen_datasheet(
                        opt_part(details.part),
                        opt_text(component_datasheet),
                        opt_text(symbol_datasheet),
                    ),
                    component_datasheet: opt_text(component_datasheet),
                    symbol_datasheet: opt_text(symbol_datasheet),
                    properties: details@.properties,
                },
                source_path: source_path@,
                declaration_span,
                symbol: draft@.symbol,
                description: details@.description,
            }),
    {
        let datasheet = resolve_component_datasheet(
            details.part.as_ref(),
            &component_datasheet,
            &symbol_datasheet,
        );
        ComponentValue {
            name: draft.name,
            ctype: details.ctype,
            footprint,
            prefix: details.prefix,
            connections,
            data: ComponentData {
                part: details.part,
                bom_mpn: details.bom_mpn,
                spice_model,
                dnp: details.dnp,
                skip_bom: details.skip_bom,
                skip_pos: details.skip_pos,
                datasheet,
                component_datasheet,
                symbol_datasheet,
                properties: details.properties,
            },
            source_path,
            declaration_span,
            symbol: draft.symbol,
            description: details.description,
        }
    }
}

proof fn lemma_later_errors(
    later: Seq<Item>,
    earlier: Seq<Item>,
    args: ComponentArguments,
    p: Seq<(Seq<char>, usize)>,
    alternatives: Seq<PartView>,
)
    requires
        extends(later, earlier),
        crate::lang::value::well_founded(earlier),
        all_below(p, earlier.len() as int),
        args.fits(earlier.len() as int),
    ensures
        details_error(later, args, p, alternatives) == details_error(
            earlier,
            args,
            p,
            alternatives,
        ),
        known_alternatives(later, p) == known_alternatives(earlier, p),
{
    if let Some(h) = args.part {
        lemma_extends_item(later, earlier, h as int);
    }
    if let Some(h) = args.spice_model {
        lemma_extends_item(later, earlier, h as int);
    }
    lemma_place(p, "alternatives"@);
    if let Some(h) = under(p, "alternatives"@) {
        lemma_extends_item(later, earlier, h as int);
        assert(crate::lang::value::refers_below(earlier[h as int], h as int));
        if let Item::List(v) = earlier[h as int] {
            assert forall|i: int| 0 <= i < v@.len() implies later[(#[trigger] v@[i]) as int]
                == earlier[v@[i] as int] by {
                lemma_extends_item(later, earlier, v@[i] as int);
            }
            assert(crate::lang::component::all_parts(later, v@)
                == crate::lang::component::all_parts(earlier, v@)) by {
                if crate::lang::component::all_parts(later, v@) {
                    assert forall|i: int| 0 <= i < v@.len() implies earlier[(
                    #[trigger] v@[i]) as int] is Part by {
                        assert(later[v@[i] as int] is Part);
                    }
                }
                if crate::lang::component::all_parts(earlier, v@) {
                    assert forall|i: int| 0 <= i < v@.len() implies later[(
                    #[trigger] v@[i]) as int] is Part by {
                        assert(earlier[v@[i] as int] is Part);
                    }
                }
            }
        }
    }
}

} // verus!
