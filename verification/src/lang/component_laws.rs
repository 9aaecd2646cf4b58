//! What holds of every component that `Component()` makes.

use vstd::prelude::*;

use crate::config::ManifestPartView;
use crate::lang::component::{chosen_datasheet, dict_entries, first_truth, footprint_stem};
use crate::lang::component::{given_properties, parts_for, property_text};
use crate::lang::pins::{all_bridged, connected, filled, group_nets, law_every_signal_is_connected};
use crate::lang::pins::{law_jumpers_keep_connections, left_open, lemma_bridged, lemma_filled};
use crate::lang::pins::PinTypes;
use crate::lang::symbol::{jumper_groups, signals_of, SymbolView};
use crate::text::{is_blank, is_space, joined, lemma_first_at, opt_text, trimmed};
use crate::map::find;
use crate::path::{components, is_plain_component, law_join_appends_components};
use crate::path::{law_joined_components, parent_of, path_joined};
use crate::diagnostic::PlaceView;
use crate::lang::component_call::{component_footprint, derived_model, invoked, referenced, Call};
use crate::lang::component_call::Outcome;
use crate::lang::component_type::{begun, component_source, declared_parts, description, detailed};
use crate::lang::component_type::{dnp_keys, linked, named_properties, skip_bom_keys, skip_pos_keys};
use crate::lang::component_type::DraftView;
use crate::lang::net::lemma_put_below;
use crate::lang::value::{all_below, extends, lemma_extends_item, refers_below, well_founded};
use crate::lang::value::{DictKey, Item};
use crate::small_map::{distinct, lemma_place, lemma_put, put, under};

verus! {

/// Whether a call on a store that is in order made a component.
pub open spec fn makes_component(
    call: Call,
    before: Seq<Item>,
    id: u64,
    after: Seq<Item>,
    next: u64,
    o: Outcome,
) -> bool {
    &&& invoked(call, before, id, after, next, o)
    &&& o.component is Ok
    &&& well_founded(before)
    &&& call.args.fits(before.len() as int)
    &&& extends(after, before)
}

/// Properties of a dictionary are values that the dictionary refers to.
proof fn lemma_dict_entries(v: Seq<(DictKey, usize)>, n: int)
    requires
        forall|i: int| 0 <= i < v.len() ==> (#[trigger] v[i]).1 < n,
    ensures
        distinct(dict_entries(v)),
        all_below(dict_entries(v), n),
    decreases v.len(),
{
    if v.len() > 0 {
        let d = v.drop_last();
        assert forall|i: int| 0 <= i < d.len() implies (#[trigger] d[i]).1 < n by {
            assert(d[i] == v[i]);
        }
        lemma_dict_entries(d, n);
        assert(v[v.len() - 1] == v.last());
        lemma_put(dict_entries(d), v.last().0.text@, v.last().1);
        lemma_put_below(dict_entries(d), v.last().0.text@, v.last().1, n);
    }
}

/// What a component was made of.
ghost struct Making {
    draft: DraftView,
    /// The store when the component was described.
    later: Seq<Item>,
    /// All properties.
    all: Seq<(Seq<char>, usize)>,
}

/// A component that was made was described by its arguments and its properties, which are those that
/// were given and two of its own.
proof fn lemma_made(
    call: Call,
    before: Seq<Item>,
    id: u64,
    after: Seq<Item>,
    next: u64,
    o: Outcome,
) -> (r: Making)
    requires
        makes_component(call, before, id, after, next, o),
    ensures
        begun(before, call.args, opt_text(call.found.name_error)) == Ok::<DraftView, Seq<char>>(
            r.draft,
        ),
        forall|h: int| 0 <= h < before.len() ==> #[trigger] r.later[h] == before[h],
        given_properties(before, call.args.properties) is Ok,
        distinct(given_properties(before, call.args.properties)->Ok_0),
        all_below(given_properties(before, call.args.properties)->Ok_0, before.len() as int),
        forall|q: Seq<char>|
            q != "symbol_name"@ && q != "alternatives"@ ==> #[trigger] under(r.all, q) == under(
                given_properties(before, call.args.properties)->Ok_0,
                q,
            ),
        ({
            let c = o.component->Ok_0;
            let d = detailed(
                c.data.part,
                c.data.bom_mpn,
                r.later,
                call.args,
                r.draft.prefix,
                r.draft.symbol,
                r.all,
                call.module_has_dnp,
            );
            &&& c.data.dnp == d.dnp
            &&& c.data.skip_bom == d.skip_bom
            &&& c.data.skip_pos == d.skip_pos
            &&& c.prefix == d.prefix
            &&& c.ctype == d.ctype
            &&& c.description == d.description
            &&& c.data.properties == d.properties
            &&& c.data.component_datasheet == match d.component_datasheet {
                Some(s) => Some(referenced(call.found.references.entries@, s)),
                None => None,
            }
            &&& c.symbol == r.draft.symbol
            &&& c.name == r.draft.name
        }),
{
    let args = call.args;
    let draft = begun(before, args, opt_text(call.found.name_error))->Ok_0;
    let v = before[args.pins as int]->Dict_0@;
    let f = linked(before, draft, v, call.found.pin_types@, call.site).0->Ok_0;
    let mid = after.take(before.len() + f.made);
    let later = lemma_stages(call, before, id, after, next, o);
    assert(mid.len() >= before.len());
    assert forall|h: int| 0 <= h < before.len() implies #[trigger] mid[h] == before[h] by {
        lemma_extends_item(after, before, h);
    }
    let p = given_properties(before, args.properties);
    assert(given_properties(mid, args.properties) == p);
    if let Some(h) = args.properties {
        assert(refers_below(before[h as int], h as int));
        if let Item::Dict(v) = before[h as int] {
            lemma_dict_entries(v@, before.len() as int);
        }
    }
    let named = named_properties(mid, draft, args);
    lemma_put(p->Ok_0, "symbol_name"@, mid.len() as usize);
    lemma_put(named, "alternatives"@, (later.len() - 1) as usize);
    let declared = declared_parts(call.symbol_parts, draft.symbol);
    let source = component_source(later, args, draft.symbol, named, declared);
    let all = if source.1.len() > 0 {
        put(named, "alternatives"@, (later.len() - 1) as usize)
    } else {
        named
    };
    Making { draft, later, all }
}

/// The nets that are made for open pins are some.
proof fn lemma_made_some(c: Seq<(Seq<char>, usize)>, signals: Seq<Seq<char>>, types: Seq<PinTypes>, n: int)
    ensures
        filled(c, signals, types, n).made >= 0,
    decreases signals.len(),
{
    if signals.len() > 0 {
        lemma_made_some(c, signals.drop_last(), types, n);
    }
}

/// A call that makes a component goes through all steps; the result is the store in which the component
/// was described.
proof fn lemma_stages(
    call: Call,
    before: Seq<Item>,
    id: u64,
    after: Seq<Item>,
    next: u64,
    o: Outcome,
) -> (later: Seq<Item>)
    requires
        makes_component(call, before, id, after, next, o),
    ensures
        ({
            let args = call.args;
            let begun = begun(before, args, opt_text(call.found.name_error));
            let draft = begun->Ok_0;
            let v = before[args.pins as int]->Dict_0@;
            let links = linked(before, draft, v, call.found.pin_types@, call.site).0;
            let f = links->Ok_0;
            let mid = after.take(before.len() + f.made);
            let described = description(
                mid,
                later,
                draft,
                args,
                call.symbol_parts,
                call.module_has_dnp,
            );
            let d = described->Ok_0;
            let c = o.component->Ok_0;
            &&& begun is Ok
            &&& links is Ok
            &&& f.made >= 0
            &&& f.missing.len() == 0
            &&& before.len() + f.made <= after.len()
            &&& component_footprint(draft, call.found) == Ok::<Seq<char>, Seq<char>>(c.footprint)
            &&& described is Ok
            &&& forall|h: int| 0 <= h < before.len() ==> #[trigger] later[h] == before[h]
            &&& c.name == draft.name
            &&& c.symbol == draft.symbol
            &&& c.connections == f.connections
            &&& c.ctype == d.ctype
            &&& c.prefix == d.prefix
            &&& c.description == d.description
            &&& c.source_path == call.source_path
            &&& c.declaration_span == call.site.span
            &&& c.data.part == d.part
            &&& c.data.bom_mpn == d.bom_mpn
            &&& c.data.dnp == d.dnp
            &&& c.data.skip_bom == d.skip_bom
            &&& c.data.skip_pos == d.skip_pos
            &&& c.data.properties == d.properties
            &&& c.data.component_datasheet == match d.component_datasheet {
                Some(s) => Some(referenced(call.found.references.entries@, s)),
                None => None,
            }
            &&& c.data.datasheet == chosen_datasheet(
                d.part,
                c.data.component_datasheet,
                c.data.symbol_datasheet,
            )
            &&& args.spice_model is Some ==> c.data.spice_model == args.spice_model
        }),
{
    let args = call.args;
    let draft = begun(before, args, opt_text(call.found.name_error))->Ok_0;
    let v = before[args.pins as int]->Dict_0@;
    let f = linked(before, draft, v, call.found.pin_types@, call.site).0->Ok_0;
    lemma_made_links(before, draft, v, call.found.pin_types@, call.site);
    let derived = derived_model(draft.symbol, f.connections, call.found);
    let later = if args.spice_model is None && derived->Ok_0 is Some {
        after.drop_last()
    } else {
        after
    };
    assert forall|h: int| 0 <= h < before.len() implies #[trigger] later[h] == before[h] by {
        lemma_extends_item(after, before, h);
    }
    later
}

proof fn lemma_made_links(
    items: Seq<Item>,
    draft: DraftView,
    v: Seq<(DictKey, usize)>,
    types: Seq<PinTypes>,
    site: PlaceView,
)
    ensures
        linked(items, draft, v, types, site).0 is Ok ==> linked(items, draft, v, types, site).0->Ok_0.made
            >= 0,
{
    let signals = signals_of(draft.symbol.pads);
    let c = connected(items, draft.name, signals, types, site, v).0;
    if c is Ok {
        let b = all_bridged(
            items,
            draft.name,
            c->Ok_0,
            jumper_groups(draft.symbol.pads, draft.symbol.groups),
        );
        if b is Ok {
            lemma_made_some(b->Ok_0, signals, types, items.len() as int);
        }
    }
}

/// A truth value that an argument has.
pub open spec fn given_truth(items: Seq<Item>, h: Option<usize>) -> Option<bool> {
    match h {
        Some(h) => match items[h as int] {
            Item::Bool(b) => Some(b),
            _ => None,
        },
        None => None,
    }
}

/// Whether a property is a truth value.
pub open spec fn is_truth(items: Seq<Item>, p: Seq<(Seq<char>, usize)>, k: Seq<char>, b: bool) -> bool {
    under(p, k) is Some && items[under(p, k)->Some_0 as int] == Item::Bool(b)
}

/// Whether none of some properties is there.
pub open spec fn has_none(p: Seq<(Seq<char>, usize)>, keys: Seq<Seq<char>>) -> bool {
    forall|i: int| 0 <= i < keys.len() ==> under(p, #[trigger] keys[i]) is None
}

proof fn lemma_no_truth(items: Seq<Item>, p: Seq<(Seq<char>, usize)>, keys: Seq<Seq<char>>)
    requires
        has_none(p, keys),
    ensures
        first_truth(items, p, keys) is None,
    decreases keys.len(),
{
    if keys.len() > 0 {
        assert(under(p, keys[0]) is None);
        let t = keys.skip(1);
        assert forall|i: int| 0 <= i < t.len() implies under(p, #[trigger] t[i]) is None by {
            assert(t[i] == keys[i + 1]);
        }
        lemma_no_truth(items, p, t);
    }
}

proof fn lemma_only_truth(items: Seq<Item>, p: Seq<(Seq<char>, usize)>, keys: Seq<Seq<char>>, i: int, b: bool)
    requires
        0 <= i < keys.len(),
        is_truth(items, p, keys[i], b),
        forall|k: int| 0 <= k < i ==> under(p, #[trigger] keys[k]) is None,
    ensures
        first_truth(items, p, keys) == Some(b),
    decreases keys.len(),
{
    if i > 0 {
        assert(under(p, keys[0]) is None);
        let t = keys.skip(1);
        assert(t[i - 1] == keys[i]);
        assert forall|k: int| 0 <= k < i - 1 implies under(p, #[trigger] t[k]) is None by {
            assert(t[k] == keys[k + 1]);
        }
        lemma_only_truth(items, p, t, i - 1, b);
    }
}

/// A component is left out of the bill of materials as its argument says; else as the property for it
/// says; and where nothing is said, exactly where its symbol is not in the bill of materials.
pub proof fn law_bill_of_materials_follows_symbol(
    call: Call,
    before: Seq<Item>,
    id: u64,
    after: Seq<Item>,
    next: u64,
    o: Outcome,
)
    requires
        makes_component(call, before, id, after, next, o),
    ensures
        ({
            let c = o.component->Ok_0;
            let p = given_properties(before, call.args.properties)->Ok_0;
            let said = given_truth(before, call.args.skip_bom);
            let keys = seq!["Exclude_from_bom"@, "exclude_from_bom"@];
            &&& said is Some ==> c.data.skip_bom == said->Some_0
            &&& said is None && has_none(p, keys) && c.symbol.in_bom ==> !c.data.skip_bom
            &&& said is None && has_none(p, keys) && !c.symbol.in_bom ==> c.data.skip_bom
            &&& forall|b: bool, i: int|
                said is None && 0 <= i < keys.len() && #[trigger] is_truth(before, p, keys[i], b)
                    && has_none(p, keys.take(i)) ==> c.data.skip_bom == b
        }),
{
    lemma_flag(call, before, id, after, next, o, skip_bom_keys(), call.args.skip_bom);
}

/// A component is left out of position files as its argument says; else as the property for it says;
/// and where nothing is said, it is in them.
pub proof fn law_position_files_hold_components(
    call: Call,
    before: Seq<Item>,
    id: u64,
    after: Seq<Item>,
    next: u64,
    o: Outcome,
)
    requires
        makes_component(call, before, id, after, next, o),
    ensures
        ({
            let c = o.component->Ok_0;
            let p = given_properties(before, call.args.properties)->Ok_0;
            let said = given_truth(before, call.args.skip_pos);
            let keys = seq!["Exclude_from_pos_files"@, "exclude_from_pos_files"@];
            &&& said is Some ==> c.data.skip_pos == said->Some_0
            &&& said is None && has_none(p, keys) ==> !c.data.skip_pos
            &&& forall|b: bool, i: int|
                said is None && 0 <= i < keys.len() && #[trigger] is_truth(before, p, keys[i], b)
                    && has_none(p, keys.take(i)) ==> c.data.skip_pos == b
        }),
{
    lemma_flag(call, before, id, after, next, o, skip_pos_keys(), call.args.skip_pos);
}

/// A component of a module that is not populated is not populated. Any other is as its argument says;
/// else as the property for it says; and where nothing is said, it is populated.
pub proof fn law_modules_leave_their_components_off(
    call: Call,
    before: Seq<Item>,
    id: u64,
    after: Seq<Item>,
    next: u64,
    o: Outcome,
)
    requires
        makes_component(call, before, id, after, next, o),
    ensures
        ({
            let c = o.component->Ok_0;
            let p = given_properties(before, call.args.properties)->Ok_0;
            let said = given_truth(before, call.args.dnp);
            let keys = seq!["do_not_populate"@, "Do_not_populate"@, "DNP"@, "dnp"@];
            &&& call.module_has_dnp ==> c.data.dnp
            &&& !call.module_has_dnp && said is Some ==> c.data.dnp == said->Some_0
            &&& !call.module_has_dnp && said is None && has_none(p, keys) ==> !c.data.dnp
            &&& forall|b: bool, i: int|
                !call.module_has_dnp && said is None && 0 <= i < keys.len() && #[trigger] is_truth(
                    before,
                    p,
                    keys[i],
                    b,
                ) && has_none(p, keys.take(i)) ==> c.data.dnp == b
        }),
{
    lemma_flag(call, before, id, after, next, o, dnp_keys(), call.args.dnp);
}

/// A flag is as its argument says, else as the first of its properties says.
proof fn lemma_flag(
    call: Call,
    before: Seq<Item>,
    id: u64,
    after: Seq<Item>,
    next: u64,
    o: Outcome,
    keys: Seq<Seq<char>>,
    argument: Option<usize>,
)
    requires
        makes_component(call, before, id, after, next, o),
        keys == skip_bom_keys() && argument == call.args.skip_bom || keys == skip_pos_keys() && argument
            == call.args.skip_pos || keys == dnp_keys() && argument == call.args.dnp,
    ensures
        ({
            let c = o.component->Ok_0;
            let p = given_properties(before, call.args.properties)->Ok_0;
            let said = given_truth(before, argument);
            &&& argument == call.args.skip_bom && keys == skip_bom_keys() ==> {
                &&& said is Some ==> c.data.skip_bom == said->Some_0
                &&& said is None && has_none(p, keys) ==> c.data.skip_bom == !c.symbol.in_bom
                &&& forall|b: bool, i: int|
                    said is None && 0 <= i < keys.len() && #[trigger] is_truth(before, p, keys[i], b)
                        && has_none(p, keys.take(i)) ==> c.data.skip_bom == b
            }
            &&& argument == call.args.skip_pos && keys == skip_pos_keys() ==> {
                &&& said is Some ==> c.data.skip_pos == said->Some_0
                &&& said is None && has_none(p, keys) ==> !c.data.skip_pos
                &&& forall|b: bool, i: int|
                    said is None && 0 <= i < keys.len() && #[trigger] is_truth(before, p, keys[i], b)
                        && has_none(p, keys.take(i)) ==> c.data.skip_pos == b
            }
            &&& argument == call.args.dnp && keys == dnp_keys() ==> {
                &&& call.module_has_dnp ==> c.data.dnp
                &&& !call.module_has_dnp && said is Some ==> c.data.dnp == said->Some_0
                &&& !call.module_has_dnp && said is None && has_none(p, keys) ==> !c.data.dnp
                &&& forall|b: bool, i: int|
                    !call.module_has_dnp && said is None && 0 <= i < keys.len()
                        && #[trigger] is_truth(before, p, keys[i], b) && has_none(p, keys.take(i))
                        ==> c.data.dnp == b
            }
        }),
{
    let m = lemma_made(call, before, id, after, next, o);
    let p = given_properties(before, call.args.properties)->Ok_0;
    lemma_flag_keys();
    assert forall|i: int| 0 <= i < keys.len() implies under(m.all, #[trigger] keys[i]) == under(
        p,
        keys[i],
    ) by {}
    if has_none(p, keys) {
        lemma_no_truth(m.later, m.all, keys);
    }
    assert forall|b: bool, i: int|
        0 <= i < keys.len() && #[trigger] is_truth(before, p, keys[i], b) && has_none(
            p,
            keys.take(i),
        ) implies first_truth(m.later, m.all, keys) == Some(b) by {
        lemma_place(p, keys[i]);
        assert forall|k: int| 0 <= k < i implies under(m.all, #[trigger] keys[k]) is None by {
            assert(keys.take(i)[k] == keys[k]);
        }
        lemma_only_truth(m.later, m.all, keys, i, b);
    }
}

/// The properties for flags are not those that a component adds.
proof fn lemma_flag_keys()
    ensures
        forall|i: int|
            0 <= i < skip_bom_keys().len() ==> #[trigger] skip_bom_keys()[i] != "symbol_name"@
                && skip_bom_keys()[i] != "alternatives"@,
        forall|i: int|
            0 <= i < skip_pos_keys().len() ==> #[trigger] skip_pos_keys()[i] != "symbol_name"@
                && skip_pos_keys()[i] != "alternatives"@,
        forall|i: int|
            0 <= i < dnp_keys().len() ==> #[trigger] dnp_keys()[i] != "symbol_name"@
                && dnp_keys()[i] != "alternatives"@,
{
    reveal_strlit("symbol_name");
    reveal_strlit("alternatives");
    reveal_strlit("Exclude_from_bom");
    reveal_strlit("exclude_from_bom");
    reveal_strlit("Exclude_from_pos_files");
    reveal_strlit("exclude_from_pos_files");
    reveal_strlit("do_not_populate");
    reveal_strlit("Do_not_populate");
    reveal_strlit("DNP");
    reveal_strlit("dnp");
    assert("symbol_name"@.len() == 11);
    assert("alternatives"@.len() == 12);
    assert("Exclude_from_bom"@.len() == 16);
    assert("exclude_from_bom"@.len() == 16);
    assert("Exclude_from_pos_files"@.len() == 22);
    assert("exclude_from_pos_files"@.len() == 22);
    assert("do_not_populate"@.len() == 15);
    assert("Do_not_populate"@.len() == 15);
    assert("DNP"@.len() == 3);
    assert("dnp"@.len() == 3);
}

// ---------------------------------------------------------------------------------------------
// Texts

/// The text that an argument has.
pub open spec fn given_text(items: Seq<Item>, h: Option<usize>) -> Option<Seq<char>> {
    match h {
        Some(h) => match items[h as int] {
            Item::Text(s) => Some(s@),
            _ => None,
        },
        None => None,
    }
}

/// The text that a property has.
pub open spec fn text_under(items: Seq<Item>, p: Seq<(Seq<char>, usize)>, k: Seq<char>) -> Option<
    Seq<char>,
> {
    given_text(items, under(p, k))
}

/// A component is called as it was given, and is of the symbol that it was given.
pub proof fn law_component_keeps_its_name_and_symbol(
    call: Call,
    before: Seq<Item>,
    id: u64,
    after: Seq<Item>,
    next: u64,
    o: Outcome,
)
    requires
        makes_component(call, before, id, after, next, o),
    ensures
        ({
            let c = o.component->Ok_0;
            &&& given_text(before, Some(call.args.name)) == Some(c.name)
            &&& c.source_path == call.source_path
            &&& c.declaration_span == call.site.span
            &&& call.args.spice_model is Some ==> c.data.spice_model == call.args.spice_model
            &&& call.args.pin_defs is None && call.args.symbol is Some ==> (
            before[call.args.symbol->Some_0 as int] matches Item::Symbol(s) && c.symbol == s@)
        }),
{
    let _ = lemma_stages(call, before, id, after, next, o);
}

/// The prefix of a component is the one that it was given; else the reference of its symbol; else `U`.
pub proof fn law_component_prefix(
    call: Call,
    before: Seq<Item>,
    id: u64,
    after: Seq<Item>,
    next: u64,
    o: Outcome,
)
    requires
        makes_component(call, before, id, after, next, o),
    ensures
        ({
            let c = o.component->Ok_0;
            let given = given_text(before, call.args.prefix);
            let reference = under(c.symbol.properties, "Reference"@);
            &&& given is Some ==> c.prefix == given->Some_0
            &&& given is None && reference is Some ==> c.prefix == reference->Some_0
            &&& given is None && reference is None ==> c.prefix == seq!['U']
        }),
{
    let m = lemma_made(call, before, id, after, next, o);
    reveal_strlit("U");
    assert("U"@ =~= seq!['U']);
}

proof fn lemma_property(
    call: Call,
    before: Seq<Item>,
    m: Making,
    k: Seq<char>,
)
    requires
        given_properties(before, call.args.properties) is Ok,
        all_below(given_properties(before, call.args.properties)->Ok_0, before.len() as int),
        forall|h: int| 0 <= h < before.len() ==> #[trigger] m.later[h] == before[h],
        under(m.all, k) == under(given_properties(before, call.args.properties)->Ok_0, k),
    ensures
        property_text(m.later, m.all, k) == text_under(
            before,
            given_properties(before, call.args.properties)->Ok_0,
            k,
        ),
{
    lemma_place(given_properties(before, call.args.properties)->Ok_0, k);
}

/// The type of a component is the one that it was given; else the property for it.
pub proof fn law_component_type(
    call: Call,
    before: Seq<Item>,
    id: u64,
    after: Seq<Item>,
    next: u64,
    o: Outcome,
)
    requires
        makes_component(call, before, id, after, next, o),
    ensures
        ({
            let c = o.component->Ok_0;
            let p = given_properties(before, call.args.properties)->Ok_0;
            let given = given_text(before, call.args.ctype);
            let small = text_under(before, p, "type"@);
            &&& given is Some ==> c.ctype == given
            &&& given is None && small is Some ==> c.ctype == small
            &&& given is None && small is None ==> c.ctype == text_under(before, p, "Type"@)
        }),
{
    let m = lemma_made(call, before, id, after, next, o);
    reveal_strlit("symbol_name");
    reveal_strlit("alternatives");
    reveal_strlit("type");
    reveal_strlit("Type");
    assert("symbol_name"@.len() == 11 && "alternatives"@.len() == 12);
    assert("type"@.len() == 4 && "Type"@.len() == 4);
    lemma_property(call, before, m, "type"@);
    lemma_property(call, before, m, "Type"@);
}

/// The description of a component is the one that it was given; else one of its properties for it, in
/// their order; else that of its symbol, unless that is empty.
pub proof fn law_component_description(
    call: Call,
    before: Seq<Item>,
    id: u64,
    after: Seq<Item>,
    next: u64,
    o: Outcome,
    i: int,
)
    requires
        makes_component(call, before, id, after, next, o),
        0 <= i < 4,
    ensures
        ({
            let c = o.component->Ok_0;
            let p = given_properties(before, call.args.properties)->Ok_0;
            let given = given_text(before, call.args.description);
            let keys = seq!["description"@, "Description"@, "value"@, "Value"@];
            let of_symbol = under(c.symbol.properties, "Description"@);
            &&& given is Some ==> c.description == given
            &&& given is None && text_under(before, p, keys[i]) is Some && (forall|k: int|
                0 <= k < i ==> text_under(before, p, #[trigger] keys[k]) is None) ==> c.description
                == text_under(before, p, keys[i])
            &&& given is None && (forall|k: int|
                0 <= k < 4 ==> text_under(before, p, #[trigger] keys[k]) is None) ==> c.description == (
            if of_symbol is Some && of_symbol->Some_0.len() > 0 {
                of_symbol
            } else {
                None
            })
        }),
{
    let m = lemma_made(call, before, id, after, next, o);
    let p = given_properties(before, call.args.properties)->Ok_0;
    let keys = seq!["description"@, "Description"@, "value"@, "Value"@];
    reveal_strlit("symbol_name");
    reveal_strlit("alternatives");
    reveal_strlit("description");
    reveal_strlit("Description");
    reveal_strlit("value");
    reveal_strlit("Value");
    assert("symbol_name"@.len() == 11 && "symbol_name"@[0] == 's' && "alternatives"@.len() == 12);
    assert("description"@[0] == 'd' && "Description"@[0] == 'D' && "value"@[0] == 'v');
    assert("description"@.len() == 11 && "Description"@.len() == 11 && "value"@.len() == 5
        && "Value"@.len() == 5);
    lemma_property(call, before, m, "description"@);
    lemma_property(call, before, m, "Description"@);
    lemma_property(call, before, m, "value"@);
    lemma_property(call, before, m, "Value"@);
    let given = given_text(before, call.args.description);
    assert(keys[0] == "description"@ && keys[1] == "Description"@ && keys[2] == "value"@ && keys[3]
        == "Value"@);
    if i >= 1 {
        assert(text_under(before, p, keys[0]) is None || text_under(before, p, keys[0]) is Some);
    }
    if i >= 2 {
        assert(text_under(before, p, keys[1]) is None || text_under(before, p, keys[1]) is Some);
    }
    if i >= 3 {
        assert(text_under(before, p, keys[2]) is None || text_under(before, p, keys[2]) is Some);
    }
}

/// Whether a text is one of a field, rather than empty or the `~` that stands for nothing.
pub open spec fn says_something(s: Option<Seq<char>>) -> bool {
    s is Some && s->Some_0.len() > 0 && s->Some_0 != seq!['~']
}

/// The datasheet of a component is that of its part; else its own, which is the one that it was given,
/// or else the property for it, as a package reference where it has one; else that of its symbol. A
/// link of the symbol is taken as it is.
pub proof fn law_component_datasheet(
    call: Call,
    before: Seq<Item>,
    id: u64,
    after: Seq<Item>,
    next: u64,
    o: Outcome,
)
    requires
        makes_component(call, before, id, after, next, o),
    ensures
        ({
            let c = o.component->Ok_0;
            let p = given_properties(before, call.args.properties)->Ok_0;
            let given = given_text(before, call.args.datasheet);
            let property = text_under(before, p, "datasheet"@);
            let references = call.found.references.entries@;
            let of_part = c.data.part is Some && c.data.part->Some_0.datasheet is Some;
            let own = c.data.component_datasheet;
            &&& of_part ==> c.data.datasheet == c.data.part->Some_0.datasheet
            &&& !of_part && own is Some ==> c.data.datasheet == own
            &&& !of_part && own is None ==> c.data.datasheet == c.data.symbol_datasheet
            &&& says_something(given) ==> own == Some(referenced(references, given->Some_0))
            &&& !says_something(given) && says_something(property) ==> own == Some(
                referenced(references, property->Some_0),
            )
            &&& !says_something(given) && !says_something(property) ==> own is None
        }),
{
    let _ = lemma_stages(call, before, id, after, next, o);
    let m = lemma_made(call, before, id, after, next, o);
    reveal_strlit("symbol_name");
    reveal_strlit("alternatives");
    reveal_strlit("datasheet");
    reveal_strlit("~");
    assert("~"@ =~= seq!['~']);
    assert("symbol_name"@.len() == 11 && "alternatives"@.len() == 12 && "datasheet"@.len() == 9);
    lemma_property(call, before, m, "datasheet"@);
}

/// A path with a package reference is written as the reference, and any other as it is.
pub proof fn law_references_replace_paths(references: Seq<(String, String)>, path: Seq<char>)
    ensures
        match find(references, path) {
            Some(uri) => referenced(references, path) == uri@,
            None => referenced(references, path) == path,
        },
{
}

/// A footprint that was given is that of the component. One that was not stands beside the library of
/// the symbol, under the name that the symbol has for it, or is one of the bundled libraries.
pub proof fn law_component_footprint(
    call: Call,
    before: Seq<Item>,
    id: u64,
    after: Seq<Item>,
    next: u64,
    o: Outcome,
)
    requires
        makes_component(call, before, id, after, next, o),
    ensures
        ({
            let c = o.component->Ok_0;
            let given = given_text(before, call.args.footprint);
            let references = call.found.references.entries@;
            let property = under(c.symbol.properties, "Footprint"@);
            &&& given is Some ==> c.footprint == referenced(references, given->Some_0)
            &&& given is None ==> c.symbol.source_uri is Some && call.found.library is Ok
                && says_something(property)
            &&& given is None && is_plain_component(property->Some_0 + ".kicad_mod"@)
                && is_plain_name(property->Some_0) ==> call.found.footprint.file_exists && exists|
                file: Seq<char>,
            |
                c.footprint == #[trigger] referenced(references, file) && components(file) == components(
                    match parent_of(call.found.library->Ok_0@) {
                        Some(dir) => dir,
                        None => Seq::<char>::empty(),
                    },
                ).push(property->Some_0 + ".kicad_mod"@)
        }),
{
    let _ = lemma_stages(call, before, id, after, next, o);
    let c = o.component->Ok_0;
    let args = call.args;
    let draft = begun(before, args, opt_text(call.found.name_error))->Ok_0;
    let property = under(c.symbol.properties, "Footprint"@);
    reveal_strlit("~");
    assert("~"@ =~= seq!['~']);
    if given_text(before, args.footprint) is None && is_plain_component(
        property->Some_0 + ".kicad_mod"@,
    ) && is_plain_name(property->Some_0) {
        let name = property->Some_0;
        let dir = match parent_of(call.found.library->Ok_0@) {
            Some(dir) => dir,
            None => Seq::<char>::empty(),
        };
        let file = path_joined(dir, name + ".kicad_mod"@);
        lemma_plain_name(name);
        law_joined_components(seq![name + ".kicad_mod"@]);
        assert(joined(seq![name + ".kicad_mod"@], seq!['/']) == name + ".kicad_mod"@);
        law_join_appends_components(dir, name + ".kicad_mod"@);
        assert(components(dir) + seq![name + ".kicad_mod"@] =~= components(dir).push(
            name + ".kicad_mod"@,
        ));
        assert(c.footprint == referenced(call.found.references.entries@, file));
    }
}

/// Whether a text is the bare name of a footprint.
pub open spec fn is_plain_name(s: Seq<char>) -> bool {
    s.len() > 0 && forall|i: int|
        0 <= i < s.len() ==> (#[trigger] s[i]) != '/' && s[i] != '\\' && s[i] != ':' && !is_space(s[i])
}

proof fn lemma_plain_name(s: Seq<char>)
    requires
        is_plain_name(s),
    ensures
        footprint_stem(s) == Some(s),
{
    assert(s.last() == s[s.len() - 1]);
    assert(trimmed(s) == s);
    lemma_first_at(s, ':');
}

// ---------------------------------------------------------------------------------------------
// Parts

/// Whether no part was given.
pub open spec fn no_part_given(items: Seq<Item>, h: Option<usize>) -> bool {
    h is None || items[h->Some_0 as int] == Item::Nothing
}

/// Whether a text is there and not blank.
pub open spec fn is_said(s: Option<Seq<char>>) -> bool {
    s is Some && !is_blank(s->Some_0)
}

/// A component that was given a part is that part. One that was not, but was given a part number, goes
/// by that number, and is a part of its own where it was given a manufacturer as well. One that says
/// nothing of its part number, in arguments, properties or symbol, is the first part that the manifests
/// declare for its symbol.
pub proof fn law_component_part(
    call: Call,
    before: Seq<Item>,
    id: u64,
    after: Seq<Item>,
    next: u64,
    o: Outcome,
)
    requires
        makes_component(call, before, id, after, next, o),
    ensures
        ({
            let c = o.component->Ok_0;
            let args = call.args;
            let p = given_properties(before, args.properties)->Ok_0;
            let mpn = given_text(before, args.mpn);
            let maker = given_text(before, args.manufacturer);
            let declared = declared_parts(call.symbol_parts, c.symbol);
            &&& args.part is Some ==> match before[args.part->Some_0 as int] {
                Item::Part(q) => c.data.part == Some(q@) && c.data.bom_mpn == Some(q@.mpn),
                Item::Nothing => true,
                _ => false,
            }
            &&& no_part_given(before, args.part) && is_said(mpn) ==> c.data.bom_mpn == mpn
            &&& no_part_given(before, args.part) && is_said(mpn) && is_said(maker) ==> (c.data.part matches Some(
                q,
            ) && q.mpn == mpn->Some_0 && q.manufacturer == maker->Some_0 && q.datasheet is None
                && q.qualifications.len() == 0)
            &&& no_part_given(before, args.part) && !is_said(mpn) && !is_said(
                text_under(before, p, "mpn"@),
            ) && !is_said(text_under(before, p, "Mpn"@)) && !says_something(
                under(c.symbol.properties, "Manufacturer_Part_Number"@),
            ) ==> if declared is Some && declared->Some_0.len() > 0 {
                c.data.part matches Some(q) && q.mpn == declared->Some_0[0].mpn && q.manufacturer
                    == declared->Some_0[0].manufacturer && q.datasheet == declared->Some_0[0].datasheet
                    && c.data.bom_mpn == Some(q.mpn)
            } else {
                c.data.part is None && c.data.bom_mpn is None
            }
        }),
{
    let later = lemma_stages(call, before, id, after, next, o);
    let m = lemma_made(call, before, id, after, next, o);
    let args = call.args;
    let p = given_properties(before, args.properties)->Ok_0;
    let draft = begun(before, args, opt_text(call.found.name_error))->Ok_0;
    let v = before[args.pins as int]->Dict_0@;
    let f = linked(before, draft, v, call.found.pin_types@, call.site).0->Ok_0;
    let mid = after.take(before.len() + f.made);
    let named = named_properties(mid, draft, args);
    assert forall|h: int| 0 <= h < before.len() implies #[trigger] mid[h] == before[h] by {
        lemma_extends_item(after, before, h);
    }
    assert(given_properties(mid, args.properties) == given_properties(before, args.properties));
    lemma_put(p, "symbol_name"@, mid.len() as usize);
    reveal_strlit("symbol_name");
    reveal_strlit("mpn");
    reveal_strlit("Mpn");
    reveal_strlit("~");
    assert("~"@ =~= seq!['~']);
    assert("symbol_name"@.len() == 11 && "mpn"@.len() == 3 && "Mpn"@.len() == 3);
    assert(under(named, "mpn"@) == under(p, "mpn"@));
    assert(under(named, "Mpn"@) == under(p, "Mpn"@));
    lemma_place(p, "mpn"@);
    lemma_place(p, "Mpn"@);
    assert(property_text(later, named, "mpn"@) == text_under(before, p, "mpn"@));
    assert(property_text(later, named, "Mpn"@) == text_under(before, p, "Mpn"@));
}

/// The parts that the manifests declare for a symbol are those of its library that are for every symbol
/// or for the one of its name, in the order of the manifests.
pub proof fn law_declared_parts_are_for_the_symbol(v: Seq<ManifestPartView>, symbol: SymbolView, i: int)
    requires
        0 <= i < v.len(),
    ensures
        (v[i].symbol_name is None || symbol.name == v[i].symbol_name) ==> parts_for(v, symbol).contains(
            v[i],
        ),
        forall|k: int|
            0 <= k < parts_for(v, symbol).len() ==> v.contains(#[trigger] parts_for(v, symbol)[k]) && (
            parts_for(v, symbol)[k].symbol_name is None || symbol.name == parts_for(
                v,
                symbol,
            )[k].symbol_name),
    decreases v.len(),
{
    let d = v.drop_last();
    let r = parts_for(d, symbol);
    let all = parts_for(v, symbol);
    if d.len() > 0 {
        law_declared_parts_are_for_the_symbol(d, symbol, if i < d.len() { i } else { 0 });
    } else {
        assert(r.len() == 0);
    }
    if i < d.len() {
        assert(d[i] == v[i]);
        if r.contains(d[i]) {
            let k = choose|k: int| 0 <= k < r.len() && r[k] == d[i];
            assert(all[k] == v[i]);
        }
    } else if all.len() > r.len() {
        assert(all[all.len() - 1] == v[i]);
    }
    assert forall|k: int| 0 <= k < all.len() implies v.contains(#[trigger] all[k]) && (
    all[k].symbol_name is None || symbol.name == all[k].symbol_name) by {
        if k < r.len() {
            assert(all[k] == r[k]);
            assert(d.contains(r[k]));
            let j = choose|j: int| 0 <= j < d.len() && d[j] == r[k];
            assert(v[j] == all[k]);
        } else {
            assert(v[v.len() - 1] == all[k]);
        }
    }
}

// ---------------------------------------------------------------------------------------------
// Pins

/// What a dictionary says last of a signal is what the signal is on.
proof fn lemma_connected(
    items: Seq<Item>,
    component: Seq<char>,
    signals: Seq<Seq<char>>,
    types: Seq<PinTypes>,
    site: PlaceView,
    v: Seq<(DictKey, usize)>,
)
    requires
        connected(items, component, signals, types, site, v).0 is Ok,
    ensures
        ({
            let c = connected(items, component, signals, types, site, v).0->Ok_0;
            &&& distinct(c)
            &&& forall|i: int|
                0 <= i < v.len() ==> (#[trigger] v[i]).0.is_string && signals.contains(v[i].0.text@)
                    && items[v[i].1 as int] is Net
            &&& forall|i: int|
                0 <= i < v.len() && (forall|k: int|
                    i < k < v.len() ==> (#[trigger] v[k]).0.text@ != v[i].0.text@) ==> under(
                    c,
                    (#[trigger] v[i]).0.text@,
                ) == Some(v[i].1)
            &&& forall|q: Seq<char>| #[trigger]
                under(c, q) is Some ==> exists|i: int|
                    0 <= i < v.len() && (#[trigger] v[i]).0.text@ == q && under(c, q) == Some(v[i].1)
        }),
    decreases v.len(),
{
    let c = connected(items, component, signals, types, site, v).0->Ok_0;
    if v.len() > 0 {
        let d = v.drop_last();
        lemma_connected(items, component, signals, types, site, d);
        let b = connected(items, component, signals, types, site, d).0->Ok_0;
        let last = v.last().0.text@;
        lemma_put(b, last, v.last().1);
        assert(v[v.len() - 1] == v.last());
        assert forall|i: int| 0 <= i < v.len() implies (#[trigger] v[i]).0.is_string
            && signals.contains(v[i].0.text@) && items[v[i].1 as int] is Net by {
            if i < d.len() {
                assert(d[i] == v[i]);
            }
        }
        assert forall|i: int|
            0 <= i < v.len() && (forall|k: int|
                i < k < v.len() ==> (#[trigger] v[k]).0.text@ != v[i].0.text@) implies under(
            c,
            (#[trigger] v[i]).0.text@,
        ) == Some(v[i].1) by {
            if i < d.len() {
                assert(d[i] == v[i]);
                assert(v[v.len() - 1].0.text@ != v[i].0.text@);
                assert forall|k: int| i < k < d.len() implies (#[trigger] d[k]).0.text@
                    != d[i].0.text@ by {
                    assert(d[k] == v[k]);
                }
                assert(under(b, d[i].0.text@) == Some(d[i].1));
            }
        }
        assert forall|q: Seq<char>| #[trigger] under(c, q) is Some implies exists|i: int|
            0 <= i < v.len() && (#[trigger] v[i]).0.text@ == q && under(c, q) == Some(v[i].1) by {
            if q != last {
                assert(under(b, q) is Some);
                let i = choose|i: int|
                    0 <= i < d.len() && (#[trigger] d[i]).0.text@ == q && under(b, q) == Some(d[i].1);
                assert(v[i].0.text@ == q);
            } else {
                assert(v[v.len() - 1].0.text@ == q);
            }
        }
    } else {
        assert forall|q: Seq<char>| #[trigger] under(c, q) is None by {
            lemma_place(c, q);
        }
    }
}

/// A pin that was given a net is on that net, and every pin of the symbol is on one. Only pins of the
/// symbol are given nets, and only nets are given to them.
pub proof fn law_component_pins(
    call: Call,
    before: Seq<Item>,
    id: u64,
    after: Seq<Item>,
    next: u64,
    o: Outcome,
)
    requires
        makes_component(call, before, id, after, next, o),
    ensures
        before[call.args.pins as int] is Dict,
        ({
            let c = o.component->Ok_0;
            let v = before[call.args.pins as int]->Dict_0@;
            &&& forall|i: int|
                0 <= i < v.len() && (forall|k: int|
                    i < k < v.len() ==> (#[trigger] v[k]).0.text@ != v[i].0.text@) ==> under(
                    c.connections,
                    (#[trigger] v[i]).0.text@,
                ) == Some(v[i].1)
            &&& forall|i: int|
                0 <= i < v.len() ==> (#[trigger] v[i]).0.is_string && before[v[i].1 as int] is Net
            &&& forall|i: int|
                0 <= i < c.symbol.pads.len() ==> under(
                    c.connections,
                    (#[trigger] c.symbol.pads[i]).1,
                ) is Some
            &&& forall|i: int|
                0 <= i < v.len() ==> exists|k: int|
                    0 <= k < c.symbol.pads.len() && (#[trigger] c.symbol.pads[k]).1 == (
                    #[trigger] v[i]).0.text@
        }),
{
    let _ = lemma_stages(call, before, id, after, next, o);
    let args = call.args;
    let c = o.component->Ok_0;
    let draft = begun(before, args, opt_text(call.found.name_error))->Ok_0;
    let v = before[args.pins as int]->Dict_0@;
    let types = call.found.pin_types@;
    let signals = signals_of(draft.symbol.pads);
    let groups = jumper_groups(draft.symbol.pads, draft.symbol.groups);
    lemma_connected(before, draft.name, signals, types, call.site, v);
    let given = connected(before, draft.name, signals, types, call.site, v).0->Ok_0;
    let all = all_bridged(before, draft.name, given, groups)->Ok_0;
    lemma_bridges(before, draft.name, given, groups);
    law_every_signal_is_connected(all, signals, types, before.len() as int);
    assert forall|i: int|
        0 <= i < v.len() && (forall|k: int|
            i < k < v.len() ==> (#[trigger] v[k]).0.text@ != v[i].0.text@) implies under(
        c.connections,
        (#[trigger] v[i]).0.text@,
    ) == Some(v[i].1) by {
        assert(under(given, v[i].0.text@) == Some(v[i].1));
        assert(under(all, v[i].0.text@) is Some);
    }
    assert forall|i: int| 0 <= i < c.symbol.pads.len() implies under(
        c.connections,
        (#[trigger] c.symbol.pads[i]).1,
    ) is Some by {
        assert(signals[i] == c.symbol.pads[i].1);
    }
    assert forall|i: int| 0 <= i < v.len() implies exists|k: int|
        0 <= k < c.symbol.pads.len() && (#[trigger] c.symbol.pads[k]).1 == (#[trigger] v[i]).0.text@ by {
        assert(signals.contains(v[i].0.text@));
        let k = choose|k: int| 0 <= k < signals.len() && signals[k] == v[i].0.text@;
        assert(c.symbol.pads[k].1 == v[i].0.text@);
    }
}

proof fn lemma_bridges(
    items: Seq<Item>,
    component: Seq<char>,
    c: Seq<(Seq<char>, usize)>,
    groups: Seq<Seq<Seq<char>>>,
)
    requires
        distinct(c),
        all_bridged(items, component, c, groups) is Ok,
    ensures
        distinct(all_bridged(items, component, c, groups)->Ok_0),
        forall|q: Seq<char>|
            #[trigger] under(c, q) is Some ==> under(
                all_bridged(items, component, c, groups)->Ok_0,
                q,
            ) == under(c, q),
{
    let all = all_bridged(items, component, c, groups)->Ok_0;
    lemma_bridges_distinct(items, component, c, groups);
    assert forall|q: Seq<char>| #[trigger] under(c, q) is Some implies under(all, q) == under(c, q) by {
        law_jumpers_keep_connections(items, component, c, groups, q);
    }
}

proof fn lemma_bridges_distinct(
    items: Seq<Item>,
    component: Seq<char>,
    c: Seq<(Seq<char>, usize)>,
    groups: Seq<Seq<Seq<char>>>,
)
    requires
        distinct(c),
        all_bridged(items, component, c, groups) is Ok,
    ensures
        distinct(all_bridged(items, component, c, groups)->Ok_0),
    decreases groups.len(),
{
    if groups.len() > 0 {
        let d = groups.drop_last();
        lemma_bridges_distinct(items, component, c, d);
        let m = all_bridged(items, component, c, d)->Ok_0;
        let k = group_nets(items, m, groups.last());
        if k.len() > 0 {
            lemma_bridged(m, groups.last(), k[0].1);
        }
    }
}

/// Of the signals that are not connected, those that are to be left open get a net each, no two the
/// same, and all others are missing.
pub proof fn law_only_open_signals_are_filled(
    c: Seq<(Seq<char>, usize)>,
    signals: Seq<Seq<char>>,
    types: Seq<PinTypes>,
    n: int,
)
    requires
        distinct(c),
        0 <= n,
        n + signals.len() <= usize::MAX,
    ensures
        ({
            let f = filled(c, signals, types, n);
            &&& 0 <= f.made <= signals.len()
            &&& forall|s: Seq<char>| #[trigger]
                f.missing.contains(s) <==> signals.contains(s) && under(c, s) is None && !left_open(
                    types,
                    s,
                )
            &&& forall|s: Seq<char>|
                under(c, s) is None ==> match #[trigger] under(f.connections, s) {
                    Some(h) => signals.contains(s) && left_open(types, s) && n <= h < n + f.made,
                    None => !(signals.contains(s) && left_open(types, s)),
                }
            &&& forall|s: Seq<char>, t: Seq<char>|
                s != t && under(c, s) is None && under(c, t) is None && #[trigger] under(
                    f.connections,
                    s,
                ) is Some && #[trigger] under(f.connections, t) is Some ==> under(f.connections, s)
                    != under(f.connections, t)
            &&& distinct(f.connections)
        }),
    decreases signals.len(),
{
    let f = filled(c, signals, types, n);
    if signals.len() > 0 {
        let d = signals.drop_last();
        let g = filled(c, d, types, n);
        let last = signals.last();
        law_only_open_signals_are_filled(c, d, types, n);
        lemma_put(g.connections, last, (n + g.made) as usize);
        lemma_filled(c, d, types, n);
        assert(signals[signals.len() - 1] == last);
        assert forall|s: Seq<char>| signals.contains(s) == (d.contains(s) || s == last) by {
            if signals.contains(s) {
                let i = choose|i: int| 0 <= i < signals.len() && signals[i] == s;
                if i < d.len() {
                    assert(d[i] == s);
                }
            }
            if d.contains(s) {
                let i = choose|i: int| 0 <= i < d.len() && d[i] == s;
                assert(signals[i] == s);
            }
        }
        assert forall|s: Seq<char>| #[trigger]
            f.missing.contains(s) <==> signals.contains(s) && under(c, s) is None && !left_open(
                types,
                s,
            ) by {
            if f.missing.len() > g.missing.len() {
                assert(f.missing == g.missing.push(last));
                assert(f.missing[f.missing.len() - 1] == last);
                if g.missing.contains(s) {
                    let i = choose|i: int| 0 <= i < g.missing.len() && g.missing[i] == s;
                    assert(f.missing[i] == s);
                }
                if f.missing.contains(s) && s != last {
                    let i = choose|i: int| 0 <= i < f.missing.len() && f.missing[i] == s;
                    assert(g.missing[i] == s);
                }
            }
        }
    } else {
        assert forall|s: Seq<char>| #[trigger] f.missing.contains(s) == false by {}
    }
}

} // verus!
