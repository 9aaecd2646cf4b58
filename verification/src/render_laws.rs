//! What holds of the texts that show values, and of the arguments that components are made from.

use starlark::collections::SmallMap;
use vstd::prelude::*;

use crate::lang::builtin::{Builtin, BuiltinError};
use crate::lang::component::ComponentError;
use crate::lang::component_type::{begun, finish_spice_model, given_error, ComponentArguments};
use crate::lang::component_type::SpiceRequest;
use crate::lang::sim::law_bound_model_is_complete;
use crate::lang::value::{Item, SpiceModelValue, Store};
use crate::render::{component_text, framed, in_name_order, instance_text, Frame};
use crate::small_map::{distinct, handles_in, lemma_place, names_of, under};
use crate::text::{law_sorted, sorted, texts};

verus! {

// ---------------------------------------------------------------------------------------------
// Texts

/// Every entry is shown with its own value, and nothing else is.
pub proof fn law_entries_are_shown(f: Frame<'_>, entries: Seq<(Seq<char>, Seq<char>)>, i: int)
    requires
        distinct(entries),
        0 <= i < entries.len(),
    ensures
        in_name_order(f, entries).len() == entries.len(),
        in_name_order(f, entries).contains(
            f.before@ + entries[i].0 + f.between@ + entries[i].1 + f.behind@,
        ),
{
    broadcast use vstd::seq_lib::group_to_multiset_ensures;

    let names = names_of(entries);
    let s = sorted(names);
    law_sorted(names);
    assert(names[i] == entries[i].0);
    assert(names.contains(names[i]));
    assert(names.to_multiset().count(names[i]) > 0);
    assert(s.to_multiset().count(names[i]) > 0);
    assert(s.contains(names[i]));
    assert(s.len() == s.to_multiset().len());
    assert(names.len() == names.to_multiset().len());
    let k = choose|k: int| 0 <= k < s.len() && s[k] == names[i];
    lemma_place(entries, entries[i].0);
    let at = crate::small_map::place(entries, entries[i].0);
    if at < i {
        assert(entries[at].0 != entries[i].0);
    }
    assert(under(entries, entries[i].0) == Some(entries[i].1));
    let r = in_name_order(f, entries);
    assert(r[k] == framed(f, s[k], under(entries, s[k])->Some_0));
}

/// A component is shown by its part number, else by its type; its properties follow where it has any.
pub proof fn law_component_is_shown(
    mpn: Option<Seq<char>>,
    ctype: Option<Seq<char>>,
    properties: Seq<(Seq<char>, Seq<char>)>,
)
    ensures
        properties.len() == 0 && mpn is Some ==> component_text(mpn, ctype, properties)
            == "Component("@ + mpn->Some_0 + ")\n"@,
        properties.len() == 0 && mpn is None && ctype is Some ==> component_text(
            mpn,
            ctype,
            properties,
        ) == "Component("@ + ctype->Some_0 + ")\n"@,
        properties.len() > 0 ==> component_text(mpn, ctype, properties).len() > component_text(
            mpn,
            ctype,
            Seq::<(Seq<char>, Seq<char>)>::empty(),
        ).len(),
{
    reveal_strlit("Properties:\n");
}

/// An instance without fields is shown by the name of its interface alone.
pub proof fn law_instance_is_shown(name: Seq<char>)
    ensures
        instance_text(Some(name), Seq::<(Seq<char>, Seq<char>)>::empty()) == name + "("@ + ")"@,
{
    broadcast use vstd::seq_lib::group_to_multiset_ensures;

    let none = Seq::<(Seq<char>, Seq<char>)>::empty();
    let names = names_of(none);
    law_sorted(names);
    assert(sorted(names).len() == sorted(names).to_multiset().len());
    assert(names.len() == names.to_multiset().len());
    let r = in_name_order(Frame { before: "", between: "=", behind: "" }, none);
    assert(names_of(none).len() == 0);
    assert(r.len() == 0);
    assert(name + "("@ + Seq::<char>::empty() + ")"@ =~= name + "("@ + ")"@);
}

// ---------------------------------------------------------------------------------------------
// Arguments of components

/// A component is begun exactly where its name is a text and a good name, its pins are a dictionary, and
/// its footprint and its symbol can be used; it has the name that it was given.
pub proof fn law_component_is_begun(
    items: Seq<Item>,
    args: ComponentArguments,
    name_error: Option<Seq<char>>,
)
    ensures
        match begun(items, args, name_error) {
            Ok(d) => {
                &&& items[args.name as int] is Text
                &&& d.name == items[args.name as int]->Text_0@
                &&& name_error is None
                &&& items[args.pins as int] is Dict
                &&& crate::lang::pins::chosen_symbol(items, args.pin_defs, args.symbol) == Ok::<
                    _,
                    Seq<char>,
                >(d.symbol)
            },
            Err(_) => !(items[args.name as int] is Text) || name_error is Some || !(
            items[args.pins as int] is Dict) || crate::lang::component_type::given_footprint(
                items,
                args.footprint,
            ) is Err || crate::lang::pins::chosen_symbol(items, args.pin_defs, args.symbol) is Err,
        },
{
}

/// What is given as a simulation model must be one, and what is given as a part must be one or nothing.
pub proof fn law_model_and_part_are_right(items: Seq<Item>, args: ComponentArguments)
    ensures
        given_error(items, args) is None <==> (args.spice_model is Some
            ==> items[args.spice_model->Some_0 as int] is SpiceModel) && (args.part is Some
            ==> items[args.part->Some_0 as int] is Part || items[args.part->Some_0 as int]
            == Item::Nothing),
{
}

/// The variants of an enumeration are its arguments, which must all be texts.
pub proof fn law_variants_are_texts(
    store: &Store,
    args: &Vec<usize>,
    r: Result<Vec<String>, BuiltinError>,
    i: int,
)
    requires
        forall|k: int| 0 <= k < args@.len() ==> (#[trigger] args@[k]) < store.items@.len(),
        call_ensures(Builtin::enum_variants, (store, args), r),
        0 <= i < args@.len(),
    ensures
        !(store.items@[args@[i] as int] is Text) ==> r is Err,
        r is Ok ==> r->Ok_0@.len() == args@.len() && r->Ok_0@[i]@
            == store.items@[args@[i] as int]->Text_0@,
{
    let h = args@[i];
}

/// A simulation model is made of its definition under the name that was asked for, with one net for each
/// of its terminals.
pub proof fn law_model_is_finished(
    request: SpiceRequest,
    definition: String,
    terminals: &Vec<String>,
    connections: &SmallMap<String, usize>,
    r: Result<SpiceModelValue, ComponentError>,
)
    requires
        call_ensures(finish_spice_model, (request, definition, terminals, connections), r),
    ensures
        r is Ok ==> r->Ok_0.definition@ == definition@ && r->Ok_0.name@ == request@.name
            && r->Ok_0.nets@.len() == terminals@.len(),
{
    if r is Ok {
        law_bound_model_is_complete(
            texts(terminals@),
            request@.signals,
            handles_in(*connections),
            request@.params,
        );
    }
}

} // verus!
