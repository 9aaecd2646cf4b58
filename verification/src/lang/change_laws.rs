//! What holds of every change that a call makes to the store, to a net or to a resolution.

use vstd::prelude::*;

use crate::diagnostic::{PlaceView, PlacedNotice};
use crate::lang::builtin::path_listed;
use crate::lang::component::{dict_entries, given_properties, item_truth, legacy_notices};
use crate::lang::component::{replaced_notices, sourcing_notices, text_truth};
use crate::lang::interface::net_named;
use crate::lang::net::{open_net_made, takes_name, ConnectionIntent, NetError, NetValue, NetView};
use crate::lang::param_decl::{io_read, stamped, DeclArgs, IoTemplateValue, NormalizedIo};
use crate::lang::param_decl::ParamError;
use crate::lang::pins::{left_open, types_of_signal, warned, PinTypes};
use crate::lang::value::{net_of, text_of, DictKey, Item, Store};
use crate::load_spec::LoadSpecView;
use crate::small_map::{distinct, lemma_put, under};
use crate::{spec_recorded, specs, PathError, ResolveContext};

verus! {

// ---------------------------------------------------------------------------------------------
// Nets

/// A net takes the name of its variable where it has none of its own and did not take one before;
/// nothing else of it changes.
pub proof fn law_net_takes_name(before: NetValue, after: NetValue, name: Seq<char>)
    requires
        takes_name(before, after, name),
    ensures
        before.assignment_inferable && before.inferred_name is None ==> after@.inferred_name == Some(
            name,
        ),
        !(before.assignment_inferable && before.inferred_name is None) ==> after@ == before@,
        after@.net_id == before@.net_id,
        after@.name == before@.name,
        after@.type_label == before@.type_label,
        after@.properties == before@.properties,
        after@.connection_intent == before@.connection_intent,
{
}

/// An open net has a number of its own, and stands behind all that was there; a name that is given for
/// it is pointed out.
pub proof fn law_open_net_is_made(
    before: Store,
    after: Store,
    positional: Seq<usize>,
    named: Seq<(String, usize)>,
    site: PlaceView,
    r: Result<(usize, Option<PlacedNotice>), NetError>,
)
    requires
        open_net_made(before, after, positional, named, site, r),
    ensures
        r is Err ==> after == before,
        r is Ok ==> {
            let n = net_of(after.items@[r->Ok_0.0 as int]);
            &&& r->Ok_0.0 == before.items@.len()
            &&& n is Some
            &&& n->Some_0@.connection_intent == ConnectionIntent::Open
            &&& n->Some_0@.net_id == before.next_net_id
            &&& after.next_net_id == before.next_net_id + 1
            &&& r->Ok_0.1 is Some <==> positional.len() > 0 || named.len() > 0
            &&& forall|i: int|
                0 <= i < before.items@.len() ==> #[trigger] after.items@[i] == before.items@[i]
        },
{
    if r is Ok {
        let h = r->Ok_0.0 as int;
        assert forall|i: int| 0 <= i < before.items@.len() implies #[trigger] after.items@[i]
            == before.items@[i] by {
            assert(after.items@.take(h)[i] == after.items@[i]);
        }
    }
}

/// A net that is registered goes by the name that it was registered under, and no other value changes.
pub proof fn law_registered_net_is_named(
    before: Store,
    after: Store,
    net: usize,
    name: Seq<char>,
    i: int,
)
    requires
        net_named(before, after, net, name),
        0 <= i < before.items@.len(),
    ensures
        i != net ==> after.items@[i] == before.items@[i],
        net_of(before.items@[net as int]) is Some ==> net_of(after.items@[net as int]) is Some
            && net_of(after.items@[net as int])->Some_0@.name == name && net_of(
            after.items@[net as int],
        )->Some_0@.net_id == net_of(before.items@[net as int])->Some_0@.net_id,
        after.next_net_id == before.next_net_id,
{
}

/// A net that is made where an input is declared says so, and is the same net in all else that counts;
/// any other value stays.
pub proof fn law_declared_net_knows_its_place(
    before: Store,
    after: Store,
    h: usize,
    site: PlaceView,
    r: usize,
)
    requires
        stamped(before, after, h, site, r),
        h < before.items@.len(),
    ensures
        net_of(before.items@[h as int]) is None ==> r == h && after.items@ == before.items@,
        net_of(before.items@[h as int]) is Some ==> {
            let was = net_of(before.items@[h as int])->Some_0@;
            let n = net_of(after.items@[r as int]);
            &&& n is Some
            &&& n->Some_0@.declaration_path == site.path
            &&& n->Some_0@.declaration_span == site.span
            &&& n->Some_0@.net_id == was.net_id
            &&& n->Some_0@.type_label == was.type_label
            &&& n->Some_0@.connection_intent == was.connection_intent
        },
{
}

// ---------------------------------------------------------------------------------------------
// Inputs

/// A model for an input gives it its type, and a default beside it is refused; without a model the
/// type is the one that is given.
pub proof fn law_models_give_types(
    before: Store,
    after: Store,
    args: DeclArgs,
    r: Result<NormalizedIo, ParamError>,
)
    requires
        io_read(before, after, args, r),
    ensures
        ({
            let t = crate::lang::param_decl::template_of(before.items@, args.typ);
            &&& r is Err <==> t is Some && args.default is Some
            &&& t is None && r is Ok ==> r->Ok_0.typ == args.typ && r->Ok_0.template is None
                && after.items@ == before.items@
            &&& t is Some && r is Ok ==> r->Ok_0.template == t && match t->Some_0 {
                IoTemplateValue::Net(h) => after.items@[r->Ok_0.typ as int] is NetType
                    && after.items@[r->Ok_0.typ as int]->NetType_0.type_label@
                    == before.items@[h as int]->Net_0.type_label@,
                IoTemplateValue::Interface(h) => r->Ok_0.typ
                    == before.items@[h as int]->Interface_0.factory,
            }
            &&& after.next_net_id == before.next_net_id
        }),
{
}

/// The path of a module is a list of the names on the way to it.
pub proof fn law_path_of_module(
    before: Store,
    after: Store,
    path: Option<Seq<Seq<char>>>,
    r: usize,
    i: int,
)
    requires
        path_listed(before, after, path, r),
    ensures
        after.items@[r as int] is List,
        path is None ==> after.items@[r as int]->List_0@.len() == 0,
        path is Some ==> after.items@[r as int]->List_0@.len() == path->Some_0.len(),
        path is Some && 0 <= i < path->Some_0.len() ==> text_of(
            after.items@[after.items@[r as int]->List_0@[i] as int],
        ) == Some(path->Some_0[i]),
{
}

// ---------------------------------------------------------------------------------------------
// Load paths

/// A load path that leads back to one that was tried before is refused, and every other is recorded
/// behind those that were.
pub proof fn law_load_paths_do_not_lead_back(
    before: ResolveContext,
    after: ResolveContext,
    asked: LoadSpecView,
    r: Result<(), PathError>,
)
    requires
        spec_recorded(before, after, asked, r),
    ensures
        specs(before.spec_history@).contains(asked) ==> r is Err,
        r is Err ==> after == before,
        r is Ok ==> specs(after.spec_history@).len() == specs(before.spec_history@).len() + 1
            && specs(after.spec_history@).last() == asked && specs(after.spec_history@).drop_last()
            == specs(before.spec_history@),
        after.current_file == before.current_file,
{
    let s = specs(before.spec_history@);
    if s.contains(asked) {
        let i = choose|i: int| 0 <= i < s.len() && s[i] == asked;
        assert(crate::load_spec::same_spec(s[i], asked));
    }
    if r is Ok {
        assert(s.push(asked).drop_last() =~= s);
    }
}

// ---------------------------------------------------------------------------------------------
// Components

/// The last entry of a key is the property, and a component that is given nothing has none.
pub proof fn law_given_properties(items: Seq<Item>, h: usize, v: Seq<(DictKey, usize)>, i: int)
    requires
        0 <= i < v.len(),
        forall|k: int| i < k < v.len() ==> (#[trigger] v[k]).0.text@ != v[i].0.text@,
    ensures
        given_properties(items, None) == Ok::<_, Seq<char>>(Seq::<(Seq<char>, usize)>::empty()),
        items[h as int] == Item::Nothing ==> given_properties(items, Some(h)) == Ok::<_, Seq<char>>(
            Seq::<(Seq<char>, usize)>::empty(),
        ),
        items[h as int] is Dict && items[h as int]->Dict_0@ == v ==> given_properties(
            items,
            Some(h),
        ) is Ok && under(given_properties(items, Some(h))->Ok_0, v[i].0.text@) == Some(v[i].1),
        items[h as int] != Item::Nothing && !(items[h as int] is Dict) ==> given_properties(
            items,
            Some(h),
        ) is Err,
{
    lemma_dict_entries(v, i);
}

proof fn lemma_dict_entries(v: Seq<(DictKey, usize)>, i: int)
    requires
        0 <= i < v.len(),
        forall|k: int| i < k < v.len() ==> (#[trigger] v[k]).0.text@ != v[i].0.text@,
    ensures
        distinct(dict_entries(v)),
        under(dict_entries(v), v[i].0.text@) == Some(v[i].1),
    decreases v.len(),
{
    let d = v.drop_last();
    lemma_dict_distinct(d);
    lemma_put(dict_entries(d), v.last().0.text@, v.last().1);
    if i < d.len() {
        assert(d[i] == v[i]);
        assert forall|k: int| i < k < d.len() implies (#[trigger] d[k]).0.text@ != d[i].0.text@ by {
            assert(d[k] == v[k]);
        }
        lemma_dict_entries(d, i);
        assert(v[v.len() - 1].0.text@ != v[i].0.text@);
    }
}

proof fn lemma_dict_distinct(v: Seq<(DictKey, usize)>)
    ensures
        distinct(dict_entries(v)),
    decreases v.len(),
{
    if v.len() > 0 {
        lemma_dict_distinct(v.drop_last());
        lemma_put(dict_entries(v.drop_last()), v.last().0.text@, v.last().1);
    }
}

/// A truth value stands for itself, and the texts `true`, `1`, `false` and `0` for one; numbers, lists
/// and nothing stand for none.
pub proof fn law_truth_of_values(b: bool, s: Seq<char>, n: i64)
    ensures
        item_truth(Item::Bool(b)) == Some(b),
        item_truth(Item::Nothing) is None,
        item_truth(Item::Int(n)) is None,
        text_truth("true"@, s) == Some(true),
        text_truth("1"@, s) == Some(true),
        text_truth("false"@, s) == Some(false),
        text_truth("0"@, s) == Some(false),
{
    reveal_strlit("true");
    reveal_strlit("1");
    reveal_strlit("false");
    reveal_strlit("0");
    assert("true"@.len() == 4);
    assert("1"@.len() == 1 && "1"@[0] == '1');
    assert("false"@.len() == 5);
    assert("0"@.len() == 1 && "0"@[0] == '0');
}

/// A component that is given old properties or arguments is told of each, and of nothing else.
pub proof fn law_old_inputs_are_told(
    component: Seq<char>,
    has_mpn: bool,
    has_manufacturer: bool,
    p: Seq<(Seq<char>, usize)>,
)
    ensures
        ({
            let r = legacy_notices(component, has_mpn, has_manufacturer, p);
            let named = (if has_mpn {
                1int
            } else {
                0int
            }) + (if has_manufacturer {
                1int
            } else {
                0int
            });
            &&& p.len() == 0 ==> r.len() == named
            &&& r.len() >= named
            &&& under(p, "mpn"@) is Some || under(p, "Mpn"@) is Some || under(p, "manufacturer"@) is Some
                || under(p, "Manufacturer"@) is Some ==> r.len() > named
            &&& under(p, "DNP"@) is Some || under(p, "dnp"@) is Some || under(
                p,
                "Exclude_from_bom"@,
            ) is Some || under(p, "datasheet"@) is Some || under(p, "description"@) is Some ==> r.len()
                > named
        }),
{
    let table = crate::lang::component::replaced_properties();
    let names = crate::lang::component::sourcing_properties();
    lemma_replaced_notices(component, p, table);
    lemma_sourcing_notices(component, p, names);
    assert(names[0] == "mpn"@ && names[1] == "Mpn"@ && names[2] == "manufacturer"@ && names[3]
        == "Manufacturer"@);
    assert(table[2].0 == "DNP"@ && table[3].0 == "dnp"@ && table[4].0 == "Exclude_from_bom"@
        && table[10].0 == "datasheet"@ && table[11].0 == "description"@);
}

proof fn lemma_replaced_notices(
    component: Seq<char>,
    p: Seq<(Seq<char>, usize)>,
    table: Seq<(Seq<char>, Seq<char>)>,
)
    ensures
        p.len() == 0 ==> replaced_notices(component, p, table).len() == 0,
        forall|i: int|
            0 <= i < table.len() && under(p, (#[trigger] table[i]).0) is Some ==> replaced_notices(
                component,
                p,
                table,
            ).len() > 0,
    decreases table.len(),
{
    if table.len() > 0 {
        let d = table.drop_last();
        lemma_replaced_notices(component, p, d);
        crate::small_map::lemma_place(p, table.last().0);
        assert forall|i: int| 0 <= i < table.len() && under(p, (#[trigger] table[i]).0) is Some implies replaced_notices(
            component,
            p,
            table,
        ).len() > 0 by {
            if i < d.len() {
                assert(d[i] == table[i]);
            }
        }
    }
}

proof fn lemma_sourcing_notices(
    component: Seq<char>,
    p: Seq<(Seq<char>, usize)>,
    table: Seq<Seq<char>>,
)
    ensures
        p.len() == 0 ==> sourcing_notices(component, p, table).len() == 0,
        forall|i: int|
            0 <= i < table.len() && under(p, #[trigger] table[i]) is Some ==> sourcing_notices(
                component,
                p,
                table,
            ).len() > 0,
    decreases table.len(),
{
    if table.len() > 0 {
        let d = table.drop_last();
        lemma_sourcing_notices(component, p, d);
        crate::small_map::lemma_place(p, table.last());
        assert forall|i: int| 0 <= i < table.len() && under(p, #[trigger] table[i]) is Some implies sourcing_notices(
            component,
            p,
            table,
        ).len() > 0 by {
            if i < d.len() {
                assert(d[i] == table[i]);
            }
        }
    }
}

/// A warning about a pin names the component, the signal and the net, and stands where the net was
/// made, where that is known, else where the pins are connected.
pub proof fn law_warning_about_pin(
    v: Seq<PinTypes>,
    component: Seq<char>,
    signal: Seq<char>,
    net: NetView,
    site: PlaceView,
)
    ensures
        types_of_signal(v, signal).len() > 0 && left_open(v, signal) ==> warned(
            v,
            component,
            signal,
            net,
            site,
        ) is Some,
        match warned(v, component, signal, net, site) {
            Some(w) => {
                &&& w.component == component
                &&& w.signal == signal
                &&& net.inferred_name is Some ==> w.net_name == net.inferred_name->Some_0
                &&& net.inferred_name is None ==> w.net_name == net.name
                &&& net.declaration_path.len() == 0 ==> w.place == site
                &&& net.declaration_path.len() > 0 ==> w.place.path == net.declaration_path
                    && w.place.span == net.declaration_span
            },
            None => true,
        },
{
}

} // verus!
