//! What holds of every net and every instance of an interface that is made.

use vstd::prelude::*;

use crate::diagnostic::PlaceView;
use crate::lang::interface::{assigned_in_fields, child_of, clone_of, cloned_net, declared};
use crate::lang::interface::{generated_names, is_field_type, made_field, made_fields};
use crate::lang::interface::{made_instance, name_in_variable, names_under, next_place, owned_nets};
use crate::lang::interface::{provided_for, Build, Made, PrefixView, ProvidedField, Setting};
use crate::lang::net::{applied_fields, field_value, kind_of, made_net, optional_fields, registered};
use crate::lang::net::{resolved_name, ConnectionIntent, FieldCheck, NetInstantiateIntent};
use crate::lang::net::{NetInstantiateOptions, NetType, NetView};
use crate::lang::param_decl::{check_failure, implicit_check, template_of, voltage_of};
use crate::lang::param_decl::IoTemplateValue;
use crate::lang::value::Item;
use crate::small_map::{distinct, handles_in, lemma_place, lemma_put, lemma_without, under};

verus! {

// ---------------------------------------------------------------------------------------------
// Nets

/// The name of a net is the one that was inferred for it, where one was, else its own; the kind of an
/// open net is `NotConnected`, and that of any other its type.
pub proof fn law_net_name_and_kind(n: NetView)
    ensures
        n.inferred_name is Some ==> resolved_name(n) == n.inferred_name->Some_0,
        n.inferred_name is None ==> resolved_name(n) == n.name,
        n.connection_intent == ConnectionIntent::Open ==> kind_of(n) == "NotConnected"@,
        n.connection_intent != ConnectionIntent::Open ==> kind_of(n) == n.type_label,
{
}

/// A connected net has the name that it was given; else the one that the net it is made from was
/// given; else the name of that net; one that is made alone has none. It is of its type, and was made
/// where it was made. A net that is made from another keeps its number.
pub proof fn law_net_is_named_as_asked(
    t: &NetType,
    base: Option<NetView>,
    explicit: Option<Seq<char>>,
    accepted: Seq<(Seq<char>, usize)>,
    provided: Seq<Seq<char>>,
    options: NetInstantiateOptions,
    items: Seq<Item>,
    next_id: u64,
    site: PlaceView,
)
    ensures
        ({
            let n = made_net(t, base, explicit, accepted, provided, options, items, next_id, site);
            let open = options.intent == NetInstantiateIntent::PreserveBase && base is Some
                && base->Some_0.connection_intent == ConnectionIntent::Open;
            &&& n.connection_intent == (if open {
                ConnectionIntent::Open
            } else {
                ConnectionIntent::Connected
            })
            &&& !open && explicit is Some ==> n.name == explicit->Some_0 && n.original_name == explicit
            &&& !open && explicit is None && base is Some ==> n.original_name
                == base->Some_0.original_name && n.name == (
            if base->Some_0.original_name is Some {
                base->Some_0.original_name->Some_0
            } else if base->Some_0.inferred_name is Some {
                base->Some_0.inferred_name->Some_0
            } else {
                base->Some_0.name
            })
            &&& explicit is None && base is None ==> n.name.len() == 0 && n.original_name is None
            &&& open ==> n.name.len() == 0 && n.original_name is None && n.template_name is None
                && !n.assignment_inferable
            &&& !open ==> n.assignment_inferable == options.assignment_inferable
            &&& !open && base is None && !options.assignment_inferable ==> n.template_name == explicit
            &&& base is None && options.assignment_inferable ==> n.template_name is None
            &&& !open && base is Some ==> n.template_name == base->Some_0.template_name
            &&& n.type_label == t.type_label@
            &&& n.declaration_path == site.path
            &&& n.declaration_span == site.span
            &&& n.inferred_name is None
            &&& base is Some ==> n.net_id == base->Some_0.net_id && n.was_bound == base->Some_0.was_bound
            &&& base is None ==> n.net_id == next_id && !n.was_bound
        }),
{
}

/// A field of a net's type that has a value is a property of the net. One that is nothing, of those
/// that the built-in types have, is left as it was where it was not given, and taken away where it
/// was. Every other property stays.
pub proof fn law_fields_become_properties(
    fields: Seq<(Seq<char>, usize)>,
    accepted: Seq<(Seq<char>, usize)>,
    provided: Seq<Seq<char>>,
    items: Seq<Item>,
    type_label: Seq<char>,
    properties: Seq<(Seq<char>, usize)>,
    k: Seq<char>,
)
    requires
        distinct(fields),
        distinct(properties),
    ensures
        ({
            let r = applied_fields(fields, accepted, provided, items, type_label, properties);
            let field = under(fields, k) is Some;
            let value = under(accepted, k);
            let unset = value is Some && items[value->Some_0 as int] == Item::Nothing && optional_fields(
                type_label,
            ).contains(k);
            &&& distinct(r)
            &&& field && value is Some && !unset ==> under(r, k) == value
            &&& field && unset && provided.contains(k) ==> under(r, k) is None
            &&& field && unset && !provided.contains(k) ==> under(r, k) == under(properties, k)
            &&& !field || value is None ==> under(r, k) == under(properties, k)
        }),
    decreases fields.len(),
{
    if fields.len() == 0 {
        lemma_place(fields, k);
    } else {
        let d = fields.drop_last();
        let name = fields.last().0;
        assert forall|i: int, j: int| 0 <= i < j < d.len() implies (#[trigger] d[i]).0 != (
        #[trigger] d[j]).0 by {
            assert(fields[i].0 != fields[j].0);
        }
        law_fields_become_properties(d, accepted, provided, items, type_label, properties, k);
        let before = applied_fields(d, accepted, provided, items, type_label, properties);
        lemma_place(d, k);
        lemma_place(fields, k);
        if under(d, k) is Some {
            let i = crate::small_map::place(d, k);
            assert(fields[i].0 == d[i].0);
            assert(fields[i].0 != fields[fields.len() - 1].0);
        }
        if under(fields, k) is Some && k != name {
            let i = crate::small_map::place(fields, k);
            assert(d[i].0 == k);
            assert(crate::small_map::names_of(d)[i] == k);
        }
        if k == name {
            assert(crate::small_map::names_of(fields)[fields.len() - 1] == k);
        }
        if let Some(v) = under(accepted, name) {
            lemma_put(before, name, v);
            lemma_without(before, name);
        }
    }
}

/// A net that is to be registered is registered under its number, its name and its kind; any other is
/// not.
pub proof fn law_registration(n: NetView, should_register: bool)
    ensures
        should_register <==> registered(n, should_register) is Some,
        should_register ==> {
            let r = registered(n, should_register)->Some_0;
            &&& r.net_id == n.net_id
            &&& r.name == n.name
            &&& r.assignment_inferable == n.assignment_inferable
            &&& n.connection_intent == ConnectionIntent::Open ==> r.kind == "NotConnected"@
            &&& n.connection_intent != ConnectionIntent::Open ==> r.kind == n.type_label
        },
{
}

/// The value of a field that was given is that value, where it has the type or the type is not known;
/// else what it converts to, where that has the type; else there is none and it is an error. One that
/// was not given has its default.
pub proof fn law_field_value(c: FieldCheck)
    ensures
        c.provided is None ==> field_value(c) == Ok::<Option<usize>, ()>(c.default),
        c.provided is Some && (c.matches || !c.type_known) ==> field_value(c) == Ok::<
            Option<usize>,
            (),
        >(c.provided),
        c.provided is Some && !c.matches && c.type_known && c.converted is Some && c.converted->Some_0.1
            ==> field_value(c) == Ok::<Option<usize>, ()>(Some(c.converted->Some_0.0)),
        c.provided is Some && !c.matches && c.type_known && !(c.converted is Some
            && c.converted->Some_0.1) ==> field_value(c) is Err,
{
}

// ---------------------------------------------------------------------------------------------
// Interfaces

/// The net of a field is called after its instance and the field, with an underscore between them; in
/// an instance without a name it begins with the underscore. The fields of a field are called after
/// both.
pub proof fn law_names_of_fields(p: PrefixView, field: Seq<char>, leaf: Seq<char>, variable: Seq<char>)
    ensures
        p.new_style.len() > 0 ==> names_under(p, leaf).0 == p.new_style + seq!['_'] + leaf,
        p.new_style.len() == 0 ==> names_under(p, leaf).0 == seq!['_'] + leaf,
        p.new_style.len() > 0 ==> child_of(p, field).new_style == p.new_style + seq!['_'] + field,
        p.new_style.len() == 0 ==> child_of(p, field).new_style == field,
        child_of(p, field).assignment_inferable == p.assignment_inferable,
        name_in_variable(variable, seq!['_'] + leaf) == (if leaf.len() == 0 {
            variable
        } else {
            variable + seq!['_'] + leaf
        }),
        leaf.len() > 0 && leaf[0] != '_' ==> name_in_variable(variable, leaf) == variable + seq!['_']
            + leaf,
{
    reveal_strlit("_");
    assert("_"@ =~= seq!['_']);
    let n = seq!['_'] + leaf;
    assert(n.take(1) =~= seq!['_']);
    assert(n.skip(1) =~= leaf);
    if leaf.len() > 0 && leaf[0] != '_' {
        assert(leaf.take(1)[0] != '_');
    }
}

/// A field of a new instance is what was provided for it; else its default, where it has one; and
/// every field has a value.
pub proof fn law_fields_of_an_instance(
    s: Setting,
    p: PrefixView,
    h: usize,
    f: Seq<(Seq<char>, usize)>,
    provided: Seq<ProvidedField>,
    b: Build,
)
    requires
        distinct(f),
        forall|i: int| 0 <= i < f.len() ==> (#[trigger] f[i]).1 < h,
        made_fields(s, p, h, f, provided, b).0 is Ok,
    ensures
        ({
            let r = made_fields(s, p, h, f, provided, b).0->Ok_0;
            &&& distinct(r)
            &&& forall|i: int|
                0 <= i < f.len() ==> under(r, (#[trigger] f[i]).0) is Some && match provided_for(
                    provided,
                    f[i].0,
                ) {
                    Some(Ok(v)) => under(r, f[i].0) == Some(v),
                    Some(Err(_)) => false,
                    None => match s.items[f[i].1 as int] {
                        Item::Field(d) => d is Some && under(r, f[i].0) == d,
                        _ => true,
                    },
                }
            &&& forall|k: Seq<char>| #[trigger]
                under(r, k) is Some ==> exists|i: int| 0 <= i < f.len() && (#[trigger] f[i]).0 == k
        }),
    decreases f.len(),
{
    let r = made_fields(s, p, h, f, provided, b).0->Ok_0;
    if f.len() == 0 {
        assert forall|k: Seq<char>| #[trigger] under(r, k) is None by {
            lemma_place(r, k);
        }
    } else {
        let d = f.drop_last();
        assert forall|i: int| 0 <= i < d.len() implies (#[trigger] d[i]).1 < h by {
            assert(d[i] == f[i]);
        }
        assert forall|i: int, j: int| 0 <= i < j < d.len() implies (#[trigger] d[i]).0 != (
        #[trigger] d[j]).0 by {
            assert(f[i].0 != f[j].0);
        }
        assert(f[f.len() - 1].1 < h);
        law_fields_of_an_instance(s, p, h, d, provided, b);
        let (before, c) = made_fields(s, p, h, d, provided, b);
        let last = f.last().0;
        let x = made_field(s, p, last, f.last().1, provided_for(provided, last), c).0;
        assert(x is Ok);
        lemma_put(before->Ok_0, last, x->Ok_0);
        assert forall|i: int| 0 <= i < f.len() implies under(r, (#[trigger] f[i]).0) is Some
            && match provided_for(provided, f[i].0) {
            Some(Ok(v)) => under(r, f[i].0) == Some(v),
            Some(Err(_)) => false,
            None => match s.items[f[i].1 as int] {
                Item::Field(d) => d is Some && under(r, f[i].0) == d,
                _ => true,
            },
        } by {
            if i < d.len() {
                assert(d[i] == f[i]);
                assert(f[i].0 != f[f.len() - 1].0);
            }
        }
        assert forall|k: Seq<char>| #[trigger] under(r, k) is Some implies exists|i: int|
            0 <= i < f.len() && (#[trigger] f[i]).0 == k by {
            if k == last {
                assert(f[f.len() - 1].0 == k);
            } else {
                assert(under(before->Ok_0, k) is Some);
                let i = choose|i: int| 0 <= i < d.len() && (#[trigger] d[i]).0 == k;
                assert(f[i].0 == k);
            }
        }
    }
}

/// An instance that is made is one of its interface, and knows which of its fields were not provided.
pub proof fn law_instance_knows_its_interface(
    s: Setting,
    p: PrefixView,
    h: usize,
    provided: Seq<ProvidedField>,
    b: Build,
    q: Seq<char>,
)
    requires
        s.items[h as int] is InterfaceFactory,
        made_instance(s, p, h, provided, b).0 is Ok,
    ensures
        ({
            let c = made_instance(s, p, h, provided, b).1;
            let f = handles_in(s.items[h as int]->InterfaceFactory_0.fields);
            match c.made.last() {
                Made::Interface { fields, generated, root, factory } => {
                    &&& factory == h
                    &&& Ok::<Seq<(Seq<char>, usize)>, Seq<char>>(fields) == made_fields(
                        s,
                        p,
                        h,
                        f,
                        provided,
                        b,
                    ).0
                    &&& generated.contains(q) <==> (exists|i: int|
                        0 <= i < f.len() && (#[trigger] f[i]).0 == q) && forall|i: int|
                        0 <= i < provided.len() ==> (#[trigger] provided[i]).name@ != q
                    &&& p.assignment_inferable ==> root is None
                    &&& !p.assignment_inferable ==> root == Some(p.new_style)
                },
                _ => false,
            }
        }),
{
    let f = handles_in(s.items[h as int]->InterfaceFactory_0.fields);
    lemma_generated(f, provided, q);
}

proof fn lemma_generated(f: Seq<(Seq<char>, usize)>, v: Seq<ProvidedField>, q: Seq<char>)
    ensures
        generated_names(f, v).contains(q) <==> (exists|i: int|
            0 <= i < f.len() && (#[trigger] f[i]).0 == q) && forall|i: int|
            0 <= i < v.len() ==> (#[trigger] v[i]).name@ != q,
    decreases f.len(),
{
    lemma_provided_for(v, q);
    if f.len() > 0 {
        let d = f.drop_last();
        let b = generated_names(d, v);
        let r = generated_names(f, v);
        lemma_generated(d, v, q);
        lemma_provided_for(v, f.last().0);
        assert(f[f.len() - 1] == f.last());
        if b.contains(q) {
            let i = choose|i: int| 0 <= i < d.len() && (#[trigger] d[i]).0 == q;
            assert(f[i].0 == q);
            let k = choose|k: int| 0 <= k < b.len() && b[k] == q;
            assert(r[k] == q);
        }
        if r.contains(q) && !b.contains(q) {
            let k = choose|k: int| 0 <= k < r.len() && r[k] == q;
            if k < b.len() {
                assert(b[k] == q);
            }
            assert(f[f.len() - 1].0 == q);
        }
        if exists|i: int| 0 <= i < f.len() && (#[trigger] f[i]).0 == q {
            let i = choose|i: int| 0 <= i < f.len() && (#[trigger] f[i]).0 == q;
            if i < d.len() {
                assert(d[i].0 == q);
            } else if r.len() > b.len() {
                assert(r[r.len() - 1] == q);
            }
        }
    }
}

proof fn lemma_provided_for(v: Seq<ProvidedField>, q: Seq<char>)
    ensures
        provided_for(v, q) is None <==> forall|i: int| 0 <= i < v.len() ==> (#[trigger] v[i]).name@ != q,
    decreases v.len(),
{
    if v.len() > 0 {
        let t = v.skip(1);
        lemma_provided_for(t, q);
        if v[0].name@ != q {
            if provided_for(t, q) is None {
                assert forall|i: int| 0 <= i < v.len() implies (#[trigger] v[i]).name@ != q by {
                    if i > 0 {
                        assert(t[i - 1] == v[i]);
                    }
                }
            } else if forall|i: int| 0 <= i < v.len() ==> (#[trigger] v[i]).name@ != q {
                assert forall|i: int| 0 <= i < t.len() implies (#[trigger] t[i]).name@ != q by {
                    assert(t[i] == v[i + 1]);
                }
            }
        }
    }
}

/// What was provided for a field is what the first entry of its name says.
pub proof fn law_first_provision_counts(v: Seq<ProvidedField>, i: int)
    requires
        0 <= i < v.len(),
        forall|k: int| 0 <= k < i ==> (#[trigger] v[k]).name@ != v[i].name@,
    ensures
        v[i].value is Ok ==> provided_for(v, v[i].name@) == Some(
            Ok::<usize, Seq<char>>(v[i].value->Ok_0),
        ),
        v[i].value is Err ==> (provided_for(v, v[i].name@) matches Some(r) && r is Err),
    decreases v.len(),
{
    if i > 0 {
        let t = v.skip(1);
        assert(v[0].name@ != v[i].name@);
        assert(t[i - 1] == v[i]);
        assert forall|k: int| 0 <= k < i - 1 implies (#[trigger] t[k]).name@ != t[i - 1].name@ by {
            assert(t[k] == v[k + 1]);
        }
        law_first_provision_counts(t, i - 1);
    }
}

/// A net that is cloned for the first time gets a number of its own and a name after its instance, and
/// keeps its type, its properties and whether it is open. One that was cloned before is that clone.
pub proof fn law_clone_of_a_net(
    s: Setting,
    p: PrefixView,
    field: Seq<char>,
    net: NetView,
    b: Build,
)
    ensures
        ({
            let (h, c) = cloned_net(s, p, Some(field), net, b);
            let known = clone_of(b.nets, net.net_id);
            let leaf = if net.template_name is Some {
                net.template_name->Some_0
            } else {
                field
            };
            &&& known is Some ==> h == known->Some_0 && c == b
            &&& known is None ==> {
                &&& h == (s.items.len() + b.made.len()) as usize
                &&& c.ids == b.ids + 1
                &&& c.made.len() == b.made.len() + 1
                &&& clone_of(c.nets, net.net_id) == Some(h)
                &&& (c.made.last() matches Made::Net(n) && n.net_id == (s.id + b.ids) as u64 && n.type_label
                    == net.type_label && n.properties == net.properties && n.connection_intent
                    == net.connection_intent && n.template_name == net.template_name && n.name == (
                if p.new_style.len() > 0 {
                    p.new_style + seq!['_'] + leaf
                } else {
                    seq!['_'] + leaf
                }))
            }
        }),
{
    law_names_of_fields(p, field, if net.template_name is Some { net.template_name->Some_0 } else { field }, field);
    if clone_of(b.nets, net.net_id) is None {
        lemma_clone_pushed(b.nets, net.net_id, next_place(s, b));
    }
}

proof fn lemma_clone_pushed(nets: Seq<(u64, usize)>, id: u64, h: usize)
    requires
        clone_of(nets, id) is None,
    ensures
        clone_of(nets.push((id, h)), id) == Some(h),
    decreases nets.len(),
{
    let r = nets.push((id, h));
    if nets.len() > 0 {
        lemma_clone_pushed(nets.skip(1), id, h);
        assert(r.skip(1) =~= nets.skip(1).push((id, h)));
        assert(r[0] == nets[0]);
    }
}

/// An interface that can be declared has the fields that it was given, each of which describes a net,
/// an instance or a value; `name` is none, and `__post_init__` is what is called on every instance.
pub proof fn law_declared_interface(items: Seq<Item>, v: Seq<(String, usize)>, i: int)
    requires
        declared(items, v).error is None,
        0 <= i < v.len(),
        forall|k: int| i < k < v.len() ==> (#[trigger] v[k]).0@ != v[i].0@,
    ensures
        v[i].0@ != "name"@,
        v[i].0@ == "__post_init__"@ ==> declared(items, v).post_init == Some(v[i].1),
        v[i].0@ != "__post_init__"@ ==> under(declared(items, v).fields, v[i].0@) == Some(v[i].1)
            && is_field_type(items[v[i].1 as int]),
        distinct(declared(items, v).fields),
    decreases v.len(),
{
    reveal_strlit("name");
    reveal_strlit("__post_init__");
    assert("name"@.len() == 4 && "__post_init__"@.len() == 13);
    lemma_declared_distinct(items, v);
    let d = v.drop_last();
    lemma_declared_distinct(items, d);
    let before = declared(items, d);
    lemma_put(before.fields, v.last().0@, v.last().1);
    if i < d.len() {
        assert(d[i] == v[i]);
        assert(v[v.len() - 1].0@ != v[i].0@);
        assert forall|k: int| i < k < d.len() implies (#[trigger] d[k]).0@ != d[i].0@ by {
            assert(d[k] == v[k]);
        }
        law_declared_interface(items, d, i);
    }
}

proof fn lemma_declared_distinct(items: Seq<Item>, v: Seq<(String, usize)>)
    ensures
        distinct(declared(items, v).fields),
    decreases v.len(),
{
    if v.len() > 0 {
        let d = v.drop_last();
        lemma_declared_distinct(items, d);
        lemma_put(declared(items, d).fields, v.last().0@, v.last().1);
    }
}

/// A net that was not assigned to a variable belongs to the model that it is in; any other does not.
pub proof fn law_models_own_unbound_nets(items: Seq<Item>, h: usize)
    requires
        items[h as int] is Net,
    ensures
        items[h as int]->Net_0.was_bound ==> owned_nets(items, h).len() == 0,
        !items[h as int]->Net_0.was_bound ==> owned_nets(items, h) == seq![items[h as int]->Net_0.net_id],
{
}

/// An instance without a name of its own takes the name of its variable: each net that was made for it
/// is called after both.
pub proof fn law_assigned_instance_names_its_nets(
    items: Seq<Item>,
    variable: Seq<char>,
    h: usize,
    f: Seq<(Seq<char>, usize)>,
    generated: Seq<Seq<char>>,
    i: int,
)
    requires
        0 <= i < f.len(),
        f[i].1 < h,
        generated.contains(f[i].0),
        items[f[i].1 as int] is Net,
    ensures
        assigned_in_fields(items, variable, h, f, generated).contains(
            (f[i].1, name_in_variable(variable, resolved_name(items[f[i].1 as int]->Net_0@))),
        ),
    decreases f.len(),
{
    let d = f.drop_last();
    let b = assigned_in_fields(items, variable, h, d, generated);
    let r = assigned_in_fields(items, variable, h, f, generated);
    let x = (f[i].1, name_in_variable(variable, resolved_name(items[f[i].1 as int]->Net_0@)));
    if i < d.len() {
        assert(d[i] == f[i]);
        law_assigned_instance_names_its_nets(items, variable, h, d, generated, i);
        let k = choose|k: int| 0 <= k < b.len() && b[k] == x;
        assert(r[k] == x);
    } else {
        assert(r[r.len() - 1] == x);
    }
}

/// A field that was provided keeps its name when its instance is assigned.
pub proof fn law_provided_nets_keep_their_names(
    items: Seq<Item>,
    variable: Seq<char>,
    h: usize,
    f: Seq<(Seq<char>, usize)>,
    generated: Seq<Seq<char>>,
)
    requires
        forall|i: int| 0 <= i < f.len() ==> !generated.contains((#[trigger] f[i]).0),
    ensures
        assigned_in_fields(items, variable, h, f, generated).len() == 0,
    decreases f.len(),
{
    if f.len() > 0 {
        let d = f.drop_last();
        assert(!generated.contains(f[f.len() - 1].0));
        assert forall|i: int| 0 <= i < d.len() implies !generated.contains((#[trigger] d[i]).0) by {
            assert(d[i] == f[i]);
        }
        law_provided_nets_keep_their_names(items, variable, h, d, generated);
    }
}

// ---------------------------------------------------------------------------------------------
// Models of inputs

/// A net that is not open and an instance of an interface can be the model of an input; nothing else
/// can.
pub proof fn law_models_of_inputs(items: Seq<Item>, h: usize)
    ensures
        match items[h as int] {
            Item::Net(n) => if n.connection_intent == ConnectionIntent::Open {
                template_of(items, h) is None
            } else {
                template_of(items, h) == Some(IoTemplateValue::Net(h))
            },
            Item::Interface(_) => template_of(items, h) == Some(IoTemplateValue::Interface(h)),
            _ => template_of(items, h) is None,
        },
{
}

/// A model with a voltage that was not assigned to a variable asks for that voltage; no other does. An
/// input fails the check where it has no voltage or one that does not lie within that of the model.
pub proof fn law_voltage_of_model_is_checked(
    items: Seq<Item>,
    h: usize,
    name: Seq<char>,
    check: (usize, Seq<char>),
    value: usize,
    fits: bool,
)
    requires
        items[h as int] is Net,
        items[check.0 as int] is Quantity,
    ensures
        ({
            let n = items[h as int]->Net_0;
            let v = under(handles_in(n.properties), "voltage"@);
            let asks = implicit_check(items, IoTemplateValue::Net(h));
            asks is Some <==> !n.was_bound && v is Some && items[v->Some_0 as int] is Quantity
        }),
        implicit_check(items, IoTemplateValue::Net(h)) is Some ==> implicit_check(
            items,
            IoTemplateValue::Net(h),
        )->Some_0.0 == under(handles_in(items[h as int]->Net_0.properties), "voltage"@)->Some_0,
        implicit_check(items, IoTemplateValue::Interface(h)) is None,
        check_failure(name, items, check, value, fits) is None <==> voltage_of(items, value) is Some
            && fits,
{
}

} // verus!
