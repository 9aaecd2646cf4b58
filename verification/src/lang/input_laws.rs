//! What holds of every declaration of an input, and of every call that makes a net.

use vstd::prelude::*;

use crate::diagnostic::PlaceView;
use crate::lang::net::{base_view, field_error, field_value, named_error, open_net, open_net_error};
use crate::lang::net::{read_arguments, with_missing, ConnectionIntent, NetInstantiateIntent};
use crate::lang::net::{NetType, NetView};
use crate::lang::net_call::{argument_error, field_outcome, fields_outcome, names_given, net_made};
use crate::lang::net_call::{FieldGiven, NetOutcome, NetRequest};
use crate::lang::param_decl::{brought_here, declaration, io_net_provided, named_arguments};
use crate::lang::param_decl::{net_of_template, ParamKind};
use crate::lang::value::{net_of, Item};
use crate::schematic::IoDirection;
use crate::small_map::{distinct, lemma_put, under};

verus! {

// ---------------------------------------------------------------------------------------------
// Declarations

/// The last value that is given under a name.
pub open spec fn last_named(v: Seq<(String, usize)>, name: Seq<char>) -> Option<usize>
    decreases v.len(),
{
    if v.len() == 0 {
        None
    } else if v.last().0@ == name {
        Some(v.last().1)
    } else {
        last_named(v.drop_last(), name)
    }
}

/// A value that was given, unless it is `None`.
pub open spec fn given_value(items: Seq<Item>, h: Option<usize>) -> Option<usize> {
    if h is Some && items[h->Some_0 as int] != Item::Nothing {
        h
    } else {
        None
    }
}

proof fn lemma_argument_names()
    ensures
        "checks"@ != "default"@,
        "checks"@ != "allowed"@,
        "checks"@ != "optional"@,
        "checks"@ != "help"@,
        "checks"@ != "direction"@,
        "default"@ != "allowed"@,
        "default"@ != "optional"@,
        "default"@ != "help"@,
        "default"@ != "direction"@,
        "allowed"@ != "optional"@,
        "allowed"@ != "help"@,
        "allowed"@ != "direction"@,
        "optional"@ != "help"@,
        "optional"@ != "direction"@,
        "help"@ != "direction"@,
{
    reveal_strlit("checks");
    reveal_strlit("default");
    reveal_strlit("allowed");
    reveal_strlit("optional");
    reveal_strlit("help");
    reveal_strlit("direction");
    assert("checks"@.len() == 6);
    assert("default"@.len() == 7 && "default"@[0] == 'd');
    assert("allowed"@.len() == 7 && "allowed"@[0] == 'a');
    assert("optional"@.len() == 8);
    assert("help"@.len() == 4);
    assert("direction"@.len() == 9);
}

/// Each named argument of a declaration is what was last given under its name: a value unless it is
/// `None`, a truth value, a text or `None`, or the direction that was read. No other names are taken,
/// and `config()` takes no direction, nor `io()` values to choose from.
pub proof fn law_named_arguments(
    kind: ParamKind,
    items: Seq<Item>,
    v: Seq<(String, usize)>,
    direction: Result<Option<IoDirection>, Seq<char>>,
)
    requires
        named_arguments(kind, items, v, direction) is Ok,
    ensures
        ({
            let n = named_arguments(kind, items, v, direction)->Ok_0;
            let optional = last_named(v, "optional"@);
            let help = last_named(v, "help"@);
            &&& n.checks == given_value(items, last_named(v, "checks"@))
            &&& n.default == given_value(items, last_named(v, "default"@))
            &&& n.allowed == given_value(items, last_named(v, "allowed"@))
            &&& optional is None ==> n.optional is None
            &&& optional is Some ==> n.optional is Some && items[optional->Some_0 as int]
                == Item::Bool(n.optional->Some_0)
            &&& help is None ==> n.help is None
            &&& help is Some ==> match items[help->Some_0 as int] {
                Item::Text(s) => n.help == Some(s@),
                Item::Nothing => n.help is None,
                _ => false,
            }
            &&& last_named(v, "direction"@) is None ==> n.direction is None
            &&& last_named(v, "direction"@) is Some ==> direction == Ok::<_, Seq<char>>(n.direction)
            &&& kind == ParamKind::Config ==> last_named(v, "direction"@) is None
            &&& kind == ParamKind::Io ==> last_named(v, "allowed"@) is None
        }),
    decreases v.len(),
{
    lemma_argument_names();
    if v.len() > 0 {
        law_named_arguments(kind, items, v.drop_last(), direction);
    }
}

/// Every name of an argument that is accepted is one that the declaration takes.
pub proof fn law_names_of_arguments(
    kind: ParamKind,
    items: Seq<Item>,
    v: Seq<(String, usize)>,
    direction: Result<Option<IoDirection>, Seq<char>>,
    i: int,
)
    requires
        named_arguments(kind, items, v, direction) is Ok,
        0 <= i < v.len(),
    ensures
        ({
            let name = v[i].0@;
            ||| name == "checks"@
            ||| name == "default"@
            ||| name == "optional"@
            ||| name == "help"@
            ||| name == "allowed"@ && kind == ParamKind::Config
            ||| name == "direction"@ && kind == ParamKind::Io
        }),
    decreases v.len(),
{
    let d = v.drop_last();
    if i < d.len() {
        assert(d[i] == v[i]);
        law_names_of_arguments(kind, items, d, direction, i);
    }
}

/// A text that comes first is the name; the type follows it, or comes first; and checks may come last,
/// unless they are given by name too. All else is what the named arguments say.
pub proof fn law_declaration(
    kind: ParamKind,
    items: Seq<Item>,
    positional: Seq<usize>,
    named: Seq<(String, usize)>,
    direction: Result<Option<IoDirection>, Seq<char>>,
)
    ensures
        positional.len() == 0 || positional.len() > 3 ==> declaration(
            kind,
            items,
            positional,
            named,
            direction,
        ) is Err,
        named_arguments(kind, items, named, direction) is Err ==> declaration(
            kind,
            items,
            positional,
            named,
            direction,
        ) is Err,
        match declaration(kind, items, positional, named, direction) {
            Ok((name, d)) => {
                let n = named_arguments(kind, items, named, direction)->Ok_0;
                let first = items[positional[0] as int];
                let k: int = if first is Text {
                    1
                } else {
                    0
                };
                let checks = if positional.len() == k + 2 {
                    given_value(items, Some(positional[k + 1]))
                } else {
                    None
                };
                &&& k + 1 <= positional.len() <= k + 2
                &&& first is Text ==> name == Some(first->Text_0@)
                &&& !(first is Text) ==> name is None
                &&& d.typ == positional[k]
                &&& d.named.checks == (if checks is Some {
                    checks
                } else {
                    n.checks
                })
                &&& !(checks is Some && n.checks is Some)
                &&& d.named.default == n.default
                &&& d.named.allowed == n.allowed
                &&& d.named.optional == n.optional
                &&& d.named.help == n.help
                &&& d.named.direction == n.direction
            },
            Err(_) => true,
        },
{
}

// ---------------------------------------------------------------------------------------------
// Nets of inputs

/// The net that is made of a model keeps its number, its type and whether it is open. An open net has
/// no name; a model without a name of its own goes by the name of the input.
pub proof fn law_net_of_model(
    n: NetView,
    name: Seq<char>,
    items: Seq<Item>,
    at: int,
    site: PlaceView,
)
    ensures
        ({
            let r = net_of_template(n, name, items, at, site);
            &&& r.net_id == n.net_id
            &&& r.type_label == n.type_label
            &&& r.connection_intent == n.connection_intent
            &&& r.was_bound == n.was_bound
            &&& !r.assignment_inferable
            &&& r.inferred_name is None
            &&& r.declaration_path == site.path
            &&& r.declaration_span == site.span
            &&& n.connection_intent == ConnectionIntent::Open ==> r.name.len() == 0
                && r.original_name is None && r.template_name is None
            &&& n.connection_intent == ConnectionIntent::Connected ==> r.template_name
                == n.template_name
            &&& n.connection_intent == ConnectionIntent::Connected && n.template_name is None
                ==> r.name == name && r.original_name == Some(name)
            &&& n.connection_intent == ConnectionIntent::Connected && n.template_name is Some ==> {
                &&& r.original_name == n.original_name
                &&& r.name == (if n.original_name is Some {
                    n.original_name->Some_0
                } else if n.inferred_name is Some {
                    n.inferred_name->Some_0
                } else {
                    n.name
                })
            }
        }),
{
}

/// A net that is brought here keeps its number and its name; it is seen as one of the input's type,
/// unless it is open.
pub proof fn law_net_brought_here(n: NetView, type_label: Seq<char>)
    ensures
        ({
            let r = brought_here(n, type_label);
            &&& r.net_id == n.net_id
            &&& r.connection_intent == n.connection_intent
            &&& r.properties == n.properties
            &&& r.name == (if n.inferred_name is Some {
                n.inferred_name->Some_0
            } else {
                n.name
            })
            &&& n.connection_intent == ConnectionIntent::Open ==> r.type_label == n.type_label
            &&& n.connection_intent != ConnectionIntent::Open ==> r.type_label == type_label
        }),
{
}

/// A net that is provided for an input is the one that the input gets, where it has a name or is open.
/// One that has none becomes a net of the input's type and name, and keeps its number.
pub proof fn law_provided_net(
    name: Seq<char>,
    value: usize,
    typ: usize,
    given: Seq<FieldGiven>,
    name_error: Option<Seq<char>>,
    site: PlaceView,
    before: Seq<Item>,
    id: u64,
    after: Seq<Item>,
    next: u64,
    r: NetOutcome,
)
    requires
        io_net_provided(
            name,
            value,
            typ,
            false,
            given,
            name_error,
            site,
            before,
            id,
            after,
            next,
            r,
        ),
        value < before.len(),
    ensures
        next == id,
        ({
            let item = before[value as int];
            let kept = !(before[typ as int] is NetType && item is Net)
                || item->Net_0.connection_intent == ConnectionIntent::Open || (
            if item->Net_0.inferred_name is Some {
                item->Net_0.inferred_name->Some_0@
            } else {
                item->Net_0.name@
            }).len() > 0;
            &&& kept ==> r.net == Ok::<usize, String>(value) && after == before
            &&& !kept && r.net is Ok ==> {
                let n = net_of(after[r.net->Ok_0 as int]);
                &&& n is Some
                &&& n->Some_0@.name == name
                &&& n->Some_0@.original_name == Some(name)
                &&& n->Some_0@.type_label == before[typ as int]->NetType_0.type_label@
                &&& n->Some_0@.net_id == item->Net_0@.net_id
                &&& n->Some_0@.connection_intent == ConnectionIntent::Connected
            }
        }),
{
    let item = before[value as int];
    if before[typ as int] is NetType && item is Net {
        let here = after.take(before.len() as int);
        assert(here[value as int] == before[value as int]);
        assert(after.take(after.len() as int) =~= after);
        if after.len() == before.len() {
            assert(here =~= before);
        }
    }
}

// ---------------------------------------------------------------------------------------------
// Calls that make nets

/// A net that is made alone takes the next number, and no later one has it; one that is made from
/// another keeps the other's. What was there stays.
pub proof fn law_net_takes_number(
    t: &NetType,
    q: NetRequest,
    before: Seq<Item>,
    id: u64,
    after: Seq<Item>,
    next: u64,
    r: NetOutcome,
)
    requires
        net_made(t, q, before, id, after, next, r),
        q.base is Some ==> net_of(before[q.base->Some_0 as int]) is Some,
    ensures
        id <= next <= id + 1,
        before.len() <= after.len(),
        forall|i: int| 0 <= i < before.len() ==> #[trigger] after[i] == before[i],
        r.net is Err ==> after == before && r.registration is None,
        r.net is Ok ==> {
            let n = net_of(after[r.net->Ok_0 as int]);
            &&& before.len() <= r.net->Ok_0 < after.len()
            &&& n is Some
            &&& q.base is None ==> n->Some_0@.net_id == id && next == id + 1
            &&& q.base is Some ==> n->Some_0@.net_id == net_of(
                before[q.base->Some_0 as int],
            )->Some_0@.net_id && next == id
            &&& n->Some_0@.type_label == t.type_label@
            &&& r.registration is Some <==> q.options.should_register
        },
{
}

/// A net that is refused its name is not made, where a name counts; a name that is given for an open
/// net is pointed out.
pub proof fn law_names_of_made_nets(
    t: &NetType,
    q: NetRequest,
    before: Seq<Item>,
    id: u64,
    after: Seq<Item>,
    next: u64,
    r: NetOutcome,
)
    requires
        net_made(t, q, before, id, after, next, r),
    ensures
        ({
            let open = q.options.intent == NetInstantiateIntent::PreserveBase && base_view(
                before,
                q.base,
            ) is Some && base_view(before, q.base)->Some_0.connection_intent
                == ConnectionIntent::Open;
            &&& q.explicit is Some && !open && q.name_error is Some ==> r.net is Err
                && r.net->Err_0@ == q.name_error->Some_0 && next == id
            &&& r.ignored is Some <==> q.explicit is Some && open
        }),
{
}

/// Each field has the value that its own check says, the first that fails is to blame, and a call
/// where none fails is accepted.
pub proof fn law_fields_are_checked(
    fields: Seq<(Seq<char>, usize)>,
    given: Seq<FieldGiven>,
    items: Seq<Item>,
)
    requires
        distinct(fields),
        given.len() == fields.len(),
    ensures
        match fields_outcome(fields, given, items) {
            Ok(accepted) => distinct(accepted) && (forall|i: int|
                0 <= i < fields.len() ==> field_value((#[trigger] given[i]).check) == Ok::<
                    Option<usize>,
                    (),
                >(under(accepted, fields[i].0))) && (forall|q: Seq<char>| #[trigger]
                under(accepted, q) is Some ==> exists|i: int|
                    0 <= i < fields.len() && (#[trigger] fields[i]).0 == q),
            Err(_) => exists|i: int|
                0 <= i < fields.len() && field_outcome(
                    fields[i].0,
                    #[trigger] given[i],
                    items,
                ) is Err,
        },
        (forall|i: int|
            0 <= i < fields.len() ==> (#[trigger] given[i]).conversion_error is None && field_value(
                given[i].check,
            ) is Ok) ==> fields_outcome(fields, given, items) is Ok,
    decreases fields.len(),
{
    if fields.len() > 0 {
        let d = fields.drop_last();
        let g = given.drop_last();
        let n = fields.len() - 1;
        assert forall|i: int, j: int| 0 <= i < j < d.len() implies (#[trigger] d[i]).0 != (
        #[trigger] d[j]).0 by {
            assert(fields[i].0 != fields[j].0);
        }
        law_fields_are_checked(d, g, items);
        assert(fields[n] == fields.last());
        assert(given[n] == given.last());
        let before = fields_outcome(d, g, items);
        if forall|i: int|
            0 <= i < fields.len() ==> (#[trigger] given[i]).conversion_error is None && field_value(
                given[i].check,
            ) is Ok {
            assert forall|i: int| 0 <= i < d.len() implies (#[trigger] g[i]).conversion_error is None
                && field_value(g[i].check) is Ok by {
                assert(g[i] == given[i]);
            }
            assert(given[n].conversion_error is None && field_value(given[n].check) is Ok);
        }
        match before {
            Err(_) => {
                let i = choose|i: int|
                    0 <= i < d.len() && field_outcome(d[i].0, #[trigger] g[i], items) is Err;
                assert(given[i] == g[i]);
                assert(fields[i] == d[i]);
            },
            Ok(accepted) => {
                let key = fields.last().0;
                assert(under(accepted, key) is None) by {
                    if under(accepted, key) is Some {
                        let i = choose|i: int| 0 <= i < d.len() && (#[trigger] d[i]).0 == key;
                        assert(fields[i].0 != fields[n].0);
                    }
                }
                match field_outcome(key, given.last(), items) {
                    Err(_) => {
                        assert(field_outcome(fields[n].0, given[n], items) is Err);
                    },
                    Ok(o) => {
                        if o is Some {
                            lemma_put(accepted, key, o->Some_0);
                        }
                        let after = fields_outcome(fields, given, items)->Ok_0;
                        assert forall|i: int| 0 <= i < fields.len() implies field_value(
                            (#[trigger] given[i]).check,
                        ) == Ok::<Option<usize>, ()>(under(after, fields[i].0)) by {
                            if i < n {
                                assert(g[i] == given[i]);
                                assert(d[i] == fields[i]);
                                assert(fields[i].0 != fields[n].0);
                            }
                        }
                        assert forall|q: Seq<char>| #[trigger]
                            under(after, q) is Some implies exists|i: int|
                            0 <= i < fields.len() && (#[trigger] fields[i]).0 == q by {
                            if q == key {
                                assert(fields[n].0 == q);
                            } else {
                                assert(under(accepted, q) is Some);
                                let i = choose|i: int| 0 <= i < d.len() && (#[trigger] d[i]).0 == q;
                                assert(fields[i] == d[i]);
                            }
                        }
                    },
                }
            },
        }
    }
}

/// The fields that count as given are those that a value was given for.
pub proof fn law_fields_that_are_given(
    fields: Seq<(Seq<char>, usize)>,
    given: Seq<FieldGiven>,
    q: Seq<char>,
)
    requires
        given.len() == fields.len(),
    ensures
        names_given(fields, given).contains(q) <==> exists|i: int|
            0 <= i < fields.len() && (#[trigger] fields[i]).0 == q && given[i].check.provided is Some,
    decreases fields.len(),
{
    if fields.len() > 0 {
        let d = fields.drop_last();
        let g = given.drop_last();
        let n = fields.len() - 1;
        law_fields_that_are_given(d, g, q);
        assert(fields[n] == fields.last());
        assert(given[n] == given.last());
        let before = names_given(d, g);
        let after = names_given(fields, given);
        if after.contains(q) {
            let i = choose|i: int| 0 <= i < after.len() && after[i] == q;
            if i < before.len() {
                assert(before[i] == q);
                let k = choose|k: int|
                    0 <= k < d.len() && (#[trigger] d[k]).0 == q && g[k].check.provided is Some;
                assert(fields[k] == d[k] && given[k] == g[k]);
            }
        }
        if exists|i: int|
            0 <= i < fields.len() && (#[trigger] fields[i]).0 == q && given[i].check.provided is Some {
            let i = choose|i: int|
                0 <= i < fields.len() && (#[trigger] fields[i]).0 == q
                    && given[i].check.provided is Some;
            if i < n {
                assert(d[i] == fields[i] && g[i] == given[i]);
                let k = choose|k: int| 0 <= k < before.len() && before[k] == q;
                assert(after[k] == q);
            } else {
                assert(after[before.len() as int] == q);
            }
        }
    }
}

/// A net is called with a text, or a net, or nothing, and its name is a text.
pub proof fn law_arguments_of_net(
    t: &NetType,
    items: Seq<Item>,
    positional: Option<usize>,
    keyword: Option<usize>,
)
    ensures
        argument_error(t, items, positional, keyword) is None <==> (keyword is Some
            ==> items[keyword->Some_0 as int] is Text) && (positional is Some
            ==> items[positional->Some_0 as int] is Text || items[positional->Some_0 as int] is Net),
{
}

/// The name that is given by name counts before the text that is given first; a net that is given
/// first is the one that the new net is made from. A net takes the name of its variable where it is
/// given none, unless it is made from one that is connected.
pub proof fn law_arguments_are_read(
    items: Seq<Item>,
    positional: Option<usize>,
    keyword: Option<usize>,
)
    ensures
        ({
            let (base, explicit, inferable) = read_arguments(items, positional, keyword);
            &&& base == (if positional is Some && items[positional->Some_0 as int] is Net {
                positional
            } else {
                None
            })
            &&& keyword is Some && items[keyword->Some_0 as int] is Text ==> explicit == Some(
                items[keyword->Some_0 as int]->Text_0@,
            )
            &&& keyword is None && positional is Some && items[positional->Some_0 as int] is Text
                ==> explicit == Some(items[positional->Some_0 as int]->Text_0@)
            &&& keyword is None && !(positional is Some && items[positional->Some_0 as int] is Text)
                ==> explicit is None
            &&& explicit is Some ==> !inferable
            &&& explicit is None ==> inferable == (base is None
                || items[base->Some_0 as int]->Net_0.connection_intent == ConnectionIntent::Open)
        }),
{
}

/// An open net is called with one text at most, and with no name but `name`.
pub proof fn law_arguments_of_open_net(
    positional: Seq<usize>,
    named: Seq<(String, usize)>,
    items: Seq<Item>,
)
    ensures
        open_net_error(positional, named, items) is None <==> positional.len() <= 1 && (
        positional.len() == 1 ==> items[positional[0] as int] is Text) && forall|i: int|
            0 <= i < named.len() ==> is_name(#[trigger] named[i], items),
{
    lemma_named_error(named, items);
}

/// Whether a named argument is a text under `name`.
pub open spec fn is_name(e: (String, usize), items: Seq<Item>) -> bool {
    e.0@ == "name"@ && items[e.1 as int] is Text
}

proof fn lemma_named_error(named: Seq<(String, usize)>, items: Seq<Item>)
    ensures
        named_error(named, items) is None <==> forall|i: int|
            0 <= i < named.len() ==> is_name(#[trigger] named[i], items),
    decreases named.len(),
{
    if named.len() > 0 {
        let d = named.drop_last();
        lemma_named_error(d, items);
        assert(named[named.len() - 1] == named.last());
        if named_error(named, items) is None {
            assert forall|i: int| 0 <= i < named.len() implies is_name(#[trigger] named[i], items) by {
                if i < d.len() {
                    assert(d[i] == named[i]);
                }
            }
        }
        if forall|i: int| 0 <= i < named.len() ==> is_name(#[trigger] named[i], items) {
            assert forall|i: int| 0 <= i < d.len() implies is_name(#[trigger] d[i], items) by {
                assert(d[i] == named[i]);
            }
        }
    }
}

/// An open net has no name and no type but that of a net, and was not bound.
pub proof fn law_open_net(net_id: u64, site: PlaceView)
    ensures
        open_net(net_id, site).connection_intent == ConnectionIntent::Open,
        open_net(net_id, site).net_id == net_id,
        open_net(net_id, site).name.len() == 0,
        open_net(net_id, site).original_name is None,
        open_net(net_id, site).type_label == "Net"@,
        open_net(net_id, site).declaration_path == site.path,
{
}

/// The fields of a net type are accepted exactly where none is called `name` and each is specified
/// well.
pub proof fn law_fields_of_net_type(fields: Seq<(Seq<char>, usize)>, errors: Seq<Option<String>>)
    requires
        errors.len() >= fields.len(),
    ensures
        field_error(fields, errors) is None <==> forall|i: int|
            0 <= i < fields.len() ==> (#[trigger] fields[i]).0 != "name"@ && errors[i] is None,
    decreases fields.len(),
{
    if fields.len() > 0 {
        let d = fields.drop_last();
        law_fields_of_net_type(d, errors);
        if field_error(fields, errors) is None {
            assert forall|i: int| 0 <= i < fields.len() implies (#[trigger] fields[i]).0 != "name"@
                && errors[i] is None by {
                if i < d.len() {
                    assert(d[i] == fields[i]);
                }
            }
        }
        if forall|i: int|
            0 <= i < fields.len() ==> (#[trigger] fields[i]).0 != "name"@ && errors[i] is None {
            assert forall|i: int| 0 <= i < d.len() implies (#[trigger] d[i]).0 != "name"@
                && errors[i] is None by {
                assert(d[i] == fields[i]);
            }
        }
    }
}

/// Names that are missing are added, each once, and those that are there stay in front.
pub proof fn law_missing_names_are_added(names: Seq<Seq<char>>, more: Seq<Seq<char>>)
    ensures
        names.len() <= with_missing(names, more).len(),
        with_missing(names, more).take(names.len() as int) == names,
        forall|q: Seq<char>| #[trigger]
            with_missing(names, more).contains(q) <==> names.contains(q) || more.contains(q),
        names.no_duplicates() ==> with_missing(names, more).no_duplicates(),
    decreases more.len(),
{
    if more.len() == 0 {
        assert(names.take(names.len() as int) =~= names);
    } else {
        let d = more.drop_last();
        let last = more.last();
        law_missing_names_are_added(names, d);
        let before = with_missing(names, d);
        let after = with_missing(names, more);
        assert(more[more.len() - 1] == last);
        assert(after.take(names.len() as int) =~= before.take(names.len() as int));
        assert forall|q: Seq<char>| #[trigger] after.contains(q) <==> names.contains(q)
            || more.contains(q) by {
            assert(before.contains(q) <==> names.contains(q) || d.contains(q));
            if after.contains(q) {
                let i = choose|i: int| 0 <= i < after.len() && after[i] == q;
                if i < before.len() {
                    assert(before[i] == q);
                }
            }
            if before.contains(q) {
                let i = choose|i: int| 0 <= i < before.len() && before[i] == q;
                assert(after[i] == q);
            }
            if d.contains(q) {
                let i = choose|i: int| 0 <= i < d.len() && d[i] == q;
                assert(more[i] == q);
            }
            if more.contains(q) {
                let i = choose|i: int| 0 <= i < more.len() && more[i] == q;
                if i < d.len() {
                    assert(d[i] == q);
                } else if !before.contains(q) {
                    assert(after[before.len() as int] == q);
                }
            }
        }
        if names.no_duplicates() {
            assert forall|i: int, j: int| 0 <= i < after.len() && 0 <= j < after.len() && i != j implies after[i]
                != after[j] by {
                if i == before.len() {
                    assert(before.contains(before[j]));
                }
                if j == before.len() {
                    assert(before.contains(before[i]));
                }
            }
        }
    }
}

} // verus!
