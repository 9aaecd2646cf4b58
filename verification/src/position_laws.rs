//! What holds of the positions of symbols in a schematic, and of what is said about its parts.

use vstd::prelude::*;

use crate::convert::{bound_name, component_fault, components_fault, field_path, field_path_in};
use crate::convert::{final_key, is_dnp, is_net_name, is_unused, known_net, modules_fault};
use crate::convert::{multi_port, names_instance, net_along, net_ids, net_ids_of_fields};
use crate::convert::{net_symbol_key, open_net_notes, overrides, placed_key, port_name, sanitized};
use crate::convert::{unused_io, unused_params, walked, walked_modules, with_aliases};
use crate::convert::{with_impedance, with_impedance_of_fields, with_impedance_of_modules};
use crate::convert::{with_impedance_of_params, with_model_attributes, with_models};
use crate::convert::{with_own_impedance, with_position, Model, ModuleParam, ModuleValue};
use crate::convert::{NetInfoView, PositionEntry};
use crate::diagnostic::{NoticeView, Severity};
use crate::lang::component_value::ComponentValue;
use crate::lang::interface::{owned_in_fields, owned_nets};
use crate::lang::net::resolved_name;
use crate::lang::value::Item;
use crate::schematic::{attribute_from, form_of, forms_of, path_before, AttributeView, InstanceKind};
use crate::schematic::{JsonView, ScalarView};
use crate::small_map::{distinct, handles_in, lemma_place, under};
use crate::text::{begins, cut_last, first_at, joined, last_at, law_join_split, lemma_first_at};
use crate::text::{lemma_last_at, pieces};

verus! {

// ---------------------------------------------------------------------------------------------
// Keys of symbols

/// Names lead on from where the names before them lead; one name leads to the child of that name.
pub proof fn law_names_lead_on(
    m: Model,
    path: Seq<Seq<char>>,
    a: Seq<Seq<char>>,
    b: Seq<Seq<char>>,
    name: Seq<char>,
)
    ensures
        walked(m, path, a + b) == (match walked(m, path, a) {
            Some(at) => walked(m, at, b),
            None => None,
        }),
        walked(m, path, seq![name]) == (if m.instances.dom().contains(path)
            && m.instances[path].children.dom().contains(name) {
            Some(m.instances[path].children[name])
        } else {
            None
        }),
        walked(m, path, Seq::<Seq<char>>::empty()) == Some(path),
    decreases b.len(),
{
    let one = seq![name];
    assert(one.drop_last() =~= Seq::<Seq<char>>::empty());
    assert(one.last() == name);
    assert(walked(m, path, one.drop_last()) == Some(path));
    if b.len() == 0 {
        assert(a + b =~= a);
    } else {
        law_names_lead_on(m, path, a, b.drop_last(), name);
        assert((a + b).drop_last() =~= a + b.drop_last());
        assert((a + b).last() == b.last());
    }
}

/// What follows an `@` in a key does not count.
pub proof fn law_key_of_unit(m: Model, path: Seq<Seq<char>>, key: Seq<char>, unit: Seq<char>)
    requires
        !key.contains('@'),
    ensures
        names_instance(m, path, key + seq!['@'] + unit) == names_instance(m, path, key),
{
    let s = key + seq!['@'] + unit;
    lemma_first_at(s, '@');
    lemma_first_at(key, '@');
    assert(s[key.len() as int] == '@');
    let k = first_at(s, '@');
    if k < key.len() {
        assert(key[k] == '@');
    }
    assert(s.take(k) =~= key);
    assert(key.take(key.len() as int) =~= key);
}

/// A key within a module that names an instance inside it is that of a component, whatever nets there
/// are.
pub proof fn law_key_of_component(
    m: Model,
    items: Seq<Item>,
    v: ModuleValue,
    names: Seq<Seq<char>>,
)
    requires
        names.len() > 0,
        forall|i: int|
            0 <= i < names.len() ==> !(#[trigger] names[i]).contains('.') && !names[i].contains('@'),
        walked(m, v.path@, names) is Some,
        m.instances.dom().contains(walked(m, v.path@, names)->Some_0),
    ensures
        placed_key(m, items, v, joined(names, seq!['.'])) == Some(
            "comp:"@ + joined(names, seq!['.']),
        ),
{
    let key = joined(names, seq!['.']);
    law_join_split(names, '.');
    lemma_joined_without(names, '@');
    lemma_first_at(key, '@');
    assert(key.take(key.len() as int) =~= key);
}

proof fn lemma_joined_without(names: Seq<Seq<char>>, c: char)
    requires
        c != '.',
        forall|i: int| 0 <= i < names.len() ==> !(#[trigger] names[i]).contains(c),
    ensures
        !joined(names, seq!['.']).contains(c),
    decreases names.len(),
{
    let s = joined(names, seq!['.']);
    if names.len() > 1 {
        let d = names.drop_last();
        let t = joined(d, seq!['.']);
        assert forall|i: int| 0 <= i < d.len() implies !(#[trigger] d[i]).contains(c) by {
            assert(d[i] == names[i]);
        }
        lemma_joined_without(d, c);
        assert(names[names.len() - 1] == names.last());
        if s.contains(c) {
            let i = choose|i: int| 0 <= i < s.len() && s[i] == c;
            if i < t.len() {
                assert(t[i] == c);
            } else if i > t.len() {
                assert(names.last()[i - t.len() - 1] == c);
            }
        }
    } else if names.len() == 1 {
        assert(!names[0].contains(c));
    }
}

/// The key of a net's symbol holds the name of the net and the number of the symbol: for a net of the
/// root its own name, for one inside the path of the module before it, and for one that the module is
/// given the name that it has outside. Where no net has the name there is no key.
pub proof fn law_key_of_net(
    m: Model,
    items: Seq<Item>,
    v: ModuleValue,
    name: Seq<char>,
    number: Seq<char>,
)
    requires
        !name.contains('.'),
        !number.contains('.'),
    ensures
        ({
            let full = if v.path@.len() == 0 {
                name
            } else {
                joined(v.path@, seq!['.']) + seq!['.'] + name
            };
            let r = net_symbol_key(m, items, v, name + seq!['.'] + number);
            &&& match bound_name(m, items, v.signature@, name) {
                Some(outside) => r == Some("sym:"@ + outside + "#"@ + number),
                None => if is_net_name(m, full) {
                    r == Some("sym:"@ + full + "#"@ + number)
                } else {
                    r is None
                },
            }
            &&& net_symbol_key(m, items, v, name) == net_symbol_key(
                m,
                items,
                v,
                name + seq!['.', '1'],
            )
        }),
{
    let key = name + seq!['.'] + number;
    reveal_strlit(".");
    reveal_strlit("1");
    assert("."@ =~= seq!['.']);
    assert("1"@ =~= seq!['1']);
    lemma_cut(name, number);
    assert(name + seq!['.'] + seq!['1'] =~= name + seq!['.', '1']);
    lemma_cut(name, seq!['1']);
    lemma_last_at(name, '.');
    assert(cut_last(name, '.') is None);
    law_join_split(seq![name], '.');
    assert(joined(seq![name], seq!['.']) == name);
    assert(pieces(name, '.').len() == 1);
}

proof fn lemma_cut(a: Seq<char>, b: Seq<char>)
    requires
        !b.contains('.'),
    ensures
        cut_last(a + seq!['.'] + b, '.') == Some((a, b)),
{
    let s = a + seq!['.'] + b;
    lemma_last_at(s, '.');
    let k = last_at(s, '.');
    assert(s[a.len() as int] == '.');
    if k > a.len() {
        assert(b[k - a.len() - 1] == '.');
    }
    assert(s.take(k) =~= a);
    assert(s.skip(k + 1) =~= b);
}

/// A name is that of a net seen from inside exactly where it is the names of some modules and then the
/// name of a net.
pub proof fn law_nets_seen_from_inside(
    m: Model,
    path: Seq<Seq<char>>,
    names: Seq<Seq<char>>,
    from: int,
)
    requires
        0 <= from,
        forall|a: int, b: int|
            #![trigger walked_modules(m, path, names.take(a)), walked_modules(m, path, names.take(b))]
            0 <= a <= b <= names.len() && walked_modules(m, path, names.take(b)) is Some
                ==> walked_modules(m, path, names.take(a)) is Some,
    ensures
        overrides(m, path, names, from) <==> exists|k: int|
            from <= k < names.len() && walked_modules(m, path, names.take(k)) is Some && is_net_name(
                m,
                joined(#[trigger] names.skip(k), "."@),
            ),
    decreases names.len() - from,
{
    if from < names.len() {
        law_nets_seen_from_inside(m, path, names, from + 1);
        if overrides(m, path, names, from) {
            if is_net_name(m, joined(names.skip(from), "."@)) {
                assert(from <= from < names.len());
            } else {
                let k = choose|k: int|
                    from + 1 <= k < names.len() && walked_modules(m, path, names.take(k)) is Some
                        && is_net_name(m, joined(#[trigger] names.skip(k), "."@));
                assert(from <= k);
            }
        }
        if exists|k: int|
            from <= k < names.len() && walked_modules(m, path, names.take(k)) is Some && is_net_name(
                m,
                joined(#[trigger] names.skip(k), "."@),
            ) {
            let k = choose|k: int|
                from <= k < names.len() && walked_modules(m, path, names.take(k)) is Some
                    && is_net_name(m, joined(#[trigger] names.skip(k), "."@));
            assert(walked_modules(m, path, names.take(from)) is Some);
            if k > from {
                assert(from + 1 <= k);
            }
        }
    }
}

/// Modules lead on from where the modules before them lead, and only modules do.
pub proof fn law_modules_lead_on(m: Model, path: Seq<Seq<char>>, names: Seq<Seq<char>>)
    requires
        names.len() > 0,
    ensures
        match walked_modules(m, path, names) {
            Some(at) => {
                &&& walked_modules(m, path, names.drop_last()) is Some
                &&& ({
                    let parent = walked_modules(m, path, names.drop_last())->Some_0;
                    &&& m.instances.dom().contains(parent)
                    &&& m.instances[parent].children.dom().contains(names.last())
                    &&& m.instances[parent].children[names.last()] == at
                })
                &&& m.instances.dom().contains(at)
                &&& m.instances[at].kind == InstanceKind::Module
            },
            None => match walked_modules(m, path, names.drop_last()) {
                Some(parent) => !(m.instances.dom().contains(parent)
                    && m.instances[parent].children.dom().contains(names.last()) && {
                    let at = m.instances[parent].children[names.last()];
                    m.instances.dom().contains(at) && m.instances[at].kind == InstanceKind::Module
                }),
                None => true,
            },
        },
{
    if let Some(parent) = walked_modules(m, path, names.drop_last()) {
        law_names_lead_on(
            m,
            parent,
            Seq::<Seq<char>>::empty(),
            Seq::<Seq<char>>::empty(),
            names.last(),
        );
    }
}

/// The value that names of fields lead to.
pub open spec fn value_along(items: Seq<Item>, h: usize, path: Seq<Seq<char>>) -> Option<usize>
    decreases path.len(),
{
    if path.len() == 0 {
        Some(h)
    } else {
        match items[h as int] {
            Item::Interface(v) => match under(handles_in(v.fields), path[0]) {
                Some(child) => value_along(items, child, path.skip(1)),
                None => None,
            },
            _ => None,
        }
    }
}

/// Whether the fields of every interface are apart.
pub open spec fn fields_apart(items: Seq<Item>) -> bool {
    forall|h: int|
        0 <= h < items.len() ==> match #[trigger] items[h] {
            Item::Interface(v) => distinct(handles_in(v.fields)),
            _ => true,
        }
}

/// The names of fields that are found for a net lead to a net of that name.
pub proof fn law_fields_lead_to_net(items: Seq<Item>, h: usize, name: Seq<char>)
    requires
        fields_apart(items),
        h < items.len(),
        field_path(items, h, name) is Some,
    ensures
        ({
            let at = value_along(items, h, field_path(items, h, name)->Some_0);
            &&& at is Some
            &&& items[at->Some_0 as int] is Net
            &&& resolved_name(items[at->Some_0 as int]->Net_0@) == name
        }),
    decreases h, 1int, 0int,
{
    if let Item::Interface(v) = items[h as int] {
        let f = handles_in(v.fields);
        assert(f.skip(0) =~= f);
        lemma_field_path(items, h, f, 0, name);
    }
}

proof fn lemma_field_path(
    items: Seq<Item>,
    h: usize,
    f: Seq<(Seq<char>, usize)>,
    k: int,
    name: Seq<char>,
)
    requires
        fields_apart(items),
        h < items.len(),
        items[h as int] is Interface,
        f == handles_in(items[h as int]->Interface_0.fields),
        0 <= k <= f.len(),
        field_path_in(items, h, f.skip(k), name) is Some,
    ensures
        ({
            let at = value_along(items, h, field_path_in(items, h, f.skip(k), name)->Some_0);
            &&& at is Some
            &&& items[at->Some_0 as int] is Net
            &&& resolved_name(items[at->Some_0 as int]->Net_0@) == name
        }),
    decreases h, 0int, f.len() - k,
{
    let g = f.skip(k);
    if k < f.len() {
        assert(g[0] == f[k]);
        assert(g.skip(1) =~= f.skip(k + 1));
        let here = if g[0].1 < h {
            field_path(items, g[0].1, name)
        } else {
            None
        };
        match here {
            Some(p) => {
                law_fields_lead_to_net(items, g[0].1, name);
                let path = seq![g[0].0] + p;
                assert(path.skip(1) =~= p);
                assert(distinct(f));
                lemma_place(f, f[k].0);
                let at = crate::small_map::place(f, f[k].0);
                if at < k {
                    assert(f[at].0 != f[k].0);
                }
                assert(under(f, f[k].0) == Some(f[k].1));
            },
            None => {
                lemma_field_path(items, h, f, k + 1, name);
            },
        }
    }
}

/// The net along some names of fields is the one that they lead to.
pub proof fn law_net_along_fields(items: Seq<Item>, h: usize, path: Seq<Seq<char>>)
    ensures
        net_along(items, h, path) == (match value_along(items, h, path) {
            Some(at) => match items[at as int] {
                Item::Net(n) => Some(n.net_id),
                _ => None,
            },
            None => None,
        }),
    decreases path.len(),
{
    if path.len() > 0 {
        if let Item::Interface(v) = items[h as int] {
            if let Some(child) = under(handles_in(v.fields), path[0]) {
                law_net_along_fields(items, child, path.skip(1));
            }
        }
    }
}

/// Whether a parameter gives a net of the module the name of another.
pub open spec fn is_bound(m: Model, items: Seq<Item>, p: ModuleParam, name: Seq<char>, outside: Seq<char>) -> bool {
    &&& !p.is_config
    &&& p.default_value is Some
    &&& p.actual_value is Some
    &&& field_path(items, p.default_value->Some_0, name) is Some
    &&& ({
        let id = net_along(
            items,
            p.actual_value->Some_0,
            field_path(items, p.default_value->Some_0, name)->Some_0,
        );
        id is Some && known_net(m.nets, id->Some_0).name == Some(outside)
    })
}

/// A net of a module that is an input or output goes by the name of the net that it is given: the
/// first parameter that gives one counts.
pub proof fn law_inputs_go_by_outside_names(
    m: Model,
    items: Seq<Item>,
    v: Seq<ModuleParam>,
    name: Seq<char>,
)
    ensures
        match bound_name(m, items, v, name) {
            Some(outside) => exists|i: int|
                0 <= i < v.len() && is_bound(m, items, #[trigger] v[i], name, outside) && forall|
                    j: int,
                    other: Seq<char>,
                |
                    0 <= j < i ==> !is_bound(m, items, #[trigger] v[j], name, #[trigger] same_text(other)),
            None => forall|i: int, other: Seq<char>|
                0 <= i < v.len() ==> !is_bound(
                    m,
                    items,
                    #[trigger] v[i],
                    name,
                    #[trigger] same_text(other),
                ),
        },
    decreases v.len(),
{
    if v.len() > 0 {
        let t = v.skip(1);
        law_inputs_go_by_outside_names(m, items, t, name);
        if exists|other: Seq<char>| is_bound(m, items, v[0], name, #[trigger] same_text(other)) {
            let other = choose|other: Seq<char>|
                is_bound(m, items, v[0], name, #[trigger] same_text(other));
            assert(bound_name(m, items, v, name) == Some(other));
            assert(is_bound(m, items, v[0], name, other));
        } else {
            assert(bound_name(m, items, v, name) == bound_name(m, items, t, name)) by {
                if bound_name(m, items, v, name) != bound_name(m, items, t, name) {
                    let n = bound_name(m, items, v, name)->Some_0;
                    assert(is_bound(m, items, v[0], name, same_text(n)));
                }
            }
            match bound_name(m, items, t, name) {
                Some(outside) => {
                    let i = choose|i: int|
                        0 <= i < t.len() && is_bound(m, items, #[trigger] t[i], name, outside)
                            && forall|j: int, other: Seq<char>|
                            0 <= j < i ==> !is_bound(
                                m,
                                items,
                                #[trigger] t[j],
                                name,
                                #[trigger] same_text(other),
                            );
                    assert(v[i + 1] == t[i]);
                    assert forall|j: int, other: Seq<char>| 0 <= j < i + 1 implies !is_bound(
                        m,
                        items,
                        #[trigger] v[j],
                        name,
                        #[trigger] same_text(other),
                    ) by {
                        if j > 0 {
                            assert(v[j] == t[j - 1]);
                        }
                    }
                },
                None => {
                    assert forall|i: int, other: Seq<char>| 0 <= i < v.len() implies !is_bound(
                        m,
                        items,
                        #[trigger] v[i],
                        name,
                        #[trigger] same_text(other),
                    ) by {
                        if i > 0 {
                            assert(v[i] == t[i - 1]);
                        }
                    }
                },
            }
        }
    }
}

/// A text as it is.
pub open spec fn same_text(s: Seq<char>) -> Seq<char> {
    s
}

/// The key of a position within its module is what follows the path of the module, once what was moved
/// is followed.
pub proof fn law_key_within_module(prefix: Seq<char>, key: Seq<char>)
    ensures
        final_key(prefix, prefix + seq!['.'] + key) == key,
        (forall|t: Seq<char>| key != #[trigger] (prefix + seq!['.'] + t)) ==> final_key(prefix, key)
            == key,
{
    reveal_strlit(".");
    assert("."@ =~= seq!['.']);
    let p = prefix + "."@;
    let s = prefix + seq!['.'] + key;
    assert(s.take(p.len() as int) =~= p);
    assert(s.skip(p.len() as int) =~= key);
    if begins(key, p) {
        let t = key.skip(p.len() as int);
        assert(key =~= prefix + seq!['.'] + t);
    }
}

/// The position of a symbol is kept with its module, under the key of the symbol; one under a key that
/// was moved gives way to one that is there. Nothing else changes.
pub proof fn law_position_is_kept(
    m: Model,
    items: Seq<Item>,
    v: ModuleValue,
    e: PositionEntry,
    remapped: Option<Seq<char>>,
    path: Seq<Seq<char>>,
    q: Seq<char>,
)
    requires
        m.instances.dom().contains(v.path@),
    ensures
        ({
            let prefix = joined(v.path@, seq!['.']);
            let own = if prefix.len() == 0 {
                e.key@
            } else {
                prefix + seq!['.'] + e.key@
            };
            let target = if remapped is Some {
                remapped->Some_0
            } else {
                own
            };
            let key = placed_key(m, items, v, final_key(prefix, target));
            let r = with_position(m, items, v, e, remapped);
            let before = m.instances[v.path@].symbol_positions;
            let after = r.instances[v.path@].symbol_positions;
            &&& r.nets == m.nets
            &&& r.instances.dom() == m.instances.dom()
            &&& path != v.path@ && m.instances.dom().contains(path) ==> r.instances[path]
                == m.instances[path]
            &&& r.instances[v.path@].attributes == m.instances[v.path@].attributes
            &&& r.instances[v.path@].children == m.instances[v.path@].children
            &&& key is None ==> after == before
            &&& key is Some && q != key->Some_0 ==> after.dom().contains(q) == before.dom().contains(q)
                && (before.dom().contains(q) ==> after[q] == before[q])
            &&& key is Some ==> after.dom().contains(key->Some_0) && after[key->Some_0] == (
            if target != own && before.dom().contains(key->Some_0) {
                before[key->Some_0]
            } else {
                e.position
            })
        }),
{
    reveal_strlit(".");
    assert("."@ =~= seq!['.']);
    let r = with_position(m, items, v, e, remapped);
    assert(r.instances.dom() =~= m.instances.dom());
}

/// A path that was moved leads where the directives say, and an alias of a net where no directive
/// does.
pub proof fn law_directives_go_before_aliases(
    moved: Map<Seq<char>, Seq<char>>,
    aliases: Map<Seq<char>, Seq<char>>,
    k: Seq<char>,
)
    ensures
        ({
            let r = with_aliases(moved, aliases);
            &&& r.dom().contains(k) <==> moved.dom().contains(k) || aliases.dom().contains(k)
            &&& moved.dom().contains(k) ==> r[k] == moved[k]
            &&& !moved.dom().contains(k) && aliases.dom().contains(k) ==> r[k] == aliases[k]
        }),
{
}

// ---------------------------------------------------------------------------------------------
// Simulation models

/// The model of each component is shown on its instance, and no other instance changes.
pub proof fn law_models_are_shown(m: Model, items: Seq<Item>, v: Seq<(Seq<Seq<char>>, usize)>)
    requires
        forall|i: int, j: int|
            0 <= i < j < v.len() ==> (#[trigger] v[i]).0 != (#[trigger] v[j]).0,
    ensures
        with_models(m, items, v).nets == m.nets,
        with_models(m, items, v).instances.dom() == m.instances.dom(),
        forall|i: int|
            0 <= i < v.len() && m.instances.dom().contains((#[trigger] v[i]).0)
                && items[v[i].1 as int] is SpiceModel ==> with_models(m, items, v).instances[v[i].0]
                == with_model_attributes(
                m.instances[v[i].0],
                m,
                items,
                items[v[i].1 as int]->SpiceModel_0,
            ),
        forall|path: Seq<Seq<char>>|
            m.instances.dom().contains(path) && (forall|i: int|
                0 <= i < v.len() ==> (#[trigger] v[i]).0 != path) ==> #[trigger] with_models(
                m,
                items,
                v,
            ).instances[path] == m.instances[path],
    decreases v.len(),
{
    if v.len() > 0 {
        let d = v.drop_last();
        let n = v.len() - 1;
        assert(v[n] == v.last());
        assert forall|i: int, j: int| 0 <= i < j < d.len() implies (#[trigger] d[i]).0 != (
        #[trigger] d[j]).0 by {
            assert(v[i].0 != v[j].0);
        }
        law_models_are_shown(m, items, d);
        let before = with_models(m, items, d);
        let after = with_models(m, items, v);
        assert(after.instances.dom() =~= before.instances.dom());
        let last = v.last().0;
        assert(forall|i: int| 0 <= i < d.len() ==> (#[trigger] d[i]).0 != last) by {
            assert forall|i: int| 0 <= i < d.len() implies (#[trigger] d[i]).0 != last by {
                assert(v[i].0 != v[n].0);
            }
        }
        assert forall|i: int|
            0 <= i < v.len() && m.instances.dom().contains((#[trigger] v[i]).0)
                && items[v[i].1 as int] is SpiceModel implies after.instances[v[i].0]
            == with_model_attributes(
            m.instances[v[i].0],
            m,
            items,
            items[v[i].1 as int]->SpiceModel_0,
        ) by {
            if i < n {
                assert(d[i] == v[i]);
                assert(v[i].0 != last);
            } else {
                assert(before.instances[last] == m.instances[last]);
            }
        }
        assert forall|path: Seq<Seq<char>>|
            m.instances.dom().contains(path) && (forall|i: int|
                0 <= i < v.len() ==> (#[trigger] v[i]).0 != path) implies #[trigger] after.instances[path]
            == m.instances[path] by {
            assert(v[n].0 != path);
            assert forall|i: int| 0 <= i < d.len() implies (#[trigger] d[i]).0 != path by {
                assert(d[i] == v[i]);
            }
            assert(before.instances[path] == m.instances[path]);
        }
    }
}

/// Modules can be turned into a schematic exactly where all that stands for a simulation model of a
/// component is one.
pub proof fn law_models_must_be_models(v: Seq<ModuleValue>, items: Seq<Item>)
    ensures
        modules_fault(v, items) is None <==> forall|i: int, k: int|
            0 <= i < v.len() && 0 <= k < v[i].components@.len() ==> has_usable_model(
                #[trigger] v[i].components@[k],
                items,
            ),
    decreases v.len(),
{
    if v.len() > 0 {
        let d = v.drop_last();
        let n = v.len() - 1;
        assert(v[n] == v.last());
        law_models_must_be_models(d, items);
        lemma_components_fault_free(v.last().components@, items);
        if modules_fault(v, items) is None {
            assert forall|i: int, k: int|
                0 <= i < v.len() && 0 <= k < v[i].components@.len() implies has_usable_model(
                #[trigger] v[i].components@[k],
                items,
            ) by {
                if i < n {
                    assert(d[i] == v[i]);
                    assert(has_usable_model(d[i].components@[k], items));
                }
            }
        }
        if forall|i: int, k: int|
            0 <= i < v.len() && 0 <= k < v[i].components@.len() ==> has_usable_model(
                #[trigger] v[i].components@[k],
                items,
            ) {
            assert forall|i: int, k: int|
                0 <= i < d.len() && 0 <= k < d[i].components@.len() implies has_usable_model(
                #[trigger] d[i].components@[k],
                items,
            ) by {
                assert(d[i] == v[i]);
                assert(has_usable_model(v[i].components@[k], items));
            }
            assert forall|k: int| 0 <= k < v.last().components@.len() implies has_usable_model(
                #[trigger] v.last().components@[k],
                items,
            ) by {
                assert(has_usable_model(v[n].components@[k], items));
            }
        }
    }
}

/// Whether what stands for the simulation model of a component is one.
pub open spec fn has_usable_model(c: ComponentValue, items: Seq<Item>) -> bool {
    c.data.spice_model is Some ==> items[c.data.spice_model->Some_0 as int] is SpiceModel
}

proof fn lemma_components_fault_free(v: Seq<ComponentValue>, items: Seq<Item>)
    ensures
        components_fault(v, items) is None <==> forall|k: int|
            0 <= k < v.len() ==> has_usable_model(#[trigger] v[k], items),
    decreases v.len(),
{
    if v.len() > 0 {
        let d = v.drop_last();
        assert(v[v.len() - 1] == v.last());
        lemma_components_fault_free(d, items);
        assert(component_fault(v.last(), items) is None <==> has_usable_model(v.last(), items));
        if components_fault(v, items) is None {
            assert forall|k: int| 0 <= k < v.len() implies has_usable_model(#[trigger] v[k], items) by {
                if k < d.len() {
                    assert(d[k] == v[k]);
                }
            }
        }
        if forall|k: int| 0 <= k < v.len() ==> has_usable_model(#[trigger] v[k], items) {
            assert forall|k: int| 0 <= k < d.len() implies has_usable_model(#[trigger] d[k], items) by {
                assert(d[k] == v[k]);
            }
        }
    }
}

// ---------------------------------------------------------------------------------------------
// Notes

/// Every input or output that is on no port is warned of, where it is declared, and nothing else is.
pub proof fn law_unused_inputs_are_listed(
    m: Model,
    items: Seq<Item>,
    v: ModuleValue,
    ps: Seq<ModuleParam>,
)
    ensures
        forall|i: int|
            0 <= i < ps.len() && is_unused(m, items, v.path@, #[trigger] ps[i]) ==> exists|k: int|
                0 <= k < unused_params(m, items, v, ps).len() && is_about(
                    #[trigger] unused_params(m, items, v, ps)[k],
                    v,
                    ps[i],
                ),
        forall|k: int|
            0 <= k < unused_params(m, items, v, ps).len() ==> is_about_one(
                m,
                items,
                #[trigger] unused_params(m, items, v, ps)[k],
                v,
                ps,
            ),
    decreases ps.len(),
{
    if ps.len() > 0 {
        let d = ps.drop_last();
        let last = ps.last();
        assert(ps[ps.len() - 1] == last);
        law_unused_inputs_are_listed(m, items, v, d);
        let before = unused_params(m, items, v, d);
        let after = unused_params(m, items, v, ps);
        assert forall|i: int| 0 <= i < ps.len() && is_unused(m, items, v.path@, #[trigger] ps[i]) implies exists|
            k: int,
        |
            0 <= k < after.len() && is_about(#[trigger] after[k], v, ps[i]) by {
            if i < d.len() {
                assert(d[i] == ps[i]);
                let k = choose|k: int| 0 <= k < before.len() && is_about(#[trigger] before[k], v, d[i]);
                assert(after[k] == before[k]);
            } else {
                assert(is_about(after[before.len() as int], v, ps[i]));
            }
        }
        assert forall|k: int| 0 <= k < after.len() implies is_about_one(
            m,
            items,
            #[trigger] after[k],
            v,
            ps,
        ) by {
            if k < before.len() {
                assert(after[k] == before[k]);
                assert(is_about_one(m, items, before[k], v, d));
                let i = choose|i: int|
                    0 <= i < d.len() && is_unused(m, items, v.path@, #[trigger] d[i]) && is_about(
                        before[k],
                        v,
                        d[i],
                    );
                assert(ps[i] == d[i]);
            } else {
                assert(is_unused(m, items, v.path@, ps[ps.len() - 1]));
            }
        }
    }
}

/// Whether a note is a warning about a parameter, in the file that declares it, or else that of the
/// module.
pub open spec fn is_about(n: (Seq<char>, NoticeView), v: ModuleValue, p: ModuleParam) -> bool {
    &&& n.0 == (if p.declaration_path is Some {
        p.declaration_path->Some_0@
    } else {
        v.source_path@
    })
    &&& n.1.severity == Severity::Warning
    &&& n.1.kind == "module.io.unused"@
}

/// Whether a note is about one of some parameters that is on no port.
pub open spec fn is_about_one(
    m: Model,
    items: Seq<Item>,
    n: (Seq<char>, NoticeView),
    v: ModuleValue,
    ps: Seq<ModuleParam>,
) -> bool {
    exists|i: int|
        0 <= i < ps.len() && is_unused(m, items, v.path@, #[trigger] ps[i]) && is_about(n, v, ps[i])
}

/// The notes on modules are those on each in turn.
pub proof fn law_unused_inputs_of_modules(
    m: Model,
    items: Seq<Item>,
    v: Seq<ModuleValue>,
    w: Seq<ModuleValue>,
    x: ModuleValue,
)
    ensures
        unused_io(m, items, v + w) == unused_io(m, items, v) + unused_io(m, items, w),
        unused_io(m, items, seq![x]) == unused_params(m, items, x, x.signature@),
    decreases w.len(),
{
    let one = seq![x];
    assert(one.drop_last() =~= Seq::<ModuleValue>::empty());
    assert(unused_io(m, items, one.drop_last()) + unused_params(m, items, x, x.signature@)
        =~= unused_params(m, items, x, x.signature@));
    if w.len() == 0 {
        assert(v + w =~= v);
        assert(unused_io(m, items, v) + unused_io(m, items, w) =~= unused_io(m, items, v));
    } else {
        let d = w.drop_last();
        law_unused_inputs_of_modules(m, items, v, d, x);
        assert((v + w).drop_last() =~= v + d);
        assert((v + w).last() == w.last());
        assert(unused_io(m, items, v + w) =~= unused_io(m, items, v) + unused_io(m, items, w));
    }
}

/// An open net is warned of exactly where it is on more than one port, once for each such net.
pub proof fn law_open_nets_are_on_one_port(path: Seq<char>, l: Seq<Seq<(Seq<char>, Seq<char>)>>)
    ensures
        forall|i: int| 0 <= i < l.len() ==> (multi_port(#[trigger] l[i]) is Some <==> l[i].len() > 1),
        forall|i: int|
            0 <= i < l.len() && multi_port(#[trigger] l[i]) is Some ==> multi_port(
                l[i],
            )->Some_0.severity == Severity::Warning,
        open_net_notes(path, l).len() <= l.len(),
        (forall|i: int| 0 <= i < l.len() ==> (#[trigger] l[i]).len() <= 1) ==> open_net_notes(
            path,
            l,
        ).len() == 0,
        (forall|i: int| 0 <= i < l.len() ==> (#[trigger] l[i]).len() > 1) ==> open_net_notes(
            path,
            l,
        ).len() == l.len(),
        forall|k: int|
            0 <= k < open_net_notes(path, l).len() ==> (#[trigger] open_net_notes(path, l)[k]).0
                == path,
    decreases l.len(),
{
    if l.len() > 0 {
        let d = l.drop_last();
        assert(l[l.len() - 1] == l.last());
        law_open_nets_are_on_one_port(path, d);
        if forall|i: int| 0 <= i < l.len() ==> (#[trigger] l[i]).len() <= 1 {
            assert forall|i: int| 0 <= i < d.len() implies (#[trigger] d[i]).len() <= 1 by {
                assert(d[i] == l[i]);
            }
        }
        if forall|i: int| 0 <= i < l.len() ==> (#[trigger] l[i]).len() > 1 {
            assert forall|i: int| 0 <= i < d.len() implies (#[trigger] d[i]).len() > 1 by {
                assert(d[i] == l[i]);
            }
        }
    }
}

// ---------------------------------------------------------------------------------------------
// Forms

/// A plain value keeps its form, a list or a dictionary that of each of its values, and a net its
/// number and its name.
pub proof fn law_forms_of_values(items: Seq<Item>, h: usize)
    ensures
        match items[h as int] {
            Item::Nothing => form_of(items, h) == JsonView::Null,
            Item::Bool(b) => form_of(items, h) == JsonView::Bool(b),
            Item::Int(n) => form_of(items, h) == JsonView::Number(n),
            Item::Text(s) => form_of(items, h) == JsonView::Text(s@),
            Item::List(v) => form_of(items, h) is Array && form_of(items, h)->Array_0.len() == v@.len()
                && forall|i: int|
                0 <= i < v@.len() && v@[i] < h ==> #[trigger] form_of(items, h)->Array_0[i] == form_of(
                    items,
                    v@[i],
                ),
            Item::Dict(v) => form_of(items, h) is Object && form_of(items, h)->Object_0.len()
                == v@.len() && forall|i: int|
                0 <= i < v@.len() && v@[i].1 < h ==> #[trigger] form_of(items, h)->Object_0[i] == (
                    v@[i].0.text@,
                    form_of(items, v@[i].1),
                ),
            Item::Net(n) => form_of(items, h) is Net && form_of(items, h)->Net_id == n.net_id
                && form_of(items, h)->Net_name == resolved_name(n@),
            Item::Interface(v) => form_of(items, h) is Interface && form_of(
                items,
                h,
            )->Interface_fields.len() == handles_in(v.fields).len() && forall|i: int|
                0 <= i < handles_in(v.fields).len() && handles_in(v.fields)[i].1 < h ==> #[trigger] form_of(
                    items,
                    h,
                )->Interface_fields[i] == (
                    handles_in(v.fields)[i].0,
                    form_of(items, handles_in(v.fields)[i].1),
                ),
            Item::Choice { type_label: _, value } => form_of(items, h) == JsonView::Text(value@),
            Item::Quantity { type_label: _, shown, repr: _ } => form_of(items, h) == JsonView::Text(
                shown@,
            ),
            _ => true,
        },
{
    let r = form_of(items, h);
    match items[h as int] {
        Item::List(v) => {
            assert forall|i: int| 0 <= i < v@.len() && v@[i] < h implies #[trigger] r->Array_0[i]
                == form_of(items, v@[i]) by {}
        },
        Item::Dict(v) => {
            assert forall|i: int| 0 <= i < v@.len() && v@[i].1 < h implies #[trigger] r->Object_0[i] == (
                v@[i].0.text@,
                form_of(items, v@[i].1),
            ) by {}
        },
        Item::Interface(v) => {
            let f = handles_in(v.fields);
            assert(r->Interface_fields == forms_of(items, f, h));
            assert forall|i: int| 0 <= i < f.len() && f[i].1 < h implies #[trigger] r->Interface_fields[i]
                == (f[i].0, form_of(items, f[i].1)) by {}
        },
        _ => {},
    }
}

/// Text, truth values and numbers of four bytes are attributes as they are; a list of them is a list.
pub proof fn law_attributes_from_values(items: Seq<Item>, h: usize)
    ensures
        match items[h as int] {
            Item::Text(s) => attribute_from(items, h) == AttributeView::One(ScalarView::Text(s@)),
            Item::Bool(b) => attribute_from(items, h) == AttributeView::One(ScalarView::Boolean(b)),
            Item::Int(n) => (i32::MIN <= n <= i32::MAX) <==> attribute_from(items, h)
                == AttributeView::One(ScalarView::Number(n)),
            Item::Quantity { type_label: _, shown, repr: _ } => attribute_from(items, h)
                == AttributeView::One(ScalarView::Text(shown@)),
            Item::Choice { type_label: _, value } => attribute_from(items, h) == AttributeView::One(
                ScalarView::Text(value@),
            ),
            Item::List(v) => attribute_from(items, h) is Many && attribute_from(
                items,
                h,
            )->Many_0.len() == v@.len() && forall|i: int|
                0 <= i < v@.len() && items[v@[i] as int] is Text ==> #[trigger] attribute_from(
                    items,
                    h,
                )->Many_0[i] == ScalarView::Text(items[v@[i] as int]->Text_0@),
            _ => true,
        },
{
}

/// Paths are in order name by name: one that leads further comes later.
pub proof fn law_order_of_paths(
    p: Seq<Seq<char>>,
    a: Seq<char>,
    b: Seq<char>,
    x: Seq<Seq<char>>,
    y: Seq<Seq<char>>,
)
    ensures
        path_before(p, p + seq![a] + x),
        !path_before(p + x, p),
        crate::text::text_before(a, b) && a != b ==> path_before(p + seq![a] + x, p + seq![b] + y),
    decreases p.len(),
{
    let s = p + seq![a] + x;
    let t = p + seq![b] + y;
    if p.len() > 0 {
        let q = p.skip(1);
        law_order_of_paths(q, a, b, x, y);
        assert(s.skip(1) =~= q + seq![a] + x);
        assert(t.skip(1) =~= q + seq![b] + y);
        assert((p + x).skip(1) =~= q + x);
        assert(s[0] == p[0] && t[0] == p[0]);
    } else {
        assert(s[0] == a && t[0] == b);
    }
}

// ---------------------------------------------------------------------------------------------
// Impedances

/// Whether a net is one of the two of fields that are a pair with an impedance.
pub open spec fn is_of_pair(items: Seq<Item>, f: Seq<(Seq<char>, usize)>, id: u64) -> bool {
    &&& under(f, "impedance"@) is Some
    &&& items[under(f, "impedance"@)->Some_0 as int] != Item::Nothing
    &&& under(f, "P"@) is Some
    &&& under(f, "N"@) is Some
    &&& items[under(f, "P"@)->Some_0 as int] is Net
    &&& items[under(f, "N"@)->Some_0 as int] is Net
    &&& id == items[under(f, "P"@)->Some_0 as int]->Net_0.net_id || id == items[under(
        f,
        "N"@,
    )->Some_0 as int]->Net_0.net_id
}

/// Whether a value holds a pair with an impedance that a net is one of, at whatever depth.
pub open spec fn holds_pair_of(items: Seq<Item>, h: usize, id: u64) -> bool
    decreases h,
{
    match items[h as int] {
        Item::Interface(v) => is_of_pair(items, handles_in(v.fields), id) || exists|j: int|
            0 <= j < handles_in(v.fields).len() && (#[trigger] handles_in(v.fields)[j]).1 < h
                && holds_pair_of(items, handles_in(v.fields)[j].1, id),
        _ => false,
    }
}

/// Whether a net has an impedance.
pub open spec fn has_impedance(nets: Map<u64, NetInfoView>, id: u64) -> bool {
    known_net(nets, id).properties.dom().contains("differential_impedance"@)
}

proof fn lemma_impedance(items: Seq<Item>, h: usize, nets: Map<u64, NetInfoView>, id: u64)
    ensures
        has_impedance(nets, id) || holds_pair_of(items, h, id) ==> has_impedance(
            with_impedance(items, h, nets),
            id,
        ),
        !holds_pair_of(items, h, id) ==> known_net(with_impedance(items, h, nets), id) == known_net(
            nets,
            id,
        ),
    decreases h, 1int, 0int,
{
    if let Item::Interface(v) = items[h as int] {
        let f = handles_in(v.fields);
        let own = with_own_impedance(items, f, nets);
        assert(has_impedance(nets, id) || is_of_pair(items, f, id) ==> has_impedance(own, id));
        assert(!is_of_pair(items, f, id) ==> known_net(own, id) == known_net(nets, id));
        lemma_impedance_of_fields(items, h, f, own, id);
        assert(f.take(f.len() as int) =~= f);
    }
}

/// Whether fields hold a pair with an impedance that a net is one of.
pub open spec fn hold_pair_of(items: Seq<Item>, h: usize, f: Seq<(Seq<char>, usize)>, id: u64) -> bool {
    exists|j: int|
        0 <= j < f.len() && (#[trigger] f[j]).1 < h && holds_pair_of(items, f[j].1, id)
}

proof fn lemma_impedance_of_fields(
    items: Seq<Item>,
    h: usize,
    f: Seq<(Seq<char>, usize)>,
    nets: Map<u64, NetInfoView>,
    id: u64,
)
    ensures
        has_impedance(nets, id) || hold_pair_of(items, h, f, id) ==> has_impedance(
            with_impedance_of_fields(items, h, f, nets),
            id,
        ),
        !hold_pair_of(items, h, f, id) ==> known_net(with_impedance_of_fields(items, h, f, nets), id)
            == known_net(nets, id),
    decreases h, 0int, f.len(),
{
    if f.len() > 0 {
        let d = f.drop_last();
        lemma_impedance_of_fields(items, h, d, nets, id);
        let r = with_impedance_of_fields(items, h, d, nets);
        let c = f.last().1;
        assert(f[f.len() - 1] == f.last());
        if c < h {
            lemma_impedance(items, c, r, id);
        }
        if hold_pair_of(items, h, d, id) {
            let j = choose|j: int|
                0 <= j < d.len() && (#[trigger] d[j]).1 < h && holds_pair_of(items, d[j].1, id);
            assert(f[j] == d[j]);
        }
        if hold_pair_of(items, h, f, id) {
            let j = choose|j: int|
                0 <= j < f.len() && (#[trigger] f[j]).1 < h && holds_pair_of(items, f[j].1, id);
            if j < d.len() {
                assert(d[j] == f[j]);
            }
        }
    }
}

/// Whether an input or output holds a pair with an impedance that a net is one of.
pub open spec fn gives_pair_of(items: Seq<Item>, p: ModuleParam, id: u64) -> bool {
    !p.is_config && p.actual_value is Some && holds_pair_of(items, p.actual_value->Some_0, id)
}

proof fn lemma_impedance_of_params(
    items: Seq<Item>,
    v: Seq<ModuleParam>,
    nets: Map<u64, NetInfoView>,
    id: u64,
)
    ensures
        has_impedance(nets, id) || (exists|i: int|
            0 <= i < v.len() && gives_pair_of(items, #[trigger] v[i], id)) ==> has_impedance(
            with_impedance_of_params(items, v, nets),
            id,
        ),
        (forall|i: int| 0 <= i < v.len() ==> !gives_pair_of(items, #[trigger] v[i], id))
            ==> known_net(with_impedance_of_params(items, v, nets), id) == known_net(nets, id),
    decreases v.len(),
{
    if v.len() > 0 {
        let d = v.drop_last();
        lemma_impedance_of_params(items, d, nets, id);
        let r = with_impedance_of_params(items, d, nets);
        assert(v[v.len() - 1] == v.last());
        if let Some(h) = v.last().actual_value {
            lemma_impedance(items, h, r, id);
        }
        if exists|i: int| 0 <= i < v.len() && gives_pair_of(items, #[trigger] v[i], id) {
            let i = choose|i: int| 0 <= i < v.len() && gives_pair_of(items, #[trigger] v[i], id);
            if i < d.len() {
                assert(d[i] == v[i]);
            }
        } else {
            assert forall|i: int| 0 <= i < d.len() implies !gives_pair_of(items, #[trigger] d[i], id) by {
                assert(d[i] == v[i]);
            }
            assert(!gives_pair_of(items, v[v.len() - 1], id));
        }
    }
}

/// The nets of every pair that an input or output of a module holds have its impedance; what is known
/// of all other nets stays.
pub proof fn law_nets_of_pairs_have_impedance(
    items: Seq<Item>,
    v: Seq<ModuleValue>,
    nets: Map<u64, NetInfoView>,
    id: u64,
)
    ensures
        (exists|i: int, k: int|
            0 <= i < v.len() && 0 <= k < v[i].signature@.len() && gives_pair_of(
                items,
                #[trigger] v[i].signature@[k],
                id,
            )) ==> has_impedance(with_impedance_of_modules(items, v, nets), id),
        has_impedance(nets, id) ==> has_impedance(with_impedance_of_modules(items, v, nets), id),
        (forall|i: int, k: int|
            0 <= i < v.len() && 0 <= k < v[i].signature@.len() ==> !gives_pair_of(
                items,
                #[trigger] v[i].signature@[k],
                id,
            )) ==> known_net(with_impedance_of_modules(items, v, nets), id) == known_net(nets, id),
    decreases v.len(),
{
    if v.len() > 0 {
        let d = v.drop_last();
        let n = v.len() - 1;
        law_nets_of_pairs_have_impedance(items, d, nets, id);
        let r = with_impedance_of_modules(items, d, nets);
        assert(v[n] == v.last());
        lemma_impedance_of_params(items, v.last().signature@, r, id);
        if exists|i: int, k: int|
            0 <= i < v.len() && 0 <= k < v[i].signature@.len() && gives_pair_of(
                items,
                #[trigger] v[i].signature@[k],
                id,
            ) {
            let (i, k) = choose|i: int, k: int|
                0 <= i < v.len() && 0 <= k < v[i].signature@.len() && gives_pair_of(
                    items,
                    #[trigger] v[i].signature@[k],
                    id,
                );
            if i < n {
                assert(d[i] == v[i]);
                assert(gives_pair_of(items, d[i].signature@[k], id));
            } else {
                assert(gives_pair_of(items, v.last().signature@[k], id));
            }
        } else {
            assert forall|i: int, k: int|
                0 <= i < d.len() && 0 <= k < d[i].signature@.len() implies !gives_pair_of(
                items,
                #[trigger] d[i].signature@[k],
                id,
            ) by {
                assert(d[i] == v[i]);
                assert(!gives_pair_of(items, v[i].signature@[k], id));
            }
            assert forall|k: int| 0 <= k < v.last().signature@.len() implies !gives_pair_of(
                items,
                #[trigger] v.last().signature@[k],
                id,
            ) by {
                assert(!gives_pair_of(items, v[n].signature@[k], id));
            }
        }
    }
}

// ---------------------------------------------------------------------------------------------
// Nets within values

/// An instance holds the nets of its fields, at whatever depth, and no others; the same is true of the
/// nets that it owns.
pub proof fn law_nets_of_fields(items: Seq<Item>, h: usize, f: Seq<(Seq<char>, usize)>, id: u64)
    ensures
        net_ids_of_fields(items, h, f).contains(id) <==> exists|j: int|
            0 <= j < f.len() && (#[trigger] f[j]).1 < h && net_ids(items, f[j].1).contains(id),
        owned_in_fields(items, h, f).contains(id) <==> exists|j: int|
            0 <= j < f.len() && (#[trigger] f[j]).1 < h && owned_nets(items, f[j].1).contains(id),
    decreases f.len(),
{
    if f.len() > 0 {
        let d = f.drop_last();
        let n = f.len() - 1;
        law_nets_of_fields(items, h, d, id);
        assert(f[n] == f.last());
        assert forall|j: int| 0 <= j < n implies #[trigger] d[j] == f[j] by {}
        let a = net_ids_of_fields(items, h, d);
        let b = net_ids(items, f.last().1);
        let r = net_ids_of_fields(items, h, f);
        lemma_either(a, b, id);
        if a.contains(id) {
            let j = choose|j: int|
                0 <= j < d.len() && (#[trigger] d[j]).1 < h && net_ids(items, d[j].1).contains(id);
            assert(f[j].1 < h && net_ids(items, f[j].1).contains(id));
        }
        if exists|j: int|
            0 <= j < f.len() && (#[trigger] f[j]).1 < h && net_ids(items, f[j].1).contains(id) {
            let j = choose|j: int|
                0 <= j < f.len() && (#[trigger] f[j]).1 < h && net_ids(items, f[j].1).contains(id);
            if j < n {
                assert(d[j].1 < h && net_ids(items, d[j].1).contains(id));
            }
        }
        let c = owned_in_fields(items, h, d);
        let e = owned_nets(items, f.last().1);
        lemma_either(c, e, id);
        if c.contains(id) {
            let j = choose|j: int|
                0 <= j < d.len() && (#[trigger] d[j]).1 < h && owned_nets(items, d[j].1).contains(id);
            assert(f[j].1 < h && owned_nets(items, f[j].1).contains(id));
        }
        if exists|j: int|
            0 <= j < f.len() && (#[trigger] f[j]).1 < h && owned_nets(items, f[j].1).contains(id) {
            let j = choose|j: int|
                0 <= j < f.len() && (#[trigger] f[j]).1 < h && owned_nets(items, f[j].1).contains(id);
            if j < n {
                assert(d[j].1 < h && owned_nets(items, d[j].1).contains(id));
            }
        }
    }
}

proof fn lemma_either(a: Seq<u64>, b: Seq<u64>, id: u64)
    ensures
        (a + b).contains(id) <==> a.contains(id) || b.contains(id),
{
    let s = a + b;
    if s.contains(id) {
        let i = choose|i: int| 0 <= i < s.len() && s[i] == id;
        if i < a.len() {
            assert(a[i] == id);
        } else {
            assert(b[i - a.len()] == id);
        }
    }
    if a.contains(id) {
        let i = choose|i: int| 0 <= i < a.len() && a[i] == id;
        assert(s[i] == id);
    }
    if b.contains(id) {
        let i = choose|i: int| 0 <= i < b.len() && b[i] == id;
        assert(s[a.len() + i] == id);
    }
}

/// A net is the one that it is, and an instance holds those of its fields.
pub proof fn law_nets_of_values(items: Seq<Item>, h: usize)
    ensures
        match items[h as int] {
            Item::Net(n) => net_ids(items, h) == seq![n.net_id],
            Item::Interface(v) => net_ids(items, h) == net_ids_of_fields(
                items,
                h,
                handles_in(v.fields),
            ) && owned_nets(items, h) == owned_in_fields(items, h, handles_in(v.fields)),
            _ => net_ids(items, h).len() == 0 && owned_nets(items, h).len() == 0,
        },
{
}

/// A module is left off the board where its property says `true` in whatever case, `1`, or is true.
pub proof fn law_module_is_left_off(items: Seq<Item>, p: Seq<(Seq<char>, usize)>)
    ensures
        under(p, "dnp"@) is None ==> !is_dnp(items, p),
        under(p, "dnp"@) is Some ==> match items[under(p, "dnp"@)->Some_0 as int] {
            Item::Bool(b) => is_dnp(items, p) == b,
            Item::Text(s) => is_dnp(items, p) <==> crate::text::lowered(s@) == crate::text::lowered(
                "true"@,
            ) || s@ == "1"@,
            _ => !is_dnp(items, p),
        },
{
}

/// In the name of an open net dots, `@`, spaces and all that is not ASCII become underscores, and all
/// else is kept.
pub proof fn law_names_are_made_plain(s: Seq<char>, i: int)
    requires
        0 <= i < s.len(),
    ensures
        sanitized(s).len() == s.len(),
        'a' <= s[i] <= 'z' || 'A' <= s[i] <= 'Z' || '0' <= s[i] <= '9' || s[i] == '_' || s[i] == '/'
            ==> sanitized(s)[i] == s[i],
        s[i] == '.' || s[i] == '@' || s[i] == ' ' || s[i] as u32 >= 128 ==> sanitized(s)[i] == '_',
{
}

/// An open net is called after its component and its pin, within the module of the component.
pub proof fn law_name_of_open_net(module: Seq<Seq<char>>, component: Seq<char>, pin: Seq<char>)
    ensures
        port_name(seq![component, pin]) == Some(
            "NC_"@ + sanitized(component) + "_"@ + sanitized(pin),
        ),
        module.len() > 0 && joined(module, "."@).len() > 0 ==> port_name(
            module.push(component).push(pin),
        ) == Some(
            joined(module, "."@) + "."@ + ("NC_"@ + sanitized(component) + "_"@ + sanitized(pin)),
        ),
{
    let two = seq![component, pin];
    assert(two.take(0) =~= Seq::<Seq<char>>::empty());
    let path = module.push(component).push(pin);
    assert(path.take(path.len() - 2) =~= module);
    assert(path[path.len() - 2] == component);
    assert(path[path.len() - 1] == pin);
}

} // verus!
