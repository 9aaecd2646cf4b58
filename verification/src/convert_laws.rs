//! What holds of every schematic that modules are turned into.

use vstd::prelude::*;

use crate::convert::{any_used, component_attributes, component_instance, is_dnp, is_unused};
use crate::convert::{is_used, is_within, known_net, missing_parts, module_attributes};
use crate::convert::{module_instance, moved_in, net_ids, port_name, rows_of, with_component};
use crate::convert::{with_components, with_flag, with_introduced, with_items, with_link};
use crate::convert::{with_model_attributes, with_module, with_modules, with_own_impedance};
use crate::convert::{with_port, with_ports, with_properties, with_text, BomEntry, IntroducedNet};
use crate::convert::{Model, ModuleParam, ModuleValue, MovedDirective, MovedNoticeView, NetInfo};
use crate::convert::NetInfoView;
use crate::diagnostic::Severity;
use crate::lang::component_value::{ComponentValue, ComponentView};
use crate::lang::value::{Item, SpiceModelValue};
use crate::schematic::{attribute_from, gathered, AttributeView, InstanceKind, InstanceView};
use crate::schematic::ScalarView;
use crate::text::{joined, pieces};
use crate::lang::net::{ConnectionIntent, NetValue, NetView};
use crate::small_map::{distinct, handles_in, lemma_place, under};

verus! {

// ---------------------------------------------------------------------------------------------
// Nets

/// A net that is seen on a port is on that port, and on those that it was on. What was known of it
/// stays: its kind, its properties, and its name, unless it is an open net that nobody named and this
/// is its first port, after which it is named. Where nothing was known, an open net is of the kind
/// `NotConnected` and any other of its type; a net with a name has it, behind the path of the module
/// that holds the component; and the net's own properties are those that it has.
pub proof fn law_net_is_on_its_port(
    info: NetInfoView,
    items: Seq<Item>,
    net: NetView,
    port: Seq<Seq<char>>,
)
    requires
        distinct(net.properties),
    ensures
        ({
            let r = with_port(info, items, net, port);
            let open = r.kind == Some("NotConnected"@) && net.original_name is None && info.ports.len()
                == 0;
            let name = match net.inferred_name {
                Some(n) => n,
                None => net.name,
            };
            &&& r.ports.len() == info.ports.len() + 1
            &&& r.ports.last() == port
            &&& forall|i: int| 0 <= i < info.ports.len() ==> #[trigger] r.ports[i] == info.ports[i]
            &&& info.kind is Some ==> r.kind == info.kind
            &&& info.kind is None && net.connection_intent == ConnectionIntent::Open ==> r.kind == Some(
                "NotConnected"@,
            )
            &&& info.kind is None && net.connection_intent != ConnectionIntent::Open ==> r.kind == Some(
                net.type_label,
            )
            &&& info.name is Some && !open ==> r.name == info.name
            &&& open && port.len() > 0 ==> r.name == port_name(port)
            &&& info.name is None && !open && name.len() == 0 ==> r.name is None
            &&& info.name is None && !open && name.len() > 0 && port.len() <= 2 ==> r.name == Some(name)
            &&& info.name is None && !open && name.len() > 0 && port.len() > 2 ==> r.name == Some(
                joined(port.take(port.len() - 2), seq!['.']) + seq!['.'] + name,
            )
            &&& forall|k: Seq<char>| #[trigger]
                info.properties.dom().contains(k) ==> r.properties.dom().contains(k)
                    && r.properties[k] == info.properties[k]
            &&& forall|k: Seq<char>| #[trigger]
                r.properties.dom().contains(k) && !info.properties.dom().contains(k) ==> under(
                    net.properties,
                    k,
                ) is Some && r.properties[k] == attribute_from(items, under(net.properties, k)->Some_0)
            &&& forall|k: Seq<char>|
                #[trigger] under(net.properties, k) is Some ==> r.properties.dom().contains(k)
        }),
{
    reveal_strlit(".");
    assert("."@ =~= seq!['.']);
    lemma_properties(info.properties, items, net.properties);
}

proof fn lemma_properties(
    p: Map<Seq<char>, AttributeView>,
    items: Seq<Item>,
    more: Seq<(Seq<char>, usize)>,
)
    requires
        distinct(more),
    ensures
        ({
            let r = with_properties(p, items, more);
            &&& forall|k: Seq<char>| #[trigger]
                p.dom().contains(k) ==> r.dom().contains(k) && r[k] == p[k]
            &&& forall|k: Seq<char>| #[trigger]
                r.dom().contains(k) && !p.dom().contains(k) ==> under(more, k) is Some && r[k]
                    == attribute_from(items, under(more, k)->Some_0)
            &&& forall|k: Seq<char>| #[trigger] under(more, k) is Some ==> r.dom().contains(k)
        }),
    decreases more.len(),
{
    if more.len() == 0 {
        assert forall|k: Seq<char>| #[trigger] under(more, k) is None by {
            lemma_place(more, k);
        }
    } else {
        let d = more.drop_last();
        assert forall|i: int, j: int| 0 <= i < j < d.len() implies (#[trigger] d[i]).0 != (
        #[trigger] d[j]).0 by {
            assert(more[i].0 != more[j].0);
        }
        lemma_properties(p, items, d);
        lemma_place(d, more.last().0);
        if under(d, more.last().0) is Some {
            let i = crate::small_map::place(d, more.last().0);
            assert(more[i].0 != more[more.len() - 1].0);
        }
        assert forall|k: Seq<char>| #[trigger]
            under(more, k) == (if k == more.last().0 {
                Some(more.last().1)
            } else {
                under(d, k)
            }) by {
            lemma_under_last(more, k);
        }
    }
}

/// What stands under a key, going by the last entry.
proof fn lemma_under_last<V>(s: Seq<(Seq<char>, V)>, k: Seq<char>)
    requires
        distinct(s),
        s.len() > 0,
    ensures
        under(s, k) == (if k == s.last().0 {
            Some(s.last().1)
        } else {
            under(s.drop_last(), k)
        }),
{
    let d = s.drop_last();
    lemma_place(s, k);
    lemma_place(d, k);
    let a = crate::small_map::place(s, k);
    let b = crate::small_map::place(d, k);
    if k == s.last().0 {
        assert(s[s.len() - 1].0 == k);
        if a < s.len() - 1 {
            assert(s[a].0 != s[s.len() - 1].0);
        }
    } else if b < d.len() {
        assert(s[b].0 == d[b].0);
        if a < b {
            assert(d[a].0 == s[a].0);
        } else if b < a {
            assert(s[b].0 != k);
        }
    } else if a < s.len() {
        if a < d.len() {
            assert(d[a].0 == s[a].0);
        } else {
            assert(s[a] == s.last());
        }
    }
}

/// A module that introduces a net without a name names it after itself and the net's own name; the
/// kind of the net is the one that is known first.
pub proof fn law_introduced_net_gets_its_name(m: Model, prefix: Seq<char>, v: Seq<IntroducedNet>, i: int)
    requires
        0 <= i < v.len(),
        v[i].name@.len() > 0,
        known_net(m.nets, v[i].id).name is None,
        forall|k: int| 0 <= k < i ==> (#[trigger] v[k]).id != v[i].id,
    ensures
        ({
            let r = known_net(with_introduced(m, prefix, v).nets, v[i].id);
            let old_info = known_net(m.nets, v[i].id);
            &&& r.name == Some(
                if prefix.len() == 0 {
                    v[i].name@
                } else {
                    prefix + seq!['.'] + v[i].name@
                },
            )
            &&& r.kind == (if old_info.kind is Some {
                old_info.kind
            } else {
                Some(v[i].kind@)
            })
            &&& r.ports == old_info.ports
            &&& r.properties == old_info.properties
        }),
    decreases v.len(),
{
    reveal_strlit(".");
    assert("."@ =~= seq!['.']);
    let d = v.drop_last();
    if i < d.len() {
        assert(d[i] == v[i]);
        assert forall|k: int| 0 <= k < i implies (#[trigger] d[k]).id != d[i].id by {
            assert(d[k] == v[k]);
        }
        law_introduced_net_gets_its_name(m, prefix, d, i);
    } else {
        lemma_introduced_others(m, prefix, d, v[i].id);
    }
}

proof fn lemma_introduced_others(m: Model, prefix: Seq<char>, v: Seq<IntroducedNet>, id: u64)
    requires
        forall|k: int| 0 <= k < v.len() ==> (#[trigger] v[k]).id != id,
    ensures
        known_net(with_introduced(m, prefix, v).nets, id) == known_net(m.nets, id),
    decreases v.len(),
{
    if v.len() > 0 {
        let d = v.drop_last();
        assert(v[v.len() - 1].id != id);
        assert forall|k: int| 0 <= k < d.len() implies (#[trigger] d[k]).id != id by {
            assert(d[k] == v[k]);
        }
        lemma_introduced_others(m, prefix, d, id);
    }
}

/// Whether a net is to be listed: an open one only where it is on a port.
pub open spec fn is_shown(e: (u64, NetInfo)) -> bool {
    e.1@.kind != Some("NotConnected"@) || e.1@.ports.len() > 0
}

/// Whether a row is that of a net.
pub open spec fn is_row_of(row: (u64, Seq<char>, Seq<char>), e: (u64, NetInfo)) -> bool {
    &&& row.0 == e.0
    &&& e.1@.kind is Some ==> row.1 == e.1@.kind->Some_0
    &&& e.1@.kind is None ==> row.1 == "Net"@
    &&& e.1@.name is Some ==> row.2 == e.1@.name->Some_0
    &&& e.1@.name is None ==> row.2.len() == 0
}

/// Whether a net lacks a name that it has to have.
pub open spec fn is_nameless(e: (u64, NetInfo)) -> bool {
    e.1@.kind != Some("NotConnected"@) && e.1@.name is None
}

/// A net of the table is listed with its number, its kind and its name, unless it is open and on no
/// port; one that is listed is a net of the table; and no list is made where a net that has to have a
/// name lacks it.
pub proof fn law_nets_are_listed(s: Seq<(u64, NetInfo)>)
    ensures
        rows_of(s) is Some <==> forall|i: int| 0 <= i < s.len() ==> !is_nameless(#[trigger] s[i]),
        rows_of(s) is Some ==> {
            let rows = rows_of(s)->Some_0;
            &&& forall|i: int|
                0 <= i < s.len() && is_shown(#[trigger] s[i]) ==> exists|k: int|
                    0 <= k < rows.len() && is_row_of(#[trigger] rows[k], s[i])
            &&& forall|k: int|
                0 <= k < rows.len() ==> exists|i: int|
                    0 <= i < s.len() && is_shown(#[trigger] s[i]) && is_row_of(#[trigger] rows[k], s[i])
        },
    decreases s.len(),
{
    if s.len() > 0 {
        let d = s.drop_last();
        law_nets_are_listed(d);
        assert(s[s.len() - 1] == s.last());
        assert forall|i: int| 0 <= i < d.len() implies #[trigger] d[i] == s[i] by {}
        if rows_of(s) is Some {
            assert forall|i: int| 0 <= i < s.len() implies !is_nameless(#[trigger] s[i]) by {
                if i < d.len() {
                    assert(!is_nameless(d[i]));
                }
            }
            let before = rows_of(d)->Some_0;
            let rows = rows_of(s)->Some_0;
            assert forall|i: int| 0 <= i < s.len() && is_shown(#[trigger] s[i]) implies exists|k: int|
                0 <= k < rows.len() && is_row_of(#[trigger] rows[k], s[i]) by {
                if i < d.len() {
                    assert(is_shown(d[i]));
                    let k = choose|k: int| 0 <= k < before.len() && is_row_of(#[trigger] before[k], d[i]);
                    assert(rows[k] == before[k]);
                } else {
                    assert(is_row_of(rows[rows.len() - 1], s[i]));
                }
            }
            assert forall|k: int| 0 <= k < rows.len() implies exists|i: int|
                0 <= i < s.len() && is_shown(#[trigger] s[i]) && is_row_of(#[trigger] rows[k], s[i]) by {
                if k < before.len() {
                    assert(rows[k] == before[k]);
                    let i = choose|i: int|
                        0 <= i < d.len() && is_shown(#[trigger] d[i]) && is_row_of(before[k], d[i]);
                    assert(is_shown(s[i]));
                } else {
                    assert(is_row_of(rows[k], s[s.len() - 1]));
                }
            }
        } else if forall|i: int| 0 <= i < s.len() ==> !is_nameless(#[trigger] s[i]) {
            assert forall|i: int| 0 <= i < d.len() implies !is_nameless(#[trigger] d[i]) by {
                assert(!is_nameless(s[i]));
            }
            assert(!is_nameless(s[s.len() - 1]));
        }
    }
}

/// Both nets of a pair have its impedance.
pub proof fn law_pair_shares_its_impedance(
    items: Seq<Item>,
    f: Seq<(Seq<char>, usize)>,
    nets: Map<u64, NetInfoView>,
    h: usize,
    p: usize,
    n: usize,
    a: NetValue,
    b: NetValue,
)
    requires
        under(f, "impedance"@) == Some(h),
        under(f, "P"@) == Some(p),
        under(f, "N"@) == Some(n),
        items[p as int] == Item::Net(a),
        items[n as int] == Item::Net(b),
    ensures
        ({
            let r = with_own_impedance(items, f, nets);
            let key = "differential_impedance"@;
            &&& items[h as int] == Item::Nothing ==> r == nets
            &&& items[h as int] != Item::Nothing ==> {
                &&& known_net(r, a.net_id).properties.dom().contains(key)
                &&& known_net(r, a.net_id).properties[key] == attribute_from(items, h)
                &&& known_net(r, b.net_id).properties.dom().contains(key)
                &&& known_net(r, b.net_id).properties[key] == attribute_from(items, h)
                &&& forall|id: u64|
                    id != a.net_id && id != b.net_id ==> #[trigger] known_net(r, id) == known_net(
                        nets,
                        id,
                    )
                &&& known_net(r, a.net_id).ports == known_net(nets, a.net_id).ports
                &&& known_net(r, a.net_id).name == known_net(nets, a.net_id).name
            }
        }),
{
}

// ---------------------------------------------------------------------------------------------
// Attributes

proof fn lemma_gathered_text(s: Seq<(Seq<char>, AttributeView)>, name: Seq<char>, t: Option<Seq<char>>)
    ensures
        gathered(with_text(s, name, t)) == (if t is Some {
            gathered(s).insert(name, AttributeView::One(ScalarView::Text(t->Some_0)))
        } else {
            gathered(s)
        }),
{
    if let Some(x) = t {
        let r = with_text(s, name, t);
        assert(r.drop_last() =~= s);
    }
}

proof fn lemma_gathered_flag(s: Seq<(Seq<char>, AttributeView)>, name: Seq<char>, flag: bool)
    ensures
        gathered(with_flag(s, name, flag)) == (if flag {
            gathered(s).insert(name, AttributeView::One(ScalarView::Boolean(true)))
        } else {
            gathered(s)
        }),
{
    if flag {
        assert(with_flag(s, name, flag).drop_last() =~= s);
    }
}

proof fn lemma_gathered_items(
    s: Seq<(Seq<char>, AttributeView)>,
    items: Seq<Item>,
    p: Seq<(Seq<char>, usize)>,
    but: Option<Seq<char>>,
)
    requires
        distinct(p),
    ensures
        ({
            let r = gathered(with_items(s, items, p, but));
            forall|k: Seq<char>|
                #![trigger r.dom().contains(k)]
                #![trigger r[k]]
                if under(p, k) is Some && but != Some(k) {
                    r.dom().contains(k) && r[k] == attribute_from(items, under(p, k)->Some_0)
                } else {
                    (r.dom().contains(k) <==> gathered(s).dom().contains(k)) && r[k] == gathered(s)[k]
                }
        }),
    decreases p.len(),
{
    if p.len() == 0 {
        assert forall|k: Seq<char>| #[trigger] under(p, k) is None by {
            lemma_place(p, k);
        }
    } else {
        let d = p.drop_last();
        assert forall|i: int, j: int| 0 <= i < j < d.len() implies (#[trigger] d[i]).0 != (
        #[trigger] d[j]).0 by {
            assert(p[i].0 != p[j].0);
        }
        lemma_gathered_items(s, items, d, but);
        let r = with_items(s, items, d, but);
        if but != Some(p.last().0) {
            assert(with_items(s, items, p, but).drop_last() =~= r);
        }
        assert forall|k: Seq<char>| #[trigger]
            under(p, k) == (if k == p.last().0 {
                Some(p.last().1)
            } else {
                under(d, k)
            }) by {
            lemma_under_last(p, k);
        }
    }
}

/// The attributes of a component, one after the other, are told apart by their names.
proof fn lemma_attribute_names()
    ensures
        forall|i: int, j: int|
            0 <= i < j < attribute_names().len() ==> #[trigger] attribute_names()[i]
                != #[trigger] attribute_names()[j],
{
    reveal_strlit("footprint");
    reveal_strlit("prefix");
    reveal_strlit("mpn");
    reveal_strlit("manufacturer");
    reveal_strlit("part");
    reveal_strlit("__bom_mpn");
    reveal_strlit("type");
    reveal_strlit("datasheet");
    reveal_strlit("description");
    reveal_strlit("dnp");
    reveal_strlit("skip_bom");
    reveal_strlit("skip_pos");
    reveal_strlit("symbol_name");
    reveal_strlit("symbol_path");
    reveal_strlit("__symbol_value");
    assert("footprint"@.len() == 9 && "footprint"@[0] == 'f');
    assert("prefix"@.len() == 6);
    assert("mpn"@.len() == 3 && "mpn"@[0] == 'm');
    assert("manufacturer"@.len() == 12);
    assert("part"@.len() == 4 && "part"@[0] == 'p');
    assert("__bom_mpn"@.len() == 9 && "__bom_mpn"@[0] == '_');
    assert("type"@.len() == 4 && "type"@[0] == 't');
    assert("datasheet"@.len() == 9 && "datasheet"@[0] == 'd');
    assert("description"@.len() == 11 && "description"@[0] == 'd');
    assert("dnp"@.len() == 3 && "dnp"@[0] == 'd');
    assert("skip_bom"@.len() == 8 && "skip_bom"@[5] == 'b');
    assert("skip_pos"@.len() == 8 && "skip_pos"@[5] == 'p');
    assert("symbol_name"@.len() == 11 && "symbol_name"@[0] == 's' && "symbol_name"@[7] == 'n');
    assert("symbol_path"@.len() == 11 && "symbol_path"@[0] == 's' && "symbol_path"@[7] == 'p');
    assert("__symbol_value"@.len() == 14);
}

/// The names of a component's own attributes.
pub open spec fn attribute_names() -> Seq<Seq<char>> {
    seq![
        "footprint"@,
        "prefix"@,
        "mpn"@,
        "manufacturer"@,
        "part"@,
        "__bom_mpn"@,
        "type"@,
        "datasheet"@,
        "description"@,
        "dnp"@,
        "skip_bom"@,
        "skip_pos"@,
        "symbol_name"@,
        "symbol_path"@,
        "__symbol_value"@,
    ]
}

/// Whether an attribute is a text, or is not there where the text is not.
pub open spec fn shows(
    a: Map<Seq<char>, AttributeView>,
    name: Seq<char>,
    t: Option<Seq<char>>,
) -> bool {
    match t {
        Some(t) => a.dom().contains(name) && a[name] == AttributeView::One(ScalarView::Text(t)),
        None => !a.dom().contains(name),
    }
}

/// Whether an attribute is true where a flag is set, and is not there where it is not.
pub open spec fn flags(a: Map<Seq<char>, AttributeView>, name: Seq<char>, flag: bool) -> bool {
    if flag {
        a.dom().contains(name) && a[name] == AttributeView::One(ScalarView::Boolean(true))
    } else {
        !a.dom().contains(name)
    }
}

/// An instance of a component shows what is known of the component, under a name for each, unless a
/// property of that name counts before it; every other property is an attribute of its name.
pub proof fn law_component_shows_what_is_known(
    c: ComponentView,
    items: Seq<Item>,
    children: Map<Seq<char>, Seq<Seq<char>>>,
)
    requires
        distinct(c.data.properties),
    ensures
        ({
            let i = component_instance(c, items, children);
            let a = i.attributes;
            let p = c.data.properties;
            let part = c.data.part;
            &&& i.kind == InstanceKind::Component
            &&& i.children == children
            &&& i.source_path == c.source_path
            &&& under(p, "footprint"@) is None ==> shows(a, "footprint"@, Some(c.footprint))
            &&& under(p, "prefix"@) is None ==> shows(a, "prefix"@, Some(c.prefix))
            &&& under(p, "type"@) is None ==> shows(a, "type"@, c.ctype)
            &&& under(p, "datasheet"@) is None ==> shows(a, "datasheet"@, c.data.datasheet)
            &&& under(p, "description"@) is None ==> shows(a, "description"@, c.description)
            &&& part is Some ==> a.dom().contains("part"@) && a["part"@] == AttributeView::One(
                ScalarView::Part(part->Some_0),
            )
            &&& part is None ==> !a.dom().contains("part"@)
            &&& under(p, "mpn"@) is None ==> shows(
                a,
                "mpn"@,
                if part is Some {
                    Some(part->Some_0.mpn)
                } else {
                    None
                },
            )
            &&& under(p, "manufacturer"@) is None ==> shows(
                a,
                "manufacturer"@,
                if part is Some {
                    Some(part->Some_0.manufacturer)
                } else {
                    None
                },
            )
            &&& under(p, "__bom_mpn"@) is None && part is None ==> shows(
                a,
                "__bom_mpn"@,
                c.data.bom_mpn,
            )
            &&& c.data.dnp || under(p, "dnp"@) is None ==> flags(a, "dnp"@, c.data.dnp)
            &&& c.data.skip_bom || under(p, "skip_bom"@) is None ==> flags(
                a,
                "skip_bom"@,
                c.data.skip_bom,
            )
            &&& c.data.skip_pos || under(p, "skip_pos"@) is None ==> flags(
                a,
                "skip_pos"@,
                c.data.skip_pos,
            )
            &&& c.symbol.name is Some || under(p, "symbol_name"@) is None ==> shows(
                a,
                "symbol_name"@,
                c.symbol.name,
            )
            &&& c.symbol.source_uri is Some || under(p, "symbol_path"@) is None ==> shows(
                a,
                "symbol_path"@,
                c.symbol.source_uri,
            )
            &&& c.symbol.raw_sexp is Some || under(p, "__symbol_value"@) is None ==> shows(
                a,
                "__symbol_value"@,
                c.symbol.raw_sexp,
            )
            &&& forall|k: Seq<char>|
                !attribute_names().contains(k) ==> match #[trigger] under(p, k) {
                    Some(h) => a.dom().contains(k) && a[k] == attribute_from(items, h),
                    None => !a.dom().contains(k),
                }
        }),
{
    lemma_attribute_names();
    let names = attribute_names();
    let a = component_instance(c, items, children).attributes;
    assert(names[0] == "footprint"@ && names[1] == "prefix"@ && names[2] == "mpn"@ && names[3]
        == "manufacturer"@ && names[4] == "part"@ && names[5] == "__bom_mpn"@ && names[6] == "type"@
        && names[7] == "datasheet"@ && names[8] == "description"@ && names[9] == "dnp"@ && names[10]
        == "skip_bom"@ && names[11] == "skip_pos"@ && names[12] == "symbol_name"@ && names[13]
        == "symbol_path"@ && names[14] == "__symbol_value"@);
    lemma_shown(c, items, "footprint"@);
    lemma_shown(c, items, "prefix"@);
    lemma_shown(c, items, "mpn"@);
    lemma_shown(c, items, "manufacturer"@);
    lemma_shown(c, items, "part"@);
    lemma_shown(c, items, "__bom_mpn"@);
    lemma_shown(c, items, "type"@);
    lemma_shown(c, items, "datasheet"@);
    lemma_shown(c, items, "description"@);
    lemma_shown(c, items, "dnp"@);
    lemma_shown(c, items, "skip_bom"@);
    lemma_shown(c, items, "skip_pos"@);
    lemma_shown(c, items, "symbol_name"@);
    lemma_shown(c, items, "symbol_path"@);
    lemma_shown(c, items, "__symbol_value"@);
    assert forall|k: Seq<char>| !names.contains(k) implies match #[trigger] under(
        c.data.properties,
        k,
    ) {
        Some(h) => a.dom().contains(k) && a[k] == attribute_from(items, h),
        None => !a.dom().contains(k),
    } by {
        lemma_shown(c, items, k);
        assert(forall|i: int| 0 <= i < 15 ==> #[trigger] names[i] != k);
    }
}

/// What stands under a key of a map.
spec fn entry(m: Map<Seq<char>, AttributeView>, k: Seq<char>) -> Option<AttributeView> {
    if m.dom().contains(k) {
        Some(m[k])
    } else {
        None
    }
}

/// A text as an attribute under a name, else what stands under the key before.
spec fn text_or(
    k: Seq<char>,
    name: Seq<char>,
    t: Option<Seq<char>>,
    before: Option<AttributeView>,
) -> Option<AttributeView> {
    if k == name && t is Some {
        Some(AttributeView::One(ScalarView::Text(t->Some_0)))
    } else {
        before
    }
}

/// A flag as an attribute under a name, else what stands under the key before.
spec fn flag_or(k: Seq<char>, name: Seq<char>, flag: bool, before: Option<AttributeView>) -> Option<
    AttributeView,
> {
    if k == name && flag {
        Some(AttributeView::One(ScalarView::Boolean(true)))
    } else {
        before
    }
}

/// What an instance of a component shows under a key.
proof fn lemma_shown(c: ComponentView, items: Seq<Item>, k: Seq<char>)
    requires
        distinct(c.data.properties),
    ensures
        ({
            let first = text_or(
                k,
                "prefix"@,
                Some(c.prefix),
                text_or(k, "footprint"@, Some(c.footprint), None),
            );
            let sourced = match c.data.part {
                Some(q) => if k == "part"@ {
                    Some(AttributeView::One(ScalarView::Part(q)))
                } else {
                    text_or(
                        k,
                        "manufacturer"@,
                        Some(q.manufacturer),
                        text_or(k, "mpn"@, Some(q.mpn), first),
                    )
                },
                None => text_or(k, "__bom_mpn"@, c.data.bom_mpn, first),
            };
            let texts = text_or(
                k,
                "description"@,
                c.description,
                text_or(k, "datasheet"@, c.data.datasheet, text_or(k, "type"@, c.ctype, sourced)),
            );
            let properties = if under(c.data.properties, k) is Some && k != "part"@ {
                Some(attribute_from(items, under(c.data.properties, k)->Some_0))
            } else {
                texts
            };
            let flags = flag_or(
                k,
                "skip_pos"@,
                c.data.skip_pos,
                flag_or(
                    k,
                    "skip_bom"@,
                    c.data.skip_bom,
                    flag_or(k, "dnp"@, c.data.dnp, properties),
                ),
            );
            entry(gathered(component_attributes(c, items)), k) == text_or(
                k,
                "__symbol_value"@,
                c.symbol.raw_sexp,
                text_or(
                    k,
                    "symbol_path"@,
                    c.symbol.source_uri,
                    text_or(k, "symbol_name"@, c.symbol.name, flags),
                ),
            )
        }),
{
    let none = Seq::<(Seq<char>, AttributeView)>::empty();
    let a = with_text(none, "footprint"@, Some(c.footprint));
    let b = with_text(a, "prefix"@, Some(c.prefix));
    lemma_gathered_text(none, "footprint"@, Some(c.footprint));
    lemma_gathered_text(a, "prefix"@, Some(c.prefix));
    let d = match c.data.part {
        Some(q) => {
            let x = with_text(b, "mpn"@, Some(q.mpn));
            let y = with_text(x, "manufacturer"@, Some(q.manufacturer));
            lemma_gathered_text(b, "mpn"@, Some(q.mpn));
            lemma_gathered_text(x, "manufacturer"@, Some(q.manufacturer));
            let z = y.push(("part"@, AttributeView::One(ScalarView::Part(q))));
            assert(z.drop_last() =~= y);
            z
        },
        None => {
            lemma_gathered_text(b, "__bom_mpn"@, c.data.bom_mpn);
            with_text(b, "__bom_mpn"@, c.data.bom_mpn)
        },
    };
    let e = with_text(d, "type"@, c.ctype);
    let f = with_text(e, "datasheet"@, c.data.datasheet);
    let g = with_text(f, "description"@, c.description);
    let h = with_items(g, items, c.data.properties, Some("part"@));
    let i = with_flag(h, "dnp"@, c.data.dnp);
    let j = with_flag(i, "skip_bom"@, c.data.skip_bom);
    let l = with_flag(j, "skip_pos"@, c.data.skip_pos);
    let m = with_text(l, "symbol_name"@, c.symbol.name);
    let n = with_text(m, "symbol_path"@, c.symbol.source_uri);
    lemma_gathered_text(d, "type"@, c.ctype);
    lemma_gathered_text(e, "datasheet"@, c.data.datasheet);
    lemma_gathered_text(f, "description"@, c.description);
    lemma_gathered_items(g, items, c.data.properties, Some("part"@));
    lemma_gathered_flag(h, "dnp"@, c.data.dnp);
    lemma_gathered_flag(i, "skip_bom"@, c.data.skip_bom);
    lemma_gathered_flag(j, "skip_pos"@, c.data.skip_pos);
    lemma_gathered_text(l, "symbol_name"@, c.symbol.name);
    lemma_gathered_text(m, "symbol_path"@, c.symbol.source_uri);
    lemma_gathered_text(n, "__symbol_value"@, c.symbol.raw_sexp);
    assert(component_attributes(c, items) == with_text(n, "__symbol_value"@, c.symbol.raw_sexp));
    let before = gathered(g);
    let after = gathered(h);
    assert(after.dom().contains(k) || !after.dom().contains(k));
}

/// An instance of a module shows the properties of the module; the module is left off the board
/// exactly where its property for that says so.
pub proof fn law_module_shows_its_properties(
    v: ModuleValue,
    items: Seq<Item>,
    children: Map<Seq<char>, Seq<Seq<char>>>,
)
    requires
        distinct(handles_in(v.properties)),
    ensures
        ({
            let i = module_instance(v, items, children);
            let p = handles_in(v.properties);
            let dnp = under(p, "dnp"@);
            &&& i.kind == InstanceKind::Module
            &&& i.children == children
            &&& i.source_path == v.source_path@
            &&& forall|k: Seq<char>|
                k != "dnp"@ && k != "__signature"@ ==> match #[trigger] under(p, k) {
                    Some(h) => i.attributes.dom().contains(k) && i.attributes[k] == attribute_from(
                        items,
                        h,
                    ),
                    None => !i.attributes.dom().contains(k),
                }
            &&& dnp is None ==> !i.attributes.dom().contains("dnp"@)
            &&& dnp is Some && items[dnp->Some_0 as int] is Bool ==> (i.attributes["dnp"@]
                == AttributeView::One(ScalarView::Boolean(items[dnp->Some_0 as int]->Bool_0)))
            &&& v.signature@.len() > 0 ==> (
            i.attributes["__signature"@] matches AttributeView::Signature(s) && s.len()
                == v.signature@.len() && forall|k: int|
                0 <= k < s.len() ==> (#[trigger] s[k]).name == v.signature@[k].name@ && s[k].is_config
                    == v.signature@[k].is_config && s[k].optional == v.signature@[k].optional
                    && s[k].has_default == (v.signature@[k].default_value is Some))
        }),
{
    let none = Seq::<(Seq<char>, AttributeView)>::empty();
    let p = handles_in(v.properties);
    let a = with_items(none, items, p, None);
    let b = with_flag(a, "dnp"@, is_dnp(items, p));
    lemma_gathered_items(none, items, p, None);
    lemma_gathered_flag(a, "dnp"@, is_dnp(items, p));
    reveal_strlit("dnp");
    reveal_strlit("__signature");
    assert("dnp"@.len() == 3 && "__signature"@.len() == 11);
    let all = module_attributes(v, items);
    if v.signature@.len() > 0 {
        assert(all.drop_last() =~= b);
        assert(all.last().0 == "__signature"@);
    } else {
        assert(all == b);
    }
}

// ---------------------------------------------------------------------------------------------
// All of a schematic

/// Whether nothing of a schematic is lost in another: its instances, the ports of its nets and their
/// kinds.
pub open spec fn grows(a: Model, b: Model) -> bool {
    &&& forall|p: Seq<Seq<char>>| #[trigger]
        a.instances.dom().contains(p) ==> b.instances.dom().contains(p)
    &&& forall|id: u64, p: Seq<Seq<char>>|
        known_net(a.nets, id).ports.contains(p) ==> #[trigger] known_net(b.nets, id).ports.contains(p)
    &&& forall|id: u64|
        known_net(a.nets, id).kind is Some ==> (#[trigger] known_net(b.nets, id)).kind == known_net(
            a.nets,
            id,
        ).kind
}

proof fn lemma_grows_transitive(a: Model, b: Model, c: Model)
    requires
        grows(a, b),
        grows(b, c),
    ensures
        grows(a, c),
{
    assert forall|id: u64, p: Seq<Seq<char>>|
        known_net(a.nets, id).ports.contains(p) implies #[trigger] known_net(c.nets, id).ports.contains(
        p,
    ) by {
        assert(known_net(b.nets, id).ports.contains(p));
    }
    assert forall|id: u64| known_net(a.nets, id).kind is Some implies (#[trigger] known_net(
        c.nets,
        id,
    )).kind == known_net(a.nets, id).kind by {
        assert(known_net(b.nets, id).kind == known_net(a.nets, id).kind);
    }
}

proof fn lemma_ports_grow(
    m: Model,
    c: ComponentView,
    items: Seq<Item>,
    path: Seq<Seq<char>>,
    groups: Seq<(Seq<char>, Seq<Seq<char>>)>,
)
    ensures
        grows(m, with_ports(m, c, items, path, groups).0),
    decreases groups.len(),
{
    if groups.len() > 0 {
        let d = groups.drop_last();
        lemma_ports_grow(m, c, items, path, d);
        let b = with_ports(m, c, items, path, d).0;
        let r = with_ports(m, c, items, path, groups).0;
        assert forall|id: u64, p: Seq<Seq<char>>|
            known_net(b.nets, id).ports.contains(p) implies #[trigger] known_net(
            r.nets,
            id,
        ).ports.contains(p) by {
            let was = known_net(b.nets, id).ports;
            let is_now = known_net(r.nets, id).ports;
            let i = choose|i: int| 0 <= i < was.len() && was[i] == p;
            assert(is_now[i] == p);
        }
        lemma_grows_transitive(m, b, r);
    }
}

proof fn lemma_component_grows(m: Model, c: ComponentView, items: Seq<Item>, path: Seq<Seq<char>>)
    ensures
        grows(m, with_component(m, c, items, path)),
{
    let start = Model {
        models: match c.data.spice_model {
            Some(h) => m.models.push((path, h)),
            None => m.models,
        },
        ..m
    };
    let groups = crate::convert::pads_by_signal(c.symbol.pads);
    lemma_ports_grow(start, c, items, path, groups);
    let r = with_ports(start, c, items, path, groups).0;
    let done = with_component(m, c, items, path);
    assert(done.nets == r.nets);
    assert(grows(m, start));
    assert(grows(r, done));
    lemma_grows_transitive(m, start, r);
    lemma_grows_transitive(m, r, done);
}

proof fn lemma_introduced_grows(m: Model, prefix: Seq<char>, v: Seq<IntroducedNet>)
    ensures
        grows(m, with_introduced(m, prefix, v)),
    decreases v.len(),
{
    if v.len() > 0 {
        let b = with_introduced(m, prefix, v.drop_last());
        lemma_introduced_grows(m, prefix, v.drop_last());
        let r = with_introduced(m, prefix, v);
        assert(grows(b, r));
        lemma_grows_transitive(m, b, r);
    }
}

proof fn lemma_components_grow(
    m: Model,
    v: Seq<ComponentValue>,
    items: Seq<Item>,
    path: Seq<Seq<char>>,
    j: int,
)
    requires
        0 <= j <= v.len(),
    ensures
        grows(with_components(m, v.take(j), items, path).0, with_components(m, v, items, path).0),
        forall|i: int|
            0 <= i < v.len() ==> with_components(m, v, items, path).1.dom().contains(
                (#[trigger] v[i])@.name,
            ),
        forall|s: Seq<char>| #[trigger]
            with_components(m, v, items, path).1.dom().contains(s) ==> with_components(
                m,
                v,
                items,
                path,
            ).1[s] == path.push(s) && exists|i: int| 0 <= i < v.len() && (#[trigger] v[i])@.name == s,
    decreases v.len(),
{
    if v.len() == 0 {
        assert(v.take(j) =~= v);
    } else {
        let d = v.drop_last();
        let c = v.last()@;
        let (b, before) = with_components(m, d, items, path);
        let (r, children) = with_components(m, v, items, path);
        lemma_component_grows(b, c, items, path.push(c.name));
        lemma_components_grow(m, d, items, path, if j <= d.len() { j } else { 0 });
        if j == v.len() {
            assert(v.take(j) =~= v);
        } else {
            assert(d.take(j) =~= v.take(j));
            lemma_grows_transitive(with_components(m, v.take(j), items, path).0, b, r);
        }
        assert(v[v.len() - 1] == v.last());
        assert forall|i: int| 0 <= i < v.len() implies children.dom().contains((#[trigger] v[i])@.name) by {
            if i < d.len() {
                assert(d[i] == v[i]);
            }
        }
        assert forall|s: Seq<char>| #[trigger] children.dom().contains(s) implies children[s]
            == path.push(s) && exists|i: int| 0 <= i < v.len() && (#[trigger] v[i])@.name == s by {
            if s == c.name {
                assert(v[v.len() - 1]@.name == s);
            } else {
                assert(before.dom().contains(s));
                let i = choose|i: int| 0 <= i < d.len() && (#[trigger] d[i])@.name == s;
                assert(v[i]@.name == s);
            }
        }
    }
}

proof fn lemma_module_grows(m: Model, v: ModuleValue, items: Seq<Item>)
    ensures
        grows(m, with_module(m, v, items)),
        grows(m, with_link(m, v)),
{
    let path = v.path@;
    let prefix = joined(path, "."@);
    let a = with_introduced(m, prefix, v.introduced_nets@);
    lemma_introduced_grows(m, prefix, v.introduced_nets@);
    let comps = v.components@;
    lemma_components_grow(a, comps, items, path, 0);
    assert(with_components(a, comps.take(0), items, path).0 == a);
    let b = with_components(a, comps, items, path).0;
    let r = with_module(m, v, items);
    assert(grows(b, r));
    lemma_grows_transitive(m, a, b);
    lemma_grows_transitive(m, b, r);
}

/// A module that is added is an instance with a child for each of its components and for nothing else.
/// Its components are instances.
pub proof fn law_module_holds_its_components(m: Model, v: ModuleValue, items: Seq<Item>)
    ensures
        ({
            let r = with_module(m, v, items);
            let path = v.path@;
            &&& r.instances.dom().contains(path)
            &&& r.instances[path].kind == InstanceKind::Module
            &&& r.instances[path].source_path == v.source_path@
            &&& forall|i: int|
                0 <= i < v.components@.len() ==> r.instances[path].children.dom().contains(
                    (#[trigger] v.components@[i])@.name,
                ) && r.instances[path].children[v.components@[i]@.name] == path.push(
                    v.components@[i]@.name,
                ) && r.instances.dom().contains(path.push(v.components@[i]@.name))
            &&& forall|s: Seq<char>| #[trigger]
                r.instances[path].children.dom().contains(s) ==> exists|i: int|
                    0 <= i < v.components@.len() && (#[trigger] v.components@[i])@.name == s
        }),
{
    let path = v.path@;
    let comps = v.components@;
    let a = with_introduced(m, joined(path, "."@), v.introduced_nets@);
    lemma_components_grow(a, comps, items, path, 0);
    assert forall|i: int| 0 <= i < comps.len() implies with_components(
        a,
        comps,
        items,
        path,
    ).0.instances.dom().contains(path.push((#[trigger] comps[i])@.name)) by {
        lemma_components_grow(a, comps, items, path, i + 1);
        let t = comps.take(i + 1);
        assert(t.last() == comps[i]);
        assert(with_components(a, t, items, path).0.instances.dom().contains(
            path.push(comps[i]@.name),
        ));
    }
    assert forall|i: int| 0 <= i < comps.len() implies with_module(
        m,
        v,
        items,
    ).instances[path].children.dom().contains((#[trigger] comps[i])@.name) by {}
}

/// A module is a child of the module around it, under its name.
pub proof fn law_module_is_linked(m: Model, v: ModuleValue)
    requires
        v.path@.len() > 0,
        m.instances.dom().contains(v.path@.drop_last()),
    ensures
        ({
            let parent = v.path@.drop_last();
            let r = with_link(m, v).instances;
            &&& r[parent].children.dom().contains(v.name@)
            &&& r[parent].children[v.name@] == v.path@
            &&& forall|s: Seq<char>|
                s != v.name@ ==> (#[trigger] r[parent].children.dom().contains(s)
                    <==> m.instances[parent].children.dom().contains(s))
            &&& r[parent].attributes == m.instances[parent].attributes
            &&& r[parent].kind == m.instances[parent].kind
            &&& forall|q: Seq<Seq<char>>| q != parent ==> #[trigger] r[q] == m.instances[q]
        }),
{
}

/// Every module, every component of a module, and the port of every pad of a component is an instance
/// of the schematic; and a net that is connected to a pin is on the port of the pin.
pub proof fn law_everything_is_in_the_schematic(
    m: Model,
    v: Seq<ModuleValue>,
    items: Seq<Item>,
    i: int,
    j: int,
    k: int,
)
    requires
        0 <= i < v.len(),
        0 <= j < v[i].components@.len(),
        0 <= k < v[i].components@[j]@.symbol.pads.len(),
    ensures
        ({
            let r = with_modules(m, v, items);
            let c = v[i].components@[j]@;
            let path = v[i].path@.push(c.name);
            let signal = c.symbol.pads[k].1;
            &&& r.instances.dom().contains(v[i].path@)
            &&& r.instances.dom().contains(path)
            &&& r.instances.dom().contains(path.push(signal))
            &&& under(c.connections, signal) is Some && items[under(
                c.connections,
                signal,
            )->Some_0 as int] is Net ==> known_net(
                r.nets,
                items[under(c.connections, signal)->Some_0 as int]->Net_0.net_id,
            ).ports.contains(path.push(signal))
        }),
    decreases v.len(),
{
    let d = v.drop_last();
    let before = with_modules(m, d, items);
    let added = with_module(before, v.last(), items);
    let r = with_modules(m, v, items);
    lemma_module_grows(before, v.last(), items);
    lemma_module_grows(added, v.last(), items);
    lemma_grows_transitive(before, added, r);
    let c = v[i].components@[j]@;
    let path = v[i].path@.push(c.name);
    let signal = c.symbol.pads[k].1;
    if i < d.len() {
        assert(d[i] == v[i]);
        law_everything_is_in_the_schematic(m, d, items, i, j, k);
    } else {
        let comps = v[i].components@;
        let start = with_introduced(before, joined(v[i].path@, "."@), v[i].introduced_nets@);
        let t = comps.take(j + 1);
        let was = with_components(start, t.drop_last(), items, v[i].path@).0;
        let is_now = with_components(start, t, items, v[i].path@).0;
        assert(t.last() == comps[j]);
        crate::convert::law_component_is_added(was, c, items, path, k);
        lemma_components_grow(start, comps, items, v[i].path@, j + 1);
        assert(is_now.instances.dom().contains(path.push(signal)));
        let done = with_components(start, comps, items, v[i].path@).0;
        assert(grows(done, added));
        lemma_grows_transitive(is_now, done, added);
        lemma_grows_transitive(is_now, added, r);
    }
}

/// A component that is to be bought and lacks a part is reported: as one that lacks a manufacturer,
/// where it has a part number; else as one that lacks a part, unless a house part can be found for it.
/// No other is reported.
pub proof fn law_missing_parts_are_reported(v: Seq<BomEntry>)
    ensures
        forall|i: int|
            0 <= i < v.len() && !(#[trigger] v[i]).dnp && !v[i].skip_bom && !v[i].has_part && (
            v[i].bom_mpn is Some || v[i].component_type is None) ==> exists|k: int|
                0 <= k < missing_parts(v).len() && (#[trigger] missing_parts(v)[k]).0 == v[i].source_path@
                    && missing_parts(v)[k].1.severity == Severity::Error && missing_parts(v)[k].1.kind
                    == (if v[i].bom_mpn is Some {
                    "bom.underspecified"@
                } else {
                    "bom.unspecified"@
                }),
        forall|k: int|
            0 <= k < missing_parts(v).len() ==> exists|i: int|
                0 <= i < v.len() && !(#[trigger] v[i]).dnp && !v[i].skip_bom && !v[i].has_part && (
                #[trigger] missing_parts(v)[k]).0 == v[i].source_path@,
    decreases v.len(),
{
    let r = missing_parts(v);
    if v.len() > 0 {
        let d = v.drop_last();
        let b = missing_parts(d);
        law_missing_parts_are_reported(d);
        assert(v[v.len() - 1] == v.last());
        assert forall|i: int|
            0 <= i < v.len() && !(#[trigger] v[i]).dnp && !v[i].skip_bom && !v[i].has_part && (
            v[i].bom_mpn is Some || v[i].component_type is None) implies exists|k: int|
            0 <= k < r.len() && (#[trigger] r[k]).0 == v[i].source_path@ && r[k].1.severity
                == Severity::Error && r[k].1.kind == (if v[i].bom_mpn is Some {
                "bom.underspecified"@
            } else {
                "bom.unspecified"@
            }) by {
            if i < d.len() {
                assert(d[i] == v[i]);
                let k = choose|k: int|
                    0 <= k < b.len() && (#[trigger] b[k]).0 == d[i].source_path@ && b[k].1.severity
                        == Severity::Error && b[k].1.kind == (if d[i].bom_mpn is Some {
                        "bom.underspecified"@
                    } else {
                        "bom.unspecified"@
                    });
                assert(r[k] == b[k]);
            } else {
                assert(r[r.len() - 1].0 == v[i].source_path@);
            }
        }
        assert forall|k: int| 0 <= k < r.len() implies exists|i: int|
            0 <= i < v.len() && !(#[trigger] v[i]).dnp && !v[i].skip_bom && !v[i].has_part && (
            #[trigger] r[k]).0 == v[i].source_path@ by {
            if k < b.len() {
                assert(r[k] == b[k]);
                let i = choose|i: int|
                    0 <= i < d.len() && !(#[trigger] d[i]).dnp && !d[i].skip_bom && !d[i].has_part
                        && b[k].0 == d[i].source_path@;
                assert(v[i] == d[i]);
            } else {
                assert(v[v.len() - 1].source_path@ == r[k].0);
            }
        }
    }
}

/// An input or output of a module that holds nets, none of which is on a port inside the module, is
/// reported, and no other parameter is.
pub proof fn law_unused_inputs_are_reported(m: Model, items: Seq<Item>, v: ModuleValue, p: ModuleParam)
    ensures
        is_unused(m, items, v.path@, p) <==> !p.is_config && p.actual_value is Some && net_ids(
            items,
            p.actual_value->Some_0,
        ).len() > 0 && forall|i: int, j: int|
            #![trigger known_net(m.nets, net_ids(items, p.actual_value->Some_0)[i]).ports[j]]
            0 <= i < net_ids(items, p.actual_value->Some_0).len() && 0 <= j < known_net(
                m.nets,
                net_ids(items, p.actual_value->Some_0)[i],
            ).ports.len() ==> !is_prefix_of(
                v.path@,
                known_net(m.nets, net_ids(items, p.actual_value->Some_0)[i]).ports[j],
            ),
{
    if p.actual_value is Some {
        let ids = net_ids(items, p.actual_value->Some_0);
        if any_used(m, ids, v.path@) {
            let i = choose|i: int| 0 <= i < ids.len() && is_used(m, #[trigger] ids[i], v.path@);
            let ports = m.nets[ids[i]].ports;
            let j = choose|j: int| 0 <= j < ports.len() && is_within(#[trigger] ports[j], v.path@);
            assert(is_prefix_of(v.path@, known_net(m.nets, ids[i]).ports[j]));
        } else {
            assert forall|i: int, j: int|
                #![trigger known_net(m.nets, ids[i]).ports[j]]
                0 <= i < ids.len() && 0 <= j < known_net(m.nets, ids[i]).ports.len() implies !is_prefix_of(
                v.path@,
                known_net(m.nets, ids[i]).ports[j],
            ) by {
                assert(!is_used(m, ids[i], v.path@));
                if m.nets.dom().contains(ids[i]) {
                    assert(!is_within(m.nets[ids[i]].ports[j], v.path@));
                }
            }
        }
    }
}

/// Whether one path begins another.
pub open spec fn is_prefix_of(a: Seq<Seq<char>>, b: Seq<Seq<char>>) -> bool {
    a.len() <= b.len() && b.take(a.len() as int) == a
}

/// A directive that names a path of the schematic as new, and none as old, is kept, under the paths
/// within its module, where one of its paths is a single name or it was made for an interface; any
/// other is dropped. What was kept before stays.
pub proof fn law_moved_directives(
    d: MovedDirective,
    prefix: Seq<char>,
    source_path: Seq<char>,
    existing: Seq<Seq<char>>,
    kept: Map<Seq<char>, Seq<char>>,
    said: Seq<MovedNoticeView>,
)
    ensures
        ({
            let from = if prefix.len() == 0 {
                d.old_path@
            } else {
                prefix + seq!['.'] + d.old_path@
            };
            let to = if prefix.len() == 0 {
                d.new_path@
            } else {
                prefix + seq!['.'] + d.new_path@
            };
            let single = !d.old_path@.contains('.') || !d.new_path@.contains('.');
            let (k, s) = moved_in(seq![d], prefix, source_path, existing, kept, said);
            let holds = if d.auto_generated {
                existing.contains(to)
            } else {
                single && !existing.contains(from) && existing.contains(to)
            };
            &&& holds ==> k == kept.insert(from, to)
            &&& !holds ==> k == kept
            &&& d.auto_generated || holds ==> s == said
            &&& !d.auto_generated && !holds ==> s.len() == said.len() + 1
        }),
{
    reveal_strlit(".");
    assert("."@ =~= seq!['.']);
    let v = seq![d];
    assert(v.drop_last() =~= Seq::<MovedDirective>::empty());
    assert(v.last() == d);
    reveal_with_fuel(moved_in, 2);
    lemma_single_piece(d.old_path@);
    lemma_single_piece(d.new_path@);
}

proof fn lemma_single_piece(s: Seq<char>)
    ensures
        pieces(s, '.').len() == 1 <==> !s.contains('.'),
        pieces(s, '.').len() >= 1,
    decreases s.len(),
{
    if s.len() > 0 {
        let d = s.drop_last();
        lemma_single_piece(d);
        assert(s[s.len() - 1] == s.last());
        if d.contains('.') {
            let i = choose|i: int| 0 <= i < d.len() && d[i] == '.';
            assert(s[i] == '.');
        }
        if s.contains('.') && s.last() != '.' {
            let i = choose|i: int| 0 <= i < s.len() && s[i] == '.';
            assert(d[i] == '.');
        }
    }
}

/// An instance with a simulation model shows the model's text and name, and for each terminal the name
/// of the net that it is on.
pub proof fn law_model_is_shown(i: InstanceView, m: Model, items: Seq<Item>, model: SpiceModelValue)
    ensures
        ({
            let r = with_model_attributes(i, m, items, model).attributes;
            &&& shows(r, "__model_def"@, Some(model.definition@))
            &&& shows(r, "__model_name"@, Some(model.name@))
            &&& (r["__model_nets"@] matches AttributeView::Many(l) && l.len() == model.nets@.len()
                && forall|k: int|
                #![trigger l[k]]
                0 <= k < l.len() && items[model.nets@[k] as int] is Net ==> {
                    let known = known_net(m.nets, items[model.nets@[k] as int]->Net_0.net_id).name;
                    known is Some ==> l[k] == ScalarView::Text(known->Some_0)
                })
        }),
{
    reveal_strlit("__model_def");
    reveal_strlit("__model_name");
    reveal_strlit("__model_nets");
    reveal_strlit("__model_args");
    assert("__model_def"@.len() == 11);
    assert("__model_name"@.len() == 12 && "__model_name"@[8] == 'n' && "__model_name"@[9] == 'a');
    assert("__model_nets"@.len() == 12 && "__model_nets"@[8] == 'n' && "__model_nets"@[9] == 'e');
    assert("__model_args"@.len() == 12 && "__model_args"@[8] == 'a');
}

} // verus!
