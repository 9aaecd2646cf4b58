//! What holds of each step in which instances and components are put together.

use vstd::prelude::*;

use crate::config::ManifestPartView;
use crate::lang::component::{alternatives_error, bundled_footprint, footprint_stem};
use crate::lang::component::{found_footprint, known_alternatives, planned_footprint, sourced};
use crate::lang::component::{sourced_text, symbol_field};
use crate::lang::component_type::{component_source, ComponentArguments};
use crate::lang::interface::{child_of, default_fields, generated_net, made_instance, named_effects};
use crate::lang::interface::{post_init_effects, registered_effects, Build, EffectView, Made};
use crate::lang::interface::{PrefixView, ProvidedField, Setting};
use crate::lang::net::{ConnectionIntent, NetType};
use crate::lang::part::PartView;
use crate::lang::symbol::SymbolView;
use crate::lang::value::Item;
use crate::path::{parent_of, path_joined};
use crate::small_map::{distinct, lemma_put, under};
use crate::manifest_laws::lemma_trimmed_is_same;
use crate::text::{cut_first, first_at, is_blank, is_space, lemma_first_at, trimmed, uppered};

verus! {

// ---------------------------------------------------------------------------------------------
// Instances

/// A net that is made for a field has a number of its own and the name of the field behind that of the
/// instance, or behind an underscore where the instance has none. It is of its type, connected, and made
/// where the instance is; unless it may take the name of a variable it keeps its name as a model.
pub proof fn law_net_of_field(
    s: Setting,
    p: PrefixView,
    name: Seq<char>,
    t: NetType,
    b: Build,
)
    requires
        0 <= s.id,
        0 <= b.ids,
        s.id + b.ids <= u64::MAX,
    ensures
        ({
            let (h, c) = generated_net(s, p, name, t, b);
            let full = if p.new_style.len() == 0 {
                seq!['_'] + name
            } else {
                p.new_style + seq!['_'] + name
            };
            &&& c.ids == b.ids + 1
            &&& c.nets == b.nets
            &&& c.made.len() > b.made.len()
            &&& match c.made.last() {
                Made::Net(n) => {
                    &&& n.net_id == s.id + b.ids
                    &&& n.name == full
                    &&& n.original_name == Some(full)
                    &&& p.assignment_inferable ==> n.template_name is None
                    &&& !p.assignment_inferable ==> n.template_name == Some(full)
                    &&& n.assignment_inferable == p.assignment_inferable
                    &&& n.inferred_name is None
                    &&& !n.was_bound
                    &&& n.type_label == t.type_label@
                    &&& n.connection_intent == ConnectionIntent::Connected
                    &&& n.declaration_path == s.site.path
                    &&& n.declaration_span == s.site.span
                },
                _ => false,
            }
            &&& s.register ==> c.effects.last() == EffectView::Register(h)
            &&& c.effects.contains(EffectView::CheckName(full))
        }),
{
    reveal_strlit("_");
    assert("_"@ =~= seq!['_']);
    let (h, c) = generated_net(s, p, name, t, b);
    let full = if p.new_style.len() == 0 {
        seq!['_'] + name
    } else {
        p.new_style + seq!['_'] + name
    };
    let checked = named_effects(p, name, b.effects).push(EffectView::CheckName(full));
    assert(checked[checked.len() - 1] == EffectView::CheckName(full));
    assert(c.effects[checked.len() - 1] == EffectView::CheckName(full));
}

/// A net whose name was once written in another way is said to have moved from that, and no other is.
pub proof fn law_old_names_are_followed(p: PrefixView, leaf: Seq<char>, effects: Seq<EffectView>)
    ensures
        ({
            let now = if p.new_style.len() == 0 {
                seq!['_'] + leaf
            } else {
                p.new_style + seq!['_'] + leaf
            };
            let once = if p.new_style.len() == 0 {
                uppered(leaf)
            } else if p.old_style.len() == 0 {
                uppered(leaf)
            } else {
                p.old_style + seq!['_'] + uppered(leaf)
            };
            &&& now == once ==> named_effects(p, leaf, effects) == effects
            &&& now != once ==> named_effects(p, leaf, effects) == effects.push(
                EffectView::Moved(once, now),
            )
        }),
{
    reveal_strlit("_");
    assert("_"@ =~= seq!['_']);
}

/// The fields of a field are named behind it.
pub proof fn law_fields_of_fields(p: PrefixView, field: Seq<char>)
    ensures
        ({
            let c = child_of(p, field);
            &&& p.new_style.len() == 0 ==> c.new_style == field
            &&& p.new_style.len() > 0 ==> c.new_style == p.new_style + seq!['_'] + field
            &&& p.old_style.len() == 0 ==> c.old_style == uppered(field)
            &&& p.old_style.len() > 0 ==> c.old_style == p.old_style + seq!['_'] + uppered(field)
            &&& c.assignment_inferable == p.assignment_inferable
        }),
{
    reveal_strlit("_");
    assert("_"@ =~= seq!['_']);
}

/// The function of an interface that is to be called on each instance is called on the new one, after
/// all else was done; an interface without one calls none.
pub proof fn law_function_is_called(
    s: Setting,
    p: PrefixView,
    h: usize,
    provided: Seq<ProvidedField>,
    b: Build,
)
    requires
        s.items[h as int] is InterfaceFactory,
        made_instance(s, p, h, provided, b).0 is Ok,
    ensures
        ({
            let (at, c) = made_instance(s, p, h, provided, b);
            let f = s.items[h as int]->InterfaceFactory_0.post_init;
            &&& f is Some && s.items[f->Some_0 as int] != Item::Nothing ==> c.effects.len() > 0
                && c.effects.last() == EffectView::PostInit(f->Some_0, at->Ok_0)
        }),
        forall|effects: Seq<EffectView>, at: usize|
            s.items[h as int]->InterfaceFactory_0.post_init is None ==> #[trigger] post_init_effects(
                s.items,
                s.items[h as int]->InterfaceFactory_0.post_init,
                at,
                effects,
            ) == effects,
{
}

/// A net is registered exactly where nets are to be.
pub proof fn law_nets_are_registered(s: Setting, h: usize, effects: Seq<EffectView>)
    ensures
        s.register ==> registered_effects(s, h, effects) == effects.push(EffectView::Register(h)),
        !s.register ==> registered_effects(s, h, effects) == effects,
{
}

/// The fields of a net type that have a default have it.
pub proof fn law_defaults_of_fields(items: Seq<Item>, f: Seq<(Seq<char>, usize)>)
    requires
        distinct(f),
    ensures
        distinct(default_fields(items, f)),
        forall|i: int|
            0 <= i < f.len() ==> under(default_fields(items, f), (#[trigger] f[i]).0) == (
            match items[f[i].1 as int] {
                Item::Field(d) => d,
                _ => None,
            }),
        forall|q: Seq<char>| #[trigger]
            under(default_fields(items, f), q) is Some ==> exists|i: int|
                0 <= i < f.len() && (#[trigger] f[i]).0 == q,
    decreases f.len(),
{
    if f.len() > 0 {
        let d = f.drop_last();
        let n = f.len() - 1;
        assert(f[n] == f.last());
        assert forall|i: int, j: int| 0 <= i < j < d.len() implies (#[trigger] d[i]).0 != (
        #[trigger] d[j]).0 by {
            assert(f[i].0 != f[j].0);
        }
        law_defaults_of_fields(items, d);
        let before = default_fields(items, d);
        let after = default_fields(items, f);
        let key = f.last().0;
        if under(before, key) is Some {
            let i = choose|i: int| 0 <= i < d.len() && (#[trigger] d[i]).0 == key;
            assert(f[i].0 != f[n].0);
        }
        if let Item::Field(Some(v)) = items[f.last().1 as int] {
            lemma_put(before, key, v);
        }
        assert forall|i: int| 0 <= i < f.len() implies under(after, (#[trigger] f[i]).0) == (
        match items[f[i].1 as int] {
            Item::Field(d) => d,
            _ => None,
        }) by {
            if i < n {
                assert(d[i] == f[i]);
                assert(f[i].0 != f[n].0);
            }
        }
        assert forall|q: Seq<char>| #[trigger] under(after, q) is Some implies exists|i: int|
            0 <= i < f.len() && (#[trigger] f[i]).0 == q by {
            if q == key {
                assert(f[n].0 == q);
            } else {
                assert(under(before, q) is Some);
                let i = choose|i: int| 0 <= i < d.len() && (#[trigger] d[i]).0 == q;
                assert(f[i] == d[i]);
            }
        }
    }
}

// ---------------------------------------------------------------------------------------------
// Parts

/// A part that is given counts, and all that the manifests declare are alternatives to it. Without one
/// and without a number, the first that they declare counts, and the others are alternatives. A number
/// with a manufacturer is a part without alternatives, and a number alone is none, but stays known.
pub proof fn law_source_of_component(
    given: Option<PartView>,
    mpn: Option<Seq<char>>,
    manufacturer: Option<Seq<char>>,
    declared: Option<Seq<ManifestPartView>>,
    i: int,
)
    ensures
        ({
            let (part, others, number) = sourced(given, mpn, manufacturer, declared);
            let parts = if declared is Some {
                declared->Some_0
            } else {
                Seq::<ManifestPartView>::empty()
            };
            &&& given is Some ==> {
                &&& part == given
                &&& number == Some(given->Some_0.mpn)
                &&& others.len() == parts.len()
                &&& 0 <= i < parts.len() ==> others[i].mpn == parts[i].mpn && others[i].manufacturer
                    == parts[i].manufacturer
            }
            &&& given is None && mpn is None && parts.len() > 0 ==> {
                &&& part is Some
                &&& part->Some_0.mpn == parts[0].mpn
                &&& part->Some_0.manufacturer == parts[0].manufacturer
                &&& number == Some(parts[0].mpn)
                &&& others.len() == parts.len() - 1
                &&& 0 <= i < parts.len() - 1 ==> others[i].mpn == parts[i + 1].mpn
                    && others[i].manufacturer == parts[i + 1].manufacturer
            }
            &&& given is None && (mpn is Some || parts.len() == 0) ==> {
                &&& others.len() == 0
                &&& number == mpn
                &&& part is Some <==> mpn is Some && manufacturer is Some
                &&& part is Some ==> part->Some_0.mpn == mpn->Some_0 && part->Some_0.manufacturer
                    == manufacturer->Some_0
            }
        }),
{
}

/// A number or a manufacturer is the one that is given; else that of the first property that is not
/// blank; else that of the symbol.
pub proof fn law_sourced_texts(
    explicit: Option<Seq<char>>,
    items: Seq<Item>,
    p: Seq<(Seq<char>, usize)>,
    symbol: SymbolView,
    key: Seq<char>,
    other_key: Seq<char>,
    field: Seq<char>,
)
    ensures
        ({
            let r = sourced_text(explicit, items, p, symbol, key, other_key, field);
            let a = said_by(items, p, key);
            let b = said_by(items, p, other_key);
            &&& explicit is Some ==> r == explicit
            &&& explicit is None && a is Some ==> r == a
            &&& explicit is None && a is None && b is Some ==> r == b
            &&& explicit is None && a is None && b is None ==> r == symbol_field(symbol, field)
        }),
{
}

/// The text of a property that is not blank.
pub open spec fn said_by(items: Seq<Item>, p: Seq<(Seq<char>, usize)>, key: Seq<char>) -> Option<
    Seq<char>,
> {
    if under(p, key) is Some && items[under(p, key)->Some_0 as int] is Text && !is_blank(
        items[under(p, key)->Some_0 as int]->Text_0@,
    ) {
        Some(items[under(p, key)->Some_0 as int]->Text_0@)
    } else {
        None
    }
}

/// A component without a part, arguments or properties that say so comes from where its symbol says.
pub proof fn law_symbol_says_part(
    items: Seq<Item>,
    args: ComponentArguments,
    symbol: SymbolView,
    p: Seq<(Seq<char>, usize)>,
)
    requires
        args.part is None,
        args.mpn is None,
        args.manufacturer is None,
        under(p, "mpn"@) is None,
        under(p, "Mpn"@) is None,
        under(p, "manufacturer"@) is None,
        under(p, "Manufacturer"@) is None,
    ensures
        ({
            let (part, others, number) = component_source(items, args, symbol, p, None);
            let m = symbol_field(symbol, "Manufacturer_Part_Number"@);
            let f = symbol_field(symbol, "Manufacturer_Name"@);
            &&& number == m
            &&& others.len() == 0
            &&& part is Some <==> m is Some && f is Some
            &&& part is Some ==> part->Some_0.mpn == m->Some_0 && part->Some_0.manufacturer == f->Some_0
        }),
{
}

/// The alternatives of a component must be a list of parts, where it has any; they are kept.
pub proof fn law_alternatives_are_parts(items: Seq<Item>, p: Seq<(Seq<char>, usize)>)
    ensures
        ({
            let h = under(p, "alternatives"@);
            &&& h is None ==> alternatives_error(items, p) is None && known_alternatives(
                items,
                p,
            ).len() == 0
            &&& h is Some && !(items[h->Some_0 as int] is List) ==> alternatives_error(items, p) is Some
            &&& h is Some && items[h->Some_0 as int] is List && alternatives_error(items, p) is None
                ==> known_alternatives(items, p) == items[h->Some_0 as int]->List_0@ && forall|i: int|
                0 <= i < items[h->Some_0 as int]->List_0@.len()
                    ==> items[#[trigger] items[h->Some_0 as int]->List_0@[i] as int] is Part
        }),
{
}

// ---------------------------------------------------------------------------------------------
// Footprints

/// A footprint that is given is the one that counts. Else it is found from the symbol, which must come
/// from a file and name one: a single name is a file beside the library, and a name with its library one
/// that is bundled, which only a module in a file can have.
pub proof fn law_footprint_is_planned(
    explicit: Option<Seq<char>>,
    symbol: SymbolView,
    source: Result<Seq<char>, Seq<char>>,
    in_file: bool,
)
    ensures
        ({
            let r = planned_footprint(explicit, symbol, source, in_file);
            let prop = symbol_field(symbol, "Footprint"@);
            &&& explicit is Some ==> r == Ok::<_, Seq<char>>((0int, explicit->Some_0))
            &&& explicit is None && (symbol.source_uri is None || source is Err || prop is None) ==> r is Err
            &&& explicit is None && symbol.source_uri is Some && source is Ok && prop is Some ==> {
                let stem = footprint_stem(prop->Some_0);
                let bundled = bundled_footprint(prop->Some_0);
                &&& stem is Some && parent_of(source->Ok_0) is Some ==> r == Ok::<_, Seq<char>>(
                    (
                        1int,
                        path_joined(parent_of(source->Ok_0)->Some_0, stem->Some_0 + ".kicad_mod"@),
                    ),
                )
                &&& stem is None && bundled is Some && in_file ==> r == Ok::<_, Seq<char>>(
                    (2int, bundled->Some_0),
                )
                &&& stem is None && (bundled is None || !in_file) ==> r is Err
            }
        }),
{
}

/// A footprint that is given need not exist; one that is found from the symbol must.
pub proof fn law_footprint_must_exist(
    plan: (int, Seq<char>),
    resolved: Result<Seq<char>, Seq<char>>,
    file_exists: bool,
)
    ensures
        plan.0 == 0 ==> found_footprint(plan, resolved, file_exists) == Ok::<_, Seq<char>>(plan.1),
        plan.0 != 0 && !file_exists ==> found_footprint(plan, resolved, file_exists) is Err,
        plan.0 == 1 && file_exists ==> found_footprint(plan, resolved, file_exists) == Ok::<
            _,
            Seq<char>,
        >(plan.1),
        plan.0 == 2 && file_exists ==> found_footprint(plan, resolved, file_exists) is Ok
            == resolved is Ok,
        plan.0 == 2 && file_exists && resolved is Ok ==> found_footprint(
            plan,
            resolved,
            file_exists,
        )->Ok_0 == resolved->Ok_0,
{
}

/// Whether a text can be a part of the name of a footprint.
pub open spec fn is_footprint_name(s: Seq<char>) -> bool {
    &&& s.len() > 0
    &&& !is_space(s[0])
    &&& !is_space(s.last())
    &&& !s.contains(':')
    &&& !s.contains('/')
    &&& !s.contains('\\')
}

proof fn lemma_footprint_pair(a: Seq<char>, b: Seq<char>)
    requires
        is_footprint_name(a),
        is_footprint_name(b),
    ensures
        ({
            let s = a + seq![':'] + b;
            &&& trimmed(s) == s
            &&& !s.contains('/')
            &&& !s.contains('\\')
            &&& cut_first(s, ':') == Some((a, b))
        }),
{
    let s = a + seq![':'] + b;
    assert(s.last() == b.last());
    lemma_trimmed_is_same(s);
    lemma_first_at(s, ':');
    let k = first_at(s, ':');
    assert(s[a.len() as int] == ':');
    if k < a.len() {
        assert(a[k] == ':');
    }
    assert(s.take(k) =~= a);
    assert(s.skip(k + 1) =~= b);
    assert forall|c: char| c == '/' || c == '\\' implies !s.contains(c) by {
        if s.contains(c) {
            let i = choose|i: int| 0 <= i < s.len() && s[i] == c;
            if i < a.len() {
                assert(a[i] == c);
            } else if i > a.len() {
                assert(b[i - a.len() - 1] == c);
            }
        }
    }
}

/// A single name, or the same name twice with a colon between, is a file beside the library; two names
/// with a colon between are a library and a footprint among those that are bundled.
pub proof fn law_names_of_footprints(a: Seq<char>, b: Seq<char>)
    requires
        is_footprint_name(a),
        is_footprint_name(b),
    ensures
        footprint_stem(a) == Some(a),
        bundled_footprint(a) is None,
        footprint_stem(a + seq![':'] + a) == Some(a),
        a != b ==> footprint_stem(a + seq![':'] + b) is None,
        a != b ==> bundled_footprint(a + seq![':'] + b) == Some(
            "@stdlib/kicad-footprints/"@ + a + ".pretty/"@ + b + ".kicad_mod"@,
        ),
{
    lemma_trimmed_is_same(a);
    lemma_first_at(a, ':');
    lemma_footprint_pair(a, a);
    lemma_footprint_pair(a, b);
}

} // verus!
