//! What holds of the attributes of a component, as they are read and set.

use vstd::prelude::*;

use crate::lang::component_value::{attribute_of, is_internal, own_attributes, shown_properties};
use crate::lang::component_value::{with_attribute, with_public_names, AttrView, ComponentDataView};
use crate::lang::component_value::ComponentView;
use crate::lang::part::PartView;
use crate::lang::value::Item;
use crate::small_map::under;
use crate::text::begins;

verus! {

proof fn lemma_attribute_names()
    ensures
        "name"@.len() == 4,
        "prefix"@.len() == 6,
        "mpn"@.len() == 3,
        "manufacturer"@.len() == 12,
        "part"@.len() == 4,
        "datasheet"@.len() == 9,
        "spice_model"@.len() == 11,
        "dnp"@.len() == 3,
        "skip_bom"@.len() == 8,
        "skip_pos"@.len() == 8,
        "type"@.len() == 4,
        "properties"@.len() == 10,
        "pins"@.len() == 4,
        "name"@[0] == 'n',
        "part"@[1] == 'a',
        "part"@[0] == 'p',
        "type"@[0] == 't',
        "pins"@[1] == 'i',
        "pins"@[0] == 'p',
        "mpn"@[0] == 'm',
        "dnp"@[0] == 'd',
        "skip_bom"@[5] == 'b',
        "skip_pos"@[5] == 'p',
{
    reveal_strlit("name");
    reveal_strlit("prefix");
    reveal_strlit("mpn");
    reveal_strlit("manufacturer");
    reveal_strlit("part");
    reveal_strlit("datasheet");
    reveal_strlit("spice_model");
    reveal_strlit("dnp");
    reveal_strlit("skip_bom");
    reveal_strlit("skip_pos");
    reveal_strlit("type");
    reveal_strlit("properties");
    reveal_strlit("pins");
}

/// Each attribute of a component reads what the component holds under it.
pub proof fn law_attributes_of_component(c: ComponentView, items: Seq<Item>)
    ensures
        attribute_of(c, items, "name"@) == Some(AttrView::Text(c.name)),
        attribute_of(c, items, "prefix"@) == Some(AttrView::Text(c.prefix)),
        attribute_of(c, items, "dnp"@) == Some(AttrView::Bool(c.data.dnp)),
        attribute_of(c, items, "skip_bom"@) == Some(AttrView::Bool(c.data.skip_bom)),
        attribute_of(c, items, "skip_pos"@) == Some(AttrView::Bool(c.data.skip_pos)),
        attribute_of(c, items, "pins"@) == Some(AttrView::Dict(c.connections)),
        attribute_of(c, items, "properties"@) == Some(
            AttrView::Dict(shown_properties(c.data.properties)),
        ),
        attribute_of(c, items, "type"@) == Some(
            if c.ctype is Some {
                AttrView::Text(c.ctype->Some_0)
            } else {
                AttrView::Nothing
            },
        ),
        attribute_of(c, items, "datasheet"@) == Some(
            if c.data.datasheet is Some {
                AttrView::Text(c.data.datasheet->Some_0)
            } else {
                AttrView::Nothing
            },
        ),
        attribute_of(c, items, "spice_model"@) == Some(
            if c.data.spice_model is Some {
                AttrView::Value(c.data.spice_model->Some_0)
            } else {
                AttrView::Nothing
            },
        ),
        c.data.part is None ==> attribute_of(c, items, "part"@) == Some(AttrView::Nothing)
            && attribute_of(c, items, "mpn"@) == Some(AttrView::Nothing) && attribute_of(
            c,
            items,
            "manufacturer"@,
        ) == Some(AttrView::Nothing),
        c.data.part is Some ==> attribute_of(c, items, "part"@) == Some(
            AttrView::Part(c.data.part->Some_0),
        ) && attribute_of(c, items, "mpn"@) == Some(AttrView::Text(c.data.part->Some_0.mpn))
            && attribute_of(c, items, "manufacturer"@) == Some(
            AttrView::Text(c.data.part->Some_0.manufacturer),
        ),
{
    lemma_attribute_names();
}

/// A flag that is set is read back, and neither the other flags nor anything else of the component
/// changes.
pub proof fn law_flags_are_read_back(d: ComponentDataView, h: usize, b: bool)
    ensures
        with_attribute(d, "dnp"@, h, Item::Bool(b)) == Ok::<_, Seq<char>>(
            ComponentDataView { dnp: b, ..d },
        ),
        with_attribute(d, "skip_bom"@, h, Item::Bool(b)) == Ok::<_, Seq<char>>(
            ComponentDataView { skip_bom: b, ..d },
        ),
        with_attribute(d, "skip_pos"@, h, Item::Bool(b)) == Ok::<_, Seq<char>>(
            ComponentDataView { skip_pos: b, ..d },
        ),
{
    lemma_attribute_names();
}

/// The number and the manufacturer of a part can be set to texts, where there is a part, and the rest of
/// the part stays.
pub proof fn law_part_is_changed(d: ComponentDataView, h: usize, s: String, p: PartView)
    ensures
        d.part == Some(p) ==> with_attribute(d, "mpn"@, h, Item::Text(s)) == Ok::<_, Seq<char>>(
            ComponentDataView { part: Some(PartView { mpn: s@, ..p }), ..d },
        ),
        d.part == Some(p) ==> with_attribute(d, "manufacturer"@, h, Item::Text(s)) == Ok::<
            _,
            Seq<char>,
        >(ComponentDataView { part: Some(PartView { manufacturer: s@, ..p }), ..d }),
        d.part is None ==> with_attribute(d, "mpn"@, h, Item::Text(s)) is Err,
        d.part is None ==> with_attribute(d, "manufacturer"@, h, Item::Text(s)) is Err,
        with_attribute(d, "mpn"@, h, Item::Nothing) is Err,
        with_attribute(d, "manufacturer"@, h, Item::Nothing) is Err,
{
    lemma_attribute_names();
}

/// The datasheet of a component is that of its part, else the one that is set, else that of its
/// symbol.
pub proof fn law_datasheet_is_set(d: ComponentDataView, h: usize, s: String)
    ensures
        ({
            let r = with_attribute(d, "datasheet"@, h, Item::Text(s));
            let own = d.part is Some && d.part->Some_0.datasheet is Some;
            &&& r is Ok
            &&& r->Ok_0.component_datasheet == Some(s@)
            &&& own ==> r->Ok_0.datasheet == d.part->Some_0.datasheet
            &&& !own ==> r->Ok_0.datasheet == Some(s@)
            &&& r->Ok_0.part == d.part
            &&& r->Ok_0.properties == d.properties
        }),
        ({
            let r = with_attribute(d, "datasheet"@, h, Item::Nothing);
            let own = d.part is Some && d.part->Some_0.datasheet is Some;
            &&& r is Ok
            &&& r->Ok_0.component_datasheet is None
            &&& own ==> r->Ok_0.datasheet == d.part->Some_0.datasheet
            &&& !own ==> r->Ok_0.datasheet == d.symbol_datasheet
        }),
        ({
            let r = with_attribute(d, "part"@, h, Item::Nothing);
            &&& r is Ok
            &&& r->Ok_0.part is None
            &&& r->Ok_0.datasheet == (if d.component_datasheet is Some {
                d.component_datasheet
            } else {
                d.symbol_datasheet
            })
        }),
{
    lemma_attribute_names();
}

/// A simulation model is set to a model or to nothing, and to nothing else.
pub proof fn law_model_is_set(d: ComponentDataView, h: usize, value: Item)
    ensures
        value is SpiceModel ==> with_attribute(d, "spice_model"@, h, value) == Ok::<_, Seq<char>>(
            ComponentDataView { spice_model: Some(h), ..d },
        ),
        value == Item::Nothing ==> with_attribute(d, "spice_model"@, h, value) == Ok::<_, Seq<char>>(
            ComponentDataView { spice_model: None, ..d },
        ),
        !(value is SpiceModel) && value != Item::Nothing ==> with_attribute(
            d,
            "spice_model"@,
            h,
            value,
        ) is Err,
{
    lemma_attribute_names();
}

/// The properties that a component shows are all but its footprint, where its symbol comes from, and
/// those that begin with two underscores.
pub proof fn law_properties_are_shown(p: Seq<(Seq<char>, usize)>, e: (Seq<char>, usize))
    ensures
        shown_properties(p).contains(e) <==> p.contains(e) && e.0 != "footprint"@ && e.0
            != "symbol_path"@ && e.0 != "symbol_name"@ && !(e.0.len() >= 2 && e.0[0] == '_' && e.0[1]
            == '_'),
    decreases p.len(),
{
    lemma_underscores(e.0);
    if p.len() > 0 {
        let d = p.drop_last();
        law_properties_are_shown(d, e);
        let before = shown_properties(d);
        let after = shown_properties(p);
        assert(p[p.len() - 1] == p.last());
        if after.contains(e) {
            let i = choose|i: int| 0 <= i < after.len() && after[i] == e;
            if i < before.len() {
                assert(before[i] == e);
                let k = choose|k: int| 0 <= k < d.len() && d[k] == e;
                assert(p[k] == e);
            }
        }
        if p.contains(e) && !is_internal(e.0) {
            let k = choose|k: int| 0 <= k < p.len() && p[k] == e;
            if k < d.len() {
                assert(d[k] == e);
                let i = choose|i: int| 0 <= i < before.len() && before[i] == e;
                assert(after[i] == e);
            } else {
                assert(after[before.len() as int] == e);
            }
        }
    }
}

proof fn lemma_underscores(s: Seq<char>)
    ensures
        begins(s, "__"@) <==> s.len() >= 2 && s[0] == '_' && s[1] == '_',
{
    reveal_strlit("__");
    if s.len() >= 2 {
        let t = s.take(2);
        if s[0] == '_' && s[1] == '_' {
            assert(t =~= "__"@);
        }
        if t == "__"@ {
            assert(t[0] == s[0] && t[1] == s[1]);
        }
    }
}

/// The names that a component has to offer are those of its attributes and of the properties that do
/// not begin with two underscores.
pub proof fn law_names_on_offer(names: Seq<Seq<char>>, p: Seq<(Seq<char>, usize)>, q: Seq<char>)
    ensures
        with_public_names(names, p).contains(q) <==> names.contains(q) || (!(q.len() >= 2 && q[0]
            == '_' && q[1] == '_') && exists|i: int| 0 <= i < p.len() && (#[trigger] p[i]).0 == q),
    decreases p.len(),
{
    lemma_underscores(q);
    if p.len() > 0 {
        let d = p.drop_last();
        law_names_on_offer(names, d, q);
        let before = with_public_names(names, d);
        let after = with_public_names(names, p);
        assert(p[p.len() - 1] == p.last());
        if after.contains(q) {
            let i = choose|i: int| 0 <= i < after.len() && after[i] == q;
            if i < before.len() {
                assert(before[i] == q);
                if !names.contains(q) {
                    let k = choose|k: int| 0 <= k < d.len() && (#[trigger] d[k]).0 == q;
                    assert(p[k] == d[k]);
                }
            }
        }
        if before.contains(q) {
            let i = choose|i: int| 0 <= i < before.len() && before[i] == q;
            assert(after[i] == q);
        }
        if !begins(q, "__"@) && exists|i: int| 0 <= i < p.len() && (#[trigger] p[i]).0 == q {
            let k = choose|k: int| 0 <= k < p.len() && (#[trigger] p[k]).0 == q;
            if k < d.len() {
                assert(d[k].0 == q);
            } else {
                assert(after[before.len() as int] == q);
            }
        }
    }
}

/// A capacitance or a resistance that is written as a text is read as a quantity; any other property is
/// read as it is.
pub proof fn law_quantities_are_read(c: ComponentView, items: Seq<Item>, a: Seq<char>, h: usize)
    requires
        under(c.data.properties, a) == Some(h),
        !own_attributes().contains(a),
    ensures
        attribute_of(c, items, a) == Some(
            if items[h as int] is Text && (a == "capacitance"@ || a == "Capacitance"@ || a
                == "resistance"@ || a == "Resistance"@) {
                AttrView::Quantity(h)
            } else {
                AttrView::Value(h)
            },
        ),
{
    let own = own_attributes();
    assert(own[0] == "name"@ && own[1] == "prefix"@ && own[2] == "mpn"@ && own[3] == "manufacturer"@
        && own[4] == "part"@ && own[5] == "datasheet"@ && own[6] == "spice_model"@ && own[7] == "dnp"@
        && own[8] == "skip_bom"@ && own[9] == "skip_pos"@ && own[10] == "type"@ && own[11]
        == "properties"@ && own[12] == "pins"@);
}

} // verus!
