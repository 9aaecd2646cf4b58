//! Component values: what is known of a component once it is made.

use starlark::collections::SmallMap;
use vstd::prelude::*;

use crate::diagnostic::SourceSpan;
use crate::lang::component::{chosen_datasheet, resolve_component_datasheet, ComponentError};
use crate::lang::net::lemma_put_below;
use crate::lang::part::{opt_part, opt_part_ref, PartValue, PartView};
use crate::lang::symbol::{SymbolValue, SymbolView};
use crate::lang::value::{all_below, bool_of, text_of, type_of, Item, Store};
use crate::small_map::{count_handles, distinct, get_handle, handle_at, handles_in, lemma_put, put};
use crate::small_map::{put_handle, under};
use crate::text::{as_opt_str, begins, clone_opt, clone_texts, lemma_texts_push, opt_str, opt_text};
use crate::text::{same, starts_with, texts};

verus! {

/// What can be changed of a component.
pub struct ComponentData {
    pub part: Option<PartValue>,
    /// The part number for the bill of materials.
    pub bom_mpn: Option<String>,
    /// The simulation model.
    pub spice_model: Option<usize>,
    /// Whether the component is left off the board.
    pub dnp: bool,
    pub skip_bom: bool,
    pub skip_pos: bool,
    /// The datasheet that counts.
    pub datasheet: Option<String>,
    pub component_datasheet: Option<String>,
    pub symbol_datasheet: Option<String>,
    pub properties: SmallMap<String, usize>,
}

/// A component.
pub struct ComponentValue {
    pub name: String,
    pub ctype: Option<String>,
    pub footprint: String,
    /// The prefix of the component's designators.
    pub prefix: String,
    /// The net of each pin.
    pub connections: SmallMap<String, usize>,
    pub data: ComponentData,
    /// The file in which the component was made.
    pub source_path: String,
    /// The call that made it, where that is known.
    pub declaration_span: Option<SourceSpan>,
    pub symbol: SymbolValue,
    pub description: Option<String>,
}

/// The contents of what can be changed of a component.
pub struct ComponentDataView {
    pub part: Option<PartView>,
    pub bom_mpn: Option<Seq<char>>,
    pub spice_model: Option<usize>,
    pub dnp: bool,
    pub skip_bom: bool,
    pub skip_pos: bool,
    pub datasheet: Option<Seq<char>>,
    pub component_datasheet: Option<Seq<char>>,
    pub symbol_datasheet: Option<Seq<char>>,
    pub properties: Seq<(Seq<char>, usize)>,
}

/// The contents of a component.
pub struct ComponentView {
    pub name: Seq<char>,
    pub ctype: Option<Seq<char>>,
    pub footprint: Seq<char>,
    pub prefix: Seq<char>,
    pub connections: Seq<(Seq<char>, usize)>,
    pub data: ComponentDataView,
    pub source_path: Seq<char>,
    pub declaration_span: Option<SourceSpan>,
    pub symbol: SymbolView,
    pub description: Option<Seq<char>>,
}

impl View for ComponentData {
    type V = ComponentDataView;

    open spec fn view(&self) -> ComponentDataView {
        ComponentDataView {
            part: opt_part(self.part),
            bom_mpn: opt_text(self.bom_mpn),
            spice_model: self.spice_model,
            dnp: self.dnp,
            skip_bom: self.skip_bom,
            skip_pos: self.skip_pos,
            datasheet: opt_text(self.datasheet),
            component_datasheet: opt_text(self.component_datasheet),
            symbol_datasheet: opt_text(self.symbol_datasheet),
            properties: handles_in(self.properties),
        }
    }
}

impl View for ComponentValue {
    type V = ComponentView;

    open spec fn view(&self) -> ComponentView {
        ComponentView {
            name: self.name@,
            ctype: opt_text(self.ctype),
            footprint: self.footprint@,
            prefix: self.prefix@,
            connections: handles_in(self.connections),
            data: self.data@,
            source_path: self.source_path@,
            declaration_span: self.declaration_span,
            symbol: self.symbol@,
            description: opt_text(self.description),
        }
    }
}

/// What an attribute of a component is.
pub enum ComponentAttr {
    Nothing,
    Text(String),
    Bool(bool),
    Part(PartValue),
    /// A value of the store.
    Value(usize),
    /// A string of the store, which is read as a quantity where it is one.
    Quantity(usize),
    /// A dictionary.
    Dict(Vec<(String, usize)>),
}

/// The contents of an attribute.
pub enum AttrView {
    Nothing,
    Text(Seq<char>),
    Bool(bool),
    Part(PartView),
    Value(usize),
    Quantity(usize),
    Dict(Seq<(Seq<char>, usize)>),
}

/// The entries of a list.
pub open spec fn listed(v: Seq<(String, usize)>) -> Seq<(Seq<char>, usize)> {
    Seq::new(v.len(), |i: int| (v[i].0@, v[i].1))
}

impl View for ComponentAttr {
    type V = AttrView;

    open spec fn view(&self) -> AttrView {
        match *self {
            ComponentAttr::Nothing => AttrView::Nothing,
            ComponentAttr::Text(s) => AttrView::Text(s@),
            ComponentAttr::Bool(b) => AttrView::Bool(b),
            ComponentAttr::Part(p) => AttrView::Part(p@),
            ComponentAttr::Value(h) => AttrView::Value(h),
            ComponentAttr::Quantity(h) => AttrView::Quantity(h),
            ComponentAttr::Dict(v) => AttrView::Dict(listed(v@)),
        }
    }
}

/// The contents of an optional attribute.
pub open spec fn opt_attr(o: Option<ComponentAttr>) -> Option<AttrView> {
    match o {
        Some(a) => Some(a@),
        None => None,
    }
}

/// The attributes that every component has.
pub open spec fn own_attributes() -> Seq<Seq<char>> {
    seq![
        "name"@,
        "prefix"@,
        "mpn"@,
        "manufacturer"@,
        "part"@,
        "datasheet"@,
        "spice_model"@,
        "dnp"@,
        "skip_bom"@,
        "skip_pos"@,
        "type"@,
        "properties"@,
        "pins"@,
    ]
}

/// The attributes that every component has.
fn own_attribute_table() -> (r: Vec<String>)
    ensures
        texts(r@) == own_attributes(),
{
    let mut out: Vec<String> = Vec::new();
    out.push("name".to_owned());
    out.push("prefix".to_owned());
    out.push("mpn".to_owned());
    out.push("manufacturer".to_owned());
    out.push("part".to_owned());
    out.push("datasheet".to_owned());
    out.push("spice_model".to_owned());
    out.push("dnp".to_owned());
    out.push("skip_bom".to_owned());
    out.push("skip_pos".to_owned());
    out.push("type".to_owned());
    out.push("properties".to_owned());
    out.push("pins".to_owned());
    proof {
        assert(texts(out@) =~= own_attributes());
    }
    out
}

/// Whether a property is for internal use.
pub open spec fn is_internal(key: Seq<char>) -> bool {
    key == "footprint"@ || key == "symbol_path"@ || key == "symbol_name"@ || begins(key, "__"@)
}

/// The properties that are not for internal use.
pub open spec fn shown_properties(p: Seq<(Seq<char>, usize)>) -> Seq<(Seq<char>, usize)>
    decreases p.len(),
{
    if p.len() == 0 {
        p
    } else {
        let r = shown_properties(p.drop_last());
        if is_internal(p.last().0) {
            r
        } else {
            r.push(p.last())
        }
    }
}

/// Whether an attribute holds a quantity, where its text is one.
pub open spec fn is_quantity(key: Seq<char>) -> bool {
    key == "capacitance"@ || key == "Capacitance"@ || key == "resistance"@ || key == "Resistance"@
}

/// A text as an attribute; `None`, where there is none.
pub open spec fn text_attr(s: Option<Seq<char>>) -> AttrView {
    match s {
        Some(t) => AttrView::Text(t),
        None => AttrView::Nothing,
    }
}

/// An attribute of a component.
pub open spec fn attribute_of(c: ComponentView, items: Seq<Item>, a: Seq<char>) -> Option<AttrView> {
    if a == "name"@ {
        Some(AttrView::Text(c.name))
    } else if a == "prefix"@ {
        Some(AttrView::Text(c.prefix))
    } else if a == "mpn"@ {
        Some(
            match c.data.part {
                Some(p) => AttrView::Text(p.mpn),
                None => AttrView::Nothing,
            },
        )
    } else if a == "manufacturer"@ {
        Some(
            match c.data.part {
                Some(p) => AttrView::Text(p.manufacturer),
                None => AttrView::Nothing,
            },
        )
    } else if a == "part"@ {
        Some(
            match c.data.part {
                Some(p) => AttrView::Part(p),
                None => AttrView::Nothing,
            },
        )
    } else if a == "datasheet"@ {
        Some(text_attr(c.data.datasheet))
    } else if a == "spice_model"@ {
        Some(
            match c.data.spice_model {
                Some(h) => AttrView::Value(h),
                None => AttrView::Nothing,
            },
        )
    } else if a == "dnp"@ {
        Some(AttrView::Bool(c.data.dnp))
    } else if a == "skip_bom"@ {
        Some(AttrView::Bool(c.data.skip_bom))
    } else if a == "skip_pos"@ {
        Some(AttrView::Bool(c.data.skip_pos))
    } else if a == "type"@ {
        Some(text_attr(c.ctype))
    } else if a == "properties"@ {
        Some(AttrView::Dict(shown_properties(c.data.properties)))
    } else if a == "pins"@ {
        Some(AttrView::Dict(c.connections))
    } else {
        match under(c.data.properties, a) {
            None => None,
            Some(h) => if is_quantity(a) && text_of(items[h as int]) is Some {
                Some(AttrView::Quantity(h))
            } else {
                Some(AttrView::Value(h))
            },
        }
    }
}

/// A component after an attribute was set, or the error.
pub open spec fn with_attribute(d: ComponentDataView, a: Seq<char>, h: usize, value: Item) -> Result<
    ComponentDataView,
    Seq<char>,
> {
    if a == "mpn"@ {
        match d.part {
            None => Err(
                "cannot set `mpn` without a `part`; use `c.part = Part(mpn=..., manufacturer=...)` instead"@,
            ),
            Some(p) => match text_of(value) {
                None => Err("`mpn` must be a string"@),
                Some(s) => Ok(ComponentDataView { part: Some(PartView { mpn: s, ..p }), ..d }),
            },
        }
    } else if a == "manufacturer"@ {
        match d.part {
            None => Err(
                "cannot set `manufacturer` without a `part`; use `c.part = Part(mpn=..., manufacturer=...)` instead"@,
            ),
            Some(p) => match text_of(value) {
                None => Err("`manufacturer` must be a string"@),
                Some(s) => Ok(
                    ComponentDataView { part: Some(PartView { manufacturer: s, ..p }), ..d },
                ),
            },
        }
    } else if a == "part"@ {
        match value {
            Item::Nothing => Ok(
                ComponentDataView {
                    part: None,
                    datasheet: chosen_datasheet(None, d.component_datasheet, d.symbol_datasheet),
                    ..d
                },
            ),
            Item::Part(p) => Ok(
                ComponentDataView {
                    part: Some(p@),
                    datasheet: chosen_datasheet(
                        Some(p@),
                        d.component_datasheet,
                        d.symbol_datasheet,
                    ),
                    ..d
                },
            ),
            _ => Err("`part` must be a Part value, got "@ + type_of(value)),
        }
    } else if a == "datasheet"@ {
        match value {
            Item::Nothing => Ok(
                ComponentDataView {
                    component_datasheet: None,
                    datasheet: chosen_datasheet(d.part, None, d.symbol_datasheet),
                    ..d
                },
            ),
            _ => match text_of(value) {
                None => Err("`datasheet` must be a string"@),
                Some(s) => Ok(
                    ComponentDataView {
                        component_datasheet: Some(s),
                        datasheet: chosen_datasheet(d.part, Some(s), d.symbol_datasheet),
                        ..d
                    },
                ),
            },
        }
    } else if a == "spice_model"@ {
        match value {
            Item::Nothing => Ok(ComponentDataView { spice_model: None, ..d }),
            Item::SpiceModel(_) => Ok(ComponentDataView { spice_model: Some(h), ..d }),
            _ => Err("`spice_model` must be a SpiceModel, got "@ + type_of(value)),
        }
    } else if a == "dnp"@ {
        Ok(ComponentDataView { dnp: bool_of(value) == Some(true), ..d })
    } else if a == "skip_bom"@ {
        Ok(ComponentDataView { skip_bom: bool_of(value) == Some(true), ..d })
    } else if a == "skip_pos"@ {
        Ok(ComponentDataView { skip_pos: bool_of(value) == Some(true), ..d })
    } else {
        Ok(ComponentDataView { properties: put(d.properties, a, h), ..d })
    }
}

/// The error for a value that is no simulation model, if any.
pub open spec fn spice_model_error(value: Item) -> Option<Seq<char>> {
    match value {
        Item::SpiceModel(_) => None,
        _ => Some("`spice_model` must be a SpiceModel, got "@ + type_of(value)),
    }
}

/// Tests that a value is a simulation model.
pub fn validate_spice_model_value(store: &Store, h: usize) -> (r: Result<(), ComponentError>)
    requires
        h < store.items@.len(),
    ensures
        match (r, spice_model_error(store.items@[h as int])) {
            (Ok(_), None) => true,
            (Err(e), Some(t)) => e.text() == t,
            _ => false,
        },
{
    if let Item::SpiceModel(_) = &store.items[h] {
        return Ok(());
    }
    let mut message = "`spice_model` must be a SpiceModel, got ".to_owned();
    let got = store.type_label(h);
    message.append(got.as_str());
    Err(ComponentError::Failed { message })
}

/// The names that a component shows: its own attributes, and its properties but for those that
/// begin with two underscores.
pub open spec fn with_public_names(names: Seq<Seq<char>>, p: Seq<(Seq<char>, usize)>) -> Seq<Seq<char>>
    decreases p.len(),
{
    if p.len() == 0 {
        names
    } else {
        let r = with_public_names(names, p.drop_last());
        if begins(p.last().0, "__"@) {
            r
        } else {
            r.push(p.last().0)
        }
    }
}

/// A text as an attribute; `None`, where there is none.
fn text_or_nothing(s: &Option<String>) -> (r: ComponentAttr)
    ensures
        r@ == text_attr(opt_text(*s)),
{
    match s {
        Some(t) => ComponentAttr::Text(t.clone()),
        None => ComponentAttr::Nothing,
    }
}

/// The entries of a map as a list.
pub fn list_entries(m: &SmallMap<String, usize>) -> (r: Vec<(String, usize)>)
    ensures
        listed(r@) == handles_in(*m),
{
    let ghost all = handles_in(*m);
    let n = count_handles(m);
    let mut out: Vec<(String, usize)> = Vec::new();
    let mut i: usize = 0;
    while i < n
        invariant
            i <= n,
            n == all.len(),
            all == handles_in(*m),
            listed(out@) == all.take(i as int),
        decreases n - i,
    {
        if let Some((k, v)) = handle_at(m, i) {
            let ghost prior = listed(out@);
            out.push((k.to_owned(), v));
            proof {
                assert(listed(out@) =~= prior.push((k@, v)));
                assert(all.take(i + 1) =~= all.take(i as int).push(all[i as int]));
            }
        }
        i += 1;
    }
    proof {
        assert(all.take(all.len() as int) =~= all);
    }
    out
}

/// The properties that are not for internal use.
fn list_shown(m: &SmallMap<String, usize>) -> (r: Vec<(String, usize)>)
    ensures
        listed(r@) == shown_properties(handles_in(*m)),
{
    let ghost all = handles_in(*m);
    let n = count_handles(m);
    let mut out: Vec<(String, usize)> = Vec::new();
    let mut i: usize = 0;
    proof {
        assert(all.take(0) =~= Seq::<(Seq<char>, usize)>::empty());
        assert(listed(out@) =~= Seq::<(Seq<char>, usize)>::empty());
    }
    while i < n
        invariant
            i <= n,
            n == all.len(),
            all == handles_in(*m),
            listed(out@) == shown_properties(all.take(i as int)),
        decreases n - i,
    {
        if let Some((k, v)) = handle_at(m, i) {
            proof {
                assert(all.take(i + 1).drop_last() =~= all.take(i as int));
                assert(all.take(i + 1).last() == (k@, v));
            }
            if !(same(k, "footprint") || same(k, "symbol_path") || same(k, "symbol_name")
                || starts_with(k, "__")) {
                let ghost prior = listed(out@);
                out.push((k.to_owned(), v));
                proof {
                    assert(listed(out@) =~= prior.push((k@, v)));
                }
            }
        }
        i += 1;
    }
    proof {
        assert(all.take(all.len() as int) =~= all);
    }
    out
}

/// The part with another number or manufacturer.
fn changed_part(p: &PartValue, mpn: &str, manufacturer: &str) -> (r: PartValue)
    ensures
        r@ == (PartView { mpn: mpn@, manufacturer: manufacturer@, ..p@ }),
{
    PartValue::new(
        mpn.to_owned(),
        manufacturer.to_owned(),
        clone_texts(&p.qualifications),
        clone_opt(&p.datasheet),
    )
}

impl ComponentValue {
    /// The invariant: no pin and no property stands twice.
    pub open spec fn wf(&self) -> bool {
        distinct(handles_in(self.connections)) && distinct(handles_in(self.data.properties))
            && self.symbol.wf()
    }

    /// Whether the values that the component refers to stand in a store.
    pub open spec fn fits(&self, n: int) -> bool {
        all_below(handles_in(self.connections), n) && all_below(
            handles_in(self.data.properties),
            n,
        ) && (self.data.spice_model is Some ==> self.data.spice_model->Some_0 < n)
    }

    /// An attribute of the component.
    pub fn get_attr(&self, store: &Store, attribute: &str) -> (r: Option<ComponentAttr>)
        requires
            self.fits(store.items@.len() as int),
        ensures
            opt_attr(r) == attribute_of(self@, store.items@, attribute@),
    {
        if same(attribute, "name") {
            Some(ComponentAttr::Text(self.name.clone()))
        } else if same(attribute, "prefix") {
            Some(ComponentAttr::Text(self.prefix.clone()))
        } else if same(attribute, "mpn") {
            Some(
                match &self.data.part {
                    Some(p) => ComponentAttr::Text(p.mpn.clone()),
                    None => ComponentAttr::Nothing,
                },
            )
        } else if same(attribute, "manufacturer") {
            Some(
                match &self.data.part {
                    Some(p) => ComponentAttr::Text(p.manufacturer.clone()),
                    None => ComponentAttr::Nothing,
                },
            )
        } else if same(attribute, "part") {
            Some(
                match &self.data.part {
                    Some(p) => ComponentAttr::Part(p.copy()),
                    None => ComponentAttr::Nothing,
                },
            )
        } else if same(attribute, "datasheet") {
            Some(text_or_nothing(&self.data.datasheet))
        } else if same(attribute, "spice_model") {
            Some(
                match self.data.spice_model {
                    Some(h) => ComponentAttr::Value(h),
                    None => ComponentAttr::Nothing,
                },
            )
        } else if same(attribute, "dnp") {
            Some(ComponentAttr::Bool(self.data.dnp))
        } else if same(attribute, "skip_bom") {
            Some(ComponentAttr::Bool(self.data.skip_bom))
        } else if same(attribute, "skip_pos") {
            Some(ComponentAttr::Bool(self.data.skip_pos))
        } else if same(attribute, "type") {
            Some(text_or_nothing(&self.ctype))
        } else if same(attribute, "properties") {
            Some(ComponentAttr::Dict(list_shown(&self.data.properties)))
        } else if same(attribute, "pins") {
            Some(ComponentAttr::Dict(list_entries(&self.connections)))
        } else {
            proof {
                crate::small_map::lemma_place(handles_in(self.data.properties), attribute@);
            }
            match get_handle(&self.data.properties, attribute) {
                None => None,
                Some(h) => {
                    let quantity = same(attribute, "capacitance") || same(attribute, "Capacitance")
                        || same(attribute, "resistance") || same(attribute, "Resistance");
                    if quantity && store.text(h).is_some() {
                        Some(ComponentAttr::Quantity(h))
                    } else {
                        Some(ComponentAttr::Value(h))
                    }
                },
            }
        }
    }

    /// Sets an attribute of the component. One that is not the component's own becomes a property.
    pub fn set_attr(&mut self, store: &Store, attribute: &str, h: usize) -> (r: Result<
        (),
        ComponentError,
    >)
        requires
            old(self).wf(),
            old(self).fits(store.items@.len() as int),
            h < store.items@.len(),
        ensures
            final(self).wf(),
            final(self).fits(store.items@.len() as int),
            match (
                r,
                with_attribute(old(self)@.data, attribute@, h, store.items@[h as int]),
            ) {
                (Ok(_), Ok(d)) => final(self)@ == (ComponentView { data: d, ..old(self)@ }),
                (Err(e), Err(t)) => e.text() == t && *final(self) == *old(self),
                _ => false,
            },
    {
        if same(attribute, "mpn") {
            let new_part = match &self.data.part {
                None => {
                    return Err(
                        ComponentError::Failed {
                            message:
                                "cannot set `mpn` without a `part`; use `c.part = Part(mpn=..., manufacturer=...)` instead".to_owned(),
                        },
                    );
                },
                Some(p) => match store.text(h) {
                    None => {
                        return Err(
                            ComponentError::Failed { message: "`mpn` must be a string".to_owned() },
                        );
                    },
                    Some(s) => changed_part(p, s, p.manufacturer.as_str()),
                },
            };
            self.data.part = Some(new_part);
            Ok(())
        } else if same(attribute, "manufacturer") {
            let new_part = match &self.data.part {
                None => {
                    return Err(
                        ComponentError::Failed {
                            message:
                                "cannot set `manufacturer` without a `part`; use `c.part = Part(mpn=..., manufacturer=...)` instead".to_owned(),
                        },
                    );
                },
                Some(p) => match store.text(h) {
                    None => {
                        return Err(
                            ComponentError::Failed {
                                message: "`manufacturer` must be a string".to_owned(),
                            },
                        );
                    },
                    Some(s) => changed_part(p, p.mpn.as_str(), s),
                },
            };
            self.data.part = Some(new_part);
            Ok(())
        } else if same(attribute, "part") {
            match &store.items[h] {
                Item::Nothing => {
                    let d = resolve_component_datasheet(
                        None,
                        &self.data.component_datasheet,
                        &self.data.symbol_datasheet,
                    );
                    self.data.part = None;
                    self.data.datasheet = d;
                    Ok(())
                },
                Item::Part(p) => {
                    let d = resolve_component_datasheet(
                        Some(p),
                        &self.data.component_datasheet,
                        &self.data.symbol_datasheet,
                    );
                    self.data.part = Some(p.copy());
                    self.data.datasheet = d;
                    Ok(())
                },
                _ => {
                    let mut message = "`part` must be a Part value, got ".to_owned();
                    let got = store.type_label(h);
                    message.append(got.as_str());
                    Err(ComponentError::Failed { message })
                },
            }
        } else if same(attribute, "datasheet") {
            if store.is_none(h) {
                let none: Option<String> = None;
                let d = resolve_component_datasheet(
                    self.data.part.as_ref(),
                    &none,
                    &self.data.symbol_datasheet,
                );
                self.data.component_datasheet = None;
                self.data.datasheet = d;
                return Ok(());
            }
            match store.text(h) {
                None => Err(
                    ComponentError::Failed { message: "`datasheet` must be a string".to_owned() },
                ),
                Some(s) => {
                    let own = Some(s.to_owned());
                    let d = resolve_component_datasheet(
                        self.data.part.as_ref(),
                        &own,
                        &self.data.symbol_datasheet,
                    );
                    self.data.component_datasheet = own;
                    self.data.datasheet = d;
                    Ok(())
                },
            }
        } else if same(attribute, "spice_model") {
            if store.is_none(h) {
                self.data.spice_model = None;
                return Ok(());
            }
            match validate_spice_model_value(store, h) {
                Err(e) => Err(e),
                Ok(_) => {
                    self.data.spice_model = Some(h);
                    Ok(())
                },
            }
        } else if same(attribute, "dnp") {
            self.data.dnp = match store.truth(h) {
                Some(b) => b,
                None => false,
            };
            Ok(())
        } else if same(attribute, "skip_bom") {
            self.data.skip_bom = match store.truth(h) {
                Some(b) => b,
                None => false,
            };
            Ok(())
        } else if same(attribute, "skip_pos") {
            self.data.skip_pos = match store.truth(h) {
                Some(b) => b,
                None => false,
            };
            Ok(())
        } else {
            proof {
                lemma_put(handles_in(self.data.properties), attribute@, h);
                lemma_put_below(
                    handles_in(self.data.properties),
                    attribute@,
                    h,
                    store.items@.len() as int,
                );
            }
            put_handle(&mut self.data.properties, attribute.to_owned(), h);
            Ok(())
        }
    }

    /// Whether the component has an attribute.
    pub fn has_attr(&self, attribute: &str) -> (r: bool)
        ensures
            r == (own_attributes().contains(attribute@) || under(
                handles_in(self.data.properties),
                attribute@,
            ) is Some),
    {
        let own = own_attribute_table();
        crate::text::contains_text(&own, attribute) || get_handle(
            &self.data.properties,
            attribute,
        ).is_some()
    }

    /// The names of the component's attributes.
    pub fn dir_attr(&self) -> (r: Vec<String>)
        ensures
            texts(r@) == with_public_names(own_attributes(), handles_in(self.data.properties)),
    {
        let mut out = own_attribute_table();
        let ghost first = texts(out@);
        let ghost all = handles_in(self.data.properties);
        let n = count_handles(&self.data.properties);
        let mut i: usize = 0;
        proof {
            assert(all.take(0) =~= Seq::<(Seq<char>, usize)>::empty());
        }
        while i < n
            invariant
                i <= n,
                n == all.len(),
                all == handles_in(self.data.properties),
                first == own_attributes(),
                texts(out@) == with_public_names(first, all.take(i as int)),
            decreases n - i,
        {
            if let Some((k, v)) = handle_at(&self.data.properties, i) {
                proof {
                    assert(all.take(i + 1).drop_last() =~= all.take(i as int));
                    assert(all.take(i + 1).last() == (k@, v));
                }
                if !starts_with(k, "__") {
                    let s = k.to_owned();
                    proof {
                        lemma_texts_push(out@, s);
                    }
                    out.push(s);
                }
            }
            i += 1;
        }
        proof {
            assert(all.take(all.len() as int) =~= all);
        }
        out
    }

    /// The number of the component's part.
    pub fn mpn(&self) -> (r: Option<&str>)
        ensures
            opt_str(r) == (match self@.data.part {
                Some(p) => Some(p.mpn),
                None => None,
            }),
    {
        match &self.data.part {
            Some(p) => Some(p.mpn.as_str()),
            None => None,
        }
    }

    /// The manufacturer of the component's part.
    pub fn manufacturer(&self) -> (r: Option<&str>)
        ensures
            opt_str(r) == (match self@.data.part {
                Some(p) => Some(p.manufacturer),
                None => None,
            }),
    {
        match &self.data.part {
            Some(p) => Some(p.manufacturer.as_str()),
            None => None,
        }
    }

    /// The part number for the bill of materials.
    pub fn bom_mpn(&self) -> (r: Option<&str>)
        ensures
            opt_str(r) == self@.data.bom_mpn,
    {
        as_opt_str(&self.data.bom_mpn)
    }

    /// The component's part.
    pub fn part(&self) -> (r: Option<&PartValue>)
        ensures
            opt_part_ref(r) == self@.data.part,
    {
        self.data.part.as_ref()
    }

    /// The prefix of the component's designators.
    pub fn prefix(&self) -> (r: &str)
        ensures
            r@ == self@.prefix,
    {
        self.prefix.as_str()
    }

    /// The component's type, where one was given.
    pub fn ctype(&self) -> (r: Option<&str>)
        ensures
            opt_str(r) == self@.ctype,
    {
        as_opt_str(&self.ctype)
    }

    /// Whether the component is left off the board.
    pub fn dnp(&self) -> (r: bool)
        ensures
            r == self@.data.dnp,
    {
        self.data.dnp
    }

    /// Whether the component is left out of the bill of materials.
    pub fn skip_bom(&self) -> (r: bool)
        ensures
            r == self@.data.skip_bom,
    {
        self.data.skip_bom
    }

    /// Whether the component is left out of position files.
    pub fn skip_pos(&self) -> (r: bool)
        ensures
            r == self@.data.skip_pos,
    {
        self.data.skip_pos
    }

    /// The datasheet that counts.
    pub fn datasheet(&self) -> (r: Option<&str>)
        ensures
            opt_str(r) == self@.data.datasheet,
    {
        as_opt_str(&self.data.datasheet)
    }

    /// The component's description.
    pub fn description(&self) -> (r: Option<&str>)
        ensures
            opt_str(r) == self@.description,
    {
        as_opt_str(&self.description)
    }

    /// The component's footprint.
    pub fn footprint(&self) -> (r: &str)
        ensures
            r@ == self@.footprint,
    {
        self.footprint.as_str()
    }

    /// The component's properties.
    pub fn properties(&self) -> (r: &SmallMap<String, usize>)
        ensures
            *r == self.data.properties,
    {
        &self.data.properties
    }

    /// The net of each pin.
    pub fn connections(&self) -> (r: &SmallMap<String, usize>)
        ensures
            *r == self.connections,
    {
        &self.connections
    }

    /// The component's name.
    pub fn name(&self) -> (r: &str)
        ensures
            r@ == self@.name,
    {
        self.name.as_str()
    }

    /// The file in which the component was made.
    pub fn source_path(&self) -> (r: &str)
        ensures
            r@ == self@.source_path,
    {
        self.source_path.as_str()
    }

    /// The call that made the component, where that is known.
    pub fn declaration_span(&self) -> (r: Option<SourceSpan>)
        ensures
            r == self@.declaration_span,
    {
        self.declaration_span
    }

    /// The component's symbol.
    pub fn symbol(&self) -> (r: &SymbolValue)
        ensures
            *r == self.symbol,
    {
        &self.symbol
    }

    /// The component's simulation model.
    pub fn spice_model(&self) -> (r: Option<usize>)
        ensures
            r == self@.data.spice_model,
    {
        self.data.spice_model
    }
}

/// What is set as a part is what is read, and its datasheet counts before any other.
pub proof fn law_part_is_read_back(c: ComponentView, items: Seq<Item>, h: usize, p: PartValue)
    requires
        items[h as int] == Item::Part(p),
    ensures
        with_attribute(c.data, "part"@, h, items[h as int]) is Ok,
        ({
            let d = with_attribute(c.data, "part"@, h, items[h as int])->Ok_0;
            let after = ComponentView { data: d, ..c };
            &&& attribute_of(after, items, "part"@) == Some(AttrView::Part(p@))
            &&& attribute_of(after, items, "mpn"@) == Some(AttrView::Text(p@.mpn))
            &&& attribute_of(after, items, "manufacturer"@) == Some(AttrView::Text(p@.manufacturer))
            &&& p@.datasheet is Some ==> attribute_of(after, items, "datasheet"@) == Some(
                AttrView::Text(p@.datasheet->Some_0),
            )
        }),
{
    lemma_names_differ();
}

/// What is set under any name but the component's own is read under it, and nothing else changes.
pub proof fn law_property_is_read_back(
    c: ComponentView,
    items: Seq<Item>,
    name: Seq<char>,
    h: usize,
    other: Seq<char>,
)
    requires
        distinct(c.data.properties),
        !own_attributes().contains(name),
        other != name,
        other != "properties"@,
    ensures
        with_attribute(c.data, name, h, items[h as int]) is Ok,
        ({
            let d = with_attribute(c.data, name, h, items[h as int])->Ok_0;
            let after = ComponentView { data: d, ..c };
            &&& attribute_of(after, items, name) == Some(
                if is_quantity(name) && text_of(items[h as int]) is Some {
                    AttrView::Quantity(h)
                } else {
                    AttrView::Value(h)
                },
            )
            &&& attribute_of(after, items, other) == attribute_of(c, items, other)
        }),
{
    lemma_own(name);
    lemma_put(c.data.properties, name, h);
}

/// The names of a component's own attributes are told apart.
proof fn lemma_names_differ()
    ensures
        "part"@ != "name"@,
        "part"@ != "prefix"@,
        "part"@ != "mpn"@,
        "part"@ != "manufacturer"@,
        "mpn"@ != "name"@,
        "mpn"@ != "prefix"@,
        "manufacturer"@ != "name"@,
        "manufacturer"@ != "prefix"@,
        "manufacturer"@ != "mpn"@,
        "datasheet"@ != "name"@,
        "datasheet"@ != "prefix"@,
        "datasheet"@ != "mpn"@,
        "datasheet"@ != "manufacturer"@,
        "datasheet"@ != "part"@,
{
    reveal_strlit("part");
    reveal_strlit("name");
    reveal_strlit("prefix");
    reveal_strlit("mpn");
    reveal_strlit("manufacturer");
    reveal_strlit("datasheet");
    assert("part"@[0] != "name"@[0]);
    assert("part"@.len() == 4 && "prefix"@.len() == 6 && "mpn"@.len() == 3);
    assert("manufacturer"@.len() == 12 && "datasheet"@.len() == 9 && "name"@.len() == 4);
}

proof fn lemma_own(name: Seq<char>)
    requires
        !own_attributes().contains(name),
    ensures
        name != "name"@,
        name != "prefix"@,
        name != "mpn"@,
        name != "manufacturer"@,
        name != "part"@,
        name != "datasheet"@,
        name != "spice_model"@,
        name != "dnp"@,
        name != "skip_bom"@,
        name != "skip_pos"@,
        name != "type"@,
        name != "properties"@,
        name != "pins"@,
{
    let a = own_attributes();
    assert(a[0] == "name"@ && a[1] == "prefix"@ && a[2] == "mpn"@ && a[3] == "manufacturer"@ && a[4]
        == "part"@ && a[5] == "datasheet"@ && a[6] == "spice_model"@);
    assert(a[7] == "dnp"@ && a[8] == "skip_bom"@ && a[9] == "skip_pos"@ && a[10] == "type"@ && a[11]
        == "properties"@ && a[12] == "pins"@);
}

} // verus!
