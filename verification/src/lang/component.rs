//! Components.

use starlark::collections::SmallMap;
use vstd::prelude::*;

use crate::config::{part_views, ManifestPart, ManifestPartView};
use crate::diagnostic::{lemma_notices_push, notices, Notice, NoticeView, Severity};
use crate::lang::part::{declared_from, declared_part, opt_part, opt_part_ref, part_list};
use crate::lang::part::{parts_from, PartValue, PartView};
use crate::lang::symbol::{SymbolValue, SymbolView};
use crate::lang::value::{all_below, bool_of, lemma_below_later, text_of, type_of, DictKey, Item};
use crate::lang::value::Store;
use crate::map::text_entries;
use crate::small_map::{distinct, drop_handle, get_handle, get_text, handles_in, lemma_place};
use crate::small_map::{lemma_put, lemma_without, new_handles, put, put_handle, under, without};
use crate::text::{clone_opt, contains_char, cut_first, is_blank, is_blank_text, opt_str, opt_text};
use crate::text::{same, split_once, texts, to_lowercase, trim, trimmed, unicode_lowercase};

verus! {

/// What is wrong with a component.
pub enum ComponentError {
    NameNotString,
    FootprintNotString,
    PinsNotDict,
    PrefixNotString,
    PinDefsNotDict,
    PinNameNotString,
    PadNotString,
    SymbolDowncastFailed,
    PinNotInSymbol { pin_name: String },
    PadNotInSymbolPin { pad: String, pin_name: String },
    PinNamesNotStrings,
    PinNotInPinDefs { pin_name: String },
    PinDefinedButNotConnected { pin_name: String },
    /// Anything else, in its own words.
    Failed { message: String },
}

impl ComponentError {
    /// The text of the error.
    pub open spec fn text(&self) -> Seq<char> {
        match *self {
            ComponentError::NameNotString => "`name` must be a string"@,
            ComponentError::FootprintNotString => "`footprint` must be a string"@,
            ComponentError::PinsNotDict => "`pins` must be a dict mapping pin names to Net"@,
            ComponentError::PrefixNotString => "`prefix` must be a string"@,
            ComponentError::PinDefsNotDict => "`pin_defs` must be a dict of name -> pad"@,
            ComponentError::PinNameNotString => "pin name must be a string"@,
            ComponentError::PadNotString => "pad must be a string"@,
            ComponentError::SymbolDowncastFailed => "Failed to downcast Symbol value"@,
            ComponentError::PinNotInSymbol { pin_name } => "no pin '"@ + pin_name@ + "' in symbol"@,
            ComponentError::PadNotInSymbolPin { pad, pin_name } => "no pad '"@ + pad@
                + "' in symbol pin "@ + pin_name@,
            ComponentError::PinNamesNotStrings => "pin names must be strings"@,
            ComponentError::PinNotInPinDefs { pin_name } => "pin '"@ + pin_name@
                + "' referenced but not defined in `pin_defs`"@,
            ComponentError::PinDefinedButNotConnected { pin_name } => "pin '"@ + pin_name@
                + "' defined in `pin_defs` but not connected"@,
            ComponentError::Failed { message } => message@,
        }
    }

    /// The text of the error.
    pub fn message(&self) -> (r: String)
        ensures
            r@ == self.text(),
    {
        match self {
            ComponentError::NameNotString => "`name` must be a string".to_owned(),
            ComponentError::FootprintNotString => "`footprint` must be a string".to_owned(),
            ComponentError::PinsNotDict =>
            "`pins` must be a dict mapping pin names to Net".to_owned(),
            ComponentError::PrefixNotString => "`prefix` must be a string".to_owned(),
            ComponentError::PinDefsNotDict =>
            "`pin_defs` must be a dict of name -> pad".to_owned(),
            ComponentError::PinNameNotString => "pin name must be a string".to_owned(),
            ComponentError::PadNotString => "pad must be a string".to_owned(),
            ComponentError::SymbolDowncastFailed => "Failed to downcast Symbol value".to_owned(),
            ComponentError::PinNotInSymbol { pin_name } => {
                let mut out = "no pin '".to_owned();
                out.append(pin_name.as_str());
                out.append("' in symbol");
                out
            },
            ComponentError::PadNotInSymbolPin { pad, pin_name } => {
                let mut out = "no pad '".to_owned();
                out.append(pad.as_str());
                out.append("' in symbol pin ");
                out.append(pin_name.as_str());
                out
            },
            ComponentError::PinNamesNotStrings => "pin names must be strings".to_owned(),
            ComponentError::PinNotInPinDefs { pin_name } => {
                let mut out = "pin '".to_owned();
                out.append(pin_name.as_str());
                out.append("' referenced but not defined in `pin_defs`");
                out
            },
            ComponentError::PinDefinedButNotConnected { pin_name } => {
                let mut out = "pin '".to_owned();
                out.append(pin_name.as_str());
                out.append("' defined in `pin_defs` but not connected");
                out
            },
            ComponentError::Failed { message } => message.clone(),
        }
    }
}

// ---------------------------------------------------------------------------------------------
// Reading values

/// The text of a KiCad field, unless it is empty or the `~` that stands for nothing.
pub open spec fn usable(s: Seq<char>) -> Option<Seq<char>> {
    if s.len() == 0 || s == "~"@ {
        None
    } else {
        Some(s)
    }
}

/// The text of a KiCad field, unless it is empty or the `~` that stands for nothing.
pub fn usable_kicad_field_value(s: &str) -> (r: Option<String>)
    ensures
        opt_text(r) == usable(s@),
{
    if s.unicode_len() == 0 || same(s, "~") {
        None
    } else {
        Some(s.to_owned())
    }
}

/// The usable text of a symbol's property.
pub open spec fn symbol_field(s: SymbolView, key: Seq<char>) -> Option<Seq<char>> {
    match under(s.properties, key) {
        Some(v) => usable(v),
        None => None,
    }
}

/// The usable text of a symbol's property.
pub fn read_symbol_field(symbol: &SymbolValue, key: &str) -> (r: Option<String>)
    ensures
        opt_text(r) == symbol_field(symbol@, key@),
{
    match get_text(&symbol.properties, key) {
        Some(v) => usable_kicad_field_value(v),
        None => None,
    }
}

/// The text of a property, where it is a string.
pub open spec fn property_text(
    items: Seq<Item>,
    properties: Seq<(Seq<char>, usize)>,
    key: Seq<char>,
) -> Option<Seq<char>> {
    match under(properties, key) {
        Some(h) => text_of(items[h as int]),
        None => None,
    }
}

/// The text of a property, where it is a string.
pub fn read_property_text<'a>(
    store: &'a Store,
    properties: &SmallMap<String, usize>,
    key: &str,
) -> (r: Option<&'a str>)
    requires
        all_below(handles_in(*properties), store.items@.len() as int),
    ensures
        opt_str(r) == property_text(store.items@, handles_in(*properties), key@),
{
    proof {
        lemma_place(handles_in(*properties), key@);
    }
    match get_handle(properties, key) {
        Some(h) => store.text(h),
        None => None,
    }
}

/// The text of an argument, where it is a string.
pub open spec fn argument_text(items: Seq<Item>, h: Option<usize>) -> Option<Seq<char>> {
    match h {
        Some(h) => text_of(items[h as int]),
        None => None,
    }
}

/// The text of an argument, where it is a string.
pub fn read_argument_text<'a>(store: &'a Store, h: Option<usize>) -> (r: Option<&'a str>)
    requires
        h is Some ==> h->Some_0 < store.items@.len(),
    ensures
        opt_str(r) == argument_text(store.items@, h),
{
    match h {
        Some(h) => store.text(h),
        None => None,
    }
}

/// The truth value that a text stands for, `lower` being the text in lower case.
pub open spec fn text_truth(s: Seq<char>, lower: Seq<char>) -> Option<bool> {
    if s == "true"@ || s == "1"@ {
        Some(true)
    } else if s == "false"@ || s == "0"@ {
        Some(false)
    } else if lower == "true"@ {
        Some(true)
    } else if lower == "false"@ {
        Some(false)
    } else {
        None
    }
}

/// The truth value that a text stands for, `lower` being the text in lower case.
pub fn truth_of_text(s: &str, lower: &str) -> (r: Option<bool>)
    ensures
        r == text_truth(s@, lower@),
{
    if same(s, "true") || same(s, "1") {
        Some(true)
    } else if same(s, "false") || same(s, "0") {
        Some(false)
    } else if same(lower, "true") {
        Some(true)
    } else if same(lower, "false") {
        Some(false)
    } else {
        None
    }
}

/// The truth value that a value stands for.
pub open spec fn item_truth(item: Item) -> Option<bool> {
    match item {
        Item::Bool(b) => Some(b),
        Item::Text(s) => text_truth(s@, unicode_lowercase(s@)),
        _ => None,
    }
}

/// The truth value of the first key that has one.
pub open spec fn first_truth(
    items: Seq<Item>,
    properties: Seq<(Seq<char>, usize)>,
    keys: Seq<Seq<char>>,
) -> Option<bool>
    decreases keys.len(),
{
    if keys.len() == 0 {
        None
    } else {
        match under(properties, keys[0]) {
            Some(h) => match item_truth(items[h as int]) {
                Some(b) => Some(b),
                None => first_truth(items, properties, keys.skip(1)),
            },
            None => first_truth(items, properties, keys.skip(1)),
        }
    }
}

/// A flag: the argument, where it is a truth value, else the first old property that stands for one.
pub open spec fn flag_of(
    items: Seq<Item>,
    argument: Option<usize>,
    properties: Seq<(Seq<char>, usize)>,
    keys: Seq<Seq<char>>,
) -> Option<bool> {
    let given = match argument {
        Some(h) => bool_of(items[h as int]),
        None => None,
    };
    match given {
        Some(b) => Some(b),
        None => first_truth(items, properties, keys),
    }
}

/// A flag: the argument, where it is a truth value, else the first old property that stands for one.
pub fn consolidate_bool_property(
    store: &Store,
    argument: Option<usize>,
    properties: &SmallMap<String, usize>,
    legacy_keys: &Vec<String>,
) -> (r: Option<bool>)
    requires
        all_below(handles_in(*properties), store.items@.len() as int),
        argument is Some ==> argument->Some_0 < store.items@.len(),
    ensures
        r == flag_of(store.items@, argument, handles_in(*properties), texts(legacy_keys@)),
{
    if let Some(h) = argument {
        if let Some(b) = store.truth(h) {
            return Some(b);
        }
    }
    let ghost p = handles_in(*properties);
    let ghost keys = texts(legacy_keys@);
    let mut i: usize = 0;
    proof {
        assert(keys.skip(0) =~= keys);
    }
    while i < legacy_keys.len()
        invariant
            i <= legacy_keys@.len(),
            p == handles_in(*properties),
            keys == texts(legacy_keys@),
            all_below(p, store.items@.len() as int),
            flag_of(store.items@, argument, p, keys) == first_truth(store.items@, p, keys),
            first_truth(store.items@, p, keys.skip(i as int)) == first_truth(store.items@, p, keys),
        decreases legacy_keys@.len() - i,
    {
        proof {
            assert(keys.skip(i as int)[0] == legacy_keys@[i as int]@);
            assert(keys.skip(i as int).skip(1) =~= keys.skip(i + 1));
            lemma_place(p, legacy_keys@[i as int]@);
        }
        if let Some(h) = get_handle(properties, legacy_keys[i].as_str()) {
            match &store.items[h] {
                Item::Bool(b) => return Some(*b),
                Item::Text(s) => {
                    let lower = to_lowercase(s.as_str());
                    if let Some(b) = truth_of_text(s.as_str(), lower.as_str()) {
                        return Some(b);
                    }
                },
                _ => {},
            }
        }
        i += 1;
    }
    None
}

/// A text, unless it is blank.
pub open spec fn unless_blank(s: Option<Seq<char>>) -> Option<Seq<char>> {
    match s {
        Some(t) => if is_blank(t) {
            None
        } else {
            Some(t)
        },
        None => None,
    }
}

/// A text, unless it is blank.
pub fn non_empty_string(value: Option<&str>) -> (r: Option<String>)
    ensures
        opt_text(r) == unless_blank(opt_str(value)),
{
    match value {
        Some(s) => if is_blank_text(s) {
            None
        } else {
            Some(s.to_owned())
        },
        None => None,
    }
}

/// The text of a property, where it is a string that is not blank.
pub fn property_string(
    store: &Store,
    properties: &SmallMap<String, usize>,
    key: &str,
) -> (r: Option<String>)
    requires
        all_below(handles_in(*properties), store.items@.len() as int),
    ensures
        opt_text(r) == unless_blank(property_text(store.items@, handles_in(*properties), key@)),
{
    non_empty_string(read_property_text(store, properties, key))
}

// ---------------------------------------------------------------------------------------------
// Old inputs

/// The old properties that an argument has replaced, with the argument.
pub open spec fn replaced_properties() -> Seq<(Seq<char>, Seq<char>)> {
    seq![
        ("do_not_populate"@, "dnp"@),
        ("Do_not_populate"@, "dnp"@),
        ("DNP"@, "dnp"@),
        ("dnp"@, "dnp"@),
        ("Exclude_from_bom"@, "skip_bom"@),
        ("exclude_from_bom"@, "skip_bom"@),
        ("Exclude_from_pos_files"@, "skip_pos"@),
        ("exclude_from_pos_files"@, "skip_pos"@),
        ("type"@, "type"@),
        ("Type"@, "type"@),
        ("datasheet"@, "datasheet"@),
        ("description"@, "description"@),
        ("Description"@, "description"@),
    ]
}

/// The old properties that a part has replaced.
pub open spec fn sourcing_properties() -> Seq<Seq<char>> {
    seq!["mpn"@, "Mpn"@, "manufacturer"@, "Manufacturer"@]
}

/// The old properties that an argument has replaced, with the argument.
fn replaced_table() -> (r: Vec<(String, String)>)
    ensures
        text_entries(r@) == replaced_properties(),
{
    let mut out: Vec<(String, String)> = Vec::new();
    out.push(("do_not_populate".to_owned(), "dnp".to_owned()));
    out.push(("Do_not_populate".to_owned(), "dnp".to_owned()));
    out.push(("DNP".to_owned(), "dnp".to_owned()));
    out.push(("dnp".to_owned(), "dnp".to_owned()));
    out.push(("Exclude_from_bom".to_owned(), "skip_bom".to_owned()));
    out.push(("exclude_from_bom".to_owned(), "skip_bom".to_owned()));
    out.push(("Exclude_from_pos_files".to_owned(), "skip_pos".to_owned()));
    out.push(("exclude_from_pos_files".to_owned(), "skip_pos".to_owned()));
    out.push(("type".to_owned(), "type".to_owned()));
    out.push(("Type".to_owned(), "type".to_owned()));
    out.push(("datasheet".to_owned(), "datasheet".to_owned()));
    out.push(("description".to_owned(), "description".to_owned()));
    out.push(("Description".to_owned(), "description".to_owned()));
    proof {
        assert(text_entries(out@) =~= replaced_properties());
    }
    out
}

/// The old properties that a part has replaced.
fn sourcing_table() -> (r: Vec<String>)
    ensures
        texts(r@) == sourcing_properties(),
{
    let mut out: Vec<String> = Vec::new();
    out.push("mpn".to_owned());
    out.push("Mpn".to_owned());
    out.push("manufacturer".to_owned());
    out.push("Manufacturer".to_owned());
    proof {
        assert(texts(out@) =~= sourcing_properties());
    }
    out
}

/// The note for an old property.
pub open spec fn old_property(component: Seq<char>, key: Seq<char>, instead: Seq<char>) -> NoticeView {
    NoticeView {
        message: "Component '"@ + component + "': `properties[\""@ + key
            + "\"]` is no longer supported; "@ + instead,
        kind: "deprecated.component_property"@,
        severity: Severity::Error,
    }
}

/// What to do instead of passing an old property: pass an argument.
pub open spec fn pass_argument(argument: Seq<char>) -> Seq<char> {
    "pass `"@ + argument + "=...` to Component() instead"@
}

/// What to do instead of naming a part by its number.
pub open spec fn pass_part() -> Seq<char> {
    "pass `part=Part(mpn=..., manufacturer=...)` to Component() instead"@
}

/// The note for an old argument.
pub open spec fn old_argument(component: Seq<char>, argument: Seq<char>) -> NoticeView {
    NoticeView {
        message: "Component '"@ + component + "': `"@ + argument + "=...` is deprecated; "@
            + pass_part(),
        kind: "deprecated.component_property"@,
        severity: Severity::Advice,
    }
}

/// The notes for the old properties of a table.
pub open spec fn replaced_notices(
    component: Seq<char>,
    properties: Seq<(Seq<char>, usize)>,
    table: Seq<(Seq<char>, Seq<char>)>,
) -> Seq<NoticeView>
    decreases table.len(),
{
    if table.len() == 0 {
        Seq::<NoticeView>::empty()
    } else {
        let r = replaced_notices(component, properties, table.drop_last());
        if under(properties, table.last().0) is Some {
            r.push(old_property(component, table.last().0, pass_argument(table.last().1)))
        } else {
            r
        }
    }
}

/// The notes for the old sourcing properties of a table.
pub open spec fn sourcing_notices(
    component: Seq<char>,
    properties: Seq<(Seq<char>, usize)>,
    table: Seq<Seq<char>>,
) -> Seq<NoticeView>
    decreases table.len(),
{
    if table.len() == 0 {
        Seq::<NoticeView>::empty()
    } else {
        let r = sourcing_notices(component, properties, table.drop_last());
        if under(properties, table.last()) is Some {
            r.push(old_property(component, table.last(), pass_part()))
        } else {
            r
        }
    }
}

/// The notes for the old inputs of a component.
pub open spec fn legacy_notices(
    component: Seq<char>,
    has_mpn: bool,
    has_manufacturer: bool,
    properties: Seq<(Seq<char>, usize)>,
) -> Seq<NoticeView> {
    let a = replaced_notices(component, properties, replaced_properties());
    let b = a + sourcing_notices(component, properties, sourcing_properties());
    let c = if has_mpn {
        b.push(old_argument(component, "mpn"@))
    } else {
        b
    };
    if has_manufacturer {
        c.push(old_argument(component, "manufacturer"@))
    } else {
        c
    }
}

/// The note for an old property.
fn old_property_notice(component: &str, key: &str, instead: &str) -> (r: Notice)
    ensures
        r@ == old_property(component@, key@, instead@),
{
    let mut message = "Component '".to_owned();
    message.append(component);
    message.append("': `properties[\"");
    message.append(key);
    message.append("\"]` is no longer supported; ");
    message.append(instead);
    Notice {
        message,
        kind: "deprecated.component_property".to_owned(),
        severity: Severity::Error,
    }
}

/// The note for an old argument.
fn old_argument_notice(component: &str, argument: &str) -> (r: Notice)
    ensures
        r@ == old_argument(component@, argument@),
{
    let mut message = "Component '".to_owned();
    message.append(component);
    message.append("': `");
    message.append(argument);
    message.append("=...` is deprecated; ");
    message.append("pass `part=Part(mpn=..., manufacturer=...)` to Component() instead");
    Notice {
        message,
        kind: "deprecated.component_property".to_owned(),
        severity: Severity::Advice,
    }
}

/// The notes for the old inputs of a component.
pub fn warn_legacy_component_inputs(
    component_name: &str,
    has_mpn: bool,
    has_manufacturer: bool,
    properties: &SmallMap<String, usize>,
) -> (r: Vec<Notice>)
    ensures
        notices(r@) == legacy_notices(
            component_name@,
            has_mpn,
            has_manufacturer,
            handles_in(*properties),
        ),
{
    let ghost p = handles_in(*properties);
    let mut out: Vec<Notice> = Vec::new();
    let table = replaced_table();
    let ghost all = text_entries(table@);
    let mut i: usize = 0;
    proof {
        assert(all.take(0) =~= Seq::<(Seq<char>, Seq<char>)>::empty());
        assert(notices(out@) =~= Seq::<NoticeView>::empty());
    }
    while i < table.len()
        invariant
            i <= table@.len(),
            all == text_entries(table@),
            p == handles_in(*properties),
            notices(out@) == replaced_notices(component_name@, p, all.take(i as int)),
        decreases table@.len() - i,
    {
        proof {
            assert(all.take(i + 1).drop_last() =~= all.take(i as int));
            assert(all.take(i + 1).last() == (table@[i as int].0@, table@[i as int].1@));
        }
        if get_handle(properties, table[i].0.as_str()).is_some() {
            let mut instead = "pass `".to_owned();
            instead.append(table[i].1.as_str());
            instead.append("=...` to Component() instead");
            let n = old_property_notice(component_name, table[i].0.as_str(), instead.as_str());
            proof {
                lemma_notices_push(out@, n);
            }
            out.push(n);
        }
        i += 1;
    }
    proof {
        assert(all.take(all.len() as int) =~= all);
    }
    let ghost a = notices(out@);
    let keys = sourcing_table();
    let ghost names = texts(keys@);
    let mut j: usize = 0;
    proof {
        assert(names.take(0) =~= Seq::<Seq<char>>::empty());
        assert(a + Seq::<NoticeView>::empty() =~= a);
    }
    while j < keys.len()
        invariant
            j <= keys@.len(),
            names == texts(keys@),
            p == handles_in(*properties),
            notices(out@) == a + sourcing_notices(component_name@, p, names.take(j as int)),
        decreases keys@.len() - j,
    {
        proof {
            assert(names.take(j + 1).drop_last() =~= names.take(j as int));
            assert(names.take(j + 1).last() == keys@[j as int]@);
        }
        if get_handle(properties, keys[j].as_str()).is_some() {
            let n = old_property_notice(
                component_name,
                keys[j].as_str(),
                "pass `part=Part(mpn=..., manufacturer=...)` to Component() instead",
            );
            let ghost s = sourcing_notices(component_name@, p, names.take(j as int));
            proof {
                lemma_notices_push(out@, n);
                assert((a + s).push(n@) =~= a + s.push(n@));
            }
            out.push(n);
        }
        j += 1;
    }
    proof {
        assert(names.take(names.len() as int) =~= names);
    }
    if has_mpn {
        let n = old_argument_notice(component_name, "mpn");
        proof {
            lemma_notices_push(out@, n);
        }
        out.push(n);
    }
    if has_manufacturer {
        let n = old_argument_notice(component_name, "manufacturer");
        proof {
            lemma_notices_push(out@, n);
        }
        out.push(n);
    }
    out
}

// ---------------------------------------------------------------------------------------------
// Properties and parts

/// The entries of a dictionary as a map from text: the text of a key, or the text that shows it.
pub open spec fn dict_entries(v: Seq<(DictKey, usize)>) -> Seq<(Seq<char>, usize)>
    decreases v.len(),
{
    if v.len() == 0 {
        Seq::<(Seq<char>, usize)>::empty()
    } else {
        put(dict_entries(v.drop_last()), v.last().0.text@, v.last().1)
    }
}

/// The properties that a component was given: none, or the entries of a dictionary.
pub open spec fn given_properties(items: Seq<Item>, h: Option<usize>) -> Result<
    Seq<(Seq<char>, usize)>,
    Seq<char>,
> {
    match h {
        None => Ok(Seq::<(Seq<char>, usize)>::empty()),
        Some(h) => match items[h as int] {
            Item::Nothing => Ok(Seq::<(Seq<char>, usize)>::empty()),
            Item::Dict(v) => Ok(dict_entries(v@)),
            _ => Err("`properties` must be a dict when provided"@),
        },
    }
}

/// Reads the properties of a component.
pub fn parse_component_properties(store: &Store, h: Option<usize>) -> (r: Result<
    SmallMap<String, usize>,
    ComponentError,
>)
    requires
        store.wf(),
        h is Some ==> h->Some_0 < store.items@.len(),
    ensures
        match (r, given_properties(store.items@, h)) {
            (Ok(m), Ok(p)) => handles_in(m) == p && distinct(p) && all_below(
                p,
                store.items@.len() as int,
            ),
            (Err(e), Err(t)) => e.text() == t,
            _ => false,
        },
{
    let mut out = new_handles();
    let h: usize = match h {
        Some(h) => h,
        None => return Ok(out),
    };
    proof {
        assert(crate::lang::value::refers_below(store.items@[h as int], h as int));
    }
    match &store.items[h] {
        Item::Nothing => Ok(out),
        Item::Dict(v) => {
            let mut i: usize = 0;
            proof {
                assert(v@.take(0) =~= Seq::<(DictKey, usize)>::empty());
            }
            while i < v.len()
                invariant
                    i <= v@.len(),
                    h < store.items@.len(),
                    forall|k: int| 0 <= k < v@.len() ==> (#[trigger] v@[k]).1 < h,
                    handles_in(out) == dict_entries(v@.take(i as int)),
                    distinct(handles_in(out)),
                    all_below(handles_in(out), store.items@.len() as int),
                decreases v@.len() - i,
            {
                proof {
                    assert(v@.take(i + 1).drop_last() =~= v@.take(i as int));
                    assert(v@.take(i + 1).last() == v@[i as int]);
                    lemma_put(handles_in(out), v@[i as int].0.text@, v@[i as int].1);
                    crate::lang::net::lemma_put_below(
                        handles_in(out),
                        v@[i as int].0.text@,
                        v@[i as int].1,
                        store.items@.len() as int,
                    );
                }
                put_handle(&mut out, v[i].0.text.clone(), v[i].1);
                i += 1;
            }
            proof {
                assert(v@.take(v@.len() as int) =~= v@);
            }
            Ok(out)
        },
        _ => Err(
            ComponentError::Failed {
                message: "`properties` must be a dict when provided".to_owned(),
            },
        ),
    }
}

/// The part that a component was given, if any.
pub open spec fn given_part(items: Seq<Item>, h: Option<usize>) -> Result<Option<PartView>, Seq<char>> {
    match h {
        None => Ok(None),
        Some(h) => match items[h as int] {
            Item::Nothing => Ok(None),
            Item::Part(p) => Ok(Some(p@)),
            other => Err("`part` must be a Part, got "@ + type_of(other)),
        },
    }
}

/// Reads the part of a component.
pub fn parse_optional_part(store: &Store, h: Option<usize>) -> (r: Result<
    Option<PartValue>,
    ComponentError,
>)
    requires
        h is Some ==> h->Some_0 < store.items@.len(),
    ensures
        match (r, given_part(store.items@, h)) {
            (Ok(p), Ok(q)) => opt_part(p) == q,
            (Err(e), Err(t)) => e.text() == t,
            _ => false,
        },
{
    let h: usize = match h {
        Some(h) => h,
        None => return Ok(None),
    };
    match &store.items[h] {
        Item::Nothing => Ok(None),
        Item::Part(p) => Ok(Some(p.copy())),
        _ => {
            let mut message = "`part` must be a Part, got ".to_owned();
            let got = store.type_label(h);
            message.append(got.as_str());
            Err(ComponentError::Failed { message })
        },
    }
}

/// The first of some texts that there is.
pub open spec fn or(a: Option<Seq<char>>, b: Option<Seq<char>>) -> Option<Seq<char>> {
    match a {
        Some(t) => Some(t),
        None => b,
    }
}

/// A part number or manufacturer: the one given, else that of the properties, else that of the
/// symbol.
pub open spec fn sourced_text(
    explicit: Option<Seq<char>>,
    items: Seq<Item>,
    properties: Seq<(Seq<char>, usize)>,
    symbol: SymbolView,
    key: Seq<char>,
    other_key: Seq<char>,
    field: Seq<char>,
) -> Option<Seq<char>> {
    or(
        explicit,
        or(
            unless_blank(property_text(items, properties, key)),
            or(
                unless_blank(property_text(items, properties, other_key)),
                symbol_field(symbol, field),
            ),
        ),
    )
}

/// Where a component comes from: its part, the alternatives to it, and the part number for the bill
/// of materials. A part that is given counts before everything; else a part number counts before the
/// parts that the manifests declare for the symbol.
pub open spec fn sourced(
    given: Option<PartView>,
    mpn: Option<Seq<char>>,
    manufacturer: Option<Seq<char>>,
    declared: Option<Seq<ManifestPartView>>,
) -> (Option<PartView>, Seq<PartView>, Option<Seq<char>>) {
    let parts = match declared {
        Some(d) => d,
        None => Seq::<ManifestPartView>::empty(),
    };
    match given {
        Some(p) => (Some(p), declared_from(parts, 0), Some(p.mpn)),
        None => if mpn is None && parts.len() > 0 {
            (Some(declared_part(parts[0])), declared_from(parts, 1), Some(parts[0].mpn))
        } else {
            (
                match (mpn, manufacturer) {
                    (Some(m), Some(f)) => Some(
                        PartView {
                            mpn: m,
                            manufacturer: f,
                            qualifications: Seq::<Seq<char>>::empty(),
                            datasheet: None,
                        },
                    ),
                    _ => None,
                },
                Seq::<PartView>::empty(),
                mpn,
            )
        },
    }
}

/// The contents of an optional list of declared parts.
pub open spec fn opt_declared(o: Option<&Vec<ManifestPart>>) -> Option<Seq<ManifestPartView>> {
    match o {
        Some(v) => Some(part_views(v@)),
        None => None,
    }
}

/// A part number or manufacturer.
fn read_sourced_text(
    explicit: Option<String>,
    store: &Store,
    properties: &SmallMap<String, usize>,
    symbol: &SymbolValue,
    key: &str,
    other_key: &str,
    field: &str,
) -> (r: Option<String>)
    requires
        all_below(handles_in(*properties), store.items@.len() as int),
    ensures
        opt_text(r) == sourced_text(
            opt_text(explicit),
            store.items@,
            handles_in(*properties),
            symbol@,
            key@,
            other_key@,
            field@,
        ),
{
    if explicit.is_some() {
        return explicit;
    }
    let a = property_string(store, properties, key);
    if a.is_some() {
        return a;
    }
    let b = property_string(store, properties, other_key);
    if b.is_some() {
        return b;
    }
    read_symbol_field(symbol, field)
}

/// Finds where a component comes from.
pub fn resolve_component_sourcing(
    part: Option<&PartValue>,
    explicit_mpn: Option<String>,
    explicit_manufacturer: Option<String>,
    store: &Store,
    properties: &SmallMap<String, usize>,
    symbol: &SymbolValue,
    manifest_parts: Option<&Vec<ManifestPart>>,
) -> (r: (Option<PartValue>, Vec<PartValue>, Option<String>))
    requires
        all_below(handles_in(*properties), store.items@.len() as int),
    ensures
        (opt_part(r.0), part_list(r.1@), opt_text(r.2)) == sourced(
            opt_part_ref(part),
            sourced_text(
                opt_text(explicit_mpn),
                store.items@,
                handles_in(*properties),
                symbol@,
                "mpn"@,
                "Mpn"@,
                "Manufacturer_Part_Number"@,
            ),
            sourced_text(
                opt_text(explicit_manufacturer),
                store.items@,
                handles_in(*properties),
                symbol@,
                "manufacturer"@,
                "Manufacturer"@,
                "Manufacturer_Name"@,
            ),
            opt_declared(manifest_parts),
        ),
{
    if let Some(p) = part {
        let alternatives: Vec<PartValue> = match manifest_parts {
            Some(v) => parts_from(v, 0),
            None => Vec::new(),
        };
        proof {
            if manifest_parts is None {
                assert(part_list(alternatives@) =~= declared_from(
                    Seq::<ManifestPartView>::empty(),
                    0,
                ));
            }
        }
        return (Some(p.copy()), alternatives, Some(p.mpn.clone()));
    }
    let mpn = read_sourced_text(
        explicit_mpn,
        store,
        properties,
        symbol,
        "mpn",
        "Mpn",
        "Manufacturer_Part_Number",
    );
    let manufacturer = read_sourced_text(
        explicit_manufacturer,
        store,
        properties,
        symbol,
        "manufacturer",
        "Manufacturer",
        "Manufacturer_Name",
    );
    if mpn.is_none() {
        if let Some(v) = manifest_parts {
            if v.len() > 0 {
                proof {
                    assert(part_views(v@)[0] == v@[0]@);
                }
                return (
                    Some(PartValue::from_manifest(&v[0])),
                    parts_from(v, 1),
                    Some(v[0].mpn.clone()),
                );
            }
        }
    }
    let alternatives: Vec<PartValue> = Vec::new();
    let part = match (&mpn, &manufacturer) {
        (Some(m), Some(f)) => {
            let p = PartValue::new(m.clone(), f.clone(), Vec::new(), None);
            proof {
                assert(p@.qualifications =~= Seq::<Seq<char>>::empty());
            }
            Some(p)
        },
        _ => None,
    };
    proof {
        assert(part_list(alternatives@) =~= Seq::<PartView>::empty());
    }
    (part, alternatives, mpn)
}

/// The datasheet of a component: that of its part, else its own, else that of its symbol.
pub open spec fn chosen_datasheet(
    part: Option<PartView>,
    component: Option<Seq<char>>,
    symbol: Option<Seq<char>>,
) -> Option<Seq<char>> {
    let of_part = match part {
        Some(p) => p.datasheet,
        None => None,
    };
    or(of_part, or(component, symbol))
}

/// Chooses the datasheet of a component.
pub fn resolve_component_datasheet(
    part: Option<&PartValue>,
    component_datasheet: &Option<String>,
    symbol_datasheet: &Option<String>,
) -> (r: Option<String>)
    ensures
        opt_text(r) == chosen_datasheet(
            opt_part_ref(part),
            opt_text(*component_datasheet),
            opt_text(*symbol_datasheet),
        ),
{
    if let Some(p) = part {
        if let Some(d) = &p.datasheet {
            return Some(d.clone());
        }
    }
    match component_datasheet {
        Some(d) => Some(d.clone()),
        None => clone_opt(symbol_datasheet),
    }
}

/// Whether a part that a manifest declares is for a symbol: it names no symbol, or this one.
pub open spec fn declared_for(p: ManifestPartView, symbol: SymbolView) -> bool {
    match p.symbol_name {
        Some(name) => symbol.name == Some(name),
        None => true,
    }
}

/// Whether a part that a manifest declares is for a symbol.
pub fn manifest_part_matches_symbol(part: &ManifestPart, symbol: &SymbolValue) -> (r: bool)
    ensures
        r == declared_for(part@, symbol@),
{
    match &part.symbol_name {
        Some(name) => match &symbol.name {
            Some(own) => same(own.as_str(), name.as_str()),
            None => false,
        },
        None => true,
    }
}

/// The parts of a list that are for a symbol.
pub open spec fn parts_for(v: Seq<ManifestPartView>, symbol: SymbolView) -> Seq<ManifestPartView>
    decreases v.len(),
{
    if v.len() == 0 {
        Seq::<ManifestPartView>::empty()
    } else {
        let r = parts_for(v.drop_last(), symbol);
        if declared_for(v.last(), symbol) {
            r.push(v.last())
        } else {
            r
        }
    }
}

/// The parts of a list that are for a symbol.
pub fn matching_manifest_parts(v: &Vec<ManifestPart>, symbol: &SymbolValue) -> (r: Vec<ManifestPart>)
    ensures
        part_views(r@) == parts_for(part_views(v@), symbol@),
{
    let ghost all = part_views(v@);
    let mut out: Vec<ManifestPart> = Vec::new();
    let mut i: usize = 0;
    proof {
        assert(all.take(0) =~= Seq::<ManifestPartView>::empty());
        assert(part_views(out@) =~= Seq::<ManifestPartView>::empty());
    }
    while i < v.len()
        invariant
            i <= v@.len(),
            all == part_views(v@),
            part_views(out@) == parts_for(all.take(i as int), symbol@),
        decreases v@.len() - i,
    {
        proof {
            assert(all.take(i + 1).drop_last() =~= all.take(i as int));
            assert(all.take(i + 1).last() == v@[i as int]@);
        }
        if manifest_part_matches_symbol(&v[i], symbol) {
            let ghost prior = part_views(out@);
            let p = v[i].copy();
            let ghost view = p@;
            out.push(p);
            proof {
                assert(part_views(out@) =~= prior.push(view));
            }
        }
        i += 1;
    }
    proof {
        assert(all.take(all.len() as int) =~= all);
    }
    out
}

/// Whether every value of a list is a part.
pub open spec fn all_parts(items: Seq<Item>, v: Seq<usize>) -> bool {
    forall|i: int| 0 <= i < v.len() ==> items[(#[trigger] v[i]) as int] is Part
}

/// What is wrong with the alternatives among the properties.
pub open spec fn alternatives_error(items: Seq<Item>, properties: Seq<(Seq<char>, usize)>) -> Option<
    Seq<char>,
> {
    match under(properties, "alternatives"@) {
        None => None,
        Some(h) => match items[h as int] {
            Item::List(v) => if all_parts(items, v@) {
                None
            } else {
                Some("`properties[\"alternatives\"]` must contain only Part values"@)
            },
            _ => Some("`properties[\"alternatives\"]` must be a list of Part values"@),
        },
    }
}

/// The alternatives among the properties.
pub open spec fn known_alternatives(items: Seq<Item>, properties: Seq<(Seq<char>, usize)>) -> Seq<
    usize,
> {
    match under(properties, "alternatives"@) {
        None => Seq::<usize>::empty(),
        Some(h) => match items[h as int] {
            Item::List(v) => v@,
            _ => Seq::<usize>::empty(),
        },
    }
}

/// Adds alternatives to the properties: behind those that are there.
pub fn append_alternatives_property(
    store: &mut Store,
    properties: &mut SmallMap<String, usize>,
    alternatives: Vec<PartValue>,
) -> (r: Result<(), ComponentError>)
    requires
        old(store).wf(),
        distinct(handles_in(*old(properties))),
        all_below(handles_in(*old(properties)), old(store).items@.len() as int),
    ensures
        final(store).wf(),
        final(store).next_net_id == old(store).next_net_id,
        crate::lang::value::extends(final(store).items@, old(store).items@),
        distinct(handles_in(*final(properties))),
        all_below(handles_in(*final(properties)), final(store).items@.len() as int),
        ({
            let items = old(store).items@;
            let p = handles_in(*old(properties));
            let n = items.len();
            let m = alternatives@.len();
            if m == 0 {
                r is Ok && handles_in(*final(properties)) == p && final(store).items@ == items
            } else {
                match (r, alternatives_error(items, p)) {
                    (Err(e), Some(t)) => e.text() == t && handles_in(*final(properties)) == p
                        && final(store).items@ == items,
                    (Ok(_), None) => {
                        &&& final(store).items@.len() == n + m + 1
                        &&& forall|i: int|
                            0 <= i < m ==> (#[trigger] final(store).items@[n + i] matches Item::Part(
                                q,
                            ) && q@ == alternatives@[i]@)
                        &&& (final(store).items@[(n + m) as int] matches Item::List(v) && v@
                            == known_alternatives(items, p) + Seq::new(m, |i: int| (n + i) as usize))
                        &&& handles_in(*final(properties)) == put(
                            p,
                            "alternatives"@,
                            (n + m) as usize,
                        )
                    },
                    _ => false,
                }
            }
        }),
{
    if alternatives.len() == 0 {
        proof {
            assert(store.items@.take(store.items@.len() as int) =~= store.items@);
        }
        return Ok(());
    }
    let ghost items = store.items@;
    let ghost p = handles_in(*properties);
    let ghost n = items.len();
    let ghost m = alternatives@.len();
    let mut list: Vec<usize> = Vec::new();
    proof {
        lemma_place(p, "alternatives"@);
        assert(items.take(n as int) =~= items);
        assert(list@ =~= Seq::<usize>::empty());
    }
    if let Some(h) = get_handle(properties, "alternatives") {
        proof {
            assert(crate::lang::value::refers_below(store.items@[h as int], h as int));
        }
        match &store.items[h] {
            Item::List(v) => {
                let mut i: usize = 0;
                while i < v.len()
                    invariant
                        i <= v@.len(),
                        h < items.len(),
                        store.items@ == items,
                        *store == *old(store),
                        *properties == *old(properties),
                        store.wf(),
                        distinct(p),
                        all_below(p, items.len() as int),
                        p == handles_in(*properties),
                        items.take(items.len() as int) == items,
                        m > 0,
                        m == alternatives@.len(),
                        under(p, "alternatives"@) == Some(h),
                        items[h as int] == Item::List(*v),
                        forall|k: int| 0 <= k < v@.len() ==> (#[trigger] v@[k]) < h,
                        list@ == v@.take(i as int),
                        forall|k: int| 0 <= k < i ==> items[(#[trigger] v@[k]) as int] is Part,
                    decreases v@.len() - i,
                {
                    let is_part = match &store.items[v[i]] {
                        Item::Part(_) => true,
                        _ => false,
                    };
                    if !is_part {
                        proof {
                            assert(!(items[v@[i as int] as int] is Part));
                            assert(alternatives_error(items, p) == Some(
                                "`properties[\"alternatives\"]` must contain only Part values"@,
                            ));
                        }
                        return Err(
                            ComponentError::Failed {
                                message:
                                    "`properties[\"alternatives\"]` must contain only Part values".to_owned(),
                            },
                        );
                    }
                    list.push(v[i]);
                    proof {
                        assert(v@.take(i + 1) =~= v@.take(i as int).push(v@[i as int]));
                    }
                    i += 1;
                }
                proof {
                    assert(v@.take(v@.len() as int) =~= v@);
                }
            },
            _ => {
                return Err(
                    ComponentError::Failed {
                        message:
                            "`properties[\"alternatives\"]` must be a list of Part values".to_owned(),
                    },
                );
            },
        }
    }
    let ghost known = known_alternatives(items, p);
    proof {
        assert(list@ == known);
        assert forall|k: int| 0 <= k < list@.len() implies (#[trigger] list@[k]) < n by {
            let h = under(p, "alternatives"@)->Some_0;
            assert(crate::lang::value::refers_below(items[h as int], h as int));
        }
    }
    let mut rest = alternatives;
    let total: usize = rest.len();
    let mut j: usize = 0;
    proof {
        assert(alternatives@.skip(0) =~= alternatives@);
        assert(known + Seq::new(0nat, |i: int| (n + i) as usize) =~= known);
    }
    while j < total
        invariant
            j <= total,
            total == m,
            m == alternatives@.len(),
            n == items.len(),
            store.wf(),
            store.next_net_id == old(store).next_net_id,
            rest@ == alternatives@.skip(j as int),
            store.items@.len() == n + j,
            store.items@.take(n as int) == items,
            list@ == known + Seq::new(j as nat, |i: int| (n + i) as usize),
            forall|k: int| 0 <= k < known.len() ==> (#[trigger] known[k]) < n,
            forall|i: int|
                0 <= i < j ==> (#[trigger] store.items@[n + i] matches Item::Part(q) && q@
                    == alternatives@[i]@),
        decreases total - j,
    {
        let part = rest.remove(0);
        proof {
            assert(part == alternatives@[j as int]);
            assert(rest@ =~= alternatives@.skip(j + 1));
        }
        let ghost before = store.items@;
        let h = store.allocate(Item::Part(part));
        list.push(h);
        proof {
            assert(store.items@.take(n as int) =~= before.take(n as int));
            assert(list@ =~= known + Seq::new((j + 1) as nat, |i: int| (n + i) as usize));
        }
        j += 1;
    }
    let ghost before = store.items@;
    proof {
        assert forall|k: int| 0 <= k < list@.len() implies (#[trigger] list@[k]) < n + m by {
            if k < known.len() {
                assert(list@[k] == known[k]);
            }
        }
    }
    let h = store.allocate(Item::List(list));
    proof {
        assert(store.items@.take(n as int) =~= before.take(n as int));
        lemma_put(p, "alternatives"@, h);
        lemma_below_later(p, n as int, h + 1);
        crate::lang::net::lemma_put_below(p, "alternatives"@, h, h + 1);
        assert forall|i: int| 0 <= i < m implies (#[trigger] store.items@[n + i] matches Item::Part(
            q,
        ) && q@ == alternatives@[i]@) by {
            assert(store.items@[n + i] == before[n + i]);
        }
    }
    put_handle(properties, "alternatives".to_owned(), h);
    Ok(())
}

/// The properties that are kept in fields of their own.
pub open spec fn consolidated_keys() -> Seq<Seq<char>> {
    seq![
        "mpn"@,
        "Mpn"@,
        "manufacturer"@,
        "Manufacturer"@,
        "datasheet"@,
        "description"@,
        "Description"@,
        "type"@,
        "Type"@,
        "do_not_populate"@,
        "Do_not_populate"@,
        "DNP"@,
        "dnp"@,
        "Exclude_from_bom"@,
        "exclude_from_bom"@,
        "Exclude_from_pos_files"@,
        "exclude_from_pos_files"@,
    ]
}

/// Properties without some keys.
pub open spec fn without_keys(p: Seq<(Seq<char>, usize)>, keys: Seq<Seq<char>>) -> Seq<
    (Seq<char>, usize),
>
    decreases keys.len(),
{
    if keys.len() == 0 {
        p
    } else {
        without(without_keys(p, keys.drop_last()), keys.last())
    }
}

/// The properties that are kept in fields of their own.
fn consolidated_table() -> (r: Vec<String>)
    ensures
        texts(r@) == consolidated_keys(),
{
    let mut out: Vec<String> = Vec::new();
    out.push("mpn".to_owned());
    out.push("Mpn".to_owned());
    out.push("manufacturer".to_owned());
    out.push("Manufacturer".to_owned());
    out.push("datasheet".to_owned());
    out.push("description".to_owned());
    out.push("Description".to_owned());
    out.push("type".to_owned());
    out.push("Type".to_owned());
    out.push("do_not_populate".to_owned());
    out.push("Do_not_populate".to_owned());
    out.push("DNP".to_owned());
    out.push("dnp".to_owned());
    out.push("Exclude_from_bom".to_owned());
    out.push("exclude_from_bom".to_owned());
    out.push("Exclude_from_pos_files".to_owned());
    out.push("exclude_from_pos_files".to_owned());
    proof {
        assert(texts(out@) =~= consolidated_keys());
    }
    out
}

/// Removes the properties that are kept in fields of their own.
pub fn remove_consolidated_component_properties(properties: &mut SmallMap<String, usize>)
    requires
        distinct(handles_in(*old(properties))),
    ensures
        distinct(handles_in(*final(properties))),
        handles_in(*final(properties)) == without_keys(
            handles_in(*old(properties)),
            consolidated_keys(),
        ),
        forall|n: int|
            all_below(handles_in(*old(properties)), n) ==> #[trigger] all_below(
                handles_in(*final(properties)),
                n,
            ),
{
    let keys = consolidated_table();
    let ghost names = texts(keys@);
    let ghost first = handles_in(*properties);
    let mut i: usize = 0;
    proof {
        assert(names.take(0) =~= Seq::<Seq<char>>::empty());
    }
    while i < keys.len()
        invariant
            i <= keys@.len(),
            names == texts(keys@),
            distinct(handles_in(*properties)),
            handles_in(*properties) == without_keys(first, names.take(i as int)),
            forall|n: int|
                all_below(first, n) ==> #[trigger] all_below(handles_in(*properties), n),
        decreases keys@.len() - i,
    {
        let ghost prior = handles_in(*properties);
        proof {
            assert(names.take(i + 1).drop_last() =~= names.take(i as int));
            assert(names.take(i + 1).last() == keys@[i as int]@);
            lemma_without(prior, keys@[i as int]@);
        }
        drop_handle(properties, keys[i].as_str());
        proof {
            assert forall|n: int| all_below(first, n) implies #[trigger] all_below(
                handles_in(*properties),
                n,
            ) by {
                assert(all_below(prior, n));
                crate::lang::net::lemma_without_below(prior, keys@[i as int]@, n);
            }
        }
        i += 1;
    }
    proof {
        assert(names.take(names.len() as int) =~= names);
    }
}

/// None of the properties that have fields of their own is left, and no other is lost.
pub proof fn law_consolidated_properties(p: Seq<(Seq<char>, usize)>, q: Seq<char>)
    requires
        distinct(p),
    ensures
        under(without_keys(p, consolidated_keys()), q) == (if consolidated_keys().contains(q) {
            None
        } else {
            under(p, q)
        }),
{
    lemma_without_keys(p, consolidated_keys(), q);
}

proof fn lemma_without_keys(p: Seq<(Seq<char>, usize)>, keys: Seq<Seq<char>>, q: Seq<char>)
    requires
        distinct(p),
    ensures
        distinct(without_keys(p, keys)),
        under(without_keys(p, keys), q) == (if keys.contains(q) {
            None
        } else {
            under(p, q)
        }),
    decreases keys.len(),
{
    if keys.len() > 0 {
        let d = keys.drop_last();
        lemma_without_keys(p, d, q);
        lemma_without(without_keys(p, d), keys.last());
        if keys.contains(q) && q != keys.last() {
            let i = choose|i: int| 0 <= i < keys.len() && keys[i] == q;
            assert(d[i] == q);
        }
        if d.contains(q) {
            let i = choose|i: int| 0 <= i < d.len() && d[i] == q;
            assert(keys[i] == q);
        }
        if q == keys.last() {
            assert(keys[keys.len() - 1] == q);
        }
    }
}

// ---------------------------------------------------------------------------------------------
// Footprints

/// The stem of a footprint file in a symbol's own directory: the property itself, or `<stem>:<stem>`.
pub open spec fn footprint_stem(value: Seq<char>) -> Option<Seq<char>> {
    let t = trimmed(value);
    if t.len() == 0 || t.contains('/') || t.contains('\\') {
        None
    } else {
        match cut_first(t, ':') {
            Some((lib, fp)) => if lib.len() == 0 || fp.len() == 0 || fp.contains(':') {
                None
            } else if lib == fp {
                Some(lib)
            } else {
                None
            },
            None => Some(t),
        }
    }
}

/// Reads the stem of a footprint file in a symbol's own directory.
pub fn infer_footprint_stem_from_property(value: &str) -> (r: Option<String>)
    ensures
        opt_text(r) == footprint_stem(value@),
{
    let t = trim(value);
    if t.as_str().unicode_len() == 0 || contains_char(t.as_str(), '/') || contains_char(
        t.as_str(),
        '\\',
    ) {
        return None;
    }
    match split_once(t.as_str(), ':') {
        Some((lib, fp)) => {
            if lib.as_str().unicode_len() == 0 || fp.as_str().unicode_len() == 0 || contains_char(
                fp.as_str(),
                ':',
            ) {
                return None;
            }
            if same(lib.as_str(), fp.as_str()) {
                Some(lib)
            } else {
                None
            }
        },
        None => Some(t),
    }
}

/// The path of a footprint of the bundled KiCad libraries that a property of the form `<lib>:<name>`
/// stands for.
pub open spec fn bundled_footprint(value: Seq<char>) -> Option<Seq<char>> {
    let t = trimmed(value);
    match cut_first(t, ':') {
        None => None,
        Some((lib, fp)) => if lib.len() == 0 || fp.len() == 0 || fp.contains(':') || lib == fp
            || lib.contains('/') || lib.contains('\\') || fp.contains('/') || fp.contains('\\') {
            None
        } else {
            Some("@stdlib/kicad-footprints/"@ + lib + ".pretty/"@ + fp + ".kicad_mod"@)
        },
    }
}

/// The path of a bundled footprint that a property stands for.
pub fn bundled_footprint_path(value: &str) -> (r: Option<String>)
    ensures
        opt_text(r) == bundled_footprint(value@),
{
    let t = trim(value);
    match split_once(t.as_str(), ':') {
        None => None,
        Some((lib, fp)) => {
            let l = lib.as_str();
            let f = fp.as_str();
            if l.unicode_len() == 0 || f.unicode_len() == 0 || contains_char(f, ':') || same(l, f)
                || contains_char(l, '/') || contains_char(l, '\\') || contains_char(f, '/')
                || contains_char(f, '\\') {
                return None;
            }
            let mut out = "@stdlib/kicad-footprints/".to_owned();
            out.append(l);
            out.append(".pretty/");
            out.append(f);
            out.append(".kicad_mod");
            Some(out)
        },
    }
}

/// A property is read as a footprint in one way at most.
pub proof fn law_footprint_forms_are_apart(value: Seq<char>)
    ensures
        footprint_stem(value) is None || bundled_footprint(value) is None,
{
}

/// Where the footprint of a component is looked for.
pub enum FootprintPlan {
    /// The footprint was given.
    Given(String),
    /// A file beside the symbol's library, which has to exist.
    BesideSymbol(String),
    /// A path of the bundled libraries, to be resolved from the current file.
    Bundled(String),
}

/// The footprint that is looked for, or the error. `source` is what the symbol's library resolved
/// to; a bundled footprint can be looked for from a file alone.
pub open spec fn planned_footprint(
    explicit: Option<Seq<char>>,
    symbol: SymbolView,
    source: Result<Seq<char>, Seq<char>>,
    in_file: bool,
) -> Result<(int, Seq<char>), Seq<char>> {
    match explicit {
        Some(path) => Ok((0int, path)),
        None => match symbol.source_uri {
            None => Err(
                "`footprint` is required unless `symbol` is loaded from a file and has a usable `Footprint` property"@,
            ),
            Some(uri) => match source {
                Err(e) => Err("Failed to resolve symbol library '"@ + uri + "': "@ + e),
                Ok(path) => match symbol_field(symbol, "Footprint"@) {
                    None => Err(
                        "`footprint` is required unless symbol property `Footprint` can be inferred"@,
                    ),
                    Some(prop) => match footprint_stem(prop) {
                        Some(stem) => Ok(
                            (
                                1int,
                                crate::path::path_joined(
                                    match crate::path::parent_of(path) {
                                        Some(dir) => dir,
                                        None => Seq::<char>::empty(),
                                    },
                                    stem + ".kicad_mod"@,
                                ),
                            ),
                        ),
                        None => if in_file && bundled_footprint(prop) is Some {
                            Ok((2int, bundled_footprint(prop)->Some_0))
                        } else {
                            Err(
                                "`Footprint` property '"@ + prop
                                    + "' is not inferable; expected '<stem>', legacy '<stem>:<stem>', or KiCad '<lib>:<footprint>'"@,
                            )
                        },
                    },
                },
            },
        },
    }
}

/// The contents of a plan.
pub open spec fn plan_view(p: FootprintPlan) -> (int, Seq<char>) {
    match p {
        FootprintPlan::Given(s) => (0int, s@),
        FootprintPlan::BesideSymbol(s) => (1int, s@),
        FootprintPlan::Bundled(s) => (2int, s@),
    }
}

/// The contents of a resolved path or the error.
pub open spec fn path_result(r: Result<String, String>) -> Result<Seq<char>, Seq<char>> {
    match r {
        Ok(s) => Ok(s@),
        Err(e) => Err(e@),
    }
}

/// Plans where the footprint of a component is looked for.
pub fn plan_footprint(
    explicit_footprint: Option<String>,
    symbol: &SymbolValue,
    source: Result<String, String>,
    in_file: bool,
) -> (r: Result<FootprintPlan, ComponentError>)
    ensures
        match (
            r,
            planned_footprint(opt_text(explicit_footprint), symbol@, path_result(source), in_file),
        ) {
            (Ok(p), Ok(q)) => plan_view(p) == q,
            (Err(e), Err(t)) => e.text() == t,
            _ => false,
        },
{
    if let Some(path) = explicit_footprint {
        return Ok(FootprintPlan::Given(path));
    }
    let uri: &String = match &symbol.source_uri {
        Some(uri) => uri,
        None => {
            return Err(
                ComponentError::Failed {
                    message:
                        "`footprint` is required unless `symbol` is loaded from a file and has a usable `Footprint` property".to_owned(),
                },
            );
        },
    };
    let path: String = match source {
        Ok(path) => path,
        Err(e) => {
            let mut message = "Failed to resolve symbol library '".to_owned();
            message.append(uri.as_str());
            message.append("': ");
            message.append(e.as_str());
            return Err(ComponentError::Failed { message });
        },
    };
    let prop: String = match read_symbol_field(symbol, "Footprint") {
        Some(prop) => prop,
        None => {
            return Err(
                ComponentError::Failed {
                    message:
                        "`footprint` is required unless symbol property `Footprint` can be inferred".to_owned(),
                },
            );
        },
    };
    if let Some(stem) = infer_footprint_stem_from_property(prop.as_str()) {
        let dir = match crate::path::parent(path.as_str()) {
            Some(dir) => dir,
            None => String::new(),
        };
        let mut file = stem;
        file.append(".kicad_mod");
        return Ok(
            FootprintPlan::BesideSymbol(crate::path::path_join(dir.as_str(), file.as_str())),
        );
    }
    let bundled = if in_file {
        bundled_footprint_path(prop.as_str())
    } else {
        None
    };
    if let Some(p) = bundled {
        return Ok(FootprintPlan::Bundled(p));
    }
    let mut message = "`Footprint` property '".to_owned();
    message.append(prop.as_str());
    message.append(
        "' is not inferable; expected '<stem>', legacy '<stem>:<stem>', or KiCad '<lib>:<footprint>'",
    );
    Err(ComponentError::Failed { message })
}

/// What was found of a planned footprint.
pub struct FootprintFound {
    /// What a bundled path resolved to; any other path is as planned.
    pub resolved: Result<String, String>,
    /// Whether the file exists.
    pub file_exists: bool,
}

/// The footprint of a component, or the error.
pub open spec fn found_footprint(
    plan: (int, Seq<char>),
    resolved: Result<Seq<char>, Seq<char>>,
    file_exists: bool,
) -> Result<Seq<char>, Seq<char>> {
    if plan.0 == 0 {
        Ok(plan.1)
    } else if plan.0 == 1 {
        if file_exists {
            Ok(plan.1)
        } else {
            Err("Inferred footprint file not found: "@ + plan.1)
        }
    } else {
        match resolved {
            Err(e) => Err(
                "Failed to resolve bundled KiCad footprint '"@ + plan.1 + "': "@ + e,
            ),
            Ok(path) => if file_exists {
                Ok(path)
            } else {
                Err("Bundled KiCad footprint not found: "@ + plan.1)
            },
        }
    }
}

/// Takes what was found of a planned footprint.
pub fn finish_footprint(plan: FootprintPlan, found: FootprintFound) -> (r: Result<
    String,
    ComponentError,
>)
    ensures
        match (
            r,
            found_footprint(plan_view(plan), path_result(found.resolved), found.file_exists),
        ) {
            (Ok(p), Ok(q)) => p@ == q,
            (Err(e), Err(t)) => e.text() == t,
            _ => false,
        },
{
    match plan {
        FootprintPlan::Given(path) => Ok(path),
        FootprintPlan::BesideSymbol(path) => {
            if found.file_exists {
                Ok(path)
            } else {
                let mut message = "Inferred footprint file not found: ".to_owned();
                message.append(path.as_str());
                Err(ComponentError::Failed { message })
            }
        },
        FootprintPlan::Bundled(asked) => match found.resolved {
            Err(e) => {
                let mut message = "Failed to resolve bundled KiCad footprint '".to_owned();
                message.append(asked.as_str());
                message.append("': ");
                message.append(e.as_str());
                Err(ComponentError::Failed { message })
            },
            Ok(path) => {
                if found.file_exists {
                    Ok(path)
                } else {
                    let mut message = "Bundled KiCad footprint not found: ".to_owned();
                    message.append(asked.as_str());
                    Err(ComponentError::Failed { message })
                }
            },
        },
    }
}

} // verus!
