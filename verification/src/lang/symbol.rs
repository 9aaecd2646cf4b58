//! Schematic symbols.

use starlark::collections::SmallMap;
use vstd::prelude::*;

use crate::discovery::asked_whether_directory;
use crate::lang::eval::{load_path_outcome, said, ConfigView, EvalContextConfig};
use crate::lang::value::{refers_below, text_of, Item, Store};
use crate::map::{sort_paths, sorted_paths, SortedMap};
use crate::path::{extension, extension_of, file_stem, file_stem_of, path_join, path_joined};
use crate::resolved::{canonical_or_same, ResolutionResult};
use crate::small_map::{copy_texts, count_texts, distinct, get_text, lemma_place, lemma_put};
use crate::small_map::{new_texts, place, put, put_text, text_at, texts_in, under};
use crate::text::{clone_opt, clone_texts, contains_text, cut_last, decimal, join, joined};
use crate::text::{lemma_texts_push, opt_str, opt_text, rsplit_once, same, strip_suffix, texts};
use crate::text::to_decimal;
use crate::{asked_whether_exists, made_canonical, FileProvider, FileProviderError};

verus! {

/// Another function that a pin can take on.
pub struct SymbolPinAlternate {
    pub name: String,
    pub electrical_type: Option<String>,
    pub graphical_style: Option<String>,
}

/// A pin of a symbol.
pub struct SymbolPin {
    pub name: String,
    pub number: String,
    pub electrical_type: Option<String>,
    pub graphical_style: Option<String>,
    pub hidden: bool,
    pub alternates: Vec<SymbolPinAlternate>,
}

/// The contents of a pin alternate.
pub struct AlternateView {
    pub name: Seq<char>,
    pub electrical_type: Option<Seq<char>>,
    pub graphical_style: Option<Seq<char>>,
}

/// The contents of a pin.
pub struct PinView {
    pub name: Seq<char>,
    pub number: Seq<char>,
    pub electrical_type: Option<Seq<char>>,
    pub graphical_style: Option<Seq<char>>,
    pub hidden: bool,
    pub alternates: Seq<AlternateView>,
}

impl View for SymbolPinAlternate {
    type V = AlternateView;

    open spec fn view(&self) -> AlternateView {
        AlternateView {
            name: self.name@,
            electrical_type: opt_text(self.electrical_type),
            graphical_style: opt_text(self.graphical_style),
        }
    }
}

/// The contents of a list of alternates.
pub open spec fn alternate_views(v: Seq<SymbolPinAlternate>) -> Seq<AlternateView> {
    Seq::new(v.len(), |i: int| v[i]@)
}

impl View for SymbolPin {
    type V = PinView;

    open spec fn view(&self) -> PinView {
        PinView {
            name: self.name@,
            number: self.number@,
            electrical_type: opt_text(self.electrical_type),
            graphical_style: opt_text(self.graphical_style),
            hidden: self.hidden,
            alternates: alternate_views(self.alternates@),
        }
    }
}

/// The contents of a list of pins.
pub open spec fn pin_views(v: Seq<SymbolPin>) -> Seq<PinView> {
    Seq::new(v.len(), |i: int| v[i]@)
}

/// Which pads of a part are connected inside it.
pub struct InternalConnectivity {
    /// Whether pads of the same number are connected.
    pub duplicate_numbers_are_jumpers: bool,
    /// Groups of pads that are connected.
    pub groups: Vec<Vec<String>>,
}

/// The contents of a list of groups.
pub open spec fn group_views(v: Seq<Vec<String>>) -> Seq<Seq<Seq<char>>> {
    Seq::new(v.len(), |i: int| texts(v[i]@))
}

impl InternalConnectivity {
    /// No pads are connected.
    pub fn none() -> (r: InternalConnectivity)
        ensures
            !r.duplicate_numbers_are_jumpers,
            r.groups@.len() == 0,
    {
        InternalConnectivity { duplicate_numbers_are_jumpers: false, groups: Vec::new() }
    }

    /// The same connectivity once more.
    pub fn copy(&self) -> (r: InternalConnectivity)
        ensures
            r.duplicate_numbers_are_jumpers == self.duplicate_numbers_are_jumpers,
            group_views(r.groups@) == group_views(self.groups@),
    {
        let mut groups: Vec<Vec<String>> = Vec::new();
        let mut i: usize = 0;
        while i < self.groups.len()
            invariant
                i <= self.groups@.len(),
                groups@.len() == i,
                forall|k: int| 0 <= k < i ==> texts((#[trigger] groups@[k])@) == texts(self.groups@[k]@),
            decreases self.groups@.len() - i,
        {
            groups.push(clone_texts(&self.groups[i]));
            i += 1;
        }
        proof {
            assert(group_views(groups@) =~= group_views(self.groups@));
        }
        InternalConnectivity {
            duplicate_numbers_are_jumpers: self.duplicate_numbers_are_jumpers,
            groups,
        }
    }
}

/// A schematic symbol.
pub struct SymbolValue {
    pub name: Option<String>,
    /// The signal of each pad.
    pub pad_to_signal: SmallMap<String, String>,
    pub pins: Vec<SymbolPin>,
    /// A stable reference to the symbol's library.
    pub source_uri: Option<String>,
    /// The text of the symbol in its library.
    pub raw_sexp: Option<String>,
    pub properties: SmallMap<String, String>,
    /// Whether the symbol belongs in the bill of materials.
    pub in_bom: bool,
    pub internal_connectivity: InternalConnectivity,
}

/// The contents of a symbol.
pub struct SymbolView {
    pub name: Option<Seq<char>>,
    pub pads: Seq<(Seq<char>, Seq<char>)>,
    pub pins: Seq<PinView>,
    pub source_uri: Option<Seq<char>>,
    pub raw_sexp: Option<Seq<char>>,
    pub properties: Seq<(Seq<char>, Seq<char>)>,
    pub in_bom: bool,
    pub jumpers: bool,
    pub groups: Seq<Seq<Seq<char>>>,
}

impl View for SymbolValue {
    type V = SymbolView;

    open spec fn view(&self) -> SymbolView {
        SymbolView {
            name: opt_text(self.name),
            pads: texts_in(self.pad_to_signal),
            pins: pin_views(self.pins@),
            source_uri: opt_text(self.source_uri),
            raw_sexp: opt_text(self.raw_sexp),
            properties: texts_in(self.properties),
            in_bom: self.in_bom,
            jumpers: self.internal_connectivity.duplicate_numbers_are_jumpers,
            groups: group_views(self.internal_connectivity.groups@),
        }
    }
}

/// The signals of a symbol's pads, in order.
pub open spec fn signals_of(pads: Seq<(Seq<char>, Seq<char>)>) -> Seq<Seq<char>> {
    Seq::new(pads.len(), |i: int| pads[i].1)
}

/// The pin that stands for a pad alone.
pub open spec fn plain_pin(pad: Seq<char>, signal: Seq<char>) -> PinView {
    PinView {
        name: signal,
        number: pad,
        electrical_type: None,
        graphical_style: None,
        hidden: false,
        alternates: Seq::<AlternateView>::empty(),
    }
}

/// The pins of a table of pads.
pub open spec fn plain_pins(pads: Seq<(Seq<char>, Seq<char>)>) -> Seq<PinView> {
    Seq::new(pads.len(), |i: int| plain_pin(pads[i].0, pads[i].1))
}

/// The pins of a table of pads: one per pad, named after its signal.
pub fn symbol_pins_from_pad_map(pad_to_signal: &SmallMap<String, String>) -> (r: Vec<SymbolPin>)
    ensures
        pin_views(r@) == plain_pins(texts_in(*pad_to_signal)),
{
    let ghost all = texts_in(*pad_to_signal);
    let n = count_texts(pad_to_signal);
    let mut out: Vec<SymbolPin> = Vec::new();
    let mut i: usize = 0;
    while i < n
        invariant
            i <= n,
            n == all.len(),
            all == texts_in(*pad_to_signal),
            out@.len() == i,
            forall|k: int| 0 <= k < i ==> (#[trigger] out@[k])@ == plain_pin(all[k].0, all[k].1),
        decreases n - i,
    {
        if let Some((pad, signal)) = text_at(pad_to_signal, i) {
            let pin = SymbolPin {
                name: signal.to_owned(),
                number: pad.to_owned(),
                electrical_type: None,
                graphical_style: None,
                hidden: false,
                alternates: Vec::new(),
            };
            proof {
                assert(pin@.alternates =~= Seq::<AlternateView>::empty());
            }
            out.push(pin);
        }
        i += 1;
    }
    proof {
        assert(pin_views(out@) =~= plain_pins(all));
    }
    out
}

/// The distinct signals of a group of pads, in order; pads without a signal are left out.
pub open spec fn group_signals(pads: Seq<(Seq<char>, Seq<char>)>, group: Seq<Seq<char>>) -> Seq<
    Seq<char>,
>
    decreases group.len(),
{
    if group.len() == 0 {
        Seq::<Seq<char>>::empty()
    } else {
        let r = group_signals(pads, group.drop_last());
        match under(pads, group.last()) {
            Some(signal) => if r.contains(signal) {
                r
            } else {
                r.push(signal)
            },
            None => r,
        }
    }
}

/// The signals of the groups that connect two signals or more.
pub open spec fn jumper_groups(pads: Seq<(Seq<char>, Seq<char>)>, groups: Seq<Seq<Seq<char>>>) -> Seq<
    Seq<Seq<char>>,
>
    decreases groups.len(),
{
    if groups.len() == 0 {
        Seq::<Seq<Seq<char>>>::empty()
    } else {
        let r = jumper_groups(pads, groups.drop_last());
        let g = group_signals(pads, groups.last());
        if g.len() >= 2 {
            r.push(g)
        } else {
            r
        }
    }
}

/// Why a symbol could not be made.
pub enum SymbolError {
    PadListEmpty { signal: String },
    PadTaken { pad: String, signal: String },
    DefinitionNotList,
    EntryNotTuple,
    EntryLength,
    SignalNotText,
    PadsNotList,
    PadNotText,
    PositionalNotText,
    NoSourcePath,
    NeitherDefinitionNorLibrary,
    SymbolNotFound { name: String, library: String, available: Vec<String> },
    NoSymbols { library: String },
    SeveralSymbols { library: String, available: Vec<String> },
    OutsidePackages { library: String },
    NameGivenTwice,
    LibraryGivenTwice,
    Unresolved { error: String },
    LibraryUnread { library: String, error: String },
    LibraryUnparsed { library: String, error: String },
}

impl SymbolError {
    /// The text of the error.
    pub open spec fn text(&self) -> Seq<char> {
        match *self {
            SymbolError::PadListEmpty { signal } => "Pad list for signal '"@ + signal@
                + "' cannot be empty"@,
            SymbolError::PadTaken { pad, signal } => "Pad '"@ + pad@
                + "' is already assigned to signal '"@ + signal@ + "'"@,
            SymbolError::DefinitionNotList => "`definition` must be a list of (signal_name, [pad_names]) tuples"@,
            SymbolError::EntryNotTuple => "Each definition item must be a tuple of (signal_name, [pad_names])"@,
            SymbolError::EntryLength => "Each definition tuple must have exactly 2 elements: (signal_name, [pad_names])"@,
            SymbolError::SignalNotText => "Signal name must be a string"@,
            SymbolError::PadsNotList => "Pad names must be a list"@,
            SymbolError::PadNotText => "Pad name must be a string"@,
            SymbolError::PositionalNotText => "Positional argument must be a string"@,
            SymbolError::NoSourcePath => "No source path available"@,
            SymbolError::NeitherDefinitionNorLibrary =>
            "Symbol requires either 'definition' or 'library' parameter"@,
            SymbolError::SymbolNotFound { name, library, available } => "Symbol '"@ + name@
                + "' not found in library '"@ + library@ + "'. Available symbols: "@ + joined(
                texts(available@),
                ", "@,
            ),
            SymbolError::NoSymbols { library } => "No symbols found in library '"@ + library@ + "'"@,
            SymbolError::SeveralSymbols { library, available } => "Library '"@ + library@
                + "' contains "@ + decimal(available@.len())
                + " symbols. Please specify which one with the 'name' parameter. Available symbols: "@
                + joined(texts(available@), ", "@),
            SymbolError::OutsidePackages { library } => "Symbol library '"@ + library@
                + "' must resolve inside a workspace or dependency package"@,
            SymbolError::NameGivenTwice =>
            "Cannot specify both positional 'library:name' argument and named 'library' or 'name' parameters"@,
            SymbolError::LibraryGivenTwice =>
            "Cannot specify both positional library argument and named 'library' parameter"@,
            SymbolError::Unresolved { error } => "Failed to resolve library path: "@ + error@,
            SymbolError::LibraryUnread { library, error } => "Failed to read symbol library '"@
                + library@ + "': "@ + error@,
            SymbolError::LibraryUnparsed { library, error } => "Failed to parse symbol library "@
                + library@ + ": "@ + error@,
        }
    }

    /// The text of the error.
    pub fn message(&self) -> (r: String)
        ensures
            r@ == self.text(),
    {
        match self {
            SymbolError::PadListEmpty { signal } => {
                let mut out = "Pad list for signal '".to_owned();
                out.append(signal.as_str());
                out.append("' cannot be empty");
                out
            },
            SymbolError::PadTaken { pad, signal } => {
                let mut out = "Pad '".to_owned();
                out.append(pad.as_str());
                out.append("' is already assigned to signal '");
                out.append(signal.as_str());
                out.append("'");
                out
            },
            SymbolError::DefinitionNotList => "`definition` must be a list of (signal_name, [pad_names]) tuples".to_owned(),
            SymbolError::EntryNotTuple => "Each definition item must be a tuple of (signal_name, [pad_names])".to_owned(),
            SymbolError::EntryLength => "Each definition tuple must have exactly 2 elements: (signal_name, [pad_names])".to_owned(),
            SymbolError::SignalNotText => "Signal name must be a string".to_owned(),
            SymbolError::PadsNotList => "Pad names must be a list".to_owned(),
            SymbolError::PadNotText => "Pad name must be a string".to_owned(),
            SymbolError::PositionalNotText => "Positional argument must be a string".to_owned(),
            SymbolError::NoSourcePath => "No source path available".to_owned(),
            SymbolError::NeitherDefinitionNorLibrary =>
            "Symbol requires either 'definition' or 'library' parameter".to_owned(),
            SymbolError::SymbolNotFound { name, library, available } => {
                let mut out = "Symbol '".to_owned();
                out.append(name.as_str());
                out.append("' not found in library '");
                out.append(library.as_str());
                out.append("'. Available symbols: ");
                let names = join(available, ", ");
                out.append(names.as_str());
                out
            },
            SymbolError::NoSymbols { library } => {
                let mut out = "No symbols found in library '".to_owned();
                out.append(library.as_str());
                out.append("'");
                out
            },
            SymbolError::SeveralSymbols { library, available } => {
                let mut out = "Library '".to_owned();
                out.append(library.as_str());
                out.append("' contains ");
                let n = to_decimal(available.len() as u64);
                out.append(n.as_str());
                out.append(
                    " symbols. Please specify which one with the 'name' parameter. Available symbols: ",
                );
                let names = join(available, ", ");
                out.append(names.as_str());
                out
            },
            SymbolError::OutsidePackages { library } => {
                let mut out = "Symbol library '".to_owned();
                out.append(library.as_str());
                out.append("' must resolve inside a workspace or dependency package");
                out
            },
            SymbolError::NameGivenTwice =>
            "Cannot specify both positional 'library:name' argument and named 'library' or 'name' parameters".to_owned(),
            SymbolError::LibraryGivenTwice =>
            "Cannot specify both positional library argument and named 'library' parameter".to_owned(),
            SymbolError::Unresolved { error } => {
                let mut out = "Failed to resolve library path: ".to_owned();
                out.append(error.as_str());
                out
            },
            SymbolError::LibraryUnread { library, error } => {
                let mut out = "Failed to read symbol library '".to_owned();
                out.append(library.as_str());
                out.append("': ");
                out.append(error.as_str());
                out
            },
            SymbolError::LibraryUnparsed { library, error } => {
                let mut out = "Failed to parse symbol library ".to_owned();
                out.append(library.as_str());
                out.append(": ");
                out.append(error.as_str());
                out
            },
        }
    }
}

/// The table after some pads of a signal were added; an error where a pad is no name or is taken.
pub open spec fn with_pads(
    items: Seq<Item>,
    table: Seq<(Seq<char>, Seq<char>)>,
    signal: Seq<char>,
    pads: Seq<usize>,
) -> Result<Seq<(Seq<char>, Seq<char>)>, Seq<char>>
    decreases pads.len(),
{
    if pads.len() == 0 {
        Ok(table)
    } else {
        match with_pads(items, table, signal, pads.drop_last()) {
            Err(e) => Err(e),
            Ok(t) => match text_of(items[pads.last() as int]) {
                None => Err("Pad name must be a string"@),
                Some(pad) => match under(t, pad) {
                    Some(taken) => Err(
                        "Pad '"@ + pad + "' is already assigned to signal '"@ + taken + "'"@,
                    ),
                    None => Ok(put(t, pad, signal)),
                },
            },
        }
    }
}

/// The table after an entry of a definition was added.
pub open spec fn with_entry(items: Seq<Item>, table: Seq<(Seq<char>, Seq<char>)>, h: usize) -> Result<
    Seq<(Seq<char>, Seq<char>)>,
    Seq<char>,
> {
    match items[h as int] {
        Item::Tuple(v) => if v@.len() != 2 {
            Err(
                "Each definition tuple must have exactly 2 elements: (signal_name, [pad_names])"@,
            )
        } else {
            match text_of(items[v@[0] as int]) {
                None => Err("Signal name must be a string"@),
                Some(signal) => match items[v@[1] as int] {
                    Item::List(pads) => if pads@.len() == 0 {
                        Err("Pad list for signal '"@ + signal + "' cannot be empty"@)
                    } else {
                        with_pads(items, table, signal, pads@)
                    },
                    _ => Err("Pad names must be a list"@),
                },
            }
        },
        _ => Err("Each definition item must be a tuple of (signal_name, [pad_names])"@),
    }
}

/// The table of the entries of a definition; the first error, where there is one.
pub open spec fn defined_pads(items: Seq<Item>, v: Seq<usize>) -> Result<
    Seq<(Seq<char>, Seq<char>)>,
    Seq<char>,
>
    decreases v.len(),
{
    if v.len() == 0 {
        Ok(Seq::<(Seq<char>, Seq<char>)>::empty())
    } else {
        match defined_pads(items, v.drop_last()) {
            Ok(t) => with_entry(items, t, v.last()),
            Err(e) => Err(e),
        }
    }
}

/// The table of a definition.
pub open spec fn definition_table(items: Seq<Item>, h: usize) -> Result<
    Seq<(Seq<char>, Seq<char>)>,
    Seq<char>,
> {
    match items[h as int] {
        Item::List(v) => defined_pads(items, v@),
        _ => Err("`definition` must be a list of (signal_name, [pad_names]) tuples"@),
    }
}

proof fn lemma_with_pads_fails(
    items: Seq<Item>,
    t: Seq<(Seq<char>, Seq<char>)>,
    signal: Seq<char>,
    pads: Seq<usize>,
    k: int,
)
    requires
        0 <= k <= pads.len(),
        with_pads(items, t, signal, pads.take(k)) is Err,
    ensures
        with_pads(items, t, signal, pads) == with_pads(items, t, signal, pads.take(k)),
    decreases pads.len(),
{
    if k == pads.len() {
        assert(pads.take(k) =~= pads);
    } else {
        assert(pads.drop_last().take(k) =~= pads.take(k));
        lemma_with_pads_fails(items, t, signal, pads.drop_last(), k);
    }
}

proof fn lemma_defined_pads_fails(items: Seq<Item>, v: Seq<usize>, k: int)
    requires
        0 <= k <= v.len(),
        defined_pads(items, v.take(k)) is Err,
    ensures
        defined_pads(items, v) == defined_pads(items, v.take(k)),
    decreases v.len(),
{
    if k == v.len() {
        assert(v.take(k) =~= v);
    } else {
        assert(v.drop_last().take(k) =~= v.take(k));
        lemma_defined_pads_fails(items, v.drop_last(), k);
    }
}

/// Adds pads of a signal to a table.
fn add_pads(
    store: &Store,
    table: &mut SmallMap<String, String>,
    signal: &str,
    pads: &Vec<usize>,
) -> (r: Result<(), SymbolError>)
    requires
        distinct(texts_in(*old(table))),
        forall|i: int| 0 <= i < pads@.len() ==> (#[trigger] pads@[i]) < store.items@.len(),
    ensures
        match (r, with_pads(store.items@, texts_in(*old(table)), signal@, pads@)) {
            (Ok(_), Ok(t)) => t == texts_in(*final(table)) && distinct(t),
            (Err(e), Err(t)) => e.text() == t,
            _ => false,
        },
{
    let ghost items = store.items@;
    let ghost all = pads@;
    let ghost first = texts_in(*table);
    let mut i: usize = 0;
    proof {
        assert(all.take(0) =~= Seq::<usize>::empty());
    }
    while i < pads.len()
        invariant
            i <= pads@.len(),
            items == store.items@,
            all == pads@,
            forall|k: int| 0 <= k < pads@.len() ==> (#[trigger] pads@[k]) < store.items@.len(),
            distinct(texts_in(*table)),
            first == texts_in(*old(table)),
            with_pads(items, first, signal@, all.take(i as int)) == Ok::<
                Seq<(Seq<char>, Seq<char>)>,
                Seq<char>,
            >(texts_in(*table)),
        decreases pads@.len() - i,
    {
        proof {
            assert(all.take(i + 1).drop_last() =~= all.take(i as int));
            assert(all.take(i + 1).last() == all[i as int]);
        }
        let pad = match store.text(pads[i]) {
            Some(s) => s,
            None => {
                proof {
                    assert(with_pads(items, first, signal@, all.take(i + 1)) is Err);
                    lemma_with_pads_fails(items, first, signal@, all, i + 1);
                }
                return Err(SymbolError::PadNotText);
            },
        };
        proof {
            lemma_put(texts_in(*table), pad@, signal@);
        }
        if let Some(taken) = get_text(table, pad) {
            let e = SymbolError::PadTaken { pad: pad.to_owned(), signal: taken.to_owned() };
            proof {
                assert(with_pads(items, first, signal@, all.take(i + 1)) is Err);
                lemma_with_pads_fails(items, first, signal@, all, i + 1);
            }
            return Err(e);
        }
        put_text(table, pad.to_owned(), signal.to_owned());
        i += 1;
    }
    proof {
        assert(all.take(all.len() as int) =~= all);
    }
    Ok(())
}

/// Adds an entry of a definition to a table.
fn add_entry(store: &Store, table: &mut SmallMap<String, String>, h: usize) -> (r: Result<
    (),
    SymbolError,
>)
    requires
        store.wf(),
        h < store.items@.len(),
        distinct(texts_in(*old(table))),
    ensures
        match (r, with_entry(store.items@, texts_in(*old(table)), h)) {
            (Ok(_), Ok(t)) => t == texts_in(*final(table)) && distinct(t),
            (Err(e), Err(t)) => e.text() == t,
            _ => false,
        },
{
    proof {
        assert(refers_below(store.items@[h as int], h as int));
    }
    let v = match &store.items[h] {
        Item::Tuple(v) => v,
        _ => return Err(SymbolError::EntryNotTuple),
    };
    if v.len() != 2 {
        return Err(SymbolError::EntryLength);
    }
    let (first, second): (usize, usize) = (v[0], v[1]);
    let signal = match store.text(first) {
        Some(s) => s,
        None => return Err(SymbolError::SignalNotText),
    };
    proof {
        assert(refers_below(store.items@[second as int], second as int));
    }
    match &store.items[second] {
        Item::List(pads) => {
            if pads.len() == 0 {
                return Err(SymbolError::PadListEmpty { signal: signal.to_owned() });
            }
            add_pads(store, table, signal, pads)
        },
        _ => Err(SymbolError::PadsNotList),
    }
}

/// A symbol of a KiCad library, as far as it is read.
pub struct EdaSymbol {
    pub name: String,
    pub pins: Vec<EdaPin>,
    pub in_bom: bool,
    pub internal_connectivity: InternalConnectivity,
}

/// A pin of a symbol of a KiCad library, with the name of its signal.
pub struct EdaPin {
    pub pin: SymbolPin,
    pub signal: String,
}

/// The pads of a list of pins: the first pin of a number names its signal.
pub open spec fn first_signals(v: Seq<EdaPin>) -> Seq<(Seq<char>, Seq<char>)>
    decreases v.len(),
{
    if v.len() == 0 {
        Seq::<(Seq<char>, Seq<char>)>::empty()
    } else {
        let r = first_signals(v.drop_last());
        let p = v.last();
        if under(r, p.pin.number@) is Some {
            r
        } else {
            put(r, p.pin.number@, p.signal@)
        }
    }
}

/// The symbol that a library's symbol becomes.
pub open spec fn library_symbol(
    symbol: EdaSymbol,
    source_uri: Option<Seq<char>>,
    raw_sexp: Option<Seq<char>>,
    properties: Seq<(Seq<char>, Seq<char>)>,
) -> SymbolView {
    SymbolView {
        name: Some(symbol.name@),
        pads: first_signals(symbol.pins@),
        pins: library_pins(symbol.pins@),
        source_uri,
        raw_sexp,
        properties,
        in_bom: symbol.in_bom,
        jumpers: symbol.internal_connectivity.duplicate_numbers_are_jumpers,
        groups: group_views(symbol.internal_connectivity.groups@),
    }
}

/// The pins of a list of library pins.
pub open spec fn library_pins(v: Seq<EdaPin>) -> Seq<PinView> {
    Seq::new(v.len(), |i: int| v[i].pin@)
}

impl SymbolPin {
    /// Another pin with the same contents.
    pub fn copy(&self) -> (r: SymbolPin)
        ensures
            r@ == self@,
    {
        let mut alternates: Vec<SymbolPinAlternate> = Vec::new();
        let mut i: usize = 0;
        while i < self.alternates.len()
            invariant
                i <= self.alternates@.len(),
                alternates@.len() == i,
                forall|k: int| 0 <= k < i ==> (#[trigger] alternates@[k])@ == self.alternates@[k]@,
            decreases self.alternates@.len() - i,
        {
            let a = &self.alternates[i];
            alternates.push(
                SymbolPinAlternate {
                    name: a.name.clone(),
                    electrical_type: clone_opt(&a.electrical_type),
                    graphical_style: clone_opt(&a.graphical_style),
                },
            );
            i += 1;
        }
        proof {
            assert(alternate_views(alternates@) =~= alternate_views(self.alternates@));
        }
        SymbolPin {
            name: self.name.clone(),
            number: self.number.clone(),
            electrical_type: clone_opt(&self.electrical_type),
            graphical_style: clone_opt(&self.graphical_style),
            hidden: self.hidden,
            alternates,
        }
    }
}

impl SymbolValue {
    /// The invariant: no pad and no property stands twice.
    pub open spec fn wf(&self) -> bool {
        distinct(texts_in(self.pad_to_signal)) && distinct(texts_in(self.properties))
    }

    /// The symbol of a definition: a list of signals with their pads.
    pub fn from_definition(store: &Store, name: Option<String>, definition: usize) -> (r: Result<
        SymbolValue,
        SymbolError,
    >)
        requires
            store.wf(),
            definition < store.items@.len(),
        ensures
            match (r, definition_table(store.items@, definition)) {
                (Ok(s), Ok(pads)) => s.wf() && s@ == (SymbolView {
                    name: Some(
                        match name {
                            Some(n) => n@,
                            None => "Symbol"@,
                        },
                    ),
                    pads,
                    pins: plain_pins(pads),
                    source_uri: None,
                    raw_sexp: None,
                    properties: Seq::<(Seq<char>, Seq<char>)>::empty(),
                    in_bom: true,
                    jumpers: false,
                    groups: Seq::<Seq<Seq<char>>>::empty(),
                }),
                (Err(e), Err(t)) => e.text() == t,
                _ => false,
            },
    {
        proof {
            assert(refers_below(store.items@[definition as int], definition as int));
        }
        let list = match &store.items[definition] {
            Item::List(v) => v,
            _ => return Err(SymbolError::DefinitionNotList),
        };
        let ghost items = store.items@;
        let ghost all = list@;
        let mut table = new_texts();
        let mut i: usize = 0;
        proof {
            assert(all.take(0) =~= Seq::<usize>::empty());
        }
        while i < list.len()
            invariant
                i <= list@.len(),
                store.wf(),
                items == store.items@,
                items[definition as int] == Item::List(*list),
                all == list@,
                forall|k: int| 0 <= k < list@.len() ==> (#[trigger] list@[k]) < store.items@.len(),
                distinct(texts_in(table)),
                defined_pads(items, all.take(i as int)) == Ok::<
                    Seq<(Seq<char>, Seq<char>)>,
                    Seq<char>,
                >(texts_in(table)),
            decreases list@.len() - i,
        {
            proof {
                assert(all.take(i + 1).drop_last() =~= all.take(i as int));
                assert(all.take(i + 1).last() == all[i as int]);
            }
            let ghost prior = texts_in(table);
            if let Err(e) = add_entry(store, &mut table, list[i]) {
                proof {
                    assert(defined_pads(items, all.take(i + 1)) == with_entry(
                        items,
                        prior,
                        all[i as int],
                    ));
                    lemma_defined_pads_fails(items, all, i + 1);
                }
                return Err(e);
            }
            i += 1;
        }
        proof {
            assert(all.take(all.len() as int) =~= all);
        }
        let name = match name {
            Some(n) => n,
            None => "Symbol".to_owned(),
        };
        let r = SymbolValue::from_pads(table);
        let r = SymbolValue { name: Some(name), ..r };
        Ok(r)
    }

    /// A symbol that is its pads alone.
    pub fn from_pads(pad_to_signal: SmallMap<String, String>) -> (r: SymbolValue)
        requires
            distinct(texts_in(pad_to_signal)),
        ensures
            r.wf(),
            r@ == pads_alone(texts_in(pad_to_signal)),
    {
        let pins = symbol_pins_from_pad_map(&pad_to_signal);
        let r = SymbolValue {
            name: None,
            pad_to_signal,
            pins,
            source_uri: None,
            raw_sexp: None,
            properties: new_texts(),
            in_bom: true,
            internal_connectivity: InternalConnectivity::none(),
        };
        proof {
            assert(r@.groups =~= Seq::<Seq<Seq<char>>>::empty());
        }
        r
    }

    /// The symbol of a KiCad library.
    pub fn from_eda_symbol(
        symbol: &EdaSymbol,
        source_uri: Option<String>,
        raw_sexp: Option<String>,
        properties: SmallMap<String, String>,
    ) -> (r: SymbolValue)
        requires
            distinct(texts_in(properties)),
        ensures
            r.wf(),
            r@ == library_symbol(
                *symbol,
                opt_text(source_uri),
                opt_text(raw_sexp),
                texts_in(properties),
            ),
    {
        let mut pads = new_texts();
        let mut pins: Vec<SymbolPin> = Vec::new();
        let mut i: usize = 0;
        proof {
            assert(symbol.pins@.take(0) =~= Seq::<EdaPin>::empty());
        }
        while i < symbol.pins.len()
            invariant
                i <= symbol.pins@.len(),
                pins@.len() == i,
                forall|k: int| 0 <= k < i ==> (#[trigger] pins@[k])@ == symbol.pins@[k].pin@,
                distinct(texts_in(pads)),
                texts_in(pads) == first_signals(symbol.pins@.take(i as int)),
            decreases symbol.pins@.len() - i,
        {
            let p = &symbol.pins[i];
            proof {
                assert(symbol.pins@.take(i + 1).drop_last() =~= symbol.pins@.take(i as int));
                assert(symbol.pins@.take(i + 1).last() == symbol.pins@[i as int]);
                lemma_put(texts_in(pads), p.pin.number@, p.signal@);
            }
            if get_text(&pads, p.pin.number.as_str()).is_none() {
                put_text(&mut pads, p.pin.number.clone(), p.signal.clone());
            }
            pins.push(p.pin.copy());
            i += 1;
        }
        proof {
            assert(symbol.pins@.take(symbol.pins@.len() as int) =~= symbol.pins@);
            assert(pin_views(pins@) =~= library_pins(symbol.pins@));
        }
        SymbolValue {
            name: Some(symbol.name.clone()),
            pad_to_signal: pads,
            pins,
            source_uri,
            raw_sexp,
            properties,
            in_bom: symbol.in_bom,
            internal_connectivity: symbol.internal_connectivity.copy(),
        }
    }

    /// The symbol with other pads.
    pub fn with_pads(&self, pad_to_signal: SmallMap<String, String>) -> (r: SymbolValue)
        requires
            self.wf(),
            distinct(texts_in(pad_to_signal)),
        ensures
            r.wf(),
            r@ == (SymbolView { pads: texts_in(pad_to_signal), ..self@ }),
    {
        let mut pins: Vec<SymbolPin> = Vec::new();
        let mut i: usize = 0;
        while i < self.pins.len()
            invariant
                i <= self.pins@.len(),
                pins@.len() == i,
                forall|k: int| 0 <= k < i ==> (#[trigger] pins@[k])@ == self.pins@[k]@,
            decreases self.pins@.len() - i,
        {
            pins.push(self.pins[i].copy());
            i += 1;
        }
        proof {
            assert(pin_views(pins@) =~= pin_views(self.pins@));
        }
        SymbolValue {
            name: clone_opt(&self.name),
            pad_to_signal,
            pins,
            source_uri: clone_opt(&self.source_uri),
            raw_sexp: clone_opt(&self.raw_sexp),
            properties: copy_texts(&self.properties),
            in_bom: self.in_bom,
            internal_connectivity: self.internal_connectivity.copy(),
        }
    }

    /// Another symbol with the same contents.
    pub fn copy(&self) -> (r: SymbolValue)
        requires
            self.wf(),
        ensures
            r.wf(),
            r@ == self@,
    {
        let pads = copy_texts(&self.pad_to_signal);
        self.with_pads(pads)
    }

    /// The symbol's name.
    pub fn name(&self) -> (r: Option<&str>)
        ensures
            opt_str(r) == self@.name,
    {
        crate::text::as_opt_str(&self.name)
    }

    /// The signal of each pad.
    pub fn pad_to_signal(&self) -> (r: &SmallMap<String, String>)
        ensures
            *r == self.pad_to_signal,
    {
        &self.pad_to_signal
    }

    /// The symbol's pins.
    pub fn pins(&self) -> (r: &Vec<SymbolPin>)
        ensures
            *r == self.pins,
    {
        &self.pins
    }

    /// A stable reference to the symbol's library.
    pub fn source_uri(&self) -> (r: Option<&str>)
        ensures
            opt_str(r) == self@.source_uri,
    {
        crate::text::as_opt_str(&self.source_uri)
    }

    /// The text of the symbol in its library.
    pub fn raw_sexp(&self) -> (r: Option<&str>)
        ensures
            opt_str(r) == self@.raw_sexp,
    {
        crate::text::as_opt_str(&self.raw_sexp)
    }

    /// The symbol's properties.
    pub fn properties(&self) -> (r: &SmallMap<String, String>)
        ensures
            *r == self.properties,
    {
        &self.properties
    }

    /// Which pads are connected inside the part.
    pub fn internal_connectivity(&self) -> (r: &InternalConnectivity)
        ensures
            *r == self.internal_connectivity,
    {
        &self.internal_connectivity
    }

    /// The signals of the pads, in order; one that has several pads stands several times.
    pub fn signal_names(&self) -> (r: Vec<String>)
        ensures
            texts(r@) == signals_of(self@.pads),
    {
        let ghost all = texts_in(self.pad_to_signal);
        let n = count_texts(&self.pad_to_signal);
        let mut out: Vec<String> = Vec::new();
        let mut i: usize = 0;
        while i < n
            invariant
                i <= n,
                n == all.len(),
                all == texts_in(self.pad_to_signal),
                out@.len() == i,
                forall|k: int| 0 <= k < i ==> (#[trigger] out@[k])@ == all[k].1,
            decreases n - i,
        {
            if let Some((_, signal)) = text_at(&self.pad_to_signal, i) {
                out.push(signal.to_owned());
            }
            i += 1;
        }
        proof {
            assert(texts(out@) =~= signals_of(all));
        }
        out
    }

    /// The signals that the part connects inside, group by group; a group of fewer than two signals
    /// is none.
    pub fn explicit_jumper_signal_groups(&self) -> (r: Vec<Vec<String>>)
        ensures
            group_views(r@) == jumper_groups(self@.pads, self@.groups),
    {
        let ghost groups = group_views(self.internal_connectivity.groups@);
        let ghost pads = texts_in(self.pad_to_signal);
        let mut out: Vec<Vec<String>> = Vec::new();
        let mut i: usize = 0;
        proof {
            assert(groups.take(0) =~= Seq::<Seq<Seq<char>>>::empty());
            assert(group_views(out@) =~= Seq::<Seq<Seq<char>>>::empty());
        }
        while i < self.internal_connectivity.groups.len()
            invariant
                i <= self.internal_connectivity.groups@.len(),
                groups == group_views(self.internal_connectivity.groups@),
                pads == texts_in(self.pad_to_signal),
                group_views(out@) == jumper_groups(pads, groups.take(i as int)),
            decreases self.internal_connectivity.groups@.len() - i,
        {
            let group = &self.internal_connectivity.groups[i];
            proof {
                assert(groups.take(i + 1).drop_last() =~= groups.take(i as int));
                assert(groups.take(i + 1).last() == texts(group@));
            }
            let signals = self.signals_of_group(group);
            proof {
                assert(texts(signals@).len() == signals@.len());
            }
            if signals.len() >= 2 {
                let ghost prior = group_views(out@);
                let ghost s = texts(signals@);
                out.push(signals);
                proof {
                    assert(group_views(out@) =~= prior.push(s));
                }
            }
            i += 1;
        }
        proof {
            assert(groups.take(groups.len() as int) =~= groups);
        }
        out
    }

    /// The distinct signals of a group of pads.
    fn signals_of_group(&self, group: &Vec<String>) -> (r: Vec<String>)
        ensures
            texts(r@) == group_signals(self@.pads, texts(group@)),
    {
        let ghost all = texts(group@);
        let mut out: Vec<String> = Vec::new();
        let mut i: usize = 0;
        proof {
            assert(all.take(0) =~= Seq::<Seq<char>>::empty());
            assert(texts(out@) =~= Seq::<Seq<char>>::empty());
        }
        while i < group.len()
            invariant
                i <= group@.len(),
                all == texts(group@),
                texts(out@) == group_signals(self@.pads, all.take(i as int)),
            decreases group@.len() - i,
        {
            proof {
                assert(all.take(i + 1).drop_last() =~= all.take(i as int));
                assert(all.take(i + 1).last() == group@[i as int]@);
            }
            if let Some(signal) = get_text(&self.pad_to_signal, group[i].as_str()) {
                if !contains_text(&out, signal) {
                    let s = signal.to_owned();
                    proof {
                        lemma_texts_push(out@, s);
                    }
                    out.push(s);
                }
            }
            i += 1;
        }
        proof {
            assert(all.take(all.len() as int) =~= all);
        }
        out
    }
}

/// The contents of a symbol that is its pads alone.
pub open spec fn pads_alone(pads: Seq<(Seq<char>, Seq<char>)>) -> SymbolView {
    SymbolView {
        name: None,
        pads,
        pins: plain_pins(pads),
        source_uri: None,
        raw_sexp: None,
        properties: Seq::<(Seq<char>, Seq<char>)>::empty(),
        in_bom: true,
        jumpers: false,
        groups: Seq::<Seq<Seq<char>>>::empty(),
    }
}

pub proof fn lemma_group_signals(pads: Seq<(Seq<char>, Seq<char>)>, group: Seq<Seq<char>>)
    ensures
        group_signals(pads, group).no_duplicates(),
        forall|s: Seq<char>|
            #[trigger] group_signals(pads, group).contains(s) <==> exists|i: int|
                0 <= i < group.len() && under(pads, #[trigger] group[i]) == Some(s),
    decreases group.len(),
{
    if group.len() > 0 {
        let t = group.drop_last();
        lemma_group_signals(pads, t);
        let r = group_signals(pads, t);
        let g = group_signals(pads, group);
        if let Some(signal) = under(pads, group.last()) {
            if !r.contains(signal) {
                assert(g == r.push(signal));
                assert forall|i: int, j: int| 0 <= i < j < g.len() implies g[i] != g[j] by {
                    if j == r.len() {
                        assert(r.contains(r[i]));
                    }
                }
            }
        }
        assert forall|s: Seq<char>|
            #[trigger] g.contains(s) <==> exists|i: int|
                0 <= i < group.len() && under(pads, #[trigger] group[i]) == Some(s) by {
            if g.contains(s) {
                if r.contains(s) {
                    let i = choose|i: int| 0 <= i < t.len() && under(pads, #[trigger] t[i]) == Some(s);
                    assert(t[i] == group[i]);
                } else {
                    assert(under(pads, group[group.len() - 1]) == Some(s));
                }
            }
            if exists|i: int| 0 <= i < group.len() && under(pads, #[trigger] group[i]) == Some(s) {
                let i = choose|i: int|
                    0 <= i < group.len() && under(pads, #[trigger] group[i]) == Some(s);
                if i < t.len() {
                    assert(t[i] == group[i]);
                    assert(r.contains(s));
                    let j = choose|j: int| 0 <= j < r.len() && r[j] == s;
                    assert(g[j] == s);
                } else if !r.contains(s) {
                    assert(g[g.len() - 1] == s);
                } else {
                    assert(g == r);
                }
            }
        }
    }
}

/// A group of connected signals holds at least two, none of them twice, and each is the signal of
/// one of the group's pads.
pub proof fn law_jumper_groups(
    pads: Seq<(Seq<char>, Seq<char>)>,
    groups: Seq<Seq<Seq<char>>>,
    k: int,
)
    requires
        0 <= k < jumper_groups(pads, groups).len(),
    ensures
        jumper_groups(pads, groups)[k].len() >= 2,
        jumper_groups(pads, groups)[k].no_duplicates(),
        forall|s: Seq<char>| #[trigger]
            jumper_groups(pads, groups)[k].contains(s) ==> signals_of(pads).contains(s),
    decreases groups.len(),
{
    let r = jumper_groups(pads, groups.drop_last());
    let g = group_signals(pads, groups.last());
    lemma_group_signals(pads, groups.last());
    if k < r.len() {
        law_jumper_groups(pads, groups.drop_last(), k);
        assert(jumper_groups(pads, groups)[k] == r[k]);
    } else {
        assert(jumper_groups(pads, groups)[k] == g);
        assert forall|s: Seq<char>| #[trigger] g.contains(s) implies signals_of(pads).contains(
            s,
        ) by {
            let i = choose|i: int|
                0 <= i < groups.last().len() && under(pads, #[trigger] groups.last()[i]) == Some(s);
            lemma_place(pads, groups.last()[i]);
            let p = place(pads, groups.last()[i]);
            assert(signals_of(pads)[p] == s);
        }
    }
}

/// The first pin of a number names the signal of that pad.
pub proof fn law_first_pin_names_pad(v: Seq<EdaPin>, i: int)
    requires
        0 <= i < v.len(),
        forall|j: int| 0 <= j < i ==> (#[trigger] v[j]).pin.number@ != v[i].pin.number@,
    ensures
        under(first_signals(v), v[i].pin.number@) == Some(v[i].signal@),
        distinct(first_signals(v)),
    decreases v.len(),
{
    lemma_first_signals_distinct(v);
    let t = v.drop_last();
    let r = first_signals(t);
    let number = v[i].pin.number@;
    lemma_first_signals_distinct(t);
    lemma_put(r, v.last().pin.number@, v.last().signal@);
    if i < t.len() {
        assert forall|j: int| 0 <= j < i implies (#[trigger] t[j]).pin.number@
            != t[i].pin.number@ by {
            assert(t[j] == v[j]);
        }
        law_first_pin_names_pad(t, i);
    } else {
        lemma_first_signals_known(t, number);
        assert(under(r, number) is None);
        assert(under(put(r, number, v[i].signal@), number) == Some(v[i].signal@));
    }
}

proof fn lemma_first_signals_distinct(v: Seq<EdaPin>)
    ensures
        distinct(first_signals(v)),
    decreases v.len(),
{
    if v.len() > 0 {
        lemma_first_signals_distinct(v.drop_last());
        lemma_put(first_signals(v.drop_last()), v.last().pin.number@, v.last().signal@);
    }
}

proof fn lemma_first_signals_known(v: Seq<EdaPin>, number: Seq<char>)
    requires
        forall|j: int| 0 <= j < v.len() ==> (#[trigger] v[j]).pin.number@ != number,
    ensures
        under(first_signals(v), number) is None,
    decreases v.len(),
{
    if v.len() > 0 {
        let t = v.drop_last();
        assert forall|j: int| 0 <= j < t.len() implies (#[trigger] t[j]).pin.number@ != number by {
            assert(t[j] == v[j]);
        }
        lemma_first_signals_known(t, number);
        lemma_first_signals_distinct(t);
        assert(v[v.len() - 1].pin.number@ != number);
        lemma_put(first_signals(t), v.last().pin.number@, v.last().signal@);
    } else {
        lemma_place(first_signals(v), number);
    }
}

// ---------------------------------------------------------------------------------------------
// Where a symbol comes from

/// The library and the name that the arguments of a symbol ask for.
pub open spec fn asked_symbol(
    items: Seq<Item>,
    positional: Option<usize>,
    name: Option<Seq<char>>,
    library: Option<Seq<char>>,
) -> Result<(Option<Seq<char>>, Option<Seq<char>>), Seq<char>> {
    match positional {
        None => Ok((library, name)),
        Some(h) => match text_of(items[h as int]) {
            None => Err("Positional argument must be a string"@),
            Some(spec) => match cut_last(spec, ':') {
                Some(p) => if library is Some || name is Some {
                    Err(
                        "Cannot specify both positional 'library:name' argument and named 'library' or 'name' parameters"@,
                    )
                } else {
                    Ok((Some(p.0), Some(p.1)))
                },
                None => if library is Some {
                    Err(
                        "Cannot specify both positional library argument and named 'library' parameter"@,
                    )
                } else {
                    Ok((Some(spec), name))
                },
            },
        },
    }
}

/// Reads the arguments of a symbol: the positional one is a library, or a library and a name with a
/// colon between.
pub fn read_symbol_arguments(
    store: &Store,
    positional: Option<usize>,
    name: Option<String>,
    library: Option<String>,
) -> (r: Result<(Option<String>, Option<String>), SymbolError>)
    requires
        positional is Some ==> positional->Some_0 < store.items@.len(),
    ensures
        match (
            r,
            asked_symbol(store.items@, positional, opt_text(name), opt_text(library)),
        ) {
            (Ok((lib, n)), Ok((l, m))) => opt_text(lib) == l && opt_text(n) == m,
            (Err(e), Err(t)) => e.text() == t,
            _ => false,
        },
{
    let h: usize = match positional {
        Some(h) => h,
        None => return Ok((library, name)),
    };
    let spec = match store.text(h) {
        Some(s) => s,
        None => return Err(SymbolError::PositionalNotText),
    };
    match rsplit_once(spec, ':') {
        Some((lib, part)) => {
            if library.is_some() || name.is_some() {
                Err(SymbolError::NameGivenTwice)
            } else {
                Ok((Some(lib), Some(part)))
            }
        },
        None => {
            if library.is_some() {
                Err(SymbolError::LibraryGivenTwice)
            } else {
                Ok((Some(spec.to_owned()), name))
            }
        },
    }
}

/// Where a symbol is taken from.
pub enum SymbolOrigin {
    /// A definition.
    Definition(usize),
    /// A library, of which the path is to be resolved from a file.
    Library { path: String, current_file: String },
}

/// Decides where a symbol is taken from: a definition counts before a library. `current_file` is the
/// file of the module.
pub fn symbol_origin(
    definition: Option<usize>,
    library: Option<String>,
    current_file: Option<String>,
) -> (r: Result<SymbolOrigin, SymbolError>)
    ensures
        match (definition, library, current_file) {
            (Some(h), _, _) => r == Ok::<SymbolOrigin, SymbolError>(SymbolOrigin::Definition(h)),
            (None, Some(path), Some(current_file)) => r == Ok::<SymbolOrigin, SymbolError>(
                SymbolOrigin::Library { path, current_file },
            ),
            (None, Some(_), None) => r is Err && r->Err_0.text() == "No source path available"@,
            (None, None, _) => r is Err && r->Err_0.text()
                == "Symbol requires either 'definition' or 'library' parameter"@,
        },
{
    if let Some(h) = definition {
        return Ok(SymbolOrigin::Definition(h));
    }
    match (library, current_file) {
        (Some(path), Some(current_file)) => Ok(SymbolOrigin::Library { path, current_file }),
        (Some(_), None) => Err(SymbolError::NoSourcePath),
        (None, _) => Err(SymbolError::NeitherDefinitionNorLibrary),
    }
}

/// Makes a symbol of what a library holds. The library has to stand in a package: `source_uri` is the
/// reference to it.
pub fn finish_library_symbol(
    symbol: &EdaSymbol,
    source_path: &str,
    source_uri: Option<String>,
    raw_sexp: Option<String>,
    properties: SmallMap<String, String>,
) -> (r: Result<SymbolValue, SymbolError>)
    requires
        distinct(texts_in(properties)),
    ensures
        match (r, source_uri) {
            (Ok(s), Some(uri)) => s.wf() && s@ == library_symbol(
                *symbol,
                Some(uri@),
                opt_text(raw_sexp),
                texts_in(properties),
            ),
            (Err(e), None) => e.text() == "Symbol library '"@ + source_path@
                + "' must resolve inside a workspace or dependency package"@,
            _ => false,
        },
{
    match source_uri {
        Some(uri) => Ok(SymbolValue::from_eda_symbol(symbol, Some(uri), raw_sexp, properties)),
        None => Err(SymbolError::OutsidePackages { library: source_path.to_owned() }),
    }
}

/// The symbol of a library that is meant: the one of the name, or the only one.
pub open spec fn meant_symbol(
    requested: Option<Seq<char>>,
    available: Seq<Seq<char>>,
    library: Seq<char>,
) -> Result<Seq<char>, Seq<char>> {
    match requested {
        Some(name) => if available.contains(name) {
            Ok(name)
        } else {
            Err(
                "Symbol '"@ + name + "' not found in library '"@ + library
                    + "'. Available symbols: "@ + joined(available, ", "@),
            )
        },
        None => if available.len() == 1 {
            Ok(available[0])
        } else if available.len() == 0 {
            Err("No symbols found in library '"@ + library + "'"@)
        } else {
            Err(
                "Library '"@ + library + "' contains "@ + decimal(available.len())
                    + " symbols. Please specify which one with the 'name' parameter. Available symbols: "@
                    + joined(available, ", "@),
            )
        },
    }
}

/// Chooses the symbol of a library.
pub fn select_symbol(requested: Option<String>, available: &Vec<String>, library: &str) -> (r: Result<
    String,
    SymbolError,
>)
    ensures
        match (r, meant_symbol(opt_text(requested), texts(available@), library@)) {
            (Ok(s), Ok(t)) => s@ == t,
            (Err(e), Err(t)) => e.text() == t,
            _ => false,
        },
{
    proof {
        assert(texts(available@).len() == available@.len());
    }
    match requested {
        Some(name) => {
            if contains_text(available, name.as_str()) {
                Ok(name)
            } else {
                Err(
                    SymbolError::SymbolNotFound {
                        name,
                        library: library.to_owned(),
                        available: clone_texts(available),
                    },
                )
            }
        },
        None => {
            if available.len() == 1 {
                proof {
                    assert(texts(available@)[0] == available@[0]@);
                }
                Ok(available[0].clone())
            } else if available.len() == 0 {
                Err(SymbolError::NoSymbols { library: library.to_owned() })
            } else {
                let names = clone_texts(available);
                proof {
                    assert(texts(names@).len() == names@.len());
                }
                Err(SymbolError::SeveralSymbols { library: library.to_owned(), available: names })
            }
        },
    }
}

/// Where the symbols of a library stand one per file: the directory in the place of the file.
pub open spec fn split_library_of(library: Seq<char>) -> Option<Seq<char>> {
    if crate::text::ends(library, ".kicad_sym"@) {
        Some(library.take(library.len() - ".kicad_sym"@.len()) + ".kicad_symdir"@)
    } else {
        None
    }
}

/// The directory that can stand in the place of a library file.
pub fn split_library_path(library: &str) -> (r: Option<String>)
    ensures
        opt_text(r) == split_library_of(library@),
{
    match strip_suffix(library, ".kicad_sym") {
        Some(stem) => {
            let mut out = stem.to_owned();
            out.append(".kicad_symdir");
            Some(out)
        },
        None => None,
    }
}

/// Chooses between a library's file and its directory: `file` is what the file's path resolved to,
/// with whether it exists; `directory` is the directory that exists, if one does.
pub fn choose_library_path(
    file: Result<(String, bool), String>,
    directory: Option<String>,
) -> (r: Result<String, SymbolError>)
    ensures
        match (file, r) {
            (Ok((path, true)), Ok(p)) => p == path,
            (Ok((path, false)), Ok(p)) => p == (match directory {
                Some(d) => d,
                None => path,
            }),
            (Err(_), Ok(p)) => directory == Some(p),
            (Err(e), Err(x)) => directory is None && x.text() == "Failed to resolve library path: "@
                + e@,
            _ => false,
        },
{
    match file {
        Ok((path, exists_there)) => {
            if exists_there {
                Ok(path)
            } else {
                match directory {
                    Some(d) => Ok(d),
                    None => Ok(path),
                }
            }
        },
        Err(error) => match directory {
            Some(d) => Ok(d),
            None => Err(SymbolError::Unresolved { error }),
        },
    }
}

/// Whether a file provider says that a path is there, as a file or as a directory, or that it is not.
pub open spec fn found_there<F: FileProvider>(file_provider: &F, path: Seq<char>, r: bool) -> bool {
    ||| r && asked_whether_exists(file_provider, path, true)
    ||| asked_whether_exists(file_provider, path, false) && asked_whether_directory(
        file_provider,
        path,
        r,
    )
}

/// Whether a path is there, as a file or as a directory.
fn is_there<F: FileProvider>(file_provider: &F, path: &str) -> (r: bool)
    ensures
        found_there(file_provider, path@, r),
{
    let known = file_provider.path_exists(path);
    proof {
        assert(call_ensures(F::path_exists, (file_provider, path), known));
    }
    if known {
        return true;
    }
    let directory = file_provider.is_directory(path);
    proof {
        assert(call_ensures(F::is_directory, (file_provider, path), directory));
    }
    directory
}

/// Whether a directory, or none, is what a path leads to from a file: what it resolves to, where that
/// is there.
pub open spec fn directory_found<F: FileProvider>(
    file_provider: &F,
    c: ConfigView,
    resolution: &ResolutionResult,
    path: Seq<char>,
    current_file: Seq<char>,
    directory: Option<Seq<char>>,
) -> bool {
    exists|found: Result<Seq<char>, Seq<char>>| #[trigger]
        load_path_outcome(file_provider, c, resolution, path, current_file, found) && match (
            found,
            directory,
        ) {
            (Err(_), d) => d is None,
            (Ok(p), Some(d)) => d == p && found_there(file_provider, p, true),
            (Ok(p), None) => found_there(file_provider, p, false),
        }
}

/// Whether a directory, or none, is the one that is there in the place of a library file.
pub open spec fn split_library_found<F: FileProvider>(
    file_provider: &F,
    c: ConfigView,
    resolution: &ResolutionResult,
    library: Seq<char>,
    current_file: Seq<char>,
    directory: Option<Seq<char>>,
) -> bool {
    match split_library_of(library) {
        None => directory is None,
        Some(split) => directory_found(
            file_provider,
            c,
            resolution,
            split,
            current_file,
            directory,
        ),
    }
}

/// The directory that is there in the place of a library file.
fn existing_split_symbol_library_path<F: FileProvider>(
    library_path: &str,
    config: &EvalContextConfig,
    file_provider: &F,
    resolution: &ResolutionResult,
    current_file: &str,
) -> (r: Option<String>)
    requires
        resolution.wf(),
    ensures
        split_library_found(
            file_provider,
            config@,
            resolution,
            library_path@,
            current_file@,
            opt_text(r),
        ),
{
    let split = match split_library_path(library_path) {
        Some(split) => split,
        None => return None,
    };
    let found = config.resolve_path(file_provider, resolution, split.as_str(), current_file);
    let ghost heard = said(found);
    let mut r: Option<String> = None;
    if let Ok(p) = found {
        if is_there(file_provider, p.as_str()) {
            r = Some(p);
        }
    }
    proof {
        let directory = opt_text(r);
        assert(load_path_outcome(
            file_provider,
            config@,
            resolution,
            split@,
            current_file@,
            heard,
        ));
        assert(directory_found(
            file_provider,
            config@,
            resolution,
            split@,
            current_file@,
            directory,
        ));
    }
    r
}

/// Whether a path, or the text of an error, is what the path of a symbol library leads to from a
/// file: the file that it resolves to, where that is there; else the directory in its place, where
/// one is there; else that file all the same. It is an error where the path does not resolve and no
/// directory is there.
pub open spec fn library_outcome<F: FileProvider>(
    file_provider: &F,
    c: ConfigView,
    resolution: &ResolutionResult,
    library: Seq<char>,
    current_file: Seq<char>,
    file: Result<Seq<char>, Seq<char>>,
    r: Result<Seq<char>, Seq<char>>,
) -> bool {
    &&& load_path_outcome(file_provider, c, resolution, library, current_file, file)
    &&& (file is Ok && found_there(file_provider, file->Ok_0, true) && r == file) || ((file is Ok
        ==> found_there(file_provider, file->Ok_0, false)) && exists|directory: Option<Seq<char>>|
     #[trigger]
        split_library_found(file_provider, c, resolution, library, current_file, directory) && r == (
        match (directory, file) {
            (Some(d), _) => Ok(d),
            (None, Ok(p)) => Ok(p),
            (None, Err(e)) => Err("Failed to resolve library path: "@ + e),
        }))
}

/// The contents of a path or the text of the error.
pub open spec fn told(r: Result<String, SymbolError>) -> Result<Seq<char>, Seq<char>> {
    match r {
        Ok(p) => Ok(p@),
        Err(e) => Err(e.text()),
    }
}

/// Finds the file or the directory of a symbol library from its path.
pub fn resolve_symbol_library_path<F: FileProvider>(
    library_path: &str,
    config: &EvalContextConfig,
    file_provider: &F,
    resolution: &ResolutionResult,
    current_file: &str,
) -> (r: Result<String, SymbolError>)
    requires
        resolution.wf(),
    ensures
        exists|file: Result<Seq<char>, Seq<char>>| #[trigger]
            library_outcome(
                file_provider,
                config@,
                resolution,
                library_path@,
                current_file@,
                file,
                told(r),
            ),
{
    let found = config.resolve_path(file_provider, resolution, library_path, current_file);
    let ghost file = said(found);
    let known = match found {
        Ok(path) => {
            let there = is_there(file_provider, path.as_str());
            Ok((path, there))
        },
        Err(e) => Err(e.message),
    };
    let directory = match &known {
        Ok((_, true)) => None,
        _ => existing_split_symbol_library_path(
            library_path,
            config,
            file_provider,
            resolution,
            current_file,
        ),
    };
    let ghost split = opt_text(directory);
    let r = choose_library_path(known, directory);
    proof {
        assert(library_outcome(
            file_provider,
            config@,
            resolution,
            library_path@,
            current_file@,
            file,
            told(r),
        ));
    }
    r
}

/// The symbols of a directory's listing, in order: the names and paths of its symbol files.
pub open spec fn symbol_files(paths: Seq<Seq<char>>) -> Seq<(Seq<char>, Seq<char>)>
    decreases paths.len(),
{
    if paths.len() == 0 {
        Seq::<(Seq<char>, Seq<char>)>::empty()
    } else {
        let r = symbol_files(paths.drop_last());
        match (extension_of(paths.last()), file_stem_of(paths.last())) {
            (Some(e), Some(stem)) => if e == "kicad_sym"@ {
                r.push((stem, paths.last()))
            } else {
                r
            },
            _ => r,
        }
    }
}

/// The symbols of a directory's listing, in the order of their paths.
pub fn split_library_symbol_files(listing: &Vec<String>) -> (r: Vec<(String, String)>)
    ensures
        crate::map::text_entries(r@) == symbol_files(sorted_paths(texts(listing@))),
{
    let paths = sort_paths(listing);
    let ghost all = texts(paths@);
    let mut out: Vec<(String, String)> = Vec::new();
    let mut i: usize = 0;
    proof {
        assert(all.take(0) =~= Seq::<Seq<char>>::empty());
        assert(crate::map::text_entries(out@) =~= Seq::<(Seq<char>, Seq<char>)>::empty());
    }
    while i < paths.len()
        invariant
            i <= paths@.len(),
            all == texts(paths@),
            crate::map::text_entries(out@) == symbol_files(all.take(i as int)),
        decreases paths@.len() - i,
    {
        proof {
            assert(all.take(i + 1).drop_last() =~= all.take(i as int));
            assert(all.take(i + 1).last() == paths@[i as int]@);
        }
        if let (Some(ext), Some(stem)) = (
            extension(paths[i].as_str()),
            file_stem(paths[i].as_str()),
        ) {
            if same(ext.as_str(), "kicad_sym") {
                let ghost prior = crate::map::text_entries(out@);
                let ghost name = stem@;
                out.push((stem, paths[i].clone()));
                proof {
                    assert(crate::map::text_entries(out@) =~= prior.push(
                        (name, paths@[i as int]@),
                    ));
                }
            }
        }
        i += 1;
    }
    proof {
        assert(all.take(all.len() as int) =~= all);
    }
    out
}

/// The file of a symbol in a library directory.
pub fn split_symbol_path(dir: &str, symbol_name: &str) -> (r: String)
    ensures
        r@ == path_joined(dir@, symbol_name@ + ".kicad_sym"@),
{
    let mut file = symbol_name.to_owned();
    file.append(".kicad_sym");
    path_join(dir, file.as_str())
}

/// The symbols that a symbol is derived from, as they are found: the symbol itself first, then its
/// parent, then the parent's parent.
pub struct Lineage {
    pub names: Vec<String>,
}

impl Lineage {
    /// The invariant: no symbol stands twice.
    pub open spec fn wf(&self) -> bool {
        self.names@.len() > 0 && texts(self.names@).no_duplicates()
    }

    /// Starts with a symbol, whose file is read first.
    pub fn start(name: String) -> (r: Lineage)
        ensures
            r.wf(),
            texts(r.names@) == seq![name@],
    {
        let mut names: Vec<String> = Vec::new();
        names.push(name);
        proof {
            assert(texts(names@) =~= seq![name@]);
        }
        Lineage { names }
    }

    /// Takes what the last file says of the symbol's parent, and gives the parent whose file is read
    /// next. A symbol that was read is not read again.
    pub fn follow(&mut self, parent: Option<String>) -> (r: bool)
        requires
            old(self).wf(),
        ensures
            final(self).wf(),
            r == (parent is Some && !texts(old(self).names@).contains(parent->Some_0@)),
            texts(final(self).names@) == (if r {
                texts(old(self).names@).push(parent->Some_0@)
            } else {
                texts(old(self).names@)
            }),
    {
        match parent {
            Some(p) => {
                if contains_text(&self.names, p.as_str()) {
                    false
                } else {
                    let ghost before = texts(self.names@);
                    proof {
                        lemma_texts_push(self.names@, p);
                    }
                    self.names.push(p);
                    proof {
                        let after = texts(self.names@);
                        assert(after == before.push(p@));
                        assert forall|i: int, j: int| 0 <= i < j < after.len() implies after[i]
                            != after[j] by {
                            if j == before.len() {
                                assert(before.contains(before[i]));
                            }
                        }
                    }
                    true
                }
            },
            None => false,
        }
    }

    /// The symbols in the order in which their files are put together: the oldest first.
    pub fn oldest_first(&self) -> (r: Vec<String>)
        ensures
            texts(r@) == texts(self.names@).reverse(),
    {
        let ghost all = texts(self.names@);
        let n: usize = self.names.len();
        let mut out: Vec<String> = Vec::new();
        let mut i: usize = 0;
        while i < n
            invariant
                i <= n,
                n == self.names@.len(),
                all == texts(self.names@),
                out@.len() == i,
                forall|k: int| 0 <= k < i ==> (#[trigger] out@[k])@ == all[n - 1 - k],
            decreases n - i,
        {
            out.push(self.names[n - 1 - i].clone());
            i += 1;
        }
        proof {
            assert(texts(out@) =~= all.reverse());
        }
        out
    }
}

// ---------------------------------------------------------------------------------------------
// Libraries that were read

/// The symbol libraries that were read, by canonical path. A library is known by its number.
pub struct SymbolLibraryCache {
    pub libraries: SortedMap<String, usize>,
}

impl View for SymbolLibraryCache {
    type V = Map<Seq<char>, usize>;

    open spec fn view(&self) -> Map<Seq<char>, usize> {
        self.libraries@
    }
}

/// A symbol library: one that was read before, or the text of one that was not, with the path that
/// it is to be kept under.
pub enum LibrarySource {
    Known { library: usize },
    Unknown { key: String, contents: String },
}

/// Whether a file provider gives an answer, or the text of an error, when it is asked to read a file.
pub open spec fn asked_to_read<F: FileProvider>(
    file_provider: &F,
    path: Seq<char>,
    r: Result<Seq<char>, Seq<char>>,
) -> bool {
    exists|s: &str, a: Result<String, FileProviderError>|
        s@ == path && #[trigger] call_ensures(F::read_file, (file_provider, s), a) && r == (
        match a {
            Ok(q) => Ok(q@),
            Err(e) => Err(e.text()),
        })
}

/// What is found of a library with a given canonical path.
pub open spec fn library_found(
    cache: Map<Seq<char>, usize>,
    path: Seq<char>,
    key: Seq<char>,
    r: Result<LibrarySource, SymbolError>,
) -> bool {
    match r {
        Ok(LibrarySource::Known { library }) => cache.dom().contains(key) && library == cache[key],
        Ok(LibrarySource::Unknown { key: k, .. }) => !cache.dom().contains(key) && k@ == key,
        Err(SymbolError::LibraryUnread { library, .. }) => !cache.dom().contains(key) && library@
            == path,
        Err(_) => false,
    }
}

impl SymbolLibraryCache {
    /// The invariant.
    pub open spec fn wf(&self) -> bool {
        self.libraries.wf()
    }

    /// No library was read.
    pub fn new() -> (r: SymbolLibraryCache)
        ensures
            r.wf(),
            r@ == Map::<Seq<char>, usize>::empty(),
    {
        SymbolLibraryCache { libraries: SortedMap::new() }
    }

    /// Forgets a library, by its path as given and by its canonical path.
    pub fn forget(&mut self, path: &str, canonical: &str)
        requires
            old(self).wf(),
        ensures
            final(self).wf(),
            final(self)@ == old(self)@.remove(canonical@).remove(path@),
    {
        let key = canonical.to_owned();
        self.libraries.remove(&key);
        let raw = path.to_owned();
        self.libraries.remove(&raw);
    }

    /// Finds a library, or reads its text.
    pub fn find_library<F: FileProvider>(&self, path: &str, file_provider: &F) -> (r: Result<
        LibrarySource,
        SymbolError,
    >)
        requires
            self.wf(),
        ensures
            exists|key: Seq<char>|
                made_canonical(file_provider, path@, key) && #[trigger] library_found(
                    self@,
                    path@,
                    key,
                    r,
                ),
            match r {
                Ok(LibrarySource::Unknown { contents, .. }) => asked_to_read(
                    file_provider,
                    path@,
                    Ok(contents@),
                ),
                Err(SymbolError::LibraryUnread { error, .. }) => asked_to_read(
                    file_provider,
                    path@,
                    Err(error@),
                ),
                _ => true,
            },
    {
        let key = canonical_or_same(file_provider, path);
        let ghost k = key@;
        if let Some(library) = self.libraries.get(&key) {
            let r: Result<LibrarySource, SymbolError> = Ok(
                LibrarySource::Known { library: *library },
            );
            proof {
                assert(library_found(self@, path@, k, r));
            }
            return r;
        }
        let answer = file_provider.read_file(path);
        proof {
            assert(call_ensures(F::read_file, (file_provider, path), answer));
        }
        let r: Result<LibrarySource, SymbolError> = match answer {
            Ok(contents) => Ok(LibrarySource::Unknown { key, contents }),
            Err(e) => Err(
                SymbolError::LibraryUnread { library: path.to_owned(), error: e.message() },
            ),
        };
        proof {
            assert(library_found(self@, path@, k, r));
        }
        r
    }

    /// Keeps a library that was parsed.
    pub fn keep_library(&mut self, key: String, path: &str, parsed: Result<usize, String>) -> (r:
        Result<usize, SymbolError>)
        requires
            old(self).wf(),
        ensures
            final(self).wf(),
            match parsed {
                Ok(library) => r == Ok::<usize, SymbolError>(library) && final(self)@ == old(self)@.insert(
                    key@,
                    library,
                ),
                Err(e) => final(self)@ == old(self)@ && match r {
                    Err(SymbolError::LibraryUnparsed { library, error }) => library@ == path@
                        && error@ == e@,
                    _ => false,
                },
            },
    {
        match parsed {
            Ok(library) => {
                self.libraries.insert(key, library);
                Ok(library)
            },
            Err(error) => Err(SymbolError::LibraryUnparsed { library: path.to_owned(), error }),
        }
    }
}

/// Forgets a symbol library, so that it is read anew.
pub fn invalidate_symbol_library<F: FileProvider>(
    cache: &mut SymbolLibraryCache,
    path: &str,
    file_provider: &F,
)
    requires
        old(cache).wf(),
    ensures
        final(cache).wf(),
        !final(cache)@.dom().contains(path@),
        exists|canonical: Seq<char>|
            #[trigger] made_canonical(file_provider, path@, canonical) && final(cache)@ == old(cache)@.remove(canonical).remove(path@),
{
    let canonical = canonical_or_same(file_provider, path);
    cache.forget(path, canonical.as_str());
}

} // verus!
