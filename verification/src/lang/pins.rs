//! The pins of a component and the nets that they are connected to.

use starlark::collections::SmallMap;
use vstd::prelude::*;

use crate::diagnostic::{Notice, NoticeView, Place, PlaceView, Severity};
use crate::lang::component::ComponentError;
use crate::lang::net::{kind_of, lemma_put_below, open_net, resolved_name, NetValue, NetView};
use crate::lang::symbol::{group_views, jumper_groups, pads_alone, signals_of, SymbolValue};
use crate::lang::symbol::SymbolView;
use crate::lang::value::{all_below, extends, lemma_below_later, net_of, refers_below, text_of};
use crate::lang::value::{type_of, DictKey, Item, Store};
use crate::small_map::{distinct, get_handle, handles_in, lemma_place, lemma_put, new_texts, place};
use crate::small_map::{put, put_handle, put_text, texts_in, under};
use crate::text::{contains_text, join, joined, lemma_texts_push, same, sort_texts, sorted, texts};

verus! {

// ---------------------------------------------------------------------------------------------
// Pin definitions

/// The signal of each pad that a dictionary from pin to pad defines, or the first thing that is
/// wrong with it.
pub open spec fn pads_from(items: Seq<Item>, v: Seq<(DictKey, usize)>) -> Result<
    Seq<(Seq<char>, Seq<char>)>,
    Seq<char>,
>
    decreases v.len(),
{
    if v.len() == 0 {
        Ok(Seq::<(Seq<char>, Seq<char>)>::empty())
    } else {
        match pads_from(items, v.drop_last()) {
            Err(e) => Err(e),
            Ok(pads) => if !v.last().0.is_string {
                Err("pin name must be a string"@)
            } else {
                match text_of(items[v.last().1 as int]) {
                    None => Err("pad must be a string"@),
                    Some(pad) => Ok(put(pads, pad, v.last().0.text@)),
                }
            },
        }
    }
}

proof fn lemma_pads_from_fails(items: Seq<Item>, v: Seq<(DictKey, usize)>, k: int)
    requires
        0 <= k <= v.len(),
        pads_from(items, v.take(k)) is Err,
    ensures
        pads_from(items, v) == pads_from(items, v.take(k)),
    decreases v.len(),
{
    if k == v.len() {
        assert(v.take(k) =~= v);
    } else {
        assert(v.drop_last().take(k) =~= v.take(k));
        lemma_pads_from_fails(items, v.drop_last(), k);
    }
}

/// The pads that `pin_defs` defines, or the error.
pub open spec fn defined_pads(items: Seq<Item>, pin_defs: usize) -> Result<
    Seq<(Seq<char>, Seq<char>)>,
    Seq<char>,
> {
    match items[pin_defs as int] {
        Item::Dict(v) => pads_from(items, v@),
        _ => Err("`pin_defs` must be a dict of name -> pad"@),
    }
}

/// Reads `pin_defs`.
pub fn parse_pin_defs(store: &Store, pin_defs: usize) -> (r: Result<
    SmallMap<String, String>,
    ComponentError,
>)
    requires
        store.wf(),
        pin_defs < store.items@.len(),
    ensures
        match (r, defined_pads(store.items@, pin_defs)) {
            (Ok(m), Ok(pads)) => texts_in(m) == pads && distinct(pads),
            (Err(e), Err(t)) => e.text() == t,
            _ => false,
        },
{
    let ghost items = store.items@;
    proof {
        assert(refers_below(items[pin_defs as int], pin_defs as int));
    }
    let v: &Vec<(DictKey, usize)> = match &store.items[pin_defs] {
        Item::Dict(v) => v,
        _ => return Err(ComponentError::PinDefsNotDict),
    };
    let mut out = new_texts();
    let mut i: usize = 0;
    proof {
        assert(v@.take(0) =~= Seq::<(DictKey, usize)>::empty());
    }
    while i < v.len()
        invariant
            i <= v@.len(),
            items == store.items@,
            pin_defs < items.len(),
            items[pin_defs as int] == Item::Dict(*v),
            forall|k: int| 0 <= k < v@.len() ==> (#[trigger] v@[k]).1 < pin_defs,
            distinct(texts_in(out)),
            pads_from(items, v@.take(i as int)) == Ok::<Seq<(Seq<char>, Seq<char>)>, Seq<char>>(
                texts_in(out),
            ),
        decreases v@.len() - i,
    {
        proof {
            assert(v@.take(i + 1).drop_last() =~= v@.take(i as int));
            assert(v@.take(i + 1).last() == v@[i as int]);
        }
        if !v[i].0.is_string {
            proof {
                lemma_pads_from_fails(items, v@, i + 1);
            }
            return Err(ComponentError::PinNameNotString);
        }
        match store.text(v[i].1) {
            None => {
                proof {
                    lemma_pads_from_fails(items, v@, i + 1);
                }
                return Err(ComponentError::PadNotString);
            },
            Some(pad) => {
                proof {
                    lemma_put(texts_in(out), pad@, v@[i as int].0.text@);
                }
                put_text(&mut out, pad.to_owned(), v[i].0.text.clone());
            },
        }
        i += 1;
    }
    proof {
        assert(v@.take(v@.len() as int) =~= v@);
    }
    Ok(out)
}

/// The symbol of a component: the pads of `pin_defs`, with whatever else a symbol that is given
/// holds, or the symbol that is given.
pub open spec fn chosen_symbol(
    items: Seq<Item>,
    pin_defs: Option<usize>,
    symbol: Option<usize>,
) -> Result<SymbolView, Seq<char>> {
    match pin_defs {
        Some(d) => match defined_pads(items, d) {
            Err(e) => Err(e),
            Ok(pads) => match symbol {
                Some(h) => match items[h as int] {
                    Item::Symbol(s) => Ok(SymbolView { pads, ..s@ }),
                    _ => Ok(pads_alone(pads)),
                },
                None => Ok(pads_alone(pads)),
            },
        },
        None => match symbol {
            Some(h) => match items[h as int] {
                Item::Symbol(s) => Ok(s@),
                _ => Err("Use Symbol(library = \"...\") to load a symbol from a library."@),
            },
            None => Err("Either `pin_defs` or a Symbol value for `symbol` must be provided"@),
        },
    }
}

/// Finds the symbol of a component.
pub fn choose_symbol(store: &Store, pin_defs: Option<usize>, symbol: Option<usize>) -> (r: Result<
    SymbolValue,
    ComponentError,
>)
    requires
        store.wf(),
        pin_defs is Some ==> pin_defs->Some_0 < store.items@.len(),
        symbol is Some ==> symbol->Some_0 < store.items@.len(),
    ensures
        match (r, chosen_symbol(store.items@, pin_defs, symbol)) {
            (Ok(s), Ok(v)) => s@ == v && s.wf(),
            (Err(e), Err(t)) => e.text() == t,
            _ => false,
        },
{
    if let Some(h) = symbol {
        proof {
            assert(refers_below(store.items@[h as int], h as int));
        }
    }
    if let Some(d) = pin_defs {
        let pads = match parse_pin_defs(store, d) {
            Ok(pads) => pads,
            Err(e) => return Err(e),
        };
        if let Some(h) = symbol {
            if let Item::Symbol(s) = &store.items[h] {
                return Ok(s.with_pads(pads));
            }
        }
        return Ok(SymbolValue::from_pads(pads));
    }
    match symbol {
        Some(h) => match &store.items[h] {
            Item::Symbol(s) => Ok(s.copy()),
            _ => Err(
                ComponentError::Failed {
                    message:
                        "Use Symbol(library = \"...\") to load a symbol from a library.".to_owned(),
                },
            ),
        },
        None => Err(
            ComponentError::Failed {
                message:
                    "Either `pin_defs` or a Symbol value for `symbol` must be provided".to_owned(),
            },
        ),
    }
}

// ---------------------------------------------------------------------------------------------
// Electrical checks

/// What is known of the electrical types of a signal's pins.
pub struct PinTypes {
    pub signal: String,
    /// The types that the pins of the signal can have.
    pub types: Vec<String>,
    /// Whether every pin of the signal is to be left open.
    pub only_no_connect: bool,
}

/// Where a signal stands in a table of pin types; the length of the table, where it does not.
pub open spec fn signal_at(v: Seq<PinTypes>, signal: Seq<char>) -> int
    decreases v.len(),
{
    if v.len() == 0 {
        0
    } else if v[0].signal@ == signal {
        0
    } else {
        1 + signal_at(v.skip(1), signal)
    }
}

/// The electrical types that the pins of a signal can have.
pub open spec fn types_of_signal(v: Seq<PinTypes>, signal: Seq<char>) -> Seq<Seq<char>> {
    if signal_at(v, signal) < v.len() {
        texts(v[signal_at(v, signal)].types@)
    } else {
        Seq::<Seq<char>>::empty()
    }
}

/// Whether every pin of a signal is to be left open.
pub open spec fn left_open(v: Seq<PinTypes>, signal: Seq<char>) -> bool {
    signal_at(v, signal) < v.len() && v[signal_at(v, signal)].only_no_connect
}

/// Finds a signal in a table of pin types.
fn find_signal(v: &Vec<PinTypes>, signal: &str) -> (r: Option<usize>)
    ensures
        match r {
            Some(i) => i < v@.len() && i == signal_at(v@, signal@),
            None => signal_at(v@, signal@) >= v@.len(),
        },
{
    let mut i: usize = 0;
    proof {
        assert(v@.skip(0) =~= v@);
    }
    while i < v.len()
        invariant
            i <= v@.len(),
            signal_at(v@, signal@) == i + signal_at(v@.skip(i as int), signal@),
        decreases v@.len() - i,
    {
        proof {
            assert(v@.skip(i as int)[0] == v@[i as int]);
            assert(v@.skip(i as int).skip(1) =~= v@.skip(i + 1));
        }
        if same(v[i].signal.as_str(), signal) {
            return Some(i);
        }
        i += 1;
    }
    None
}

/// Whether every pin of a signal is to be left open.
pub fn is_left_open(v: &Vec<PinTypes>, signal: &str) -> (r: bool)
    ensures
        r == left_open(v@, signal@),
{
    match find_signal(v, signal) {
        Some(i) => v[i].only_no_connect,
        None => false,
    }
}

/// Whether a pin of an electrical type goes on a net of a kind.
pub open spec fn accepts(pin_type: Seq<char>, net_kind: Seq<char>) -> bool {
    if pin_type == "no_connect"@ {
        net_kind == "NotConnected"@
    } else if pin_type == "power_in"@ || pin_type == "power_out"@ {
        net_kind == "Power"@ || net_kind == "Ground"@ || net_kind == "NotConnected"@
    } else {
        true
    }
}

/// Whether a pin of an electrical type goes on a net of a kind.
pub fn pin_type_accepts_net_kind(pin_type: &str, net_kind: &str) -> (r: bool)
    ensures
        r == accepts(pin_type@, net_kind@),
{
    if same(pin_type, "no_connect") {
        same(net_kind, "NotConnected")
    } else if same(pin_type, "power_in") || same(pin_type, "power_out") {
        same(net_kind, "Power") || same(net_kind, "Ground") || same(net_kind, "NotConnected")
    } else {
        true
    }
}

/// Whether a pin type is one of a supply.
pub open spec fn is_power(pin_type: Seq<char>) -> bool {
    pin_type == "power_in"@ || pin_type == "power_out"@
}

/// A warning about the net of a pin.
pub enum PinWarning {
    /// A pin that is to be left open is on a net.
    NoConnect,
    /// A supply pin is on a plain net.
    PlainNet,
}

/// A warning about a pin.
pub struct PinNotice {
    pub warning: PinWarning,
    pub component: String,
    pub signal: String,
    pub net_kind: String,
    pub net_name: String,
    /// Where the net was made, or else the pins are connected.
    pub place: Place,
}

/// The contents of a warning about a pin.
pub struct PinNoticeView {
    pub warning: PinWarning,
    pub component: Seq<char>,
    pub signal: Seq<char>,
    pub net_kind: Seq<char>,
    pub net_name: Seq<char>,
    pub place: PlaceView,
}

impl View for PinNotice {
    type V = PinNoticeView;

    open spec fn view(&self) -> PinNoticeView {
        PinNoticeView {
            warning: self.warning,
            component: self.component@,
            signal: self.signal@,
            net_kind: self.net_kind@,
            net_name: self.net_name@,
            place: self.place@,
        }
    }
}

/// The contents of a list of warnings.
pub open spec fn pin_notices(v: Seq<PinNotice>) -> Seq<PinNoticeView> {
    Seq::new(v.len(), |i: int| v[i]@)
}

/// The note that a warning becomes. `no_connect_body` is the text for a pin that is to be left open.
pub open spec fn noted(n: PinNoticeView, no_connect_body: Seq<char>) -> NoticeView {
    match n.warning {
        PinWarning::NoConnect => NoticeView {
            message: no_connect_body,
            kind: "pin.no_connect"@,
            severity: Severity::Warning,
        },
        PinWarning::PlainNet => NoticeView {
            message: "Pin '"@ + n.signal + "' on component '"@ + n.component
                + "' is a power pin but is connected to plain Net '"@ + n.net_name
                + "'; consider using Power() or Ground()"@,
            kind: "pin.power_net"@,
            severity: Severity::Warning,
        },
    }
}

impl PinNotice {
    /// The note that the warning becomes. `no_connect_body` is the text for a pin that is to be left
    /// open.
    pub fn notice(&self, no_connect_body: String) -> (r: Notice)
        ensures
            r@ == noted(self@, no_connect_body@),
    {
        match self.warning {
            PinWarning::NoConnect => Notice {
                message: no_connect_body,
                kind: "pin.no_connect".to_owned(),
                severity: Severity::Warning,
            },
            PinWarning::PlainNet => {
                let mut message = "Pin '".to_owned();
                message.append(self.signal.as_str());
                message.append("' on component '");
                message.append(self.component.as_str());
                message.append("' is a power pin but is connected to plain Net '");
                message.append(self.net_name.as_str());
                message.append("'; consider using Power() or Ground()");
                Notice { message, kind: "pin.power_net".to_owned(), severity: Severity::Warning }
            },
        }
    }
}

/// What is to be said about a signal on a net.
pub open spec fn pin_warning(types: Seq<Seq<char>>, only_no_connect: bool, net_kind: Seq<char>) -> Option<
    PinWarning,
> {
    if types.len() == 0 {
        None
    } else if only_no_connect {
        Some(PinWarning::NoConnect)
    } else if exists|i: int| 0 <= i < types.len() && accepts(#[trigger] types[i], net_kind) {
        None
    } else if net_kind == "Net"@ && exists|i: int|
        0 <= i < types.len() && is_power(#[trigger] types[i]) {
        Some(PinWarning::PlainNet)
    } else {
        None
    }
}

/// Where a net was made, where its file is known, or else a given place.
pub open spec fn made_at(n: NetView, site: PlaceView) -> PlaceView {
    if n.declaration_path.len() == 0 {
        site
    } else {
        PlaceView { path: n.declaration_path, span: n.declaration_span }
    }
}

/// The warning about a signal on a net, if any. `site` is where the pins are connected.
pub open spec fn warned(
    v: Seq<PinTypes>,
    component: Seq<char>,
    signal: Seq<char>,
    net: NetView,
    site: PlaceView,
) -> Option<PinNoticeView> {
    match pin_warning(types_of_signal(v, signal), left_open(v, signal), kind_of(net)) {
        None => None,
        Some(warning) => Some(
            PinNoticeView {
                warning,
                component,
                signal,
                net_kind: kind_of(net),
                net_name: resolved_name(net),
                place: made_at(net, site),
            },
        ),
    }
}

/// The contents of an optional warning.
pub open spec fn opt_pin_notice(o: Option<PinNotice>) -> Option<PinNoticeView> {
    match o {
        Some(n) => Some(n@),
        None => None,
    }
}

/// The warning about a signal on a net, if any.
pub fn warn_pin_net_compatibility(
    pin_types: &Vec<PinTypes>,
    component: &str,
    signal: &str,
    net: &NetValue,
    site: &Place,
) -> (r: Option<PinNotice>)
    ensures
        opt_pin_notice(r) == warned(pin_types@, component@, signal@, net@, site@),
{
    let at: usize = match find_signal(pin_types, signal) {
        Some(at) => at,
        None => return None,
    };
    let types = &pin_types[at].types;
    let ghost all = texts(types@);
    if types.len() == 0 {
        return None;
    }
    let net_kind = net.net_kind_name();
    let mut accepted = false;
    let mut power = false;
    let mut i: usize = 0;
    while i < types.len()
        invariant
            i <= types@.len(),
            all == texts(types@),
            accepted == exists|k: int| 0 <= k < i && accepts(#[trigger] all[k], net_kind@),
            power == exists|k: int| 0 <= k < i && is_power(#[trigger] all[k]),
        decreases types@.len() - i,
    {
        let t = types[i].as_str();
        proof {
            assert(all[i as int] == t@);
        }
        if pin_type_accepts_net_kind(t, net_kind) {
            accepted = true;
        }
        if same(t, "power_in") || same(t, "power_out") {
            power = true;
        }
        i += 1;
    }
    let warning = if pin_types[at].only_no_connect {
        PinWarning::NoConnect
    } else if accepted {
        return None;
    } else if same(net_kind, "Net") && power {
        PinWarning::PlainNet
    } else {
        return None;
    };
    let place = match net.declaration_path() {
        Some(path) => Place { path: path.to_owned(), span: net.declaration_span },
        None => site.copy(),
    };
    Some(
        PinNotice {
            warning,
            component: component.to_owned(),
            signal: signal.to_owned(),
            net_kind: net_kind.to_owned(),
            net_name: net.name().to_owned(),
            place,
        },
    )
}

// ---------------------------------------------------------------------------------------------
// Connections

/// The connections that a dictionary from pin to net makes, or the first thing that is wrong with
/// it; and the warnings up to there.
pub open spec fn connected(
    items: Seq<Item>,
    component: Seq<char>,
    signals: Seq<Seq<char>>,
    types: Seq<PinTypes>,
    site: PlaceView,
    v: Seq<(DictKey, usize)>,
) -> (Result<Seq<(Seq<char>, usize)>, Seq<char>>, Seq<PinNoticeView>)
    decreases v.len(),
{
    if v.len() == 0 {
        (Ok(Seq::<(Seq<char>, usize)>::empty()), Seq::<PinNoticeView>::empty())
    } else {
        let (before, said) = connected(items, component, signals, types, site, v.drop_last());
        let signal = v.last().0.text@;
        let value = items[v.last().1 as int];
        match before {
            Err(e) => (Err(e), said),
            Ok(m) => if !v.last().0.is_string {
                (Err("pin names must be strings"@), said)
            } else if !signals.contains(signal) {
                (
                    Err(
                        "Unknown pin name '"@ + signal + "' (expected one of: "@ + joined(
                            signals,
                            ", "@,
                        ) + ")"@,
                    ),
                    said,
                )
            } else {
                match net_of(value) {
                    None => (
                        Err(
                            "Pin '"@ + signal + "' must be connected to a Net, got "@ + type_of(
                                value,
                            ),
                        ),
                        said,
                    ),
                    Some(net) => (
                        Ok(put(m, signal, v.last().1)),
                        match warned(types, component, signal, net@, site) {
                            Some(n) => said.push(n),
                            None => said,
                        },
                    ),
                }
            },
        }
    }
}

proof fn lemma_connected_fails(
    items: Seq<Item>,
    component: Seq<char>,
    signals: Seq<Seq<char>>,
    types: Seq<PinTypes>,
    site: PlaceView,
    v: Seq<(DictKey, usize)>,
    k: int,
)
    requires
        0 <= k <= v.len(),
        connected(items, component, signals, types, site, v.take(k)).0 is Err,
    ensures
        connected(items, component, signals, types, site, v) == connected(
            items,
            component,
            signals,
            types,
            site,
            v.take(k),
        ),
    decreases v.len(),
{
    if k == v.len() {
        assert(v.take(k) =~= v);
    } else {
        assert(v.drop_last().take(k) =~= v.take(k));
        lemma_connected_fails(items, component, signals, types, site, v.drop_last(), k);
    }
}

/// Whether every value of some connections is a net.
pub open spec fn all_nets(items: Seq<Item>, c: Seq<(Seq<char>, usize)>) -> bool {
    forall|i: int| 0 <= i < c.len() ==> items[(#[trigger] c[i]).1 as int] is Net
}

/// Connects the pins of a component as a dictionary from pin to net says.
pub fn connect_pins(
    store: &Store,
    component: &str,
    symbol: &SymbolValue,
    pin_types: &Vec<PinTypes>,
    pins: usize,
    site: &Place,
) -> (r: (Result<SmallMap<String, usize>, ComponentError>, Vec<PinNotice>))
    requires
        store.wf(),
        pins < store.items@.len(),
        store.items@[pins as int] is Dict,
    ensures
        ({
            let (outcome, said) = connected(
                store.items@,
                component@,
                signals_of(symbol@.pads),
                pin_types@,
                site@,
                store.items@[pins as int]->Dict_0@,
            );
            &&& pin_notices(r.1@) == said
            &&& match (r.0, outcome) {
                (Ok(m), Ok(c)) => handles_in(m) == c && distinct(c) && all_below(
                    c,
                    store.items@.len() as int,
                ) && all_nets(store.items@, c),
                (Err(e), Err(t)) => e.text() == t,
                _ => false,
            }
        }),
{
    let ghost items = store.items@;
    let ghost types = pin_types@;
    let mut out = crate::small_map::new_handles();
    let mut said: Vec<PinNotice> = Vec::new();
    proof {
        assert(refers_below(items[pins as int], pins as int));
        assert(pin_notices(said@) =~= Seq::<PinNoticeView>::empty());
    }
    let signals = symbol.signal_names();
    let ghost names = texts(signals@);
    if let Item::Dict(v) = &store.items[pins] {
        let mut i: usize = 0;
        proof {
            assert(v@.take(0) =~= Seq::<(DictKey, usize)>::empty());
        }
        while i < v.len()
            invariant
                i <= v@.len(),
                items == store.items@,
                types == pin_types@,
                names == texts(signals@),
                names == signals_of(symbol@.pads),
                pins < items.len(),
                items[pins as int] == Item::Dict(*v),
                forall|k: int| 0 <= k < v@.len() ==> (#[trigger] v@[k]).1 < pins,
                distinct(handles_in(out)),
                all_below(handles_in(out), items.len() as int),
                all_nets(items, handles_in(out)),
                connected(items, component@, names, types, site@, v@.take(i as int)).0 == Ok::<
                    Seq<(Seq<char>, usize)>,
                    Seq<char>,
                >(handles_in(out)),
                connected(items, component@, names, types, site@, v@.take(i as int)).1 == pin_notices(
                    said@,
                ),
            decreases v@.len() - i,
        {
            proof {
                assert(v@.take(i + 1).drop_last() =~= v@.take(i as int));
                assert(v@.take(i + 1).last() == v@[i as int]);
            }
            if !v[i].0.is_string {
                proof {
                    lemma_connected_fails(items, component@, names, types, site@, v@, i + 1);
                }
                return (Err(ComponentError::PinNamesNotStrings), said);
            }
            let signal = v[i].0.text.as_str();
            if !contains_text(&signals, signal) {
                proof {
                    lemma_connected_fails(items, component@, names, types, site@, v@, i + 1);
                }
                let mut message = "Unknown pin name '".to_owned();
                message.append(signal);
                message.append("' (expected one of: ");
                let expected = join(&signals, ", ");
                message.append(expected.as_str());
                message.append(")");
                return (Err(ComponentError::Failed { message }), said);
            }
            match store.net(v[i].1) {
                None => {
                    proof {
                        lemma_connected_fails(items, component@, names, types, site@, v@, i + 1);
                    }
                    let mut message = "Pin '".to_owned();
                    message.append(signal);
                    message.append("' must be connected to a Net, got ");
                    let got = store.type_label(v[i].1);
                    message.append(got.as_str());
                    return (Err(ComponentError::Failed { message }), said);
                },
                Some(net) => {
                    if let Some(n) = warn_pin_net_compatibility(
                        pin_types,
                        component,
                        signal,
                        net,
                        site,
                    ) {
                        let ghost prior = pin_notices(said@);
                        let ghost view = n@;
                        said.push(n);
                        proof {
                            assert(pin_notices(said@) =~= prior.push(view));
                        }
                    }
                    proof {
                        lemma_put(handles_in(out), signal@, v@[i as int].1);
                        lemma_put_below(
                            handles_in(out),
                            signal@,
                            v@[i as int].1,
                            items.len() as int,
                        );
                        lemma_put_nets(items, handles_in(out), signal@, v@[i as int].1);
                    }
                    put_handle(&mut out, signal.to_owned(), v[i].1);
                },
            }
            i += 1;
        }
        proof {
            assert(v@.take(v@.len() as int) =~= v@);
        }
    }
    (Ok(out), said)
}

proof fn lemma_put_nets(items: Seq<Item>, c: Seq<(Seq<char>, usize)>, k: Seq<char>, h: usize)
    requires
        all_nets(items, c),
        items[h as int] is Net,
    ensures
        all_nets(items, put(c, k, h)),
{
    lemma_place(c, k);
    let p = put(c, k, h);
    assert forall|i: int| 0 <= i < p.len() implies items[(#[trigger] p[i]).1 as int] is Net by {
        if i < c.len() && i != place(c, k) {
            assert(p[i] == c[i]);
        }
    }
}

// ---------------------------------------------------------------------------------------------
// Jumpers

/// The number of a net.
pub open spec fn id_of(items: Seq<Item>, h: usize) -> u64 {
    match net_of(items[h as int]) {
        Some(n) => n.net_id,
        None => 0,
    }
}

/// The signals of a group that are connected to nets, with the nets.
pub open spec fn group_nets(
    items: Seq<Item>,
    c: Seq<(Seq<char>, usize)>,
    group: Seq<Seq<char>>,
) -> Seq<(Seq<char>, usize)>
    decreases group.len(),
{
    if group.len() == 0 {
        Seq::<(Seq<char>, usize)>::empty()
    } else {
        let r = group_nets(items, c, group.drop_last());
        match under(c, group.last()) {
            Some(h) => if net_of(items[h as int]) is Some {
                r.push((group.last(), h))
            } else {
                r
            },
            None => r,
        }
    }
}

/// The connections with the signals of a group that are not connected put on a net.
pub open spec fn bridged(c: Seq<(Seq<char>, usize)>, group: Seq<Seq<char>>, h: usize) -> Seq<
    (Seq<char>, usize),
>
    decreases group.len(),
{
    if group.len() == 0 {
        c
    } else {
        let r = bridged(c, group.drop_last(), h);
        if under(r, group.last()) is None {
            put(r, group.last(), h)
        } else {
            r
        }
    }
}

/// How a net is described in an error.
pub open spec fn described(items: Seq<Item>, h: usize) -> Seq<char> {
    match net_of(items[h as int]) {
        Some(n) => if resolved_name(n@).len() == 0 {
            "unnamed net"@
        } else {
            kind_of(n@) + " '"@ + resolved_name(n@) + "'"@
        },
        None => "unnamed net"@,
    }
}

/// The assignments of a group, for an error.
pub open spec fn assignments(items: Seq<Item>, k: Seq<(Seq<char>, usize)>) -> Seq<Seq<char>> {
    Seq::new(k.len(), |i: int| k[i].0 + " -> "@ + described(items, k[i].1))
}

/// Whether some nets are one.
pub open spec fn one_net(items: Seq<Item>, k: Seq<(Seq<char>, usize)>) -> bool {
    forall|i: int| 0 <= i < k.len() ==> id_of(items, (#[trigger] k[i]).1) == id_of(items, k[0].1)
}

/// The connections after one group of signals that the part connects inside.
pub open spec fn group_bridged(
    items: Seq<Item>,
    component: Seq<char>,
    c: Seq<(Seq<char>, usize)>,
    group: Seq<Seq<char>>,
) -> Result<Seq<(Seq<char>, usize)>, Seq<char>> {
    let k = group_nets(items, c, group);
    if k.len() == 0 {
        Ok(c)
    } else if !one_net(items, k) {
        Err(
            "Jumpered pins "@ + joined(group, ", "@) + " on component "@ + component
                + " are internally connected but were assigned to different nets: "@ + joined(
                assignments(items, k),
                ", "@,
            )
                + ". Use one net for the group or explicitly tie the labels together before import."@,
        )
    } else {
        Ok(bridged(c, group, k[0].1))
    }
}

/// The connections after all groups of signals that the part connects inside, or the first error.
pub open spec fn all_bridged(
    items: Seq<Item>,
    component: Seq<char>,
    c: Seq<(Seq<char>, usize)>,
    groups: Seq<Seq<Seq<char>>>,
) -> Result<Seq<(Seq<char>, usize)>, Seq<char>>
    decreases groups.len(),
{
    if groups.len() == 0 {
        Ok(c)
    } else {
        match all_bridged(items, component, c, groups.drop_last()) {
            Err(e) => Err(e),
            Ok(m) => group_bridged(items, component, m, groups.last()),
        }
    }
}

proof fn lemma_all_bridged_fails(
    items: Seq<Item>,
    component: Seq<char>,
    c: Seq<(Seq<char>, usize)>,
    groups: Seq<Seq<Seq<char>>>,
    k: int,
)
    requires
        0 <= k <= groups.len(),
        all_bridged(items, component, c, groups.take(k)) is Err,
    ensures
        all_bridged(items, component, c, groups) == all_bridged(items, component, c, groups.take(k)),
    decreases groups.len(),
{
    if k == groups.len() {
        assert(groups.take(k) =~= groups);
    } else {
        assert(groups.drop_last().take(k) =~= groups.take(k));
        lemma_all_bridged_fails(items, component, c, groups.drop_last(), k);
    }
}

/// The entries of a list.
pub open spec fn entries(v: Seq<(String, usize)>) -> Seq<(Seq<char>, usize)> {
    Seq::new(v.len(), |i: int| (v[i].0@, v[i].1))
}

/// The signals of a group that are connected to nets, with the nets.
fn nets_in_group(store: &Store, c: &SmallMap<String, usize>, group: &Vec<String>) -> (r: Vec<
    (String, usize),
>)
    requires
        all_below(handles_in(*c), store.items@.len() as int),
    ensures
        entries(r@) == group_nets(store.items@, handles_in(*c), texts(group@)),
        forall|i: int| 0 <= i < r@.len() ==> (#[trigger] r@[i]).1 < store.items@.len(),
{
    let ghost items = store.items@;
    let ghost all = texts(group@);
    let ghost m = handles_in(*c);
    let mut out: Vec<(String, usize)> = Vec::new();
    let mut i: usize = 0;
    proof {
        assert(all.take(0) =~= Seq::<Seq<char>>::empty());
        assert(entries(out@) =~= Seq::<(Seq<char>, usize)>::empty());
    }
    while i < group.len()
        invariant
            i <= group@.len(),
            items == store.items@,
            all == texts(group@),
            m == handles_in(*c),
            all_below(m, items.len() as int),
            entries(out@) == group_nets(items, m, all.take(i as int)),
            forall|k: int| 0 <= k < out@.len() ==> (#[trigger] out@[k]).1 < items.len(),
        decreases group@.len() - i,
    {
        proof {
            assert(all.take(i + 1).drop_last() =~= all.take(i as int));
            assert(all.take(i + 1).last() == group@[i as int]@);
            lemma_place(m, group@[i as int]@);
        }
        if let Some(h) = get_handle(c, group[i].as_str()) {
            if store.net(h).is_some() {
                let ghost prior = entries(out@);
                out.push((group[i].clone(), h));
                proof {
                    assert(entries(out@) =~= prior.push((group@[i as int]@, h)));
                }
            }
        }
        i += 1;
    }
    proof {
        assert(all.take(all.len() as int) =~= all);
    }
    out
}

/// How a net is described in an error.
fn describe_net(store: &Store, h: usize) -> (r: String)
    requires
        h < store.items@.len(),
    ensures
        r@ == described(store.items@, h),
{
    match store.net(h) {
        Some(n) => {
            if n.name().unicode_len() == 0 {
                "unnamed net".to_owned()
            } else {
                let mut out = n.net_kind_name().to_owned();
                out.append(" '");
                out.append(n.name());
                out.append("'");
                out
            }
        },
        None => "unnamed net".to_owned(),
    }
}

/// The number of a net.
fn net_id_from_value(store: &Store, h: usize) -> (r: u64)
    requires
        h < store.items@.len(),
    ensures
        r == id_of(store.items@, h),
{
    match store.net(h) {
        Some(n) => n.net_id,
        None => 0,
    }
}

/// The error for a group that is assigned to different nets.
fn split_group_error(
    store: &Store,
    component: &str,
    group: &Vec<String>,
    known: &Vec<(String, usize)>,
) -> (r: String)
    requires
        forall|i: int| 0 <= i < known@.len() ==> (#[trigger] known@[i]).1 < store.items@.len(),
    ensures
        r@ == "Jumpered pins "@ + joined(texts(group@), ", "@) + " on component "@ + component@
            + " are internally connected but were assigned to different nets: "@ + joined(
            assignments(store.items@, entries(known@)),
            ", "@,
        ) + ". Use one net for the group or explicitly tie the labels together before import."@,
{
    let ghost k = entries(known@);
    let mut list: Vec<String> = Vec::new();
    let mut i: usize = 0;
    while i < known.len()
        invariant
            i <= known@.len(),
            k == entries(known@),
            forall|j: int| 0 <= j < known@.len() ==> (#[trigger] known@[j]).1 < store.items@.len(),
            list@.len() == i,
            forall|j: int|
                0 <= j < i ==> (#[trigger] list@[j])@ == k[j].0 + " -> "@ + described(
                    store.items@,
                    k[j].1,
                ),
        decreases known@.len() - i,
    {
        let mut s = known[i].0.clone();
        s.append(" -> ");
        let d = describe_net(store, known[i].1);
        s.append(d.as_str());
        list.push(s);
        i += 1;
    }
    proof {
        assert(texts(list@) =~= assignments(store.items@, k));
    }
    let mut message = "Jumpered pins ".to_owned();
    let pins = join(group, ", ");
    message.append(pins.as_str());
    message.append(" on component ");
    message.append(component);
    message.append(" are internally connected but were assigned to different nets: ");
    let all = join(&list, ", ");
    message.append(all.as_str());
    message.append(
        ". Use one net for the group or explicitly tie the labels together before import.",
    );
    message
}

/// Puts the signals of a group that are not connected on a net.
fn bridge(store: &Store, c: &mut SmallMap<String, usize>, group: &Vec<String>, h: usize)
    requires
        distinct(handles_in(*old(c))),
        all_below(handles_in(*old(c)), store.items@.len() as int),
        all_nets(store.items@, handles_in(*old(c))),
        h < store.items@.len(),
        store.items@[h as int] is Net,
    ensures
        distinct(handles_in(*final(c))),
        all_below(handles_in(*final(c)), store.items@.len() as int),
        all_nets(store.items@, handles_in(*final(c))),
        handles_in(*final(c)) == bridged(handles_in(*old(c)), texts(group@), h),
{
    let ghost first = handles_in(*c);
    let ghost all = texts(group@);
    let mut i: usize = 0;
    proof {
        assert(all.take(0) =~= Seq::<Seq<char>>::empty());
    }
    while i < group.len()
        invariant
            i <= group@.len(),
            all == texts(group@),
            h < store.items@.len(),
            store.items@[h as int] is Net,
            distinct(handles_in(*c)),
            all_below(handles_in(*c), store.items@.len() as int),
            all_nets(store.items@, handles_in(*c)),
            handles_in(*c) == bridged(first, all.take(i as int), h),
        decreases group@.len() - i,
    {
        proof {
            assert(all.take(i + 1).drop_last() =~= all.take(i as int));
            assert(all.take(i + 1).last() == group@[i as int]@);
            lemma_put(handles_in(*c), group@[i as int]@, h);
            lemma_put_below(handles_in(*c), group@[i as int]@, h, store.items@.len() as int);
            lemma_put_nets(store.items@, handles_in(*c), group@[i as int]@, h);
        }
        if get_handle(c, group[i].as_str()).is_none() {
            put_handle(c, group[i].clone(), h);
        }
        i += 1;
    }
    proof {
        assert(all.take(all.len() as int) =~= all);
    }
}

/// Connects the signals that the part connects inside: in each group the first net that a signal is
/// on becomes the net of those that are on none. Different nets within a group are an error.
pub fn apply_explicit_jumper_connections(
    store: &Store,
    component: &str,
    symbol: &SymbolValue,
    connections: SmallMap<String, usize>,
) -> (r: Result<SmallMap<String, usize>, ComponentError>)
    requires
        distinct(handles_in(connections)),
        all_below(handles_in(connections), store.items@.len() as int),
        all_nets(store.items@, handles_in(connections)),
    ensures
        match (
            r,
            all_bridged(
                store.items@,
                component@,
                handles_in(connections),
                jumper_groups(symbol@.pads, symbol@.groups),
            ),
        ) {
            (Ok(m), Ok(c)) => handles_in(m) == c && distinct(c) && all_below(
                c,
                store.items@.len() as int,
            ) && all_nets(store.items@, c),
            (Err(e), Err(t)) => e.text() == t,
            _ => false,
        },
{
    let groups = symbol.explicit_jumper_signal_groups();
    let ghost all = group_views(groups@);
    let ghost items = store.items@;
    let ghost first = handles_in(connections);
    let mut out = connections;
    let mut i: usize = 0;
    proof {
        assert(all.take(0) =~= Seq::<Seq<Seq<char>>>::empty());
    }
    while i < groups.len()
        invariant
            i <= groups@.len(),
            all == group_views(groups@),
            all == jumper_groups(symbol@.pads, symbol@.groups),
            items == store.items@,
            first == handles_in(connections),
            distinct(handles_in(out)),
            all_below(handles_in(out), items.len() as int),
            all_nets(items, handles_in(out)),
            all_bridged(items, component@, first, all.take(i as int)) == Ok::<
                Seq<(Seq<char>, usize)>,
                Seq<char>,
            >(handles_in(out)),
        decreases groups@.len() - i,
    {
        let group = &groups[i];
        proof {
            assert(all.take(i + 1).drop_last() =~= all.take(i as int));
            assert(all.take(i + 1).last() == texts(group@));
        }
        let known = nets_in_group(store, &out, group);
        let ghost k = entries(known@);
        if known.len() > 0 {
            let id: u64 = net_id_from_value(store, known[0].1);
            let mut j: usize = 1;
            while j < known.len()
                invariant
                    1 <= j <= known@.len(),
                    i < groups@.len(),
                    group == groups@[i as int],
                    all == group_views(groups@),
                    all == jumper_groups(symbol@.pads, symbol@.groups),
                    all.take(i + 1).drop_last() == all.take(i as int),
                    all.take(i + 1).last() == texts(group@),
                    items == store.items@,
                    first == handles_in(connections),
                    all_bridged(items, component@, first, all.take(i as int)) == Ok::<
                        Seq<(Seq<char>, usize)>,
                        Seq<char>,
                    >(handles_in(out)),
                    k == entries(known@),
                    k == group_nets(items, handles_in(out), texts(group@)),
                    id == id_of(items, k[0].1),
                    forall|n: int| 0 <= n < known@.len() ==> (#[trigger] known@[n]).1 < items.len(),
                    forall|n: int| 0 <= n < j ==> id_of(items, (#[trigger] k[n]).1) == id,
                decreases known@.len() - j,
            {
                if net_id_from_value(store, known[j].1) != id {
                    proof {
                        assert(id_of(items, k[j as int].1) != id_of(items, k[0].1));
                        assert(!one_net(items, k));
                        lemma_all_bridged_fails(items, component@, first, all, i + 1);
                    }
                    let message = split_group_error(store, component, group, &known);
                    return Err(ComponentError::Failed { message });
                }
                j += 1;
            }
            proof {
                assert(one_net(items, k));
                lemma_group_nets(items, handles_in(out), texts(group@));
                assert(k[0].1 == known@[0].1);
            }
            bridge(store, &mut out, group, known[0].1);
        }
        i += 1;
    }
    proof {
        assert(all.take(all.len() as int) =~= all);
    }
    Ok(out)
}

proof fn lemma_group_nets(items: Seq<Item>, c: Seq<(Seq<char>, usize)>, group: Seq<Seq<char>>)
    ensures
        forall|i: int|
            0 <= i < group_nets(items, c, group).len() ==> {
                let e = #[trigger] group_nets(items, c, group)[i];
                group.contains(e.0) && under(c, e.0) == Some(e.1) && items[e.1 as int] is Net
            },
        forall|j: int|
            0 <= j < group.len() && under(c, #[trigger] group[j]) is Some && items[under(
                c,
                group[j],
            )->Some_0 as int] is Net ==> group_nets(items, c, group).contains(
                (group[j], under(c, group[j])->Some_0),
            ),
    decreases group.len(),
{
    if group.len() > 0 {
        let d = group.drop_last();
        lemma_group_nets(items, c, d);
        let r = group_nets(items, c, d);
        let k = group_nets(items, c, group);
        assert forall|i: int| 0 <= i < k.len() implies {
            let e = #[trigger] k[i];
            group.contains(e.0) && under(c, e.0) == Some(e.1) && items[e.1 as int] is Net
        } by {
            if i < r.len() {
                assert(k[i] == r[i]);
                let e = r[i];
                let j = choose|j: int| 0 <= j < d.len() && d[j] == e.0;
                assert(group[j] == e.0);
            } else {
                assert(group[group.len() - 1] == k[i].0);
            }
        }
        assert forall|j: int|
            0 <= j < group.len() && under(c, #[trigger] group[j]) is Some && items[under(
                c,
                group[j],
            )->Some_0 as int] is Net implies k.contains((group[j], under(c, group[j])->Some_0)) by {
            let e = (group[j], under(c, group[j])->Some_0);
            if j < d.len() {
                assert(d[j] == group[j]);
                assert(r.contains(e));
                let n = choose|n: int| 0 <= n < r.len() && r[n] == e;
                assert(k[n] == e);
            } else {
                assert(k[k.len() - 1] == e);
            }
        }
    }
}

pub proof fn lemma_bridged(c: Seq<(Seq<char>, usize)>, group: Seq<Seq<char>>, h: usize)
    requires
        distinct(c),
    ensures
        distinct(bridged(c, group, h)),
        forall|q: Seq<char>|
            #[trigger] under(bridged(c, group, h), q) == (if under(c, q) is Some {
                under(c, q)
            } else if group.contains(q) {
                Some(h)
            } else {
                None
            }),
    decreases group.len(),
{
    if group.len() > 0 {
        let d = group.drop_last();
        lemma_bridged(c, d, h);
        let r = bridged(c, d, h);
        lemma_put(r, group.last(), h);
        assert forall|q: Seq<char>|
            #[trigger] under(bridged(c, group, h), q) == (if under(c, q) is Some {
                under(c, q)
            } else if group.contains(q) {
                Some(h)
            } else {
                None
            }) by {
            assert(under(r, q) == (if under(c, q) is Some {
                under(c, q)
            } else if d.contains(q) {
                Some(h)
            } else {
                None
            }));
            if d.contains(q) {
                let i = choose|i: int| 0 <= i < d.len() && d[i] == q;
                assert(group[i] == q);
            }
            if group.contains(q) && q != group.last() {
                let i = choose|i: int| 0 <= i < group.len() && group[i] == q;
                assert(d[i] == q);
            }
            if q == group.last() {
                assert(group[group.len() - 1] == q);
            }
        }
    }
}

/// A signal that is on a net stays on it, whatever the part connects inside.
pub proof fn law_jumpers_keep_connections(
    items: Seq<Item>,
    component: Seq<char>,
    c: Seq<(Seq<char>, usize)>,
    groups: Seq<Seq<Seq<char>>>,
    signal: Seq<char>,
)
    requires
        distinct(c),
        all_bridged(items, component, c, groups) is Ok,
        under(c, signal) is Some,
    ensures
        distinct(all_bridged(items, component, c, groups)->Ok_0),
        under(all_bridged(items, component, c, groups)->Ok_0, signal) == under(c, signal),
    decreases groups.len(),
{
    if groups.len() > 0 {
        law_jumpers_keep_connections(items, component, c, groups.drop_last(), signal);
        let m = all_bridged(items, component, c, groups.drop_last())->Ok_0;
        let k = group_nets(items, m, groups.last());
        if k.len() > 0 {
            lemma_bridged(m, groups.last(), k[0].1);
        }
    }
}

proof fn lemma_bridged_distinct(
    items: Seq<Item>,
    component: Seq<char>,
    c: Seq<(Seq<char>, usize)>,
    groups: Seq<Seq<Seq<char>>>,
)
    requires
        distinct(c),
        all_nets(items, c),
        all_bridged(items, component, c, groups) is Ok,
    ensures
        distinct(all_bridged(items, component, c, groups)->Ok_0),
        all_nets(items, all_bridged(items, component, c, groups)->Ok_0),
    decreases groups.len(),
{
    if groups.len() > 0 {
        lemma_bridged_distinct(items, component, c, groups.drop_last());
        let m = all_bridged(items, component, c, groups.drop_last())->Ok_0;
        let k = group_nets(items, m, groups.last());
        if k.len() > 0 {
            lemma_bridged(m, groups.last(), k[0].1);
            lemma_group_nets(items, m, groups.last());
            lemma_bridged_nets(items, m, groups.last(), k[0].1);
        }
    }
}

proof fn lemma_bridged_nets(items: Seq<Item>, c: Seq<(Seq<char>, usize)>, group: Seq<Seq<char>>, h: usize)
    requires
        all_nets(items, c),
        items[h as int] is Net,
    ensures
        all_nets(items, bridged(c, group, h)),
    decreases group.len(),
{
    if group.len() > 0 {
        lemma_bridged_nets(items, c, group.drop_last(), h);
        lemma_put_nets(items, bridged(c, group.drop_last(), h), group.last(), h);
    }
}

/// Of a group that the part connects inside, once one signal is on a net, every signal is, and on
/// one and the same net.
pub proof fn law_jumpers_share_a_net(
    items: Seq<Item>,
    component: Seq<char>,
    c: Seq<(Seq<char>, usize)>,
    groups: Seq<Seq<Seq<char>>>,
    g: int,
    a: int,
    b: int,
)
    requires
        distinct(c),
        all_nets(items, c),
        all_bridged(items, component, c, groups) is Ok,
        0 <= g < groups.len(),
        0 <= a < groups[g].len(),
        0 <= b < groups[g].len(),
        under(c, groups[g][a]) is Some,
    ensures
        under(all_bridged(items, component, c, groups)->Ok_0, groups[g][a]) is Some,
        under(all_bridged(items, component, c, groups)->Ok_0, groups[g][b]) is Some,
        id_of(items, under(all_bridged(items, component, c, groups)->Ok_0, groups[g][a])->Some_0)
            == id_of(
            items,
            under(all_bridged(items, component, c, groups)->Ok_0, groups[g][b])->Some_0,
        ),
    decreases groups.len(),
{
    let d = groups.drop_last();
    let m = all_bridged(items, component, c, d)->Ok_0;
    let group = groups.last();
    let k = group_nets(items, m, group);
    lemma_bridged_distinct(items, component, c, d);
    lemma_group_nets(items, m, group);
    if k.len() > 0 {
        lemma_bridged(m, group, k[0].1);
    }
    let out = all_bridged(items, component, c, groups)->Ok_0;
    if g < d.len() {
        assert(d[g] == groups[g]);
        law_jumpers_share_a_net(items, component, c, d, g, a, b);
    } else {
        law_jumpers_keep_connections(items, component, c, d, group[a]);
        let ha = under(m, group[a])->Some_0;
        lemma_place(m, group[a]);
        assert(m[place(m, group[a])].1 == ha);
        assert(k.contains((group[a], ha)));
        let n = choose|n: int| 0 <= n < k.len() && k[n] == (group[a], ha);
        assert(id_of(items, k[n].1) == id_of(items, k[0].1));
        if under(m, group[b]) is Some {
            let hb = under(m, group[b])->Some_0;
            lemma_place(m, group[b]);
            assert(m[place(m, group[b])].1 == hb);
            assert(k.contains((group[b], hb)));
            let j = choose|j: int| 0 <= j < k.len() && k[j] == (group[b], hb);
            assert(id_of(items, k[j].1) == id_of(items, k[0].1));
        } else {
            assert(group.contains(group[b]));
        }
    }
}

// ---------------------------------------------------------------------------------------------
// What is not connected

/// What becomes of the signals that are not connected.
pub ghost struct Filled {
    /// The connections, with those pins that are to be left open on new nets.
    pub connections: Seq<(Seq<char>, usize)>,
    /// How many nets were made.
    pub made: int,
    /// The signals that stay unconnected.
    pub missing: Seq<Seq<char>>,
}

/// The connections with the signals that are to be left open on new nets, the first of which gets
/// the place `n`.
pub open spec fn filled(
    c: Seq<(Seq<char>, usize)>,
    signals: Seq<Seq<char>>,
    types: Seq<PinTypes>,
    n: int,
) -> Filled
    decreases signals.len(),
{
    if signals.len() == 0 {
        Filled { connections: c, made: 0, missing: Seq::<Seq<char>>::empty() }
    } else {
        let f = filled(c, signals.drop_last(), types, n);
        let signal = signals.last();
        if under(f.connections, signal) is Some {
            f
        } else if left_open(types, signal) {
            Filled {
                connections: put(f.connections, signal, (n + f.made) as usize),
                made: f.made + 1,
                missing: f.missing,
            }
        } else {
            Filled { missing: f.missing.push(signal), ..f }
        }
    }
}

/// Puts the pins that are to be left open on nets of their own; any other pin that is not connected
/// is an error.
pub fn fill_missing_pins(
    store: &mut Store,
    symbol: &SymbolValue,
    pin_types: &Vec<PinTypes>,
    connections: SmallMap<String, usize>,
    site: &Place,
) -> (r: Result<SmallMap<String, usize>, ComponentError>)
    requires
        old(store).wf(),
        distinct(handles_in(connections)),
        all_below(handles_in(connections), old(store).items@.len() as int),
        all_nets(old(store).items@, handles_in(connections)),
        old(store).next_net_id + symbol@.pads.len() <= u64::MAX,
    ensures
        final(store).wf(),
        extends(final(store).items@, old(store).items@),
        ({
            let n = old(store).items@.len();
            let f = filled(
                handles_in(connections),
                signals_of(symbol@.pads),
                pin_types@,
                n as int,
            );
            &&& final(store).items@.len() == n + f.made
            &&& final(store).next_net_id == old(store).next_net_id + f.made
            &&& forall|i: int|
                0 <= i < f.made ==> (#[trigger] final(store).items@[n + i] matches Item::Net(net)
                    && net@ == open_net((old(store).next_net_id + i) as u64, site@))
            &&& match r {
                Ok(m) => f.missing.len() == 0 && handles_in(m) == f.connections && distinct(
                    f.connections,
                ) && all_below(f.connections, final(store).items@.len() as int) && all_nets(
                    final(store).items@,
                    f.connections,
                ),
                Err(e) => f.missing.len() > 0 && e.text() == "Unconnected pin(s): "@ + joined(
                    sorted(f.missing),
                    ", "@,
                ),
            }
        }),
{
    let ghost items = store.items@;
    let ghost n = items.len();
    let ghost first = handles_in(connections);
    let ghost id = store.next_net_id;
    let ghost types = pin_types@;
    let signals = symbol.signal_names();
    let ghost all = texts(signals@);
    let mut out = connections;
    let mut missing: Vec<String> = Vec::new();
    let mut i: usize = 0;
    proof {
        assert(all.take(0) =~= Seq::<Seq<char>>::empty());
        assert(texts(missing@) =~= Seq::<Seq<char>>::empty());
        assert(items.take(n as int) =~= items);
        assert(all.len() == signals@.len());
    }
    while i < signals.len()
        invariant
            i <= signals@.len(),
            all == texts(signals@),
            all == signals_of(symbol@.pads),
            all.len() == signals@.len(),
            types == pin_types@,
            first == handles_in(connections),
            n == items.len(),
            id + all.len() <= u64::MAX,
            store.wf(),
            extends(store.items@, items),
            0 <= filled(first, all.take(i as int), types, n as int).made <= i,
            store.items@.len() == n + filled(first, all.take(i as int), types, n as int).made,
            store.next_net_id == id + filled(first, all.take(i as int), types, n as int).made,
            distinct(handles_in(out)),
            all_below(handles_in(out), store.items@.len() as int),
            all_nets(store.items@, handles_in(out)),
            handles_in(out) == filled(first, all.take(i as int), types, n as int).connections,
            texts(missing@) == filled(first, all.take(i as int), types, n as int).missing,
            forall|k: int|
                0 <= k < store.items@.len() - n ==> (#[trigger] store.items@[n
                    + k] matches Item::Net(net) && net@ == open_net(
                    (id + k) as u64,
                    site@,
                )),
        decreases signals@.len() - i,
    {
        let signal = signals[i].as_str();
        proof {
            assert(all.take(i + 1).drop_last() =~= all.take(i as int));
            assert(all.take(i + 1).last() == signal@);
        }
        if get_handle(&out, signal).is_none() {
            if is_left_open(pin_types, signal) {
                let ghost before = store.items@;
                let net_id: u64 = store.generate_net_id();
                let net = NetValue::open(net_id, site);
                let h = store.allocate(Item::Net(net));
                proof {
                    assert(store.items@.take(n as int) =~= before.take(n as int));
                    lemma_put(handles_in(out), signal@, h);
                    lemma_below_later(handles_in(out), before.len() as int, h + 1);
                    lemma_put_below(handles_in(out), signal@, h, h + 1);
                    assert(all_nets(store.items@, handles_in(out))) by {
                        assert forall|k: int| 0 <= k < handles_in(out).len() implies store.items@[(
                        #[trigger] handles_in(out)[k]).1 as int] is Net by {
                            assert(handles_in(out)[k].1 < before.len());
                            assert(store.items@[handles_in(out)[k].1 as int]
                                == before[handles_in(out)[k].1 as int]);
                        }
                    }
                    lemma_put_nets(store.items@, handles_in(out), signal@, h);
                    assert forall|k: int| 0 <= k < store.items@.len() - n implies (
                    #[trigger] store.items@[n + k] matches Item::Net(net) && net@ == open_net(
                        (id + k) as u64,
                        site@,
                    )) by {
                        if n + k < before.len() {
                            assert(store.items@[n + k] == before[n + k]);
                        }
                    }
                }
                put_handle(&mut out, signal.to_owned(), h);
            } else {
                let s = signal.to_owned();
                proof {
                    lemma_texts_push(missing@, s);
                }
                missing.push(s);
            }
        }
        i += 1;
    }
    proof {
        assert(all.take(all.len() as int) =~= all);
        assert(texts(missing@).len() == missing@.len());
    }
    if missing.len() > 0 {
        let names = sort_texts(&missing);
        let mut message = "Unconnected pin(s): ".to_owned();
        let list = join(&names, ", ");
        message.append(list.as_str());
        return Err(ComponentError::Failed { message });
    }
    Ok(out)
}

/// A component that can be made has every signal of its symbol connected.
pub proof fn law_every_signal_is_connected(
    c: Seq<(Seq<char>, usize)>,
    signals: Seq<Seq<char>>,
    types: Seq<PinTypes>,
    n: int,
)
    requires
        distinct(c),
        filled(c, signals, types, n).missing.len() == 0,
    ensures
        forall|i: int|
            0 <= i < signals.len() ==> under(
                filled(c, signals, types, n).connections,
                #[trigger] signals[i],
            ) is Some,
        forall|q: Seq<char>|
            #[trigger] under(c, q) is Some ==> under(filled(c, signals, types, n).connections, q)
                == under(c, q),
{
    lemma_filled(c, signals, types, n);
}

pub proof fn lemma_filled(c: Seq<(Seq<char>, usize)>, signals: Seq<Seq<char>>, types: Seq<PinTypes>, n: int)
    requires
        distinct(c),
    ensures
        distinct(filled(c, signals, types, n).connections),
        forall|i: int|
            0 <= i < signals.len() ==> under(
                filled(c, signals, types, n).connections,
                #[trigger] signals[i],
            ) is Some || filled(c, signals, types, n).missing.contains(signals[i]),
        forall|q: Seq<char>|
            #[trigger] under(c, q) is Some ==> under(filled(c, signals, types, n).connections, q)
                == under(c, q),
    decreases signals.len(),
{
    if signals.len() > 0 {
        let d = signals.drop_last();
        lemma_filled(c, d, types, n);
        let f = filled(c, d, types, n);
        let g = filled(c, signals, types, n);
        lemma_put(f.connections, signals.last(), (n + f.made) as usize);
        assert forall|i: int| 0 <= i < signals.len() implies under(
            g.connections,
            #[trigger] signals[i],
        ) is Some || g.missing.contains(signals[i]) by {
            if i < d.len() {
                assert(d[i] == signals[i]);
                if f.missing.contains(signals[i]) {
                    let j = choose|j: int| 0 <= j < f.missing.len() && f.missing[j] == signals[i];
                    assert(g.missing[j] == signals[i]);
                }
            } else if g.missing.len() > f.missing.len() {
                assert(g.missing[g.missing.len() - 1] == signals[i]);
            }
        }
    }
}

} // verus!
