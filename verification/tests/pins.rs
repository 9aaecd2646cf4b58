use pcb_zen_core::diagnostic::{Place, SourceSpan};
use pcb_zen_core::lang::component::ComponentError;
use pcb_zen_core::lang::net::NetValue;
use pcb_zen_core::lang::pins::{
    apply_explicit_jumper_connections, choose_symbol, connect_pins, fill_missing_pins,
    is_left_open, parse_pin_defs, pin_type_accepts_net_kind, warn_pin_net_compatibility, PinTypes,
    PinWarning,
};
use pcb_zen_core::lang::symbol::{InternalConnectivity, SymbolPin, SymbolValue};
use pcb_zen_core::lang::value::{DictKey, Item, Store};
use starlark::collections::SmallMap;

fn symbol(pads: &[(&str, &str)], groups: &[&[&str]]) -> SymbolValue {
    let mut pad_to_signal = SmallMap::new();
    let mut pins = Vec::new();
    for (pad, signal) in pads {
        pad_to_signal.insert(pad.to_string(), signal.to_string());
        pins.push(SymbolPin {
            name: signal.to_string(),
            number: pad.to_string(),
            electrical_type: None,
            graphical_style: None,
            hidden: false,
            alternates: Vec::new(),
        });
    }
    SymbolValue {
        name: Some("S".to_string()),
        pad_to_signal,
        pins,
        source_uri: None,
        raw_sexp: None,
        properties: SmallMap::new(),
        in_bom: true,
        internal_connectivity: InternalConnectivity {
            duplicate_numbers_are_jumpers: false,
            groups: groups
                .iter()
                .map(|g| g.iter().map(|p| p.to_string()).collect())
                .collect(),
        },
    }
}

fn net(store: &mut Store, name: &str) -> usize {
    let id = store.generate_net_id();
    store.allocate(Item::Net(NetValue::new(
        id,
        name.to_string(),
        SmallMap::new(),
    )))
}

fn dict(store: &mut Store, entries: &[(&str, usize)]) -> usize {
    let v = entries
        .iter()
        .map(|(k, h)| {
            (
                DictKey {
                    text: k.to_string(),
                    is_string: true,
                },
                *h,
            )
        })
        .collect();
    store.allocate(Item::Dict(v))
}

fn site(path: &str) -> Place {
    Place {
        path: path.to_string(),
        span: Some(span()),
    }
}

fn span() -> SourceSpan {
    SourceSpan {
        begin_row: 2,
        begin_col: 0,
        end_row: 2,
        end_col: 9,
    }
}

fn id_of(store: &Store, h: usize) -> u64 {
    store.net(h).unwrap().net_id()
}

#[test]
fn pins_are_connected_by_signal() {
    let mut store = Store::new();
    let s = symbol(&[("1", "A"), ("2", "B")], &[]);
    let a = net(&mut store, "NA");
    let b = net(&mut store, "NB");
    let pins = dict(&mut store, &[("A", a), ("B", b)]);
    let (r, notes) = connect_pins(&store, "U1", &s, &Vec::new(), pins, &site("/w/x.zen"));
    let connections = r.ok().unwrap();
    assert_eq!(connections.get("A"), Some(&a));
    assert_eq!(connections.get("B"), Some(&b));
    assert!(notes.is_empty());
}

#[test]
fn a_pin_must_be_one_of_the_symbol() {
    let mut store = Store::new();
    let s = symbol(&[("1", "A")], &[]);
    let a = net(&mut store, "NA");
    let pins = dict(&mut store, &[("X", a)]);
    let (r, _) = connect_pins(&store, "U1", &s, &Vec::new(), pins, &site("/w/x.zen"));
    assert_eq!(
        r.err().unwrap().message(),
        "Unknown pin name 'X' (expected one of: A)"
    );
}

#[test]
fn jumpers_carry_a_net_to_their_group() {
    let mut store = Store::new();
    let s = symbol(&[("1", "A"), ("2", "B"), ("3", "C")], &[&["1", "2"]]);
    let a = net(&mut store, "NA");
    let c = net(&mut store, "NC");
    let mut connections = SmallMap::new();
    connections.insert("A".to_string(), a);
    connections.insert("C".to_string(), c);
    let joined = apply_explicit_jumper_connections(&store, "U1", &s, connections)
        .ok()
        .unwrap();
    assert_eq!(id_of(&store, *joined.get("B").unwrap()), id_of(&store, a));
    assert_eq!(joined.get("A"), Some(&a));
    assert_eq!(joined.get("C"), Some(&c));
}

#[test]
fn jumpers_do_not_join_two_nets() {
    let mut store = Store::new();
    let s = symbol(&[("1", "A"), ("2", "B")], &[&["1", "2"]]);
    let a = net(&mut store, "NA");
    let b = net(&mut store, "NB");
    let mut connections = SmallMap::new();
    connections.insert("A".to_string(), a);
    connections.insert("B".to_string(), b);
    assert!(apply_explicit_jumper_connections(&store, "U1", &s, connections).is_err());
}

#[test]
fn signals_that_may_stay_open_get_open_nets() {
    let mut store = Store::new();
    let s = symbol(&[("1", "A"), ("2", "NC")], &[]);
    let a = net(&mut store, "NA");
    let types = vec![PinTypes {
        signal: "NC".to_string(),
        types: vec!["no_connect".to_string()],
        only_no_connect: true,
    }];
    assert!(is_left_open(&types, "NC"));
    assert!(!is_left_open(&types, "A"));
    let mut connections = SmallMap::new();
    connections.insert("A".to_string(), a);
    let filled = fill_missing_pins(&mut store, &s, &types, connections, &site("/w/x.zen"))
        .ok()
        .unwrap();
    let open = store.net(*filled.get("NC").unwrap()).unwrap();
    assert!(open.is_open());
    assert_eq!(open.declaration_path(), Some("/w/x.zen"));
    assert_eq!(open.declaration_span(), Some(span()));
    let missing = fill_missing_pins(&mut store, &s, &types, SmallMap::new(), &site("/w/x.zen"));
    assert!(missing.is_err());
}

#[test]
fn pin_types_have_their_kinds_of_nets() {
    assert!(pin_type_accepts_net_kind("power_in", "Power"));
    assert!(pin_type_accepts_net_kind("power_in", "Ground"));
    assert!(!pin_type_accepts_net_kind("power_in", "Net"));
}

#[test]
fn an_open_pin_that_is_connected_is_warned_of() {
    let types = vec![PinTypes {
        signal: "NC".to_string(),
        types: vec!["no_connect".to_string()],
        only_no_connect: true,
    }];
    let n = NetValue::new(1, "A".to_string(), SmallMap::new());
    let note = warn_pin_net_compatibility(&types, "U1", "NC", &n, &site("/w/x.zen")).unwrap();
    assert!(matches!(note.warning, PinWarning::NoConnect));
    assert!(warn_pin_net_compatibility(&types, "U1", "A", &n, &site("/w/x.zen")).is_none());
    let power = vec![PinTypes {
        signal: "V".to_string(),
        types: vec!["power_in".to_string()],
        only_no_connect: false,
    }];
    let note = warn_pin_net_compatibility(&power, "U1", "V", &n, &site("/w/x.zen")).unwrap();
    assert!(matches!(note.warning, PinWarning::PlainNet));
    assert_eq!(note.place.path, "/w/x.zen");
    assert_eq!(note.place.span, Some(span()));
    let made = NetValue::open(2, &site("/w/net.zen"));
    let mut elsewhere = made.with_declaration_site(&Place {
        path: "/w/y.zen".to_string(),
        span: None,
    });
    elsewhere.connection_intent = n.connection_intent;
    let there = warn_pin_net_compatibility(&power, "U1", "V", &elsewhere, &site("/w/x.zen")).unwrap();
    assert_eq!(there.place.path, "/w/y.zen");
    assert_eq!(there.place.span, None);
    let notice = note.notice("x".to_string());
    assert!(notice.message.contains("U1"));
}

#[test]
fn pin_definitions_make_a_symbol() {
    let mut store = Store::new();
    let one = store.alloc_text("1");
    let two = store.alloc_text("2");
    let defs = dict(&mut store, &[("A", one), ("B", two)]);
    let pads = parse_pin_defs(&store, defs).ok().unwrap();
    assert_eq!(pads.get("1").map(String::as_str), Some("A"));
    let made = choose_symbol(&store, Some(defs), None).ok().unwrap();
    assert_eq!(made.pad_to_signal().len(), 2);
    assert!(choose_symbol(&store, None, None).is_err());
    let wrong = store.allocate(Item::Int(1));
    assert!(matches!(
        parse_pin_defs(&store, wrong),
        Err(ComponentError::PinDefsNotDict)
    ));
    let bad = dict(&mut store, &[("A", wrong)]);
    assert!(matches!(
        parse_pin_defs(&store, bad),
        Err(ComponentError::PadNotString)
    ));
}
