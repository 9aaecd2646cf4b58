use pcb_zen_core::diagnostic::{Place, SourceSpan};
use pcb_zen_core::lang::net::{
    builtin_optional_net_fields, compatible_net_type_view, field_type_error,
    instantiate_not_connected, is_builtin_optional_net_field, net_kind_requires_name,
    validate_field, ConnectionIntent, FieldCheck, NetAttr, NetError, NetInstantiateIntent,
    NetInstantiateOptions, NetType, NetValue,
};
use pcb_zen_core::lang::value::{Item, Store};
use starlark::collections::SmallMap;

#[test]
fn compatible_net_type_view_is_not_canonical_promotion() {
    for (actual, expected, view) in [
        ("Power", "Net", Some("Net")),
        ("Ground", "Net", Some("Net")),
        ("Power", "Power", None),
        ("Net", "Power", None),
        ("Ground", "Power", None),
    ] {
        assert_eq!(compatible_net_type_view(actual, expected), view);
    }
}

fn net_type(label: &str, fields: &[(&str, usize)]) -> NetType {
    let mut map = SmallMap::new();
    for (k, v) in fields {
        map.insert(k.to_string(), *v);
    }
    let errors = vec![None; fields.len()];
    NetType::new(label.to_string(), map, &errors).ok().unwrap()
}

fn site(path: &str) -> Place {
    Place {
        path: path.to_string(),
        span: Some(span()),
    }
}

fn span() -> SourceSpan {
    SourceSpan {
        begin_row: 2,
        begin_col: 0,
        end_row: 2,
        end_col: 9,
    }
}

fn connected(assignment_inferable: bool) -> NetInstantiateOptions {
    NetInstantiateOptions {
        should_register: true,
        assignment_inferable,
        intent: NetInstantiateIntent::Connected,
    }
}

#[test]
fn net_kinds_need_names_but_for_open_nets() {
    assert!(net_kind_requires_name("Net"));
    assert!(!net_kind_requires_name("NotConnected"));
}

#[test]
fn built_in_types_have_optional_fields() {
    assert_eq!(builtin_optional_net_fields("Net"), ["voltage", "impedance"]);
    assert_eq!(builtin_optional_net_fields("Power"), ["voltage"]);
    assert!(is_builtin_optional_net_field("Power", "voltage"));
    assert!(!is_builtin_optional_net_field("Power", "impedance"));
    assert!(builtin_optional_net_fields("Mine").is_empty());
}

#[test]
fn the_fields_of_a_net_type_are_tested() {
    let mut fields = SmallMap::new();
    fields.insert("name".to_string(), 0);
    assert!(matches!(
        NetType::new("Net".to_string(), fields, &vec![None]),
        Err(NetError::ReservedField)
    ));
    let mut fields = SmallMap::new();
    fields.insert("voltage".to_string(), 0);
    match NetType::new(
        "Net".to_string(),
        fields,
        &vec![Some("not a type".to_string())],
    ) {
        Err(e) => assert!(e.message().contains("not a type")),
        Ok(_) => panic!("no type"),
    }
}

#[test]
fn nets_are_numbered_and_named() {
    let mut store = Store::new();
    let t = net_type("Power", &[]);
    let none = SmallMap::new();
    let (a, _, registration) = t.instantiate(
        &mut store,
        None,
        Some("VCC".to_string()),
        &none,
        &Vec::new(),
        connected(false),
        &site("/w/x.zen"),
    );
    let (b, _, _) = t.instantiate(
        &mut store,
        None,
        None,
        &none,
        &Vec::new(),
        connected(true),
        &site("/w/x.zen"),
    );
    let first = store.net(a).unwrap();
    let second = store.net(b).unwrap();
    assert_eq!(first.name(), "VCC");
    assert_eq!(first.net_type_name(), "Power");
    assert_eq!(first.net_id() + 1, second.net_id());
    let registration = registration.unwrap();
    assert_eq!(registration.net_id, first.net_id());
    assert_eq!(registration.name, "VCC");
    assert_eq!(registration.kind, "Power");
    assert!(!registration.assignment_inferable);
    assert_eq!(first.declaration_path(), Some("/w/x.zen"));
    assert_eq!(first.declaration_span(), Some(span()));
    assert_eq!(first.to_current_heap().declaration_span(), Some(span()));
}

#[test]
fn a_name_is_inferred_once() {
    let mut store = Store::new();
    let t = net_type("Net", &[]);
    let none = SmallMap::new();
    let (h, _, _) = t.instantiate(
        &mut store,
        None,
        None,
        &none,
        &Vec::new(),
        connected(true),
        &site(""),
    );
    if let Item::Net(n) = &mut store.items[h] {
        n.infer_assignment_name("A".to_string());
        n.infer_assignment_name("B".to_string());
    }
    assert_eq!(store.net(h).unwrap().name(), "A");
}

#[test]
fn a_base_keeps_its_number() {
    let mut store = Store::new();
    let net = net_type("Net", &[]);
    let power = net_type("Power", &[]);
    let none = SmallMap::new();
    let (base, _, _) = net.instantiate(
        &mut store,
        None,
        Some("VCC".to_string()),
        &none,
        &Vec::new(),
        connected(false),
        &site(""),
    );
    let (h, _, _) = power.instantiate(
        &mut store,
        Some(base),
        None,
        &none,
        &Vec::new(),
        connected(false),
        &site(""),
    );
    assert_eq!(
        store.net(h).unwrap().net_id(),
        store.net(base).unwrap().net_id()
    );
    assert_eq!(store.net(h).unwrap().net_type_name(), "Power");
    assert_eq!(store.net(h).unwrap().name(), "VCC");
}

#[test]
fn open_nets_take_a_name_only_to_be_warned_of() {
    let mut store = Store::new();
    let name = store.alloc_text("X");
    let (h, warned) = instantiate_not_connected(
        &mut store,
        &vec![name],
        &Vec::new(),
        &site("/w/x.zen"),
    )
    .ok()
    .unwrap();
    let note = warned.unwrap();
    assert_eq!(note.place.path, "/w/x.zen");
    assert_eq!(note.place.span, Some(span()));
    assert_eq!(
        note.notice.message,
        "NotConnected does not support names; name ignored"
    );
    assert_eq!(note.notice.kind, "net.not_connected_name_ignored");
    let (_, silent) = instantiate_not_connected(&mut store, &Vec::new(), &Vec::new(), &site(""))
        .ok()
        .unwrap();
    assert!(silent.is_none());
    assert!(store.net(h).unwrap().is_open());
    assert_eq!(store.net(h).unwrap().net_kind_name(), "NotConnected");
    let number = store.allocate(Item::Int(3));
    let r = instantiate_not_connected(&mut store, &vec![number], &Vec::new(), &site(""));
    assert!(matches!(r, Err(NetError::OpenNotAName { .. })));
    let r = instantiate_not_connected(&mut store, &vec![name, name], &Vec::new(), &site(""));
    assert!(matches!(r, Err(NetError::OpenTooMany)));
    let r = instantiate_not_connected(
        &mut store,
        &Vec::new(),
        &vec![("x".to_string(), name)],
        &site(""),
    );
    assert!(matches!(r, Err(NetError::OpenUnexpected { .. })));
    let r = instantiate_not_connected(
        &mut store,
        &Vec::new(),
        &vec![("name".to_string(), number)],
        &site(""),
    );
    assert!(matches!(r, Err(NetError::OpenNameNotText { .. })));
}

#[test]
fn the_first_argument_is_a_name_or_a_net() {
    let mut store = Store::new();
    let t = net_type("Net", &[]);
    let name = store.alloc_text("VCC");
    let read = t.read_arguments(&store, Some(name), None).ok().unwrap();
    assert_eq!(read.explicit_name.as_deref(), Some("VCC"));
    let net = store.allocate(Item::Net(NetValue::new(
        1,
        "A".to_string(),
        SmallMap::new(),
    )));
    let read = t.read_arguments(&store, Some(net), None).ok().unwrap();
    assert_eq!(read.base, Some(net));
    let number = store.allocate(Item::Int(3));
    assert!(matches!(
        t.read_arguments(&store, Some(number), None),
        Err(NetError::NeitherNameNorNet { .. })
    ));
    assert!(matches!(
        t.read_arguments(&store, None, Some(number)),
        Err(NetError::NotAName { .. })
    ));
}

#[test]
fn attributes_of_nets() {
    let mut properties = SmallMap::new();
    properties.insert("symbol".to_string(), 7);
    let n = NetValue::new(1, "A".to_string(), properties);
    assert!(matches!(n.get_attr("symbol"), Some(NetAttr::Property(7))));
    assert!(matches!(n.get_attr("voltage"), Some(NetAttr::Unset)));
    assert!(matches!(n.get_attr("NET"), Some(NetAttr::AsNet)));
    assert!(n.get_attr("nonsense").is_none());
    assert!(n.has_attr("symbol"));
    assert_eq!(n.connection_intent, ConnectionIntent::Connected);
    assert!(n.matches_type_name("Net"));
    assert!(!n.matches_type_name("Power"));
}

#[test]
fn fields_are_validated_by_what_fits() {
    let check = FieldCheck {
        type_known: true,
        provided: Some(4),
        default: None,
        matches: true,
        converted: None,
    };
    assert_eq!(validate_field(&check).ok(), Some(Some(4)));
    let check = FieldCheck {
        type_known: true,
        provided: Some(4),
        default: None,
        matches: false,
        converted: Some((5, true)),
    };
    assert_eq!(validate_field(&check).ok(), Some(Some(5)));
    let check = FieldCheck {
        type_known: true,
        provided: Some(4),
        default: None,
        matches: false,
        converted: None,
    };
    assert!(validate_field(&check).is_err());
    assert!(field_type_error("voltage", "Voltage", "x", "string").contains("voltage"));
}
