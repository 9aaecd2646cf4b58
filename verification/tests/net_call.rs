use pcb_zen_core::diagnostic::{Place, SourceSpan};
use pcb_zen_core::lang::net::{
    FieldCheck, NetInstantiateIntent, NetInstantiateOptions, NetType, NetValue,
};
use pcb_zen_core::lang::net_call::FieldGiven;
use pcb_zen_core::lang::param_decl::register_provided_io_net;
use pcb_zen_core::lang::value::{Item, Store};
use starlark::collections::SmallMap;

fn site() -> Place {
    Place {
        path: "/w/x.zen".to_string(),
        span: Some(SourceSpan {
            begin_row: 1,
            begin_col: 0,
            end_row: 1,
            end_col: 4,
        }),
    }
}

fn net_type(label: &str, fields: &[&str]) -> NetType {
    let mut map = SmallMap::new();
    for field in fields {
        map.insert(field.to_string(), 0);
    }
    NetType::new(label.to_string(), map, &vec![None; fields.len()])
        .ok()
        .unwrap()
}

fn given(provided: Option<usize>, default: Option<usize>, matches: bool) -> FieldGiven {
    FieldGiven {
        check: FieldCheck {
            type_known: true,
            provided,
            default,
            matches,
            converted: None,
        },
        conversion_error: None,
        expected: "int".to_string(),
        shown: "\"x\"".to_string(),
    }
}

fn net(store: &mut Store, name: &str) -> usize {
    let id = store.generate_net_id();
    store.allocate(Item::Net(NetValue::new(
        id,
        name.to_string(),
        SmallMap::new(),
    )))
}

#[test]
fn a_constructor_makes_a_net() {
    let mut store = Store::new();
    let name = store.alloc_text("VCC");
    let value = store.allocate(Item::Int(3));
    let fallback = store.allocate(Item::Int(4));
    let t = net_type("Rail", &["a", "b", "c"]);
    let fields = vec![
        given(Some(value), None, true),
        given(None, Some(fallback), false),
        given(None, None, false),
    ];
    let made = t.invoke(&mut store, Some(name), None, true, &fields, None, &site());
    let h = made.net.ok().unwrap();
    let n = store.net(h).unwrap();
    assert_eq!(n.name(), "VCC");
    assert_eq!(n.net_type_name(), "Rail");
    assert_eq!(n.properties().get("a"), Some(&value));
    assert_eq!(n.properties().get("b"), Some(&fallback));
    assert_eq!(n.properties().get("c"), None);
    assert_eq!(n.declaration_span(), site().span);
    assert_eq!(made.registration.unwrap().name, "VCC");
    assert!(made.ignored.is_none());
}

#[test]
fn a_name_that_is_refused_makes_no_net() {
    let mut store = Store::new();
    let name = store.alloc_text("V CC");
    let t = net_type("Net", &[]);
    let refused = Some("no name".to_string());
    let made = t.invoke(&mut store, Some(name), None, true, &Vec::new(), refused, &site());
    assert_eq!(made.net.err().as_deref(), Some("no name"));
    assert!(made.registration.is_none());
    assert_eq!(store.items.len(), 1);
    assert_eq!(store.next_net_id, 1);
    let unasked = Some("no name".to_string());
    let made = t.invoke(&mut store, None, None, true, &Vec::new(), unasked, &site());
    assert!(made.net.is_ok());
}

#[test]
fn the_first_field_that_fails_gives_the_error() {
    let mut store = Store::new();
    let text = store.alloc_text("x");
    let t = net_type("Rail", &["a", "b"]);
    let mut fields = vec![given(Some(text), None, false), given(Some(text), None, false)];
    let made = t.invoke(&mut store, None, None, true, &fields, None, &site());
    assert_eq!(
        made.net.err().as_deref(),
        Some("Field `a` has wrong type: expected `int`, got value `\"x\"` of type `string`")
    );
    assert_eq!(store.items.len(), 1);
    assert_eq!(store.next_net_id, 2);
    fields[0].conversion_error = Some("no number".to_string());
    let made = t.invoke(&mut store, None, None, true, &fields, None, &site());
    assert_eq!(made.net.err().as_deref(), Some("no number"));
}

#[test]
fn arguments_of_a_constructor_are_tested() {
    let mut store = Store::new();
    let number = store.allocate(Item::Int(3));
    let t = net_type("Power", &[]);
    let made = t.invoke(&mut store, None, Some(number), true, &Vec::new(), None, &site());
    assert_eq!(
        made.net.err().as_deref(),
        Some("Power() 'name' must be string, got int")
    );
    let made = t.invoke(&mut store, Some(number), None, true, &Vec::new(), None, &site());
    assert_eq!(
        made.net.err().as_deref(),
        Some("Power() expects string or Net value as positional, got int")
    );
}

#[test]
fn an_open_net_ignores_its_name_before_it_fails() {
    let mut store = Store::new();
    let open = store.allocate(Item::Net(NetValue::open(9, &site())));
    let text = store.alloc_text("x");
    let t = net_type("Rail", &["a"]);
    let options = NetInstantiateOptions {
        should_register: true,
        assignment_inferable: false,
        intent: NetInstantiateIntent::PreserveBase,
    };
    let made = t.instantiate_checked(
        &mut store,
        Some(open),
        Some("X".to_string()),
        &vec![given(Some(text), None, false)],
        options,
        Some("never asked".to_string()),
        &site(),
    );
    assert!(made.net.err().unwrap().starts_with("Field `a`"));
    assert_eq!(made.ignored.unwrap().place.path, "/w/x.zen");
}

#[test]
fn an_unnamed_net_takes_the_name_of_the_input() {
    let mut store = Store::new();
    let typ = store.allocate(Item::NetType(net_type("Power", &[])));
    let unnamed = net(&mut store, "");
    let named = net(&mut store, "A");
    let none = Vec::new();
    let mut provide = |store: &mut Store, value: usize, typ: usize, elsewhere: bool| {
        register_provided_io_net(store, "vin", value, typ, elsewhere, &none, None, &site())
    };
    let made = provide(&mut store, unnamed, typ, false);
    let h = made.net.ok().unwrap();
    let n = store.net(h).unwrap();
    assert_eq!(n.name(), "vin");
    assert_eq!(n.net_type_name(), "Power");
    assert_eq!(n.net_id(), store.net(unnamed).unwrap().net_id());
    assert_eq!(made.registration.unwrap().name, "vin");

    let made = provide(&mut store, named, typ, false);
    assert_eq!(made.net.ok(), Some(named));
    assert!(made.registration.is_none());

    let made = provide(&mut store, named, typ, true);
    let h = made.net.ok().unwrap();
    assert_ne!(h, named);
    assert_eq!(store.net(h).unwrap().name(), "A");
    assert_eq!(store.net(h).unwrap().net_type_name(), "Power");

    let made = provide(&mut store, unnamed, unnamed, false);
    assert_eq!(made.net.ok(), Some(unnamed));

    let refused = register_provided_io_net(
        &mut store,
        "v in",
        unnamed,
        typ,
        false,
        &Vec::new(),
        Some("no name".to_string()),
        &site(),
    );
    assert_eq!(refused.net.err().as_deref(), Some("no name"));
}
