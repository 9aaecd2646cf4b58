use pcb_zen_core::diagnostic::{Place, SourceSpan};
use pcb_zen_core::lang::interface::{
    declare_interface, show_interface, Effect, InstancePrefix, ProvidedField,
};
use pcb_zen_core::lang::net::{NetInstantiateIntent, NetInstantiateOptions, NetType};
use pcb_zen_core::lang::value::{InterfaceFactory, InterfaceValue, Item, Store};
use pcb_zen_core::render::show_interface_value;
use starlark::collections::SmallMap;

fn site(path: &str) -> Place {
    Place {
        path: path.to_string(),
        span: Some(span()),
    }
}

fn span() -> SourceSpan {
    SourceSpan {
        begin_row: 2,
        begin_col: 0,
        end_row: 2,
        end_col: 9,
    }
}

fn net_type(store: &mut Store) -> usize {
    let t = NetType::new("Net".to_string(), SmallMap::new(), &Vec::new())
        .ok()
        .unwrap();
    store.allocate(Item::NetType(t))
}

fn net(store: &mut Store, name: &str) -> usize {
    let t = NetType::new("Net".to_string(), SmallMap::new(), &Vec::new())
        .ok()
        .unwrap();
    let explicit = if name.is_empty() {
        None
    } else {
        Some(name.to_string())
    };
    let options = NetInstantiateOptions {
        should_register: true,
        assignment_inferable: explicit.is_none(),
        intent: NetInstantiateIntent::Connected,
    };
    let none = SmallMap::new();
    t.instantiate(
        store,
        None,
        explicit,
        &none,
        &Vec::new(),
        options,
        &site("/w/x.zen"),
    )
    .0
}

fn interface(store: &mut Store, name: Option<&str>, fields: &[(&str, usize)]) -> usize {
    let arguments: Vec<(String, usize)> =
        fields.iter().map(|(k, v)| (k.to_string(), *v)).collect();
    let (declared, _) = declare_interface(store, &arguments);
    let mut factory = declared.ok().unwrap();
    if let Some(name) = name {
        factory.export_as(name);
    }
    store.allocate(Item::InterfaceFactory(factory))
}

/// `variable = Factory(name)`, and the names that its nets then have, field by field.
fn instance(store: &mut Store, factory: usize, name: Option<&str>, variable: &str) -> usize {
    let given = name.map(|n| store.alloc_text(n));
    let (made, effects) =
        InterfaceFactory::invoke(store, factory, given, None, &Vec::new(), &site("/w/x.zen"));
    let h = made.ok().unwrap();
    assert!(effects
        .iter()
        .any(|e| matches!(e, Effect::Register { .. }) || matches!(e, Effect::Moved { .. })));
    for (net, final_name) in InterfaceValue::export_as(store, h, variable) {
        if let Item::Net(n) = &mut store.items[net] {
            n.infer_assignment_name(final_name);
        }
    }
    h
}

fn net_name(store: &Store, instance: usize, field: &str) -> String {
    match &store.items[instance] {
        Item::Interface(v) => {
            let h = v.get_attr(field).unwrap();
            store.net(h).unwrap().name().to_string()
        }
        _ => panic!("an instance"),
    }
}

fn factory_of(store: &Store, h: usize) -> &InterfaceFactory {
    match &store.items[h] {
        Item::InterfaceFactory(f) => f,
        _ => panic!("an interface"),
    }
}

fn instance_of(store: &Store, h: usize) -> &InterfaceValue {
    match &store.items[h] {
        Item::Interface(v) => v,
        _ => panic!("an instance"),
    }
}

fn sorted(mut names: Vec<String>) -> Vec<String> {
    names.sort();
    names
}

#[test]
fn interface_name_captured() {
    let mut store = Store::new();
    let net = net_type(&mut store);
    let power = interface(&mut store, Some("Power"), &[("vcc", net), ("gnd", net)]);
    assert_eq!(show_interface(&store, power), "Power");
}

#[test]
fn interface_dir_attr() {
    let mut store = Store::new();
    let net = net_type(&mut store);
    let power = interface(&mut store, Some("Power"), &[("vcc", net), ("gnd", net)]);
    assert_eq!(
        sorted(factory_of(&store, power).dir_attr()),
        ["gnd", "vcc"]
    );

    let power_instance = instance(&mut store, power, None, "power_instance");
    assert_eq!(
        sorted(instance_of(&store, power_instance).dir_attr()),
        ["gnd", "vcc"]
    );

    let system = interface(&mut store, Some("System"), &[("power", power), ("data", net)]);
    let system_instance = instance(&mut store, system, None, "system_instance");
    assert_eq!(
        sorted(factory_of(&store, system).dir_attr()),
        ["data", "power"]
    );
    assert_eq!(
        sorted(instance_of(&store, system_instance).dir_attr()),
        ["data", "power"]
    );
    let inner = instance_of(&store, system_instance)
        .get_attr("power")
        .unwrap();
    assert_eq!(sorted(instance_of(&store, inner).dir_attr()), ["gnd", "vcc"]);
}

#[test]
fn interface_net_naming_behavior() {
    let mut store = Store::new();
    let net_t = net_type(&mut store);

    // A net type makes a name.
    let power1 = interface(&mut store, Some("Power1"), &[("vcc", net_t)]);
    let instance1 = instance(&mut store, power1, None, "instance1");
    assert_eq!(net_name(&store, instance1, "vcc"), "instance1_vcc");

    // A net with a name uses it.
    let named = net(&mut store, "MY_VCC");
    let power2 = interface(&mut store, Some("Power2"), &[("vcc", named)]);
    let instance2 = instance(&mut store, power2, None, "instance2");
    assert_eq!(net_name(&store, instance2, "vcc"), "instance2_MY_VCC");

    // A net without a name makes one, as the type does.
    let unnamed = net(&mut store, "");
    let power3 = interface(&mut store, Some("Power3"), &[("vcc", unnamed)]);
    let instance3 = instance(&mut store, power3, None, "instance3");
    assert_eq!(net_name(&store, instance3, "vcc"), "instance3_vcc");

    // The name of the instance stands before that of the field.
    let power4 = interface(&mut store, Some("Power4"), &[("vcc", net_t)]);
    let instance4 = instance(&mut store, power4, Some("PWR"), "instance4");
    assert_eq!(net_name(&store, instance4, "vcc"), "PWR_vcc");

    let unnamed = net(&mut store, "");
    let power5 = interface(&mut store, Some("Power5"), &[("vcc", unnamed)]);
    let instance5 = instance(&mut store, power5, Some("PWR"), "instance5");
    assert_eq!(net_name(&store, instance5, "vcc"), "PWR_vcc");
}

#[test]
fn an_interface_without_a_name_shows_its_fields() {
    let mut store = Store::new();
    let net = net_type(&mut store);
    let inner = interface(&mut store, None, &[("vcc", net)]);
    let outer = interface(&mut store, None, &[("power", inner), ("data", net)]);
    assert_eq!(
        show_interface(&store, outer),
        "interface(power: interface(vcc: NetType), data: NetType)"
    );
}

#[test]
fn an_instance_shows_its_fields_in_order() {
    let mut store = Store::new();
    let net = net_type(&mut store);
    let power = interface(&mut store, Some("Power"), &[("vcc", net), ("gnd", net)]);
    let h = instance(&mut store, power, None, "p");
    let shown = vec!["V".to_string(), "G".to_string()];
    assert_eq!(
        show_interface_value(&store, h, &shown).as_deref(),
        Some("Power(gnd=G, vcc=V)")
    );
    assert_eq!(show_interface_value(&store, power, &shown), None);
}

#[test]
fn provided_fields_are_taken() {
    let mut store = Store::new();
    let t = net_type(&mut store);
    let power = interface(&mut store, Some("Power"), &[("vcc", t), ("gnd", t)]);
    let mine = net(&mut store, "MINE");
    let provided = vec![ProvidedField {
        name: "vcc".to_string(),
        value: Ok(mine),
    }];
    let (made, _) = InterfaceFactory::invoke(&mut store, power, None, None, &provided, &site("/w/x.zen"));
    let h = made.ok().unwrap();
    let taken = instance_of(&store, h).get_attr("vcc").unwrap();
    assert_eq!(store.net(taken).unwrap().name(), "MINE");

    let wrong = vec![ProvidedField {
        name: "vcc".to_string(),
        value: Err("no net".to_string()),
    }];
    let (made, _) = InterfaceFactory::invoke(&mut store, power, None, None, &wrong, &site("/w/x.zen"));
    assert!(made.is_err());
}

#[test]
fn new_instances_have_nets_of_their_own() {
    let mut store = Store::new();
    let t = net_type(&mut store);
    let power = interface(&mut store, Some("Power"), &[("vcc", t)]);
    let a = instance(&mut store, power, None, "a");
    let b = instance(&mut store, power, None, "b");
    let na = instance_of(&store, a).get_attr("vcc").unwrap();
    let nb = instance_of(&store, b).get_attr("vcc").unwrap();
    assert_ne!(
        store.net(na).unwrap().net_id(),
        store.net(nb).unwrap().net_id()
    );
}

#[test]
fn two_fields_of_one_net_stay_one_net() {
    let mut store = Store::new();
    let t = net_type(&mut store);
    let pair = interface(&mut store, Some("Pair"), &[("a", t), ("b", t)]);
    let shared = net(&mut store, "S");
    let provided = vec![
        ProvidedField {
            name: "a".to_string(),
            value: Ok(shared),
        },
        ProvidedField {
            name: "b".to_string(),
            value: Ok(shared),
        },
    ];
    let (made, _) = InterfaceFactory::invoke(&mut store, pair, None, None, &provided, &site("/w/x.zen"));
    let template = made.ok().unwrap();
    let outer = interface(&mut store, Some("Outer"), &[("pair", template)]);
    let h = instance(&mut store, outer, None, "x");
    let inner = instance_of(&store, h).get_attr("pair").unwrap();
    let a = instance_of(&store, inner).get_attr("a").unwrap();
    let b = instance_of(&store, inner).get_attr("b").unwrap();
    assert_eq!(
        store.net(a).unwrap().net_id(),
        store.net(b).unwrap().net_id()
    );
    assert_ne!(
        store.net(a).unwrap().net_id(),
        store.net(shared).unwrap().net_id()
    );
}

#[test]
fn prefixes_join_names() {
    assert_eq!(InstancePrefix::join("", "vcc"), "vcc");
    assert_eq!(InstancePrefix::join("PWR", "vcc"), "PWR_vcc");
    let p = InstancePrefix::from_root("PWR").child("usb");
    assert_eq!(
        p.net_names("dp"),
        ("PWR_usb_dp".to_string(), "PWR_USB_DP".to_string())
    );
    assert_eq!(
        InstancePrefix::empty().net_names("vcc"),
        ("_vcc".to_string(), "VCC".to_string())
    );
}

#[test]
fn a_declaration_needs_fields_that_are_templates() {
    let mut store = Store::new();
    let text = store.alloc_text("x");
    let (declared, _) = declare_interface(&store, &vec![("vcc".to_string(), text)]);
    assert!(declared.is_err());
}
