use pcb_zen_core::convert::{
    collect_net_ids_from_value, diagnose_missing_bom_part_components,
    diagnose_not_connected_multi_port, is_house_bom_match_eligible, is_valid_moved_depth,
    net_info_requires_name, path_depth, sanitize_nc_fragment, scoped_path,
    validate_and_filter_moved_directives, BomEntry, IntroducedNet, ModuleConverter, ModuleParam,
    ModuleValue, MovedDirective, MovedFault, PortLabel, PositionEntry,
};
use pcb_zen_core::diagnostic::Place;
use pcb_zen_core::lang::component_type::{ComponentArguments, ComponentType, DatasheetFound};
use pcb_zen_core::lang::component_type::{
    finish_spice_model, finish_symbol_datasheet, plan_symbol_datasheet, request_spice_model,
    DatasheetPlan,
};
use pcb_zen_core::lang::component_value::{ComponentAttr, ComponentData, ComponentValue};
use pcb_zen_core::lang::net::NetValue;
use pcb_zen_core::lang::part::PartValue;
use pcb_zen_core::lang::symbol::{InternalConnectivity, SymbolValue};
use pcb_zen_core::lang::value::{DictKey, Item, SpiceModelValue, Store};
use pcb_zen_core::map::SortedMap;
use pcb_zen_core::render::show_component;
use pcb_zen_core::schematic::{
    serialize_value, to_attribute_value, AttributeValue, InstanceKind, InstancePath, Json, Scalar,
};
use starlark::collections::SmallMap;

fn symbol(pads: &[(&str, &str)], properties: &[(&str, &str)]) -> SymbolValue {
    let mut pad_to_signal = SmallMap::new();
    for (pad, signal) in pads {
        pad_to_signal.insert(pad.to_string(), signal.to_string());
    }
    let mut props = SmallMap::new();
    for (k, v) in properties {
        props.insert(k.to_string(), v.to_string());
    }
    SymbolValue {
        name: Some("R".to_string()),
        pad_to_signal,
        pins: Vec::new(),
        source_uri: Some("package://lib/R.kicad_sym".to_string()),
        raw_sexp: None,
        properties: props,
        in_bom: true,
        internal_connectivity: InternalConnectivity::none(),
    }
}

fn net(store: &mut Store, name: &str, label: &str) -> usize {
    let id = store.generate_net_id();
    let mut n = NetValue::new(id, name.to_string(), SmallMap::new());
    n.type_label = label.to_string();
    store.allocate(Item::Net(n))
}

fn resistor(name: &str, a: usize, b: usize) -> ComponentValue {
    let mut connections = SmallMap::new();
    connections.insert("P1".to_string(), a);
    connections.insert("P2".to_string(), b);
    ComponentValue {
        name: name.to_string(),
        ctype: Some("resistor".to_string()),
        footprint: "R.kicad_mod".to_string(),
        prefix: "R".to_string(),
        connections,
        data: ComponentData {
            part: None,
            bom_mpn: None,
            spice_model: None,
            dnp: false,
            skip_bom: false,
            skip_pos: false,
            datasheet: None,
            component_datasheet: None,
            symbol_datasheet: None,
            properties: SmallMap::new(),
        },
        source_path: "/w/x.zen".to_string(),
        declaration_span: None,
        symbol: symbol(&[("1", "P1"), ("2", "P2")], &[]),
        description: None,
    }
}

fn path(segments: &[&str]) -> InstancePath {
    InstancePath {
        segments: segments.iter().map(|s| s.to_string()).collect(),
    }
}

fn module(name: &str, at: &[&str], components: Vec<ComponentValue>) -> ModuleValue {
    ModuleValue {
        path: path(at),
        name: name.to_string(),
        source_path: "/w/x.zen".to_string(),
        properties: SmallMap::new(),
        signature: Vec::new(),
        introduced_nets: Vec::new(),
        components,
        positions: Vec::new(),
        moved_directives: Vec::new(),
    }
}

fn introduced(store: &Store, h: usize) -> IntroducedNet {
    let n = store.net(h).unwrap();
    IntroducedNet {
        id: n.net_id(),
        name: n.name().to_string(),
        kind: n.net_kind_name().to_string(),
    }
}

#[test]
fn a_module_becomes_instances_and_nets() {
    let mut store = Store::new();
    let vcc = net(&mut store, "VCC", "Power");
    let gnd = net(&mut store, "GND", "Ground");
    let mut root = module("<root>", &[], vec![resistor("R1", vcc, gnd)]);
    root.introduced_nets = vec![introduced(&store, vcc), introduced(&store, gnd)];
    let (built, nets) = ModuleConverter::build(&store, &vec![root]).ok().unwrap();
    let r1 = built.instances.get(&path(&["R1"])).unwrap();
    assert!(matches!(r1.kind, InstanceKind::Component));
    assert!(built.instances.get(&path(&["R1", "P1"])).is_some());
    let names: Vec<(String, String)> = nets.iter().map(|n| (n.name.clone(), n.kind.clone())).collect();
    assert_eq!(
        names,
        vec![
            ("VCC".to_string(), "Power".to_string()),
            ("GND".to_string(), "Ground".to_string())
        ]
    );
    let id = store.net(vcc).unwrap().net_id();
    assert_eq!(built.net_info(id).unwrap().ports.len(), 1);
    assert!(built.knows_model_nets(&store));
}

#[test]
fn nets_of_modules_inside_carry_their_path() {
    let mut store = Store::new();
    let a = net(&mut store, "A", "Net");
    let b = net(&mut store, "B", "Net");
    let root = module("<root>", &[], Vec::new());
    let mut inner = module("usb", &["usb"], vec![resistor("R1", a, b)]);
    inner.introduced_nets = vec![introduced(&store, a), introduced(&store, b)];
    let (_, nets) = ModuleConverter::build(&store, &vec![root, inner]).ok().unwrap();
    assert_eq!(nets[0].name, "usb.A");
    assert_eq!(scoped_path("usb", "A"), "usb.A");
    assert_eq!(scoped_path("", "A"), "A");
}

#[test]
fn values_become_attributes() {
    let mut store = Store::new();
    let t = store.alloc_text("x");
    let n = store.allocate(Item::Int(3));
    let l = store.allocate(Item::List(vec![t, n]));
    assert!(matches!(
        to_attribute_value(&store, t),
        AttributeValue::One(Scalar::Text(s)) if s == "x"
    ));
    assert!(matches!(
        to_attribute_value(&store, n),
        AttributeValue::One(Scalar::Number(3))
    ));
    match to_attribute_value(&store, l) {
        AttributeValue::Many(v) => assert_eq!(v.len(), 2),
        _ => panic!("a list"),
    }
    let d = store.allocate(Item::Dict(vec![(
        DictKey {
            text: "k".to_string(),
            is_string: true,
        },
        l,
    )]));
    match serialize_value(&store, d) {
        Json::Object(v) => {
            assert_eq!(v[0].0, "k");
            assert!(matches!(&v[0].1, Json::Array(a) if a.len() == 2));
        }
        _ => panic!("an object"),
    }
}

#[test]
fn nets_are_collected_from_values() {
    let mut store = Store::new();
    let a = net(&mut store, "A", "Net");
    let b = net(&mut store, "B", "Net");
    let l = store.allocate(Item::List(vec![a, b]));
    let t = store.alloc_text("x");
    let from_net = collect_net_ids_from_value(&store, a);
    assert_eq!(from_net, [store.net(a).unwrap().net_id()]);
    assert!(collect_net_ids_from_value(&store, t).is_empty());
    let _ = l;
}

#[test]
fn inputs_that_nothing_uses_are_warned_of() {
    let mut store = Store::new();
    let a = net(&mut store, "A", "Net");
    let b = net(&mut store, "B", "Net");
    let unused = net(&mut store, "U", "Net");
    let root = module("<root>", &[], Vec::new());
    let mut inner = module("usb", &["usb"], vec![resistor("R1", a, b)]);
    inner.introduced_nets = vec![introduced(&store, a), introduced(&store, b)];
    let param = |name: &str, h: usize| ModuleParam {
        name: name.to_string(),
        type_value: h,
        optional: false,
        is_config: false,
        help: None,
        direction: None,
        default_value: None,
        actual_value: Some(h),
        allowed_values: None,
        allowed_display: None,
        declaration_path: Some("/w/usb.zen".to_string()),
    };
    inner.signature = vec![param("a", a), param("u", unused)];
    let modules = vec![root, inner];
    let (built, _) = ModuleConverter::build(&store, &modules).ok().unwrap();
    let notes = built.diagnose_unused_module_io(&store, &modules);
    assert_eq!(notes.len(), 1);
    assert!(notes[0].notice.message.contains("u"));
}

#[test]
fn components_without_a_part_are_warned_of() {
    let entry = |name: &str, has_part: bool, component_type: Option<&str>| BomEntry {
        designator: Some(name.to_string()),
        name: name.to_string(),
        source_path: "/w/x.zen".to_string(),
        dnp: false,
        skip_bom: false,
        has_part,
        bom_mpn: None,
        component_type: component_type.map(|t| t.to_string()),
        connector_type: None,
    };
    let notes = diagnose_missing_bom_part_components(&vec![
        entry("U1", false, None),
        entry("U2", true, None),
        entry("R1", false, Some("resistor")),
    ]);
    assert_eq!(notes.len(), 1);
    assert!(notes[0].notice.message.contains("U1"));
    assert!(is_house_bom_match_eligible(Some("resistor"), None));
    assert!(!is_house_bom_match_eligible(None, None));
}

#[test]
fn open_nets_have_one_port() {
    let label = |designator: &str, pin: &str| PortLabel {
        designator: designator.to_string(),
        pin: pin.to_string(),
    };
    assert!(diagnose_not_connected_multi_port(vec![label("U1", "1")]).is_none());
    let note = diagnose_not_connected_multi_port(vec![label("U2", "1"), label("U1", "3")]).unwrap();
    assert!(note.message.contains("U1"));
    assert!(!net_info_requires_name(Some("NotConnected")));
    assert!(net_info_requires_name(None));
    assert_eq!(sanitize_nc_fragment("A B"), "A_B");
}

#[test]
fn moved_paths_are_filtered() {
    assert_eq!(path_depth("a.b.c"), 3);
    assert!(is_valid_moved_depth("a.b", "c"));
    let mut root = module("<root>", &[], Vec::new());
    let moved = |old: &str, new: &str| MovedDirective {
        old_path: old.to_string(),
        new_path: new.to_string(),
        auto_generated: false,
    };
    root.moved_directives = vec![
        moved("OLD", "NEW"),
        moved("GONE", "MISSING"),
        moved("HERE", "NEW"),
    ];
    let existing = vec!["NEW".to_string(), "HERE".to_string()];
    let (kept, notes) = validate_and_filter_moved_directives(&vec![root], &existing);
    assert_eq!(kept.len(), 1);
    assert_eq!(kept.get(&"OLD".to_string()), Some(&"NEW".to_string()));
    assert_eq!(notes.len(), 2);
    assert!(notes
        .iter()
        .any(|n| matches!(n.fault, MovedFault::NewPathMissing)));
    assert!(notes
        .iter()
        .any(|n| matches!(n.fault, MovedFault::OldPathExists)));
    let texts: Vec<String> = notes.iter().map(|n| n.notice().message).collect();
    assert!(texts.contains(&"moved() references path 'HERE' that still exists.".to_string()));
}

#[test]
fn symbols_are_placed_at_their_instances() {
    let mut store = Store::new();
    let vcc = net(&mut store, "VCC", "Power");
    let gnd = net(&mut store, "GND", "Ground");
    let mut root = module("<root>", &[], vec![resistor("R1", vcc, gnd)]);
    root.introduced_nets = vec![introduced(&store, vcc), introduced(&store, gnd)];
    root.positions = vec![PositionEntry {
        key: "R1".to_string(),
        position: 7,
    }];
    let modules = vec![root];
    let (mut built, _) = ModuleConverter::build(&store, &modules).ok().unwrap();
    assert!(built.is_instance_position("R1", &path(&[])));
    assert!(built.is_instance_position("R1@U1", &path(&[])));
    assert!(!built.is_instance_position("R2", &path(&[])));
    built.place_symbols(&store, &modules[0], &vec![None]);
    let positions = &built.instances.get(&path(&[])).unwrap().symbol_positions;
    assert_eq!(positions.get(&"comp:R1".to_string()), Some(&7));
}

#[test]
fn attributes_of_a_component_are_read_back() {
    let mut store = Store::new();
    let a = net(&mut store, "A", "Net");
    let b = net(&mut store, "B", "Net");
    let mut c = resistor("R1", a, b);
    let part = store.allocate(Item::Part(PartValue::new(
        "M".to_string(),
        "F".to_string(),
        Vec::new(),
        None,
    )));
    assert!(c.set_attr(&store, "part", part).is_ok());
    assert_eq!(c.mpn(), Some("M"));
    assert_eq!(c.manufacturer(), Some("F"));
    let yes = store.allocate(Item::Bool(true));
    assert!(c.set_attr(&store, "dnp", yes).is_ok());
    assert!(c.dnp());
    let value = store.alloc_text("10k");
    assert!(c.set_attr(&store, "grade", value).is_ok());
    assert!(matches!(
        c.get_attr(&store, "grade"),
        Some(ComponentAttr::Value(h)) if h == value
    ));
    assert!(c.has_attr("grade"));
    assert!(c.dir_attr().contains(&"grade".to_string()));
    assert!(c.set_attr(&store, "dnp", value).is_ok());
    assert!(!c.dnp());
    assert_eq!(
        c.set_attr(&store, "part", value).err().unwrap().message(),
        "`part` must be a Part value, got string"
    );
    assert_eq!(
        c.set_attr(&store, "mpn", yes).err().unwrap().message(),
        "`mpn` must be a string"
    );
    let shown: Vec<String> = c.properties().keys().map(|k| format!("<{k}>")).collect();
    let text = show_component(&c, &shown);
    assert!(text.starts_with("Component(M)\n"));
    assert!(text.contains("  grade: <grade>\n"));
}

#[test]
fn a_component_shows_its_type_where_it_has_no_part() {
    let c = resistor("R1", 0, 0);
    assert_eq!(show_component(&c, &Vec::new()), "Component(resistor)\n");
}

#[test]
fn a_component_is_made_in_stages() {
    let mut store = Store::new();
    let name = store.alloc_text("R1");
    let a = net(&mut store, "A", "Net");
    let b = net(&mut store, "B", "Net");
    let key = |k: &str| DictKey {
        text: k.to_string(),
        is_string: true,
    };
    let pins = store.allocate(Item::Dict(vec![(key("P1"), a), (key("P2"), b)]));
    let sym = store.allocate(Item::Symbol(symbol(
        &[("1", "P1"), ("2", "P2")],
        &[("Reference", "R"), ("Manufacturer_Part_Number", "M")],
    )));
    let footprint = store.alloc_text("R.kicad_mod");
    let args = ComponentArguments {
        name,
        footprint: Some(footprint),
        pin_defs: None,
        pins,
        prefix: None,
        symbol: Some(sym),
        mpn: None,
        manufacturer: None,
        part: None,
        ctype: None,
        properties: None,
        spice_model: None,
        dnp: None,
        skip_bom: None,
        skip_pos: None,
        datasheet: None,
        description: None,
    };
    let draft = ComponentType::begin(&store, &args, None).ok().unwrap();
    assert_eq!(draft.name, "R1");
    assert!(ComponentType::begin(&store, &args, Some("bad name".to_string())).is_err());
    let site = Place {
        path: "/w/x.zen".to_string(),
        span: None,
    };
    let (connections, _) = ComponentType::connect(&mut store, &draft, pins, &Vec::new(), &site);
    let connections = connections.ok().unwrap();
    let (details, _) =
        ComponentType::describe(&mut store, &draft, &args, &SortedMap::new(), false);
    let details = details.ok().unwrap();
    assert_eq!(details.prefix, "R");
    let c = ComponentType::finish(
        draft,
        details,
        "R.kicad_mod".to_string(),
        connections,
        None,
        None,
        None,
        "/w/x.zen".to_string(),
        None,
    );
    assert_eq!(c.declaration_span(), None);
    assert_eq!(c.name(), "R1");
    assert_eq!(c.prefix(), "R");
    assert_eq!(c.connections().get("P1"), Some(&a));
    assert_eq!(c.source_path(), "/w/x.zen");
}

#[test]
fn a_datasheet_of_a_symbol_is_a_link_or_a_file() {
    let link = symbol(&[], &[("Datasheet", "https://example.com/r.pdf")]);
    let plan = plan_symbol_datasheet(&link, Ok("/w/R.kicad_sym".to_string()))
        .ok()
        .unwrap();
    assert!(matches!(plan, DatasheetPlan::Link(_)));
    let none = plan_symbol_datasheet(&symbol(&[], &[]), Ok("/w/R.kicad_sym".to_string()))
        .ok()
        .unwrap();
    assert!(matches!(none, DatasheetPlan::Nothing));
    let file = symbol(&[], &[("Datasheet", "r.pdf")]);
    let plan = plan_symbol_datasheet(&file, Ok("/w/R.kicad_sym".to_string()))
        .ok()
        .unwrap();
    assert!(matches!(plan, DatasheetPlan::Path { .. }));
    let found = finish_symbol_datasheet(
        plan,
        DatasheetFound {
            resolved: Some("/w/r.pdf".to_string()),
            reference: Some("package://lib/r.pdf".to_string()),
        },
    );
    assert_eq!(found.as_deref(), Some("package://lib/r.pdf"));
}

#[test]
fn a_model_of_a_symbol_is_requested() {
    let none = request_spice_model(&symbol(&[], &[]), Ok("/w/R.kicad_sym".to_string()));
    assert!(none.ok().unwrap().is_none());
    let with = symbol(
        &[("1", "P1"), ("2", "P2")],
        &[
            ("Sim.Library", "r.lib"),
            ("Sim.Name", "RES"),
            ("Sim.Device", "SUBCKT"),
            ("Sim.Pins", "1=a 2=b"),
        ],
    );
    let request = request_spice_model(&with, Ok("/w/R.kicad_sym".to_string()))
        .ok()
        .unwrap()
        .unwrap();
    assert_eq!(request.name, "RES");
    assert_eq!(request.library, "r.lib");
    let mut connections = SmallMap::new();
    connections.insert("P1".to_string(), 4);
    connections.insert("P2".to_string(), 5);
    let model = finish_spice_model(
        request,
        ".subckt RES a b".to_string(),
        &vec!["a".to_string(), "b".to_string()],
        &connections,
    )
    .ok()
    .unwrap();
    assert_eq!(model.nets, [4, 5]);
    assert_eq!(model.name, "RES");
}

#[test]
fn a_conversion_ends_with_its_notes() {
    let mut store = Store::new();
    let vcc = net(&mut store, "VCC", "Power");
    let gnd = net(&mut store, "GND", "Ground");
    let mut root = module("<root>", &[], vec![resistor("R1", vcc, gnd)]);
    root.introduced_nets = vec![introduced(&store, vcc), introduced(&store, gnd)];
    root.positions = vec![PositionEntry {
        key: "R1".to_string(),
        position: 7,
    }];
    root.moved_directives = vec![
        MovedDirective {
            old_path: "OLD".to_string(),
            new_path: "R1".to_string(),
            auto_generated: false,
        },
        MovedDirective {
            old_path: "GONE".to_string(),
            new_path: "MISSING".to_string(),
            auto_generated: false,
        },
    ];
    let modules = vec![root];
    let (mut built, _) = ModuleConverter::build(&store, &modules).ok().unwrap();
    let bom = vec![BomEntry {
        designator: None,
        name: "U1".to_string(),
        source_path: "/w/u.zen".to_string(),
        dnp: false,
        skip_bom: false,
        has_part: false,
        bom_mpn: None,
        component_type: None,
        connector_type: None,
    }];
    let label = |designator: &str, pin: &str| PortLabel {
        designator: designator.to_string(),
        pin: pin.to_string(),
    };
    let open_nets = vec![
        vec![label("U2", "1")],
        vec![label("U2", "1"), label("U1", "3"), label("U2", "1")],
    ];
    let (moved, notes) = built.conclude(
        &store,
        &modules,
        &vec!["R1".to_string()],
        &bom,
        open_nets,
        "/w/x.zen",
    );
    assert_eq!(moved.len(), 1);
    assert_eq!(moved.get(&"OLD".to_string()), Some(&"R1".to_string()));
    let said: Vec<(&str, &str)> = notes
        .iter()
        .map(|n| (n.path.as_str(), n.notice.message.as_str()))
        .collect();
    assert_eq!(
        said[1..],
        [
            (
                "/w/u.zen",
                "Component 'U1' is included in the BOM but is missing part information. Specify `part=Part(...)`."
            ),
            (
                "/w/x.zen",
                "NotConnected net connects to 2 ports: U1.3, U2.1. NotConnected nets should connect to at most one port."
            ),
        ]
    );
    assert_eq!(
        said[0].1,
        "moved() references path 'MISSING' that doesn't exist."
    );
    built.place_all_symbols(&store, &modules, &vec![vec![None]]);
    let positions = &built.instances.get(&path(&[])).unwrap().symbol_positions;
    assert_eq!(positions.get(&"comp:R1".to_string()), Some(&7));
}

#[test]
fn models_become_attributes_of_their_components() {
    let mut store = Store::new();
    let vcc = net(&mut store, "VCC", "Power");
    let gnd = net(&mut store, "GND", "Ground");
    let mut args = SmallMap::new();
    args.insert("R".to_string(), "1k".to_string());
    args.insert("TC".to_string(), "0".to_string());
    let model = store.allocate(Item::SpiceModel(SpiceModelValue {
        definition: ".subckt R p n".to_string(),
        name: "R".to_string(),
        nets: vec![gnd, vcc],
        args,
    }));
    let mut component = resistor("R1", vcc, gnd);
    component.data.spice_model = Some(model);
    let mut root = module("<root>", &[], vec![component]);
    root.introduced_nets = vec![introduced(&store, vcc), introduced(&store, gnd)];
    let modules = vec![root];
    let (mut built, _) = ModuleConverter::build(&store, &modules).ok().unwrap();
    assert!(built.knows_model_nets(&store));
    built.add_models(&store);
    let instance = built.instances.get(&path(&["R1"])).unwrap();
    let text = |key: &str| match instance.attributes.get(&key.to_string()) {
        Some(AttributeValue::One(Scalar::Text(t))) => t.clone(),
        _ => panic!("no text"),
    };
    assert_eq!(text("__model_def"), ".subckt R p n");
    assert_eq!(text("__model_name"), "R");
    assert_eq!(text("__model_args"), "R=1k TC=0");
    match instance.attributes.get(&"__model_nets".to_string()) {
        Some(AttributeValue::Many(nets)) => {
            let names: Vec<&str> = nets
                .iter()
                .map(|n| match n {
                    Scalar::Text(t) => t.as_str(),
                    _ => "",
                })
                .collect();
            assert_eq!(names, ["GND", "VCC"]);
        }
        _ => panic!("no nets"),
    }
}

#[test]
fn a_signature_tells_of_each_parameter() {
    let mut store = Store::new();
    let three = store.allocate(Item::Int(3));
    let mut root = module("<root>", &[], Vec::new());
    root.signature = vec![ModuleParam {
        name: "n".to_string(),
        type_value: three,
        optional: true,
        is_config: true,
        help: Some("a number".to_string()),
        direction: None,
        default_value: Some(three),
        actual_value: None,
        allowed_values: Some(vec![three]),
        allowed_display: Some(vec!["three".to_string()]),
        declaration_path: None,
    }];
    let (built, _) = ModuleConverter::build(&store, &vec![root]).ok().unwrap();
    let instance = built.instances.get(&path(&[])).unwrap();
    let signature = match instance.attributes.get(&"__signature".to_string()) {
        Some(AttributeValue::Signature(v)) => v,
        _ => panic!("no signature"),
    };
    assert_eq!(signature.len(), 1);
    let p = &signature[0];
    assert_eq!(p.name, "n");
    assert!(p.optional && p.has_default && p.is_config);
    assert!(p.value.is_none());
    assert!(p.default_value.is_some());
    assert_eq!(p.allowed_values.as_ref().map(|v| v.len()), Some(1));
    assert_eq!(p.help.as_deref(), Some("a number"));
}

#[test]
fn a_model_that_is_none_is_an_error() {
    let mut store = Store::new();
    let vcc = net(&mut store, "VCC", "Power");
    let gnd = net(&mut store, "GND", "Ground");
    let other = store.allocate(Item::Int(3));
    let mut component = resistor("R1", vcc, gnd);
    component.data.spice_model = Some(other);
    let modules = vec![module("<root>", &[], vec![component])];
    match ModuleConverter::build(&store, &modules) {
        Err(e) => assert_eq!(e.message, "Expected spice model for component R1"),
        Ok(_) => panic!("no model"),
    }
}
