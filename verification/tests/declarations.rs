use pcb_zen_core::diagnostic::{Place, SourceSpan};
use pcb_zen_core::lang::builtin::{
    place_board_config, read_sim_setup, set_sim_setup, sim_setup_source, Builtin, SimSetupSource, SpanPlaces,
};
use pcb_zen_core::lang::net::{NetType, NetValue};
use pcb_zen_core::lang::param_decl::{
    default_source, implicit_check_diag, instantiate_net_template, normalize_io_args,
    parse_decl_args, register_provided_io_net, resolve_config, resolve_io, run_implicit_check,
    stamp_declaration_site, warn_deprecated_io_default, ConfigChoice, DefaultSource, IoChoice,
    IoTemplateValue, ParamKind,
};
use pcb_zen_core::lang::value::{Item, Store};
use pcb_zen_core::schematic::InstancePath;
use starlark::collections::SmallMap;

fn site(path: &str) -> Place {
    Place {
        path: path.to_string(),
        span: Some(span()),
    }
}

fn span() -> SourceSpan {
    SourceSpan {
        begin_row: 2,
        begin_col: 0,
        end_row: 2,
        end_col: 9,
    }
}

fn net_type(store: &mut Store, label: &str) -> usize {
    let t = NetType::new(label.to_string(), SmallMap::new(), &Vec::new())
        .ok()
        .unwrap();
    store.allocate(Item::NetType(t))
}

fn net(store: &mut Store, name: &str) -> usize {
    let id = store.generate_net_id();
    store.allocate(Item::Net(NetValue::new(
        id,
        name.to_string(),
        SmallMap::new(),
    )))
}

#[test]
fn arguments_of_declarations_are_read() {
    let mut store = Store::new();
    let name = store.alloc_text("vin");
    let t = net_type(&mut store, "Net");
    let help = store.alloc_text("The input.");
    let yes = store.allocate(Item::Bool(true));
    let (given, args) = parse_decl_args(
        ParamKind::Io,
        &store,
        &vec![name, t],
        &vec![("optional".to_string(), yes), ("help".to_string(), help)],
        Ok(None),
    )
    .ok()
    .unwrap();
    assert_eq!(given.as_deref(), Some("vin"));
    assert_eq!(args.typ, t);
    assert_eq!(args.optional, Some(true));
    assert_eq!(args.help.as_deref(), Some("The input."));
    assert!(parse_decl_args(
        ParamKind::Io,
        &store,
        &vec![name, t],
        &vec![("allowed".to_string(), yes)],
        Ok(None)
    )
    .is_err());
    assert!(parse_decl_args(ParamKind::Config, &store, &Vec::new(), &Vec::new(), Ok(None)).is_err());
    assert!(!ParamKind::Io.allows_allowed());
    assert!(ParamKind::Config.allows_allowed());
    assert!(ParamKind::Io.allows_direction());
}

#[test]
fn a_provided_configuration_is_used() {
    let resolve = |provided, optional, default, allowed: &Option<Vec<usize>>, strict| {
        resolve_config(false, provided, optional, default, allowed, strict)
            .ok()
            .unwrap()
    };
    assert!(matches!(
        resolve(Some(7), None, Some(8), &None, true),
        (ConfigChoice::Convert(7), false, true)
    ));
    assert!(matches!(
        resolve(None, None, Some(8), &None, true),
        (ConfigChoice::Take(8), false, true)
    ));
    assert!(matches!(
        resolve(None, Some(true), None, &None, true),
        (ConfigChoice::Nothing, false, true)
    ));
    assert!(matches!(
        resolve(None, Some(false), None, &Some(vec![4, 5]), true),
        (ConfigChoice::Take(4), true, false)
    ));
    assert!(matches!(
        resolve(None, None, None, &None, false),
        (ConfigChoice::Generate, false, false)
    ));
    assert!(resolve_config(true, Some(7), None, None, &None, true).is_err());
}

#[test]
fn an_input_is_provided_or_made() {
    let mut store = Store::new();
    let t = net_type(&mut store, "Net");
    let n = net(&mut store, "A");
    assert!(matches!(
        resolve_io(&store, t, Some(n), None, true),
        Ok(IoChoice::Provided(h)) if h == n
    ));
    assert!(matches!(
        resolve_io(&store, t, None, Some(true), true),
        Ok(IoChoice::Default) | Ok(IoChoice::GeneratedDefault)
    ));
    assert!(matches!(
        default_source(Some(IoTemplateValue::Net(n)), None),
        DefaultSource::Template(_)
    ));
    assert!(matches!(default_source(None, Some(n)), DefaultSource::Given(h) if h == n));
    assert!(matches!(default_source(None, None), DefaultSource::Generated));
}

#[test]
fn a_template_stands_for_its_type() {
    let mut store = Store::new();
    let name = store.alloc_text("vin");
    let n = net(&mut store, "A");
    let (_, args) = parse_decl_args(ParamKind::Io, &store, &vec![name, n], &Vec::new(), Ok(None))
        .ok()
        .unwrap();
    let normal = normalize_io_args(&mut store, &args).ok().unwrap();
    assert!(matches!(normal.template, Some(IoTemplateValue::Net(h)) if h == n));
    assert!(matches!(store.items[normal.typ], Item::NetType(_)));
    let (h, _, registration) = instantiate_net_template(&mut store, "vin", n, false, &site("/w/x.zen"));
    assert_eq!(store.net(h).unwrap().declaration_path(), Some("/w/x.zen"));
    assert_eq!(store.net(h).unwrap().declaration_span(), Some(span()));
    assert!(registration.is_none());
    let stamped = stamp_declaration_site(&mut store, n, &site("/w/y.zen"));
    assert_eq!(store.net(stamped).unwrap().declaration_span(), Some(span()));
    assert_eq!(
        store.net(stamped).unwrap().declaration_path(),
        Some("/w/y.zen")
    );
    let t = net_type(&mut store, "Net");
    let provided = register_provided_io_net(
        &mut store,
        "vin",
        n,
        t,
        false,
        &Vec::new(),
        None,
        &site("/w/x.zen"),
    );
    assert_eq!(provided.net.ok(), Some(n));
}

#[test]
fn voltages_are_compared_with_those_of_the_template() {
    let mut store = Store::new();
    let low = store.allocate(Item::Quantity {
        type_label: "Voltage".to_string(),
        shown: "3.3V".to_string(),
        repr: "Voltage(3.3V)".to_string(),
    });
    let high = store.allocate(Item::Quantity {
        type_label: "Voltage".to_string(),
        shown: "5V".to_string(),
        repr: "Voltage(5V)".to_string(),
    });
    let with = |store: &mut Store, v: usize| {
        let mut properties = SmallMap::new();
        properties.insert("voltage".to_string(), v);
        let id = store.generate_net_id();
        store.allocate(Item::Net(NetValue::new(id, "V".to_string(), properties)))
    };
    let template = with(&mut store, low);
    let value = with(&mut store, high);
    let check = pcb_zen_core::lang::param_decl::derive_implicit_check(
        &store,
        IoTemplateValue::Net(template),
    )
    .unwrap();
    assert_eq!(check.template_voltage, low);
    let fault = run_implicit_check("vin", &store, &check, value, false).unwrap();
    assert!(fault.contains("vin"));
    assert_eq!(run_implicit_check("vin", &store, &check, value, true), None);
    let note = implicit_check_diag(fault);
    assert!(note.message.contains("vin"));
}

#[test]
fn old_defaults_are_warned_of() {
    assert_eq!(
        warn_deprecated_io_default().message,
        "io() parameter `default` is deprecated; prefer template-first `io(template)` instead"
    );
}

#[test]
fn parts_must_not_be_blank() {
    let part = |mpn: &str, manufacturer: &str, datasheet: Option<&str>| {
        Builtin::part(
            mpn.to_string(),
            manufacturer.to_string(),
            Vec::new(),
            datasheet.map(|d| d.to_string()),
        )
    };
    assert_eq!(part("M", "F", None).ok().unwrap().mpn(), "M");
    assert_eq!(
        part(" ", "F", None).err().unwrap().message,
        "`mpn` must be a non-empty string"
    );
    assert_eq!(
        part("M", "", None).err().unwrap().message,
        "`manufacturer` must be a non-empty string"
    );
    assert_eq!(
        part("M", "F", Some(" ")).err().unwrap().message,
        "`datasheet` must be a non-empty string when provided"
    );
}

#[test]
fn severities_and_modifiers_are_tested() {
    assert!(Builtin::check_severity("warning").is_ok());
    assert_eq!(
        Builtin::check_severity("fatal").err().unwrap().message,
        "Invalid severity 'fatal'. Must be 'error', 'warning', or 'advice'"
    );
    let mut store = Store::new();
    let f = store.allocate(Item::Other {
        type_label: "function".to_string(),
        shown: "f".to_string(),
    });
    let n = store.allocate(Item::Int(3));
    assert!(Builtin::check_component_modifier(&store, f).is_ok());
    assert_eq!(
        Builtin::check_component_modifier(&store, n).err().unwrap().message,
        "Component modifier must be a function, got int"
    );
    assert!(Builtin::net_type_name("Power").is_ok());
    assert!(Builtin::net_type_name("NotConnected").is_err());
    let a = store.alloc_text("A");
    assert_eq!(
        Builtin::enum_variants(&store, &vec![a]).ok().unwrap(),
        ["A"]
    );
    assert!(Builtin::enum_variants(&store, &vec![n]).is_err());
}

#[test]
fn a_board_configuration_is_printed() {
    let store = Store::new();
    let none = SmallMap::new();
    let (placed, r) = Builtin::add_board_config(
        &store,
        &none,
        "main",
        true,
        Ok("{\"b\":1,\"a\":[]}".to_string()),
        Ok(()),
    );
    assert!(r.is_ok());
    assert_eq!(
        placed,
        vec![
            ("default_board_config".to_string(), "main".to_string()),
            (
                "board_config.main".to_string(),
                "{\n  \"a\": [],\n  \"b\": 1\n}".to_string()
            ),
        ]
    );
    let (_, r) = Builtin::add_board_config(
        &store,
        &none,
        "main",
        false,
        Ok("{}".to_string()),
        Err("too small".to_string()),
    );
    assert!(r.err().unwrap().message.contains("too small"));
    let (_, r) = place_board_config(
        "main",
        false,
        true,
        None,
        &Ok("{}".to_string()),
        Ok(()),
        Ok("{}".to_string()),
    );
    assert!(r.is_err());
}

#[test]
fn checks_know_where_they_were_made() {
    let check = Builtin::electrical_check(
        "c".to_string(),
        4,
        SmallMap::new(),
        "warning".to_string(),
        Some(Place {
            path: "/w/x.zen".to_string(),
            span: None,
        }),
    )
    .ok()
    .unwrap();
    assert_eq!(check.source_path, "/w/x.zen");
    assert_eq!(check.call_span, None);
    assert_eq!(check.check_func, 4);
    assert!(Builtin::electrical_check(
        "c".to_string(),
        4,
        SmallMap::new(),
        "fatal".to_string(),
        None
    )
    .is_err());
}

#[test]
fn the_path_of_a_module_is_a_list() {
    let mut store = Store::new();
    let path = InstancePath {
        segments: vec!["a".to_string(), "b".to_string()],
    };
    let h = Builtin::current_path(&mut store, Some(&path));
    let Item::List(v) = &store.items[h] else {
        panic!("a list");
    };
    let names: Vec<Option<&str>> = v.iter().map(|h| store.text(*h)).collect();
    assert_eq!(names, [Some("a"), Some("b")]);
    let none = Builtin::current_path(&mut store, None);
    assert!(matches!(&store.items[none], Item::List(v) if v.is_empty()));
}

#[test]
fn a_simulation_may_stand_in_a_file() {
    let text = |s: &str| s.to_string();
    assert_eq!(
        read_sim_setup(Ok(text("/w/a.sp")), Ok(text(".tran"))).ok(),
        Some(text(".tran"))
    );
    assert_eq!(
        read_sim_setup(Err(text("no")), Ok(text(""))).err().unwrap().message,
        "Failed to resolve sim setup file path: no"
    );
    assert_eq!(
        read_sim_setup(Ok(text("/w/a.sp")), Err(text("no"))).err().unwrap().message,
        "Failed to read sim setup file '/w/a.sp': no"
    );
}

#[test]
fn a_simulation_is_set_up_once() {
    assert!(matches!(
        sim_setup_source(Some("a.sp".to_string()), None),
        Ok(SimSetupSource::File(_))
    ));
    assert!(matches!(
        sim_setup_source(None, Some("x".to_string())),
        Ok(SimSetupSource::Content(_))
    ));
    assert!(sim_setup_source(None, None).is_err());
    assert!(sim_setup_source(Some("a".to_string()), Some("b".to_string())).is_err());
    let none = SmallMap::new();
    let set = set_sim_setup(
        &none,
        ".tran 1n".to_string(),
        Some(SpanPlaces {
            begin_row: 1,
            begin_place: 2,
            end_row: 3,
            end_place: 4,
        }),
    )
    .ok()
    .unwrap();
    assert_eq!(set[0], ("__sim_setup".to_string(), ".tran 1n".to_string()));
    let mut known = SmallMap::new();
    known.insert("__sim_setup".to_string(), 0);
    assert!(set_sim_setup(&known, "x".to_string(), None).is_err());
}

#[test]
fn board_configs_of_a_module_are_distinct() {
    let mut store = Store::new();
    let mut properties = SmallMap::new();
    let mut call = |name: &str, default: bool| {
        let (placed, r) = Builtin::add_board_config(
            &store,
            &properties,
            name,
            default,
            Ok("{}".to_string()),
            Ok(()),
        );
        for (key, text) in placed {
            let h = store.alloc_text(&text);
            properties.insert(key, h);
        }
        r.err().map(|e| e.message)
    };
    assert_eq!(call("a", true), None);
    assert_eq!(call("b", false), None);
    assert_eq!(
        call("a", false).as_deref(),
        Some("Board config 'a' already exists")
    );
    assert_eq!(
        call("c", true).as_deref(),
        Some("Default board config already set to 'a'. Cannot set 'c' as default.")
    );
    assert_eq!(call("c", false), None);
}

#[test]
fn net_numbers_grow() {
    let mut store = Store::new();
    let ids: Vec<u64> = (0..4).map(|_| store.generate_net_id()).collect();
    assert!(ids.windows(2).all(|w| w[0] < w[1]));
}
