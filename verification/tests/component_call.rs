use pcb_zen_core::diagnostic::{Place, SourceSpan};
use pcb_zen_core::lang::component::FootprintFound;
use pcb_zen_core::lang::component_call::{ComponentFindings, ModelFound};
use pcb_zen_core::lang::component_type::{
    choose_spice_model, ComponentArguments, ComponentType, DatasheetFound,
};
use pcb_zen_core::lang::footprint::{
    find_footprint_file, read_footprint, validate_footprints, FootprintRead, FootprintUse,
};
use pcb_zen_core::lang::net::NetValue;
use pcb_zen_core::lang::pins::PinTypes;
use pcb_zen_core::lang::symbol::{InternalConnectivity, SymbolValue};
use pcb_zen_core::lang::value::{DictKey, Item, SpiceModelValue, Store};
use pcb_zen_core::map::SortedMap;
use pcb_zen_core::resolved::ResolutionResult;
use pcb_zen_core::{FileProvider, FileProviderError};
use starlark::collections::SmallMap;

fn net(store: &mut Store, name: &str) -> usize {
    let id = store.generate_net_id();
    store.allocate(Item::Net(NetValue::new(
        id,
        name.to_string(),
        SmallMap::new(),
    )))
}

fn symbol(properties: &[(&str, &str)]) -> SymbolValue {
    let mut pads = SmallMap::new();
    pads.insert("1".to_string(), "P1".to_string());
    pads.insert("2".to_string(), "P2".to_string());
    let mut props = SmallMap::new();
    for (k, v) in properties {
        props.insert(k.to_string(), v.to_string());
    }
    SymbolValue {
        name: Some("R".to_string()),
        pad_to_signal: pads,
        pins: Vec::new(),
        source_uri: Some("package://lib/R.kicad_sym".to_string()),
        raw_sexp: None,
        properties: props,
        in_bom: true,
        internal_connectivity: InternalConnectivity {
            duplicate_numbers_are_jumpers: false,
            groups: Vec::new(),
        },
    }
}

const SPICE: [(&str, &str); 4] = [
    ("Sim.Device", "SUBCKT"),
    ("Sim.Library", "r.lib"),
    ("Sim.Name", "RES"),
    ("Sim.Pins", "1=a 2=b"),
];

fn arguments(store: &mut Store, signals: &[&str], properties: &[(&str, &str)]) -> ComponentArguments {
    let name = store.alloc_text("R1");
    let nets: Vec<(DictKey, usize)> = signals
        .iter()
        .map(|signal| {
            let key = DictKey {
                text: signal.to_string(),
                is_string: true,
            };
            (key, net(store, signal))
        })
        .collect();
    let pins = store.allocate(Item::Dict(nets));
    let symbol = store.allocate(Item::Symbol(symbol(properties)));
    let footprint = store.alloc_text("/lib/R.kicad_mod");
    ComponentArguments {
        name,
        footprint: Some(footprint),
        pin_defs: None,
        pins,
        prefix: None,
        symbol: Some(symbol),
        mpn: None,
        manufacturer: None,
        part: None,
        ctype: None,
        properties: None,
        spice_model: None,
        dnp: None,
        skip_bom: None,
        skip_pos: None,
        datasheet: None,
        description: None,
    }
}

fn findings() -> ComponentFindings {
    let mut references = SortedMap::new();
    references.insert(
        "/lib/R.kicad_mod".to_string(),
        "package://lib/R.kicad_mod".to_string(),
    );
    ComponentFindings {
        name_error: None,
        library: Ok("/lib/R.kicad_sym".to_string()),
        in_file: true,
        footprint: FootprintFound {
            resolved: Err("unasked".to_string()),
            file_exists: true,
        },
        pin_types: Vec::new(),
        references,
        symbol_datasheet: DatasheetFound {
            resolved: Some("/lib/r.pdf".to_string()),
            reference: Some("package://lib/r.pdf".to_string()),
        },
        model: Ok(ModelFound {
            definition: ".subckt RES b a".to_string(),
            terminals: vec!["b".to_string(), "a".to_string()],
            fault: None,
        }),
    }
}

fn site() -> Place {
    Place {
        path: "/w/x.zen".to_string(),
        span: Some(SourceSpan {
            begin_row: 4,
            begin_col: 0,
            end_row: 6,
            end_col: 1,
        }),
    }
}

fn refusal(store: &mut Store, args: &ComponentArguments, found: &ComponentFindings) -> String {
    let (made, _, _) = ComponentType::invoke(
        store,
        args,
        found,
        &SortedMap::new(),
        false,
        "/w/x.zen".to_string(),
        &site(),
    );
    made.err().unwrap().message()
}

#[test]
fn a_given_model_counts_before_that_of_the_symbol() {
    assert_eq!(choose_spice_model(Some(1), Some(2)), Some(1));
    assert_eq!(choose_spice_model(None, Some(2)), Some(2));
    assert_eq!(choose_spice_model(None, None), None);
}

#[test]
fn a_call_makes_a_component() {
    let mut store = Store::new();
    let mut properties = SPICE.to_vec();
    properties.push(("Reference", "R"));
    properties.push(("Datasheet", "r.pdf"));
    let args = arguments(&mut store, &["P1", "P2"], &properties);
    let found = findings();
    let (made, warnings, notes) = ComponentType::invoke(
        &mut store,
        &args,
        &found,
        &SortedMap::new(),
        true,
        "/w/x.zen".to_string(),
        &site(),
    );
    let component = made.ok().unwrap();
    assert!(warnings.is_empty());
    assert!(notes.is_empty());
    assert_eq!(component.name(), "R1");
    assert_eq!(component.prefix(), "R");
    assert_eq!(component.footprint, "package://lib/R.kicad_mod");
    assert_eq!(component.source_path(), "/w/x.zen");
    assert_eq!(component.declaration_span(), site().span);
    assert_eq!(component.data.datasheet.as_deref(), Some("package://lib/r.pdf"));
    assert!(component.data.dnp);
    let handle = component.data.spice_model.unwrap();
    assert_eq!(handle + 1, store.items.len());
    match &store.items[handle] {
        Item::SpiceModel(model) => {
            assert_eq!(model.name, "RES");
            assert_eq!(model.definition, ".subckt RES b a");
            let at = |signal: &str| *component.connections().get(signal).unwrap();
            assert_eq!(model.nets, [at("P2"), at("P1")]);
        }
        _ => panic!("no model"),
    }
}

#[test]
fn a_given_model_is_taken_as_it_is() {
    let mut store = Store::new();
    let mut args = arguments(&mut store, &["P1", "P2"], &SPICE);
    let given = store.allocate(Item::SpiceModel(SpiceModelValue {
        definition: String::new(),
        name: "OWN".to_string(),
        nets: Vec::new(),
        args: SmallMap::new(),
    }));
    args.spice_model = Some(given);
    let mut found = findings();
    found.model = Err("not looked for".to_string());
    let (made, _, _) = ComponentType::invoke(
        &mut store,
        &args,
        &found,
        &SortedMap::new(),
        false,
        "/w/x.zen".to_string(),
        &site(),
    );
    assert_eq!(made.ok().unwrap().data.spice_model, Some(given));
}

#[test]
fn the_first_step_that_fails_gives_the_error() {
    let mut store = Store::new();
    let mut args = arguments(&mut store, &["P1"], &SPICE);
    let mut found = findings();
    found.name_error = Some("bad name".to_string());
    assert_eq!(refusal(&mut store, &args, &found), "bad name");
    found.name_error = None;
    assert_eq!(refusal(&mut store, &args, &found), "Unconnected pin(s): P2");
    found.library = Err("gone".to_string());
    args.footprint = None;
    assert_eq!(
        refusal(&mut store, &args, &found),
        "Failed to resolve symbol library 'package://lib/R.kicad_sym': gone"
    );
    let args = arguments(&mut store, &["P1", "P2"], &SPICE);
    found.library = Ok("/lib/R.kicad_sym".to_string());
    found.model = Err("no such model".to_string());
    assert_eq!(refusal(&mut store, &args, &found), "no such model");
    found.model = Ok(ModelFound {
        definition: String::new(),
        terminals: vec!["a".to_string(), "b".to_string()],
        fault: Some("wrong parameters".to_string()),
    });
    assert_eq!(refusal(&mut store, &args, &found), "wrong parameters");
}

#[test]
fn open_pins_get_nets_made_by_the_call() {
    let mut store = Store::new();
    let args = arguments(&mut store, &["P1"], &[]);
    let mut found = findings();
    found.pin_types = vec![PinTypes {
        signal: "P2".to_string(),
        types: vec!["no_connect".to_string()],
        only_no_connect: true,
    }];
    let (made, _, _) = ComponentType::invoke(
        &mut store,
        &args,
        &found,
        &SortedMap::new(),
        false,
        "/w/x.zen".to_string(),
        &site(),
    );
    let component = made.ok().unwrap();
    assert_eq!(component.data.spice_model, None);
    let open = store.net(*component.connections().get("P2").unwrap()).unwrap();
    assert!(open.is_open());
    assert_eq!(open.declaration_path(), Some("/w/x.zen"));
    assert_eq!(open.declaration_span(), site().span);
}

struct Unreadable;

impl FileProvider for Unreadable {
    fn read_file(&self, path: &str) -> Result<String, FileProviderError> {
        if path.ends_with("R.kicad_mod") {
            Err(FileProviderError::PermissionDenied(path.to_string()))
        } else {
            Err(FileProviderError::NotFound(path.to_string()))
        }
    }

    fn path_exists(&self, _path: &str) -> bool {
        true
    }

    fn is_directory(&self, _path: &str) -> bool {
        false
    }

    fn is_symlink(&self, _path: &str) -> bool {
        false
    }

    fn list_directory(&self, _path: &str) -> Result<Vec<String>, FileProviderError> {
        Ok(Vec::new())
    }

    fn canonicalize(&self, path: &str) -> Result<String, FileProviderError> {
        Ok(path.to_string())
    }
}

#[test]
fn the_footprint_of_a_component_is_looked_at() {
    let mut store = Store::new();
    let args = arguments(&mut store, &["P1", "P2"], &[]);
    let mut found = findings();
    found.references = SortedMap::new();
    let (made, _, _) = ComponentType::invoke(
        &mut store,
        &args,
        &found,
        &SortedMap::new(),
        false,
        "/w/x.zen".to_string(),
        &site(),
    );
    let component = made.ok().unwrap();
    let path = find_footprint_file(&ResolutionResult::empty(), &component).unwrap();
    assert_eq!(path, "/lib/R.kicad_mod");
    let read = read_footprint(&Unreadable, &path).err().unwrap();
    let reports = validate_footprints(&vec![FootprintUse::of(&component, path, read)]);
    assert_eq!(reports[0].path, "/w/x.zen");
    assert_eq!(reports[0].span, site().span);
    assert_eq!(
        reports[0].child.as_ref().unwrap().body,
        "Failed to read KiCad footprint for validation: Permission denied: /lib/R.kicad_mod"
    );
    let missing = read_footprint(&Unreadable, "/lib/S.kicad_mod");
    assert!(matches!(missing, Err(FootprintRead::NotFound)));
}
