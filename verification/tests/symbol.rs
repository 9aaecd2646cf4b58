use pcb_zen_core::lang::symbol::{
    choose_library_path, finish_library_symbol, invalidate_symbol_library, read_symbol_arguments,
    select_symbol, split_library_path, split_library_symbol_files, split_symbol_path,
    symbol_origin, symbol_pins_from_pad_map, EdaPin, EdaSymbol, InternalConnectivity,
    LibrarySource, Lineage, SymbolError, SymbolLibraryCache, SymbolOrigin, SymbolPin,
    SymbolPinAlternate, SymbolValue,
};
use pcb_zen_core::lang::value::{Item, Store};
use pcb_zen_core::render::show_symbol;
use pcb_zen_core::{normalize_path, FileProvider, FileProviderError};
use starlark::collections::SmallMap;

fn alternate(name: &str, electrical_type: &str, graphical_style: &str) -> SymbolPinAlternate {
    SymbolPinAlternate {
        name: name.to_string(),
        electrical_type: Some(electrical_type.to_string()),
        graphical_style: Some(graphical_style.to_string()),
    }
}

fn pin(
    name: &str,
    number: &str,
    electrical_type: &str,
    alternates: Vec<SymbolPinAlternate>,
) -> EdaPin {
    EdaPin {
        pin: SymbolPin {
            name: name.to_string(),
            number: number.to_string(),
            electrical_type: Some(electrical_type.to_string()),
            graphical_style: Some("line".to_string()),
            hidden: false,
            alternates,
        },
        signal: name.to_string(),
    }
}

#[test]
fn preserves_pin_metadata() {
    let symbol = EdaSymbol {
        name: "AlternatePinDemo".to_string(),
        pins: vec![pin(
            "PIO1",
            "1",
            "bidirectional",
            vec![
                alternate("GPIO1", "bidirectional", "line"),
                alternate("nRESET", "input", "inverted"),
            ],
        )],
        in_bom: true,
        internal_connectivity: InternalConnectivity::none(),
    };

    let mut properties = SmallMap::new();
    properties.insert("Reference".to_string(), "U".to_string());

    let symbol_value = SymbolValue::from_eda_symbol(
        &symbol,
        Some("package://demo/AlternatePinDemo.kicad_sym".to_string()),
        Some("(symbol \"AlternatePinDemo\")".to_string()),
        properties,
    );

    assert_eq!(
        symbol_value.pad_to_signal().get("1").map(String::as_str),
        Some("PIO1")
    );
    assert_eq!(symbol_value.pins().len(), 1);

    let pin = &symbol_value.pins()[0];
    assert_eq!(pin.name, "PIO1");
    assert_eq!(pin.number, "1");
    assert_eq!(pin.electrical_type.as_deref(), Some("bidirectional"));
    assert_eq!(pin.graphical_style.as_deref(), Some("line"));
    assert_eq!(pin.alternates.len(), 2);
    assert_eq!(pin.alternates[0].name, "GPIO1");
    assert_eq!(
        pin.alternates[0].electrical_type.as_deref(),
        Some("bidirectional")
    );
    assert_eq!(pin.alternates[1].name, "nRESET");
    assert_eq!(pin.alternates[1].electrical_type.as_deref(), Some("input"));
    assert_eq!(
        pin.alternates[1].graphical_style.as_deref(),
        Some("inverted")
    );
    assert_eq!(
        symbol_value.source_uri(),
        Some("package://demo/AlternatePinDemo.kicad_sym")
    );
    assert_eq!(
        symbol_value.raw_sexp(),
        Some("(symbol \"AlternatePinDemo\")")
    );
    assert_eq!(
        symbol_value.properties().get("Reference").map(String::as_str),
        Some("U")
    );
}

#[test]
fn duplicate_pin_numbers_collapse_to_first_signal() {
    let symbol = EdaSymbol {
        name: "DuplicatePins".to_string(),
        pins: vec![
            pin("A", "1", "passive", Vec::new()),
            pin("B", "1", "passive", Vec::new()),
        ],
        in_bom: true,
        internal_connectivity: InternalConnectivity {
            duplicate_numbers_are_jumpers: true,
            groups: Vec::new(),
        },
    };

    let symbol_value = SymbolValue::from_eda_symbol(&symbol, None, None, SmallMap::new());

    assert_eq!(
        symbol_value.pad_to_signal().get("1").map(String::as_str),
        Some("A")
    );
    assert_eq!(symbol_value.pins().len(), 2);
    assert_eq!(symbol_value.pins()[0].name, "A");
    assert_eq!(symbol_value.pins()[1].name, "B");
    assert!(
        symbol_value
            .internal_connectivity()
            .duplicate_numbers_are_jumpers
    );
}

#[test]
fn explicit_jumper_groups_map_to_public_signals() {
    let symbol = EdaSymbol {
        name: "ExplicitJumpers".to_string(),
        pins: vec![
            pin("A", "1", "passive", Vec::new()),
            pin("B", "3", "passive", Vec::new()),
        ],
        in_bom: true,
        internal_connectivity: InternalConnectivity {
            duplicate_numbers_are_jumpers: false,
            groups: vec![
                vec!["1".to_string(), "3".to_string()],
                vec!["3".to_string(), "99".to_string()],
            ],
        },
    };

    let symbol_value = SymbolValue::from_eda_symbol(&symbol, None, None, SmallMap::new());

    assert_eq!(
        symbol_value.explicit_jumper_signal_groups(),
        vec![vec!["A", "B"]]
    );
}

fn entry(store: &mut Store, name: &str, pads: &[&str]) -> usize {
    let signal = store.alloc_text(name);
    let list = pads.iter().map(|p| store.alloc_text(p)).collect();
    let pads = store.allocate(Item::List(list));
    store.allocate(Item::Tuple(vec![signal, pads]))
}

fn define(entries: &[(&str, &[&str])]) -> Result<SymbolValue, String> {
    let mut store = Store::new();
    let list = entries
        .iter()
        .map(|(name, pads)| entry(&mut store, name, pads))
        .collect();
    let h = store.allocate(Item::List(list));
    SymbolValue::from_definition(&store, None, h).map_err(|e| e.message())
}

#[test]
fn a_definition_gives_every_pad_its_signal() {
    let symbol = define(&[("B", &["2"]), ("A", &["10", "1"])]).ok().unwrap();
    assert_eq!(symbol.name(), Some("Symbol"));
    assert_eq!(
        symbol.pad_to_signal().get("10").map(String::as_str),
        Some("A")
    );
    let mut names = symbol.signal_names();
    names.sort();
    assert_eq!(names, ["A", "A", "B"]);
    assert_eq!(
        show_symbol(&symbol),
        "Symbol { name: \"Symbol\", pins: { \"1\": \"A\", \"10\": \"A\", \"2\": \"B\" } }"
    );
    assert_eq!(symbol_pins_from_pad_map(symbol.pad_to_signal()).len(), 3);
}

#[test]
fn a_definition_must_make_sense() {
    assert_eq!(
        define(&[("A", &[])]).err().unwrap(),
        "Pad list for signal 'A' cannot be empty"
    );
    assert_eq!(
        define(&[("A", &["1"]), ("B", &["1"])]).err().unwrap(),
        "Pad '1' is already assigned to signal 'A'"
    );
    let mut store = Store::new();
    let number = store.allocate(Item::Int(1));
    let text = store.alloc_text("A");
    let message = |store: &Store, h: usize| {
        SymbolValue::from_definition(store, None, h)
            .err()
            .unwrap()
            .message()
    };
    assert_eq!(
        message(&store, number),
        "`definition` must be a list of (signal_name, [pad_names]) tuples"
    );
    let cases: Vec<(Item, &str)> = vec![
        (
            Item::Int(3),
            "Each definition item must be a tuple of (signal_name, [pad_names])",
        ),
        (
            Item::Tuple(vec![text]),
            "Each definition tuple must have exactly 2 elements: (signal_name, [pad_names])",
        ),
        (Item::Tuple(vec![number, text]), "Signal name must be a string"),
        (Item::Tuple(vec![text, number]), "Pad names must be a list"),
    ];
    for (item, expected) in cases {
        let h = store.allocate(item);
        let list = store.allocate(Item::List(vec![h]));
        assert_eq!(message(&store, list), expected);
    }
    let pads = store.allocate(Item::List(vec![number]));
    let h = store.allocate(Item::Tuple(vec![text, pads]));
    let list = store.allocate(Item::List(vec![h]));
    assert_eq!(message(&store, list), "Pad name must be a string");
}

#[test]
fn the_arguments_of_a_symbol_are_read() {
    let mut store = Store::new();
    let both = store.alloc_text("Device.kicad_sym:R");
    let library = store.alloc_text("Device.kicad_sym");
    let number = store.allocate(Item::Int(1));
    let r = read_symbol_arguments(&store, Some(both), None, None)
        .ok()
        .unwrap();
    assert_eq!(r.0.as_deref(), Some("Device.kicad_sym"));
    assert_eq!(r.1.as_deref(), Some("R"));
    let r = read_symbol_arguments(&store, Some(library), Some("C".to_string()), None)
        .ok()
        .unwrap();
    assert_eq!(r.1.as_deref(), Some("C"));
    assert!(matches!(
        read_symbol_arguments(&store, Some(both), Some("R".to_string()), None),
        Err(SymbolError::NameGivenTwice)
    ));
    assert!(matches!(
        read_symbol_arguments(&store, Some(library), None, Some("x".to_string())),
        Err(SymbolError::LibraryGivenTwice)
    ));
    assert!(matches!(
        read_symbol_arguments(&store, Some(number), None, None),
        Err(SymbolError::PositionalNotText)
    ));
}

#[test]
fn a_symbol_has_an_origin() {
    let path = || Some("Device.kicad_sym".to_string());
    let current = || Some("/w/x.zen".to_string());
    assert!(matches!(
        symbol_origin(Some(3), path(), current()),
        Ok(SymbolOrigin::Definition(3))
    ));
    assert!(matches!(
        symbol_origin(None, path(), current()),
        Ok(SymbolOrigin::Library { .. })
    ));
    assert!(matches!(
        symbol_origin(None, path(), None),
        Err(SymbolError::NoSourcePath)
    ));
    assert!(matches!(
        symbol_origin(None, None, current()),
        Err(SymbolError::NeitherDefinitionNorLibrary)
    ));
    let symbol = EdaSymbol {
        name: "R".to_string(),
        pins: Vec::new(),
        in_bom: true,
        internal_connectivity: InternalConnectivity::none(),
    };
    let outside = finish_library_symbol(&symbol, "/x/R.kicad_sym", None, None, SmallMap::new());
    assert_eq!(
        outside.err().unwrap().message(),
        "Symbol library '/x/R.kicad_sym' must resolve inside a workspace or dependency package"
    );
}

#[test]
fn a_symbol_is_selected_by_name_or_alone() {
    let two = vec!["R".to_string(), "C".to_string()];
    let one = vec!["R".to_string()];
    assert_eq!(
        select_symbol(Some("C".to_string()), &two, "lib").ok(),
        Some("C".to_string())
    );
    assert_eq!(select_symbol(None, &one, "lib").ok(), Some("R".to_string()));
    assert!(matches!(
        select_symbol(Some("L".to_string()), &two, "lib"),
        Err(SymbolError::SymbolNotFound { .. })
    ));
    assert!(matches!(
        select_symbol(None, &Vec::new(), "lib"),
        Err(SymbolError::NoSymbols { .. })
    ));
    match select_symbol(None, &two, "lib") {
        Err(e) => assert_eq!(
            e.message(),
            "Library 'lib' contains 2 symbols. Please specify which one with the 'name' parameter. Available symbols: R, C"
        ),
        Ok(_) => panic!("two symbols"),
    }
}

#[test]
fn libraries_may_be_directories() {
    assert_eq!(
        split_library_path("/lib/Device.kicad_sym").as_deref(),
        Some("/lib/Device.kicad_symdir")
    );
    assert_eq!(
        split_symbol_path("/lib/Device.kicad_symdir", "R"),
        "/lib/Device.kicad_symdir/R.kicad_sym"
    );
    let files = split_library_symbol_files(&vec![
        "/d/R.kicad_sym".to_string(),
        "/d/readme.md".to_string(),
        "/d/C.kicad_sym".to_string(),
    ]);
    assert_eq!(
        files,
        vec![
            ("C".to_string(), "/d/C.kicad_sym".to_string()),
            ("R".to_string(), "/d/R.kicad_sym".to_string()),
        ]
    );
    assert_eq!(
        choose_library_path(
            Ok(("/lib/Device.kicad_sym".to_string(), false)),
            Some("/lib/Device.kicad_symdir".to_string())
        )
        .ok(),
        Some("/lib/Device.kicad_symdir".to_string())
    );
    assert!(choose_library_path(Err("no".to_string()), None).is_err());
}

#[test]
fn ancestors_of_a_symbol_are_followed_once() {
    let mut line = Lineage::start("C".to_string());
    assert!(line.follow(Some("B".to_string())));
    assert!(line.follow(Some("A".to_string())));
    assert!(!line.follow(Some("B".to_string())));
    assert_eq!(line.oldest_first(), ["A", "B", "C"]);
}

struct OneLibrary;

impl FileProvider for OneLibrary {
    fn read_file(&self, path: &str) -> Result<String, FileProviderError> {
        if normalize_path(path) == "/lib/a.kicad_sym" {
            Ok("(kicad_symbol_lib)".to_string())
        } else {
            Err(FileProviderError::NotFound(path.to_string()))
        }
    }

    fn path_exists(&self, path: &str) -> bool {
        normalize_path(path) == "/lib/a.kicad_sym"
    }

    fn is_directory(&self, _path: &str) -> bool {
        false
    }

    fn is_symlink(&self, _path: &str) -> bool {
        false
    }

    fn list_directory(&self, path: &str) -> Result<Vec<String>, FileProviderError> {
        Err(FileProviderError::NotFound(path.to_string()))
    }

    fn canonicalize(&self, path: &str) -> Result<String, FileProviderError> {
        Ok(normalize_path(path))
    }
}

#[test]
fn symbol_libraries_are_kept_until_forgotten() {
    let mut cache = SymbolLibraryCache::new();
    let key = match cache.find_library("/lib/x/../a.kicad_sym", &OneLibrary) {
        Ok(LibrarySource::Unknown { key, contents }) => {
            assert_eq!(contents, "(kicad_symbol_lib)");
            key
        }
        _ => panic!("not read"),
    };
    assert_eq!(key, "/lib/a.kicad_sym");
    assert!(matches!(
        cache.keep_library(key, "/lib/a.kicad_sym", Ok(7)),
        Ok(7)
    ));
    assert!(matches!(
        cache.find_library("/lib/a.kicad_sym", &OneLibrary),
        Ok(LibrarySource::Known { library: 7 })
    ));
    invalidate_symbol_library(&mut cache, "/lib/x/../a.kicad_sym", &OneLibrary);
    assert!(matches!(
        cache.find_library("/lib/a.kicad_sym", &OneLibrary),
        Ok(LibrarySource::Unknown { .. })
    ));
}

#[test]
fn symbol_libraries_that_cannot_be_used_are_reported() {
    let mut cache = SymbolLibraryCache::new();
    let message = |r: Result<LibrarySource, SymbolError>| match r {
        Ok(_) => String::new(),
        Err(e) => e.message(),
    };
    assert_eq!(
        message(cache.find_library("/lib/b.kicad_sym", &OneLibrary)),
        "Failed to read symbol library '/lib/b.kicad_sym': File not found: /lib/b.kicad_sym"
    );
    match cache.keep_library(
        "/lib/a.kicad_sym".to_string(),
        "/lib/a.kicad_sym",
        Err("no list".to_string()),
    ) {
        Err(e) => assert_eq!(
            e.message(),
            "Failed to parse symbol library /lib/a.kicad_sym: no list"
        ),
        Ok(_) => panic!("kept"),
    }
}
