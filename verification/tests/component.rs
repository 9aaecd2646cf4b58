use pcb_zen_core::config::ManifestPart;
use pcb_zen_core::lang::component::{
    bundled_footprint_path, consolidate_bool_property, finish_footprint,
    infer_footprint_stem_from_property, parse_component_properties, parse_optional_part,
    plan_footprint, resolve_component_datasheet, resolve_component_sourcing,
    usable_kicad_field_value, ComponentError, FootprintFound, FootprintPlan,
};
use pcb_zen_core::lang::component::{
    append_alternatives_property, manifest_part_matches_symbol, matching_manifest_parts,
    remove_consolidated_component_properties, warn_legacy_component_inputs,
};
use pcb_zen_core::lang::part::PartValue;
use pcb_zen_core::lang::symbol::{InternalConnectivity, SymbolValue};
use pcb_zen_core::lang::value::{DictKey, Item, Store};
use starlark::collections::SmallMap;

fn test_symbol(mpn: Option<&str>, manufacturer: Option<&str>) -> SymbolValue {
    let mut properties = SmallMap::new();
    if let Some(v) = mpn {
        properties.insert("Manufacturer_Part_Number".to_string(), v.to_string());
    }
    if let Some(v) = manufacturer {
        properties.insert("Manufacturer_Name".to_string(), v.to_string());
    }
    symbol_with(properties)
}

fn symbol_with(properties: SmallMap<String, String>) -> SymbolValue {
    SymbolValue {
        name: Some("TestSymbol".to_string()),
        pad_to_signal: SmallMap::new(),
        pins: Vec::new(),
        source_uri: None,
        raw_sexp: None,
        properties,
        in_bom: true,
        internal_connectivity: InternalConnectivity::none(),
    }
}

fn make_string_properties(store: &mut Store, entries: &[(&str, &str)]) -> SmallMap<String, usize> {
    let mut props = SmallMap::new();
    for (k, v) in entries {
        props.insert((*k).to_string(), store.alloc_text(v));
    }
    props
}

fn manifest_part(mpn: &str, manufacturer: &str, qualification: &str) -> ManifestPart {
    ManifestPart {
        mpn: mpn.to_string(),
        symbol: "Part.kicad_sym".to_string(),
        symbol_name: None,
        manufacturer: manufacturer.to_string(),
        qualifications: vec![qualification.to_string()],
        datasheet: None,
    }
}

fn assert_part(part: &PartValue, mpn: &str, manufacturer: &str, qualifications: &[&str]) {
    assert_eq!(part.mpn(), mpn);
    assert_eq!(part.manufacturer(), manufacturer);
    assert_eq!(part.qualifications(), qualifications);
    assert_eq!(part.datasheet(), None);
}

#[test]
fn infer_footprint_stem_accepts_bare_stem() {
    assert_eq!(
        infer_footprint_stem_from_property("ABC123"),
        Some("ABC123".to_owned())
    );
}

#[test]
fn infer_footprint_stem_accepts_repeated_legacy_form() {
    assert_eq!(
        infer_footprint_stem_from_property("ABC123:ABC123"),
        Some("ABC123".to_owned())
    );
}

#[test]
fn infer_footprint_stem_rejects_mismatched_libpart() {
    assert_eq!(infer_footprint_stem_from_property("Lib:Part"), None);
}

#[test]
fn infer_footprint_stem_rejects_paths() {
    assert_eq!(
        infer_footprint_stem_from_property("Connector.pretty/USB_C"),
        None
    );
    assert_eq!(
        infer_footprint_stem_from_property("C:\\foo\\bar\\USB_C"),
        None
    );
}

#[test]
fn resolve_component_sourcing_prefers_part_when_present() {
    let symbol = test_symbol(Some("SYM-MPN"), Some("SYM-MFR"));
    let part = PartValue::new(
        "PART-MPN".to_string(),
        "PART-MFR".to_string(),
        vec!["Q1".to_string()],
        None,
    );

    let mut store = Store::new();
    let properties = make_string_properties(
        &mut store,
        &[("mpn", "PROP-MPN"), ("manufacturer", "PROP-MFR")],
    );
    let resolved = resolve_component_sourcing(
        Some(&part),
        Some("KW-MPN".to_string()),
        Some("KW-MFR".to_string()),
        &store,
        &properties,
        &symbol,
        None,
    );

    let (part, alternatives, _) = resolved;
    let part = part.expect("expected Some(PartValue)");
    assert_eq!(part.mpn(), "PART-MPN");
    assert_eq!(part.manufacturer(), "PART-MFR");
    assert_eq!(part.qualifications(), &["Q1"]);
    assert!(alternatives.is_empty());
}

#[test]
fn resolve_component_sourcing_appends_manifest_parts_when_part_present() {
    let symbol = test_symbol(None, None);
    let part = PartValue::new(
        "PART-MPN".to_string(),
        "PART-MFR".to_string(),
        vec!["Q1".to_string()],
        None,
    );
    let manifest_parts = vec![
        manifest_part("MANIFEST-PRIMARY", "ManifestCorp", "Q2"),
        manifest_part("MANIFEST-ALT", "AltCorp", "Q3"),
    ];

    let mut store = Store::new();
    let properties = make_string_properties(&mut store, &[]);
    let resolved = resolve_component_sourcing(
        Some(&part),
        None,
        None,
        &store,
        &properties,
        &symbol,
        Some(&manifest_parts),
    );

    let (part, alternatives, _) = resolved;
    let part = part.expect("expected Some(PartValue)");
    assert_part(&part, "PART-MPN", "PART-MFR", &["Q1"]);
    assert_eq!(alternatives.len(), 2);
    assert_part(&alternatives[0], "MANIFEST-PRIMARY", "ManifestCorp", &["Q2"]);
    assert_part(&alternatives[1], "MANIFEST-ALT", "AltCorp", &["Q3"]);
}

#[test]
fn resolve_component_sourcing_prefers_explicit_without_part() {
    let symbol = test_symbol(Some("SYM-MPN"), Some("SYM-MFR"));

    let mut store = Store::new();
    let properties = make_string_properties(
        &mut store,
        &[("mpn", "PROP-MPN"), ("manufacturer", "PROP-MFR")],
    );
    let resolved = resolve_component_sourcing(
        None,
        Some("KW-MPN".to_string()),
        Some("KW-MFR".to_string()),
        &store,
        &properties,
        &symbol,
        None,
    );

    let (part, alternatives, _) = resolved;
    let part = part.expect("expected Some(PartValue)");
    assert_eq!(part.mpn(), "KW-MPN");
    assert_eq!(part.manufacturer(), "KW-MFR");
    assert!(alternatives.is_empty());
}

#[test]
fn resolve_component_sourcing_prefers_properties_then_symbol_without_part() {
    let symbol = test_symbol(Some("SYM-MPN"), Some("SYM-MFR"));

    let mut store = Store::new();
    let properties = make_string_properties(
        &mut store,
        &[("mpn", "PROP-MPN"), ("manufacturer", "PROP-MFR")],
    );
    let resolved_from_props =
        resolve_component_sourcing(None, None, None, &store, &properties, &symbol, None);

    let empty_props = make_string_properties(&mut store, &[]);
    let resolved_from_symbol =
        resolve_component_sourcing(None, None, None, &store, &empty_props, &symbol, None);

    let (part, alternatives, _) = resolved_from_props;
    let part = part.expect("expected Some(PartValue)");
    assert_eq!(part.mpn(), "PROP-MPN");
    assert_eq!(part.manufacturer(), "PROP-MFR");
    assert!(alternatives.is_empty());

    let (part, alternatives, _) = resolved_from_symbol;
    let part = part.expect("expected Some(PartValue)");
    assert_eq!(part.mpn(), "SYM-MPN");
    assert_eq!(part.manufacturer(), "SYM-MFR");
    assert!(alternatives.is_empty());
}

#[test]
fn resolve_component_sourcing_falls_back_to_manifest_parts() {
    let symbol = test_symbol(None, None);
    let manifest_parts = vec![
        manifest_part("MANIFEST-PRIMARY", "ManifestCorp", "Q1"),
        manifest_part("MANIFEST-ALT", "AltCorp", "Q2"),
    ];

    let mut store = Store::new();
    let empty_props = make_string_properties(&mut store, &[]);
    let resolved = resolve_component_sourcing(
        None,
        None,
        None,
        &store,
        &empty_props,
        &symbol,
        Some(&manifest_parts),
    );

    let (part, alternatives, _) = resolved;
    let part = part.expect("expected Some(PartValue)");
    assert_part(&part, "MANIFEST-PRIMARY", "ManifestCorp", &["Q1"]);
    assert_eq!(alternatives.len(), 1);
    assert_part(&alternatives[0], "MANIFEST-ALT", "AltCorp", &["Q2"]);
}

#[test]
fn manifest_parts_count_for_their_symbol() {
    let symbol = test_symbol(None, None);
    let mut named = manifest_part("A", "M", "Q");
    named.symbol_name = Some("TestSymbol".to_string());
    let mut other = manifest_part("B", "M", "Q");
    other.symbol_name = Some("Other".to_string());
    let unnamed = manifest_part("C", "M", "Q");
    assert!(manifest_part_matches_symbol(&named, &symbol));
    assert!(!manifest_part_matches_symbol(&other, &symbol));
    assert!(manifest_part_matches_symbol(&unnamed, &symbol));
    let matching = matching_manifest_parts(&vec![named, other, unnamed], &symbol);
    let names: Vec<&str> = matching.iter().map(|p| p.mpn.as_str()).collect();
    assert_eq!(names, ["A", "C"]);
}

#[test]
fn blank_fields_of_symbols_do_not_count() {
    assert_eq!(usable_kicad_field_value("~"), None);
    assert_eq!(usable_kicad_field_value(""), None);
    assert_eq!(usable_kicad_field_value("x"), Some("x".to_string()));
}

#[test]
fn truth_values_come_from_arguments_then_properties() {
    let mut store = Store::new();
    let yes = store.allocate(Item::Bool(true));
    let properties = make_string_properties(&mut store, &[("do_not_populate", "True")]);
    let keys = vec!["do_not_populate".to_string(), "dnp".to_string()];
    assert_eq!(
        consolidate_bool_property(&store, None, &properties, &keys),
        Some(true)
    );
    let none = make_string_properties(&mut store, &[("dnp", "maybe")]);
    assert_eq!(consolidate_bool_property(&store, None, &none, &keys), None);
    assert_eq!(
        consolidate_bool_property(&store, Some(yes), &none, &keys),
        Some(true)
    );
}

#[test]
fn legacy_inputs_are_warned_of() {
    let mut store = Store::new();
    let none = make_string_properties(&mut store, &[]);
    assert!(warn_legacy_component_inputs("R1", false, false, &none).is_empty());
    let some = warn_legacy_component_inputs("R1", true, false, &none);
    assert_eq!(some.len(), 1);
    assert!(some[0].message.contains("R1"));
}

#[test]
fn properties_are_a_dictionary_with_names() {
    let mut store = Store::new();
    let text = store.alloc_text("x");
    assert!(parse_component_properties(&store, Some(text)).is_err());
    let value = store.alloc_text("10k");
    let dict = store.allocate(Item::Dict(vec![(
        DictKey {
            text: "value".to_string(),
            is_string: true,
        },
        value,
    )]));
    let properties = parse_component_properties(&store, Some(dict)).ok().unwrap();
    assert_eq!(properties.get("value"), Some(&value));
    assert!(parse_component_properties(&store, None).ok().unwrap().is_empty());
    assert!(matches!(
        parse_optional_part(&store, Some(text)),
        Err(_)
    ));
}

#[test]
fn a_datasheet_of_the_part_comes_first() {
    let part = PartValue::new(
        "M".to_string(),
        "F".to_string(),
        Vec::new(),
        Some("part.pdf".to_string()),
    );
    let own = Some("own.pdf".to_string());
    let symbol = Some("symbol.pdf".to_string());
    assert_eq!(
        resolve_component_datasheet(Some(&part), &own, &symbol).as_deref(),
        Some("part.pdf")
    );
    assert_eq!(
        resolve_component_datasheet(None, &own, &symbol).as_deref(),
        Some("own.pdf")
    );
    assert_eq!(
        resolve_component_datasheet(None, &None, &symbol).as_deref(),
        Some("symbol.pdf")
    );
}

#[test]
fn alternatives_join_those_that_are_there() {
    let mut store = Store::new();
    let mut properties = make_string_properties(&mut store, &[]);
    let part = PartValue::new("M".to_string(), "F".to_string(), Vec::new(), None);
    let r = append_alternatives_property(&mut store, &mut properties, vec![part]);
    assert!(r.is_ok());
    let h = *properties.get("alternatives").unwrap();
    match &store.items[h] {
        Item::List(v) => assert_eq!(v.len(), 1),
        _ => panic!("alternatives are a list"),
    }
}

#[test]
fn consolidated_properties_leave() {
    let mut store = Store::new();
    let mut properties = make_string_properties(
        &mut store,
        &[("mpn", "M"), ("value", "10k"), ("manufacturer", "F")],
    );
    remove_consolidated_component_properties(&mut properties);
    assert_eq!(properties.len(), 1);
    assert!(properties.get("value").is_some());
}

#[test]
fn footprints_are_given_found_or_bundled() {
    let plain = test_symbol(None, None);
    let given = plan_footprint(
        Some("R.kicad_mod".to_string()),
        &plain,
        Err("none".to_string()),
        false,
    );
    assert!(matches!(given, Ok(FootprintPlan::Given(_))));
    assert!(plan_footprint(None, &plain, Err("none".to_string()), false).is_err());

    let mut properties = SmallMap::new();
    properties.insert(
        "Footprint".to_string(),
        "Resistor_SMD:R_0603_1608Metric".to_string(),
    );
    let mut bundled = symbol_with(properties);
    bundled.source_uri = Some("package://lib/Device.kicad_sym".to_string());
    let plan = plan_footprint(
        None,
        &bundled,
        Ok("/w/Device.kicad_sym".to_string()),
        true,
    );
    match plan {
        Ok(FootprintPlan::Bundled(p)) => {
            assert_eq!(
                Some(p.clone()),
                bundled_footprint_path("Resistor_SMD:R_0603_1608Metric")
            );
            assert!(p.contains("Resistor_SMD.pretty/R_0603_1608Metric.kicad_mod"));
            let done = finish_footprint(
                FootprintPlan::Bundled(p),
                FootprintFound {
                    resolved: Ok("/lib/R.kicad_mod".to_string()),
                    file_exists: true,
                },
            );
            assert_eq!(done.ok(), Some("/lib/R.kicad_mod".to_string()));
        }
        _ => panic!("a footprint of the bundled library"),
    }
}

#[test]
fn errors_of_components_have_texts() {
    let e = ComponentError::PinNotInSymbol {
        pin_name: "X".to_string(),
    };
    assert!(e.message().contains("X"));
}
