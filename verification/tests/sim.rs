use pcb_zen_core::lang::sim::{assign_terminals, bind_model, parse_sim_params, parse_sim_pins};
use starlark::collections::SmallMap;

fn texts(entries: &[(&str, &str)]) -> SmallMap<String, String> {
    let mut out = SmallMap::new();
    for (k, v) in entries {
        out.insert(k.to_string(), v.to_string());
    }
    out
}

#[test]
fn pins_of_models_are_read() {
    let r = parse_sim_pins("1=A 2=B").ok().unwrap();
    assert_eq!(
        r,
        vec![
            ("1".to_string(), "A".to_string()),
            ("2".to_string(), "B".to_string())
        ]
    );
    assert!(parse_sim_pins("1A").is_err());
}

#[test]
fn parameters_of_models_are_read() {
    let r = parse_sim_params("r=10k name=\"a b\"").ok().unwrap();
    assert_eq!(r.get("r").map(String::as_str), Some("10k"));
    assert_eq!(r.get("name").map(String::as_str), Some("a b"));
    assert!(parse_sim_params("").ok().unwrap().is_empty());
}

#[test]
fn terminals_get_the_signals_of_their_pads() {
    let pads = texts(&[("1", "VIN"), ("2", "GND")]);
    let mappings = parse_sim_pins("1=in 2=gnd").ok().unwrap();
    let r = assign_terminals(&mappings, &pads).ok().unwrap();
    assert_eq!(r.get("in").map(String::as_str), Some("VIN"));
    assert_eq!(r.get("gnd").map(String::as_str), Some("GND"));
    let mappings = parse_sim_pins("9=in").ok().unwrap();
    assert!(assign_terminals(&mappings, &pads).is_err());
}

#[test]
fn a_model_is_bound_to_nets() {
    let signals = texts(&[("in", "VIN"), ("gnd", "GND")]);
    let mut connections = SmallMap::new();
    connections.insert("VIN".to_string(), 4);
    connections.insert("GND".to_string(), 5);
    let terminals = vec!["gnd".to_string(), "in".to_string()];
    let (nets, args) = bind_model(&terminals, &signals, &connections, "r=1").ok().unwrap();
    assert_eq!(nets, [5, 4]);
    assert_eq!(args.get("r").map(String::as_str), Some("1"));
    let unknown = vec!["out".to_string()];
    assert!(bind_model(&unknown, &signals, &connections, "").is_err());
}
