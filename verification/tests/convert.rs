use pcb_zen_core::convert::stable_single_port_not_connected_scoped_name;
use pcb_zen_core::schematic::InstancePath;

fn inst_ref(path: &[&str]) -> InstancePath {
    InstancePath {
        segments: path.iter().map(|s| (*s).to_string()).collect(),
    }
}

#[test]
fn stable_single_port_not_connected_scoped_name_root_two_segments() {
    assert_eq!(
        stable_single_port_not_connected_scoped_name(&inst_ref(&["R1", "P2"])).as_deref(),
        Some("NC_R1_P2")
    );
}

#[test]
fn stable_single_port_not_connected_scoped_name_with_module_prefix() {
    assert_eq!(
        stable_single_port_not_connected_scoped_name(&inst_ref(&["Power", "DcDc", "U1", "SW"]))
            .as_deref(),
        Some("Power.DcDc.NC_U1_SW")
    );
}

#[test]
fn stable_single_port_not_connected_scoped_name_one_segment() {
    assert_eq!(
        stable_single_port_not_connected_scoped_name(&inst_ref(&["SW"])).as_deref(),
        Some("NC_SW")
    );
}

#[test]
fn stable_single_port_not_connected_scoped_name_empty_path_returns_none() {
    assert_eq!(
        stable_single_port_not_connected_scoped_name(&inst_ref(&[])),
        None
    );
}

#[test]
fn stable_single_port_not_connected_scoped_name_sanitizes_fragments() {
    assert_eq!(
        stable_single_port_not_connected_scoped_name(&inst_ref(&["Top", "U1@A.B", "PF0 OSC_IN"]))
            .as_deref(),
        Some("Top.NC_U1_A_B_PF0_OSC_IN")
    );
}
