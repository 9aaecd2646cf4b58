//! Names of the attributes that the core gives to instances.

use vstd::prelude::*;

verus! {

pub const MODEL_DEF: &'static str = "__model_def";

pub const MODEL_NAME: &'static str = "__model_name";

pub const MODEL_NETS: &'static str = "__model_nets";

pub const MODEL_ARGS: &'static str = "__model_args";

pub const SIGNATURE: &'static str = "__signature";

pub const LAYOUT_PATH: &'static str = "layout_path";

pub const FOOTPRINT: &'static str = "footprint";

pub const PREFIX: &'static str = "prefix";

pub const MPN: &'static str = "mpn";

pub const MANUFACTURER: &'static str = "manufacturer";

pub const BOM_MPN: &'static str = "__bom_mpn";

pub const PART: &'static str = "part";

pub const TYPE: &'static str = "type";

pub const SYMBOL_NAME: &'static str = "symbol_name";

pub const SYMBOL_PATH: &'static str = "symbol_path";

pub const SYMBOL_VALUE: &'static str = "__symbol_value";

pub const PADS: &'static str = "pads";

pub const DNP: &'static str = "dnp";

pub const SKIP_BOM: &'static str = "skip_bom";

pub const SKIP_POS: &'static str = "skip_pos";

pub const DATASHEET: &'static str = "datasheet";

pub const DESCRIPTION: &'static str = "description";

pub const SIM_SETUP: &'static str = "__sim_setup";

pub const SIM_SETUP_SPAN: &'static str = "__sim_setup_span";

} // verus!
