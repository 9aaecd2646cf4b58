//! The values of the language, and the rules by which circuits are made from them.

pub mod attribute_laws;
pub mod build_laws;
pub mod builtin;
pub mod change_laws;
pub mod component;
pub mod component_call;
pub mod component_laws;
pub mod component_type;
pub mod component_value;
pub mod eval;
pub mod eval_laws;
pub mod footprint;
pub mod input_laws;
pub mod interface;
pub mod load;
pub mod model_laws;
pub mod net;
pub mod net_call;
pub mod net_laws;
pub mod param_decl;
pub mod part;
pub mod pins;
pub mod session;
pub mod session_laws;
pub mod sim;
pub mod source;
pub mod source_laws;
pub mod symbol;
pub mod symbol_laws;
pub mod value;
