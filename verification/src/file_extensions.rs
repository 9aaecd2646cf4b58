//! File extensions.

use vstd::prelude::*;

use crate::text::{lowered, opt_str, same_ignoring_case};

verus! {

/// KiCad symbol file extension.
pub const KICAD_SYMBOL_EXTENSION: &'static str = "kicad_sym";

/// Whether an extension, if any, is `name` but for the case of its ASCII letters.
pub open spec fn extension_is(extension: Option<Seq<char>>, name: Seq<char>) -> bool {
    extension is Some && lowered(extension->Some_0) == lowered(name)
}

/// Whether a file has a Starlark extension, `star` or `zen`.
pub fn is_starlark_file(extension: Option<&str>) -> (r: bool)
    ensures
        r == (extension_is(opt_str(extension), "star"@) || extension_is(
            opt_str(extension),
            "zen"@,
        )),
{
    match extension {
        Some(ext) => same_ignoring_case(ext, "star") || same_ignoring_case(ext, "zen"),
        None => false,
    }
}

/// Whether a file has a KiCad symbol extension.
pub fn is_kicad_symbol_file(extension: Option<&str>) -> (r: bool)
    ensures
        r == extension_is(opt_str(extension), KICAD_SYMBOL_EXTENSION@),
{
    match extension {
        Some(ext) => same_ignoring_case(ext, KICAD_SYMBOL_EXTENSION),
        None => false,
    }
}

} // verus!
