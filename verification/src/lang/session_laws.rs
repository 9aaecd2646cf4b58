//! What holds of what is kept from one evaluation to the next.

use vstd::prelude::*;

use crate::convert::ModuleParam;
use crate::lang::eval::{analysis_begun, canonical_file_forgotten, parameter_form, parameter_forms};
use crate::lang::eval::{shows_parameter, ParameterFormView, SignatureParameter};
use crate::lang::session::{file_forgotten, files_forgotten, kept, law_forgotten_file};
use crate::lang::session::{module_inserted, names_forgotten, ready_for_root, CacheKey, EvalSession};
use crate::lang::value::Item;
use crate::path::{components, same_path};
use crate::resolved::ResolutionResult;
use crate::text::opt_text;

verus! {

/// Once all is ready for another root, no module of the last is in the tree, and all that was loaded,
/// read or known is still there.
pub proof fn law_next_root_starts_anew(before: EvalSession, after: EvalSession, k: CacheKey)
    requires
        ready_for_root(before, after),
    ensures
        after.module_tree.entries@.len() == 0,
        kept(after.load_cache.entries@, k) == kept(before.load_cache.entries@, k),
        kept(after.source_cache.entries@, k) == kept(before.source_cache.entries@, k),
        kept(after.footprint_cache.entries@, k) == kept(before.footprint_cache.entries@, k),
        kept(after.symbol_cache.entries@, k) == kept(before.symbol_cache.entries@, k),
        kept(after.spice_cache.entries@, k) == kept(before.spice_cache.entries@, k),
        after.symbol_index@ == before.symbol_index@,
        after.symbol_meta@ == before.symbol_meta@,
        after.module_deps@ == before.module_deps@,
{
}

/// Once everything that was derived from files is forgotten, nothing is kept under any key; what is
/// known of names and the tree stay.
pub proof fn law_nothing_is_kept(before: EvalSession, after: EvalSession, k: CacheKey)
    requires
        files_forgotten(before, after),
    ensures
        kept(after.load_cache.entries@, k) is None,
        kept(after.source_cache.entries@, k) is None,
        kept(after.footprint_cache.entries@, k) is None,
        kept(after.symbol_cache.entries@, k) is None,
        kept(after.spice_cache.entries@, k) is None,
        after.symbol_index@ == before.symbol_index@,
        after.symbol_meta@ == before.symbol_meta@,
        after.module_tree@ == before.module_tree@,
{
}

/// Once the names of a file are forgotten, nothing is known of them, and all of those of other files.
pub proof fn law_names_are_forgotten(
    before: EvalSession,
    after: EvalSession,
    path: Seq<char>,
    other: Seq<Seq<char>>,
)
    requires
        names_forgotten(before, after, path),
    ensures
        !after.symbol_index@.dom().contains(components(path)),
        !after.symbol_meta@.dom().contains(components(path)),
        other != components(path) ==> after.symbol_index@.dom().contains(other)
            == before.symbol_index@.dom().contains(other),
        other != components(path) && before.symbol_index@.dom().contains(other)
            ==> after.symbol_index@[other] == before.symbol_index@[other],
        other != components(path) && before.symbol_meta@.dom().contains(other)
            ==> after.symbol_meta@.dom().contains(other) && after.symbol_meta@[other]
            == before.symbol_meta@[other],
        after.load_cache == before.load_cache,
        after.module_tree@ == before.module_tree@,
{
}

/// Once a file is forgotten, neither its source nor the symbols and models in it are kept; what is kept
/// of other files stays, and so do the modules that were loaded.
pub proof fn law_file_is_forgotten(
    before: EvalSession,
    after: EvalSession,
    path: Seq<char>,
    footprint_key: Option<CacheKey>,
    k: CacheKey,
)
    requires
        file_forgotten(before, after, path, footprint_key),
    ensures
        same_path(k.path@, path) ==> kept(after.source_cache.entries@, k) is None && kept(
            after.symbol_cache.entries@,
            k,
        ) is None && kept(after.spice_cache.entries@, k) is None,
        !same_path(k.path@, path) ==> kept(after.source_cache.entries@, k) == kept(
            before.source_cache.entries@,
            k,
        ) && kept(after.spice_cache.entries@, k) == kept(before.spice_cache.entries@, k),
        kept(after.load_cache.entries@, k) == kept(before.load_cache.entries@, k),
        footprint_key is None ==> kept(after.footprint_cache.entries@, k) == kept(
            before.footprint_cache.entries@,
            k,
        ),
        after.symbol_index@ == before.symbol_index@,
        after.module_tree@ == before.module_tree@,
{
    law_forgotten_file(before.source_cache.entries@, path, false, k);
    law_forgotten_file(before.symbol_cache.entries@, path, true, k);
    law_forgotten_file(before.spice_cache.entries@, path, false, k);
}

/// The same holds of a file whose path is canonical; only a footprint's file concerns the footprints.
pub proof fn law_canonical_file_is_forgotten(
    before: EvalSession,
    after: EvalSession,
    resolution: &ResolutionResult,
    active: Option<Seq<char>>,
    path: Seq<char>,
    footprint: Seq<char>,
    k: CacheKey,
)
    requires
        canonical_file_forgotten(before, after, resolution, active, path, footprint),
    ensures
        same_path(k.path@, path) ==> kept(after.source_cache.entries@, k) is None && kept(
            after.symbol_cache.entries@,
            k,
        ) is None && kept(after.spice_cache.entries@, k) is None,
        !same_path(k.path@, path) ==> kept(after.source_cache.entries@, k) == kept(
            before.source_cache.entries@,
            k,
        ) && kept(after.spice_cache.entries@, k) == kept(before.spice_cache.entries@, k),
        kept(after.load_cache.entries@, k) == kept(before.load_cache.entries@, k),
        crate::path::extension_of(path) != Some("kicad_mod"@) ==> kept(
            after.footprint_cache.entries@,
            k,
        ) == kept(before.footprint_cache.entries@, k),
        after.symbol_index@ == before.symbol_index@,
        after.module_tree@ == before.module_tree@,
{
    law_forgotten_file(before.source_cache.entries@, path, false, k);
    law_forgotten_file(before.symbol_cache.entries@, path, true, k);
    law_forgotten_file(before.spice_cache.entries@, path, false, k);
}

/// A module that is put into the tree stands there under its path, and nothing else changes.
pub proof fn law_module_is_in_tree(
    before: EvalSession,
    after: EvalSession,
    path: Seq<Seq<char>>,
    module: usize,
    other: Seq<Seq<char>>,
)
    requires
        module_inserted(before, after, path, module),
    ensures
        after.module_tree@.dom().contains(path),
        after.module_tree@[path] == module,
        other != path && before.module_tree@.dom().contains(other)
            ==> after.module_tree@.dom().contains(other) && after.module_tree@[other]
            == before.module_tree@[other],
        after.load_cache == before.load_cache,
        after.source_cache == before.source_cache,
{
}

/// An analysis starts with nothing kept and no tree, and forgets the names of its file alone.
pub proof fn law_analysis_starts_anew(
    before: EvalSession,
    after: EvalSession,
    path: Seq<char>,
    k: CacheKey,
    other: Seq<Seq<char>>,
)
    requires
        analysis_begun(before, after, path),
    ensures
        kept(after.load_cache.entries@, k) is None,
        kept(after.source_cache.entries@, k) is None,
        kept(after.symbol_cache.entries@, k) is None,
        after.module_tree.entries@.len() == 0,
        !after.symbol_index@.dom().contains(components(path)),
        other != components(path) && before.symbol_index@.dom().contains(other)
            ==> after.symbol_index@.dom().contains(other) && after.symbol_index@[other]
            == before.symbol_index@[other],
        after.module_deps@ == before.module_deps@,
{
}

// ---------------------------------------------------------------------------------------------
// Signatures

/// A parameter is shown to tools under its name and type; it is required exactly where it is not
/// optional, and has a default where it is given one that can be shown.
pub proof fn law_parameter_is_shown(
    r: SignatureParameter,
    items: Seq<Item>,
    has_form: Seq<bool>,
    p: ModuleParam,
    shown: Option<Seq<char>>,
)
    requires
        shows_parameter(r, items, has_form, p, shown),
    ensures
        r.name@ == p.name@,
        r.type_value == p.type_value,
        r.required <==> !p.optional,
        p.default_value is None ==> r.default_value is None,
        p.default_value is Some && has_form[p.default_value->Some_0 as int] ==> r.default_value is Some,
        p.allowed_values is Some <==> r.allowed_values is Some,
        opt_text(r.help) == opt_text(p.help),
        r.direction == p.direction,
{
}

/// A value is shown by its text where it is one of a choice or a quantity, and else in its own form,
/// where it has one; values without a form are left out of a list, and all others are in it.
pub proof fn law_forms_of_parameters(items: Seq<Item>, has_form: Seq<bool>, hs: Seq<usize>, h: usize)
    ensures
        match items[h as int] {
            Item::Choice { type_label: _, value } => parameter_form(items, has_form, h) == Some(
                ParameterFormView::Text(value@),
            ),
            Item::Quantity { type_label: _, shown, repr: _ } => parameter_form(items, has_form, h)
                == Some(ParameterFormView::Text(shown@)),
            _ => parameter_form(items, has_form, h) == (if has_form[h as int] {
                Some(ParameterFormView::Native(h))
            } else {
                None
            }),
        },
        hs.contains(h) && parameter_form(items, has_form, h) is Some ==> parameter_forms(
            items,
            has_form,
            hs,
        ).contains(parameter_form(items, has_form, h)->Some_0),
        parameter_forms(items, has_form, hs).len() <= hs.len(),
    decreases hs.len(),
{
    if hs.len() > 0 {
        let d = hs.drop_last();
        law_forms_of_parameters(items, has_form, d, h);
        let before = parameter_forms(items, has_form, d);
        let after = parameter_forms(items, has_form, hs);
        if hs.contains(h) && parameter_form(items, has_form, h) is Some {
            let f = parameter_form(items, has_form, h)->Some_0;
            let i = choose|i: int| 0 <= i < hs.len() && hs[i] == h;
            if i < d.len() {
                assert(d[i] == h);
                let k = choose|k: int| 0 <= k < before.len() && before[k] == f;
                assert(after[k] == f);
            } else {
                assert(after[before.len() as int] == f);
            }
        }
    }
}

} // verus!
