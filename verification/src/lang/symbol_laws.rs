//! What holds of every symbol, of the pads that it assigns, and of the models that simulate it.

use vstd::prelude::*;

use crate::lang::builtin::{called, part_error, severity_error, sim_setup, with_texts_put};
use crate::lang::builtin::{BoardCall, SpanPlaces};
use crate::lang::pins::{accepts, chosen_symbol, is_power, pads_from, pin_warning, PinWarning};
use crate::lang::sim::{assigned_signals, bound_model, key_len, quoted, sim_params, sim_pins};
use crate::lang::sim::{terminal_nets, terminal_signals, unknown_pin, unknown_terminal, word_len};
use crate::lang::symbol::{asked_symbol, defined_pads, group_signals, jumper_groups};
use crate::lang::symbol::{lemma_group_signals, library_symbol, meant_symbol, split_library_of};
use crate::lang::symbol::{symbol_files, with_entry, with_pads, EdaSymbol};
use crate::lang::value::{text_of, DictKey, Item};
use crate::path::{extension_of, file_name_of, file_stem_of};
use crate::small_map::{distinct, lemma_place, lemma_put, names_of, put, under};
use crate::text::{cut_first, first_at, is_space, last_at, law_blank_is_empty_trimmed};
use crate::text::{lemma_first_at, lemma_last_at, trimmed, trimmed_start};

verus! {

// ---------------------------------------------------------------------------------------------
// Definitions

/// Whether an entry of a definition lists a pad for a signal.
pub open spec fn lists_pad(items: Seq<Item>, h: usize, signal: Seq<char>, pad: Seq<char>) -> bool {
    match items[h as int] {
        Item::Tuple(t) => t@.len() == 2 && text_of(items[t@[0] as int]) == Some(signal)
            && match items[t@[1] as int] {
            Item::List(pads) => among(items, pads@, pad),
            _ => false,
        },
        _ => false,
    }
}

/// Whether a text is among some values.
pub open spec fn among(items: Seq<Item>, v: Seq<usize>, text: Seq<char>) -> bool {
    exists|j: int| 0 <= j < v.len() && text_of(items[#[trigger] v[j] as int]) == Some(text)
}

proof fn lemma_among(items: Seq<Item>, v: Seq<usize>, text: Seq<char>)
    requires
        v.len() > 0,
    ensures
        among(items, v, text) <==> among(items, v.drop_last(), text) || text_of(
            items[v.last() as int],
        ) == Some(text),
{
    let d = v.drop_last();
    if among(items, v, text) {
        let j = choose|j: int|
            0 <= j < v.len() && text_of(items[#[trigger] v[j] as int]) == Some(text);
        if j < d.len() {
            assert(d[j] == v[j]);
        }
    }
    if among(items, d, text) {
        let j = choose|j: int|
            0 <= j < d.len() && text_of(items[#[trigger] d[j] as int]) == Some(text);
        assert(d[j] == v[j]);
    }
    assert(v[v.len() - 1] == v.last());
}

proof fn lemma_with_pads(
    items: Seq<Item>,
    t: Seq<(Seq<char>, Seq<char>)>,
    signal: Seq<char>,
    pads: Seq<usize>,
)
    requires
        distinct(t),
        with_pads(items, t, signal, pads) is Ok,
    ensures
        distinct(with_pads(items, t, signal, pads)->Ok_0),
        forall|q: Seq<char>| #[trigger] among(items, pads, q) ==> under(t, q) is None,
        forall|q: Seq<char>| #[trigger]
            under(with_pads(items, t, signal, pads)->Ok_0, q) == (if among(items, pads, q) {
                Some(signal)
            } else {
                under(t, q)
            }),
    decreases pads.len(),
{
    if pads.len() > 0 {
        let d = pads.drop_last();
        lemma_with_pads(items, t, signal, d);
        let u = with_pads(items, t, signal, d)->Ok_0;
        let pad = text_of(items[pads.last() as int])->Some_0;
        lemma_put(u, pad, signal);
        assert forall|q: Seq<char>| #[trigger] among(items, pads, q) implies under(t, q) is None by {
            lemma_among(items, pads, q);
            assert(under(u, q) == (if among(items, d, q) {
                Some(signal)
            } else {
                under(t, q)
            }));
        }
        assert forall|q: Seq<char>| #[trigger]
            under(with_pads(items, t, signal, pads)->Ok_0, q) == (if among(items, pads, q) {
                Some(signal)
            } else {
                under(t, q)
            }) by {
            lemma_among(items, pads, q);
            assert(under(u, q) == (if among(items, d, q) {
                Some(signal)
            } else {
                under(t, q)
            }));
        }
    }
}

/// A pad is that of the signal for which a definition lists it, no pad is listed by two entries, and
/// pads that no entry lists are not there.
pub proof fn law_definition_assigns_its_pads(items: Seq<Item>, v: Seq<usize>)
    requires
        defined_pads(items, v) is Ok,
    ensures
        distinct(defined_pads(items, v)->Ok_0),
        forall|i: int, signal: Seq<char>, pad: Seq<char>|
            0 <= i < v.len() && #[trigger] lists_pad(items, v[i], signal, pad) ==> under(
                defined_pads(items, v)->Ok_0,
                pad,
            ) == Some(signal),
        forall|pad: Seq<char>| #[trigger]
            under(defined_pads(items, v)->Ok_0, pad) is Some ==> exists|i: int|
                0 <= i < v.len() && lists_pad(
                    items,
                    #[trigger] v[i],
                    under(defined_pads(items, v)->Ok_0, pad)->Some_0,
                    pad,
                ),
        forall|i: int, k: int, s: Seq<char>, t: Seq<char>, pad: Seq<char>|
            0 <= i < k < v.len() ==> !(#[trigger] lists_pad(items, v[i], s, pad)
                && #[trigger] lists_pad(items, v[k], t, pad)),
    decreases v.len(),
{
    if v.len() > 0 {
        let d = v.drop_last();
        let h = v.last();
        let last = v.len() - 1;
        assert(v[last] == h);
        law_definition_assigns_its_pads(items, d);
        let before = defined_pads(items, d)->Ok_0;
        let after = defined_pads(items, v)->Ok_0;
        assert(with_entry(items, before, h) is Ok);
        let entry = items[h as int]->Tuple_0@;
        let signal = text_of(items[entry[0] as int])->Some_0;
        let pads = items[entry[1] as int]->List_0@;
        lemma_with_pads(items, before, signal, pads);
        assert forall|s: Seq<char>, pad: Seq<char>| #[trigger]
            lists_pad(items, h, s, pad) <==> s == signal && among(items, pads, pad) by {}
        assert forall|i: int, s: Seq<char>, pad: Seq<char>|
            0 <= i < v.len() && #[trigger] lists_pad(items, v[i], s, pad) implies under(after, pad)
            == Some(s) by {
            if i < last {
                assert(lists_pad(items, d[i], s, pad));
            } else {
                assert(lists_pad(items, h, s, pad));
            }
        }
        assert forall|pad: Seq<char>| #[trigger] under(after, pad) is Some implies exists|i: int|
            0 <= i < v.len() && lists_pad(items, #[trigger] v[i], under(after, pad)->Some_0, pad) by {
            if among(items, pads, pad) {
                assert(lists_pad(items, v[last], signal, pad));
            } else {
                let i = choose|i: int|
                    0 <= i < d.len() && lists_pad(
                        items,
                        #[trigger] d[i],
                        under(before, pad)->Some_0,
                        pad,
                    );
                assert(v[i] == d[i]);
            }
        }
        assert forall|i: int, k: int, s: Seq<char>, t: Seq<char>, pad: Seq<char>|
            0 <= i < k < v.len() implies !(#[trigger] lists_pad(items, v[i], s, pad)
            && #[trigger] lists_pad(items, v[k], t, pad)) by {
            assert(v[i] == d[i]);
            if lists_pad(items, v[i], s, pad) && lists_pad(items, v[k], t, pad) {
                if k < last {
                    assert(v[k] == d[k]);
                    assert(lists_pad(items, d[k], t, pad));
                    assert(lists_pad(items, d[i], s, pad));
                } else {
                    assert(lists_pad(items, h, t, pad));
                    assert(lists_pad(items, d[i], s, pad));
                    assert(under(before, pad) == Some(s));
                }
            }
        }
    }
}

/// Every entry of a definition that is accepted names a signal and lists pads by their names.
pub proof fn law_definition_is_complete(items: Seq<Item>, v: Seq<usize>, i: int)
    requires
        defined_pads(items, v) is Ok,
        0 <= i < v.len(),
    ensures
        items[v[i] as int] is Tuple,
        ({
            let entry = items[v[i] as int]->Tuple_0@;
            &&& entry.len() == 2
            &&& items[entry[0] as int] is Text
            &&& items[entry[1] as int] is List
            &&& items[entry[1] as int]->List_0@.len() > 0
        }),
    decreases v.len(),
{
    let d = v.drop_last();
    if i < d.len() {
        assert(d[i] == v[i]);
        law_definition_is_complete(items, d, i);
    }
}

// ---------------------------------------------------------------------------------------------
// Symbols of components

/// The last pin that `pin_defs` gives a pad has it, and only pins that it gives a pad have one.
pub proof fn law_pin_definitions(items: Seq<Item>, v: Seq<(DictKey, usize)>)
    requires
        pads_from(items, v) is Ok,
    ensures
        distinct(pads_from(items, v)->Ok_0),
        forall|i: int|
            0 <= i < v.len() ==> (#[trigger] v[i]).0.is_string && items[v[i].1 as int] is Text,
        forall|i: int|
            0 <= i < v.len() && (forall|k: int|
                i < k < v.len() ==> text_of(items[(#[trigger] v[k]).1 as int]) != text_of(
                    items[v[i].1 as int],
                )) ==> under(
                pads_from(items, v)->Ok_0,
                text_of(items[(#[trigger] v[i]).1 as int])->Some_0,
            ) == Some(v[i].0.text@),
        forall|pad: Seq<char>| #[trigger]
            under(pads_from(items, v)->Ok_0, pad) is Some ==> exists|i: int|
                0 <= i < v.len() && text_of(items[(#[trigger] v[i]).1 as int]) == Some(pad),
    decreases v.len(),
{
    if v.len() > 0 {
        let d = v.drop_last();
        let last = v.len() - 1;
        assert(v[last] == v.last());
        law_pin_definitions(items, d);
        let before = pads_from(items, d)->Ok_0;
        let after = pads_from(items, v)->Ok_0;
        let pad = text_of(items[v.last().1 as int])->Some_0;
        lemma_put(before, pad, v.last().0.text@);
        assert forall|i: int| 0 <= i < v.len() implies (#[trigger] v[i]).0.is_string
            && items[v[i].1 as int] is Text by {
            if i < last {
                assert(d[i] == v[i]);
            }
        }
        assert forall|i: int|
            0 <= i < v.len() && (forall|k: int|
                i < k < v.len() ==> text_of(items[(#[trigger] v[k]).1 as int]) != text_of(
                    items[v[i].1 as int],
                )) implies under(after, text_of(items[(#[trigger] v[i]).1 as int])->Some_0) == Some(
            v[i].0.text@,
        ) by {
            if i < last {
                assert(d[i] == v[i]);
                assert(d[i].0.is_string && items[d[i].1 as int] is Text);
                assert(text_of(items[v[last].1 as int]) != text_of(items[v[i].1 as int]));
                assert forall|k: int| i < k < d.len() implies text_of(
                    items[(#[trigger] d[k]).1 as int],
                ) != text_of(items[d[i].1 as int]) by {
                    assert(d[k] == v[k]);
                }
            }
        }
        assert forall|q: Seq<char>| #[trigger] under(after, q) is Some implies exists|i: int|
            0 <= i < v.len() && text_of(items[(#[trigger] v[i]).1 as int]) == Some(q) by {
            if q == pad {
                assert(text_of(items[v[last].1 as int]) == Some(q));
            } else {
                assert(under(before, q) is Some);
                let i = choose|i: int|
                    0 <= i < d.len() && text_of(items[(#[trigger] d[i]).1 as int]) == Some(q);
                assert(d[i] == v[i]);
            }
        }
    }
}

/// A component has the symbol that it was given, with the pads of `pin_defs` where these are given;
/// it is refused where it is given neither.
pub proof fn law_symbol_of_component(
    items: Seq<Item>,
    pin_defs: Option<usize>,
    symbol: Option<usize>,
)
    ensures
        pin_defs is None && symbol is None ==> chosen_symbol(items, pin_defs, symbol) is Err,
        pin_defs is None && symbol is Some ==> match items[symbol->Some_0 as int] {
            Item::Symbol(s) => chosen_symbol(items, pin_defs, symbol) == Ok::<_, Seq<char>>(s@),
            _ => chosen_symbol(items, pin_defs, symbol) is Err,
        },
        pin_defs is Some ==> match items[pin_defs->Some_0 as int] {
            Item::Dict(v) => match pads_from(items, v@) {
                Ok(pads) => {
                    let r = chosen_symbol(items, pin_defs, symbol);
                    &&& r is Ok
                    &&& r->Ok_0.pads == pads
                    &&& symbol is Some ==> match items[symbol->Some_0 as int] {
                        Item::Symbol(s) => {
                            &&& r->Ok_0.name == s@.name
                            &&& r->Ok_0.pins == s@.pins
                            &&& r->Ok_0.source_uri == s@.source_uri
                            &&& r->Ok_0.raw_sexp == s@.raw_sexp
                            &&& r->Ok_0.properties == s@.properties
                            &&& r->Ok_0.in_bom == s@.in_bom
                            &&& r->Ok_0.jumpers == s@.jumpers
                            &&& r->Ok_0.groups == s@.groups
                        },
                        _ => true,
                    }
                    &&& symbol is None ==> {
                        &&& r->Ok_0.name is None
                        &&& r->Ok_0.in_bom
                        &&& r->Ok_0.pins.len() == pads.len()
                        &&& forall|i: int|
                            0 <= i < pads.len() ==> (#[trigger] r->Ok_0.pins[i]).number == pads[i].0
                                && r->Ok_0.pins[i].name == pads[i].1
                    }
                },
                Err(_) => chosen_symbol(items, pin_defs, symbol) is Err,
            },
            _ => chosen_symbol(items, pin_defs, symbol) is Err,
        },
{
}

/// A symbol from a library keeps its name, its pins and what it says of itself.
pub proof fn law_symbol_from_library(
    symbol: EdaSymbol,
    source_uri: Option<Seq<char>>,
    raw_sexp: Option<Seq<char>>,
    properties: Seq<(Seq<char>, Seq<char>)>,
)
    ensures
        ({
            let r = library_symbol(symbol, source_uri, raw_sexp, properties);
            &&& r.name == Some(symbol.name@)
            &&& r.in_bom == symbol.in_bom
            &&& r.source_uri == source_uri
            &&& r.raw_sexp == raw_sexp
            &&& r.properties == properties
            &&& r.jumpers == symbol.internal_connectivity.duplicate_numbers_are_jumpers
            &&& r.pins.len() == symbol.pins@.len()
            &&& forall|i: int|
                0 <= i < symbol.pins@.len() ==> #[trigger] r.pins[i] == symbol.pins@[i].pin@
            &&& r.groups.len() == symbol.internal_connectivity.groups@.len()
        }),
{
}

/// Whether some signals are those of a group of pads.
pub open spec fn are_signals_of(
    pads: Seq<(Seq<char>, Seq<char>)>,
    group: Seq<Seq<char>>,
    signals: Seq<Seq<char>>,
) -> bool {
    forall|s: Seq<char>| #[trigger]
        signals.contains(s) <==> exists|j: int|
            0 <= j < group.len() && under(pads, #[trigger] group[j]) == Some(s)
}

/// The pads of a group that belong to two signals or more connect exactly these.
pub proof fn law_jumpers_connect_their_signals(
    pads: Seq<(Seq<char>, Seq<char>)>,
    groups: Seq<Seq<Seq<char>>>,
    i: int,
    a: int,
    b: int,
)
    requires
        0 <= i < groups.len(),
        0 <= a < groups[i].len(),
        0 <= b < groups[i].len(),
        under(pads, groups[i][a]) is Some,
        under(pads, groups[i][b]) is Some,
        under(pads, groups[i][a]) != under(pads, groups[i][b]),
    ensures
        exists|k: int|
            0 <= k < jumper_groups(pads, groups).len() && are_signals_of(
                pads,
                groups[i],
                #[trigger] jumper_groups(pads, groups)[k],
            ),
    decreases groups.len(),
{
    let d = groups.drop_last();
    let r = jumper_groups(pads, groups);
    if i < d.len() {
        assert(d[i] == groups[i]);
        law_jumpers_connect_their_signals(pads, d, i, a, b);
        let before = jumper_groups(pads, d);
        let k = choose|k: int|
            0 <= k < before.len() && are_signals_of(pads, groups[i], #[trigger] before[k]);
        assert(r[k] == before[k]);
    } else {
        let g = group_signals(pads, groups[i]);
        lemma_group_signals(pads, groups[i]);
        let s = under(pads, groups[i][a])->Some_0;
        let t = under(pads, groups[i][b])->Some_0;
        assert(g.contains(s) && g.contains(t));
        if g.len() < 2 {
            let x = choose|x: int| 0 <= x < g.len() && g[x] == s;
            let y = choose|y: int| 0 <= y < g.len() && g[y] == t;
            assert(x == y);
        }
        assert(r[r.len() - 1] == g);
    }
}

// ---------------------------------------------------------------------------------------------
// Libraries

/// What stands before the last colon of the argument is the library, and what follows it the name;
/// without a colon it is the library. What is named apart from it must not say the same again.
pub proof fn law_library_and_name(
    items: Seq<Item>,
    h: usize,
    a: Seq<char>,
    b: Seq<char>,
    name: Option<Seq<char>>,
    library: Option<Seq<char>>,
)
    requires
        !b.contains(':'),
    ensures
        asked_symbol(items, None, name, library) == Ok::<_, Seq<char>>((library, name)),
        text_of(items[h as int]) == Some(a + seq![':'] + b) ==> match asked_symbol(
            items,
            Some(h),
            name,
            library,
        ) {
            Ok(p) => library is None && name is None && p == (Some(a), Some(b)),
            Err(_) => library is Some || name is Some,
        },
        text_of(items[h as int]) == Some(b) ==> match asked_symbol(items, Some(h), name, library) {
            Ok(p) => library is None && p == (Some(b), name),
            Err(_) => library is Some,
        },
        text_of(items[h as int]) is None ==> asked_symbol(items, Some(h), name, library) is Err,
{
    let s = a + seq![':'] + b;
    lemma_last_at(s, ':');
    lemma_last_at(b, ':');
    let k = last_at(s, ':');
    assert(s[a.len() as int] == ':');
    if k > a.len() {
        assert(s[k] == b[k - a.len() - 1]);
    }
    assert(k == a.len());
    assert(s.take(k) =~= a);
    assert(s.skip(k + 1) =~= b);
}

/// The symbol that is asked for must be in the library; where none is asked for, the library must
/// hold just one.
pub proof fn law_symbol_in_library(
    requested: Option<Seq<char>>,
    available: Seq<Seq<char>>,
    library: Seq<char>,
)
    ensures
        match meant_symbol(requested, available, library) {
            Ok(s) => available.contains(s) && match requested {
                Some(name) => s == name,
                None => available == seq![s],
            },
            Err(_) => match requested {
                Some(name) => !available.contains(name),
                None => available.len() != 1,
            },
        },
{
    if requested is None && available.len() == 1 {
        assert(available =~= seq![available[0]]);
    }
}

/// A library file has a directory for its parts exactly where it is a symbol file: it stands beside
/// the file, under the same name.
pub proof fn law_split_library(library: Seq<char>, stem: Seq<char>)
    ensures
        split_library_of(stem + ".kicad_sym"@) == Some(stem + ".kicad_symdir"@),
        match split_library_of(library) {
            Some(_) => exists|t: Seq<char>| library == #[trigger] (t + ".kicad_sym"@),
            None => forall|t: Seq<char>| library != #[trigger] (t + ".kicad_sym"@),
        },
{
    let e = ".kicad_sym"@;
    let s = stem + e;
    assert(s.skip(s.len() - e.len()) =~= e);
    assert(s.take(s.len() - e.len()) =~= stem);
    if split_library_of(library) is Some {
        let t = library.take(library.len() - e.len());
        assert(library =~= t + e);
    } else {
        assert forall|t: Seq<char>| library != #[trigger] (t + e) by {
            if library == t + e {
                assert(library.skip(library.len() - e.len()) =~= e);
            }
        }
    }
}

/// The symbols of a directory are its files that end in `.kicad_sym`, each under the name before
/// that.
pub proof fn law_symbol_files(paths: Seq<Seq<char>>, name: Seq<char>, path: Seq<char>)
    ensures
        symbol_files(paths).contains((name, path)) <==> paths.contains(path) && name.len() > 0
            && file_name_of(path) == Some(name + ".kicad_sym"@),
    decreases paths.len(),
{
    if paths.len() > 0 {
        let d = paths.drop_last();
        let last = paths.last();
        let before = symbol_files(d);
        let after = symbol_files(paths);
        law_symbol_files(d, name, path);
        lemma_symbol_file(last, name);
        assert(paths[paths.len() - 1] == last);
        if after.contains((name, path)) {
            let i = choose|i: int| 0 <= i < after.len() && after[i] == (name, path);
            if i < before.len() {
                assert(before[i] == (name, path));
                let j = choose|j: int| 0 <= j < d.len() && d[j] == path;
                assert(paths[j] == path);
            }
        }
        if paths.contains(path) && name.len() > 0 && file_name_of(path) == Some(
            name + ".kicad_sym"@,
        ) {
            let j = choose|j: int| 0 <= j < paths.len() && paths[j] == path;
            if j < d.len() {
                assert(d[j] == path);
                let i = choose|i: int| 0 <= i < before.len() && before[i] == (name, path);
                assert(after[i] == (name, path));
            } else {
                assert(after == before.push((name, path)));
                assert(after[before.len() as int] == (name, path));
            }
        }
    }
}

proof fn lemma_symbol_file(path: Seq<char>, name: Seq<char>)
    ensures
        extension_of(path) == Some("kicad_sym"@) && file_stem_of(path) == Some(name) <==> name.len()
            > 0 && file_name_of(path) == Some(name + ".kicad_sym"@),
{
    reveal_strlit("kicad_sym");
    reveal_strlit(".kicad_sym");
    let e = "kicad_sym"@;
    assert(".kicad_sym"@ =~= seq!['.'] + e);
    if let Some(f) = file_name_of(path) {
        let k = last_at(f, '.');
        lemma_last_at(f, '.');
        if extension_of(path) == Some(e) && file_stem_of(path) == Some(name) {
            assert(f =~= name + ".kicad_sym"@);
        }
        if name.len() > 0 && f == name + ".kicad_sym"@ {
            assert(f[name.len() as int] == '.');
            assert forall|j: int| name.len() < j < f.len() implies f[j] != '.' by {
                assert(f[j] == e[j - name.len() - 1]);
            }
            assert(k == name.len());
            assert(f.skip(k + 1) =~= e);
            assert(f.take(k) =~= name);
        }
    }
}

// ---------------------------------------------------------------------------------------------
// Simulation

/// Whether a word assigns a symbol pin to a model pin.
pub open spec fn assigns_pin(token: Seq<char>, a: Seq<char>, b: Seq<char>) -> bool {
    a.len() > 0 && b.len() > 0 && !a.contains('=') && !b.contains('=') && token == a + seq!['='] + b
}

proof fn lemma_assigns_pin(token: Seq<char>, a: Seq<char>, b: Seq<char>)
    ensures
        assigns_pin(token, a, b) <==> cut_first(token, '=') == Some((a, b)) && a.len() > 0
            && b.len() > 0 && !b.contains('='),
{
    lemma_first_at(token, '=');
    let k = first_at(token, '=');
    if assigns_pin(token, a, b) {
        assert(token[a.len() as int] == '=');
        if k < a.len() {
            assert(a[k] == token[k]);
            assert(a.contains('='));
        }
        assert(k == a.len());
        assert(token.take(k) =~= a);
        assert(token.skip(k + 1) =~= b);
    }
    if cut_first(token, '=') == Some((a, b)) {
        if a.contains('=') {
            let i = choose|i: int| 0 <= i < a.len() && a[i] == '=';
            assert(token[i] == '=');
        }
        assert(token =~= a + seq!['='] + b);
    }
}

/// Each word assigns one symbol pin to one model pin, and no symbol pin is assigned twice. Words that
/// do so are accepted.
pub proof fn law_pins_are_assigned(tokens: Seq<Seq<char>>, m: Seq<(Seq<char>, Seq<char>)>)
    ensures
        sim_pins(tokens) == Ok::<_, Seq<char>>(m) <==> m.len() == tokens.len() && distinct(m)
            && forall|i: int| 0 <= i < m.len() ==> assigns_pin(#[trigger] tokens[i], m[i].0, m[i].1),
    decreases tokens.len(),
{
    let fits = m.len() == tokens.len() && distinct(m) && forall|i: int|
        0 <= i < m.len() ==> assigns_pin(#[trigger] tokens[i], m[i].0, m[i].1);
    if tokens.len() == 0 {
        if m.len() == 0 {
            assert(m =~= Seq::<(Seq<char>, Seq<char>)>::empty());
        }
    } else {
        let d = tokens.drop_last();
        let last = tokens.last();
        let n = tokens.len() - 1;
        assert(tokens[n] == last);
        if fits {
            let e = m.drop_last();
            assert forall|i: int| 0 <= i < e.len() implies assigns_pin(
                #[trigger] d[i],
                e[i].0,
                e[i].1,
            ) by {
                assert(tokens[i] == d[i]);
                assert(e[i] == m[i]);
            }
            assert forall|i: int, j: int| 0 <= i < j < e.len() implies (#[trigger] e[i]).0 != (
            #[trigger] e[j]).0 by {
                assert(m[i].0 != m[j].0);
            }
            law_pins_are_assigned(d, e);
            lemma_assigns_pin(last, m[n].0, m[n].1);
            if names_of(e).contains(m[n].0) {
                let i = choose|i: int| 0 <= i < e.len() && names_of(e)[i] == m[n].0;
                assert(m[i].0 == m[n].0);
            }
            assert(e.push((m[n].0, m[n].1)) =~= m);
        }
        if sim_pins(tokens) == Ok::<_, Seq<char>>(m) {
            let e = sim_pins(d)->Ok_0;
            law_pins_are_assigned(d, e);
            let p = cut_first(last, '=')->Some_0;
            lemma_assigns_pin(last, p.0, p.1);
            assert(m == e.push(p));
            assert forall|i: int| 0 <= i < m.len() implies assigns_pin(
                #[trigger] tokens[i],
                m[i].0,
                m[i].1,
            ) by {
                if i < n {
                    assert(d[i] == tokens[i]);
                    assert(m[i] == e[i]);
                }
            }
            assert forall|i: int, j: int| 0 <= i < j < m.len() implies (#[trigger] m[i]).0 != (
            #[trigger] m[j]).0 by {
                if j == n {
                    assert(names_of(e)[i] == e[i].0);
                }
            }
        }
    }
}

proof fn lemma_unknown(m: Seq<(Seq<char>, Seq<char>)>, pads: Seq<(Seq<char>, Seq<char>)>)
    ensures
        unknown_pin(m, pads) is None <==> forall|i: int|
            0 <= i < m.len() ==> under(pads, (#[trigger] m[i]).0) is Some,
    decreases m.len(),
{
    if m.len() > 0 {
        let d = m.drop_last();
        lemma_unknown(d, pads);
        assert(m[m.len() - 1] == m.last());
        if unknown_pin(m, pads) is None {
            assert forall|i: int| 0 <= i < m.len() implies under(pads, (#[trigger] m[i]).0) is Some by {
                if i < d.len() {
                    assert(d[i] == m[i]);
                }
            }
        }
        if forall|i: int| 0 <= i < m.len() ==> under(pads, (#[trigger] m[i]).0) is Some {
            assert forall|i: int| 0 <= i < d.len() implies under(pads, (#[trigger] d[i]).0) is Some by {
                assert(d[i] == m[i]);
            }
        }
    }
}

/// Whether two assignments never give a model pin two signals.
pub open spec fn agrees(
    m: Seq<(Seq<char>, Seq<char>)>,
    pads: Seq<(Seq<char>, Seq<char>)>,
    i: int,
    j: int,
) -> bool {
    m[i].1 == m[j].1 ==> under(pads, m[i].0) == under(pads, m[j].0)
}

/// A model pin has the signal of the symbol pin that is assigned to it. That every symbol pin is one of
/// the symbol, and no model pin has two signals, is all that is asked.
pub proof fn law_model_pins_have_signals(
    m: Seq<(Seq<char>, Seq<char>)>,
    pads: Seq<(Seq<char>, Seq<char>)>,
)
    ensures
        assigned_signals(m, pads) is Ok <==> (forall|i: int|
            0 <= i < m.len() ==> under(pads, (#[trigger] m[i]).0) is Some) && (forall|i: int, j: int|
            0 <= i < j < m.len() ==> #[trigger] agrees(m, pads, i, j)),
        assigned_signals(m, pads) is Ok ==> {
            let r = assigned_signals(m, pads)->Ok_0;
            &&& distinct(r)
            &&& forall|i: int|
                0 <= i < m.len() ==> under(r, (#[trigger] m[i]).1) == under(pads, m[i].0)
            &&& forall|q: Seq<char>| #[trigger]
                under(r, q) is Some ==> exists|i: int| 0 <= i < m.len() && (#[trigger] m[i]).1 == q
        },
{
    lemma_unknown(m, pads);
    if forall|i: int| 0 <= i < m.len() ==> under(pads, (#[trigger] m[i]).0) is Some {
        lemma_terminal_signals(m, pads);
    }
}

proof fn lemma_terminal_signals(
    m: Seq<(Seq<char>, Seq<char>)>,
    pads: Seq<(Seq<char>, Seq<char>)>,
)
    requires
        forall|i: int| 0 <= i < m.len() ==> under(pads, (#[trigger] m[i]).0) is Some,
    ensures
        terminal_signals(m, pads) is Ok <==> (forall|i: int, j: int|
            0 <= i < j < m.len() ==> #[trigger] agrees(m, pads, i, j)),
        terminal_signals(m, pads) is Ok ==> {
            let r = terminal_signals(m, pads)->Ok_0;
            &&& distinct(r)
            &&& forall|i: int|
                0 <= i < m.len() ==> under(r, (#[trigger] m[i]).1) == under(pads, m[i].0)
            &&& forall|q: Seq<char>| #[trigger]
                under(r, q) is Some ==> exists|i: int| 0 <= i < m.len() && (#[trigger] m[i]).1 == q
        },
    decreases m.len(),
{
    if m.len() > 0 {
        let d = m.drop_last();
        let n = m.len() - 1;
        let last = m.last();
        assert(m[n] == last);
        assert forall|i: int| 0 <= i < d.len() implies under(pads, (#[trigger] d[i]).0) is Some by {
            assert(d[i] == m[i]);
        }
        lemma_terminal_signals(d, pads);
        assert forall|i: int, j: int| 0 <= i < n && 0 <= j < n implies #[trigger] agrees(
            d,
            pads,
            i,
            j,
        ) == agrees(m, pads, i, j) by {
            assert(d[i] == m[i] && d[j] == m[j]);
        }
        let signal = under(pads, last.0)->Some_0;
        if terminal_signals(d, pads) is Ok {
            let e = terminal_signals(d, pads)->Ok_0;
            lemma_put(e, last.1, signal);
            match under(e, last.1) {
                Some(other) => {
                    let i = choose|i: int| 0 <= i < d.len() && (#[trigger] d[i]).1 == last.1;
                    assert(m[i] == d[i]);
                    assert(under(e, d[i].1) == under(pads, d[i].0));
                    if other != signal {
                        assert(!agrees(m, pads, i, n));
                    }
                },
                None => {},
            }
            if terminal_signals(m, pads) is Ok {
                let r = terminal_signals(m, pads)->Ok_0;
                assert(under(r, last.1) == Some(signal));
                assert forall|i: int| 0 <= i < m.len() implies under(r, (#[trigger] m[i]).1) == under(
                    pads,
                    m[i].0,
                ) by {
                    if i < n {
                        assert(d[i] == m[i]);
                        assert(under(e, d[i].1) == under(pads, d[i].0));
                        assert(under(e, d[i].1) is Some);
                    }
                }
                assert forall|q: Seq<char>| #[trigger] under(r, q) is Some implies exists|i: int|
                    0 <= i < m.len() && (#[trigger] m[i]).1 == q by {
                    if q == last.1 {
                        assert(m[n].1 == q);
                    } else {
                        assert(under(e, q) is Some);
                        let i = choose|i: int| 0 <= i < d.len() && (#[trigger] d[i]).1 == q;
                        assert(m[i].1 == q);
                    }
                }
                assert forall|i: int, j: int| 0 <= i < j < m.len() implies #[trigger] agrees(
                    m,
                    pads,
                    i,
                    j,
                ) by {
                    if j < n {
                        assert(agrees(d, pads, i, j));
                    } else {
                        assert(under(r, m[i].1) == under(pads, m[i].0));
                    }
                }
            } else {
                let i = choose|i: int| 0 <= i < d.len() && (#[trigger] d[i]).1 == last.1;
                assert(!agrees(m, pads, i, n));
            }
        } else {
            assert(exists|i: int, j: int|
                0 <= i < j < d.len() && !(#[trigger] agrees(d, pads, i, j)));
            let (i, j) = choose|i: int, j: int|
                0 <= i < j < d.len() && !(#[trigger] agrees(d, pads, i, j));
            assert(!agrees(m, pads, i, j));
        }
        if (forall|i: int, j: int| 0 <= i < j < m.len() ==> #[trigger] agrees(m, pads, i, j)) {
            assert forall|i: int, j: int| 0 <= i < j < d.len() implies #[trigger] agrees(
                d,
                pads,
                i,
                j,
            ) by {
                assert(agrees(m, pads, i, j));
            }
        }
    }
}

proof fn lemma_nets_of_terminals(
    terminals: Seq<Seq<char>>,
    signals: Seq<(Seq<char>, Seq<char>)>,
    connections: Seq<(Seq<char>, usize)>,
)
    ensures
        terminal_nets(terminals, signals, connections) is Ok <==> forall|i: int|
            0 <= i < terminals.len() ==> is_connected(signals, connections, #[trigger] terminals[i]),
    decreases terminals.len(),
{
    if terminals.len() > 0 {
        let d = terminals.drop_last();
        lemma_nets_of_terminals(d, signals, connections);
        assert(terminals[terminals.len() - 1] == terminals.last());
        if terminal_nets(terminals, signals, connections) is Ok {
            assert forall|i: int| 0 <= i < terminals.len() implies is_connected(
                signals,
                connections,
                #[trigger] terminals[i],
            ) by {
                if i < d.len() {
                    assert(d[i] == terminals[i]);
                }
            }
        }
        if forall|i: int|
            0 <= i < terminals.len() ==> is_connected(signals, connections, #[trigger] terminals[i]) {
            assert forall|i: int| 0 <= i < d.len() implies is_connected(
                signals,
                connections,
                #[trigger] d[i],
            ) by {
                assert(d[i] == terminals[i]);
            }
        }
    }
}

proof fn lemma_known_terminals(signals: Seq<(Seq<char>, Seq<char>)>, terminals: Seq<Seq<char>>)
    ensures
        unknown_terminal(signals, terminals) is None <==> forall|i: int|
            0 <= i < signals.len() ==> terminals.contains((#[trigger] signals[i]).0),
    decreases signals.len(),
{
    if signals.len() > 0 {
        let d = signals.drop_last();
        lemma_known_terminals(d, terminals);
        assert(signals[signals.len() - 1] == signals.last());
        if unknown_terminal(signals, terminals) is None {
            assert forall|i: int| 0 <= i < signals.len() implies terminals.contains(
                (#[trigger] signals[i]).0,
            ) by {
                if i < d.len() {
                    assert(d[i] == signals[i]);
                }
            }
        }
        if forall|i: int| 0 <= i < signals.len() ==> terminals.contains((#[trigger] signals[i]).0) {
            assert forall|i: int| 0 <= i < d.len() implies terminals.contains((#[trigger] d[i]).0) by {
                assert(d[i] == signals[i]);
            }
        }
    }
}

/// Whether a model pin has a signal that is on a net.
pub open spec fn is_connected(
    signals: Seq<(Seq<char>, Seq<char>)>,
    connections: Seq<(Seq<char>, usize)>,
    pin: Seq<char>,
) -> bool {
    under(signals, pin) is Some && under(connections, under(signals, pin)->Some_0) is Some
}

/// A model can be used exactly where each of its pins is on a net, it has every pin that is assigned,
/// and its parameters can be read; it has the parameters that were read.
pub proof fn law_model_can_be_used(
    terminals: Seq<Seq<char>>,
    signals: Seq<(Seq<char>, Seq<char>)>,
    connections: Seq<(Seq<char>, usize)>,
    params: Seq<char>,
)
    ensures
        bound_model(terminals, signals, connections, params) is Ok <==> {
            &&& forall|i: int|
                0 <= i < terminals.len() ==> is_connected(
                    signals,
                    connections,
                    #[trigger] terminals[i],
                )
            &&& forall|i: int|
                0 <= i < signals.len() ==> terminals.contains((#[trigger] signals[i]).0)
            &&& sim_params(params, Seq::<(Seq<char>, Seq<char>)>::empty()) is Ok
        },
        bound_model(terminals, signals, connections, params) is Ok ==> bound_model(
            terminals,
            signals,
            connections,
            params,
        )->Ok_0.1 == sim_params(params, Seq::<(Seq<char>, Seq<char>)>::empty())->Ok_0,
{
    lemma_nets_of_terminals(terminals, signals, connections);
    lemma_known_terminals(signals, terminals);
}

/// Whether a text can name a parameter.
pub open spec fn is_key(k: Seq<char>) -> bool {
    k.len() > 0 && forall|i: int| 0 <= i < k.len() ==> !is_space(#[trigger] k[i]) && k[i] != '='
}

/// Whether a text is one word.
pub open spec fn is_word(w: Seq<char>) -> bool {
    w.len() > 0 && forall|i: int| 0 <= i < w.len() ==> !is_space(#[trigger] w[i])
}

proof fn lemma_key(s: Seq<char>, n: int)
    requires
        0 <= n <= s.len(),
        forall|i: int| 0 <= i < n ==> !is_space(#[trigger] s[i]) && s[i] != '=',
        n < s.len() ==> is_space(s[n]) || s[n] == '=',
    ensures
        key_len(s) == n,
    decreases n,
{
    if n > 0 {
        let t = s.skip(1);
        assert(!is_space(s[0]) && s[0] != '=');
        assert forall|i: int| 0 <= i < n - 1 implies !is_space(#[trigger] t[i]) && t[i] != '=' by {
            assert(t[i] == s[i + 1]);
        }
        lemma_key(t, n - 1);
    }
}

proof fn lemma_word(s: Seq<char>, n: int)
    requires
        0 <= n <= s.len(),
        forall|i: int| 0 <= i < n ==> !is_space(#[trigger] s[i]),
        n < s.len() ==> is_space(s[n]),
    ensures
        word_len(s) == n,
    decreases n,
{
    if n > 0 {
        let t = s.skip(1);
        assert(!is_space(s[0]));
        assert forall|i: int| 0 <= i < n - 1 implies !is_space(#[trigger] t[i]) by {
            assert(t[i] == s[i + 1]);
        }
        lemma_word(t, n - 1);
    }
}

proof fn lemma_quoted_text(t: Seq<char>, rest: Seq<char>)
    requires
        !t.contains('"'),
        !t.contains('\\'),
    ensures
        quoted(t + seq!['"'] + rest) == Some((t, t.len() as int + 1)),
    decreases t.len(),
{
    let s = t + seq!['"'] + rest;
    if t.len() == 0 {
        assert(s[0] == '"');
        assert(t =~= Seq::<char>::empty());
    } else {
        let u = t.skip(1);
        assert(t.contains(t[0]));
        assert(s[0] == t[0]);
        if u.contains('"') {
            let i = choose|i: int| 0 <= i < u.len() && u[i] == '"';
            assert(t[i + 1] == '"');
        }
        if u.contains('\\') {
            let i = choose|i: int| 0 <= i < u.len() && u[i] == '\\';
            assert(t[i + 1] == '\\');
        }
        lemma_quoted_text(u, rest);
        assert(s.skip(1) =~= u + seq!['"'] + rest);
        assert(seq![s[0]] + u =~= t);
    }
}

/// A parameter has the word that follows its `=`.
pub proof fn law_parameter_with_word(
    key: Seq<char>,
    word: Seq<char>,
    rest: Seq<char>,
    acc: Seq<(Seq<char>, Seq<char>)>,
)
    requires
        is_key(key),
        is_word(word),
        word[0] != '"',
        rest.len() > 0 ==> is_space(rest[0]),
    ensures
        sim_params(key + seq!['='] + word + rest, acc) == sim_params(rest, put(acc, key, word)),
{
    let s = key + seq!['='] + word + rest;
    let n = key.len() as int;
    assert(!is_space(key[0]));
    assert(s[0] == key[0]);
    assert forall|i: int| 0 <= i < n implies !is_space(#[trigger] s[i]) && s[i] != '=' by {
        assert(s[i] == key[i]);
    }
    assert(s[n] == '=');
    lemma_key(s, n);
    assert(s.take(n) =~= key);
    let u = s.skip(n);
    assert(u[0] == '=');
    assert(!is_space('='));
    let w = u.skip(1);
    assert(w =~= word + rest);
    assert(!is_space(word[0]));
    assert(w[0] == word[0]);
    assert forall|i: int| 0 <= i < word.len() implies !is_space(#[trigger] w[i]) by {
        assert(w[i] == word[i]);
    }
    if rest.len() > 0 {
        assert(w[word.len() as int] == rest[0]);
    }
    lemma_word(w, word.len() as int);
    assert(w.take(word.len() as int) =~= word);
    assert(w.skip(word.len() as int) =~= rest);
}

/// A parameter has the text between the quotes that follow its `=`.
pub proof fn law_parameter_with_quotes(
    key: Seq<char>,
    text: Seq<char>,
    rest: Seq<char>,
    acc: Seq<(Seq<char>, Seq<char>)>,
)
    requires
        is_key(key),
        !text.contains('"'),
        !text.contains('\\'),
    ensures
        sim_params(key + seq!['=', '"'] + text + seq!['"'] + rest, acc) == sim_params(
            rest,
            put(acc, key, text),
        ),
{
    let s = key + seq!['=', '"'] + text + seq!['"'] + rest;
    let n = key.len() as int;
    assert(!is_space(key[0]));
    assert(s[0] == key[0]);
    assert forall|i: int| 0 <= i < n implies !is_space(#[trigger] s[i]) && s[i] != '=' by {
        assert(s[i] == key[i]);
    }
    assert(s[n] == '=');
    lemma_key(s, n);
    assert(s.take(n) =~= key);
    let u = s.skip(n);
    assert(u[0] == '=');
    assert(!is_space('='));
    let w = u.skip(1);
    assert(w[0] == '"');
    assert(!is_space('"'));
    assert(w.skip(1) =~= text + seq!['"'] + rest);
    lemma_quoted_text(text, rest);
    assert(w.skip(1).skip(text.len() as int + 1) =~= rest);
}

/// A parameter without a value is set, and a text without parameters sets none.
pub proof fn law_parameter_alone(
    key: Seq<char>,
    rest: Seq<char>,
    acc: Seq<(Seq<char>, Seq<char>)>,
)
    requires
        is_key(key),
        rest.len() > 0 ==> !is_space(rest[0]) && rest[0] != '=',
    ensures
        sim_params(key + seq![' '] + rest, acc) == sim_params(rest, put(acc, key, "1"@)),
        sim_params(Seq::<char>::empty(), acc) == Ok::<_, Seq<char>>(acc),
{
    let s = key + seq![' '] + rest;
    let n = key.len() as int;
    assert(!is_space(key[0]));
    assert(s[0] == key[0]);
    assert forall|i: int| 0 <= i < n implies !is_space(#[trigger] s[i]) && s[i] != '=' by {
        assert(s[i] == key[i]);
    }
    assert(s[n] == ' ');
    assert(is_space(' '));
    lemma_key(s, n);
    assert(s.take(n) =~= key);
    let u = s.skip(n);
    assert(u[0] == ' ');
    assert(u.skip(1) =~= rest);
    assert(trimmed_start(rest) == rest);
    assert(trimmed_start(u) == rest);
    if rest.len() == 0 {
        assert(sim_params(rest, put(acc, key, "1"@)) == Ok::<_, Seq<char>>(put(acc, key, "1"@)));
    }
}

// ---------------------------------------------------------------------------------------------
// What a module says of its board

/// A board configuration is added under its name, once, and becomes the default where it is to be and
/// none is. Nothing else changes.
pub proof fn law_board_config_is_added(texts: Map<Seq<char>, Seq<char>>, c: BoardCall)
    ensures
        called(texts, c).1 is None <==> {
            &&& !texts.dom().contains("board_config."@ + c.name)
            &&& c.default ==> !texts.dom().contains("default_board_config"@)
            &&& c.json is Ok
            &&& c.validated is Ok
            &&& c.printed is Ok
        },
        called(texts, c).1 is None ==> with_texts_put(texts, called(texts, c).0) == (if c.default {
            texts.insert("default_board_config"@, c.name)
        } else {
            texts
        }).insert("board_config."@ + c.name, c.printed->Ok_0),
        texts.dom().contains("board_config."@ + c.name) ==> with_texts_put(texts, called(texts, c).0)
            == texts,
        c.default && texts.dom().contains("default_board_config"@) ==> with_texts_put(
            texts,
            called(texts, c).0,
        ) == texts,
{
    let more = called(texts, c).0;
    reveal_with_fuel(with_texts_put, 3);
    if called(texts, c).1 is None {
        if c.default {
            assert(more.drop_last() =~= seq![("default_board_config"@, c.name)]);
            assert(more.drop_last().drop_last() =~= Seq::<(Seq<char>, Seq<char>)>::empty());
        } else {
            assert(more.drop_last() =~= Seq::<(Seq<char>, Seq<char>)>::empty());
        }
    }
}

/// A part must have a number and a manufacturer that are not blank, and a datasheet that is not blank
/// where it has one.
pub proof fn law_part_is_named(
    mpn: Seq<char>,
    manufacturer: Seq<char>,
    datasheet: Option<Seq<char>>,
)
    ensures
        part_error(mpn, manufacturer, datasheet) is None <==> trimmed(mpn).len() > 0 && trimmed(
            manufacturer,
        ).len() > 0 && (datasheet is Some ==> trimmed(datasheet->Some_0).len() > 0),
{
    law_blank_is_empty_trimmed(mpn);
    law_blank_is_empty_trimmed(manufacturer);
    if datasheet is Some {
        law_blank_is_empty_trimmed(datasheet->Some_0);
    }
}

/// A check is an error, a warning or an advice.
pub proof fn law_severities(severity: Seq<char>)
    ensures
        severity_error(severity) is None <==> severity == "error"@ || severity == "warning"@ || severity
            == "advice"@,
{
}

/// The setup of a simulation is kept as it is, with its place where that is known.
pub proof fn law_sim_setup_is_kept(content: Seq<char>, span: Option<SpanPlaces>)
    ensures
        under(sim_setup(content, span), "__sim_setup"@) == Some(content),
        under(sim_setup(content, span), "__sim_setup_span"@) is Some <==> span is Some,
        sim_setup(content, span).len() == (if span is Some {
            2int
        } else {
            1int
        }),
{
    reveal_strlit("__sim_setup");
    reveal_strlit("__sim_setup_span");
    assert("__sim_setup"@.len() != "__sim_setup_span"@.len());
    let s = sim_setup(content, span);
    lemma_place(s, "__sim_setup"@);
    lemma_place(s, "__sim_setup_span"@);
    assert(s[0].0 == "__sim_setup"@);
    assert(names_of(s)[0] == "__sim_setup"@);
    if span is Some {
        assert(names_of(s)[1] == "__sim_setup_span"@);
    }
}

/// A signal whose pins are all to be left open must not be connected. Of other signals only those are
/// pointed out that are on a plain net, though one of their pins is a supply pin and all are supply
/// pins or to be left open.
pub proof fn law_pins_that_are_pointed_out(
    types: Seq<Seq<char>>,
    only_no_connect: bool,
    net_kind: Seq<char>,
)
    ensures
        types.len() == 0 ==> pin_warning(types, only_no_connect, net_kind) is None,
        types.len() > 0 && only_no_connect ==> pin_warning(types, only_no_connect, net_kind) == Some(
            PinWarning::NoConnect,
        ),
        !only_no_connect ==> match pin_warning(types, only_no_connect, net_kind) {
            Some(w) => w is PlainNet && net_kind == "Net"@,
            None => true,
        },
        !only_no_connect && net_kind == "Net"@ ==> (pin_warning(types, only_no_connect, net_kind) is Some
            <==> (exists|i: int|
            0 <= i < types.len() && (#[trigger] types[i] == "power_in"@ || types[i] == "power_out"@))
            && (forall|i: int|
            0 <= i < types.len() ==> #[trigger] types[i] == "power_in"@ || types[i] == "power_out"@
                || types[i] == "no_connect"@)),
{
    reveal_strlit("Net");
    reveal_strlit("NotConnected");
    reveal_strlit("Power");
    reveal_strlit("Ground");
    reveal_strlit("power_in");
    reveal_strlit("power_out");
    reveal_strlit("no_connect");
    assert("Net"@.len() == 3);
    assert("NotConnected"@.len() == 12);
    assert("Power"@.len() == 5);
    assert("Ground"@.len() == 6);
    assert("power_in"@.len() == 8);
    assert("power_out"@.len() == 9);
    assert("no_connect"@.len() == 10);
    if !only_no_connect && net_kind == "Net"@ {
        assert forall|i: int| 0 <= i < types.len() implies accepts(#[trigger] types[i], net_kind) == !(
        types[i] == "power_in"@ || types[i] == "power_out"@ || types[i] == "no_connect"@) by {}
        if pin_warning(types, only_no_connect, net_kind) is Some {
            let i = choose|i: int| 0 <= i < types.len() && is_power(#[trigger] types[i]);
            assert(types[i] == "power_in"@ || types[i] == "power_out"@);
            assert forall|i: int| 0 <= i < types.len() implies #[trigger] types[i] == "power_in"@
                || types[i] == "power_out"@ || types[i] == "no_connect"@ by {
                assert(!accepts(types[i], net_kind));
            }
        } else if exists|i: int|
            0 <= i < types.len() && (#[trigger] types[i] == "power_in"@ || types[i] == "power_out"@) {
            let i = choose|i: int|
                0 <= i < types.len() && (#[trigger] types[i] == "power_in"@ || types[i]
                    == "power_out"@);
            assert(is_power(types[i]));
            assert(exists|j: int| 0 <= j < types.len() && accepts(#[trigger] types[j], net_kind));
        }
    }
}

} // verus!
