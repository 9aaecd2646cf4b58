//! Texts that show values, with entries in the order of their names.

use vstd::prelude::*;

use crate::lang::component_value::ComponentValue;
use crate::lang::symbol::SymbolValue;
use crate::lang::value::{Item, Store};
use crate::map::text_entries;
use crate::small_map::{count_handles, count_texts, handle_at, handles_in, lemma_place, names_of};
use crate::small_map::{place, text_at, texts_in, under};
use crate::text::{join, joined, lemma_sorted_members, lemma_texts_push, opt_text, same, sort_texts};
use crate::text::{sorted, texts};

verus! {

/// The text around names and values.
pub struct Frame<'a> {
    pub before: &'a str,
    pub between: &'a str,
    pub behind: &'a str,
}

/// One entry with the text around it.
pub open spec fn framed(f: Frame<'_>, name: Seq<char>, value: Seq<char>) -> Seq<char> {
    f.before@ + name + f.between@ + value + f.behind@
}

/// Entries with the text around them, in the order of their names.
pub open spec fn in_name_order(f: Frame<'_>, entries: Seq<(Seq<char>, Seq<char>)>) -> Seq<Seq<char>> {
    let names = sorted(names_of(entries));
    Seq::new(names.len(), |i: int| framed(f, names[i], under(entries, names[i])->Some_0))
}

fn value_of<'a>(entries: &'a Vec<(String, String)>, name: &str) -> (r: &'a str)
    requires
        names_of(text_entries(entries@)).contains(name@),
    ensures
        under(text_entries(entries@), name@) == Some(r@),
{
    let ghost all = text_entries(entries@);
    proof {
        lemma_place(all, name@);
    }
    let n: usize = entries.len();
    let mut i: usize = 0;
    while !same(entries[i].0.as_str(), name)
        invariant
            i <= place(all, name@) < all.len(),
            all == text_entries(entries@),
            all.len() == entries@.len(),
            n == entries@.len(),
            all[place(all, name@)].0 == name@,
            forall|k: int| 0 <= k < place(all, name@) ==> (#[trigger] all[k]).0 != name@,
        decreases entries@.len() - i,
    {
        proof {
            assert(all[i as int].0 == entries@[i as int].0@);
        }
        i += 1;
    }
    proof {
        assert(all[i as int] == (entries@[i as int].0@, entries@[i as int].1@));
    }
    entries[i].1.as_str()
}

/// Shows entries in the order of their names.
pub fn show_entries(f: &Frame<'_>, entries: &Vec<(String, String)>) -> (r: Vec<String>)
    ensures
        texts(r@) == in_name_order(*f, text_entries(entries@)),
{
    let ghost all = text_entries(entries@);
    let mut names: Vec<String> = Vec::new();
    let mut i: usize = 0;
    proof {
        assert(texts(names@) =~= names_of(all).take(0));
    }
    while i < entries.len()
        invariant
            i <= entries@.len(),
            all == text_entries(entries@),
            texts(names@) == names_of(all).take(i as int),
        decreases entries@.len() - i,
    {
        let name = entries[i].0.clone();
        proof {
            lemma_texts_push(names@, name);
            assert(names_of(all)[i as int] == name@);
            assert(names_of(all).take(i + 1) =~= names_of(all).take(i as int).push(name@));
        }
        names.push(name);
        i += 1;
    }
    proof {
        assert(names_of(all).take(all.len() as int) =~= names_of(all));
    }
    let ordered = sort_texts(&names);
    let ghost want = in_name_order(*f, all);
    let mut out: Vec<String> = Vec::new();
    let mut k: usize = 0;
    proof {
        assert(texts(out@) =~= want.take(0));
        assert(texts(ordered@).len() == ordered@.len());
    }
    while k < ordered.len()
        invariant
            k <= ordered@.len(),
            all == text_entries(entries@),
            want == in_name_order(*f, all),
            texts(ordered@) == sorted(names_of(all)),
            want.len() == ordered@.len(),
            texts(out@) == want.take(k as int),
        decreases ordered@.len() - k,
    {
        let name = ordered[k].as_str();
        proof {
            assert(texts(ordered@)[k as int] == name@);
            lemma_sorted_members(names_of(all), k as int);
        }
        let mut line = f.before.to_owned();
        line.append(name);
        line.append(f.between);
        line.append(value_of(entries, name));
        line.append(f.behind);
        proof {
            lemma_texts_push(out@, line);
            assert(want[k as int] == line@);
            assert(want.take(k + 1) =~= want.take(k as int).push(line@));
        }
        out.push(line);
        k += 1;
    }
    proof {
        assert(want.take(want.len() as int) =~= want);
    }
    out
}

// ---------------------------------------------------------------------------------------------
// Symbols

/// The text of a symbol: its name, and the signal of each pad.
pub open spec fn symbol_text(name: Option<Seq<char>>, pads: Seq<(Seq<char>, Seq<char>)>) -> Seq<char> {
    "Symbol { name: \""@ + (match name {
        Some(n) => n,
        None => "<unknown>"@,
    }) + "\", pins: {"@ + joined(
        in_name_order(Frame { before: " \"", between: "\": \"", behind: "\"" }, pads),
        ","@,
    ) + " } }"@
}

/// Shows a symbol.
pub fn show_symbol(symbol: &SymbolValue) -> (r: String)
    ensures
        r@ == symbol_text(opt_text(symbol.name), texts_in(symbol.pad_to_signal)),
{
    let ghost all = texts_in(symbol.pad_to_signal);
    let mut pads: Vec<(String, String)> = Vec::new();
    let n = count_texts(&symbol.pad_to_signal);
    let mut i: usize = 0;
    proof {
        assert(text_entries(pads@) =~= all.take(0));
    }
    while i < n
        invariant
            i <= n,
            n == all.len(),
            all == texts_in(symbol.pad_to_signal),
            text_entries(pads@) == all.take(i as int),
        decreases n - i,
    {
        if let Some((pad, signal)) = text_at(&symbol.pad_to_signal, i) {
            let ghost before = pads@;
            pads.push((pad.to_owned(), signal.to_owned()));
            proof {
                assert(text_entries(pads@) =~= text_entries(before).push((pad@, signal@)));
                assert(all.take(i + 1) =~= all.take(i as int).push(all[i as int]));
            }
        }
        i += 1;
    }
    proof {
        assert(all.take(all.len() as int) =~= all);
    }
    let frame = Frame { before: " \"", between: "\": \"", behind: "\"" };
    let lines = show_entries(&frame, &pads);
    let mut out = "Symbol { name: \"".to_owned();
    match &symbol.name {
        Some(name) => out.append(name.as_str()),
        None => out.append("<unknown>"),
    }
    out.append("\", pins: {");
    let inner = join(&lines, ",");
    out.append(inner.as_str());
    out.append(" } }");
    out
}

// ---------------------------------------------------------------------------------------------
// Components and interfaces

/// The names of a map, each with the text of its value.
pub open spec fn with_texts(s: Seq<(Seq<char>, usize)>, shown: Seq<Seq<char>>) -> Seq<
    (Seq<char>, Seq<char>),
> {
    Seq::new(s.len(), |i: int| (s[i].0, shown[i]))
}

/// Pairs the names of a map with the texts of their values.
fn pair_texts(m: &starlark::collections::SmallMap<String, usize>, shown: &Vec<String>) -> (r: Vec<
    (String, String),
>)
    requires
        shown@.len() == handles_in(*m).len(),
    ensures
        text_entries(r@) == with_texts(handles_in(*m), texts(shown@)),
{
    let ghost all = handles_in(*m);
    let ghost want = with_texts(all, texts(shown@));
    let mut out: Vec<(String, String)> = Vec::new();
    let n = count_handles(m);
    let mut i: usize = 0;
    proof {
        assert(text_entries(out@) =~= want.take(0));
    }
    while i < n
        invariant
            i <= n,
            n == all.len(),
            all == handles_in(*m),
            shown@.len() == all.len(),
            want == with_texts(all, texts(shown@)),
            text_entries(out@) == want.take(i as int),
        decreases n - i,
    {
        if let Some((name, _)) = handle_at(m, i) {
            let ghost before = out@;
            out.push((name.to_owned(), shown[i].clone()));
            proof {
                assert(text_entries(out@) =~= text_entries(before).push(
                    (name@, shown@[i as int]@),
                ));
                assert(want[i as int] == (name@, shown@[i as int]@));
                assert(want.take(i + 1) =~= want.take(i as int).push(want[i as int]));
            }
        }
        i += 1;
    }
    proof {
        assert(want.take(want.len() as int) =~= want);
    }
    out
}

/// The text of a component: what it is called, and its properties.
pub open spec fn component_text(
    mpn: Option<Seq<char>>,
    ctype: Option<Seq<char>>,
    properties: Seq<(Seq<char>, Seq<char>)>,
) -> Seq<char> {
    let name = match (mpn, ctype) {
        (Some(m), _) => m,
        (None, Some(t)) => t,
        (None, None) => "<unknown>"@,
    };
    let head = "Component("@ + name + ")\n"@;
    if properties.len() == 0 {
        head
    } else {
        head + "Properties:\n"@ + joined(
            in_name_order(Frame { before: "  ", between: ": ", behind: "\n" }, properties),
            Seq::<char>::empty(),
        )
    }
}

/// The part number of a component.
pub open spec fn component_mpn(c: ComponentValue) -> Option<Seq<char>> {
    match c.data.part {
        Some(p) => Some(p@.mpn),
        None => None,
    }
}

/// Shows a component; `shown` holds the texts of its properties.
pub fn show_component(c: &ComponentValue, shown: &Vec<String>) -> (r: String)
    requires
        shown@.len() == handles_in(c.data.properties).len(),
    ensures
        r@ == component_text(
            component_mpn(*c),
            opt_text(c.ctype),
            with_texts(handles_in(c.data.properties), texts(shown@)),
        ),
{
    let mut out = "Component(".to_owned();
    match &c.data.part {
        Some(p) => out.append(p.mpn.as_str()),
        None => match &c.ctype {
            Some(t) => out.append(t.as_str()),
            None => out.append("<unknown>"),
        },
    }
    out.append(")\n");
    let pairs = pair_texts(&c.data.properties, shown);
    proof {
        assert(text_entries(pairs@).len() == pairs@.len());
    }
    if pairs.len() > 0 {
        out.append("Properties:\n");
        let frame = Frame { before: "  ", between: ": ", behind: "\n" };
        let lines = show_entries(&frame, &pairs);
        proof {
            reveal_strlit("");
            assert(""@ =~= Seq::<char>::empty());
        }
        let inner = join(&lines, "");
        out.append(inner.as_str());
    }
    out
}

/// The text of an instance of an interface: the interface's name, and the fields.
pub open spec fn instance_text(name: Option<Seq<char>>, fields: Seq<(Seq<char>, Seq<char>)>) -> Seq<char> {
    (match name {
        Some(n) => n,
        None => "<Unknown>"@,
    }) + "("@ + joined(in_name_order(Frame { before: "", between: "=", behind: "" }, fields), ", "@)
        + ")"@
}

/// The name of an interface.
pub open spec fn factory_name(items: Seq<Item>, h: usize) -> Option<Seq<char>> {
    match items[h as int] {
        Item::InterfaceFactory(f) => opt_text(f.name),
        _ => None,
    }
}

/// Shows an instance of an interface; `shown` holds the texts of its fields.
pub fn show_interface_value(store: &Store, h: usize, shown: &Vec<String>) -> (r: Option<String>)
    requires
        store.wf(),
        h < store.items@.len(),
        match store.items@[h as int] {
            Item::Interface(v) => shown@.len() == handles_in(v.fields).len(),
            _ => true,
        },
    ensures
        opt_text(r) == (match store.items@[h as int] {
            Item::Interface(v) => Some(
                instance_text(
                    factory_name(store.items@, v.factory),
                    with_texts(handles_in(v.fields), texts(shown@)),
                ),
            ),
            _ => None,
        }),
{
    proof {
        assert(crate::lang::value::refers_below(store.items@[h as int], h as int));
    }
    let v = match &store.items[h] {
        Item::Interface(v) => v,
        _ => return None,
    };
    let mut out = match &store.items[v.factory] {
        Item::InterfaceFactory(f) => match &f.name {
            Some(name) => name.clone(),
            None => "<Unknown>".to_owned(),
        },
        _ => "<Unknown>".to_owned(),
    };
    out.append("(");
    let pairs = pair_texts(&v.fields, shown);
    let frame = Frame { before: "", between: "=", behind: "" };
    let lines = show_entries(&frame, &pairs);
    let inner = join(&lines, ", ");
    out.append(inner.as_str());
    out.append(")");
    Some(out)
}

} // verus!
