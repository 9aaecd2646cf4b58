//! Turns evaluated modules into a schematic.

use starlark::collections::SmallMap;
use vstd::prelude::*;

use crate::attrs;
use crate::diagnostic::{Notice, NoticeView, Severity};
use crate::lang::component_value::{ComponentValue, ComponentView};
use crate::lang::net::{kind_of, net_kind_requires_name, resolved_name, NetValue, NetView};
use crate::lang::pins::all_nets;
use crate::lang::value::{all_below, net_of, refers_below, Item, SpiceModelValue, Store};
use crate::map::{find, keys_of, lemma_changed, lemma_slot, lemma_viewed_insert, slot, viewed};
use crate::map::SortedMap;
use crate::schematic::{attribute_from, bare_instance, form_of, gather, gathered, json_views};
use crate::schematic::{make_text, opt_json, pair_views, parameter_views, scalars, serialize_value};
use crate::schematic::{text_attribute, to_attribute_value, AttributeValue, AttributeView, Instance};
use crate::schematic::{InstanceKind, InstancePath, InstanceView, IoDirection, Json, JsonView};
use crate::schematic::{ParameterInfo, ParameterView, Scalar, ScalarView};
use crate::small_map::{count_handles, count_texts, get_handle, handle_at, handles_in, lemma_place};
use crate::small_map::{text_at, texts_in, under};
use crate::text::{as_opt_str, before_first, chars_of, clone_opt, clone_texts, contains_text};
use crate::text::{cut_last, decimal, first_segment, is_before, is_space, is_whitespace, join};
use crate::text::{join_range, joined, lemma_text_before_irreflexive, lemma_text_before_total};
use crate::text::{lemma_text_before_transitive, lowered, opt_str, opt_text, pieces, rsplit_once};
use crate::text::{same, same_ignoring_case, split_on, strip_prefix, text_before, texts, to_decimal};

verus! {

// ---------------------------------------------------------------------------------------------
// Names

/// Whether a character is kept in the name of an open net.
pub open spec fn is_kept(c: char) -> bool {
    (c as u32) < 128 && !is_space(c) && c != '.' && c != '@'
}

/// A name as a part of the name of an open net.
pub open spec fn sanitized(s: Seq<char>) -> Seq<char> {
    Seq::new(
        s.len(),
        |i: int|
            if is_kept(s[i]) {
                s[i]
            } else {
                '_'
            },
    )
}

/// A name as a part of the name of an open net: dots, `@`, spaces and what is not ASCII become
/// underscores.
pub fn sanitize_nc_fragment(s: &str) -> (r: String)
    ensures
        r@ == sanitized(s@),
{
    let v = chars_of(s);
    let mut out = String::new();
    let mut i: usize = 0;
    proof {
        assert(out@ =~= sanitized(v@).take(0));
    }
    while i < v.len()
        invariant
            i <= v@.len(),
            out@ == sanitized(v@).take(i as int),
        decreases v@.len() - i,
    {
        let c = v[i];
        let kept = (c as u32) < 128 && !is_whitespace(c) && c != '.' && c != '@';
        let d = if kept {
            c
        } else {
            '_'
        };
        out.push(d);
        proof {
            assert(out@ =~= sanitized(v@).take(i + 1));
        }
        i += 1;
    }
    proof {
        assert(out@ =~= sanitized(s@));
    }
    out
}

/// A name within a module.
pub open spec fn scoped(prefix: Seq<char>, name: Seq<char>) -> Seq<char> {
    if prefix.len() == 0 {
        name
    } else {
        prefix + "."@ + name
    }
}

/// A name within a module.
pub fn scoped_path(prefix: &str, name: &str) -> (r: String)
    ensures
        r@ == scoped(prefix@, name@),
{
    if prefix.unicode_len() == 0 {
        name.to_owned()
    } else {
        let mut out = prefix.to_owned();
        out.append(".");
        out.append(name);
        out
    }
}

/// The name of an open net, after the one port that it is on.
pub open spec fn port_name(path: Seq<Seq<char>>) -> Option<Seq<char>> {
    if path.len() == 0 {
        None
    } else if path.len() >= 2 {
        Some(
            scoped(
                joined(path.take(path.len() - 2), "."@),
                "NC_"@ + sanitized(path[path.len() - 2]) + "_"@ + sanitized(path[path.len() - 1]),
            ),
        )
    } else {
        Some("NC_"@ + sanitized(path[0]))
    }
}

/// The name of an open net, after the one port that it is on.
pub fn stable_single_port_not_connected_scoped_name(port: &InstancePath) -> (r: Option<String>)
    ensures
        opt_text(r) == port_name(port@),
{
    let path = &port.segments;
    let n: usize = path.len();
    proof {
        assert(port@.len() == n);
    }
    if n == 0 {
        return None;
    }
    let mut local = "NC_".to_owned();
    if n >= 2 {
        let module_prefix = join_range(path, 0, n - 2, ".");
        let comp = sanitize_nc_fragment(path[n - 2].as_str());
        let pin = sanitize_nc_fragment(path[n - 1].as_str());
        local.append(comp.as_str());
        local.append("_");
        local.append(pin.as_str());
        proof {
            assert(texts(path@).subrange(0, n - 2) =~= port@.take(n - 2));
        }
        Some(scoped_path(module_prefix.as_str(), local.as_str()))
    } else {
        let leaf = sanitize_nc_fragment(path[0].as_str());
        local.append(leaf.as_str());
        Some(local)
    }
}

// ---------------------------------------------------------------------------------------------
// Nets

/// What is known of a net.
pub struct NetInfo {
    /// The name, where it is known.
    pub name: Option<String>,
    /// The ports that the net is on.
    pub ports: Vec<InstancePath>,
    pub properties: SortedMap<String, AttributeValue>,
    pub kind: Option<String>,
}

/// The contents of what is known of a net.
pub struct NetInfoView {
    pub name: Option<Seq<char>>,
    pub ports: Seq<Seq<Seq<char>>>,
    pub properties: Map<Seq<char>, AttributeView>,
    pub kind: Option<Seq<char>>,
}

/// The contents of a list of paths.
pub open spec fn path_views(v: Seq<InstancePath>) -> Seq<Seq<Seq<char>>> {
    Seq::new(v.len(), |i: int| v[i]@)
}

impl View for NetInfo {
    type V = NetInfoView;

    open spec fn view(&self) -> NetInfoView {
        NetInfoView {
            name: opt_text(self.name),
            ports: path_views(self.ports@),
            properties: viewed(self.properties@),
            kind: opt_text(self.kind),
        }
    }
}

/// Nothing is known of a net.
pub open spec fn unknown_net() -> NetInfoView {
    NetInfoView {
        name: None,
        ports: Seq::<Seq<Seq<char>>>::empty(),
        properties: Map::empty(),
        kind: None,
    }
}

/// What is known of a net of some.
pub open spec fn known_net(nets: Map<u64, NetInfoView>, id: u64) -> NetInfoView {
    if nets.dom().contains(id) {
        nets[id]
    } else {
        unknown_net()
    }
}

/// Properties with those of a net that they lack.
pub open spec fn with_properties(
    p: Map<Seq<char>, AttributeView>,
    items: Seq<Item>,
    more: Seq<(Seq<char>, usize)>,
) -> Map<Seq<char>, AttributeView>
    decreases more.len(),
{
    if more.len() == 0 {
        p
    } else {
        let r = with_properties(p, items, more.drop_last());
        if r.dom().contains(more.last().0) {
            r
        } else {
            r.insert(more.last().0, attribute_from(items, more.last().1))
        }
    }
}

/// What is known of a net once it is seen on a port.
pub open spec fn with_port(
    info: NetInfoView,
    items: Seq<Item>,
    net: NetView,
    port: Seq<Seq<char>>,
) -> NetInfoView {
    let ports = info.ports.push(port);
    let kind = match info.kind {
        Some(k) => k,
        None => kind_of(net),
    };
    let name = if kind == "NotConnected"@ && net.original_name is None && ports.len() == 1 {
        port_name(port)
    } else {
        info.name
    };
    let local = resolved_name(net);
    NetInfoView {
        ports,
        kind: Some(kind),
        name: match name {
            Some(n) => Some(n),
            None => if local.len() == 0 {
                None
            } else if port.len() <= 2 {
                Some(local)
            } else {
                Some(joined(port.take(port.len() - 2), "."@) + "."@ + local)
            },
        },
        properties: with_properties(info.properties, items, net.properties),
    }
}

impl NetInfo {
    /// The invariant: the properties are in order.
    pub open spec fn wf(&self) -> bool {
        self.properties.wf()
    }

    /// Nothing is known of a net.
    pub fn unknown() -> (r: NetInfo)
        ensures
            r.wf(),
            r@ == unknown_net(),
    {
        let r = NetInfo {
            name: None,
            ports: Vec::new(),
            properties: SortedMap::new(),
            kind: None,
        };
        proof {
            assert(r@.ports =~= Seq::<Seq<Seq<char>>>::empty());
            assert(r@.properties =~= Map::<Seq<char>, AttributeView>::empty());
        }
        r
    }

    /// Takes note that the net is on a port.
    pub fn update(&mut self, store: &Store, net: &NetValue, port: &InstancePath)
        requires
            old(self).wf(),
            store.wf(),
            all_below(handles_in(net.properties), store.items@.len() as int),
        ensures
            final(self).wf(),
            final(self)@ == with_port(old(self)@, store.items@, net@, port@),
    {
        let ghost before = self@;
        let ghost prior = self.ports@;
        self.ports.push(port.copy());
        proof {
            assert(path_views(self.ports@) =~= path_views(prior).push(port@));
            assert(path_views(self.ports@).len() == self.ports@.len());
        }
        if self.kind.is_none() {
            self.kind = Some(net.net_kind_name().to_owned());
        }
        let open = match &self.kind {
            Some(k) => same(k.as_str(), "NotConnected"),
            None => false,
        };
        if open && net.original_name.is_none() && self.ports.len() == 1 {
            self.name = stable_single_port_not_connected_scoped_name(port);
        }
        if self.name.is_none() {
            let local = net.name();
            if local.unicode_len() > 0 {
                let n: usize = port.segments.len();
                proof {
                    assert(port@.len() == n);
                }
                if n <= 2 {
                    self.name = Some(local.to_owned());
                } else {
                    let mut name = join_range(&port.segments, 0, n - 2, ".");
                    proof {
                        assert(texts(port.segments@).subrange(0, n - 2) =~= port@.take(n - 2));
                    }
                    name.append(".");
                    name.append(local);
                    self.name = Some(name);
                }
            }
        }
        let ghost named = self@;
        let ghost all = handles_in(net.properties);
        let ghost p0 = viewed(self.properties@);
        let n = count_handles(&net.properties);
        let mut i: usize = 0;
        proof {
            assert(all.take(0) =~= Seq::<(Seq<char>, usize)>::empty());
        }
        while i < n
            invariant
                i <= n,
                n == all.len(),
                all == handles_in(net.properties),
                store.wf(),
                all_below(all, store.items@.len() as int),
                self.wf(),
                self@.name == named.name,
                self@.ports == named.ports,
                self@.kind == named.kind,
                viewed(self.properties@) == with_properties(p0, store.items@, all.take(i as int)),
            decreases n - i,
        {
            if let Some((k, v)) = handle_at(&net.properties, i) {
                proof {
                    assert(all.take(i + 1).drop_last() =~= all.take(i as int));
                    assert(all.take(i + 1).last() == (k@, v));
                    assert(all[i as int] == (k@, v));
                }
                let key = k.to_owned();
                if !self.properties.contains_key(&key) {
                    let a = to_attribute_value(store, v);
                    proof {
                        lemma_viewed_insert(self.properties@, k@, a);
                    }
                    self.properties.insert(key, a);
                }
            }
            i += 1;
        }
        proof {
            assert(all.take(all.len() as int) =~= all);
        }
    }
}

// ---------------------------------------------------------------------------------------------
// Components

/// A text under a name, where there is one.
pub open spec fn with_text(
    s: Seq<(Seq<char>, AttributeView)>,
    name: Seq<char>,
    text: Option<Seq<char>>,
) -> Seq<(Seq<char>, AttributeView)> {
    match text {
        Some(t) => s.push((name, text_attribute(t))),
        None => s,
    }
}

/// A flag under a name, where it is set.
pub open spec fn with_flag(s: Seq<(Seq<char>, AttributeView)>, name: Seq<char>, flag: bool) -> Seq<
    (Seq<char>, AttributeView),
> {
    if flag {
        s.push((name, AttributeView::One(ScalarView::Boolean(true))))
    } else {
        s
    }
}

/// Properties as attributes, but for one.
pub open spec fn with_items(
    s: Seq<(Seq<char>, AttributeView)>,
    items: Seq<Item>,
    p: Seq<(Seq<char>, usize)>,
    but: Option<Seq<char>>,
) -> Seq<(Seq<char>, AttributeView)>
    decreases p.len(),
{
    if p.len() == 0 {
        s
    } else {
        let r = with_items(s, items, p.drop_last(), but);
        if but == Some(p.last().0) {
            r
        } else {
            r.push((p.last().0, attribute_from(items, p.last().1)))
        }
    }
}

/// What a component says of itself, in order.
pub open spec fn component_attributes(c: ComponentView, items: Seq<Item>) -> Seq<
    (Seq<char>, AttributeView),
> {
    let none = Seq::<(Seq<char>, AttributeView)>::empty();
    let a = with_text(none, attrs::FOOTPRINT@, Some(c.footprint));
    let b = with_text(a, attrs::PREFIX@, Some(c.prefix));
    let d = match c.data.part {
        Some(p) => with_text(
            with_text(b, attrs::MPN@, Some(p.mpn)),
            attrs::MANUFACTURER@,
            Some(p.manufacturer),
        ).push((attrs::PART@, AttributeView::One(ScalarView::Part(p)))),
        None => with_text(b, attrs::BOM_MPN@, c.data.bom_mpn),
    };
    let e = with_text(d, attrs::TYPE@, c.ctype);
    let f = with_text(e, attrs::DATASHEET@, c.data.datasheet);
    let g = with_text(f, attrs::DESCRIPTION@, c.description);
    let h = with_items(g, items, c.data.properties, Some(attrs::PART@));
    let i = with_flag(h, attrs::DNP@, c.data.dnp);
    let j = with_flag(i, attrs::SKIP_BOM@, c.data.skip_bom);
    let k = with_flag(j, attrs::SKIP_POS@, c.data.skip_pos);
    let l = with_text(k, attrs::SYMBOL_NAME@, c.symbol.name);
    let m = with_text(l, attrs::SYMBOL_PATH@, c.symbol.source_uri);
    with_text(m, attrs::SYMBOL_VALUE@, c.symbol.raw_sexp)
}

/// Adds a text under a name, where there is one.
fn add_text(out: &mut Vec<(String, AttributeValue)>, name: &str, text: Option<&str>)
    ensures
        pair_views(final(out)@) == with_text(pair_views(old(out)@), name@, opt_str(text)),
{
    if let Some(t) = text {
        let ghost prior = pair_views(out@);
        out.push((name.to_owned(), make_text(t)));
        proof {
            assert(pair_views(out@) =~= prior.push((name@, text_attribute(t@))));
        }
    }
}

/// Adds a flag under a name, where it is set.
fn add_bool_attribute_if_true(out: &mut Vec<(String, AttributeValue)>, name: &str, flag: bool)
    ensures
        pair_views(final(out)@) == with_flag(pair_views(old(out)@), name@, flag),
{
    if flag {
        let ghost prior = pair_views(out@);
        out.push((name.to_owned(), AttributeValue::One(Scalar::Boolean(true))));
        proof {
            assert(pair_views(out@) =~= prior.push(
                (name@, AttributeView::One(ScalarView::Boolean(true))),
            ));
        }
    }
}

/// Adds properties as attributes, but for one.
fn add_items(
    out: &mut Vec<(String, AttributeValue)>,
    store: &Store,
    p: &SmallMap<String, usize>,
    but: Option<&str>,
)
    requires
        store.wf(),
        all_below(handles_in(*p), store.items@.len() as int),
    ensures
        pair_views(final(out)@) == with_items(
            pair_views(old(out)@),
            store.items@,
            handles_in(*p),
            opt_str(but),
        ),
{
    let ghost first = pair_views(out@);
    let ghost all = handles_in(*p);
    let n = count_handles(p);
    let mut i: usize = 0;
    proof {
        assert(all.take(0) =~= Seq::<(Seq<char>, usize)>::empty());
    }
    while i < n
        invariant
            i <= n,
            n == all.len(),
            all == handles_in(*p),
            store.wf(),
            all_below(all, store.items@.len() as int),
            pair_views(out@) == with_items(first, store.items@, all.take(i as int), opt_str(but)),
        decreases n - i,
    {
        if let Some((k, v)) = handle_at(p, i) {
            proof {
                assert(all.take(i + 1).drop_last() =~= all.take(i as int));
                assert(all.take(i + 1).last() == (k@, v));
                assert(all[i as int] == (k@, v));
            }
            let skip = match but {
                Some(b) => same(b, k),
                None => false,
            };
            if !skip {
                let ghost prior = pair_views(out@);
                let a = to_attribute_value(store, v);
                let ghost view = a@;
                out.push((k.to_owned(), a));
                proof {
                    assert(pair_views(out@) =~= prior.push((k@, view)));
                }
            }
        }
        i += 1;
    }
    proof {
        assert(all.take(all.len() as int) =~= all);
    }
}

/// What a component says of itself.
fn attributes_of(store: &Store, c: &ComponentValue) -> (r: Vec<(String, AttributeValue)>)
    requires
        store.wf(),
        c.fits(store.items@.len() as int),
    ensures
        pair_views(r@) == component_attributes(c@, store.items@),
{
    let mut out: Vec<(String, AttributeValue)> = Vec::new();
    proof {
        assert(pair_views(out@) =~= Seq::<(Seq<char>, AttributeView)>::empty());
    }
    add_text(&mut out, attrs::FOOTPRINT, Some(c.footprint.as_str()));
    add_text(&mut out, attrs::PREFIX, Some(c.prefix.as_str()));
    match &c.data.part {
        Some(p) => {
            add_text(&mut out, attrs::MPN, Some(p.mpn.as_str()));
            add_text(&mut out, attrs::MANUFACTURER, Some(p.manufacturer.as_str()));
            let ghost prior = pair_views(out@);
            out.push((attrs::PART.to_owned(), AttributeValue::One(Scalar::Part(p.copy()))));
            proof {
                assert(pair_views(out@) =~= prior.push(
                    (attrs::PART@, AttributeView::One(ScalarView::Part(p@))),
                ));
            }
        },
        None => {
            add_text(&mut out, attrs::BOM_MPN, as_opt_str(&c.data.bom_mpn));
        },
    }
    add_text(&mut out, attrs::TYPE, as_opt_str(&c.ctype));
    add_text(&mut out, attrs::DATASHEET, as_opt_str(&c.data.datasheet));
    add_text(&mut out, attrs::DESCRIPTION, as_opt_str(&c.description));
    add_items(&mut out, store, &c.data.properties, Some(attrs::PART));
    add_bool_attribute_if_true(&mut out, attrs::DNP, c.data.dnp);
    add_bool_attribute_if_true(&mut out, attrs::SKIP_BOM, c.data.skip_bom);
    add_bool_attribute_if_true(&mut out, attrs::SKIP_POS, c.data.skip_pos);
    add_text(&mut out, attrs::SYMBOL_NAME, as_opt_str(&c.symbol.name));
    add_text(&mut out, attrs::SYMBOL_PATH, as_opt_str(&c.symbol.source_uri));
    add_text(&mut out, attrs::SYMBOL_VALUE, as_opt_str(&c.symbol.raw_sexp));
    out
}

/// The pads of a symbol by signal, in the order in which the signals appear.
pub open spec fn pads_by_signal(pads: Seq<(Seq<char>, Seq<char>)>) -> Seq<
    (Seq<char>, Seq<Seq<char>>),
>
    decreases pads.len(),
{
    if pads.len() == 0 {
        Seq::<(Seq<char>, Seq<Seq<char>>)>::empty()
    } else {
        let r = pads_by_signal(pads.drop_last());
        let (pad, signal) = pads.last();
        let i = group_at(r, signal);
        if i < r.len() {
            r.update(i, (signal, r[i].1.push(pad)))
        } else {
            r.push((signal, seq![pad]))
        }
    }
}

/// Where the group of a signal stands; the number of groups, where there is none.
pub open spec fn group_at(v: Seq<(Seq<char>, Seq<Seq<char>>)>, signal: Seq<char>) -> int
    decreases v.len(),
{
    if v.len() == 0 {
        0
    } else if v[0].0 == signal {
        0
    } else {
        1 + group_at(v.skip(1), signal)
    }
}

/// The contents of a list of groups.
pub open spec fn pad_group_views(v: Seq<(String, Vec<String>)>) -> Seq<(Seq<char>, Seq<Seq<char>>)> {
    Seq::new(v.len(), |i: int| (v[i].0@, texts(v[i].1@)))
}

proof fn lemma_group_at(v: Seq<(Seq<char>, Seq<Seq<char>>)>, signal: Seq<char>)
    ensures
        0 <= group_at(v, signal) <= v.len(),
        group_at(v, signal) < v.len() ==> v[group_at(v, signal)].0 == signal,
    decreases v.len(),
{
    if v.len() > 0 && v[0].0 != signal {
        lemma_group_at(v.skip(1), signal);
    }
}

/// Groups the pads of a symbol by signal.
fn group_pads(pads: &SmallMap<String, String>) -> (r: Vec<(String, Vec<String>)>)
    ensures
        pad_group_views(r@) == pads_by_signal(texts_in(*pads)),
{
    let ghost all = texts_in(*pads);
    let n = count_texts(pads);
    let mut out: Vec<(String, Vec<String>)> = Vec::new();
    let mut i: usize = 0;
    proof {
        assert(all.take(0) =~= Seq::<(Seq<char>, Seq<char>)>::empty());
        assert(pad_group_views(out@) =~= Seq::<(Seq<char>, Seq<Seq<char>>)>::empty());
    }
    while i < n
        invariant
            i <= n,
            n == all.len(),
            all == texts_in(*pads),
            pad_group_views(out@) == pads_by_signal(all.take(i as int)),
        decreases n - i,
    {
        if let Some((pad, signal)) = text_at(pads, i) {
            let ghost prior = pad_group_views(out@);
            proof {
                assert(all.take(i + 1).drop_last() =~= all.take(i as int));
                assert(all.take(i + 1).last() == (pad@, signal@));
                lemma_group_at(prior, signal@);
                assert(prior.skip(0) =~= prior);
            }
            let mut j: usize = 0;
            while j < out.len() && !same(out[j].0.as_str(), signal)
                invariant
                    j <= out@.len(),
                    prior == pad_group_views(out@),
                    group_at(prior, signal@) == j + group_at(prior.skip(j as int), signal@),
                decreases out@.len() - j,
            {
                proof {
                    assert(prior.skip(j as int)[0] == prior[j as int]);
                    assert(prior.skip(j as int).skip(1) =~= prior.skip(j + 1));
                }
                j += 1;
            }
            if j < out.len() {
                proof {
                    assert(prior.skip(j as int)[0] == prior[j as int]);
                }
                let mut group = clone_texts(&out[j].1);
                let ghost old_group = texts(group@);
                group.push(pad.to_owned());
                proof {
                    assert(texts(group@) =~= old_group.push(pad@));
                }
                let name = out[j].0.clone();
                out.set(j, (name, group));
                proof {
                    assert(pad_group_views(out@) =~= prior.update(
                        j as int,
                        (signal@, prior[j as int].1.push(pad@)),
                    ));
                }
            } else {
                let mut group: Vec<String> = Vec::new();
                group.push(pad.to_owned());
                proof {
                    assert(prior.skip(j as int) =~= Seq::<(Seq<char>, Seq<Seq<char>>)>::empty());
                    assert(texts(group@) =~= seq![pad@]);
                }
                out.push((signal.to_owned(), group));
                proof {
                    assert(pad_group_views(out@) =~= prior.push((signal@, seq![pad@])));
                }
            }
        }
        i += 1;
    }
    proof {
        assert(all.take(all.len() as int) =~= all);
    }
    out
}

// ---------------------------------------------------------------------------------------------
// The schematic while it is made

/// The schematic while it is made, as mathematics.
pub ghost struct Model {
    pub instances: Map<Seq<Seq<char>>, InstanceView>,
    pub nets: Map<u64, NetInfoView>,
    /// Other names of nets, with the names that they go by.
    pub aliases: Map<Seq<char>, Seq<char>>,
    /// The components that have a simulation model, with the model.
    pub models: Seq<(Seq<Seq<char>>, usize)>,
}

/// Turns modules into a schematic.
pub struct ModuleConverter {
    pub instances: SortedMap<InstancePath, Instance>,
    pub nets: SortedMap<u64, NetInfo>,
    pub net_name_aliases: SortedMap<String, String>,
    pub comp_models: Vec<(InstancePath, usize)>,
}

/// The contents of a list of models.
pub open spec fn model_views(v: Seq<(InstancePath, usize)>) -> Seq<(Seq<Seq<char>>, usize)> {
    Seq::new(v.len(), |i: int| (v[i].0@, v[i].1))
}

impl View for ModuleConverter {
    type V = Model;

    open spec fn view(&self) -> Model {
        Model {
            instances: viewed(self.instances@),
            nets: viewed(self.nets@),
            aliases: viewed(self.net_name_aliases@),
            models: model_views(self.comp_models@),
        }
    }
}

/// The pads of a port as an attribute.
pub open spec fn pads_attribute(pads: Seq<Seq<char>>) -> AttributeView {
    AttributeView::Many(Seq::new(pads.len(), |i: int| ScalarView::Text(pads[i])))
}

/// A port of a component.
pub open spec fn port_instance(c: ComponentView, pads: Seq<Seq<char>>) -> InstanceView {
    bare_instance(
        InstanceKind::Port,
        c.source_path,
        c.name,
        Map::empty().insert(attrs::PADS@, pads_attribute(pads)),
    )
}

/// The schematic with the ports of a component, and the component's children.
pub open spec fn with_ports(
    m: Model,
    c: ComponentView,
    items: Seq<Item>,
    path: Seq<Seq<char>>,
    groups: Seq<(Seq<char>, Seq<Seq<char>>)>,
) -> (Model, Map<Seq<char>, Seq<Seq<char>>>)
    decreases groups.len(),
{
    if groups.len() == 0 {
        (m, Map::empty())
    } else {
        let (r, children) = with_ports(m, c, items, path, groups.drop_last());
        let (signal, pads) = groups.last();
        let port = path.push(signal);
        let nets = match under(c.connections, signal) {
            Some(h) => match net_of(items[h as int]) {
                Some(net) => r.nets.insert(
                    net.net_id,
                    with_port(known_net(r.nets, net.net_id), items, net@, port),
                ),
                None => r.nets,
            },
            None => r.nets,
        };
        (
            Model { instances: r.instances.insert(port, port_instance(c, pads)), nets, ..r },
            children.insert(signal, port),
        )
    }
}

/// The instance of a component.
pub open spec fn component_instance(
    c: ComponentView,
    items: Seq<Item>,
    children: Map<Seq<char>, Seq<Seq<char>>>,
) -> InstanceView {
    InstanceView {
        children,
        jumpers: c.symbol.jumpers,
        groups: c.symbol.groups,
        ..bare_instance(
            InstanceKind::Component,
            c.source_path,
            c.name,
            gathered(component_attributes(c, items)),
        )
    }
}

/// The schematic with a component.
pub open spec fn with_component(m: Model, c: ComponentView, items: Seq<Item>, path: Seq<Seq<char>>) -> Model {
    let models = match c.data.spice_model {
        Some(h) => m.models.push((path, h)),
        None => m.models,
    };
    let (r, children) = with_ports(
        Model { models, ..m },
        c,
        items,
        path,
        pads_by_signal(c.symbol.pads),
    );
    Model {
        instances: r.instances.insert(path, component_instance(c, items, children)),
        ..r
    }
}

/// Whether a component can be turned into an instance: its pins are on nets.
pub open spec fn is_sound(c: ComponentValue, items: Seq<Item>) -> bool {
    &&& c.wf()
    &&& c.fits(items.len() as int)
    &&& all_nets(items, handles_in(c.connections))
}

/// Why a component cannot be turned into an instance, if so: what stands for its simulation model is
/// none.
pub open spec fn component_fault(c: ComponentValue, items: Seq<Item>) -> Option<Seq<char>> {
    match c.data.spice_model {
        Some(h) => if items[h as int] is SpiceModel {
            None
        } else {
            Some("Expected spice model for component "@ + c.name@)
        },
        None => None,
    }
}

/// Why the first of some components that cannot be turned into an instance cannot.
pub open spec fn components_fault(v: Seq<ComponentValue>, items: Seq<Item>) -> Option<Seq<char>>
    decreases v.len(),
{
    if v.len() == 0 {
        None
    } else {
        match components_fault(v.drop_last(), items) {
            Some(e) => Some(e),
            None => component_fault(v.last(), items),
        }
    }
}

/// Why the first of some modules with a component that cannot be turned into an instance cannot be
/// either.
pub open spec fn modules_fault(v: Seq<ModuleValue>, items: Seq<Item>) -> Option<Seq<char>>
    decreases v.len(),
{
    if v.len() == 0 {
        None
    } else {
        match modules_fault(v.drop_last(), items) {
            Some(e) => Some(e),
            None => components_fault(v.last().components@, items),
        }
    }
}

proof fn lemma_components_fault(v: Seq<ComponentValue>, items: Seq<Item>, i: int)
    requires
        0 <= i <= v.len(),
        components_fault(v.take(i), items) is Some,
    ensures
        components_fault(v, items) == components_fault(v.take(i), items),
    decreases v.len(),
{
    if i < v.len() {
        assert(v.drop_last().take(i) =~= v.take(i));
        lemma_components_fault(v.drop_last(), items, i);
    } else {
        assert(v.take(i) =~= v);
    }
}

proof fn lemma_modules_fault(v: Seq<ModuleValue>, items: Seq<Item>, i: int)
    requires
        0 <= i <= v.len(),
        modules_fault(v.take(i), items) is Some,
    ensures
        modules_fault(v, items) == modules_fault(v.take(i), items),
    decreases v.len(),
{
    if i < v.len() {
        assert(v.drop_last().take(i) =~= v.take(i));
        lemma_modules_fault(v.drop_last(), items, i);
    } else {
        assert(v.take(i) =~= v);
    }
}

/// Why a component cannot be turned into an instance, if so.
fn find_component_fault(store: &Store, component: &ComponentValue) -> (r: Option<String>)
    requires
        is_sound(*component, store.items@),
    ensures
        opt_text(r) == component_fault(*component, store.items@),
{
    if let Some(h) = component.data.spice_model {
        match &store.items[h] {
            Item::SpiceModel(_) => {},
            _ => {
                let mut message = "Expected spice model for component ".to_owned();
                message.append(component.name.as_str());
                return Some(message);
            },
        }
    }
    None
}

/// Why the first of some components that cannot be turned into an instance cannot.
fn find_components_fault(store: &Store, components: &Vec<ComponentValue>) -> (r: Option<String>)
    requires
        forall|i: int|
            0 <= i < components@.len() ==> is_sound(#[trigger] components@[i], store.items@),
    ensures
        opt_text(r) == components_fault(components@, store.items@),
{
    let ghost all = components@;
    let mut i: usize = 0;
    proof {
        assert(all.take(0) =~= Seq::<ComponentValue>::empty());
    }
    while i < components.len()
        invariant
            i <= components@.len(),
            all == components@,
            forall|k: int| 0 <= k < all.len() ==> is_sound(#[trigger] all[k], store.items@),
            components_fault(all.take(i as int), store.items@) is None,
        decreases components@.len() - i,
    {
        proof {
            assert(all.take(i + 1).drop_last() =~= all.take(i as int));
            assert(all.take(i + 1).last() == all[i as int]);
            assert(is_sound(all[i as int], store.items@));
        }
        let fault = find_component_fault(store, &components[i]);
        if fault.is_some() {
            proof {
                lemma_components_fault(all, store.items@, i + 1);
            }
            return fault;
        }
        i += 1;
    }
    proof {
        assert(all.take(all.len() as int) =~= all);
    }
    None
}

impl ModuleConverter {
    /// The invariant: the maps are in order, and a component that has a model is an instance.
    pub open spec fn wf(&self) -> bool {
        &&& self.instances.wf()
        &&& self.nets.wf()
        &&& self.net_name_aliases.wf()
        &&& forall|p: Seq<Seq<char>>| #[trigger] self.instances@.dom().contains(p) ==> self.instances@[p].wf()
        &&& forall|id: u64| #[trigger] self.nets@.dom().contains(id) ==> self.nets@[id].wf()
    }

    /// Nothing yet.
    pub fn new() -> (r: ModuleConverter)
        ensures
            r.wf(),
            r@ == (Model {
                instances: Map::empty(),
                nets: Map::empty(),
                aliases: Map::empty(),
                models: Seq::empty(),
            }),
    {
        let r = ModuleConverter {
            instances: SortedMap::new(),
            nets: SortedMap::new(),
            net_name_aliases: SortedMap::new(),
            comp_models: Vec::new(),
        };
        proof {
            assert(r@.instances =~= Map::<Seq<Seq<char>>, InstanceView>::empty());
            assert(r@.nets =~= Map::<u64, NetInfoView>::empty());
            assert(r@.aliases =~= Map::<Seq<char>, Seq<char>>::empty());
            assert(r@.models =~= Seq::<(Seq<Seq<char>>, usize)>::empty());
        }
        r
    }

    /// Adds an instance, in place of one of the same path.
    fn add_instance(&mut self, path: InstancePath, instance: Instance)
        requires
            old(self).wf(),
            instance.wf(),
        ensures
            final(self).wf(),
            final(self)@ == (Model {
                instances: old(self)@.instances.insert(path@, instance@),
                ..old(self)@
            }),
            final(self).instances@ == old(self).instances@.insert(path@, instance),
            final(self).comp_models == old(self).comp_models,
    {
        proof {
            lemma_viewed_insert(self.instances@, path@, instance);
        }
        self.instances.insert(path, instance);
    }

    /// Where a net stands in the table; one that is not there is added.
    fn net_info_at(&mut self, id: u64) -> (r: usize)
        requires
            old(self).wf(),
        ensures
            final(self).wf(),
            r < final(self).nets.entries@.len(),
            final(self).nets.entries@[r as int].0 == id,
            final(self)@.nets == old(self)@.nets.insert(id, known_net(old(self)@.nets, id)),
            final(self).instances == old(self).instances,
            final(self).net_name_aliases == old(self).net_name_aliases,
            final(self).comp_models == old(self).comp_models,
    {
        if !self.nets.contains_key(&id) {
            let info = NetInfo::unknown();
            proof {
                lemma_viewed_insert(self.nets@, id, info);
            }
            self.nets.insert(id, info);
        } else {
            proof {
                assert(viewed(self.nets@).insert(id, viewed(self.nets@)[id]) =~= viewed(self.nets@));
            }
        }
        let r = self.nets.position(&id);
        proof {
            lemma_slot(self.nets.entries@, id);
            assert(find(self.nets.entries@, id) is Some);
        }
        r
    }

    /// Takes note that a net is on a port.
    fn update_net(&mut self, store: &Store, net: &NetValue, port: &InstancePath)
        requires
            old(self).wf(),
            store.wf(),
            all_below(handles_in(net.properties), store.items@.len() as int),
        ensures
            final(self).wf(),
            final(self)@ == (Model {
                nets: old(self)@.nets.insert(
                    net.net_id,
                    with_port(
                        known_net(old(self)@.nets, net.net_id),
                        store.items@,
                        net@,
                        port@,
                    ),
                ),
                ..old(self)@
            }),
            final(self).instances == old(self).instances,
            final(self).comp_models == old(self).comp_models,
    {
        let ghost nets0 = self@.nets;
        let i = self.net_info_at(net.net_id);
        let ghost before = self.nets;
        let ghost id = net.net_id;
        proof {
            crate::map::lemma_slot_at(before.entries@, i as int);
            assert(find(before.entries@, id) == Some(before.entries@[i as int].1));
            assert(before@.dom().contains(id));
            assert(before@[id] == before.entries@[i as int].1);
            assert(viewed(before@)[id] == known_net(nets0, id));
        }
        let info = self.nets.value_mut(i);
        info.update(store, net, port);
        proof {
            lemma_changed(before, self.nets, i as int);
            let v = self.nets.entries@[i as int].1;
            lemma_viewed_insert(before@, id, v);
            assert(v@ == with_port(known_net(nets0, id), store.items@, net@, port@));
            assert(viewed(self.nets@) =~= nets0.insert(id, v@));
            assert forall|q: u64| #[trigger] self.nets@.dom().contains(q) implies self.nets@[q].wf() by {
                if q != id {
                    assert(before@.dom().contains(q));
                }
            }
        }
    }

    /// Adds a component with its ports, unless it cannot be turned into an instance.
    pub fn add_component_at(&mut self, store: &Store, component: &ComponentValue, path: &InstancePath) -> (r:
        Result<(), String>)
        requires
            old(self).wf(),
            store.wf(),
            is_sound(*component, store.items@),
        ensures
            final(self).wf(),
            match (r, component_fault(*component, store.items@)) {
                (Ok(_), None) => final(self)@ == with_component(
                    old(self)@,
                    component@,
                    store.items@,
                    path@,
                ),
                (Err(e), Some(reason)) => e@ == reason && final(self)@ == old(self)@,
                _ => false,
            },
    {
        if let Some(e) = find_component_fault(store, component) {
            return Err(e);
        }
        let ghost c = component@;
        let ghost items = store.items@;
        let ghost p = path@;
        let list = attributes_of(store, component);
        let attributes = gather(list);
        let mut instance = Instance::new(
            InstanceKind::Component,
            component.source_path.as_str(),
            component.name.as_str(),
            attributes,
        );
        if let Some(h) = component.data.spice_model {
            let ghost prior = self.comp_models@;
            self.comp_models.push((path.copy(), h));
            proof {
                assert(model_views(self.comp_models@) =~= model_views(prior).push((p, h)));
            }
        }
        instance.internal_connectivity = component.symbol.internal_connectivity.copy();
        let ghost bare = instance@;
        let ghost m0 = self@;
        let groups = group_pads(&component.symbol.pad_to_signal);
        let ghost all = pad_group_views(groups@);
        let mut i: usize = 0;
        proof {
            assert(all.take(0) =~= Seq::<(Seq<char>, Seq<Seq<char>>)>::empty());
            assert(bare.children =~= Map::<Seq<char>, Seq<Seq<char>>>::empty());
        }
        while i < groups.len()
            invariant
                i <= groups@.len(),
                c == component@,
                items == store.items@,
                p == path@,
                all == pad_group_views(groups@),
                store.wf(),
                is_sound(*component, items),
                self.wf(),
                instance.wf(),
                self@ == with_ports(m0, c, items, p, all.take(i as int)).0,
                instance@ == (InstanceView {
                    children: with_ports(m0, c, items, p, all.take(i as int)).1,
                    ..bare
                }),
            decreases groups@.len() - i,
        {
            let signal = groups[i].0.as_str();
            let pads = &groups[i].1;
            proof {
                assert(all.take(i + 1).drop_last() =~= all.take(i as int));
                assert(all.take(i + 1).last() == (signal@, texts(pads@)));
            }
            let port = path.append(signal);
            let ghost before = self@;
            let made = make_port(component, pads);
            self.add_instance(port.copy(), made);
            instance.add_child(signal, port.copy());
            proof {
                lemma_place(handles_in(component.connections), signal@);
            }
            if let Some(h) = get_handle(&component.connections, signal) {
                proof {
                    assert(handles_in(component.connections)[crate::small_map::place(
                        handles_in(component.connections),
                        signal@,
                    )].1 == h);
                    assert(refers_below(items[h as int], h as int));
                }
                if let Item::Net(net) = &store.items[h] {
                    proof {
                        crate::lang::value::lemma_below_later(
                            handles_in(net.properties),
                            h as int,
                            items.len() as int,
                        );
                    }
                    self.update_net(store, net, &port);
                }
            }
            i += 1;
        }
        proof {
            assert(all.take(all.len() as int) =~= all);
        }
        self.add_instance(path.copy(), instance);
        Ok(())
    }
}

/// A port of a component.
fn make_port(component: &ComponentValue, pads: &Vec<String>) -> (r: Instance)
    ensures
        r.wf(),
        r@ == port_instance(component@, texts(pads@)),
{
    let mut list: Vec<Scalar> = Vec::new();
    let mut i: usize = 0;
    while i < pads.len()
        invariant
            i <= pads@.len(),
            list@.len() == i,
            forall|k: int| 0 <= k < i ==> (#[trigger] list@[k])@ == ScalarView::Text(pads@[k]@),
        decreases pads@.len() - i,
    {
        list.push(Scalar::Text(pads[i].clone()));
        i += 1;
    }
    proof {
        assert(scalars(list@) =~= Seq::new(
            texts(pads@).len(),
            |i: int| ScalarView::Text(texts(pads@)[i]),
        ));
    }
    let mut attributes: SortedMap<String, AttributeValue> = SortedMap::new();
    let a = AttributeValue::Many(list);
    proof {
        assert(viewed(attributes@) =~= Map::<Seq<char>, AttributeView>::empty());
        lemma_viewed_insert(attributes@, attrs::PADS@, a);
    }
    attributes.insert(attrs::PADS.to_owned(), a);
    Instance::new(
        InstanceKind::Port,
        component.source_path.as_str(),
        component.name.as_str(),
        attributes,
    )
}

// ---------------------------------------------------------------------------------------------
// Modules

/// A parameter of a module.
pub struct ModuleParam {
    pub name: String,
    pub type_value: usize,
    pub optional: bool,
    /// Whether it is a `config()` rather than an `io()`.
    pub is_config: bool,
    pub help: Option<String>,
    pub direction: Option<IoDirection>,
    pub default_value: Option<usize>,
    pub actual_value: Option<usize>,
    pub allowed_values: Option<Vec<usize>>,
    pub allowed_display: Option<Vec<String>>,
    /// The file that declares the parameter, where it is known.
    pub declaration_path: Option<String>,
}

/// A net that a module introduces.
pub struct IntroducedNet {
    pub id: u64,
    /// The name within the module.
    pub name: String,
    pub kind: String,
}

/// What was once under one path is now under another.
pub struct MovedDirective {
    pub old_path: String,
    pub new_path: String,
    /// Whether the directive comes from the way that nets of interfaces are named.
    pub auto_generated: bool,
}

/// The position of a symbol, as a place in a list of positions.
pub struct PositionEntry {
    pub key: String,
    pub position: usize,
}

/// A module that was evaluated.
pub struct ModuleValue {
    /// The names on the way from the root to the module.
    pub path: InstancePath,
    pub name: String,
    pub source_path: String,
    pub properties: SmallMap<String, usize>,
    pub signature: Vec<ModuleParam>,
    pub introduced_nets: Vec<IntroducedNet>,
    pub components: Vec<ComponentValue>,
    pub positions: Vec<PositionEntry>,
    pub moved_directives: Vec<MovedDirective>,
}

/// Whether the values that a parameter refers to stand in a store.
pub open spec fn param_fits(p: ModuleParam, n: int) -> bool {
    &&& p.default_value is Some ==> p.default_value->Some_0 < n
    &&& p.actual_value is Some ==> p.actual_value->Some_0 < n
    &&& p.allowed_values is Some ==> forall|i: int|
        0 <= i < p.allowed_values->Some_0@.len() ==> (#[trigger] p.allowed_values->Some_0@[i]) < n
}

/// Whether a module can be turned into an instance.
pub open spec fn is_module(v: ModuleValue, items: Seq<Item>) -> bool {
    &&& all_below(handles_in(v.properties), items.len() as int)
    &&& forall|i: int|
        0 <= i < v.signature@.len() ==> param_fits(#[trigger] v.signature@[i], items.len() as int)
    &&& forall|i: int|
        0 <= i < v.components@.len() ==> is_sound(#[trigger] v.components@[i], items)
}

/// Whether modules can be turned into instances.
pub open spec fn are_modules(v: Seq<ModuleValue>, items: Seq<Item>) -> bool {
    forall|i: int| 0 <= i < v.len() ==> is_module(#[trigger] v[i], items)
}

/// The schematic with the names of the nets that a module introduces. The first name counts; any
/// other becomes an alias of it.
pub open spec fn with_introduced(m: Model, prefix: Seq<char>, v: Seq<IntroducedNet>) -> Model
    decreases v.len(),
{
    if v.len() == 0 {
        m
    } else {
        let r = with_introduced(m, prefix, v.drop_last());
        let n = v.last();
        let info = known_net(r.nets, n.id);
        let name = scoped(prefix, n.name@);
        let kind = Some(
            match info.kind {
                Some(k) => k,
                None => n.kind@,
            },
        );
        if n.name@.len() == 0 {
            Model { nets: r.nets.insert(n.id, NetInfoView { kind, ..info }), ..r }
        } else {
            match info.name {
                Some(canonical) => Model {
                    nets: r.nets.insert(n.id, NetInfoView { kind, ..info }),
                    aliases: if name != canonical {
                        r.aliases.insert(name, canonical)
                    } else {
                        r.aliases
                    },
                    ..r
                },
                None => Model {
                    nets: r.nets.insert(n.id, NetInfoView { name: Some(name), kind, ..info }),
                    ..r
                },
            }
        }
    }
}

/// The schematic with the components of a module, and the module's children.
pub open spec fn with_components(
    m: Model,
    v: Seq<ComponentValue>,
    items: Seq<Item>,
    path: Seq<Seq<char>>,
) -> (Model, Map<Seq<char>, Seq<Seq<char>>>)
    decreases v.len(),
{
    if v.len() == 0 {
        (m, Map::empty())
    } else {
        let (r, children) = with_components(m, v.drop_last(), items, path);
        let c = v.last()@;
        (with_component(r, c, items, path.push(c.name)), children.insert(c.name, path.push(c.name)))
    }
}

/// Whether a module says that it is left off the board.
pub open spec fn is_dnp(items: Seq<Item>, properties: Seq<(Seq<char>, usize)>) -> bool {
    match under(properties, "dnp"@) {
        None => false,
        Some(h) => match items[h as int] {
            Item::Text(s) => lowered(s@) == lowered("true"@) || s@ == "1"@,
            Item::Bool(b) => b,
            _ => false,
        },
    }
}

/// What a module says of itself, in order.
pub open spec fn module_attributes(v: ModuleValue, items: Seq<Item>) -> Seq<(Seq<char>, AttributeView)> {
    let none = Seq::<(Seq<char>, AttributeView)>::empty();
    let p = handles_in(v.properties);
    let a = with_flag(with_items(none, items, p, None), attrs::DNP@, is_dnp(items, p));
    if v.signature@.len() > 0 {
        a.push((attrs::SIGNATURE@, AttributeView::Signature(signature_of(items, v.signature@))))
    } else {
        a
    }
}

/// The instance of a module.
pub open spec fn module_instance(
    v: ModuleValue,
    items: Seq<Item>,
    children: Map<Seq<char>, Seq<Seq<char>>>,
) -> InstanceView {
    InstanceView {
        children,
        ..bare_instance(
            InstanceKind::Module,
            v.source_path@,
            "<root>"@,
            gathered(module_attributes(v, items)),
        )
    }
}

/// The schematic with a module.
pub open spec fn with_module(m: Model, v: ModuleValue, items: Seq<Item>) -> Model {
    let path = v.path@;
    let (r, children) = with_components(
        with_introduced(m, joined(path, "."@), v.introduced_nets@),
        v.components@,
        items,
        path,
    );
    Model { instances: r.instances.insert(path, module_instance(v, items, children)), ..r }
}

/// The schematic with a child of a module, where the module is there.
pub open spec fn with_link(m: Model, v: ModuleValue) -> Model {
    let path = v.path@;
    let parent = path.drop_last();
    if path.len() > 0 && m.instances.dom().contains(parent) {
        let i = m.instances[parent];
        Model {
            instances: m.instances.insert(
                parent,
                InstanceView { children: i.children.insert(v.name@, path), ..i },
            ),
            ..m
        }
    } else {
        m
    }
}

/// The schematic with modules, each linked to its parent.
pub open spec fn with_modules(m: Model, v: Seq<ModuleValue>, items: Seq<Item>) -> Model
    decreases v.len(),
{
    if v.len() == 0 {
        m
    } else {
        with_link(
            with_module(with_modules(m, v.drop_last(), items), v.last(), items),
            v.last(),
        )
    }
}

/// What a module says of itself.
fn module_attribute_list(store: &Store, v: &ModuleValue) -> (r: Vec<(String, AttributeValue)>)
    requires
        store.wf(),
        is_module(*v, store.items@),
    ensures
        pair_views(r@) == module_attributes(*v, store.items@),
{
    let mut out: Vec<(String, AttributeValue)> = Vec::new();
    proof {
        assert(pair_views(out@) =~= Seq::<(Seq<char>, AttributeView)>::empty());
        lemma_place(handles_in(v.properties), "dnp"@);
    }
    add_items(&mut out, store, &v.properties, None);
    let dnp = match get_handle(&v.properties, "dnp") {
        None => false,
        Some(h) => match &store.items[h] {
            Item::Text(s) => same_ignoring_case(s.as_str(), "true") || same(s.as_str(), "1"),
            Item::Bool(b) => *b,
            _ => false,
        },
    };
    add_bool_attribute_if_true(&mut out, attrs::DNP, dnp);
    if v.signature.len() > 0 {
        let ghost prior = pair_views(out@);
        let value = AttributeValue::Signature(module_signature(store, v));
        let ghost view = value@;
        out.push((attrs::SIGNATURE.to_owned(), value));
        proof {
            assert(pair_views(out@) =~= prior.push((attrs::SIGNATURE@, view)));
        }
    }
    out
}

impl ModuleConverter {
    /// Takes note of a name and a kind of a net, where it has none.
    fn introduce_net(&mut self, n: &IntroducedNet, prefix: &str)
        requires
            old(self).wf(),
        ensures
            final(self).wf(),
            final(self)@ == ({
                let m = old(self)@;
                let info = known_net(m.nets, n.id);
                let name = scoped(prefix@, n.name@);
                let kind = Some(
                    match info.kind {
                        Some(k) => k,
                        None => n.kind@,
                    },
                );
                if n.name@.len() == 0 {
                    Model { nets: m.nets.insert(n.id, NetInfoView { kind, ..info }), ..m }
                } else {
                    match info.name {
                        Some(canonical) => Model {
                            nets: m.nets.insert(n.id, NetInfoView { kind, ..info }),
                            aliases: if name != canonical {
                                m.aliases.insert(name, canonical)
                            } else {
                                m.aliases
                            },
                            ..m
                        },
                        None => Model {
                            nets: m.nets.insert(
                                n.id,
                                NetInfoView { name: Some(name), kind, ..info },
                            ),
                            ..m
                        },
                    }
                }
            }),
    {
        let ghost m = self@;
        let ghost id = n.id;
        let i = self.net_info_at(n.id);
        let ghost before = self.nets;
        proof {
            crate::map::lemma_slot_at(before.entries@, i as int);
            assert(find(before.entries@, id) == Some(before.entries@[i as int].1));
            assert(before@.dom().contains(id));
            assert(before@[id] == before.entries@[i as int].1);
            assert(viewed(before@)[id] == known_net(m.nets, id));
        }
        let scoped_name = scoped_path(prefix, n.name.as_str());
        let mut alias: Option<String> = None;
        let named = n.name.as_str().unicode_len() > 0;
        let info = self.nets.value_mut(i);
        if named {
            match &info.name {
                Some(canonical) => {
                    if !same(scoped_name.as_str(), canonical.as_str()) {
                        alias = Some(canonical.clone());
                    }
                },
                None => {
                    info.name = Some(scoped_name.clone());
                },
            }
        }
        if info.kind.is_none() {
            info.kind = Some(n.kind.clone());
        }
        proof {
            lemma_changed(before, self.nets, i as int);
            let v = self.nets.entries@[i as int].1;
            lemma_viewed_insert(before@, id, v);
            assert(viewed(self.nets@) =~= m.nets.insert(id, v@));
            assert forall|q: u64| #[trigger] self.nets@.dom().contains(q) implies self.nets@[q].wf() by {
                if q != id {
                    assert(before@.dom().contains(q));
                }
            }
        }
        if let Some(canonical) = alias {
            proof {
                lemma_viewed_insert(self.net_name_aliases@, scoped_name@, canonical);
            }
            self.net_name_aliases.insert(scoped_name, canonical);
        }
    }

    /// Adds a module with its components, unless one cannot be turned into an instance.
    pub fn add_module_at(&mut self, store: &Store, module: &ModuleValue) -> (r: Result<(), String>)
        requires
            old(self).wf(),
            store.wf(),
            is_module(*module, store.items@),
        ensures
            final(self).wf(),
            match (r, components_fault(module.components@, store.items@)) {
                (Ok(_), None) => final(self)@ == with_module(old(self)@, *module, store.items@),
                (Err(e), Some(reason)) => e@ == reason && final(self)@ == old(self)@,
                _ => false,
            },
    {
        if let Some(e) = find_components_fault(store, &module.components) {
            return Err(e);
        }
        let ghost items = store.items@;
        let ghost path = module.path@;
        let list = module_attribute_list(store, module);
        let attributes = gather(list);
        let mut instance = Instance::new(
            InstanceKind::Module,
            module.source_path.as_str(),
            "<root>",
            attributes,
        );
        let ghost bare = instance@;
        let prefix = join(&module.path.segments, ".");
        let ghost m0 = self@;
        let ghost nets = module.introduced_nets@;
        let mut i: usize = 0;
        proof {
            assert(nets.take(0) =~= Seq::<IntroducedNet>::empty());
        }
        while i < module.introduced_nets.len()
            invariant
                i <= module.introduced_nets@.len(),
                nets == module.introduced_nets@,
                self.wf(),
                self@ == with_introduced(m0, prefix@, nets.take(i as int)),
            decreases module.introduced_nets@.len() - i,
        {
            proof {
                assert(nets.take(i + 1).drop_last() =~= nets.take(i as int));
                assert(nets.take(i + 1).last() == nets[i as int]);
            }
            self.introduce_net(&module.introduced_nets[i], prefix.as_str());
            i += 1;
        }
        proof {
            assert(nets.take(nets.len() as int) =~= nets);
        }
        let ghost m1 = self@;
        let ghost comps = module.components@;
        let mut j: usize = 0;
        proof {
            assert(comps.take(0) =~= Seq::<ComponentValue>::empty());
            assert(bare.children =~= Map::<Seq<char>, Seq<Seq<char>>>::empty());
        }
        while j < module.components.len()
            invariant
                j <= module.components@.len(),
                comps == module.components@,
                items == store.items@,
                path == module.path@,
                store.wf(),
                is_module(*module, items),
                components_fault(comps, items) is None,
                self.wf(),
                instance.wf(),
                self@ == with_components(m1, comps.take(j as int), items, path).0,
                instance@ == (InstanceView {
                    children: with_components(m1, comps.take(j as int), items, path).1,
                    ..bare
                }),
            decreases module.components@.len() - j,
        {
            let component = &module.components[j];
            proof {
                assert(comps.take(j + 1).drop_last() =~= comps.take(j as int));
                assert(comps.take(j + 1).last() == comps[j as int]);
                assert(is_sound(module.components@[j as int], items));
            }
            let child = module.path.append(component.name.as_str());
            proof {
                if component_fault(comps[j as int], items) is Some {
                    lemma_components_fault(comps, items, j + 1);
                }
            }
            if let Err(e) = self.add_component_at(store, component, &child) {
                return Err(e);
            }
            instance.add_child(component.name.as_str(), child);
            j += 1;
        }
        proof {
            assert(comps.take(comps.len() as int) =~= comps);
        }
        self.add_instance(module.path.copy(), instance);
        Ok(())
    }

    /// Links a module to its parent, where the parent is there.
    fn link_to_parent(&mut self, module: &ModuleValue)
        requires
            old(self).wf(),
        ensures
            final(self).wf(),
            final(self)@ == with_link(old(self)@, *module),
    {
        if let Some(parent) = module.path.parent() {
            let i = self.instances.position(&parent);
            proof {
                lemma_slot(self.instances.entries@, parent@);
            }
            if i < self.instances.len() {
                let ghost before = self.instances;
                let ghost m = self@;
                proof {
                    crate::map::lemma_slot_at(before.entries@, i as int);
                    assert(find(before.entries@, parent@) == Some(before.entries@[i as int].1));
                    assert(before@.dom().contains(parent@));
                    assert(before@[parent@] == before.entries@[i as int].1);
                }
                let instance = self.instances.value_mut(i);
                instance.add_child(module.name.as_str(), module.path.copy());
                proof {
                    lemma_changed(before, self.instances, i as int);
                    let v = self.instances.entries@[i as int].1;
                    lemma_viewed_insert(before@, parent@, v);
                    assert(viewed(self.instances@) =~= m.instances.insert(parent@, v@));
                    assert forall|q: Seq<Seq<char>>| #[trigger]
                        self.instances@.dom().contains(q) implies self.instances@[q].wf() by {
                        if q != parent@ {
                            assert(before@.dom().contains(q));
                        }
                    }
                }
            } else {
                proof {
                    assert(find(self.instances.entries@, parent@) is None);
                }
            }
        }
    }

    /// Adds modules, each linked to its parent, up to one that cannot be added.
    pub fn add_modules(&mut self, store: &Store, modules: &Vec<ModuleValue>) -> (r: Result<(), String>)
        requires
            old(self).wf(),
            store.wf(),
            are_modules(modules@, store.items@),
        ensures
            final(self).wf(),
            match (r, modules_fault(modules@, store.items@)) {
                (Ok(_), None) => final(self)@ == with_modules(old(self)@, modules@, store.items@),
                (Err(e), Some(reason)) => e@ == reason,
                _ => false,
            },
    {
        let ghost m0 = self@;
        let ghost all = modules@;
        let mut i: usize = 0;
        proof {
            assert(all.take(0) =~= Seq::<ModuleValue>::empty());
        }
        while i < modules.len()
            invariant
                i <= modules@.len(),
                all == modules@,
                store.wf(),
                are_modules(all, store.items@),
                self.wf(),
                modules_fault(all.take(i as int), store.items@) is None,
                self@ == with_modules(m0, all.take(i as int), store.items@),
            decreases modules@.len() - i,
        {
            proof {
                assert(all.take(i + 1).drop_last() =~= all.take(i as int));
                assert(all.take(i + 1).last() == all[i as int]);
                assert(is_module(all[i as int], store.items@));
            }
            if let Err(e) = self.add_module_at(store, &modules[i]) {
                proof {
                    lemma_modules_fault(all, store.items@, i + 1);
                }
                return Err(e);
            }
            self.link_to_parent(&modules[i]);
            i += 1;
        }
        proof {
            assert(all.take(all.len() as int) =~= all);
        }
        Ok(())
    }
}

// ---------------------------------------------------------------------------------------------
// Signatures

/// The form of an optional value of the store.
pub open spec fn opt_form_of(items: Seq<Item>, h: Option<usize>) -> Option<JsonView> {
    match h {
        Some(h) => Some(form_of(items, h)),
        None => None,
    }
}

/// What a signature tells of a parameter.
pub open spec fn told(items: Seq<Item>, p: ModuleParam) -> ParameterView {
    ParameterView {
        name: p.name@,
        type_value: p.type_value,
        optional: p.optional,
        has_default: p.default_value is Some,
        is_config: p.is_config,
        help: opt_text(p.help),
        direction: p.direction,
        value: opt_form_of(items, p.actual_value),
        default_value: opt_form_of(items, p.default_value),
        allowed_values: match p.allowed_values {
            Some(hs) => Some(Seq::new(hs@.len(), |i: int| form_of(items, hs@[i]))),
            None => None,
        },
        allowed_display: match p.allowed_display {
            Some(v) => Some(texts(v@)),
            None => None,
        },
    }
}

/// The signature of a module.
pub open spec fn signature_of(items: Seq<Item>, v: Seq<ModuleParam>) -> Seq<ParameterView> {
    Seq::new(v.len(), |i: int| told(items, v[i]))
}

/// The form of an optional value.
fn serialize_signature_value(store: &Store, h: Option<usize>) -> (r: Option<Json>)
    requires
        store.wf(),
        h is Some ==> h->Some_0 < store.items@.len(),
    ensures
        opt_json(r) == opt_form_of(store.items@, h),
{
    match h {
        Some(h) => Some(serialize_value(store, h)),
        None => None,
    }
}

/// The forms of values.
fn serialize_signature_values(store: &Store, hs: &Vec<usize>) -> (r: Vec<Json>)
    requires
        store.wf(),
        forall|i: int| 0 <= i < hs@.len() ==> (#[trigger] hs@[i]) < store.items@.len(),
    ensures
        json_views(r@) == Seq::new(hs@.len(), |i: int| form_of(store.items@, hs@[i])),
{
    let mut out: Vec<Json> = Vec::new();
    let mut i: usize = 0;
    while i < hs.len()
        invariant
            i <= hs@.len(),
            store.wf(),
            forall|k: int| 0 <= k < hs@.len() ==> (#[trigger] hs@[k]) < store.items@.len(),
            out@.len() == i,
            forall|k: int| 0 <= k < i ==> (#[trigger] out@[k])@ == form_of(store.items@, hs@[k]),
        decreases hs@.len() - i,
    {
        out.push(serialize_value(store, hs[i]));
        i += 1;
    }
    proof {
        assert(json_views(out@) =~= Seq::new(hs@.len(), |i: int| form_of(store.items@, hs@[i])));
    }
    out
}

/// The signature of a module.
pub fn module_signature(store: &Store, module: &ModuleValue) -> (r: Vec<ParameterInfo>)
    requires
        store.wf(),
        is_module(*module, store.items@),
    ensures
        parameter_views(r@) == signature_of(store.items@, module.signature@),
{
    let mut out: Vec<ParameterInfo> = Vec::new();
    let mut i: usize = 0;
    while i < module.signature.len()
        invariant
            i <= module.signature@.len(),
            store.wf(),
            is_module(*module, store.items@),
            out@.len() == i,
            forall|k: int|
                0 <= k < i ==> (#[trigger] out@[k])@ == told(
                    store.items@,
                    module.signature@[k],
                ),
        decreases module.signature@.len() - i,
    {
        let p = &module.signature[i];
        proof {
            assert(param_fits(module.signature@[i as int], store.items@.len() as int));
        }
        let allowed_values = match &p.allowed_values {
            Some(hs) => Some(serialize_signature_values(store, hs)),
            None => None,
        };
        let allowed_display = match &p.allowed_display {
            Some(v) => Some(clone_texts(v)),
            None => None,
        };
        out.push(
            ParameterInfo {
                name: p.name.clone(),
                type_value: p.type_value,
                optional: p.optional,
                has_default: p.default_value.is_some(),
                is_config: p.is_config,
                help: clone_opt(&p.help),
                direction: p.direction,
                value: serialize_signature_value(store, p.actual_value),
                default_value: serialize_signature_value(store, p.default_value),
                allowed_values,
                allowed_display,
            },
        );
        i += 1;
    }
    proof {
        assert(parameter_views(out@) =~= signature_of(store.items@, module.signature@));
    }
    out
}

// ---------------------------------------------------------------------------------------------
// Differential pairs

/// The nets with a property set on one.
pub open spec fn with_property(
    nets: Map<u64, NetInfoView>,
    id: u64,
    key: Seq<char>,
    value: AttributeView,
) -> Map<u64, NetInfoView> {
    let info = known_net(nets, id);
    nets.insert(id, NetInfoView { properties: info.properties.insert(key, value), ..info })
}

/// The net of a field.
pub open spec fn net_field(items: Seq<Item>, f: Seq<(Seq<char>, usize)>, name: Seq<char>) -> Option<
    NetValue,
> {
    match under(f, name) {
        Some(h) => net_of(items[h as int]),
        None => None,
    }
}

/// The nets with the impedance of a pair, where fields are one.
pub open spec fn with_own_impedance(
    items: Seq<Item>,
    f: Seq<(Seq<char>, usize)>,
    nets: Map<u64, NetInfoView>,
) -> Map<u64, NetInfoView> {
    match (under(f, "impedance"@), net_field(items, f, "P"@), net_field(items, f, "N"@)) {
        (Some(h), Some(p), Some(n)) => if items[h as int] == Item::Nothing {
            nets
        } else {
            let key = "differential_impedance"@;
            let value = attribute_from(items, h);
            with_property(with_property(nets, p.net_id, key, value), n.net_id, key, value)
        },
        _ => nets,
    }
}

/// The nets with the impedances of the pairs that a value holds, at whatever depth.
pub open spec fn with_impedance(items: Seq<Item>, h: usize, nets: Map<u64, NetInfoView>) -> Map<
    u64,
    NetInfoView,
>
    decreases h, 1int, 0int,
{
    match items[h as int] {
        Item::Interface(v) => with_impedance_of_fields(
            items,
            h,
            handles_in(v.fields),
            with_own_impedance(items, handles_in(v.fields), nets),
        ),
        _ => nets,
    }
}

/// The nets with the impedances of the pairs that fields hold.
pub open spec fn with_impedance_of_fields(
    items: Seq<Item>,
    h: usize,
    f: Seq<(Seq<char>, usize)>,
    nets: Map<u64, NetInfoView>,
) -> Map<u64, NetInfoView>
    decreases h, 0int, f.len(),
{
    if f.len() == 0 {
        nets
    } else {
        let r = with_impedance_of_fields(items, h, f.drop_last(), nets);
        if f.last().1 < h {
            with_impedance(items, f.last().1, r)
        } else {
            r
        }
    }
}

/// The nets with the impedances of the pairs that the parameters of a module hold.
pub open spec fn with_impedance_of_params(
    items: Seq<Item>,
    v: Seq<ModuleParam>,
    nets: Map<u64, NetInfoView>,
) -> Map<u64, NetInfoView>
    decreases v.len(),
{
    if v.len() == 0 {
        nets
    } else {
        let r = with_impedance_of_params(items, v.drop_last(), nets);
        match v.last().actual_value {
            Some(h) => if v.last().is_config {
                r
            } else {
                with_impedance(items, h, r)
            },
            None => r,
        }
    }
}

/// The nets with the impedances of the pairs of modules.
pub open spec fn with_impedance_of_modules(
    items: Seq<Item>,
    v: Seq<ModuleValue>,
    nets: Map<u64, NetInfoView>,
) -> Map<u64, NetInfoView>
    decreases v.len(),
{
    if v.len() == 0 {
        nets
    } else {
        with_impedance_of_params(
            items,
            v.last().signature@,
            with_impedance_of_modules(items, v.drop_last(), nets),
        )
    }
}

impl ModuleConverter {
    /// Sets a property of a net.
    fn set_net_property(&mut self, id: u64, key: &str, value: AttributeValue)
        requires
            old(self).wf(),
        ensures
            final(self).wf(),
            final(self)@ == (Model {
                nets: with_property(old(self)@.nets, id, key@, value@),
                ..old(self)@
            }),
    {
        let ghost m = self@;
        let i = self.net_info_at(id);
        let ghost before = self.nets;
        proof {
            crate::map::lemma_slot_at(before.entries@, i as int);
            assert(find(before.entries@, id) == Some(before.entries@[i as int].1));
            assert(before@.dom().contains(id));
            assert(before@[id] == before.entries@[i as int].1);
            assert(viewed(before@)[id] == known_net(m.nets, id));
        }
        let info = self.nets.value_mut(i);
        proof {
            lemma_viewed_insert(info.properties@, key@, value);
        }
        info.properties.insert(key.to_owned(), value);
        proof {
            lemma_changed(before, self.nets, i as int);
            let v = self.nets.entries@[i as int].1;
            lemma_viewed_insert(before@, id, v);
            assert(viewed(self.nets@) =~= m.nets.insert(id, v@));
            assert forall|q: u64| #[trigger] self.nets@.dom().contains(q) implies self.nets@[q].wf() by {
                if q != id {
                    assert(before@.dom().contains(q));
                }
            }
        }
    }

    /// Sets the impedances of the pairs that a value holds.
    fn propagate_from_value(&mut self, store: &Store, h: usize)
        requires
            old(self).wf(),
            store.wf(),
            h < store.items@.len(),
        ensures
            final(self).wf(),
            final(self)@ == (Model {
                nets: with_impedance(store.items@, h, old(self)@.nets),
                ..old(self)@
            }),
        decreases h,
    {
        let ghost items = store.items@;
        let ghost m = self@;
        proof {
            assert(refers_below(items[h as int], h as int));
        }
        if let Item::Interface(v) = &store.items[h] {
            let ghost f = handles_in(v.fields);
            proof {
                lemma_place(f, "impedance"@);
                lemma_place(f, "P"@);
                lemma_place(f, "N"@);
            }
            let p: Option<u64> = match get_handle(&v.fields, "P") {
                Some(x) => match store.net(x) {
                    Some(net) => Some(net.net_id),
                    None => None,
                },
                None => None,
            };
            let n: Option<u64> = match get_handle(&v.fields, "N") {
                Some(x) => match store.net(x) {
                    Some(net) => Some(net.net_id),
                    None => None,
                },
                None => None,
            };
            if let (Some(x), Some(p), Some(n)) = (get_handle(&v.fields, "impedance"), p, n) {
                if !store.is_none(x) {
                    let a = to_attribute_value(store, x);
                    let b = to_attribute_value(store, x);
                    self.set_net_property(p, "differential_impedance", a);
                    self.set_net_property(n, "differential_impedance", b);
                }
            }
            let ghost m1 = self@;
            proof {
                assert(m1.nets == with_own_impedance(items, f, m.nets));
            }
            let count = count_handles(&v.fields);
            let mut k: usize = 0;
            proof {
                assert(f.take(0) =~= Seq::<(Seq<char>, usize)>::empty());
            }
            while k < count
                invariant
                    k <= count,
                    count == f.len(),
                    f == handles_in(v.fields),
                    items == store.items@,
                    store.wf(),
                    h < items.len(),
                    all_below(f, h as int),
                    self.wf(),
                    self@ == (Model {
                        nets: with_impedance_of_fields(items, h, f.take(k as int), m1.nets),
                        ..m1
                    }),
                decreases count - k,
            {
                if let Some((name, child)) = handle_at(&v.fields, k) {
                    proof {
                        assert(f.take(k + 1).drop_last() =~= f.take(k as int));
                        assert(f.take(k + 1).last() == (name@, child));
                        assert(f[k as int] == (name@, child));
                    }
                    self.propagate_from_value(store, child);
                }
                k += 1;
            }
            proof {
                assert(f.take(f.len() as int) =~= f);
            }
        }
    }

    /// Sets the impedances of the pairs that the parameters of a module hold.
    fn propagate_from_params(&mut self, store: &Store, v: &Vec<ModuleParam>)
        requires
            old(self).wf(),
            store.wf(),
            forall|i: int|
                0 <= i < v@.len() ==> param_fits(#[trigger] v@[i], store.items@.len() as int),
        ensures
            final(self).wf(),
            final(self)@ == (Model {
                nets: with_impedance_of_params(store.items@, v@, old(self)@.nets),
                ..old(self)@
            }),
    {
        let ghost m = self@;
        let ghost all = v@;
        let mut i: usize = 0;
        proof {
            assert(all.take(0) =~= Seq::<ModuleParam>::empty());
        }
        while i < v.len()
            invariant
                i <= v@.len(),
                all == v@,
                store.wf(),
                forall|k: int|
                    0 <= k < v@.len() ==> param_fits(#[trigger] v@[k], store.items@.len() as int),
                self.wf(),
                self@ == (Model {
                    nets: with_impedance_of_params(store.items@, all.take(i as int), m.nets),
                    ..m
                }),
            decreases v@.len() - i,
        {
            proof {
                assert(all.take(i + 1).drop_last() =~= all.take(i as int));
                assert(all.take(i + 1).last() == all[i as int]);
                assert(param_fits(v@[i as int], store.items@.len() as int));
            }
            if let Some(h) = v[i].actual_value {
                if !v[i].is_config {
                    self.propagate_from_value(store, h);
                }
            }
            i += 1;
        }
        proof {
            assert(all.take(all.len() as int) =~= all);
        }
    }

    /// Sets the impedances of differential pairs on the nets of the pairs.
    pub fn propagate_diffpair_impedance(&mut self, store: &Store, modules: &Vec<ModuleValue>)
        requires
            old(self).wf(),
            store.wf(),
            are_modules(modules@, store.items@),
        ensures
            final(self).wf(),
            final(self)@ == (Model {
                nets: with_impedance_of_modules(store.items@, modules@, old(self)@.nets),
                ..old(self)@
            }),
    {
        let ghost m = self@;
        let ghost all = modules@;
        let mut i: usize = 0;
        proof {
            assert(all.take(0) =~= Seq::<ModuleValue>::empty());
        }
        while i < modules.len()
            invariant
                i <= modules@.len(),
                all == modules@,
                store.wf(),
                are_modules(all, store.items@),
                self.wf(),
                self@ == (Model {
                    nets: with_impedance_of_modules(store.items@, all.take(i as int), m.nets),
                    ..m
                }),
            decreases modules@.len() - i,
        {
            proof {
                assert(all.take(i + 1).drop_last() =~= all.take(i as int));
                assert(all.take(i + 1).last() == all[i as int]);
                assert(is_module(all[i as int], store.items@));
            }
            self.propagate_from_params(store, &modules[i].signature);
            i += 1;
        }
        proof {
            assert(all.take(all.len() as int) =~= all);
        }
    }
}

// ---------------------------------------------------------------------------------------------
// Nets of the schematic

/// A net of the schematic. Its ports and properties stand in the table of nets.
pub struct SchematicNet {
    pub id: u64,
    pub kind: String,
    pub name: String,
}

/// The contents of a list of nets.
pub open spec fn net_rows(v: Seq<SchematicNet>) -> Seq<(u64, Seq<char>, Seq<char>)> {
    Seq::new(v.len(), |i: int| (v[i].id, v[i].kind@, v[i].name@))
}

/// Whether a net has to have a name.
pub open spec fn needs_name(kind: Option<Seq<char>>) -> bool {
    kind != Some("NotConnected"@)
}

/// Whether a net has to have a name.
pub fn net_info_requires_name(kind: Option<&str>) -> (r: bool)
    ensures
        r == needs_name(opt_str(kind)),
{
    match kind {
        Some(k) => net_kind_requires_name(k),
        None => true,
    }
}

/// The nets of the schematic in the order of their numbers, but for open ones that are on no port;
/// none at all, where a net lacks the name that it has to have.
pub open spec fn rows_of(s: Seq<(u64, NetInfo)>) -> Option<Seq<(u64, Seq<char>, Seq<char>)>>
    decreases s.len(),
{
    if s.len() == 0 {
        Some(Seq::<(u64, Seq<char>, Seq<char>)>::empty())
    } else {
        match rows_of(s.drop_last()) {
            None => None,
            Some(r) => {
                let (id, info) = s.last();
                let kind = info@.kind;
                if kind == Some("NotConnected"@) && info@.ports.len() == 0 {
                    Some(r)
                } else if needs_name(kind) && info@.name is None {
                    None
                } else {
                    Some(
                        r.push(
                            (
                                id,
                                match kind {
                                    Some(k) => k,
                                    None => "Net"@,
                                },
                                match info@.name {
                                    Some(n) => n,
                                    None => Seq::<char>::empty(),
                                },
                            ),
                        ),
                    )
                }
            },
        }
    }
}

proof fn lemma_rows_fail(s: Seq<(u64, NetInfo)>, k: int)
    requires
        0 <= k <= s.len(),
        rows_of(s.take(k)) is None,
    ensures
        rows_of(s) is None,
    decreases s.len(),
{
    if k == s.len() {
        assert(s.take(k) =~= s);
    } else {
        assert(s.drop_last().take(k) =~= s.take(k));
        lemma_rows_fail(s.drop_last(), k);
    }
}

/// Whether a net lacks the name that it has to have.
pub open spec fn lacks_name(nets: Map<u64, NetInfoView>) -> bool {
    exists|id: u64| #[trigger] nets.dom().contains(id) && needs_name(nets[id].kind) && nets[id].name is None
}

proof fn lemma_rows_none(s: Seq<(u64, NetInfo)>)
    ensures
        rows_of(s) is None <==> exists|i: int|
            0 <= i < s.len() && needs_name((#[trigger] s[i]).1@.kind) && s[i].1@.name is None,
    decreases s.len(),
{
    if s.len() > 0 {
        let d = s.drop_last();
        lemma_rows_none(d);
        if exists|i: int|
            0 <= i < s.len() && needs_name((#[trigger] s[i]).1@.kind) && s[i].1@.name is None {
            let i = choose|i: int|
                0 <= i < s.len() && needs_name((#[trigger] s[i]).1@.kind) && s[i].1@.name is None;
            if i < d.len() {
                assert(d[i] == s[i]);
            }
        }
        if rows_of(s) is None {
            if rows_of(d) is None {
                let i = choose|i: int|
                    0 <= i < d.len() && needs_name((#[trigger] d[i]).1@.kind) && d[i].1@.name is None;
                assert(s[i] == d[i]);
            } else {
                assert(needs_name(s[s.len() - 1].1@.kind));
            }
        }
    }
}

proof fn lemma_lacks_name(m: SortedMap<u64, NetInfo>)
    requires
        m.wf(),
    ensures
        lacks_name(viewed(m@)) <==> exists|i: int|
            0 <= i < m.entries@.len() && needs_name((#[trigger] m.entries@[i]).1@.kind)
                && m.entries@[i].1@.name is None,
{
    let s = m.entries@;
    let nets = viewed(m@);
    if lacks_name(nets) {
        let id = choose|id: u64| #[trigger]
            nets.dom().contains(id) && needs_name(nets[id].kind) && nets[id].name is None;
        lemma_slot(s, id);
        assert(find(s, id) is Some);
        assert(s[slot(s, id)].1@ == nets[id]);
    }
    if exists|i: int|
        0 <= i < s.len() && needs_name((#[trigger] s[i]).1@.kind) && s[i].1@.name is None {
        let i = choose|i: int|
            0 <= i < s.len() && needs_name((#[trigger] s[i]).1@.kind) && s[i].1@.name is None;
        crate::map::lemma_slot_at(s, i);
        let id = s[i].0;
        assert(nets.dom().contains(id));
        assert(nets[id] == s[i].1@);
    }
}

/// The error for a net that has no name.
pub open spec fn unnamed_net() -> NoticeView {
    NoticeView {
        message: "Net is unnamed"@,
        kind: Seq::<char>::empty(),
        severity: Severity::Error,
    }
}

/// The note for a component that cannot be turned into an instance.
pub open spec fn failed_component(reason: Seq<char>) -> NoticeView {
    NoticeView { message: reason, kind: Seq::<char>::empty(), severity: Severity::Error }
}

/// The names of nets, as texts; an open net may have none.
pub open spec fn names_of_nets(m: Model, items: Seq<Item>, v: Seq<usize>) -> Seq<ScalarView> {
    Seq::new(
        v.len(),
        |i: int|
            ScalarView::Text(
                match net_of(items[v[i] as int]) {
                    Some(net) => match known_net(m.nets, net.net_id).name {
                        Some(n) => n,
                        None => Seq::<char>::empty(),
                    },
                    None => Seq::<char>::empty(),
                },
            ),
    )
}

/// The parameters of a simulation model, as `key=value`.
pub open spec fn argument_texts(v: Seq<(Seq<char>, Seq<char>)>) -> Seq<Seq<char>> {
    Seq::new(v.len(), |i: int| v[i].0 + "="@ + v[i].1)
}

/// An instance with the attributes of a simulation model.
pub open spec fn with_model_attributes(
    i: InstanceView,
    m: Model,
    items: Seq<Item>,
    model: SpiceModelValue,
) -> InstanceView {
    InstanceView {
        attributes: i.attributes.insert(
            attrs::MODEL_DEF@,
            text_attribute(model.definition@),
        ).insert(attrs::MODEL_NAME@, text_attribute(model.name@)).insert(
            attrs::MODEL_NETS@,
            AttributeView::Many(names_of_nets(m, items, model.nets@)),
        ).insert(
            attrs::MODEL_ARGS@,
            text_attribute(joined(argument_texts(texts_in(model.args)), " "@)),
        ),
        ..i
    }
}

/// The schematic with the attributes of simulation models.
pub open spec fn with_models(m: Model, items: Seq<Item>, v: Seq<(Seq<Seq<char>>, usize)>) -> Model
    decreases v.len(),
{
    if v.len() == 0 {
        m
    } else {
        let r = with_models(m, items, v.drop_last());
        let (path, h) = v.last();
        match items[h as int] {
            Item::SpiceModel(model) => if r.instances.dom().contains(path) {
                Model {
                    instances: r.instances.insert(
                        path,
                        with_model_attributes(r.instances[path], m, items, model),
                    ),
                    ..r
                }
            } else {
                r
            },
            _ => r,
        }
    }
}

/// Whether every net of every simulation model is a net of the schematic.
pub open spec fn models_known(m: Model, items: Seq<Item>) -> bool {
    forall|i: int|
        0 <= i < m.models.len() ==> {
            let h = (#[trigger] m.models[i]).1;
            &&& h < items.len()
            &&& items[h as int] is SpiceModel
            &&& model_known(m, items, items[h as int]->SpiceModel_0)
        }
}

/// Whether every net of a simulation model is a net of the schematic.
pub open spec fn model_known(m: Model, items: Seq<Item>, model: SpiceModelValue) -> bool {
    forall|j: int|
        0 <= j < model.nets@.len() ==> {
            let n = #[trigger] model.nets@[j];
            n < items.len() && items[n as int] is Net && m.nets.dom().contains(
                items[n as int]->Net_0.net_id,
            )
        }
}

impl ModuleConverter {
    /// Turns modules into a schematic, with the nets in the order of their numbers.
    pub fn build(store: &Store, modules: &Vec<ModuleValue>) -> (r: Result<
        (ModuleConverter, Vec<SchematicNet>),
        Notice,
    >)
        requires
            store.wf(),
            are_modules(modules@, store.items@),
        ensures
            ({
                let empty = Model {
                    instances: Map::empty(),
                    nets: Map::empty(),
                    aliases: Map::empty(),
                    models: Seq::empty(),
                };
                let m = with_modules(empty, modules@, store.items@);
                match r {
                    Ok((c, rows)) => c.wf() && c@ == (Model {
                        nets: with_impedance_of_modules(store.items@, modules@, m.nets),
                        ..m
                    }) && rows_of(c.nets.entries@) == Some(net_rows(rows@)),
                    Err(e) => e@ == (match modules_fault(modules@, store.items@) {
                        Some(reason) => failed_component(reason),
                        None => unnamed_net(),
                    }),
                }
            }),
            r is Err <==> modules_fault(modules@, store.items@) is Some || lacks_name(
                with_impedance_of_modules(
                    store.items@,
                    modules@,
                    with_modules(
                        Model {
                            instances: Map::empty(),
                            nets: Map::empty(),
                            aliases: Map::empty(),
                            models: Seq::empty(),
                        },
                        modules@,
                        store.items@,
                    ).nets,
                ),
            ),
    {
        let mut c = ModuleConverter::new();
        if let Err(message) = c.add_modules(store, modules) {
            let kind = String::new();
            proof {
                assert(kind@ =~= Seq::<char>::empty());
            }
            return Err(Notice { message, kind, severity: Severity::Error });
        }
        c.propagate_diffpair_impedance(store, modules);
        proof {
            lemma_rows_none(c.nets.entries@);
            lemma_lacks_name(c.nets);
        }
        match c.schematic_nets() {
            Ok(rows) => Ok((c, rows)),
            Err(e) => Err(e),
        }
    }

    /// The nets of the schematic.
    pub fn schematic_nets(&self) -> (r: Result<Vec<SchematicNet>, Notice>)
        ensures
            match r {
                Ok(rows) => rows_of(self.nets.entries@) == Some(net_rows(rows@)),
                Err(e) => rows_of(self.nets.entries@) is None && e@ == unnamed_net(),
            },
    {
        let ghost all = self.nets.entries@;
        let mut out: Vec<SchematicNet> = Vec::new();
        let n = self.nets.len();
        let mut i: usize = 0;
        proof {
            assert(all.take(0) =~= Seq::<(u64, NetInfo)>::empty());
            assert(net_rows(out@) =~= Seq::<(u64, Seq<char>, Seq<char>)>::empty());
        }
        while i < n
            invariant
                i <= n,
                n == all.len(),
                all == self.nets.entries@,
                rows_of(all.take(i as int)) == Some(net_rows(out@)),
            decreases n - i,
        {
            let id: u64 = *self.nets.key_at(i);
            let info = self.nets.value_at(i);
            proof {
                assert(all.take(i + 1).drop_last() =~= all.take(i as int));
                assert(all.take(i + 1).last() == all[i as int]);
                assert(info@.ports.len() == info.ports@.len());
            }
            let named = net_info_requires_name(as_opt_str(&info.kind));
            if !(!named && info.ports.len() == 0) {
                if named && info.name.is_none() {
                    proof {
                        lemma_rows_fail(all, i + 1);
                    }
                    let kind = String::new();
                    proof {
                        assert(kind@ =~= Seq::<char>::empty());
                    }
                    return Err(
                        Notice {
                            message: "Net is unnamed".to_owned(),
                            kind,
                            severity: Severity::Error,
                        },
                    );
                }
                let kind = match &info.kind {
                    Some(k) => k.clone(),
                    None => "Net".to_owned(),
                };
                let name = match &info.name {
                    Some(s) => s.clone(),
                    None => String::new(),
                };
                let ghost row = (id, kind@, name@);
                let ghost prior = net_rows(out@);
                proof {
                    if info.name is None {
                        assert(name@ =~= Seq::<char>::empty());
                    }
                }
                out.push(SchematicNet { id, kind, name });
                proof {
                    assert(net_rows(out@) =~= prior.push(row));
                }
            }
            i += 1;
        }
        proof {
            assert(all.take(all.len() as int) =~= all);
        }
        Ok(out)
    }

    /// What is known of a net.
    pub fn net_info(&self, id: u64) -> (r: Option<&NetInfo>)
        ensures
            match r {
                Some(info) => self@.nets.dom().contains(id) && info@ == self@.nets[id],
                None => !self@.nets.dom().contains(id),
            },
    {
        self.nets.get(&id)
    }

    /// Whether every net of every simulation model is a net of the schematic.
    pub fn knows_model_nets(&self, store: &Store) -> (r: bool)
        ensures
            r == models_known(self@, store.items@),
    {
        let ghost m = self@;
        let ghost items = store.items@;
        proof {
            assert(m.models.len() == self.comp_models@.len());
        }
        let mut i: usize = 0;
        while i < self.comp_models.len()
            invariant
                i <= self.comp_models@.len(),
                m == self@,
                items == store.items@,
                m.models.len() == self.comp_models@.len(),
                forall|k: int|
                    0 <= k < i ==> {
                        let h = (#[trigger] m.models[k]).1;
                        &&& h < items.len()
                        &&& items[h as int] is SpiceModel
                        &&& model_known(m, items, items[h as int]->SpiceModel_0)
                    },
            decreases self.comp_models@.len() - i,
        {
            let h: usize = self.comp_models[i].1;
            proof {
                assert(m.models[i as int].1 == h);
            }
            if h >= store.items.len() {
                return false;
            }
            match &store.items[h] {
                Item::SpiceModel(model) => {
                    let mut j: usize = 0;
                    while j < model.nets.len()
                        invariant
                            j <= model.nets@.len(),
                            i < self.comp_models@.len(),
                            m == self@,
                            items == store.items@,
                            m.models.len() == self.comp_models@.len(),
                            m.models[i as int].1 == h,
                            h < items.len(),
                            items[h as int] == Item::SpiceModel(*model),
                            forall|k: int|
                                0 <= k < j ==> {
                                    let n = #[trigger] model.nets@[k];
                                    n < items.len() && items[n as int] is Net
                                        && m.nets.dom().contains(items[n as int]->Net_0.net_id)
                                },
                        decreases model.nets@.len() - j,
                    {
                        let n: usize = model.nets[j];
                        let known = if n < store.items.len() {
                            match store.net(n) {
                                Some(net) => self.net_info(net.net_id).is_some(),
                                None => false,
                            }
                        } else {
                            false
                        };
                        if !known {
                            proof {
                                assert(model.nets@[j as int] == n);
                                assert(!model_known(m, items, *model));
                            }
                            return false;
                        }
                        j += 1;
                    }
                },
                _ => {
                    return false;
                },
            }
            i += 1;
        }
        true
    }

    /// The names of nets.
    fn net_name_list(&self, store: &Store, v: &Vec<usize>) -> (r: Vec<Scalar>)
        requires
            forall|i: int| 0 <= i < v@.len() ==> (#[trigger] v@[i]) < store.items@.len(),
        ensures
            scalars(r@) == names_of_nets(self@, store.items@, v@),
    {
        let mut out: Vec<Scalar> = Vec::new();
        let mut i: usize = 0;
        while i < v.len()
            invariant
                i <= v@.len(),
                forall|k: int| 0 <= k < v@.len() ==> (#[trigger] v@[k]) < store.items@.len(),
                scalars(out@) == names_of_nets(self@, store.items@, v@).take(i as int),
            decreases v@.len() - i,
        {
            let mut name = String::new();
            proof {
                assert(name@ =~= Seq::<char>::empty());
            }
            if let Some(net) = store.net(v[i]) {
                if let Some(info) = self.net_info(net.net_id) {
                    if let Some(s) = &info.name {
                        name = s.clone();
                    }
                }
            }
            let ghost prior = scalars(out@);
            let ghost view = name@;
            out.push(Scalar::Text(name));
            proof {
                assert(scalars(out@) =~= prior.push(ScalarView::Text(view)));
                assert(names_of_nets(self@, store.items@, v@).take(i + 1) =~= names_of_nets(
                    self@,
                    store.items@,
                    v@,
                ).take(i as int).push(names_of_nets(self@, store.items@, v@)[i as int]));
            }
            i += 1;
        }
        proof {
            assert(names_of_nets(self@, store.items@, v@).take(v@.len() as int) =~= names_of_nets(
                self@,
                store.items@,
                v@,
            ));
        }
        out
    }

    /// Adds the attributes of simulation models to the components that have one.
    pub fn add_models(&mut self, store: &Store)
        requires
            old(self).wf(),
            models_known(old(self)@, store.items@),
        ensures
            final(self).wf(),
            final(self)@ == with_models(old(self)@, store.items@, old(self)@.models),
    {
        let ghost m = self@;
        let ghost items = store.items@;
        let ghost all = m.models;
        let mut i: usize = 0;
        proof {
            assert(all.take(0) =~= Seq::<(Seq<Seq<char>>, usize)>::empty());
            assert(all.len() == self.comp_models@.len());
        }
        while i < self.comp_models.len()
            invariant
                i <= self.comp_models@.len(),
                all == m.models,
                all == model_views(self.comp_models@),
                all.len() == self.comp_models@.len(),
                items == store.items@,
                models_known(m, items),
                self.wf(),
                self@ == with_models(m, items, all.take(i as int)),
                self@.nets == m.nets,
            decreases self.comp_models@.len() - i,
        {
            let h: usize = self.comp_models[i].1;
            let path = self.comp_models[i].0.copy();
            proof {
                assert(all.take(i + 1).drop_last() =~= all.take(i as int));
                assert(all.take(i + 1).last() == all[i as int]);
                assert(all[i as int] == (path@, h));
            }
            if let Item::SpiceModel(model) = &store.items[h] {
                let names = self.net_name_list(store, &model.nets);
                let args = argument_text(&model.args);
                let at = self.instances.position(&path);
                let ghost before = self.instances;
                let ghost r = self@;
                proof {
                    lemma_slot(before.entries@, path@);
                    assert(names_of_nets(r, items, model.nets@) =~= names_of_nets(
                        m,
                        items,
                        model.nets@,
                    ));
                }
                if at < self.instances.len() {
                    proof {
                        crate::map::lemma_slot_at(before.entries@, at as int);
                        assert(before@.dom().contains(path@));
                        assert(before@[path@] == before.entries@[at as int].1);
                    }
                    let instance = self.instances.value_mut(at);
                    instance.add_attribute(attrs::MODEL_DEF, make_text(model.definition.as_str()));
                    instance.add_attribute(attrs::MODEL_NAME, make_text(model.name.as_str()));
                    instance.add_attribute(attrs::MODEL_NETS, AttributeValue::Many(names));
                    instance.add_attribute(attrs::MODEL_ARGS, make_text(args.as_str()));
                    proof {
                        lemma_changed(before, self.instances, at as int);
                        let v = self.instances.entries@[at as int].1;
                        lemma_viewed_insert(before@, path@, v);
                        assert(viewed(self.instances@) =~= r.instances.insert(path@, v@));
                        assert forall|q: Seq<Seq<char>>| #[trigger]
                            self.instances@.dom().contains(q) implies self.instances@[q].wf() by {
                            if q != path@ {
                                assert(before@.dom().contains(q));
                            }
                        }
                    }
                } else {
                    proof {
                        assert(find(before.entries@, path@) is None);
                    }
                }
            }
            i += 1;
        }
        proof {
            assert(all.take(all.len() as int) =~= all);
        }
    }
}

/// The parameters of a simulation model.
fn argument_text(args: &SmallMap<String, String>) -> (r: String)
    ensures
        r@ == joined(argument_texts(texts_in(*args)), " "@),
{
    let ghost all = texts_in(*args);
    let n = count_texts(args);
    let mut list: Vec<String> = Vec::new();
    let mut i: usize = 0;
    while i < n
        invariant
            i <= n,
            n == all.len(),
            all == texts_in(*args),
            list@.len() == i,
            forall|k: int| 0 <= k < i ==> (#[trigger] list@[k])@ == all[k].0 + "="@ + all[k].1,
        decreases n - i,
    {
        if let Some((k, v)) = text_at(args, i) {
            let mut s = k.to_owned();
            s.append("=");
            s.append(v);
            list.push(s);
        }
        i += 1;
    }
    proof {
        assert(texts(list@) =~= argument_texts(all));
    }
    join(&list, " ")
}

// ---------------------------------------------------------------------------------------------
// Diagnostics

/// A note about a file.
pub struct FileNotice {
    pub path: String,
    pub notice: Notice,
}

/// The contents of a list of notes.
pub open spec fn file_notices(v: Seq<FileNotice>) -> Seq<(Seq<char>, NoticeView)> {
    Seq::new(v.len(), |i: int| (v[i].path@, v[i].notice@))
}

/// The numbers of the nets that a value holds, at whatever depth.
pub open spec fn net_ids(items: Seq<Item>, h: usize) -> Seq<u64>
    decreases h, 1int, 0int,
{
    match items[h as int] {
        Item::Net(n) => seq![n.net_id],
        Item::Interface(v) => net_ids_of_fields(items, h, handles_in(v.fields)),
        _ => Seq::<u64>::empty(),
    }
}

/// The numbers of the nets that fields hold.
pub open spec fn net_ids_of_fields(items: Seq<Item>, h: usize, f: Seq<(Seq<char>, usize)>) -> Seq<u64>
    decreases h, 0int, f.len(),
{
    if f.len() == 0 {
        Seq::<u64>::empty()
    } else {
        let r = net_ids_of_fields(items, h, f.drop_last());
        if f.last().1 < h {
            r + net_ids(items, f.last().1)
        } else {
            r
        }
    }
}

/// Adds the numbers of the nets that a value holds.
fn collect_net_ids_into(store: &Store, h: usize, out: &mut Vec<u64>)
    requires
        store.wf(),
        h < store.items@.len(),
    ensures
        final(out)@ == old(out)@ + net_ids(store.items@, h),
    decreases h,
{
    proof {
        assert(refers_below(store.items@[h as int], h as int));
        assert(out@ + Seq::<u64>::empty() =~= out@);
    }
    match &store.items[h] {
        Item::Net(n) => {
            proof {
                assert(out@ + seq![n.net_id] =~= out@.push(n.net_id));
            }
            out.push(n.net_id);
        },
        Item::Interface(v) => {
            let ghost f = handles_in(v.fields);
            let ghost first = out@;
            let n = count_handles(&v.fields);
            let mut k: usize = 0;
            proof {
                assert(f.take(0) =~= Seq::<(Seq<char>, usize)>::empty());
            }
            while k < n
                invariant
                    k <= n,
                    n == f.len(),
                    f == handles_in(v.fields),
                    store.wf(),
                    h < store.items@.len(),
                    all_below(f, h as int),
                    out@ == first + net_ids_of_fields(store.items@, h, f.take(k as int)),
                decreases n - k,
            {
                if let Some((name, child)) = handle_at(&v.fields, k) {
                    proof {
                        assert(f.take(k + 1).drop_last() =~= f.take(k as int));
                        assert(f.take(k + 1).last() == (name@, child));
                        assert(f[k as int] == (name@, child));
                        assert((first + net_ids_of_fields(store.items@, h, f.take(k as int)))
                            + net_ids(store.items@, child) =~= first + (net_ids_of_fields(
                            store.items@,
                            h,
                            f.take(k as int),
                        ) + net_ids(store.items@, child)));
                    }
                    collect_net_ids_into(store, child, out);
                }
                k += 1;
            }
            proof {
                assert(f.take(f.len() as int) =~= f);
            }
        },
        _ => {},
    }
}

/// The numbers of the nets that a value holds.
pub fn collect_net_ids_from_value(store: &Store, h: usize) -> (r: Vec<u64>)
    requires
        store.wf(),
        h < store.items@.len(),
    ensures
        r@ == net_ids(store.items@, h),
{
    let mut out: Vec<u64> = Vec::new();
    proof {
        assert(out@ + net_ids(store.items@, h) =~= net_ids(store.items@, h));
    }
    collect_net_ids_into(store, h, &mut out);
    out
}

/// Whether a path leads to an instance inside a module.
pub open spec fn is_within(port: Seq<Seq<char>>, path: Seq<Seq<char>>) -> bool {
    path.len() <= port.len() && port.take(path.len() as int) == path
}

/// Whether a net is on a port inside a module.
pub open spec fn is_used(m: Model, id: u64, path: Seq<Seq<char>>) -> bool {
    m.nets.dom().contains(id) && exists|j: int|
        0 <= j < m.nets[id].ports.len() && is_within(#[trigger] m.nets[id].ports[j], path)
}

/// Whether one of some nets is on a port inside a module.
pub open spec fn any_used(m: Model, ids: Seq<u64>, path: Seq<Seq<char>>) -> bool {
    exists|i: int| 0 <= i < ids.len() && is_used(m, #[trigger] ids[i], path)
}

/// Whether a parameter of a module is on no port inside it, though it holds a net.
pub open spec fn is_unused(m: Model, items: Seq<Item>, path: Seq<Seq<char>>, p: ModuleParam) -> bool {
    match p.actual_value {
        None => false,
        Some(h) => !p.is_config && net_ids(items, h).len() > 0 && !any_used(
            m,
            net_ids(items, h),
            path,
        ),
    }
}

/// The note for a parameter that is on no port.
pub open spec fn unused_notice(v: ModuleValue, p: ModuleParam) -> (Seq<char>, NoticeView) {
    (
        match p.declaration_path {
            Some(s) => s@,
            None => v.source_path@,
        },
        NoticeView {
            message: if v.path@.len() == 0 {
                "io() '"@ + p.name@ + "' is not connected to any ports"@
            } else {
                "io() '"@ + p.name@ + "' in module '"@ + joined(v.path@, "."@)
                    + "' is not connected to any ports"@
            },
            kind: "module.io.unused"@,
            severity: Severity::Warning,
        },
    )
}

/// The notes for the parameters of a module that are on no port.
pub open spec fn unused_params(m: Model, items: Seq<Item>, v: ModuleValue, ps: Seq<ModuleParam>) -> Seq<
    (Seq<char>, NoticeView),
>
    decreases ps.len(),
{
    if ps.len() == 0 {
        Seq::<(Seq<char>, NoticeView)>::empty()
    } else {
        let r = unused_params(m, items, v, ps.drop_last());
        if is_unused(m, items, v.path@, ps.last()) {
            r.push(unused_notice(v, ps.last()))
        } else {
            r
        }
    }
}

/// The notes for the parameters of modules that are on no port.
pub open spec fn unused_io(m: Model, items: Seq<Item>, v: Seq<ModuleValue>) -> Seq<
    (Seq<char>, NoticeView),
>
    decreases v.len(),
{
    if v.len() == 0 {
        Seq::<(Seq<char>, NoticeView)>::empty()
    } else {
        unused_io(m, items, v.drop_last()) + unused_params(m, items, v.last(), v.last().signature@)
    }
}

impl ModuleConverter {
    /// Whether a net is on a port inside a module.
    fn is_net_used(&self, id: u64, path: &InstancePath) -> (r: bool)
        ensures
            r == is_used(self@, id, path@),
    {
        match self.net_info(id) {
            None => false,
            Some(info) => {
                let ghost ports = info@.ports;
                proof {
                    assert(ports.len() == info.ports@.len());
                }
                let mut j: usize = 0;
                while j < info.ports.len()
                    invariant
                        j <= info.ports@.len(),
                        ports == path_views(info.ports@),
                        ports.len() == info.ports@.len(),
                        self@.nets.dom().contains(id),
                        ports == self@.nets[id].ports,
                        forall|k: int| 0 <= k < j ==> !is_within(#[trigger] ports[k], path@),
                    decreases info.ports@.len() - j,
                {
                    if info.ports[j].starts_with(path) {
                        proof {
                            assert(is_within(ports[j as int], path@));
                        }
                        return true;
                    }
                    j += 1;
                }
                false
            },
        }
    }

    /// Whether a parameter of a module is on no port inside it.
    fn is_param_unused(&self, store: &Store, path: &InstancePath, p: &ModuleParam) -> (r: bool)
        requires
            store.wf(),
            param_fits(*p, store.items@.len() as int),
        ensures
            r == is_unused(self@, store.items@, path@, *p),
    {
        let h: usize = match p.actual_value {
            None => return false,
            Some(h) => h,
        };
        if p.is_config {
            return false;
        }
        let ids = collect_net_ids_from_value(store, h);
        if ids.len() == 0 {
            return false;
        }
        let mut i: usize = 0;
        while i < ids.len()
            invariant
                i <= ids@.len(),
                forall|k: int| 0 <= k < i ==> !is_used(self@, #[trigger] ids@[k], path@),
                p.actual_value == Some(h),
                ids@ == net_ids(store.items@, h),
            decreases ids@.len() - i,
        {
            if self.is_net_used(ids[i], path) {
                proof {
                    assert(is_used(self@, ids@[i as int], path@));
                }
                return false;
            }
            i += 1;
        }
        true
    }

    /// The notes for the parameters of modules that hold nets and are on no port.
    pub fn diagnose_unused_module_io(&self, store: &Store, modules: &Vec<ModuleValue>) -> (r: Vec<
        FileNotice,
    >)
        requires
            store.wf(),
            are_modules(modules@, store.items@),
        ensures
            file_notices(r@) == unused_io(self@, store.items@, modules@),
    {
        let ghost items = store.items@;
        let ghost all = modules@;
        let mut out: Vec<FileNotice> = Vec::new();
        let mut i: usize = 0;
        proof {
            assert(all.take(0) =~= Seq::<ModuleValue>::empty());
            assert(file_notices(out@) =~= Seq::<(Seq<char>, NoticeView)>::empty());
        }
        while i < modules.len()
            invariant
                i <= modules@.len(),
                all == modules@,
                items == store.items@,
                store.wf(),
                are_modules(all, items),
                file_notices(out@) == unused_io(self@, items, all.take(i as int)),
            decreases modules@.len() - i,
        {
            let v = &modules[i];
            let ghost ps = v.signature@;
            let ghost first = file_notices(out@);
            let mut j: usize = 0;
            proof {
                assert(is_module(all[i as int], items));
                assert(ps.take(0) =~= Seq::<ModuleParam>::empty());
                assert(first + Seq::<(Seq<char>, NoticeView)>::empty() =~= first);
            }
            while j < v.signature.len()
                invariant
                    j <= v.signature@.len(),
                    i < modules@.len(),
                    v == modules@[i as int],
                    ps == v.signature@,
                    items == store.items@,
                    store.wf(),
                    is_module(*v, items),
                    file_notices(out@) == first + unused_params(
                        self@,
                        items,
                        *v,
                        ps.take(j as int),
                    ),
                decreases v.signature@.len() - j,
            {
                let p = &v.signature[j];
                proof {
                    assert(ps.take(j + 1).drop_last() =~= ps.take(j as int));
                    assert(ps.take(j + 1).last() == ps[j as int]);
                    assert(param_fits(v.signature@[j as int], items.len() as int));
                }
                if self.is_param_unused(store, &v.path, p) {
                    let n = unused_param_notice(v, p);
                    let ghost prior = file_notices(out@);
                    let ghost said = unused_params(self@, items, *v, ps.take(j as int));
                    let ghost view = (n.path@, n.notice@);
                    out.push(n);
                    proof {
                        assert(file_notices(out@) =~= prior.push(view));
                        assert((first + said).push(view) =~= first + said.push(view));
                    }
                }
                j += 1;
            }
            proof {
                assert(ps.take(ps.len() as int) =~= ps);
                assert(all.take(i + 1).drop_last() =~= all.take(i as int));
                assert(all.take(i + 1).last() == all[i as int]);
            }
            i += 1;
        }
        proof {
            assert(all.take(all.len() as int) =~= all);
        }
        out
    }
}

/// The note for a parameter that is on no port.
fn unused_param_notice(v: &ModuleValue, p: &ModuleParam) -> (r: FileNotice)
    ensures
        (r.path@, r.notice@) == unused_notice(*v, *p),
{
    let path = match &p.declaration_path {
        Some(s) => s.clone(),
        None => v.source_path.clone(),
    };
    proof {
        assert(v.path@.len() == v.path.segments@.len());
    }
    let mut message = "io() '".to_owned();
    message.append(p.name.as_str());
    if v.path.segments.len() == 0 {
        message.append("' is not connected to any ports");
    } else {
        message.append("' in module '");
        let shown = join(&v.path.segments, ".");
        message.append(shown.as_str());
        message.append("' is not connected to any ports");
    }
    FileNotice {
        path,
        notice: Notice {
            message,
            kind: "module.io.unused".to_owned(),
            severity: Severity::Warning,
        },
    }
}

/// What a schematic says of a component, for the bill of materials.
pub struct BomEntry {
    /// The designator, where the component has one.
    pub designator: Option<String>,
    pub name: String,
    pub source_path: String,
    pub dnp: bool,
    pub skip_bom: bool,
    pub has_part: bool,
    pub bom_mpn: Option<String>,
    pub component_type: Option<String>,
    pub connector_type: Option<String>,
}

/// The types of components that a house part can be found for.
pub open spec fn house_types() -> Seq<Seq<char>> {
    seq![
        "resistor"@,
        "capacitor"@,
        "led"@,
        "ferrite_bead"@,
        "inductor"@,
        "rectifier"@,
        "zener"@,
        "tvs"@,
        "crystal"@,
    ]
}

/// Whether a house part can be found for a component.
pub open spec fn is_house_part(component_type: Option<Seq<char>>, connector_type: Option<Seq<char>>) -> bool {
    match component_type {
        None => false,
        Some(t) => house_types().contains(t) || (t == "connector"@ && match connector_type {
            Some(c) => lowered(c) == lowered("pin header"@) || lowered(c) == lowered(
                "terminal block"@,
            ),
            None => false,
        }),
    }
}

/// Whether a house part can be found for a component.
pub fn is_house_bom_match_eligible(component_type: Option<&str>, connector_type: Option<&str>) -> (r: bool)
    ensures
        r == is_house_part(opt_str(component_type), opt_str(connector_type)),
{
    let t: &str = match component_type {
        None => return false,
        Some(t) => t,
    };
    let mut table: Vec<String> = Vec::new();
    table.push("resistor".to_owned());
    table.push("capacitor".to_owned());
    table.push("led".to_owned());
    table.push("ferrite_bead".to_owned());
    table.push("inductor".to_owned());
    table.push("rectifier".to_owned());
    table.push("zener".to_owned());
    table.push("tvs".to_owned());
    table.push("crystal".to_owned());
    proof {
        assert(texts(table@) =~= house_types());
    }
    if crate::text::contains_text(&table, t) {
        return true;
    }
    if !same(t, "connector") {
        return false;
    }
    match connector_type {
        Some(c) => same_ignoring_case(c, "pin header") || same_ignoring_case(c, "terminal block"),
        None => false,
    }
}

/// The note for a component that lacks a part, if any.
pub open spec fn missing_part(e: BomEntry) -> Option<(Seq<char>, NoticeView)> {
    let name = match e.designator {
        Some(d) => d@,
        None => e.name@,
    };
    if e.dnp || e.skip_bom || e.has_part {
        None
    } else if e.bom_mpn is Some {
        Some(
            (
                e.source_path@,
                NoticeView {
                    message: "Component '"@ + name
                        + "' is included in the BOM but is missing manufacturer information. Specify `part=Part(...)`."@,
                    kind: "bom.underspecified"@,
                    severity: Severity::Error,
                },
            ),
        )
    } else if is_house_part(opt_text(e.component_type), opt_text(e.connector_type)) {
        None
    } else {
        Some(
            (
                e.source_path@,
                NoticeView {
                    message: "Component '"@ + name
                        + "' is included in the BOM but is missing part information. Specify `part=Part(...)`."@,
                    kind: "bom.unspecified"@,
                    severity: Severity::Error,
                },
            ),
        )
    }
}

/// The notes for components that lack a part.
pub open spec fn missing_parts(v: Seq<BomEntry>) -> Seq<(Seq<char>, NoticeView)>
    decreases v.len(),
{
    if v.len() == 0 {
        Seq::<(Seq<char>, NoticeView)>::empty()
    } else {
        let r = missing_parts(v.drop_last());
        match missing_part(v.last()) {
            Some(n) => r.push(n),
            None => r,
        }
    }
}

/// The note for a component that lacks a part, if any.
fn missing_part_notice(e: &BomEntry) -> (r: Option<FileNotice>)
    ensures
        match (r, missing_part(*e)) {
            (Some(n), Some(v)) => (n.path@, n.notice@) == v,
            (None, None) => true,
            _ => false,
        },
{
    if e.dnp || e.skip_bom || e.has_part {
        return None;
    }
    let name: &str = match &e.designator {
        Some(d) => d.as_str(),
        None => e.name.as_str(),
    };
    let mut message = "Component '".to_owned();
    message.append(name);
    let kind = if e.bom_mpn.is_some() {
        message.append(
            "' is included in the BOM but is missing manufacturer information. Specify `part=Part(...)`.",
        );
        "bom.underspecified"
    } else if is_house_bom_match_eligible(
        as_opt_str(&e.component_type),
        as_opt_str(&e.connector_type),
    ) {
        return None;
    } else {
        message.append(
            "' is included in the BOM but is missing part information. Specify `part=Part(...)`.",
        );
        "bom.unspecified"
    };
    Some(
        FileNotice {
            path: e.source_path.clone(),
            notice: Notice { message, kind: kind.to_owned(), severity: Severity::Error },
        },
    )
}

/// The notes for components of the bill of materials that lack a part.
pub fn diagnose_missing_bom_part_components(v: &Vec<BomEntry>) -> (r: Vec<FileNotice>)
    ensures
        file_notices(r@) == missing_parts(v@),
{
    let ghost all = v@;
    let mut out: Vec<FileNotice> = Vec::new();
    let mut i: usize = 0;
    proof {
        assert(all.take(0) =~= Seq::<BomEntry>::empty());
        assert(file_notices(out@) =~= Seq::<(Seq<char>, NoticeView)>::empty());
    }
    while i < v.len()
        invariant
            i <= v@.len(),
            all == v@,
            file_notices(out@) == missing_parts(all.take(i as int)),
        decreases v@.len() - i,
    {
        proof {
            assert(all.take(i + 1).drop_last() =~= all.take(i as int));
            assert(all.take(i + 1).last() == all[i as int]);
        }
        if let Some(n) = missing_part_notice(&v[i]) {
            let ghost prior = file_notices(out@);
            let ghost view = (n.path@, n.notice@);
            out.push(n);
            proof {
                assert(file_notices(out@) =~= prior.push(view));
            }
        }
        i += 1;
    }
    proof {
        assert(all.take(all.len() as int) =~= all);
    }
    out
}

/// A port by the designator of its component and the name of its pin.
pub struct PortLabel {
    pub designator: String,
    pub pin: String,
}

impl View for PortLabel {
    type V = (Seq<char>, Seq<char>);

    open spec fn view(&self) -> (Seq<char>, Seq<char>) {
        (self.designator@, self.pin@)
    }
}

/// Whether a port comes strictly before another: by designator, then by pin.
pub open spec fn label_before(a: (Seq<char>, Seq<char>), b: (Seq<char>, Seq<char>)) -> bool {
    text_before(a.0, b.0) || (a.0 == b.0 && text_before(a.1, b.1))
}

impl crate::map::Key for PortLabel {
    open spec fn before(a: (Seq<char>, Seq<char>), b: (Seq<char>, Seq<char>)) -> bool {
        label_before(a, b)
    }

    proof fn irreflexive(a: (Seq<char>, Seq<char>)) {
        lemma_text_before_irreflexive(a.0);
        lemma_text_before_irreflexive(a.1);
    }

    proof fn transitive(
        a: (Seq<char>, Seq<char>),
        b: (Seq<char>, Seq<char>),
        c: (Seq<char>, Seq<char>),
    ) {
        if text_before(a.0, b.0) && text_before(b.0, c.0) {
            lemma_text_before_transitive(a.0, b.0, c.0);
        }
        if text_before(a.1, b.1) && text_before(b.1, c.1) {
            lemma_text_before_transitive(a.1, b.1, c.1);
        }
    }

    proof fn total(a: (Seq<char>, Seq<char>), b: (Seq<char>, Seq<char>)) {
        lemma_text_before_total(a.0, b.0);
        lemma_text_before_total(a.1, b.1);
    }

    fn precedes(&self, other: &Self) -> (r: bool) {
        is_before(self.designator.as_str(), other.designator.as_str()) || (same(
            self.designator.as_str(),
            other.designator.as_str(),
        ) && is_before(self.pin.as_str(), other.pin.as_str()))
    }

    fn equals(&self, other: &Self) -> (r: bool) {
        same(self.designator.as_str(), other.designator.as_str()) && same(
            self.pin.as_str(),
            other.pin.as_str(),
        )
    }
}

/// Whether a list holds ports in order, each once, and those of another list alone.
pub open spec fn lists(l: Seq<(Seq<char>, Seq<char>)>, ports: Seq<PortLabel>) -> bool {
    &&& forall|i: int, j: int| 0 <= i < j < l.len() ==> label_before(#[trigger] l[i], #[trigger] l[j])
    &&& forall|q: (Seq<char>, Seq<char>)| #[trigger] l.contains(q) <==> exists|i: int|
        0 <= i < ports.len() && (#[trigger] ports[i])@ == q
}

/// The first ports of a list, as `designator.pin`.
pub open spec fn port_texts(l: Seq<(Seq<char>, Seq<char>)>) -> Seq<Seq<char>> {
    Seq::new(
        if l.len() <= 8 {
            l.len()
        } else {
            8
        },
        |i: int| l[i].0 + "."@ + l[i].1,
    )
}

/// The note for an open net that is on several ports.
pub open spec fn multi_port(l: Seq<(Seq<char>, Seq<char>)>) -> Option<NoticeView> {
    if l.len() <= 1 {
        None
    } else {
        Some(
            NoticeView {
                message: "NotConnected net connects to "@ + decimal(l.len()) + " ports: "@ + joined(
                    port_texts(l),
                    ", "@,
                ) + (if l.len() <= 8 {
                    Seq::<char>::empty()
                } else {
                    ", … (+"@ + decimal((l.len() - 8) as nat) + " more)"@
                })
                    + ". NotConnected nets should connect to at most one port."@,
                kind: "net.notconnected.multi_port"@,
                severity: Severity::Warning,
            },
        )
    }
}

/// The contents of an optional note.
pub open spec fn opt_notice(o: Option<Notice>) -> Option<NoticeView> {
    match o {
        Some(n) => Some(n@),
        None => None,
    }
}

/// The note for an open net that is on several ports. A port that is listed twice counts once.
pub fn diagnose_not_connected_multi_port(ports: Vec<PortLabel>) -> (r: Option<Notice>)
    ensures
        exists|l: Seq<(Seq<char>, Seq<char>)>|
            #[trigger] lists(l, ports@) && opt_notice(r) == multi_port(l),
{
    let ghost all = ports@;
    let mut rest = ports;
    let mut set: SortedMap<PortLabel, bool> = SortedMap::new();
    let n: usize = rest.len();
    let mut i: usize = 0;
    proof {
        assert(all.skip(0) =~= all);
    }
    while i < n
        invariant
            i <= n,
            n == all.len(),
            rest@ == all.skip(i as int),
            set.wf(),
            forall|q: (Seq<char>, Seq<char>)|
                find(set.entries@, q) is Some <==> exists|k: int|
                    0 <= k < i && (#[trigger] all[k])@ == q,
        decreases n - i,
    {
        let p = rest.remove(0);
        let ghost before = set.entries@;
        proof {
            assert(p == all[i as int]);
            assert(rest@ =~= all.skip(i + 1));
        }
        let ghost label = p@;
        set.insert(p, true);
        proof {
            assert forall|q: (Seq<char>, Seq<char>)|
                find(set.entries@, q) is Some <==> exists|k: int|
                    0 <= k < i + 1 && (#[trigger] all[k])@ == q by {
                if find(set.entries@, q) is Some {
                    if q == label {
                        assert(all[i as int]@ == q);
                    } else {
                        assert(find(before, q) is Some);
                    }
                }
                if exists|k: int| 0 <= k < i + 1 && (#[trigger] all[k])@ == q {
                    let k = choose|k: int| 0 <= k < i + 1 && (#[trigger] all[k])@ == q;
                    if k < i {
                        assert(find(before, q) is Some);
                    }
                }
            }
        }
        i += 1;
    }
    let ghost l = keys_of(set.entries@);
    proof {
        let s = set.entries@;
        assert forall|q: (Seq<char>, Seq<char>)| #[trigger] l.contains(q) <==> exists|i: int|
            0 <= i < all.len() && (#[trigger] all[i])@ == q by {
            lemma_slot(s, q);
            if l.contains(q) {
                let k = choose|k: int| 0 <= k < l.len() && l[k] == q;
                crate::map::lemma_slot_at(s, k);
                assert(find(s, q) is Some);
            }
            if find(s, q) is Some {
                assert(l[slot(s, q)] == q);
            }
        }
        assert(lists(l, all));
    }
    let count: usize = set.len();
    if count <= 1 {
        return None;
    }
    let mut list: Vec<String> = Vec::new();
    let mut k: usize = 0;
    while k < count && k < 8
        invariant
            k <= count,
            k <= 8,
            count == set.entries@.len(),
            l == keys_of(set.entries@),
            list@.len() == k,
            forall|j: int| 0 <= j < k ==> (#[trigger] list@[j])@ == l[j].0 + "."@ + l[j].1,
        decreases count - k,
    {
        let label = set.key_at(k);
        proof {
            assert(l[k as int] == label@);
        }
        let mut s = label.designator.clone();
        s.append(".");
        s.append(label.pin.as_str());
        list.push(s);
        k += 1;
    }
    proof {
        assert(texts(list@) =~= port_texts(l));
    }
    let mut message = "NotConnected net connects to ".to_owned();
    let total = to_decimal(count as u64);
    message.append(total.as_str());
    message.append(" ports: ");
    let shown = join(&list, ", ");
    message.append(shown.as_str());
    let ghost so_far = message@;
    if count > 8 {
        let mut suffix = ", … (+".to_owned();
        let more = to_decimal((count - 8) as u64);
        suffix.append(more.as_str());
        suffix.append(" more)");
        message.append(suffix.as_str());
    } else {
        proof {
            assert(so_far + Seq::<char>::empty() =~= so_far);
        }
    }
    message.append(". NotConnected nets should connect to at most one port.");
    let r = Notice {
        message,
        kind: "net.notconnected.multi_port".to_owned(),
        severity: Severity::Warning,
    };
    proof {
        assert(opt_notice(Some(r)) == multi_port(l));
    }
    Some(r)
}

// ---------------------------------------------------------------------------------------------
// Moved paths

/// The number of names in a path.
pub open spec fn depth(path: Seq<char>) -> nat {
    pieces(path, '.').len()
}

/// The number of names in a path.
pub fn path_depth(path: &str) -> (r: usize)
    ensures
        r == depth(path@),
        r >= 1,
{
    let v = split_on(path, '.');
    proof {
        assert(texts(v@).len() == v@.len());
    }
    v.len()
}

/// Whether one of two paths is a direct child.
pub fn is_valid_moved_depth(old_path: &str, new_path: &str) -> (r: bool)
    ensures
        r == (depth(old_path@) == 1 || depth(new_path@) == 1),
{
    path_depth(old_path) == 1 || path_depth(new_path) == 1
}

/// What is wrong with a directive.
pub enum MovedFault {
    InvalidDepth,
    OldPathExists,
    NewPathMissing,
}

/// A warning about a directive.
pub struct MovedNotice {
    pub fault: MovedFault,
    pub source_path: String,
    pub old_path: String,
    pub new_path: String,
}

/// The contents of a warning about a directive.
pub struct MovedNoticeView {
    pub fault: MovedFault,
    pub source_path: Seq<char>,
    pub old_path: Seq<char>,
    pub new_path: Seq<char>,
}

impl View for MovedNotice {
    type V = MovedNoticeView;

    open spec fn view(&self) -> MovedNoticeView {
        MovedNoticeView {
            fault: self.fault,
            source_path: self.source_path@,
            old_path: self.old_path@,
            new_path: self.new_path@,
        }
    }
}

/// The contents of a list of warnings.
pub open spec fn moved_notices(v: Seq<MovedNotice>) -> Seq<MovedNoticeView> {
    Seq::new(v.len(), |i: int| v[i]@)
}

/// The note that a warning becomes.
pub open spec fn moved_text(n: MovedNoticeView) -> NoticeView {
    match n.fault {
        MovedFault::InvalidDepth => NoticeView {
            message: "moved(\""@ + n.old_path + "\", \""@ + n.new_path
                + "\"): at least one path must be a direct child (no dots; depth 1), but got depths "@
                + decimal(depth(n.old_path)) + " and "@ + decimal(depth(n.new_path)),
            kind: "moved.invalid_depth"@,
            severity: Severity::Warning,
        },
        MovedFault::OldPathExists => NoticeView {
            message: "moved() references path '"@ + n.old_path + "' that still exists."@,
            kind: "moved.old_path_exists"@,
            severity: Severity::Warning,
        },
        MovedFault::NewPathMissing => NoticeView {
            message: "moved() references path '"@ + n.new_path + "' that doesn't exist."@,
            kind: "moved.new_path_missing"@,
            severity: Severity::Warning,
        },
    }
}

impl MovedNotice {
    /// The note that the warning becomes.
    pub fn notice(&self) -> (r: Notice)
        ensures
            r@ == moved_text(self@),
    {
        match self.fault {
            MovedFault::InvalidDepth => {
                let mut message = "moved(\"".to_owned();
                message.append(self.old_path.as_str());
                message.append("\", \"");
                message.append(self.new_path.as_str());
                message.append(
                    "\"): at least one path must be a direct child (no dots; depth 1), but got depths ",
                );
                let a = to_decimal(path_depth(self.old_path.as_str()) as u64);
                message.append(a.as_str());
                message.append(" and ");
                let b = to_decimal(path_depth(self.new_path.as_str()) as u64);
                message.append(b.as_str());
                Notice {
                    message,
                    kind: "moved.invalid_depth".to_owned(),
                    severity: Severity::Warning,
                }
            },
            MovedFault::OldPathExists => {
                let mut message = "moved() references path '".to_owned();
                message.append(self.old_path.as_str());
                message.append("' that still exists.");
                Notice {
                    message,
                    kind: "moved.old_path_exists".to_owned(),
                    severity: Severity::Warning,
                }
            },
            MovedFault::NewPathMissing => {
                let mut message = "moved() references path '".to_owned();
                message.append(self.new_path.as_str());
                message.append("' that doesn't exist.");
                Notice {
                    message,
                    kind: "moved.new_path_missing".to_owned(),
                    severity: Severity::Warning,
                }
            },
        }
    }
}

/// What is wrong with a directive, if anything; a directive that was made by the machine may be out
/// of date without a word.
pub open spec fn moved_fault(
    d: MovedDirective,
    prefix: Seq<char>,
    existing: Seq<Seq<char>>,
) -> Option<MovedFault> {
    if d.auto_generated {
        None
    } else if depth(d.old_path@) != 1 && depth(d.new_path@) != 1 {
        Some(MovedFault::InvalidDepth)
    } else if existing.contains(scoped(prefix, d.old_path@)) {
        Some(MovedFault::OldPathExists)
    } else if !existing.contains(scoped(prefix, d.new_path@)) {
        Some(MovedFault::NewPathMissing)
    } else {
        None
    }
}

/// Whether a directive is kept.
pub open spec fn is_moved(d: MovedDirective, prefix: Seq<char>, existing: Seq<Seq<char>>) -> bool {
    if d.auto_generated {
        existing.contains(scoped(prefix, d.new_path@))
    } else {
        moved_fault(d, prefix, existing) is None
    }
}

/// The directives of a module that are kept, and the warnings about the others.
pub open spec fn moved_in(
    v: Seq<MovedDirective>,
    prefix: Seq<char>,
    source_path: Seq<char>,
    existing: Seq<Seq<char>>,
    kept: Map<Seq<char>, Seq<char>>,
    said: Seq<MovedNoticeView>,
) -> (Map<Seq<char>, Seq<char>>, Seq<MovedNoticeView>)
    decreases v.len(),
{
    if v.len() == 0 {
        (kept, said)
    } else {
        let (k, s) = moved_in(v.drop_last(), prefix, source_path, existing, kept, said);
        let d = v.last();
        (
            if is_moved(d, prefix, existing) {
                k.insert(scoped(prefix, d.old_path@), scoped(prefix, d.new_path@))
            } else {
                k
            },
            match moved_fault(d, prefix, existing) {
                Some(fault) => s.push(
                    MovedNoticeView {
                        fault,
                        source_path,
                        old_path: d.old_path@,
                        new_path: d.new_path@,
                    },
                ),
                None => s,
            },
        )
    }
}

/// The directives of modules that are kept, and the warnings about the others.
pub open spec fn all_moved(v: Seq<ModuleValue>, existing: Seq<Seq<char>>) -> (
    Map<Seq<char>, Seq<char>>,
    Seq<MovedNoticeView>,
)
    decreases v.len(),
{
    if v.len() == 0 {
        (Map::empty(), Seq::<MovedNoticeView>::empty())
    } else {
        let (k, s) = all_moved(v.drop_last(), existing);
        moved_in(
            v.last().moved_directives@,
            joined(v.last().path@, "."@),
            v.last().source_path@,
            existing,
            k,
            s,
        )
    }
}

/// Keeps the directives that hold, `existing` being the paths of the schematic, and warns about the
/// others.
pub fn validate_and_filter_moved_directives(modules: &Vec<ModuleValue>, existing: &Vec<String>) -> (r: (
    SortedMap<String, String>,
    Vec<MovedNotice>,
))
    ensures
        r.0.wf(),
        (viewed(r.0@), moved_notices(r.1@)) == all_moved(modules@, texts(existing@)),
{
    let ghost all = modules@;
    let ghost paths = texts(existing@);
    let mut kept: SortedMap<String, String> = SortedMap::new();
    let mut said: Vec<MovedNotice> = Vec::new();
    let mut i: usize = 0;
    proof {
        assert(all.take(0) =~= Seq::<ModuleValue>::empty());
        assert(viewed(kept@) =~= Map::<Seq<char>, Seq<char>>::empty());
        assert(moved_notices(said@) =~= Seq::<MovedNoticeView>::empty());
    }
    while i < modules.len()
        invariant
            i <= modules@.len(),
            all == modules@,
            paths == texts(existing@),
            kept.wf(),
            (viewed(kept@), moved_notices(said@)) == all_moved(all.take(i as int), paths),
        decreases modules@.len() - i,
    {
        let v = &modules[i];
        let prefix = join(&v.path.segments, ".");
        let ghost ds = v.moved_directives@;
        let ghost k0 = viewed(kept@);
        let ghost s0 = moved_notices(said@);
        let mut j: usize = 0;
        proof {
            assert(ds.take(0) =~= Seq::<MovedDirective>::empty());
        }
        while j < v.moved_directives.len()
            invariant
                j <= v.moved_directives@.len(),
                i < modules@.len(),
                v == modules@[i as int],
                ds == v.moved_directives@,
                paths == texts(existing@),
                kept.wf(),
                (viewed(kept@), moved_notices(said@)) == moved_in(
                    ds.take(j as int),
                    prefix@,
                    v.source_path@,
                    paths,
                    k0,
                    s0,
                ),
            decreases v.moved_directives@.len() - j,
        {
            let d = &v.moved_directives[j];
            proof {
                assert(ds.take(j + 1).drop_last() =~= ds.take(j as int));
                assert(ds.take(j + 1).last() == ds[j as int]);
            }
            let old_scoped = scoped_path(prefix.as_str(), d.old_path.as_str());
            let new_scoped = scoped_path(prefix.as_str(), d.new_path.as_str());
            let new_exists = contains_text(existing, new_scoped.as_str());
            let fault: Option<MovedFault> = if d.auto_generated {
                None
            } else if !is_valid_moved_depth(d.old_path.as_str(), d.new_path.as_str()) {
                Some(MovedFault::InvalidDepth)
            } else if contains_text(existing, old_scoped.as_str()) {
                Some(MovedFault::OldPathExists)
            } else if !new_exists {
                Some(MovedFault::NewPathMissing)
            } else {
                None
            };
            let keep = if d.auto_generated {
                new_exists
            } else {
                fault.is_none()
            };
            if keep {
                proof {
                    lemma_viewed_insert(kept@, old_scoped@, new_scoped);
                }
                kept.insert(old_scoped, new_scoped);
            }
            if let Some(fault) = fault {
                let n = MovedNotice {
                    fault,
                    source_path: v.source_path.clone(),
                    old_path: d.old_path.clone(),
                    new_path: d.new_path.clone(),
                };
                let ghost prior = moved_notices(said@);
                let ghost view = n@;
                said.push(n);
                proof {
                    assert(moved_notices(said@) =~= prior.push(view));
                }
            }
            j += 1;
        }
        proof {
            assert(ds.take(ds.len() as int) =~= ds);
            assert(all.take(i + 1).drop_last() =~= all.take(i as int));
            assert(all.take(i + 1).last() == all[i as int]);
        }
        i += 1;
    }
    proof {
        assert(all.take(all.len() as int) =~= all);
    }
    (kept, said)
}

/// Moved paths with the aliases of nets that they lack.
pub open spec fn with_aliases(
    moved: Map<Seq<char>, Seq<char>>,
    aliases: Map<Seq<char>, Seq<char>>,
) -> Map<Seq<char>, Seq<char>> {
    Map::new(
        |k: Seq<char>| moved.dom().contains(k) || aliases.dom().contains(k),
        |k: Seq<char>|
            if moved.dom().contains(k) {
                moved[k]
            } else {
                aliases[k]
            },
    )
}

impl ModuleConverter {
    /// The paths that were moved: those that directives name, and the aliases of nets.
    pub fn moved_paths(&self, filtered: SortedMap<String, String>) -> (r: SortedMap<String, String>)
        requires
            self.wf(),
            filtered.wf(),
        ensures
            r.wf(),
            viewed(r@) == with_aliases(viewed(filtered@), self@.aliases),
    {
        let ghost moved = filtered@;
        let ghost entries = self.net_name_aliases.entries@;
        let ghost aliases = self.net_name_aliases@;
        let mut out = filtered;
        let n = self.net_name_aliases.len();
        let mut i: usize = 0;
        while i < n
            invariant
                i <= n,
                n == entries.len(),
                entries == self.net_name_aliases.entries@,
                self.net_name_aliases.wf(),
                out.wf(),
                forall|q: Seq<char>| #[trigger] out@.dom().contains(q) <==> moved.dom().contains(q) || 0
                    <= slot(entries, q) < i,
                forall|q: Seq<char>| #[trigger]
                    moved.dom().contains(q) ==> out@[q]@ == moved[q]@,
                forall|q: Seq<char>|
                    !(#[trigger] moved.dom().contains(q)) && 0 <= slot(entries, q) < i ==> out@[q]@
                        == entries[slot(entries, q)].1@,
            decreases n - i,
        {
            let key = self.net_name_aliases.key_at(i);
            proof {
                crate::map::lemma_slot_at(entries, i as int);
            }
            let ghost before = out@;
            if !out.contains_key(key) {
                let value = self.net_name_aliases.value_at(i).clone();
                out.insert(key.clone(), value);
            }
            proof {
                assert forall|q: Seq<char>| #[trigger]
                    out@.dom().contains(q) <==> moved.dom().contains(q) || 0 <= slot(entries, q) < i
                        + 1 by {
                    lemma_slot(entries, q);
                    if slot(entries, q) == i {
                        assert(entries[i as int].0@ == q);
                    }
                    assert(before.dom().contains(q) <==> moved.dom().contains(q) || 0 <= slot(
                        entries,
                        q,
                    ) < i);
                }
                assert forall|q: Seq<char>|
                    !(#[trigger] moved.dom().contains(q)) && 0 <= slot(entries, q) < i
                        + 1 implies out@[q]@ == entries[slot(entries, q)].1@ by {
                    lemma_slot(entries, q);
                    if slot(entries, q) < i {
                        assert(entries[slot(entries, q)].0@ == q);
                        assert(before.dom().contains(q));
                    }
                }
            }
            i += 1;
        }
        proof {
            let a = viewed(out@);
            let b = with_aliases(viewed(moved), viewed(aliases));
            assert forall|q: Seq<char>| #[trigger] a.dom().contains(q) <==> b.dom().contains(q) by {
                lemma_slot(entries, q);
                assert(out@.dom().contains(q) <==> moved.dom().contains(q) || 0 <= slot(entries, q)
                    < n);
                assert(aliases.dom().contains(q) <==> find(entries, q) is Some);
            }
            assert forall|q: Seq<char>| #[trigger] a.dom().contains(q) implies a[q] == b[q] by {
                lemma_slot(entries, q);
                assert(out@.dom().contains(q) <==> moved.dom().contains(q) || 0 <= slot(entries, q)
                    < n);
                if !moved.dom().contains(q) {
                    assert(find(entries, q) == Some(entries[slot(entries, q)].1));
                }
            }
            assert(a =~= b);
        }
        out
    }
}

// ---------------------------------------------------------------------------------------------
// Positions

/// The instance that names lead to from an instance, child by child.
pub open spec fn walked(m: Model, path: Seq<Seq<char>>, names: Seq<Seq<char>>) -> Option<Seq<Seq<char>>>
    decreases names.len(),
{
    if names.len() == 0 {
        Some(path)
    } else {
        match walked(m, path, names.drop_last()) {
            None => None,
            Some(at) => if m.instances.dom().contains(at) && m.instances[at].children.dom().contains(
                names.last(),
            ) {
                Some(m.instances[at].children[names.last()])
            } else {
                None
            },
        }
    }
}

/// The module that names lead to from an instance, by way of modules alone.
pub open spec fn walked_modules(m: Model, path: Seq<Seq<char>>, names: Seq<Seq<char>>) -> Option<
    Seq<Seq<char>>,
>
    decreases names.len(),
{
    if names.len() == 0 {
        Some(path)
    } else {
        match walked_modules(m, path, names.drop_last()) {
            None => None,
            Some(at) => match walked(m, at, seq![names.last()]) {
                None => None,
                Some(child) => if m.instances.dom().contains(child) && m.instances[child].kind
                    == InstanceKind::Module {
                    Some(child)
                } else {
                    None
                },
            },
        }
    }
}

proof fn lemma_walked_fails(m: Model, path: Seq<Seq<char>>, names: Seq<Seq<char>>, k: int)
    requires
        0 <= k <= names.len(),
        walked(m, path, names.take(k)) is None,
    ensures
        walked(m, path, names) is None,
    decreases names.len(),
{
    if k == names.len() {
        assert(names.take(k) =~= names);
    } else {
        assert(names.drop_last().take(k) =~= names.take(k));
        lemma_walked_fails(m, path, names.drop_last(), k);
    }
}

/// Whether a key names an instance inside another; what follows an `@` does not count.
pub open spec fn names_instance(m: Model, path: Seq<Seq<char>>, key: Seq<char>) -> bool {
    match walked(m, path, pieces(before_first(key, '@'), '.')) {
        Some(at) => m.instances.dom().contains(at),
        None => false,
    }
}

/// Whether a net goes by a name.
pub open spec fn is_net_name(m: Model, name: Seq<char>) -> bool {
    exists|id: u64| #[trigger] m.nets.dom().contains(id) && m.nets[id].name == Some(name)
}

/// The names of the fields that lead to the first net of a name in a value.
pub open spec fn field_path(items: Seq<Item>, h: usize, name: Seq<char>) -> Option<Seq<Seq<char>>>
    decreases h, 1int, 0int,
{
    match items[h as int] {
        Item::Net(n) => if resolved_name(n@) == name {
            Some(Seq::<Seq<char>>::empty())
        } else {
            None
        },
        Item::Interface(v) => field_path_in(items, h, handles_in(v.fields), name),
        _ => None,
    }
}

/// The names of the fields that lead to the first net of a name in fields.
pub open spec fn field_path_in(
    items: Seq<Item>,
    h: usize,
    f: Seq<(Seq<char>, usize)>,
    name: Seq<char>,
) -> Option<Seq<Seq<char>>>
    decreases h, 0int, f.len(),
{
    if f.len() == 0 {
        None
    } else {
        let here = if f[0].1 < h {
            field_path(items, f[0].1, name)
        } else {
            None
        };
        match here {
            Some(p) => Some(seq![f[0].0] + p),
            None => field_path_in(items, h, f.skip(1), name),
        }
    }
}

/// Finds the names of the fields that lead to the first net of a name in a value.
fn find_net_field_path(store: &Store, h: usize, name: &str) -> (r: Option<Vec<String>>)
    requires
        store.wf(),
        h < store.items@.len(),
    ensures
        match (r, field_path(store.items@, h, name@)) {
            (Some(v), Some(p)) => texts(v@) == p,
            (None, None) => true,
            _ => false,
        },
    decreases h,
{
    let ghost items = store.items@;
    proof {
        assert(refers_below(items[h as int], h as int));
    }
    match &store.items[h] {
        Item::Net(n) => {
            if same(n.name(), name) {
                let out: Vec<String> = Vec::new();
                proof {
                    assert(texts(out@) =~= Seq::<Seq<char>>::empty());
                }
                Some(out)
            } else {
                None
            }
        },
        Item::Interface(v) => {
            let ghost f = handles_in(v.fields);
            let n = count_handles(&v.fields);
            let mut k: usize = 0;
            proof {
                assert(f.skip(0) =~= f);
            }
            while k < n
                invariant
                    k <= n,
                    n == f.len(),
                    f == handles_in(v.fields),
                    items == store.items@,
                    store.wf(),
                    h < items.len(),
                    items[h as int] == Item::Interface(*v),
                    all_below(f, h as int),
                    field_path(items, h, name@) == field_path_in(items, h, f, name@),
                    field_path_in(items, h, f, name@) == field_path_in(
                        items,
                        h,
                        f.skip(k as int),
                        name@,
                    ),
                decreases n - k,
            {
                if let Some((field, child)) = handle_at(&v.fields, k) {
                    proof {
                        assert(f[k as int] == (field@, child));
                        assert(f.skip(k as int)[0] == f[k as int]);
                        assert(f.skip(k as int).skip(1) =~= f.skip(k + 1));
                    }
                    if let Some(rest) = find_net_field_path(store, child, name) {
                        let mut out: Vec<String> = Vec::new();
                        out.push(field.to_owned());
                        let ghost tail = texts(rest@);
                        let mut rest = rest;
                        out.append(&mut rest);
                        proof {
                            assert(texts(out@) =~= seq![field@] + tail);
                        }
                        return Some(out);
                    }
                }
                k += 1;
            }
            proof {
                assert(f.skip(f.len() as int) =~= Seq::<(Seq<char>, usize)>::empty());
            }
            None
        },
        _ => None,
    }
}

/// The number of the net that names of fields lead to in a value.
pub open spec fn net_along(items: Seq<Item>, h: usize, path: Seq<Seq<char>>) -> Option<u64>
    decreases path.len(),
{
    if path.len() == 0 {
        match net_of(items[h as int]) {
            Some(n) => Some(n.net_id),
            None => None,
        }
    } else {
        match items[h as int] {
            Item::Interface(v) => match under(handles_in(v.fields), path[0]) {
                Some(child) => net_along(items, child, path.skip(1)),
                None => None,
            },
            _ => None,
        }
    }
}

/// Finds the number of the net that names of fields lead to in a value.
fn resolve_net_id_along_path(store: &Store, h: usize, path: &Vec<String>) -> (r: Option<u64>)
    requires
        store.wf(),
        h < store.items@.len(),
    ensures
        r == net_along(store.items@, h, texts(path@)),
{
    let ghost items = store.items@;
    let ghost all = texts(path@);
    let mut at: usize = h;
    let mut i: usize = 0;
    proof {
        assert(all.skip(0) =~= all);
    }
    while i < path.len()
        invariant
            i <= path@.len(),
            items == store.items@,
            store.wf(),
            all == texts(path@),
            at < items.len(),
            net_along(items, h, all) == net_along(items, at, all.skip(i as int)),
        decreases path@.len() - i,
    {
        proof {
            assert(all.skip(i as int)[0] == path@[i as int]@);
            assert(all.skip(i as int).skip(1) =~= all.skip(i + 1));
            assert(refers_below(items[at as int], at as int));
        }
        match &store.items[at] {
            Item::Interface(v) => {
                proof {
                    lemma_place(handles_in(v.fields), path@[i as int]@);
                }
                match get_handle(&v.fields, path[i].as_str()) {
                    Some(child) => {
                        at = child;
                    },
                    None => {
                        return None;
                    },
                }
            },
            _ => {
                return None;
            },
        }
        i += 1;
    }
    proof {
        assert(all.skip(all.len() as int) =~= Seq::<Seq<char>>::empty());
    }
    match store.net(at) {
        Some(n) => Some(n.net_id),
        None => None,
    }
}

/// The key of a net's symbol.
pub open spec fn symbol_key(name: Seq<char>, suffix: Seq<char>) -> Seq<char> {
    "sym:"@ + name + "#"@ + suffix
}

/// The key of a net's symbol.
fn make_symbol_key(name: &str, suffix: &str) -> (r: String)
    ensures
        r@ == symbol_key(name@, suffix@),
{
    let mut out = "sym:".to_owned();
    out.append(name);
    out.append("#");
    out.append(suffix);
    out
}

/// Whether a name is that of a net seen from a module inside: names of modules, then the name of a
/// net. The modules have to be there up to where the name of the net begins.
pub open spec fn overrides(m: Model, path: Seq<Seq<char>>, names: Seq<Seq<char>>, from: int) -> bool
    decreases names.len() - from,
{
    if from >= names.len() {
        false
    } else if walked_modules(m, path, names.take(from)) is None {
        false
    } else if is_net_name(m, joined(names.skip(from), "."@)) {
        true
    } else {
        overrides(m, path, names, from + 1)
    }
}

/// The name of the net that a public parameter is bound to, of the first parameter whose default
/// holds a net of a name and whose value has a known one in the same place.
pub open spec fn bound_name(m: Model, items: Seq<Item>, v: Seq<ModuleParam>, name: Seq<char>) -> Option<
    Seq<char>,
>
    decreases v.len(),
{
    if v.len() == 0 {
        None
    } else {
        let p = v[0];
        let here = match (p.default_value, p.actual_value) {
            (Some(d), Some(a)) => if p.is_config {
                None
            } else {
                match field_path(items, d, name) {
                    None => None,
                    Some(path) => match net_along(items, a, path) {
                        None => None,
                        Some(id) => known_net(m.nets, id).name,
                    },
                }
            },
            _ => None,
        };
        match here {
            Some(n) => Some(n),
            None => bound_name(m, items, v.skip(1), name),
        }
    }
}

/// The key of the symbol of a net that a key within a module means.
pub open spec fn net_symbol_key(m: Model, items: Seq<Item>, v: ModuleValue, key: Seq<char>) -> Option<
    Seq<char>,
> {
    let (net_part, suffix) = match cut_last(key, '.') {
        Some((a, b)) => (a, b),
        None => (key, "1"@),
    };
    let full = scoped_segments(v.path@, net_part);
    if overrides(m, v.path@, pieces(net_part, '.'), 1) {
        Some(symbol_key(net_part, suffix))
    } else {
        match bound_name(m, items, v.signature@, net_part) {
            Some(n) => Some(symbol_key(n, suffix)),
            None => if is_net_name(m, full) {
                Some(symbol_key(full, suffix))
            } else {
                None
            },
        }
    }
}

/// A name within a module that is not the root.
pub open spec fn scoped_segments(path: Seq<Seq<char>>, name: Seq<char>) -> Seq<char> {
    if path.len() == 0 {
        name
    } else {
        joined(path, "."@) + "."@ + name
    }
}

/// The key of the symbol that a key within a module means: a component's, else a net's.
pub open spec fn placed_key(m: Model, items: Seq<Item>, v: ModuleValue, key: Seq<char>) -> Option<
    Seq<char>,
> {
    if names_instance(m, v.path@, key) {
        Some("comp:"@ + key)
    } else {
        net_symbol_key(m, items, v, key)
    }
}

/// The key within a module that a position is for, once paths that were moved are followed.
pub open spec fn final_key(prefix: Seq<char>, remapped: Seq<char>) -> Seq<char> {
    let p = prefix + "."@;
    if crate::text::begins(remapped, p) {
        remapped.skip(p.len() as int)
    } else {
        remapped
    }
}

/// The schematic with the position of a symbol. `remapped` is where the path of the position has
/// moved to, if anywhere. A position under the name that counts goes before one under an old name.
pub open spec fn with_position(
    m: Model,
    items: Seq<Item>,
    v: ModuleValue,
    e: PositionEntry,
    remapped: Option<Seq<char>>,
) -> Model {
    let prefix = joined(v.path@, "."@);
    let scoped_key = scoped(prefix, e.key@);
    let target = match remapped {
        Some(t) => t,
        None => scoped_key,
    };
    match placed_key(m, items, v, final_key(prefix, target)) {
        None => m,
        Some(k) => if m.instances.dom().contains(v.path@) && (
        !m.instances[v.path@].symbol_positions.dom().contains(k) || target == scoped_key) {
            let i = m.instances[v.path@];
            Model {
                instances: m.instances.insert(
                    v.path@,
                    InstanceView {
                        symbol_positions: i.symbol_positions.insert(k, e.position),
                        ..i
                    },
                ),
                ..m
            }
        } else {
            m
        },
    }
}

/// The schematic with the positions of a module's symbols.
pub open spec fn with_positions(
    m: Model,
    items: Seq<Item>,
    v: ModuleValue,
    entries: Seq<PositionEntry>,
    remapped: Seq<Option<String>>,
) -> Model
    decreases entries.len(),
{
    if entries.len() == 0 {
        m
    } else {
        with_position(
            with_positions(m, items, v, entries.drop_last(), remapped),
            items,
            v,
            entries.last(),
            opt_text(remapped[entries.len() - 1]),
        )
    }
}

impl ModuleConverter {
    /// The child of an instance.
    fn child_of(&self, path: &InstancePath, name: &str) -> (r: Option<InstancePath>)
        ensures
            match (r, walked(self@, path@, seq![name@])) {
                (Some(p), Some(q)) => p@ == q,
                (None, None) => true,
                _ => false,
            },
    {
        proof {
            let names = seq![name@];
            assert(names.drop_last() =~= Seq::<Seq<char>>::empty());
            reveal_with_fuel(walked, 2);
        }
        match self.instances.get(path) {
            None => None,
            Some(instance) => {
                let key = name.to_owned();
                match instance.children.get(&key) {
                    Some(p) => Some(p.copy()),
                    None => None,
                }
            },
        }
    }

    /// Whether a key names an instance inside another.
    pub fn is_instance_position(&self, key: &str, path: &InstancePath) -> (r: bool)
        ensures
            r == names_instance(self@, path@, key@),
    {
        let ghost m = self@;
        let bare = first_segment(key, '@');
        let parts = split_on(bare.as_str(), '.');
        let ghost all = texts(parts@);
        let mut at = path.copy();
        let mut i: usize = 0;
        proof {
            assert(all.take(0) =~= Seq::<Seq<char>>::empty());
        }
        while i < parts.len()
            invariant
                i <= parts@.len(),
                m == self@,
                all == texts(parts@),
                all == pieces(before_first(key@, '@'), '.'),
                walked(m, path@, all.take(i as int)) == Some(at@),
            decreases parts@.len() - i,
        {
            proof {
                assert(all.take(i + 1).drop_last() =~= all.take(i as int));
                assert(all.take(i + 1).last() == parts@[i as int]@);
                let one = seq![parts@[i as int]@];
                assert(one.drop_last() =~= Seq::<Seq<char>>::empty());
                reveal_with_fuel(walked, 2);
            }
            match self.child_of(&at, parts[i].as_str()) {
                Some(child) => {
                    at = child;
                },
                None => {
                    proof {
                        assert(walked(m, path@, all.take(i + 1)) is None);
                        lemma_walked_fails(m, path@, all, i + 1);
                    }
                    return false;
                },
            }
            i += 1;
        }
        proof {
            assert(all.take(all.len() as int) =~= all);
        }
        self.instances.contains_key(&at)
    }

    /// Whether a net goes by a name.
    fn has_net_named(&self, name: &str) -> (r: bool)
        requires
            self.wf(),
        ensures
            r == is_net_name(self@, name@),
    {
        let ghost s = self.nets.entries@;
        let ghost m = self@;
        let n = self.nets.len();
        let mut i: usize = 0;
        while i < n
            invariant
                i <= n,
                n == s.len(),
                s == self.nets.entries@,
                m == self@,
                self.nets.wf(),
                forall|k: int| 0 <= k < i ==> (#[trigger] s[k]).1@.name != Some(name@),
            decreases n - i,
        {
            let found = match &self.nets.value_at(i).name {
                Some(x) => same(x.as_str(), name),
                None => false,
            };
            if found {
                proof {
                    crate::map::lemma_slot_at(s, i as int);
                    let id = s[i as int].0;
                    assert(m.nets.dom().contains(id));
                    assert(m.nets[id] == s[i as int].1@);
                }
                return true;
            }
            i += 1;
        }
        proof {
            if is_net_name(m, name@) {
                let id = choose|id: u64| #[trigger]
                    m.nets.dom().contains(id) && m.nets[id].name == Some(name@);
                lemma_slot(s, id);
                assert(find(s, id) is Some);
                assert(s[slot(s, id)].1@ == m.nets[id]);
            }
        }
        false
    }

    /// Whether a name is that of a net seen from a module inside.
    fn find_descendant_override_net(&self, net_part: &str, path: &InstancePath) -> (r: bool)
        requires
            self.wf(),
        ensures
            r == overrides(self@, path@, pieces(net_part@, '.'), 1),
    {
        let ghost m = self@;
        let segments = split_on(net_part, '.');
        let ghost all = texts(segments@);
        let n: usize = segments.len();
        let mut at = path.copy();
        let mut i: usize = 1;
        proof {
            assert(all.len() == n);
            assert(all.take(0) =~= Seq::<Seq<char>>::empty());
        }
        while i < n
            invariant
                1 <= i <= n || n == 0,
                self.wf(),
                m == self@,
                n == segments@.len(),
                n == all.len(),
                all == texts(segments@),
                all == pieces(net_part@, '.'),
                i <= n ==> walked_modules(m, path@, all.take(i - 1)) == Some(at@),
                overrides(m, path@, all, 1) == overrides(m, path@, all, i as int),
            decreases n - i,
        {
            proof {
                assert(all.take(i as int).drop_last() =~= all.take(i - 1));
                assert(all.take(i as int).last() == segments@[i - 1]@);
            }
            let child = match self.child_of(&at, segments[i - 1].as_str()) {
                Some(child) => child,
                None => {
                    return false;
                },
            };
            let is_module = match self.instances.get(&child) {
                Some(instance) => match instance.kind {
                    InstanceKind::Module => true,
                    _ => false,
                },
                None => false,
            };
            if !is_module {
                return false;
            }
            at = child;
            let rest = join_range(&segments, i, n, ".");
            proof {
                assert(all.subrange(i as int, n as int) =~= all.skip(i as int));
            }
            if self.has_net_named(rest.as_str()) {
                return true;
            }
            i += 1;
        }
        false
    }

    /// The name of the net that a public parameter is bound to.
    fn find_bound_name(&self, store: &Store, v: &Vec<ModuleParam>, name: &str) -> (r: Option<String>)
        requires
            self.wf(),
            store.wf(),
            forall|i: int|
                0 <= i < v@.len() ==> param_fits(#[trigger] v@[i], store.items@.len() as int),
        ensures
            opt_text(r) == bound_name(self@, store.items@, v@, name@),
    {
        let ghost m = self@;
        let ghost items = store.items@;
        let mut i: usize = 0;
        proof {
            assert(v@.skip(0) =~= v@);
        }
        while i < v.len()
            invariant
                i <= v@.len(),
                self.wf(),
                m == self@,
                items == store.items@,
                store.wf(),
                forall|k: int|
                    0 <= k < v@.len() ==> param_fits(#[trigger] v@[k], store.items@.len() as int),
                bound_name(m, items, v@, name@) == bound_name(m, items, v@.skip(i as int), name@),
            decreases v@.len() - i,
        {
            let p = &v[i];
            proof {
                assert(v@.skip(i as int)[0] == v@[i as int]);
                assert(v@.skip(i as int).skip(1) =~= v@.skip(i + 1));
                assert(param_fits(v@[i as int], items.len() as int));
            }
            if let (Some(d), Some(a)) = (p.default_value, p.actual_value) {
                if !p.is_config {
                    if let Some(path) = find_net_field_path(store, d, name) {
                        if let Some(id) = resolve_net_id_along_path(store, a, &path) {
                            if let Some(info) = self.net_info(id) {
                                if let Some(s) = &info.name {
                                    return Some(s.clone());
                                }
                            }
                        }
                    }
                }
            }
            i += 1;
        }
        proof {
            assert(v@.skip(v@.len() as int) =~= Seq::<ModuleParam>::empty());
        }
        None
    }

    /// The key of the symbol of a net that a key within a module means.
    pub fn find_net_symbol_key(&self, store: &Store, module: &ModuleValue, key: &str) -> (r: Option<
        String,
    >)
        requires
            self.wf(),
            store.wf(),
            is_module(*module, store.items@),
        ensures
            opt_text(r) == net_symbol_key(self@, store.items@, *module, key@),
    {
        let (net_part, suffix) = match rsplit_once(key, '.') {
            Some((a, b)) => (a, b),
            None => (key.to_owned(), "1".to_owned()),
        };
        if self.find_descendant_override_net(net_part.as_str(), &module.path) {
            return Some(make_symbol_key(net_part.as_str(), suffix.as_str()));
        }
        if let Some(name) = self.find_bound_name(store, &module.signature, net_part.as_str()) {
            return Some(make_symbol_key(name.as_str(), suffix.as_str()));
        }
        proof {
            assert(module.path@.len() == module.path.segments@.len());
        }
        let full = if module.path.segments.len() == 0 {
            net_part
        } else {
            let mut s = join(&module.path.segments, ".");
            s.append(".");
            s.append(net_part.as_str());
            s
        };
        if self.has_net_named(full.as_str()) {
            Some(make_symbol_key(full.as_str(), suffix.as_str()))
        } else {
            None
        }
    }

    /// Places the symbol of a position.
    fn place_symbol(
        &mut self,
        store: &Store,
        module: &ModuleValue,
        entry: &PositionEntry,
        remapped: &Option<String>,
    )
        requires
            old(self).wf(),
            store.wf(),
            is_module(*module, store.items@),
        ensures
            final(self).wf(),
            final(self)@ == with_position(
                old(self)@,
                store.items@,
                *module,
                *entry,
                opt_text(*remapped),
            ),
    {
        let ghost m = self@;
        let prefix = join(&module.path.segments, ".");
        let scoped_key = scoped_path(prefix.as_str(), entry.key.as_str());
        let target = match remapped {
            Some(t) => t.clone(),
            None => scoped_key.clone(),
        };
        let canonical = same(target.as_str(), scoped_key.as_str());
        let mut dotted = prefix;
        dotted.append(".");
        let bare: &str = match strip_prefix(target.as_str(), dotted.as_str()) {
            Some(rest) => rest,
            None => target.as_str(),
        };
        let key = if self.is_instance_position(bare, &module.path) {
            let mut s = "comp:".to_owned();
            s.append(bare);
            Some(s)
        } else {
            self.find_net_symbol_key(store, module, bare)
        };
        if let Some(k) = key {
            let at = self.instances.position(&module.path);
            let ghost before = self.instances;
            let ghost path = module.path@;
            proof {
                lemma_slot(before.entries@, path);
            }
            if at < self.instances.len() {
                proof {
                    crate::map::lemma_slot_at(before.entries@, at as int);
                    assert(before@.dom().contains(path));
                    assert(before@[path] == before.entries@[at as int].1);
                }
                let instance = self.instances.value_mut(at);
                if !instance.symbol_positions.contains_key(&k) || canonical {
                    instance.symbol_positions.insert(k, entry.position);
                }
                proof {
                    lemma_changed(before, self.instances, at as int);
                    let v = self.instances.entries@[at as int].1;
                    lemma_viewed_insert(before@, path, v);
                    assert(viewed(self.instances@) =~= m.instances.insert(path, v@));
                    if v@ == m.instances[path] {
                        assert(m.instances.insert(path, v@) =~= m.instances);
                    }
                    assert forall|q: Seq<Seq<char>>| #[trigger]
                        self.instances@.dom().contains(q) implies self.instances@[q].wf() by {
                        if q != path {
                            assert(before@.dom().contains(q));
                        }
                    }
                }
            } else {
                proof {
                    assert(find(before.entries@, path) is None);
                }
            }
        }
    }

    /// Places the symbols of a module. `remapped` holds, position by position, where its path has
    /// moved to, if anywhere.
    pub fn place_symbols(
        &mut self,
        store: &Store,
        module: &ModuleValue,
        remapped: &Vec<Option<String>>,
    )
        requires
            old(self).wf(),
            store.wf(),
            is_module(*module, store.items@),
            remapped@.len() == module.positions@.len(),
        ensures
            final(self).wf(),
            final(self)@ == with_positions(
                old(self)@,
                store.items@,
                *module,
                module.positions@,
                remapped@,
            ),
    {
        let ghost m = self@;
        let ghost all = module.positions@;
        let mut i: usize = 0;
        proof {
            assert(all.take(0) =~= Seq::<PositionEntry>::empty());
        }
        while i < module.positions.len()
            invariant
                i <= module.positions@.len(),
                all == module.positions@,
                remapped@.len() == all.len(),
                store.wf(),
                is_module(*module, store.items@),
                self.wf(),
                self@ == with_positions(m, store.items@, *module, all.take(i as int), remapped@),
            decreases module.positions@.len() - i,
        {
            proof {
                assert(all.take(i + 1).drop_last() =~= all.take(i as int));
                assert(all.take(i + 1).last() == all[i as int]);
            }
            self.place_symbol(store, module, &module.positions[i], &remapped[i]);
            i += 1;
        }
        proof {
            assert(all.take(all.len() as int) =~= all);
        }
    }
}

/// The schematic with the positions of all symbols, module by module.
pub open spec fn with_all_positions(
    m: Model,
    items: Seq<Item>,
    modules: Seq<ModuleValue>,
    remapped: Seq<Vec<Option<String>>>,
) -> Model
    decreases modules.len(),
{
    if modules.len() == 0 {
        m
    } else {
        with_positions(
            with_all_positions(m, items, modules.drop_last(), remapped),
            items,
            modules.last(),
            modules.last().positions@,
            remapped[modules.len() - 1]@,
        )
    }
}

// ---------------------------------------------------------------------------------------------
// The end of a conversion

/// The notes that warnings about directives become.
pub open spec fn moved_said(v: Seq<MovedNoticeView>) -> Seq<(Seq<char>, NoticeView)> {
    Seq::new(v.len(), |i: int| (v[i].source_path, moved_text(v[i])))
}

/// The notes for open nets that are on several ports.
pub open spec fn open_net_notes(path: Seq<char>, l: Seq<Seq<(Seq<char>, Seq<char>)>>) -> Seq<
    (Seq<char>, NoticeView),
>
    decreases l.len(),
{
    if l.len() == 0 {
        Seq::<(Seq<char>, NoticeView)>::empty()
    } else {
        let first = open_net_notes(path, l.drop_last());
        match multi_port(l.last()) {
            Some(n) => first.push((path, n)),
            None => first,
        }
    }
}

/// Whether lists hold the ports of nets in order, net by net.
pub open spec fn lists_all(l: Seq<Seq<(Seq<char>, Seq<char>)>>, nets: Seq<Vec<PortLabel>>) -> bool {
    l.len() == nets.len() && forall|i: int| 0 <= i < l.len() ==> lists(#[trigger] l[i], nets[i]@)
}

/// The notes for open nets that are on several ports, each about the root module.
fn note_open_nets(path: &str, open_nets: Vec<Vec<PortLabel>>) -> (r: Vec<FileNotice>)
    ensures
        exists|l: Seq<Seq<(Seq<char>, Seq<char>)>>|
            #[trigger] lists_all(l, open_nets@) && file_notices(r@) == open_net_notes(path@, l),
{
    let ghost all = open_nets@;
    let ghost mut l = Seq::<Seq<(Seq<char>, Seq<char>)>>::empty();
    let mut rest = open_nets;
    let n: usize = rest.len();
    let mut out: Vec<FileNotice> = Vec::new();
    let mut i: usize = 0;
    proof {
        assert(all.skip(0) =~= all);
        assert(file_notices(out@) =~= Seq::<(Seq<char>, NoticeView)>::empty());
    }
    while i < n
        invariant
            i <= n,
            n == all.len(),
            rest@ == all.skip(i as int),
            l.len() == i,
            forall|k: int| 0 <= k < i ==> lists(#[trigger] l[k], all[k]@),
            file_notices(out@) == open_net_notes(path@, l),
        decreases n - i,
    {
        let ports = rest.remove(0);
        proof {
            assert(ports == all[i as int]);
            assert(rest@ =~= all.skip(i + 1));
        }
        let said = diagnose_not_connected_multi_port(ports);
        let ghost one = choose|one: Seq<(Seq<char>, Seq<char>)>| #[trigger]
            lists(one, ports@) && opt_notice(said) == multi_port(one);
        proof {
            assert(l.push(one).drop_last() =~= l);
            l = l.push(one);
        }
        if let Some(notice) = said {
            let ghost prior = file_notices(out@);
            let ghost view = (path@, notice@);
            out.push(FileNotice { path: path.to_owned(), notice });
            proof {
                assert(file_notices(out@) =~= prior.push(view));
            }
        }
        i += 1;
    }
    proof {
        assert(lists_all(l, all));
    }
    out
}

/// The notes that warnings about directives become.
fn note_moved(said: &Vec<MovedNotice>) -> (r: Vec<FileNotice>)
    ensures
        file_notices(r@) == moved_said(moved_notices(said@)),
{
    let mut out: Vec<FileNotice> = Vec::new();
    let mut i: usize = 0;
    while i < said.len()
        invariant
            i <= said@.len(),
            out@.len() == i,
            forall|k: int|
                0 <= k < i ==> (#[trigger] out@[k]).path@ == said@[k]@.source_path
                    && out@[k].notice@ == moved_text(said@[k]@),
        decreases said@.len() - i,
    {
        out.push(FileNotice { path: said[i].source_path.clone(), notice: said[i].notice() });
        i += 1;
    }
    proof {
        assert(file_notices(out@) =~= moved_said(moved_notices(said@)));
    }
    out
}

/// Adds notes to others.
fn append_notes(out: &mut Vec<FileNotice>, more: Vec<FileNotice>)
    ensures
        file_notices(final(out)@) == file_notices(old(out)@) + file_notices(more@),
{
    let ghost start = out@;
    let ghost added = more@;
    let mut more = more;
    out.append(&mut more);
    proof {
        assert(file_notices(start + added) =~= file_notices(start) + file_notices(added));
    }
}

impl ModuleConverter {
    /// Places the symbols of all modules. `remapped` holds, module by module and position by
    /// position, where its path has moved to, if anywhere.
    pub fn place_all_symbols(
        &mut self,
        store: &Store,
        modules: &Vec<ModuleValue>,
        remapped: &Vec<Vec<Option<String>>>,
    )
        requires
            old(self).wf(),
            store.wf(),
            are_modules(modules@, store.items@),
            remapped@.len() == modules@.len(),
            forall|i: int|
                0 <= i < modules@.len() ==> (#[trigger] remapped@[i])@.len()
                    == modules@[i].positions@.len(),
        ensures
            final(self).wf(),
            final(self)@ == with_all_positions(old(self)@, store.items@, modules@, remapped@),
    {
        let ghost m = self@;
        let ghost all = modules@;
        let mut i: usize = 0;
        proof {
            assert(all.take(0) =~= Seq::<ModuleValue>::empty());
        }
        while i < modules.len()
            invariant
                i <= modules@.len(),
                all == modules@,
                store.wf(),
                are_modules(all, store.items@),
                remapped@.len() == all.len(),
                forall|k: int|
                    0 <= k < all.len() ==> (#[trigger] remapped@[k])@.len()
                        == all[k].positions@.len(),
                self.wf(),
                self@ == with_all_positions(m, store.items@, all.take(i as int), remapped@),
            decreases modules@.len() - i,
        {
            proof {
                assert(all.take(i + 1).drop_last() =~= all.take(i as int));
                assert(all.take(i + 1).last() == all[i as int]);
                assert(is_module(all[i as int], store.items@));
                assert(remapped@[i as int]@.len() == all[i as int].positions@.len());
            }
            self.place_symbols(store, &modules[i], &remapped[i]);
            i += 1;
        }
        proof {
            assert(all.take(all.len() as int) =~= all);
        }
    }

    /// Ends a conversion, once the components have their designators: finds the paths that were
    /// moved, and the notes for the user. `existing` holds the paths of the schematic, `bom` its
    /// components, and `open_nets` the ports of its open nets; `root_path` is the file of the root
    /// module.
    pub fn conclude(
        &self,
        store: &Store,
        modules: &Vec<ModuleValue>,
        existing: &Vec<String>,
        bom: &Vec<BomEntry>,
        open_nets: Vec<Vec<PortLabel>>,
        root_path: &str,
    ) -> (r: (SortedMap<String, String>, Vec<FileNotice>))
        requires
            self.wf(),
            store.wf(),
            are_modules(modules@, store.items@),
        ensures
            r.0.wf(),
            viewed(r.0@) == with_aliases(
                all_moved(modules@, texts(existing@)).0,
                self@.aliases,
            ),
            exists|l: Seq<Seq<(Seq<char>, Seq<char>)>>|
                #[trigger] lists_all(l, open_nets@) && file_notices(r.1@) == moved_said(
                    all_moved(modules@, texts(existing@)).1,
                ) + missing_parts(bom@) + unused_io(self@, store.items@, modules@)
                    + open_net_notes(root_path@, l),
    {
        let (filtered, said) = validate_and_filter_moved_directives(modules, existing);
        let mut out = note_moved(&said);
        let parts = diagnose_missing_bom_part_components(bom);
        append_notes(&mut out, parts);
        let unused = self.diagnose_unused_module_io(store, modules);
        append_notes(&mut out, unused);
        let open = note_open_nets(root_path, open_nets);
        append_notes(&mut out, open);
        let moved = self.moved_paths(filtered);
        (moved, out)
    }
}

// ---------------------------------------------------------------------------------------------
// What holds of the schematic

/// A component that is added is an instance. So is a port for each signal of its symbol, which is a
/// child of it; and the net of a connected signal is on the signal's port.
pub proof fn law_component_is_added(
    m: Model,
    c: ComponentView,
    items: Seq<Item>,
    path: Seq<Seq<char>>,
    i: int,
)
    requires
        0 <= i < c.symbol.pads.len(),
    ensures
        ({
            let r = with_component(m, c, items, path);
            let signal = c.symbol.pads[i].1;
            let port = path.push(signal);
            &&& r.instances.dom().contains(path)
            &&& r.instances[path].kind == InstanceKind::Component
            &&& r.instances[path].children.dom().contains(signal)
            &&& r.instances[path].children[signal] == port
            &&& r.instances.dom().contains(port)
            &&& r.instances[port].kind == InstanceKind::Port
            &&& match under(c.connections, signal) {
                Some(h) => match net_of(items[h as int]) {
                    Some(net) => known_net(r.nets, net.net_id).ports.contains(port),
                    None => true,
                },
                None => true,
            }
        }),
{
    let groups = pads_by_signal(c.symbol.pads);
    lemma_signal_grouped(c.symbol.pads, i);
    let g = choose|g: int| 0 <= g < groups.len() && (#[trigger] groups[g]).0 == c.symbol.pads[i].1;
    let start = Model {
        models: match c.data.spice_model {
            Some(h) => m.models.push((path, h)),
            None => m.models,
        },
        ..m
    };
    lemma_port_added(start, c, items, path, groups, g);
    assert(path.push(c.symbol.pads[i].1).len() != path.len());
}

proof fn lemma_signal_grouped(pads: Seq<(Seq<char>, Seq<char>)>, i: int)
    requires
        0 <= i < pads.len(),
    ensures
        exists|g: int|
            0 <= g < pads_by_signal(pads).len() && (#[trigger] pads_by_signal(pads)[g]).0
                == pads[i].1,
    decreases pads.len(),
{
    let d = pads.drop_last();
    let r = pads_by_signal(d);
    let all = pads_by_signal(pads);
    let (pad, signal) = pads.last();
    lemma_group_at(r, signal);
    let k = group_at(r, signal);
    if i < d.len() {
        lemma_signal_grouped(d, i);
        assert(d[i] == pads[i]);
        let g = choose|g: int| 0 <= g < r.len() && (#[trigger] r[g]).0 == d[i].1;
        assert(all[g].0 == r[g].0);
    } else {
        assert(all[k].0 == signal);
    }
}

proof fn lemma_port_added(
    m: Model,
    c: ComponentView,
    items: Seq<Item>,
    path: Seq<Seq<char>>,
    groups: Seq<(Seq<char>, Seq<Seq<char>>)>,
    g: int,
)
    requires
        0 <= g < groups.len(),
    ensures
        ({
            let (r, children) = with_ports(m, c, items, path, groups);
            let signal = groups[g].0;
            let port = path.push(signal);
            &&& children.dom().contains(signal)
            &&& children[signal] == port
            &&& r.instances.dom().contains(port)
            &&& r.instances[port].kind == InstanceKind::Port
            &&& match under(c.connections, signal) {
                Some(h) => match net_of(items[h as int]) {
                    Some(net) => known_net(r.nets, net.net_id).ports.contains(port),
                    None => true,
                },
                None => true,
            }
        }),
    decreases groups.len(),
{
    let d = groups.drop_last();
    let (before, children) = with_ports(m, c, items, path, d);
    let (r, all) = with_ports(m, c, items, path, groups);
    let signal = groups[g].0;
    let port = path.push(signal);
    let last_port = path.push(groups.last().0);
    if g < d.len() {
        lemma_port_added(m, c, items, path, d, g);
        assert(d[g] == groups[g]);
    }
    if signal != groups.last().0 {
        assert(port[path.len() as int] != last_port[path.len() as int]);
    }
    if let Some(h) = under(c.connections, signal) {
        if let Some(net) = net_of(items[h as int]) {
            let id = net.net_id;
            let old_ports = known_net(before.nets, id).ports;
            let new_ports = known_net(r.nets, id).ports;
            if g < d.len() {
                let j = choose|j: int| 0 <= j < old_ports.len() && old_ports[j] == port;
                assert(new_ports[j] == port);
            } else {
                assert(new_ports[new_ports.len() - 1] == port);
            }
        }
    }
}

/// The first name of a net stays; a later one becomes an alias of it.
pub proof fn law_first_name_stays(m: Model, prefix: Seq<char>, v: Seq<IntroducedNet>, id: u64)
    requires
        known_net(m.nets, id).name is Some,
    ensures
        known_net(with_introduced(m, prefix, v).nets, id).name == known_net(m.nets, id).name,
        forall|i: int|
            0 <= i < v.len() && (#[trigger] v[i]).id == id && v[i].name@.len() > 0 && scoped(
                prefix,
                v[i].name@,
            ) != known_net(m.nets, id).name->Some_0 ==> with_introduced(
                m,
                prefix,
                v,
            ).aliases.dom().contains(scoped(prefix, v[i].name@)),
    decreases v.len(),
{
    if v.len() > 0 {
        let d = v.drop_last();
        law_first_name_stays(m, prefix, d, id);
        assert forall|i: int|
            0 <= i < v.len() && (#[trigger] v[i]).id == id && v[i].name@.len() > 0 && scoped(
                prefix,
                v[i].name@,
            ) != known_net(m.nets, id).name->Some_0 implies with_introduced(
            m,
            prefix,
            v,
        ).aliases.dom().contains(scoped(prefix, v[i].name@)) by {
            if i < d.len() {
                assert(d[i] == v[i]);
            }
        }
    }
}

/// The pads of a symbol that belong to a signal, in the order of the symbol.
pub open spec fn pads_on(pads: Seq<(Seq<char>, Seq<char>)>, signal: Seq<char>) -> Seq<Seq<char>>
    decreases pads.len(),
{
    if pads.len() == 0 {
        Seq::<Seq<char>>::empty()
    } else if pads.last().1 == signal {
        pads_on(pads.drop_last(), signal).push(pads.last().0)
    } else {
        pads_on(pads.drop_last(), signal)
    }
}

/// The pads of a signal are those, and no others.
proof fn lemma_pads_on(pads: Seq<(Seq<char>, Seq<char>)>, signal: Seq<char>)
    ensures
        forall|i: int|
            0 <= i < pads.len() && (#[trigger] pads[i]).1 == signal ==> pads_on(
                pads,
                signal,
            ).contains(pads[i].0),
        forall|k: int|
            0 <= k < pads_on(pads, signal).len() ==> exists|i: int|
                0 <= i < pads.len() && (#[trigger] pads[i]) == (
                    #[trigger] pads_on(pads, signal)[k],
                    signal,
                ),
    decreases pads.len(),
{
    if pads.len() > 0 {
        let d = pads.drop_last();
        let old_list = pads_on(d, signal);
        let list = pads_on(pads, signal);
        lemma_pads_on(d, signal);
        assert forall|i: int| 0 <= i < pads.len() && (#[trigger] pads[i]).1 == signal implies list.contains(
            pads[i].0,
        ) by {
            if i < d.len() {
                assert(d[i] == pads[i]);
                assert(old_list.contains(d[i].0));
                let k = choose|k: int| 0 <= k < old_list.len() && old_list[k] == d[i].0;
                assert(list[k] == old_list[k]);
            } else {
                assert(list[list.len() - 1] == pads[i].0);
            }
        }
        assert forall|k: int| 0 <= k < list.len() implies exists|i: int|
            0 <= i < pads.len() && (#[trigger] pads[i]) == (#[trigger] list[k], signal) by {
            if k < old_list.len() {
                assert(list[k] == old_list[k]);
                let i = choose|i: int| 0 <= i < d.len() && (#[trigger] d[i]) == (old_list[k], signal);
                assert(pads[i] == d[i]);
            } else {
                assert(pads[pads.len() - 1] == (list[k], signal));
            }
        }
    }
}

/// Groups stand for signals of the symbol, no two for the same, and each holds the pads of its signal.
proof fn lemma_groups(pads: Seq<(Seq<char>, Seq<char>)>)
    ensures
        ({
            let g = pads_by_signal(pads);
            &&& forall|i: int, j: int| 0 <= i < j < g.len() ==> (#[trigger] g[i]).0 != (#[trigger] g[j]).0
            &&& forall|i: int| 0 <= i < g.len() ==> (#[trigger] g[i]).1 == pads_on(pads, g[i].0)
            &&& forall|i: int|
                0 <= i < g.len() ==> exists|k: int|
                    0 <= k < pads.len() && (#[trigger] pads[k]).1 == (#[trigger] g[i]).0
        }),
    decreases pads.len(),
{
    let g = pads_by_signal(pads);
    if pads.len() > 0 {
        let d = pads.drop_last();
        let r = pads_by_signal(d);
        let (pad, signal) = pads.last();
        lemma_groups(d);
        lemma_group_at(r, signal);
        lemma_group_is_first(r, signal);
        let at = group_at(r, signal);
        assert forall|i: int| 0 <= i < g.len() implies (#[trigger] g[i]).1 == pads_on(pads, g[i].0) by {
            if g[i].0 == signal {
                if at == r.len() {
                    lemma_none_on(d, signal);
                    assert(Seq::<Seq<char>>::empty().push(pad) =~= seq![pad]);
                } else {
                    assert(i == at);
                    assert(r[at].1 == pads_on(d, signal));
                }
            } else {
                assert(g[i] == r[i]);
            }
        }
        assert forall|i: int| 0 <= i < g.len() implies exists|k: int|
            0 <= k < pads.len() && (#[trigger] pads[k]).1 == (#[trigger] g[i]).0 by {
            if g[i].0 == signal {
                assert(pads[pads.len() - 1].1 == g[i].0);
            } else {
                assert(g[i] == r[i]);
                let k = choose|k: int| 0 <= k < d.len() && (#[trigger] d[k]).1 == r[i].0;
                assert(pads[k] == d[k]);
            }
        }
    }
}

proof fn lemma_group_is_first(v: Seq<(Seq<char>, Seq<Seq<char>>)>, signal: Seq<char>)
    ensures
        forall|i: int| 0 <= i < group_at(v, signal) && i < v.len() ==> (#[trigger] v[i]).0 != signal,
    decreases v.len(),
{
    if v.len() > 0 && v[0].0 != signal {
        let t = v.skip(1);
        lemma_group_is_first(t, signal);
        assert forall|i: int| 0 <= i < group_at(v, signal) && i < v.len() implies (#[trigger] v[i]).0
            != signal by {
            if i > 0 {
                assert(t[i - 1] == v[i]);
            }
        }
    }
}

proof fn lemma_none_on(pads: Seq<(Seq<char>, Seq<char>)>, signal: Seq<char>)
    requires
        group_at(pads_by_signal(pads), signal) == pads_by_signal(pads).len(),
    ensures
        pads_on(pads, signal) == Seq::<Seq<char>>::empty(),
{
    let list = pads_on(pads, signal);
    if list.len() > 0 {
        lemma_pads_on(pads, signal);
        let k = choose|k: int| 0 <= k < pads.len() && (#[trigger] pads[k]) == (list[0], signal);
        lemma_signal_grouped(pads, k);
        lemma_group_is_first(pads_by_signal(pads), signal);
    }
    assert(list =~= Seq::<Seq<char>>::empty());
}

/// A port that is added is the one of its group, where no two groups are of one signal; and nothing
/// but ports is added.
proof fn lemma_ports(
    m: Model,
    c: ComponentView,
    items: Seq<Item>,
    path: Seq<Seq<char>>,
    groups: Seq<(Seq<char>, Seq<Seq<char>>)>,
)
    requires
        forall|i: int, j: int|
            0 <= i < j < groups.len() ==> (#[trigger] groups[i]).0 != (#[trigger] groups[j]).0,
    ensures
        ({
            let (r, children) = with_ports(m, c, items, path, groups);
            &&& forall|g: int|
                0 <= g < groups.len() ==> r.instances.dom().contains(
                    path.push((#[trigger] groups[g]).0),
                ) && r.instances[path.push(groups[g].0)] == port_instance(c, groups[g].1)
            &&& forall|q: Seq<Seq<char>>|
                (forall|g: int| 0 <= g < groups.len() ==> q != path.push((#[trigger] groups[g]).0))
                    ==> (#[trigger] r.instances.dom().contains(q) <==> m.instances.dom().contains(q))
                    && r.instances[q] == m.instances[q]
            &&& forall|s: Seq<char>| #[trigger]
                children.dom().contains(s) <==> exists|g: int|
                    0 <= g < groups.len() && (#[trigger] groups[g]).0 == s
        }),
    decreases groups.len(),
{
    let (r, children) = with_ports(m, c, items, path, groups);
    if groups.len() > 0 {
        let d = groups.drop_last();
        let (b, before) = with_ports(m, c, items, path, d);
        lemma_ports(m, c, items, path, d);
        let last = groups.last().0;
        assert forall|g: int| 0 <= g < groups.len() implies r.instances.dom().contains(
            path.push((#[trigger] groups[g]).0),
        ) && r.instances[path.push(groups[g].0)] == port_instance(c, groups[g].1) by {
            if g < d.len() {
                assert(d[g] == groups[g]);
                assert(groups[g].0 != groups[groups.len() - 1].0);
                assert(path.push(groups[g].0)[path.len() as int] != path.push(last)[path.len() as int]);
            }
        }
        assert forall|q: Seq<Seq<char>>|
            (forall|g: int| 0 <= g < groups.len() ==> q != path.push((#[trigger] groups[g]).0)) implies (
        #[trigger] r.instances.dom().contains(q) <==> m.instances.dom().contains(q)) && r.instances[q]
            == m.instances[q] by {
            assert(q != path.push(groups[groups.len() - 1].0));
            assert forall|g: int| 0 <= g < d.len() implies q != path.push((#[trigger] d[g]).0) by {
                assert(d[g] == groups[g]);
            }
            assert(b.instances.dom().contains(q) <==> m.instances.dom().contains(q));
        }
        assert forall|s: Seq<char>| #[trigger]
            children.dom().contains(s) <==> exists|g: int|
                0 <= g < groups.len() && (#[trigger] groups[g]).0 == s by {
            if before.dom().contains(s) {
                let g = choose|g: int| 0 <= g < d.len() && (#[trigger] d[g]).0 == s;
                assert(groups[g].0 == s);
            }
            if exists|g: int| 0 <= g < groups.len() && (#[trigger] groups[g]).0 == s {
                let g = choose|g: int| 0 <= g < groups.len() && (#[trigger] groups[g]).0 == s;
                if g < d.len() {
                    assert(d[g].0 == s);
                }
            }
        }
    }
}

/// The port of a signal lists the pads of the signal.
proof fn lemma_port_lists(
    m: Model,
    c: ComponentView,
    items: Seq<Item>,
    path: Seq<Seq<char>>,
    i: int,
)
    requires
        0 <= i < c.symbol.pads.len(),
    ensures
        ({
            let signal = c.symbol.pads[i].1;
            with_component(m, c, items, path).instances[path.push(signal)] == port_instance(
                c,
                pads_on(c.symbol.pads, signal),
            )
        }),
{
    let pads = c.symbol.pads;
    let groups = pads_by_signal(pads);
    let start = Model {
        models: match c.data.spice_model {
            Some(h) => m.models.push((path, h)),
            None => m.models,
        },
        ..m
    };
    lemma_groups(pads);
    lemma_ports(start, c, items, path, groups);
    lemma_signal_grouped(pads, i);
    let g = choose|g: int| 0 <= g < groups.len() && (#[trigger] groups[g]).0 == pads[i].1;
    assert(path.push(groups[g].0).len() != path.len());
}

/// A component has a child for each signal of its symbol and for nothing else, and nothing but the
/// component and its ports is added to the schematic or changed in it.
pub proof fn law_component_adds_itself_alone(
    m: Model,
    c: ComponentView,
    items: Seq<Item>,
    path: Seq<Seq<char>>,
)
    ensures
        ({
            let r = with_component(m, c, items, path);
            let pads = c.symbol.pads;
            &&& forall|s: Seq<char>| #[trigger]
                r.instances[path].children.dom().contains(s) <==> exists|i: int|
                    0 <= i < pads.len() && (#[trigger] pads[i]).1 == s
            &&& forall|q: Seq<Seq<char>>|
                q != path && (forall|i: int|
                    0 <= i < pads.len() ==> q != path.push((#[trigger] pads[i]).1)) ==> (
                #[trigger] r.instances.dom().contains(q) <==> m.instances.dom().contains(q))
                    && r.instances[q] == m.instances[q]
        }),
{
    let r = with_component(m, c, items, path);
    let pads = c.symbol.pads;
    let groups = pads_by_signal(pads);
    let start = Model {
        models: match c.data.spice_model {
            Some(h) => m.models.push((path, h)),
            None => m.models,
        },
        ..m
    };
    lemma_groups(pads);
    lemma_ports(start, c, items, path, groups);
    let (w, children) = with_ports(start, c, items, path, groups);
    assert forall|s: Seq<char>| #[trigger]
        r.instances[path].children.dom().contains(s) <==> exists|i: int|
            0 <= i < pads.len() && (#[trigger] pads[i]).1 == s by {
        assert(r.instances[path].children == children);
        if children.dom().contains(s) {
            let g = choose|g: int| 0 <= g < groups.len() && (#[trigger] groups[g]).0 == s;
            let k = choose|k: int| 0 <= k < pads.len() && (#[trigger] pads[k]).1 == groups[g].0;
            assert(pads[k].1 == s);
        }
        if exists|i: int| 0 <= i < pads.len() && (#[trigger] pads[i]).1 == s {
            let i = choose|i: int| 0 <= i < pads.len() && (#[trigger] pads[i]).1 == s;
            lemma_signal_grouped(pads, i);
            let g = choose|g: int| 0 <= g < groups.len() && (#[trigger] groups[g]).0 == pads[i].1;
            assert(groups[g].0 == s);
        }
    }
    assert forall|q: Seq<Seq<char>>|
        q != path && (forall|i: int| 0 <= i < pads.len() ==> q != path.push((#[trigger] pads[i]).1)) implies (
    #[trigger] r.instances.dom().contains(q) <==> m.instances.dom().contains(q)) && r.instances[q]
        == m.instances[q] by {
        assert forall|g: int| 0 <= g < groups.len() implies q != path.push((#[trigger] groups[g]).0) by {
            let k = choose|k: int| 0 <= k < pads.len() && (#[trigger] pads[k]).1 == groups[g].0;
            assert(q != path.push(pads[k].1));
        }
        assert(w.instances.dom().contains(q) <==> m.instances.dom().contains(q));
    }
}

/// The texts that an attribute lists.
pub open spec fn listed(a: AttributeView) -> Seq<ScalarView> {
    match a {
        AttributeView::Many(list) => list,
        _ => Seq::<ScalarView>::empty(),
    }
}

/// Every pad of a component's symbol is listed by the port of its signal, and by no other; a port lists
/// the pads of its signal alone, each once and in the order of the symbol.
pub proof fn law_ports_list_their_pads(
    m: Model,
    c: ComponentView,
    items: Seq<Item>,
    path: Seq<Seq<char>>,
    i: int,
)
    requires
        0 <= i < c.symbol.pads.len(),
    ensures
        ({
            let r = with_component(m, c, items, path);
            let pads = c.symbol.pads;
            let signal = pads[i].1;
            let port = r.instances[path.push(signal)];
            let list = listed(port.attributes[attrs::PADS@]);
            &&& port.attributes.dom().contains(attrs::PADS@)
            &&& list.contains(ScalarView::Text(pads[i].0))
            &&& list.len() == pads_on(pads, signal).len()
            &&& forall|k: int|
                0 <= k < list.len() ==> #[trigger] list[k] == ScalarView::Text(pads_on(pads, signal)[k])
            &&& forall|k: int|
                0 <= k < list.len() ==> exists|j: int|
                    0 <= j < pads.len() && (#[trigger] pads[j]).1 == signal && #[trigger] list[k]
                        == ScalarView::Text(pads[j].0)
        }),
{
    let r = with_component(m, c, items, path);
    let pads = c.symbol.pads;
    let signal = pads[i].1;
    lemma_port_lists(m, c, items, path, i);
    lemma_pads_on(pads, signal);
    let list = listed(r.instances[path.push(signal)].attributes[attrs::PADS@]);
    let own = pads_on(pads, signal);
    assert(own.contains(pads[i].0));
    let k = choose|k: int| 0 <= k < own.len() && own[k] == pads[i].0;
    assert(list[k] == ScalarView::Text(own[k]));
    assert forall|k: int| 0 <= k < list.len() implies exists|j: int|
        0 <= j < pads.len() && (#[trigger] pads[j]).1 == signal && #[trigger] list[k]
            == ScalarView::Text(pads[j].0) by {
        let j = choose|j: int| 0 <= j < pads.len() && (#[trigger] pads[j]) == (own[k], signal);
        assert(pads[j].1 == signal);
    }
}

} // verus!
