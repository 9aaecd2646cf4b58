//! Values, and the store that holds them.
//!
//! A value is referred to by its place in the store. A value refers to earlier values alone, so
//! nothing refers to itself.

use starlark::collections::SmallMap;
use vstd::prelude::*;

use crate::lang::net::{NetType, NetValue};
use crate::lang::part::PartValue;
use crate::lang::symbol::SymbolValue;
use crate::small_map::{count_handles, distinct, handle_at, handles_in, lemma_place, new_handles};
use crate::small_map::{place, put_handle};
use crate::text::opt_str;

verus! {

/// A key of a dictionary: its text, and whether it is a string at all.
pub struct DictKey {
    pub text: String,
    pub is_string: bool,
}

/// A SPICE model that a component is simulated with.
pub struct SpiceModelValue {
    pub definition: String,
    pub name: String,
    /// The nets of the model's terminals.
    pub nets: Vec<usize>,
    pub args: SmallMap<String, String>,
}

/// The type of an interface: its fields by name.
pub struct InterfaceFactory {
    /// The name of the variable that the interface was assigned to.
    pub name: Option<String>,
    pub fields: SmallMap<String, usize>,
    /// A function to call on every instance.
    pub post_init: Option<usize>,
}

/// An instance of an interface.
pub struct InterfaceValue {
    pub fields: SmallMap<String, usize>,
    /// The fields for which no value was given.
    pub generated_fields: Vec<String>,
    /// The name that the instance was given, if it was given one.
    pub instance_root_name: Option<String>,
    pub factory: usize,
}

/// A value.
pub enum Item {
    Nothing,
    Bool(bool),
    Int(i64),
    Text(String),
    List(Vec<usize>),
    Tuple(Vec<usize>),
    Dict(Vec<(DictKey, usize)>),
    Part(PartValue),
    Symbol(SymbolValue),
    SpiceModel(SpiceModelValue),
    Net(NetValue),
    NetType(NetType),
    /// A field specification, with its default.
    Field(Option<usize>),
    Interface(InterfaceValue),
    InterfaceFactory(InterfaceFactory),
    /// A physical quantity: its type, its text, and its text in code.
    Quantity { type_label: String, shown: String, repr: String },
    /// A value of an enumeration.
    Choice { type_label: String, value: String },
    /// Any other value: its type and the text that shows it.
    Other { type_label: String, shown: String },
}

/// The name of a value's type.
pub open spec fn type_of(item: Item) -> Seq<char> {
    match item {
        Item::Nothing => "NoneType"@,
        Item::Bool(_) => "bool"@,
        Item::Int(_) => "int"@,
        Item::Text(_) => "string"@,
        Item::List(_) => "list"@,
        Item::Tuple(_) => "tuple"@,
        Item::Dict(_) => "dict"@,
        Item::Part(_) => "Part"@,
        Item::Symbol(_) => "Symbol"@,
        Item::SpiceModel(_) => "SpiceModel"@,
        Item::Net(_) => "Net"@,
        Item::NetType(_) => "NetType"@,
        Item::Field(_) => "field"@,
        Item::Interface(_) => "InterfaceValue"@,
        Item::InterfaceFactory(_) => "InterfaceFactory"@,
        Item::Quantity { type_label, shown: _, repr: _ } => type_label@,
        Item::Choice { type_label, value: _ } => type_label@,
        Item::Other { type_label, shown: _ } => type_label@,
    }
}

/// The text of a value, where it is a string.
pub open spec fn text_of(item: Item) -> Option<Seq<char>> {
    match item {
        Item::Text(s) => Some(s@),
        _ => None,
    }
}

/// The truth value of a value, where it is one.
pub open spec fn bool_of(item: Item) -> Option<bool> {
    match item {
        Item::Bool(b) => Some(b),
        _ => None,
    }
}

/// The net of a value, where it is one.
pub open spec fn net_of(item: Item) -> Option<NetValue> {
    match item {
        Item::Net(n) => Some(n),
        _ => None,
    }
}

/// Whether every value of a map stands before a place.
pub open spec fn all_below(s: Seq<(Seq<char>, usize)>, n: int) -> bool {
    forall|i: int| 0 <= i < s.len() ==> (#[trigger] s[i]).1 < n
}

/// Whether a value refers to values before a place alone, and its maps hold no key twice.
pub open spec fn refers_below(item: Item, n: int) -> bool {
    match item {
        Item::List(v) => forall|i: int| 0 <= i < v@.len() ==> (#[trigger] v@[i]) < n,
        Item::Tuple(v) => forall|i: int| 0 <= i < v@.len() ==> (#[trigger] v@[i]) < n,
        Item::Dict(v) => forall|i: int| 0 <= i < v@.len() ==> (#[trigger] v@[i]).1 < n,
        Item::Symbol(s) => s.wf(),
        Item::SpiceModel(m) => forall|i: int| 0 <= i < m.nets@.len() ==> (#[trigger] m.nets@[i]) < n,
        Item::Net(net) => all_below(handles_in(net.properties), n) && distinct(
            handles_in(net.properties),
        ),
        Item::NetType(t) => all_below(handles_in(t.fields), n) && distinct(handles_in(t.fields)),
        Item::Field(default) => default is Some ==> default->Some_0 < n,
        Item::Interface(v) => all_below(handles_in(v.fields), n) && distinct(handles_in(v.fields))
            && v.factory < n,
        Item::InterfaceFactory(f) => all_below(handles_in(f.fields), n) && distinct(
            handles_in(f.fields),
        ) && (f.post_init is Some ==> f.post_init->Some_0 < n),
        _ => true,
    }
}

/// The store of values.
pub struct Store {
    pub items: Vec<Item>,
    /// The number that the next net gets.
    pub next_net_id: u64,
}

/// Whether every value refers to earlier values alone.
pub open spec fn well_founded(items: Seq<Item>) -> bool {
    forall|i: int| 0 <= i < items.len() ==> refers_below(#[trigger] items[i], i)
}

impl Store {
    /// The invariant: every value refers to earlier values alone.
    pub open spec fn wf(&self) -> bool {
        well_founded(self.items@)
    }

    /// An empty store; the first net gets the number 1.
    pub fn new() -> (r: Store)
        ensures
            r.wf(),
            r.items@.len() == 0,
            r.next_net_id == 1,
    {
        Store { items: Vec::new(), next_net_id: 1 }
    }

    /// Puts a value into the store.
    pub fn allocate(&mut self, item: Item) -> (r: usize)
        requires
            old(self).wf(),
            refers_below(item, old(self).items@.len() as int),
        ensures
            final(self).wf(),
            r == old(self).items@.len(),
            final(self).items@ == old(self).items@.push(item),
            final(self).next_net_id == old(self).next_net_id,
    {
        let r = self.items.len();
        self.items.push(item);
        r
    }

    /// Puts a string into the store.
    pub fn alloc_text(&mut self, s: &str) -> (r: usize)
        requires
            old(self).wf(),
        ensures
            final(self).wf(),
            r == old(self).items@.len(),
            final(self).items@.len() == r + 1,
            final(self).items@.take(r as int) == old(self).items@,
            text_of(final(self).items@[r as int]) == Some(s@),
            final(self).next_net_id == old(self).next_net_id,
    {
        let r = self.allocate(Item::Text(s.to_owned()));
        proof {
            assert(self.items@.take(r as int) =~= old(self).items@);
        }
        r
    }

    /// The text of a value, where it is a string.
    pub fn text(&self, h: usize) -> (r: Option<&str>)
        requires
            h < self.items@.len(),
        ensures
            opt_str(r) == text_of(self.items@[h as int]),
    {
        match &self.items[h] {
            Item::Text(s) => Some(s.as_str()),
            _ => None,
        }
    }

    /// The truth value of a value, where it is one.
    pub fn truth(&self, h: usize) -> (r: Option<bool>)
        requires
            h < self.items@.len(),
        ensures
            r == bool_of(self.items@[h as int]),
    {
        match &self.items[h] {
            Item::Bool(b) => Some(*b),
            _ => None,
        }
    }

    /// Whether a value is `None`.
    pub fn is_none(&self, h: usize) -> (r: bool)
        requires
            h < self.items@.len(),
        ensures
            r == (self.items@[h as int] == Item::Nothing),
    {
        match &self.items[h] {
            Item::Nothing => true,
            _ => false,
        }
    }

    /// The net of a value, where it is one.
    pub fn net(&self, h: usize) -> (r: Option<&NetValue>)
        requires
            h < self.items@.len(),
        ensures
            match r {
                Some(n) => net_of(self.items@[h as int]) == Some(*n),
                None => net_of(self.items@[h as int]) is None,
            },
    {
        match &self.items[h] {
            Item::Net(n) => Some(n),
            _ => None,
        }
    }

    /// The name of a value's type.
    pub fn type_label(&self, h: usize) -> (r: String)
        requires
            h < self.items@.len(),
        ensures
            r@ == type_of(self.items@[h as int]),
    {
        match &self.items[h] {
            Item::Nothing => "NoneType".to_owned(),
            Item::Bool(_) => "bool".to_owned(),
            Item::Int(_) => "int".to_owned(),
            Item::Text(_) => "string".to_owned(),
            Item::List(_) => "list".to_owned(),
            Item::Tuple(_) => "tuple".to_owned(),
            Item::Dict(_) => "dict".to_owned(),
            Item::Part(_) => "Part".to_owned(),
            Item::Symbol(_) => "Symbol".to_owned(),
            Item::SpiceModel(_) => "SpiceModel".to_owned(),
            Item::Net(_) => "Net".to_owned(),
            Item::NetType(_) => "NetType".to_owned(),
            Item::Field(_) => "field".to_owned(),
            Item::Interface(_) => "InterfaceValue".to_owned(),
            Item::InterfaceFactory(_) => "InterfaceFactory".to_owned(),
            Item::Quantity { type_label, shown: _, repr: _ } => type_label.clone(),
            Item::Choice { type_label, value: _ } => type_label.clone(),
            Item::Other { type_label, shown: _ } => type_label.clone(),
        }
    }

    /// A number that no net of this store has yet. Each store counts by itself, so nets of two stores
    /// can have the same number: nets that are to be told apart are made in one store.
    pub fn generate_net_id(&mut self) -> (r: u64)
        requires
            old(self).next_net_id < u64::MAX,
        ensures
            r == old(self).next_net_id,
            final(self).next_net_id == r + 1,
            final(self).items == old(self).items,
    {
        let r = self.next_net_id;
        self.next_net_id = r + 1;
        r
    }

    /// Starts to count nets from 1 again.
    pub fn reset_net_id_counter(&mut self)
        ensures
            final(self).next_net_id == 1,
            final(self).items == old(self).items,
    {
        self.next_net_id = 1;
    }
}

/// What stood in the store stays when more is put into it.
pub open spec fn extends(later: Seq<Item>, earlier: Seq<Item>) -> bool {
    earlier.len() <= later.len() && later.take(earlier.len() as int) == earlier
}

pub proof fn lemma_extends_item(later: Seq<Item>, earlier: Seq<Item>, h: int)
    requires
        extends(later, earlier),
        0 <= h < earlier.len(),
    ensures
        later[h] == earlier[h],
{
    assert(later.take(earlier.len() as int)[h] == later[h]);
}

pub proof fn lemma_extends_transitive(c: Seq<Item>, b: Seq<Item>, a: Seq<Item>)
    requires
        extends(c, b),
        extends(b, a),
    ensures
        extends(c, a),
{
    assert(c.take(a.len() as int) =~= b.take(a.len() as int));
}

/// Values that stand before a place stand before every later place.
pub proof fn lemma_below_later(s: Seq<(Seq<char>, usize)>, n: int, m: int)
    requires
        all_below(s, n),
        n <= m,
    ensures
        all_below(s, m),
{
}

/// Another map with the same entries.
pub fn copy_handles(m: &SmallMap<String, usize>) -> (r: SmallMap<String, usize>)
    requires
        distinct(handles_in(*m)),
    ensures
        handles_in(r) == handles_in(*m),
{
    let ghost all = handles_in(*m);
    let mut out = new_handles();
    let n = count_handles(m);
    let mut i: usize = 0;
    while i < n
        invariant
            i <= n,
            n == all.len(),
            all == handles_in(*m),
            distinct(all),
            handles_in(out) == all.take(i as int),
        decreases n - i,
    {
        if let Some((k, v)) = handle_at(m, i) {
            proof {
                lemma_place(all.take(i as int), k@);
                let p = place(all.take(i as int), k@);
                if p < i {
                    assert(all.take(i as int)[p] == all[p]);
                    assert(all[p].0 != all[i as int].0);
                }
                assert(all.take(i + 1) =~= all.take(i as int).push(all[i as int]));
            }
            put_handle(&mut out, k.to_owned(), v);
        }
        i += 1;
    }
    proof {
        assert(all.take(all.len() as int) =~= all);
    }
    out
}

/// Whether numbers were handed out one after the other: `before` and `after` hold the number that the
/// store counts from around each call. Between two calls the store may hand out others.
pub open spec fn handed_out(ids: Seq<u64>, before: Seq<u64>, after: Seq<u64>) -> bool {
    &&& before.len() == ids.len()
    &&& after.len() == ids.len()
    &&& forall|i: int|
        0 <= i < ids.len() ==> #[trigger] ids[i] == before[i] && after[i] == before[i] + 1
    &&& forall|i: int| 0 <= i < ids.len() - 1 ==> #[trigger] after[i] <= before[i + 1]
}

/// The numbers that one store hands out to nets grow, and so are distinct, as long as it does not
/// start to count anew. Of two stores nothing is said: each counts by itself.
pub proof fn law_net_ids_grow(ids: Seq<u64>, before: Seq<u64>, after: Seq<u64>, i: int, j: int)
    requires
        handed_out(ids, before, after),
        0 <= i < j < ids.len(),
    ensures
        ids[i] < ids[j],
    decreases j - i,
{
    assert(ids[i] == before[i]);
    assert(after[j - 1] <= before[j - 1 + 1]);
    assert(ids[j - 1] == before[j - 1]);
    assert(ids[j] == before[j]);
    if i < j - 1 {
        law_net_ids_grow(ids, before, after, i, j - 1);
    }
}

} // verus!
