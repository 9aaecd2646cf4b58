//! The schematic that modules are turned into: instances by their path, and nets by their number.

use vstd::prelude::*;

use crate::lang::part::{PartValue, PartView};
use crate::lang::symbol::{group_views, InternalConnectivity};
use crate::lang::value::{refers_below, Item, Store};
use crate::map::{lemma_viewed_insert, viewed, Key, SortedMap};
use crate::small_map::{count_handles, handle_at, handles_in};
use crate::text::{clone_texts, is_before, lemma_text_before_irreflexive, lemma_text_before_total};
use crate::text::{lemma_text_before_transitive, same, same_texts, text_before, texts};

verus! {

// ---------------------------------------------------------------------------------------------
// Paths of instances

/// The names on the way from the root to an instance.
pub struct InstancePath {
    pub segments: Vec<String>,
}

impl View for InstancePath {
    type V = Seq<Seq<char>>;

    open spec fn view(&self) -> Seq<Seq<char>> {
        texts(self.segments@)
    }
}

/// Whether a path comes strictly before another: name by name.
pub open spec fn path_before(a: Seq<Seq<char>>, b: Seq<Seq<char>>) -> bool
    decreases a.len(),
{
    if b.len() == 0 {
        false
    } else if a.len() == 0 {
        true
    } else if a[0] != b[0] {
        text_before(a[0], b[0])
    } else {
        path_before(a.skip(1), b.skip(1))
    }
}

impl Key for InstancePath {
    open spec fn before(a: Seq<Seq<char>>, b: Seq<Seq<char>>) -> bool {
        path_before(a, b)
    }

    proof fn irreflexive(a: Seq<Seq<char>>)
        decreases a.len(),
    {
        if a.len() > 0 {
            Self::irreflexive(a.skip(1));
        }
    }

    proof fn transitive(a: Seq<Seq<char>>, b: Seq<Seq<char>>, c: Seq<Seq<char>>)
        decreases a.len(),
    {
        if a.len() > 0 && b.len() > 0 && c.len() > 0 {
            if a[0] == b[0] && b[0] == c[0] {
                Self::transitive(a.skip(1), b.skip(1), c.skip(1));
            } else if a[0] != b[0] && b[0] != c[0] {
                lemma_text_before_transitive(a[0], b[0], c[0]);
                lemma_text_before_irreflexive(a[0]);
            }
        }
    }

    proof fn total(a: Seq<Seq<char>>, b: Seq<Seq<char>>)
        decreases a.len(),
    {
        if a.len() == 0 && b.len() == 0 {
            assert(a =~= b);
        } else if a.len() > 0 && b.len() > 0 {
            lemma_text_before_total(a[0], b[0]);
            if a[0] == b[0] {
                Self::total(a.skip(1), b.skip(1));
                if a.skip(1) == b.skip(1) {
                    assert(a =~= seq![a[0]] + a.skip(1));
                    assert(b =~= seq![b[0]] + b.skip(1));
                }
            }
        }
    }

    fn precedes(&self, other: &Self) -> (r: bool) {
        let ghost a = texts(self.segments@);
        let ghost b = texts(other.segments@);
        let mut i: usize = 0;
        proof {
            assert(a.skip(0) =~= a);
            assert(b.skip(0) =~= b);
        }
        while i < self.segments.len() && i < other.segments.len() && same(
            self.segments[i].as_str(),
            other.segments[i].as_str(),
        )
            invariant
                i <= self.segments@.len(),
                i <= other.segments@.len(),
                a == texts(self.segments@),
                b == texts(other.segments@),
                path_before(a.skip(i as int), b.skip(i as int)) == path_before(a, b),
            decreases self.segments@.len() - i,
        {
            proof {
                assert(a.skip(i as int)[0] == self.segments@[i as int]@);
                assert(b.skip(i as int)[0] == other.segments@[i as int]@);
                assert(a.skip(i as int).skip(1) =~= a.skip(i + 1));
                assert(b.skip(i as int).skip(1) =~= b.skip(i + 1));
            }
            i += 1;
        }
        if i == other.segments.len() {
            false
        } else if i == self.segments.len() {
            true
        } else {
            proof {
                assert(a.skip(i as int)[0] == self.segments@[i as int]@);
                assert(b.skip(i as int)[0] == other.segments@[i as int]@);
            }
            is_before(self.segments[i].as_str(), other.segments[i].as_str())
        }
    }

    fn equals(&self, other: &Self) -> (r: bool) {
        same_texts(&self.segments, &other.segments)
    }
}

impl InstancePath {
    /// Another path with the same names.
    pub fn copy(&self) -> (r: InstancePath)
        ensures
            r@ == self@,
    {
        InstancePath { segments: clone_texts(&self.segments) }
    }

    /// The path of a child.
    pub fn append(&self, name: &str) -> (r: InstancePath)
        ensures
            r@ == self@.push(name@),
    {
        let mut segments = clone_texts(&self.segments);
        let ghost before = texts(segments@);
        segments.push(name.to_owned());
        proof {
            assert(texts(segments@) =~= before.push(name@));
        }
        InstancePath { segments }
    }

    /// The path of the parent; the root has none.
    pub fn parent(&self) -> (r: Option<InstancePath>)
        ensures
            match r {
                Some(p) => self@.len() > 0 && p@ == self@.drop_last(),
                None => self@.len() == 0,
            },
    {
        proof {
            assert(self@.len() == self.segments@.len());
        }
        if self.segments.len() == 0 {
            return None;
        }
        let mut segments = clone_texts(&self.segments);
        proof {
            assert(texts(segments@).len() == segments@.len());
        }
        let ghost before = segments@;
        segments.pop();
        proof {
            assert(texts(segments@) =~= texts(before).drop_last());
        }
        Some(InstancePath { segments })
    }

    /// Whether a path leads to the instance of another or to one inside it.
    pub fn starts_with(&self, other: &InstancePath) -> (r: bool)
        ensures
            r == (other@.len() <= self@.len() && self@.take(other@.len() as int) == other@),
    {
        let ghost a = self@;
        let ghost b = other@;
        proof {
            assert(a.len() == self.segments@.len());
            assert(b.len() == other.segments@.len());
        }
        if other.segments.len() > self.segments.len() {
            return false;
        }
        let mut i: usize = 0;
        while i < other.segments.len()
            invariant
                i <= other.segments@.len() <= self.segments@.len(),
                a == texts(self.segments@),
                b == texts(other.segments@),
                forall|k: int| 0 <= k < i ==> #[trigger] a[k] == b[k],
            decreases other.segments@.len() - i,
        {
            if !same(self.segments[i].as_str(), other.segments[i].as_str()) {
                proof {
                    assert(a[i as int] != b[i as int]);
                    assert(a.take(b.len() as int)[i as int] == a[i as int]);
                }
                return false;
            }
            i += 1;
        }
        proof {
            assert(a.take(b.len() as int) =~= b);
        }
        true
    }
}

// ---------------------------------------------------------------------------------------------
// Attributes

/// A single value of an attribute.
pub enum Scalar {
    Text(String),
    Number(i64),
    Boolean(bool),
    Part(PartValue),
    /// The text that shows a value of the store.
    Shown(usize),
}

/// An attribute of an instance or a net.
pub enum AttributeValue {
    One(Scalar),
    Many(Vec<Scalar>),
    /// The signature of the instance.
    Signature(Vec<ParameterInfo>),
}

/// The contents of a single value.
pub enum ScalarView {
    Text(Seq<char>),
    Number(i64),
    Boolean(bool),
    Part(PartView),
    Shown(usize),
}

/// The contents of an attribute.
pub enum AttributeView {
    One(ScalarView),
    Many(Seq<ScalarView>),
    Signature(Seq<ParameterView>),
}

impl View for Scalar {
    type V = ScalarView;

    open spec fn view(&self) -> ScalarView {
        match *self {
            Scalar::Text(s) => ScalarView::Text(s@),
            Scalar::Number(n) => ScalarView::Number(n),
            Scalar::Boolean(b) => ScalarView::Boolean(b),
            Scalar::Part(p) => ScalarView::Part(p@),
            Scalar::Shown(h) => ScalarView::Shown(h),
        }
    }
}

/// The contents of a list of single values.
pub open spec fn scalars(v: Seq<Scalar>) -> Seq<ScalarView> {
    Seq::new(v.len(), |i: int| v[i]@)
}

impl View for AttributeValue {
    type V = AttributeView;

    open spec fn view(&self) -> AttributeView {
        match *self {
            AttributeValue::One(s) => AttributeView::One(s@),
            AttributeValue::Many(v) => AttributeView::Many(scalars(v@)),
            AttributeValue::Signature(v) => AttributeView::Signature(parameter_views(v@)),
        }
    }
}

/// A text as an attribute.
pub open spec fn text_attribute(s: Seq<char>) -> AttributeView {
    AttributeView::One(ScalarView::Text(s))
}

/// A text as an attribute.
pub fn make_text(s: &str) -> (r: AttributeValue)
    ensures
        r@ == text_attribute(s@),
{
    AttributeValue::One(Scalar::Text(s.to_owned()))
}

/// Whether a number is small enough to be kept as one.
pub open spec fn is_small(n: i64) -> bool {
    -0x8000_0000 <= n <= 0x7fff_ffff
}

/// A value of a list as a part of an attribute.
pub open spec fn element_of(items: Seq<Item>, h: usize) -> ScalarView {
    match items[h as int] {
        Item::Text(s) => ScalarView::Text(s@),
        Item::Int(n) => if is_small(n) {
            ScalarView::Number(n)
        } else {
            ScalarView::Shown(h)
        },
        Item::Bool(b) => ScalarView::Boolean(b),
        Item::Part(p) => ScalarView::Part(p@),
        _ => ScalarView::Shown(h),
    }
}

/// A value as an attribute. Lists within lists are shown as text.
pub open spec fn attribute_from(items: Seq<Item>, h: usize) -> AttributeView {
    match items[h as int] {
        Item::Quantity { type_label: _, shown, repr: _ } => text_attribute(shown@),
        Item::Choice { type_label: _, value } => text_attribute(value@),
        Item::List(v) => AttributeView::Many(
            Seq::new(v@.len(), |i: int| element_of(items, v@[i])),
        ),
        _ => AttributeView::One(element_of(items, h)),
    }
}

/// A value of a list as a part of an attribute.
fn to_element(store: &Store, h: usize) -> (r: Scalar)
    requires
        h < store.items@.len(),
    ensures
        r@ == element_of(store.items@, h),
{
    match &store.items[h] {
        Item::Text(s) => Scalar::Text(s.clone()),
        Item::Int(n) => if -0x8000_0000 <= *n && *n <= 0x7fff_ffff {
            Scalar::Number(*n)
        } else {
            Scalar::Shown(h)
        },
        Item::Bool(b) => Scalar::Boolean(*b),
        Item::Part(p) => Scalar::Part(p.copy()),
        _ => Scalar::Shown(h),
    }
}

/// A value as an attribute.
pub fn to_attribute_value(store: &Store, h: usize) -> (r: AttributeValue)
    requires
        store.wf(),
        h < store.items@.len(),
    ensures
        r@ == attribute_from(store.items@, h),
{
    proof {
        assert(refers_below(store.items@[h as int], h as int));
    }
    match &store.items[h] {
        Item::Quantity { type_label: _, shown, repr: _ } => make_text(shown.as_str()),
        Item::Choice { type_label: _, value } => make_text(value.as_str()),
        Item::List(v) => {
            let mut out: Vec<Scalar> = Vec::new();
            let mut i: usize = 0;
            while i < v.len()
                invariant
                    i <= v@.len(),
                    h < store.items@.len(),
                    forall|k: int| 0 <= k < v@.len() ==> (#[trigger] v@[k]) < h,
                    out@.len() == i,
                    forall|k: int|
                        0 <= k < i ==> (#[trigger] out@[k])@ == element_of(store.items@, v@[k]),
                decreases v@.len() - i,
            {
                out.push(to_element(store, v[i]));
                i += 1;
            }
            proof {
                assert(scalars(out@) =~= Seq::new(
                    v@.len(),
                    |i: int| element_of(store.items@, v@[i]),
                ));
            }
            AttributeValue::Many(out)
        },
        _ => AttributeValue::One(to_element(store, h)),
    }
}

/// The attributes of a list of pairs: a later pair counts before an earlier one of the same name.
pub open spec fn gathered(v: Seq<(Seq<char>, AttributeView)>) -> Map<Seq<char>, AttributeView>
    decreases v.len(),
{
    if v.len() == 0 {
        Map::empty()
    } else {
        gathered(v.drop_last()).insert(v.last().0, v.last().1)
    }
}

/// The contents of a list of pairs.
pub open spec fn pair_views(v: Seq<(String, AttributeValue)>) -> Seq<(Seq<char>, AttributeView)> {
    Seq::new(v.len(), |i: int| (v[i].0@, v[i].1@))
}

/// The attributes of a list of pairs.
pub fn gather(v: Vec<(String, AttributeValue)>) -> (r: SortedMap<String, AttributeValue>)
    ensures
        r.wf(),
        viewed(r@) == gathered(pair_views(v@)),
{
    let ghost all = pair_views(v@);
    let mut rest = v;
    let mut out: SortedMap<String, AttributeValue> = SortedMap::new();
    let n: usize = rest.len();
    let mut i: usize = 0;
    proof {
        assert(all.take(0) =~= Seq::<(Seq<char>, AttributeView)>::empty());
        assert(viewed(out@) =~= Map::<Seq<char>, AttributeView>::empty());
        assert(v@.skip(0) =~= v@);
    }
    while i < n
        invariant
            i <= n,
            n == v@.len(),
            all == pair_views(v@),
            rest@ == v@.skip(i as int),
            out.wf(),
            viewed(out@) == gathered(all.take(i as int)),
        decreases n - i,
    {
        let (k, a) = rest.remove(0);
        proof {
            assert((k, a) == v@[i as int]);
            assert(rest@ =~= v@.skip(i + 1));
            assert(all.take(i + 1).drop_last() =~= all.take(i as int));
            assert(all.take(i + 1).last() == (k@, a@));
            lemma_viewed_insert(out@, k@, a);
        }
        out.insert(k, a);
        i += 1;
    }
    proof {
        assert(all.take(all.len() as int) =~= all);
    }
    out
}

// ---------------------------------------------------------------------------------------------
// Instances

/// What an instance is of.
#[derive(Clone, Copy, PartialEq, Eq, Structural, Debug)]
pub enum InstanceKind {
    Module,
    Component,
    Port,
}

/// An instance of a module, a component, or a port of a component.
pub struct Instance {
    pub kind: InstanceKind,
    /// The file that describes the instance.
    pub source_path: String,
    /// The name of what the instance is of.
    pub type_label: String,
    pub attributes: SortedMap<String, AttributeValue>,
    pub children: SortedMap<String, InstancePath>,
    pub internal_connectivity: InternalConnectivity,
    /// The positions of symbols, as places in a list of positions.
    pub symbol_positions: SortedMap<String, usize>,
}

/// The contents of an instance.
pub struct InstanceView {
    pub kind: InstanceKind,
    pub source_path: Seq<char>,
    pub type_label: Seq<char>,
    pub attributes: Map<Seq<char>, AttributeView>,
    pub children: Map<Seq<char>, Seq<Seq<char>>>,
    pub jumpers: bool,
    pub groups: Seq<Seq<Seq<char>>>,
    pub symbol_positions: Map<Seq<char>, usize>,
}

impl View for Instance {
    type V = InstanceView;

    open spec fn view(&self) -> InstanceView {
        InstanceView {
            kind: self.kind,
            source_path: self.source_path@,
            type_label: self.type_label@,
            attributes: viewed(self.attributes@),
            children: viewed(self.children@),
            jumpers: self.internal_connectivity.duplicate_numbers_are_jumpers,
            groups: group_views(self.internal_connectivity.groups@),
            symbol_positions: self.symbol_positions@,
        }
    }
}

impl Instance {
    /// The invariant: the maps are in order.
    pub open spec fn wf(&self) -> bool {
        self.attributes.wf() && self.children.wf() && self.symbol_positions.wf()
    }

    /// An instance that has attributes alone.
    pub fn new(
        kind: InstanceKind,
        source_path: &str,
        type_label: &str,
        attributes: SortedMap<String, AttributeValue>,
    ) -> (r: Instance)
        requires
            attributes.wf(),
        ensures
            r.wf(),
            r@ == bare_instance(kind, source_path@, type_label@, viewed(attributes@)),
    {
        let r = Instance {
            kind,
            source_path: source_path.to_owned(),
            type_label: type_label.to_owned(),
            attributes,
            children: SortedMap::new(),
            internal_connectivity: InternalConnectivity::none(),
            symbol_positions: SortedMap::new(),
        };
        proof {
            assert(r@.children =~= Map::<Seq<char>, Seq<Seq<char>>>::empty());
            assert(r@.groups =~= Seq::<Seq<Seq<char>>>::empty());
        }
        r
    }

    /// Adds an attribute, in place of one of the same name.
    pub fn add_attribute(&mut self, name: &str, value: AttributeValue)
        requires
            old(self).wf(),
        ensures
            final(self).wf(),
            final(self)@ == (InstanceView {
                attributes: old(self)@.attributes.insert(name@, value@),
                ..old(self)@
            }),
    {
        proof {
            lemma_viewed_insert(self.attributes@, name@, value);
        }
        self.attributes.insert(name.to_owned(), value);
    }

    /// Adds a child, in place of one of the same name.
    pub fn add_child(&mut self, name: &str, path: InstancePath)
        requires
            old(self).wf(),
        ensures
            final(self).wf(),
            final(self)@ == (InstanceView {
                children: old(self)@.children.insert(name@, path@),
                ..old(self)@
            }),
    {
        proof {
            lemma_viewed_insert(self.children@, name@, path);
        }
        self.children.insert(name.to_owned(), path);
    }
}

/// An instance that has attributes alone.
pub open spec fn bare_instance(
    kind: InstanceKind,
    source_path: Seq<char>,
    type_label: Seq<char>,
    attributes: Map<Seq<char>, AttributeView>,
) -> InstanceView {
    InstanceView {
        kind,
        source_path,
        type_label,
        attributes,
        children: Map::empty(),
        jumpers: false,
        groups: Seq::<Seq<Seq<char>>>::empty(),
        symbol_positions: Map::empty(),
    }
}

// ---------------------------------------------------------------------------------------------
// Parameters

/// A value for the signature of a module.
pub enum Json {
    Null,
    Bool(bool),
    Number(i64),
    Text(String),
    Array(Vec<Json>),
    Object(Vec<(String, Json)>),
    Net { id: u64, name: String, properties: Vec<(String, Json)> },
    Interface { fields: Vec<(String, Json)> },
    /// A value of the store of which only its own type knows the form; where it has none, the name of
    /// the type stands for it.
    Outside { value: usize, type_label: String },
}

/// The contents of a value for a signature.
pub enum JsonView {
    Null,
    Bool(bool),
    Number(i64),
    Text(Seq<char>),
    Array(Seq<JsonView>),
    Object(Seq<(Seq<char>, JsonView)>),
    Net { id: u64, name: Seq<char>, properties: Seq<(Seq<char>, JsonView)> },
    Interface { fields: Seq<(Seq<char>, JsonView)> },
    Outside { value: usize, type_label: Seq<char> },
}

/// The contents of a value for a signature.
pub open spec fn json_view(j: Json) -> JsonView
    decreases j,
{
    match j {
        Json::Null => JsonView::Null,
        Json::Bool(b) => JsonView::Bool(b),
        Json::Number(n) => JsonView::Number(n),
        Json::Text(s) => JsonView::Text(s@),
        Json::Array(v) => JsonView::Array(
            Seq::new(
                v@.len(),
                |i: int|
                    if 0 <= i < v@.len() {
                        json_view(v@[i])
                    } else {
                        JsonView::Null
                    },
            ),
        ),
        Json::Object(v) => JsonView::Object(
            Seq::new(
                v@.len(),
                |i: int|
                    if 0 <= i < v@.len() {
                        (v@[i].0@, json_view(v@[i].1))
                    } else {
                        (Seq::<char>::empty(), JsonView::Null)
                    },
            ),
        ),
        Json::Net { id, name, properties } => JsonView::Net {
            id,
            name: name@,
            properties: Seq::new(
                properties@.len(),
                |i: int|
                    if 0 <= i < properties@.len() {
                        (properties@[i].0@, json_view(properties@[i].1))
                    } else {
                        (Seq::<char>::empty(), JsonView::Null)
                    },
            ),
        },
        Json::Interface { fields } => JsonView::Interface {
            fields: Seq::new(
                fields@.len(),
                |i: int|
                    if 0 <= i < fields@.len() {
                        (fields@[i].0@, json_view(fields@[i].1))
                    } else {
                        (Seq::<char>::empty(), JsonView::Null)
                    },
            ),
        },
        Json::Outside { value, type_label } => JsonView::Outside {
            value,
            type_label: type_label@,
        },
    }
}

impl View for Json {
    type V = JsonView;

    open spec fn view(&self) -> JsonView {
        json_view(*self)
    }
}

/// The contents of a list of values.
pub open spec fn json_views(v: Seq<Json>) -> Seq<JsonView> {
    Seq::new(v.len(), |i: int| v[i]@)
}

/// The contents of a list of values with their keys.
pub open spec fn json_entries(v: Seq<(String, Json)>) -> Seq<(Seq<char>, JsonView)> {
    Seq::new(v.len(), |i: int| (v[i].0@, v[i].1@))
}

/// The form of a value of the store.
pub open spec fn form_of(items: Seq<Item>, h: usize) -> JsonView
    decreases h, 1int,
{
    match items[h as int] {
        Item::List(v) => JsonView::Array(
            Seq::new(
                v@.len(),
                |i: int|
                    if v@[i] < h {
                        form_of(items, v@[i])
                    } else {
                        JsonView::Null
                    },
            ),
        ),
        Item::Dict(v) => JsonView::Object(
            Seq::new(
                v@.len(),
                |i: int|
                    (
                        v@[i].0.text@,
                        if v@[i].1 < h {
                            form_of(items, v@[i].1)
                        } else {
                            JsonView::Null
                        },
                    ),
            ),
        ),
        Item::Net(n) => JsonView::Net {
            id: n.net_id,
            name: crate::lang::net::resolved_name(n@),
            properties: forms_of(items, handles_in(n.properties), h),
        },
        Item::Interface(v) => JsonView::Interface {
            fields: forms_of(items, handles_in(v.fields), h),
        },
        Item::Choice { type_label: _, value } => JsonView::Text(value@),
        Item::Quantity { type_label: _, shown, repr: _ } => JsonView::Text(shown@),
        Item::Nothing => JsonView::Null,
        Item::Bool(b) => JsonView::Bool(b),
        Item::Int(n) => JsonView::Number(n),
        Item::Text(s) => JsonView::Text(s@),
        other => JsonView::Outside {
            value: h,
            type_label: crate::lang::value::type_of(other),
        },
    }
}

/// The forms of the entries of a map, which stand before `h` in the store.
pub open spec fn forms_of(items: Seq<Item>, m: Seq<(Seq<char>, usize)>, h: usize) -> Seq<
    (Seq<char>, JsonView),
>
    decreases h, 0int,
{
    Seq::new(
        m.len(),
        |i: int|
            (
                m[i].0,
                if m[i].1 < h {
                    form_of(items, m[i].1)
                } else {
                    JsonView::Null
                },
            ),
    )
}

/// The form of a value.
pub fn serialize_value(store: &Store, h: usize) -> (r: Json)
    requires
        store.wf(),
        h < store.items@.len(),
    ensures
        r@ == form_of(store.items@, h),
    decreases h, 1int,
{
    let ghost items = store.items@;
    proof {
        assert(refers_below(items[h as int], h as int));
    }
    match &store.items[h] {
        Item::List(v) => {
            let mut out: Vec<Json> = Vec::new();
            let mut i: usize = 0;
            while i < v.len()
                invariant
                    i <= v@.len(),
                    items == store.items@,
                    store.wf(),
                    h < items.len(),
                    forall|k: int| 0 <= k < v@.len() ==> (#[trigger] v@[k]) < h,
                    out@.len() == i,
                    forall|k: int| 0 <= k < i ==> out@[k]@ == form_of(items, #[trigger] v@[k]),
                decreases v@.len() - i,
            {
                out.push(serialize_value(store, v[i]));
                i += 1;
            }
            let r = Json::Array(out);
            proof {
                assert(r@->Array_0 =~= form_of(items, h)->Array_0);
            }
            r
        },
        Item::Dict(v) => {
            let mut out: Vec<(String, Json)> = Vec::new();
            let mut i: usize = 0;
            while i < v.len()
                invariant
                    i <= v@.len(),
                    items == store.items@,
                    store.wf(),
                    h < items.len(),
                    forall|k: int| 0 <= k < v@.len() ==> (#[trigger] v@[k]).1 < h,
                    out@.len() == i,
                    forall|k: int|
                        0 <= k < i ==> out@[k].0@ == (#[trigger] v@[k]).0.text@ && out@[k].1@
                            == form_of(items, v@[k].1),
                decreases v@.len() - i,
            {
                out.push((v[i].0.text.clone(), serialize_value(store, v[i].1)));
                i += 1;
            }
            let r = Json::Object(out);
            proof {
                assert(r@->Object_0 =~= form_of(items, h)->Object_0);
            }
            r
        },
        Item::Net(n) => {
            let properties = serialize_entries(store, &n.properties, h);
            let r = Json::Net { id: n.net_id, name: n.name().to_owned(), properties };
            proof {
                assert(r@->properties =~= json_entries(properties@));
            }
            r
        },
        Item::Interface(v) => {
            let fields = serialize_entries(store, &v.fields, h);
            let r = Json::Interface { fields };
            proof {
                assert(r@->fields =~= json_entries(fields@));
            }
            r
        },
        Item::Choice { type_label: _, value } => Json::Text(value.clone()),
        Item::Quantity { type_label: _, shown, repr: _ } => Json::Text(shown.clone()),
        Item::Nothing => Json::Null,
        Item::Bool(b) => Json::Bool(*b),
        Item::Int(n) => Json::Number(*n),
        Item::Text(s) => Json::Text(s.clone()),
        _ => Json::Outside { value: h, type_label: store.type_label(h) },
    }
}

/// The forms of the entries of a map.
fn serialize_entries(
    store: &Store,
    m: &starlark::collections::SmallMap<String, usize>,
    h: usize,
) -> (r: Vec<(String, Json)>)
    requires
        store.wf(),
        h < store.items@.len(),
        crate::lang::value::all_below(handles_in(*m), h as int),
    ensures
        json_entries(r@) == forms_of(store.items@, handles_in(*m), h),
    decreases h, 0int,
{
    let ghost items = store.items@;
    let ghost all = handles_in(*m);
    let n = count_handles(m);
    let mut out: Vec<(String, Json)> = Vec::new();
    let mut i: usize = 0;
    while i < n
        invariant
            i <= n,
            n == all.len(),
            all == handles_in(*m),
            items == store.items@,
            store.wf(),
            h < items.len(),
            crate::lang::value::all_below(all, h as int),
            out@.len() == i,
            forall|k: int|
                0 <= k < i ==> out@[k].0@ == (#[trigger] all[k]).0 && out@[k].1@ == form_of(
                    items,
                    all[k].1,
                ),
        decreases n - i,
    {
        if let Some((k, v)) = handle_at(m, i) {
            proof {
                assert(all[i as int] == (k@, v));
            }
            out.push((k.to_owned(), serialize_value(store, v)));
        }
        i += 1;
    }
    proof {
        assert(json_entries(out@) =~= forms_of(items, all, h));
    }
    out
}

/// Which way a signal goes.
#[derive(Clone, Copy, PartialEq, Eq, Structural, Debug)]
pub enum IoDirection {
    Input,
    Output,
}

/// A parameter of a module, for its signature.
pub struct ParameterInfo {
    pub name: String,
    /// The parameter's type.
    pub type_value: usize,
    pub optional: bool,
    pub has_default: bool,
    /// Whether it is a `config()` rather than an `io()`.
    pub is_config: bool,
    pub help: Option<String>,
    pub direction: Option<IoDirection>,
    pub value: Option<Json>,
    pub default_value: Option<Json>,
    pub allowed_values: Option<Vec<Json>>,
    pub allowed_display: Option<Vec<String>>,
}

/// The contents of a parameter of a signature.
pub struct ParameterView {
    pub name: Seq<char>,
    pub type_value: usize,
    pub optional: bool,
    pub has_default: bool,
    pub is_config: bool,
    pub help: Option<Seq<char>>,
    pub direction: Option<IoDirection>,
    pub value: Option<JsonView>,
    pub default_value: Option<JsonView>,
    pub allowed_values: Option<Seq<JsonView>>,
    pub allowed_display: Option<Seq<Seq<char>>>,
}

/// The contents of an optional value.
pub open spec fn opt_json(o: Option<Json>) -> Option<JsonView> {
    match o {
        Some(j) => Some(j@),
        None => None,
    }
}

impl View for ParameterInfo {
    type V = ParameterView;

    open spec fn view(&self) -> ParameterView {
        ParameterView {
            name: self.name@,
            type_value: self.type_value,
            optional: self.optional,
            has_default: self.has_default,
            is_config: self.is_config,
            help: crate::text::opt_text(self.help),
            direction: self.direction,
            value: opt_json(self.value),
            default_value: opt_json(self.default_value),
            allowed_values: match self.allowed_values {
                Some(v) => Some(json_views(v@)),
                None => None,
            },
            allowed_display: match self.allowed_display {
                Some(v) => Some(texts(v@)),
                None => None,
            },
        }
    }
}

/// The contents of a signature.
pub open spec fn parameter_views(v: Seq<ParameterInfo>) -> Seq<ParameterView> {
    Seq::new(v.len(), |i: int| v[i]@)
}

} // verus!
