//! Interfaces: bundles of nets and values under field names, and how instances of them are made.
//!
//! What the making of an instance does to the world around it is listed as effects, in the order in
//! which they are due; the caller carries them out.

use starlark::collections::SmallMap;
use vstd::prelude::*;

use crate::diagnostic::{Place, PlaceView};
use crate::lang::net::{added_texts, applied_fields, key_names, lemma_put_below, opt_net, put_texts};
use crate::lang::net::{resolved_name, ConnectionIntent, NetInstantiateIntent};
use crate::lang::net::{NetInstantiateOptions, NetType, NetValue, NetView};
use crate::lang::value::{all_below, copy_handles, extends, lemma_below_later, lemma_extends_item};
use crate::lang::value::{net_of, refers_below, text_of, type_of, well_founded, InterfaceFactory};
use crate::lang::value::{InterfaceValue, Item, Store};
use crate::small_map::{count_handles, distinct, get_handle, handle_at, handles_in, lemma_place};
use crate::small_map::{lemma_put, names_of, new_handles, put, put_handle, under};
use crate::text::{as_opt_str, begins, clone_opt, clone_texts, contains_text, join, joined};
use crate::text::{lemma_texts_push, opt_str, opt_text, same, strip_prefix, texts, to_upper};
use crate::text::uppered;

verus! {

// ---------------------------------------------------------------------------------------------
// Names

/// What the names of an instance's nets begin with, in the old style and the new.
pub struct InstancePrefix {
    /// The old style, in upper case but for the root.
    pub old_style: String,
    pub new_style: String,
    /// Whether the nets take the name of the variable that the instance is assigned to.
    pub assignment_inferable: bool,
}

/// The contents of a prefix.
pub struct PrefixView {
    pub old_style: Seq<char>,
    pub new_style: Seq<char>,
    pub assignment_inferable: bool,
}

impl View for InstancePrefix {
    type V = PrefixView;

    open spec fn view(&self) -> PrefixView {
        PrefixView {
            old_style: self.old_style@,
            new_style: self.new_style@,
            assignment_inferable: self.assignment_inferable,
        }
    }
}

/// A segment behind a prefix, with an underscore between them where there is a prefix.
pub open spec fn joined_to(prefix: Seq<char>, segment: Seq<char>) -> Seq<char> {
    if prefix.len() == 0 {
        segment
    } else {
        prefix + "_"@ + segment
    }
}

/// The prefix of a field's own fields.
pub open spec fn child_of(p: PrefixView, field: Seq<char>) -> PrefixView {
    PrefixView {
        old_style: joined_to(p.old_style, uppered(field)),
        new_style: joined_to(p.new_style, field),
        assignment_inferable: p.assignment_inferable,
    }
}

/// The new name and the old name of a net.
pub open spec fn names_under(p: PrefixView, leaf: Seq<char>) -> (Seq<char>, Seq<char>) {
    if p.new_style.len() == 0 {
        ("_"@ + leaf, uppered(leaf))
    } else {
        (joined_to(p.new_style, leaf), joined_to(p.old_style, uppered(leaf)))
    }
}

/// The prefix of an instance that has no name.
pub open spec fn no_prefix() -> PrefixView {
    PrefixView {
        old_style: Seq::<char>::empty(),
        new_style: Seq::<char>::empty(),
        assignment_inferable: true,
    }
}

impl InstancePrefix {
    /// The prefix of an instance that has no name.
    pub fn empty() -> (r: InstancePrefix)
        ensures
            r@ == no_prefix(),
    {
        let r = InstancePrefix {
            old_style: String::new(),
            new_style: String::new(),
            assignment_inferable: true,
        };
        proof {
            assert(r@.old_style =~= Seq::<char>::empty());
            assert(r@.new_style =~= Seq::<char>::empty());
        }
        r
    }

    /// The prefix of an instance that has a name.
    pub fn from_root(root: &str) -> (r: InstancePrefix)
        ensures
            r@ == (PrefixView { old_style: root@, new_style: root@, assignment_inferable: false }),
    {
        InstancePrefix {
            old_style: root.to_owned(),
            new_style: root.to_owned(),
            assignment_inferable: false,
        }
    }

    /// Puts a segment behind a prefix.
    pub fn join(prefix: &str, segment: &str) -> (r: String)
        ensures
            r@ == joined_to(prefix@, segment@),
    {
        if prefix.unicode_len() == 0 {
            segment.to_owned()
        } else {
            let mut out = prefix.to_owned();
            out.append("_");
            out.append(segment);
            out
        }
    }

    /// The prefix of a field's own fields.
    pub fn child(&self, field: &str) -> (r: InstancePrefix)
        ensures
            r@ == child_of(self@, field@),
    {
        let upper = to_upper(field);
        InstancePrefix {
            old_style: InstancePrefix::join(self.old_style.as_str(), upper.as_str()),
            new_style: InstancePrefix::join(self.new_style.as_str(), field),
            assignment_inferable: self.assignment_inferable,
        }
    }

    /// The new name and the old name of a net.
    pub fn net_names(&self, leaf: &str) -> (r: (String, String))
        ensures
            (r.0@, r.1@) == names_under(self@, leaf@),
    {
        let upper = to_upper(leaf);
        if self.new_style.as_str().unicode_len() == 0 {
            let mut name = "_".to_owned();
            name.append(leaf);
            (name, upper)
        } else {
            (
                InstancePrefix::join(self.new_style.as_str(), leaf),
                InstancePrefix::join(self.old_style.as_str(), upper.as_str()),
            )
        }
    }

    /// Another prefix with the same contents.
    pub fn copy(&self) -> (r: InstancePrefix)
        ensures
            r@ == self@,
    {
        InstancePrefix {
            old_style: self.old_style.clone(),
            new_style: self.new_style.clone(),
            assignment_inferable: self.assignment_inferable,
        }
    }
}

/// The nets of a named instance, and those of its fields at any depth, are named after it: the old
/// name and the new one differ in the case of the letters alone.
pub proof fn law_old_and_new_names_agree(p: PrefixView, field: Seq<char>, leaf: Seq<char>)
    requires
        uppered(p.old_style) == uppered(p.new_style),
        p.new_style.len() > 0,
    ensures
        uppered(child_of(p, field).old_style) == uppered(child_of(p, field).new_style),
        child_of(p, field).new_style.len() > 0,
        uppered(names_under(p, leaf).0) == uppered(names_under(p, leaf).1),
{
    lemma_upper_joined(p.old_style, p.new_style, field);
    lemma_upper_joined(p.old_style, p.new_style, leaf);
    assert(p.old_style.len() == uppered(p.old_style).len());
    assert(p.new_style.len() == uppered(p.new_style).len());
    reveal_strlit("_");
}

proof fn lemma_upper_joined(old_style: Seq<char>, new_style: Seq<char>, segment: Seq<char>)
    requires
        uppered(old_style) == uppered(new_style),
        new_style.len() > 0,
    ensures
        uppered(joined_to(old_style, uppered(segment))) == uppered(joined_to(new_style, segment)),
{
    assert(old_style.len() == uppered(old_style).len());
    assert(new_style.len() == uppered(new_style).len());
    let a = old_style + "_"@ + uppered(segment);
    let b = new_style + "_"@ + segment;
    assert(uppered(a).len() == uppered(b).len());
    assert forall|i: int| 0 <= i < uppered(a).len() implies uppered(a)[i] == uppered(b)[i] by {
        assert(uppered(a)[i] == crate::text::upper_ascii(a[i]));
        assert(uppered(b)[i] == crate::text::upper_ascii(b[i]));
        if i < old_style.len() {
            assert(uppered(old_style)[i] == crate::text::upper_ascii(old_style[i]));
            assert(uppered(new_style)[i] == crate::text::upper_ascii(new_style[i]));
            assert(a[i] == old_style[i]);
            assert(b[i] == new_style[i]);
        } else if i < old_style.len() + "_"@.len() {
            assert(a[i] == "_"@[i - old_style.len()]);
            assert(b[i] == "_"@[i - old_style.len()]);
        } else {
            let k = i - old_style.len() - "_"@.len();
            assert(a[i] == uppered(segment)[k]);
            assert(b[i] == segment[k]);
            let c = segment[k];
            assert(uppered(segment)[k] == crate::text::upper_ascii(c));
            assert(crate::text::upper_ascii(crate::text::upper_ascii(c))
                == crate::text::upper_ascii(c));
        }
    }
    assert(uppered(a) =~= uppered(b));
}

// ---------------------------------------------------------------------------------------------
// Effects

/// What is to be done besides the making of values.
pub enum Effect {
    /// The old name of a net is to lead to the new one.
    Moved { old_name: String, new_name: String },
    /// A name is to be checked.
    CheckName { name: String },
    /// A net is to be registered under its name, and takes the name that it is registered under.
    Register { net: usize },
    /// A function is to be called on an instance.
    PostInit { function: usize, instance: usize },
}

/// The contents of an effect.
pub enum EffectView {
    Moved(Seq<char>, Seq<char>),
    CheckName(Seq<char>),
    Register(usize),
    PostInit(usize, usize),
}

impl View for Effect {
    type V = EffectView;

    open spec fn view(&self) -> EffectView {
        match *self {
            Effect::Moved { old_name, new_name } => EffectView::Moved(old_name@, new_name@),
            Effect::CheckName { name } => EffectView::CheckName(name@),
            Effect::Register { net } => EffectView::Register(net),
            Effect::PostInit { function, instance } => EffectView::PostInit(function, instance),
        }
    }
}

/// The contents of a list of effects.
pub open spec fn effect_views(v: Seq<Effect>) -> Seq<EffectView> {
    Seq::new(v.len(), |i: int| v[i]@)
}

proof fn lemma_effects_push(v: Seq<Effect>, e: Effect)
    ensures
        effect_views(v.push(e)) == effect_views(v).push(e@),
{
    assert(effect_views(v.push(e)) =~= effect_views(v).push(e@));
}

/// A value that was made.
pub ghost enum Made {
    Net(NetView),
    Text(Seq<char>),
    Interface {
        fields: Seq<(Seq<char>, usize)>,
        generated: Seq<Seq<char>>,
        root: Option<Seq<char>>,
        factory: usize,
    },
}

/// Whether a value of the store is one that was made.
pub open spec fn is_made(item: Item, m: Made) -> bool {
    match m {
        Made::Net(n) => opt_net(net_of(item)) == Some(n),
        Made::Text(t) => text_of(item) == Some(t),
        Made::Interface { fields, generated, root, factory } => match item {
            Item::Interface(v) => handles_in(v.fields) == fields && texts(v.generated_fields@)
                == generated && opt_text(v.instance_root_name) == root && v.factory == factory,
            _ => false,
        },
    }
}

/// The store at the start, and what holds throughout.
pub ghost struct Setting {
    pub items: Seq<Item>,
    /// The number of the first new net.
    pub id: int,
    /// Whether nets are registered.
    pub register: bool,
    pub site: PlaceView,
}

/// What was done so far.
pub ghost struct Build {
    /// The nets that were cloned, with their clones.
    pub nets: Seq<(u64, usize)>,
    /// The values that were made, in the order of their places.
    pub made: Seq<Made>,
    /// How many numbers of nets were used.
    pub ids: int,
    pub effects: Seq<EffectView>,
}

/// Nothing was done so far.
pub open spec fn nothing_built() -> Build {
    Build {
        nets: Seq::<(u64, usize)>::empty(),
        made: Seq::<Made>::empty(),
        ids: 0,
        effects: Seq::<EffectView>::empty(),
    }
}

/// The place of the next value that is made.
pub open spec fn next_place(s: Setting, b: Build) -> usize {
    (s.items.len() + b.made.len()) as usize
}

/// The clone of a net, where it was cloned.
pub open spec fn clone_of(nets: Seq<(u64, usize)>, id: u64) -> Option<usize>
    decreases nets.len(),
{
    if nets.len() == 0 {
        None
    } else if nets[0].0 == id {
        Some(nets[0].1)
    } else {
        clone_of(nets.skip(1), id)
    }
}

/// The last part of a net's name: that of the template, else the field's.
pub open spec fn leaf_of(template: Option<Seq<char>>, field: Option<Seq<char>>) -> Seq<char> {
    match template {
        Some(t) => t,
        None => match field {
            Some(f) => f,
            None => "NET"@,
        },
    }
}

/// The effects of naming a net.
pub open spec fn named_effects(p: PrefixView, leaf: Seq<char>, effects: Seq<EffectView>) -> Seq<
    EffectView,
> {
    let (new_name, old_name) = names_under(p, leaf);
    if old_name != new_name {
        effects.push(EffectView::Moved(old_name, new_name))
    } else {
        effects
    }
}

/// The effects of registering a net.
pub open spec fn registered_effects(s: Setting, h: usize, effects: Seq<EffectView>) -> Seq<
    EffectView,
> {
    if s.register {
        effects.push(EffectView::Register(h))
    } else {
        effects
    }
}

// ---------------------------------------------------------------------------------------------
// Clones

/// The clone of a net under a new name and number. A net that was cloned before has one clone.
pub open spec fn cloned_net(
    s: Setting,
    p: PrefixView,
    field: Option<Seq<char>>,
    net: NetView,
    b: Build,
) -> (usize, Build) {
    match clone_of(b.nets, net.net_id) {
        Some(h) => (h, b),
        None => {
            let leaf = leaf_of(net.template_name, field);
            let h = next_place(s, b);
            (
                h,
                Build {
                    nets: b.nets.push((net.net_id, h)),
                    made: b.made.push(
                        Made::Net(
                            NetView {
                                net_id: (s.id + b.ids) as u64,
                                name: names_under(p, leaf).0,
                                assignment_inferable: p.assignment_inferable,
                                inferred_name: None,
                                ..net
                            },
                        ),
                    ),
                    ids: b.ids + 1,
                    effects: registered_effects(s, h, named_effects(p, leaf, b.effects)),
                },
            )
        },
    }
}

/// The clone of a field's value: nets and interfaces are cloned, anything else is shared.
pub open spec fn cloned_value(
    s: Setting,
    p: PrefixView,
    name: Seq<char>,
    h: usize,
    b: Build,
) -> (usize, Build)
    decreases h, 2int, 0int,
{
    match s.items[h as int] {
        Item::Net(net) => cloned_net(s, p, Some(name), net@, b),
        Item::Interface(_) => cloned_interface(s, child_of(p, name), h, b),
        _ => (h, b),
    }
}

/// The clone of an instance of an interface.
pub open spec fn cloned_interface(s: Setting, p: PrefixView, h: usize, b: Build) -> (usize, Build)
    decreases h, 1int, 0int,
{
    match s.items[h as int] {
        Item::Interface(v) => {
            let (fields, c) = cloned_fields(s, p, h, handles_in(v.fields), b);
            (
                next_place(s, c),
                Build {
                    made: c.made.push(
                        Made::Interface {
                            fields,
                            generated: texts(v.generated_fields@),
                            root: opt_text(v.instance_root_name),
                            factory: v.factory,
                        },
                    ),
                    ..c
                },
            )
        },
        _ => (h, b),
    }
}

/// The clones of the fields of an instance.
pub open spec fn cloned_fields(
    s: Setting,
    p: PrefixView,
    h: usize,
    f: Seq<(Seq<char>, usize)>,
    b: Build,
) -> (Seq<(Seq<char>, usize)>, Build)
    decreases h, 0int, f.len(),
{
    if f.len() == 0 {
        (Seq::<(Seq<char>, usize)>::empty(), b)
    } else {
        let (done, c) = cloned_fields(s, p, h, f.drop_last(), b);
        let (name, child) = f.last();
        if child < h {
            let (x, d) = cloned_value(s, p, name, child, c);
            (put(done, name, x), d)
        } else {
            (done, c)
        }
    }
}

// ---------------------------------------------------------------------------------------------
// Instances

/// The defaults of the fields of a net type.
pub open spec fn default_fields(items: Seq<Item>, f: Seq<(Seq<char>, usize)>) -> Seq<
    (Seq<char>, usize),
>
    decreases f.len(),
{
    if f.len() == 0 {
        Seq::<(Seq<char>, usize)>::empty()
    } else {
        let r = default_fields(items, f.drop_last());
        match items[f.last().1 as int] {
            Item::Field(Some(d)) => put(r, f.last().0, d),
            _ => r,
        }
    }
}

/// The net that a net type makes for a field.
pub open spec fn generated_net(
    s: Setting,
    p: PrefixView,
    name: Seq<char>,
    t: NetType,
    b: Build,
) -> (usize, Build) {
    let new_name = names_under(p, name).0;
    let fields = handles_in(t.fields);
    let props = applied_fields(
        fields,
        default_fields(s.items, fields),
        Seq::<Seq<char>>::empty(),
        s.items,
        t.type_label@,
        Seq::<(Seq<char>, usize)>::empty(),
    );
    let added = added_texts(props, s.items);
    let made = b.made + Seq::new(added.len(), |i: int| Made::Text(added[i].1));
    let h = (s.items.len() + made.len()) as usize;
    (
        h,
        Build {
            nets: b.nets,
            made: made.push(
                Made::Net(
                    NetView {
                        net_id: (s.id + b.ids) as u64,
                        name: new_name,
                        template_name: if p.assignment_inferable {
                            None
                        } else {
                            Some(new_name)
                        },
                        original_name: Some(new_name),
                        assignment_inferable: p.assignment_inferable,
                        was_bound: false,
                        inferred_name: None,
                        declaration_path: s.site.path,
                        declaration_span: s.site.span,
                        type_label: t.type_label@,
                        connection_intent: ConnectionIntent::Connected,
                        properties: put_texts(props, added, s.items.len() as int + b.made.len()),
                    },
                ),
            ),
            ids: b.ids + 1,
            effects: registered_effects(
                s,
                h,
                named_effects(p, name, b.effects).push(EffectView::CheckName(new_name)),
            ),
        },
    )
}

/// What was provided for a field: a value that has the field's type, or what is wrong with it.
pub struct ProvidedField {
    pub name: String,
    pub value: Result<usize, String>,
}

/// What was provided for a field, if anything.
pub open spec fn provided_for(v: Seq<ProvidedField>, name: Seq<char>) -> Option<
    Result<usize, Seq<char>>,
>
    decreases v.len(),
{
    if v.len() == 0 {
        None
    } else if v[0].name@ == name {
        match v[0].value {
            Ok(h) => Some(Ok(h)),
            Err(e) => Some(Err(e@)),
        }
    } else {
        provided_for(v.skip(1), name)
    }
}

/// The fields that nothing was provided for.
pub open spec fn generated_names(f: Seq<(Seq<char>, usize)>, v: Seq<ProvidedField>) -> Seq<Seq<char>>
    decreases f.len(),
{
    if f.len() == 0 {
        Seq::<Seq<char>>::empty()
    } else {
        let r = generated_names(f.drop_last(), v);
        if provided_for(v, f.last().0) is None {
            r.push(f.last().0)
        } else {
            r
        }
    }
}

/// The error for a value that no instance can be made of.
pub open spec fn no_instance(item: Item) -> Seq<char> {
    "internal error: unexpected value type in instantiate_interface: "@ + type_of(item)
        + " (expected InterfaceFactory or InterfaceValue)"@
}

/// The value of a field of a new instance.
pub open spec fn made_field(
    s: Setting,
    p: PrefixView,
    name: Seq<char>,
    spec_at: usize,
    provided: Option<Result<usize, Seq<char>>>,
    b: Build,
) -> (Result<usize, Seq<char>>, Build)
    decreases spec_at, 2int, 0int,
{
    match provided {
        Some(Ok(h)) => (Ok(h), b),
        Some(Err(e)) => (Err(e), b),
        None => match s.items[spec_at as int] {
            Item::Field(Some(d)) => (Ok(d), b),
            Item::Interface(_) => {
                let (h, c) = cloned_interface(
                    s,
                    child_of(p, name),
                    spec_at,
                    Build { nets: Seq::<(u64, usize)>::empty(), ..b },
                );
                (Ok(h), Build { nets: b.nets, ..c })
            },
            Item::Net(net) => {
                let (h, c) = cloned_net(
                    s,
                    p,
                    Some(name),
                    net@,
                    Build { nets: Seq::<(u64, usize)>::empty(), ..b },
                );
                (Ok(h), Build { nets: b.nets, ..c })
            },
            Item::NetType(t) => {
                let (h, c) = generated_net(s, p, name, t, b);
                (Ok(h), c)
            },
            Item::InterfaceFactory(_) => made_instance(
                s,
                child_of(p, name),
                spec_at,
                Seq::<ProvidedField>::empty(),
                b,
            ),
            other => (Err(no_instance(other)), b),
        },
    }
}

/// The fields of a new instance, or the first error.
pub open spec fn made_fields(
    s: Setting,
    p: PrefixView,
    h: usize,
    f: Seq<(Seq<char>, usize)>,
    provided: Seq<ProvidedField>,
    b: Build,
) -> (Result<Seq<(Seq<char>, usize)>, Seq<char>>, Build)
    decreases h, 0int, f.len(),
{
    if f.len() == 0 {
        (Ok(Seq::<(Seq<char>, usize)>::empty()), b)
    } else {
        let (before, c) = made_fields(s, p, h, f.drop_last(), provided, b);
        let (name, spec_at) = f.last();
        match before {
            Err(e) => (Err(e), c),
            Ok(done) => if spec_at < h {
                let (x, d) = made_field(s, p, name, spec_at, provided_for(provided, name), c);
                match x {
                    Err(e) => (Err(e), d),
                    Ok(x) => (Ok(put(done, name, x)), d),
                }
            } else {
                (Ok(done), c)
            },
        }
    }
}

/// The effects of a function to call on an instance.
pub open spec fn post_init_effects(
    items: Seq<Item>,
    post_init: Option<usize>,
    h: usize,
    effects: Seq<EffectView>,
) -> Seq<EffectView> {
    match post_init {
        Some(f) => if items[f as int] == Item::Nothing {
            effects
        } else {
            effects.push(EffectView::PostInit(f, h))
        },
        None => effects,
    }
}

/// A new instance of an interface.
pub open spec fn made_instance(
    s: Setting,
    p: PrefixView,
    h: usize,
    provided: Seq<ProvidedField>,
    b: Build,
) -> (Result<usize, Seq<char>>, Build)
    decreases h, 1int, 0int,
{
    match s.items[h as int] {
        Item::InterfaceFactory(f) => {
            let (fields, c) = made_fields(s, p, h, handles_in(f.fields), provided, b);
            match fields {
                Err(e) => (Err(e), c),
                Ok(fields) => {
                    let at = next_place(s, c);
                    (
                        Ok(at),
                        Build {
                            made: c.made.push(
                                Made::Interface {
                                    fields,
                                    generated: generated_names(handles_in(f.fields), provided),
                                    root: if p.assignment_inferable {
                                        None
                                    } else {
                                        Some(p.new_style)
                                    },
                                    factory: h,
                                },
                            ),
                            effects: post_init_effects(s.items, f.post_init, at, c.effects),
                            ..c
                        },
                    )
                },
            }
        },
        other => (Err(no_instance(other)), b),
    }
}

/// An instance of whatever describes one: a new one of an interface, a clone of an instance.
pub open spec fn instance_of(s: Setting, p: PrefixView, h: usize, b: Build) -> (
    Result<usize, Seq<char>>,
    Build,
) {
    match s.items[h as int] {
        Item::Interface(_) => {
            let (r, c) = cloned_interface(
                s,
                p,
                h,
                Build { nets: Seq::<(u64, usize)>::empty(), ..b },
            );
            (Ok(r), Build { nets: b.nets, ..c })
        },
        _ => made_instance(s, p, h, Seq::<ProvidedField>::empty(), b),
    }
}

// ---------------------------------------------------------------------------------------------
// What holds of what was built

/// Whether what was built follows on what was built before.
pub open spec fn builds_on(c: Build, b: Build) -> bool {
    &&& b.made.len() <= c.made.len()
    &&& b.ids <= c.ids
    &&& forall|i: int| 0 <= i < b.made.len() ==> #[trigger] c.made[i] == b.made[i]
    &&& b.effects.len() <= c.effects.len()
    &&& forall|i: int| 0 <= i < b.effects.len() ==> #[trigger] c.effects[i] == b.effects[i]
}

/// Whether the new nets have new numbers, in order.
pub open spec fn numbered(id: int, b: Build) -> bool {
    &&& b.ids >= 0
    &&& forall|i: int|
        0 <= i < b.made.len() && #[trigger] b.made[i] is Net ==> id <= b.made[i]->Net_0.net_id < id
            + b.ids
    &&& forall|i: int, j: int|
        0 <= i < j < b.made.len() && #[trigger] b.made[i] is Net && #[trigger] b.made[j] is Net
            ==> b.made[i]->Net_0.net_id < b.made[j]->Net_0.net_id
}

/// Whether no net has two clones.
pub open spec fn cloned_once(nets: Seq<(u64, usize)>) -> bool {
    forall|i: int, j: int| 0 <= i < j < nets.len() ==> (#[trigger] nets[i]).0 != (#[trigger] nets[j]).0
}

/// Whether every clone that is known stays known.
pub open spec fn clones_kept(later: Seq<(u64, usize)>, earlier: Seq<(u64, usize)>) -> bool {
    forall|id: u64|
        #[trigger] clone_of(earlier, id) is Some ==> clone_of(later, id) == clone_of(earlier, id)
}

proof fn lemma_clone_of(nets: Seq<(u64, usize)>, id: u64)
    ensures
        clone_of(nets, id) is Some <==> exists|i: int| 0 <= i < nets.len() && (#[trigger] nets[i]).0
            == id,
        clone_of(nets, id) is Some ==> exists|i: int|
            0 <= i < nets.len() && (#[trigger] nets[i]) == (id, clone_of(nets, id)->Some_0),
    decreases nets.len(),
{
    if nets.len() > 0 {
        lemma_clone_of(nets.skip(1), id);
        let t = nets.skip(1);
        if nets[0].0 == id {
            assert(nets[0] == (id, clone_of(nets, id)->Some_0));
        } else {
            if exists|i: int| 0 <= i < nets.len() && (#[trigger] nets[i]).0 == id {
                let i = choose|i: int| 0 <= i < nets.len() && (#[trigger] nets[i]).0 == id;
                assert(t[i - 1] == nets[i]);
            }
            if clone_of(t, id) is Some {
                let i = choose|i: int|
                    0 <= i < t.len() && (#[trigger] t[i]) == (id, clone_of(t, id)->Some_0);
                assert(nets[i + 1] == t[i]);
            }
        }
    }
}

proof fn lemma_clone_of_push(nets: Seq<(u64, usize)>, id: u64, h: usize, q: u64)
    ensures
        clone_of(nets.push((id, h)), q) == (match clone_of(nets, q) {
            Some(x) => Some(x),
            None => if q == id {
                Some(h)
            } else {
                None
            },
        }),
    decreases nets.len(),
{
    let v = nets.push((id, h));
    reveal_with_fuel(clone_of, 2);
    if nets.len() == 0 {
        assert(v[0] == (id, h));
        assert(v.skip(1) =~= Seq::<(u64, usize)>::empty());
    } else {
        lemma_clone_of_push(nets.skip(1), id, h, q);
        assert(v.skip(1) =~= nets.skip(1).push((id, h)));
        assert(v[0] == nets[0]);
    }
}

proof fn lemma_numbered_push(id: int, b: Build, m: Made, c: Build)
    requires
        numbered(id, b),
        c.made == b.made.push(m),
        m is Net ==> c.ids == b.ids + 1 && m->Net_0.net_id == id + b.ids,
        !(m is Net) ==> c.ids == b.ids,
    ensures
        numbered(id, c),
{
    assert forall|i: int, j: int|
        0 <= i < j < c.made.len() && #[trigger] c.made[i] is Net && #[trigger] c.made[j] is Net implies c.made[i]->Net_0.net_id
        < c.made[j]->Net_0.net_id by {
        if j < b.made.len() {
            assert(b.made[i] == c.made[i]);
            assert(b.made[j] == c.made[j]);
        } else {
            assert(b.made[i] == c.made[i]);
        }
    }
    assert forall|i: int| 0 <= i < c.made.len() && #[trigger] c.made[i] is Net implies id
        <= c.made[i]->Net_0.net_id < id + c.ids by {
        if i < b.made.len() {
            assert(b.made[i] == c.made[i]);
        }
    }
}

proof fn lemma_cloned_net(s: Setting, p: PrefixView, field: Option<Seq<char>>, net: NetView, b: Build)
    ensures
        ({
            let (h, c) = cloned_net(s, p, field, net, b);
            &&& builds_on(c, b)
            &&& clones_kept(c.nets, b.nets)
            &&& clone_of(c.nets, net.net_id) == Some(h)
            &&& cloned_once(b.nets) ==> cloned_once(c.nets)
            &&& numbered(s.id, b) && 0 <= s.id && s.id + c.ids <= u64::MAX + 1 ==> numbered(s.id, c)
        }),
{
    let (h, c) = cloned_net(s, p, field, net, b);
    if clone_of(b.nets, net.net_id) is None {
        assert forall|q: u64| #[trigger] clone_of(b.nets, q) is Some implies clone_of(c.nets, q)
            == clone_of(b.nets, q) by {
            lemma_clone_of_push(b.nets, net.net_id, h, q);
        }
        lemma_clone_of_push(b.nets, net.net_id, h, net.net_id);
        if cloned_once(b.nets) {
            assert forall|i: int, j: int| 0 <= i < j < c.nets.len() implies (#[trigger] c.nets[i]).0
                != (#[trigger] c.nets[j]).0 by {
                lemma_clone_of(b.nets, net.net_id);
                if j < b.nets.len() {
                    assert(b.nets[i].0 != b.nets[j].0);
                } else {
                    assert(b.nets[i] == c.nets[i]);
                }
            }
        }
        if numbered(s.id, b) && 0 <= s.id && s.id + c.ids <= u64::MAX + 1 {
            lemma_numbered_push(s.id, b, c.made.last(), c);
        }
    }
}

/// What holds of every clone.
pub open spec fn sound(s: Setting, c: Build, b: Build) -> bool {
    &&& builds_on(c, b)
    &&& clones_kept(c.nets, b.nets)
    &&& cloned_once(b.nets) ==> cloned_once(c.nets)
    &&& numbered(s.id, b) && 0 <= s.id && s.id + c.ids <= u64::MAX + 1 ==> numbered(s.id, c)
}

proof fn lemma_sound_trans(s: Setting, d: Build, c: Build, b: Build)
    requires
        sound(s, d, c),
        sound(s, c, b),
    ensures
        sound(s, d, b),
{
    assert forall|i: int| 0 <= i < b.made.len() implies #[trigger] d.made[i] == b.made[i] by {
        assert(c.made[i] == b.made[i]);
    }
    assert forall|i: int| 0 <= i < b.effects.len() implies #[trigger] d.effects[i] == b.effects[i] by {
        assert(c.effects[i] == b.effects[i]);
    }
    assert forall|id: u64| #[trigger] clone_of(b.nets, id) is Some implies clone_of(d.nets, id)
        == clone_of(b.nets, id) by {
        assert(clone_of(c.nets, id) == clone_of(b.nets, id));
    }
}

proof fn lemma_cloned_value(s: Setting, p: PrefixView, name: Seq<char>, h: usize, b: Build)
    ensures
        sound(s, cloned_value(s, p, name, h, b).1, b),
        s.items[h as int] is Net ==> clone_of(
            cloned_value(s, p, name, h, b).1.nets,
            s.items[h as int]->Net_0.net_id,
        ) == Some(cloned_value(s, p, name, h, b).0),
    decreases h, 2int, 0int,
{
    match s.items[h as int] {
        Item::Net(net) => {
            lemma_cloned_net(s, p, Some(name), net@, b);
        },
        Item::Interface(_) => {
            lemma_cloned_interface(s, child_of(p, name), h, b);
        },
        _ => {},
    }
}

proof fn lemma_cloned_interface(s: Setting, p: PrefixView, h: usize, b: Build)
    ensures
        sound(s, cloned_interface(s, p, h, b).1, b),
    decreases h, 1int, 0int,
{
    match s.items[h as int] {
        Item::Interface(v) => {
            lemma_cloned_fields(s, p, h, handles_in(v.fields), b);
            let (fields, c) = cloned_fields(s, p, h, handles_in(v.fields), b);
            let d = cloned_interface(s, p, h, b).1;
            assert(sound(s, d, c)) by {
                if numbered(s.id, c) {
                    lemma_numbered_push(s.id, c, d.made.last(), d);
                }
            }
            lemma_sound_trans(s, d, c, b);
        },
        _ => {},
    }
}

proof fn lemma_cloned_fields(
    s: Setting,
    p: PrefixView,
    h: usize,
    f: Seq<(Seq<char>, usize)>,
    b: Build,
)
    ensures
        sound(s, cloned_fields(s, p, h, f, b).1, b),
    decreases h, 0int, f.len(),
{
    if f.len() > 0 {
        lemma_cloned_fields(s, p, h, f.drop_last(), b);
        let (done, c) = cloned_fields(s, p, h, f.drop_last(), b);
        let (name, child) = f.last();
        if child < h {
            lemma_cloned_value(s, p, name, child, c);
            lemma_sound_trans(s, cloned_value(s, p, name, child, c).1, c, b);
        }
    }
}

/// Fields of an instance that share a net share its clone, and a net is cloned once in an instance,
/// however many fields at whatever depth hold it.
pub proof fn law_clones_keep_aliases(s: Setting, p: PrefixView, h: usize, f: Seq<(Seq<char>, usize)>, b: Build)
    requires
        distinct(f),
        cloned_once(b.nets),
        forall|i: int| 0 <= i < f.len() ==> (#[trigger] f[i]).1 < h,
    ensures
        cloned_once(cloned_fields(s, p, h, f, b).1.nets),
        distinct(cloned_fields(s, p, h, f, b).0),
        forall|i: int|
            0 <= i < f.len() && s.items[(#[trigger] f[i]).1 as int] is Net ==> under(
                cloned_fields(s, p, h, f, b).0,
                f[i].0,
            ) == clone_of(
                cloned_fields(s, p, h, f, b).1.nets,
                s.items[f[i].1 as int]->Net_0.net_id,
            ),
        forall|i: int, j: int|
            0 <= i < f.len() && 0 <= j < f.len() && s.items[(#[trigger] f[i]).1 as int] is Net
                && s.items[(#[trigger] f[j]).1 as int] is Net
                && s.items[f[i].1 as int]->Net_0.net_id == s.items[f[j].1 as int]->Net_0.net_id
                ==> under(cloned_fields(s, p, h, f, b).0, f[i].0) == under(
                cloned_fields(s, p, h, f, b).0,
                f[j].0,
            ),
    decreases f.len(),
{
    lemma_cloned_fields(s, p, h, f, b);
    if f.len() > 0 {
        let d = f.drop_last();
        assert forall|i: int| 0 <= i < d.len() implies (#[trigger] d[i]).1 < h by {
            assert(d[i] == f[i]);
        }
        assert(distinct(d)) by {
            assert forall|i: int, j: int| 0 <= i < j < d.len() implies (#[trigger] d[i]).0 != (
            #[trigger] d[j]).0 by {
                assert(f[i].0 != f[j].0);
            }
        }
        law_clones_keep_aliases(s, p, h, d, b);
        let (done, c) = cloned_fields(s, p, h, d, b);
        let (name, child) = f.last();
        assert(f[f.len() - 1] == f.last());
        let (x, e) = cloned_value(s, p, name, child, c);
        lemma_cloned_value(s, p, name, child, c);
        lemma_put(done, name, x);
        let all = put(done, name, x);
        assert forall|i: int|
            0 <= i < f.len() && s.items[(#[trigger] f[i]).1 as int] is Net implies under(all, f[i].0)
            == clone_of(e.nets, s.items[f[i].1 as int]->Net_0.net_id) by {
            if i < d.len() {
                assert(d[i] == f[i]);
                assert(f[i].0 != f[f.len() - 1].0);
                lemma_field_cloned(s, p, h, d, b, i);
                let id = s.items[f[i].1 as int]->Net_0.net_id;
                assert(clone_of(c.nets, id) is Some);
            }
        }
    }
}

proof fn lemma_field_cloned(
    s: Setting,
    p: PrefixView,
    h: usize,
    f: Seq<(Seq<char>, usize)>,
    b: Build,
    i: int,
)
    requires
        0 <= i < f.len(),
        f[i].1 < h,
        s.items[f[i].1 as int] is Net,
    ensures
        clone_of(
            cloned_fields(s, p, h, f, b).1.nets,
            s.items[f[i].1 as int]->Net_0.net_id,
        ) is Some,
    decreases f.len(),
{
    let d = f.drop_last();
    let (done, c) = cloned_fields(s, p, h, d, b);
    let (name, child) = f.last();
    let id = s.items[f[i].1 as int]->Net_0.net_id;
    if child < h {
        lemma_cloned_value(s, p, name, child, c);
    }
    if i < d.len() {
        assert(d[i] == f[i]);
        lemma_field_cloned(s, p, h, d, b, i);
        assert(clone_of(c.nets, id) is Some);
    }
}

proof fn lemma_generated_net(s: Setting, p: PrefixView, name: Seq<char>, t: NetType, b: Build)
    ensures
        sound(s, generated_net(s, p, name, t, b).1, b),
{
    let (h, c) = generated_net(s, p, name, t, b);
    let fields = handles_in(t.fields);
    let props = applied_fields(
        fields,
        default_fields(s.items, fields),
        Seq::<Seq<char>>::empty(),
        s.items,
        t.type_label@,
        Seq::<(Seq<char>, usize)>::empty(),
    );
    let added = added_texts(props, s.items);
    let with_texts = Build {
        made: b.made + Seq::new(added.len(), |i: int| Made::Text(added[i].1)),
        ..b
    };
    assert(c.made == with_texts.made.push(c.made.last()));
    if numbered(s.id, b) && 0 <= s.id && s.id + c.ids <= u64::MAX + 1 {
        assert(numbered(s.id, with_texts)) by {
            assert forall|i: int| 0 <= i < with_texts.made.len() && #[trigger] with_texts.made[i] is Net implies i
                < b.made.len() && with_texts.made[i] == b.made[i] by {
                if i >= b.made.len() {
                    assert(with_texts.made[i] == Made::Text(added[i - b.made.len()].1));
                }
            }
            assert forall|i: int, j: int|
                0 <= i < j < with_texts.made.len() && #[trigger] with_texts.made[i] is Net
                    && #[trigger] with_texts.made[j] is Net implies with_texts.made[i]->Net_0.net_id
                < with_texts.made[j]->Net_0.net_id by {
                assert(b.made[i] is Net);
                assert(b.made[j] is Net);
            }
        }
        lemma_numbered_push(s.id, with_texts, c.made.last(), c);
    }
}

proof fn lemma_made_field(
    s: Setting,
    p: PrefixView,
    name: Seq<char>,
    spec_at: usize,
    provided: Option<Result<usize, Seq<char>>>,
    b: Build,
)
    ensures
        sound(s, made_field(s, p, name, spec_at, provided, b).1, b),
    decreases spec_at, 2int, 0int,
{
    if provided is None {
        let fresh = Build { nets: Seq::<(u64, usize)>::empty(), ..b };
        match s.items[spec_at as int] {
            Item::Interface(_) => {
                lemma_cloned_interface(s, child_of(p, name), spec_at, fresh);
                lemma_restored(s, cloned_interface(s, child_of(p, name), spec_at, fresh).1, b);
            },
            Item::Net(net) => {
                lemma_cloned_net(s, p, Some(name), net@, fresh);
                lemma_restored(s, cloned_net(s, p, Some(name), net@, fresh).1, b);
            },
            Item::NetType(t) => {
                lemma_generated_net(s, p, name, t, b);
            },
            Item::InterfaceFactory(_) => {
                lemma_made_instance(
                    s,
                    child_of(p, name),
                    spec_at,
                    Seq::<ProvidedField>::empty(),
                    b,
                );
            },
            _ => {},
        }
    }
}

proof fn lemma_restored(s: Setting, c: Build, b: Build)
    requires
        sound(s, c, Build { nets: Seq::<(u64, usize)>::empty(), ..b }),
    ensures
        sound(s, Build { nets: b.nets, ..c }, b),
{
    let fresh = Build { nets: Seq::<(u64, usize)>::empty(), ..b };
    let d = Build { nets: b.nets, ..c };
    if numbered(s.id, b) && 0 <= s.id && s.id + d.ids <= u64::MAX + 1 {
        assert(numbered(s.id, fresh));
        assert(numbered(s.id, c));
    }
}

proof fn lemma_made_fields(
    s: Setting,
    p: PrefixView,
    h: usize,
    f: Seq<(Seq<char>, usize)>,
    provided: Seq<ProvidedField>,
    b: Build,
)
    ensures
        sound(s, made_fields(s, p, h, f, provided, b).1, b),
    decreases h, 0int, f.len(),
{
    if f.len() > 0 {
        lemma_made_fields(s, p, h, f.drop_last(), provided, b);
        let (before, c) = made_fields(s, p, h, f.drop_last(), provided, b);
        let (name, spec_at) = f.last();
        if before is Ok && spec_at < h {
            lemma_made_field(s, p, name, spec_at, provided_for(provided, name), c);
            lemma_sound_trans(
                s,
                made_field(s, p, name, spec_at, provided_for(provided, name), c).1,
                c,
                b,
            );
        }
    }
}

proof fn lemma_made_instance(
    s: Setting,
    p: PrefixView,
    h: usize,
    provided: Seq<ProvidedField>,
    b: Build,
)
    ensures
        sound(s, made_instance(s, p, h, provided, b).1, b),
    decreases h, 1int, 0int,
{
    match s.items[h as int] {
        Item::InterfaceFactory(f) => {
            lemma_made_fields(s, p, h, handles_in(f.fields), provided, b);
            let (fields, c) = made_fields(s, p, h, handles_in(f.fields), provided, b);
            let d = made_instance(s, p, h, provided, b).1;
            if fields is Ok {
                assert(sound(s, d, c)) by {
                    if numbered(s.id, c) {
                        lemma_numbered_push(s.id, c, d.made.last(), d);
                    }
                }
                lemma_sound_trans(s, d, c, b);
            }
        },
        _ => {},
    }
}

/// The nets that are made for an instance have numbers that no net had before, each its own.
pub proof fn law_new_nets_are_new(s: Setting, p: PrefixView, h: usize, provided: Seq<ProvidedField>)
    requires
        0 <= s.id,
        s.id + made_instance(s, p, h, provided, nothing_built()).1.ids <= u64::MAX + 1,
    ensures
        numbered(s.id, made_instance(s, p, h, provided, nothing_built()).1),
{
    lemma_made_instance(s, p, h, provided, nothing_built());
    assert(numbered(s.id, nothing_built()));
}

// ---------------------------------------------------------------------------------------------
// Making

/// What is wrong with an interface.
pub struct InterfaceError {
    pub message: String,
}

/// Whether a store holds what was built, and nothing else that is new.
pub open spec fn holds(items: Seq<Item>, s: Setting, made: Seq<Made>) -> bool {
    &&& extends(items, s.items)
    &&& items.len() == s.items.len() + made.len()
    &&& forall|i: int|
        0 <= i < made.len() ==> is_made(#[trigger] items[s.items.len() + i], made[i])
}

/// Whether a store and a list of effects are what was built.
pub open spec fn stands(store: Store, s: Setting, b: Build, effects: Seq<Effect>) -> bool {
    &&& store.wf()
    &&& well_founded(s.items)
    &&& holds(store.items@, s, b.made)
    &&& 0 <= b.ids
    &&& store.next_net_id == s.id + b.ids
    &&& effect_views(effects) == b.effects
}

/// Whether the clones that are known are those of a list, and stand in the store.
pub open spec fn knows(nets: Seq<(u64, usize)>, b: Build, n: int) -> bool {
    nets == b.nets && forall|i: int| 0 <= i < nets.len() ==> (#[trigger] nets[i]).1 < n
}

/// The setting of a store.
pub open spec fn setting_of(store: Store, register: bool, site: PlaceView) -> Setting {
    Setting { items: store.items@, id: store.next_net_id as int, register, site }
}

proof fn lemma_holds_push(items: Seq<Item>, s: Setting, made: Seq<Made>, item: Item, m: Made)
    requires
        holds(items, s, made),
        is_made(item, m),
    ensures
        holds(items.push(item), s, made.push(m)),
{
    let n = s.items.len();
    assert(items.push(item).take(n as int) =~= items.take(n as int));
    assert forall|i: int| 0 <= i < made.push(m).len() implies is_made(
        #[trigger] items.push(item)[n + i],
        made.push(m)[i],
    ) by {
        if i < made.len() {
            assert(items.push(item)[n + i] == items[n + i]);
        }
    }
}

/// Finds the clone of a net.
fn find_clone(nets: &Vec<(u64, usize)>, id: u64) -> (r: Option<usize>)
    ensures
        r == clone_of(nets@, id),
{
    let mut i: usize = 0;
    proof {
        assert(nets@.skip(0) =~= nets@);
    }
    while i < nets.len()
        invariant
            i <= nets@.len(),
            clone_of(nets@, id) == clone_of(nets@.skip(i as int), id),
        decreases nets@.len() - i,
    {
        proof {
            assert(nets@.skip(i as int)[0] == nets@[i as int]);
            assert(nets@.skip(i as int).skip(1) =~= nets@.skip(i + 1));
        }
        if nets[i].0 == id {
            return Some(nets[i].1);
        }
        i += 1;
    }
    None
}

/// The name of a net, with the effect of naming it.
fn compute_net_name(
    prefix: &InstancePrefix,
    template_name: Option<&str>,
    field_name: Option<&str>,
    effects: &mut Vec<Effect>,
) -> (r: String)
    ensures
        r@ == names_under(prefix@, leaf_of(opt_str(template_name), opt_str(field_name))).0,
        effect_views(final(effects)@) == named_effects(
            prefix@,
            leaf_of(opt_str(template_name), opt_str(field_name)),
            effect_views(old(effects)@),
        ),
{
    let leaf: &str = match template_name {
        Some(t) => t,
        None => match field_name {
            Some(f) => f,
            None => "NET",
        },
    };
    let (new_name, old_name) = prefix.net_names(leaf);
    if !same(old_name.as_str(), new_name.as_str()) {
        let e = Effect::Moved { old_name, new_name: new_name.clone() };
        proof {
            lemma_effects_push(effects@, e);
        }
        effects.push(e);
    }
    new_name
}

/// Notes that a net is to be registered.
fn register_net(register: bool, h: usize, effects: &mut Vec<Effect>)
    ensures
        effect_views(final(effects)@) == (if register {
            effect_views(old(effects)@).push(EffectView::Register(h))
        } else {
            effect_views(old(effects)@)
        }),
{
    if register {
        let e = Effect::Register { net: h };
        proof {
            lemma_effects_push(effects@, e);
        }
        effects.push(e);
    }
}

/// Clones a net under a new name and number. Nets that are shared are cloned once.
fn clone_net_template(
    store: &mut Store,
    h: usize,
    prefix: &InstancePrefix,
    field_name: &str,
    register: bool,
    nets: &mut Vec<(u64, usize)>,
    effects: &mut Vec<Effect>,
    Ghost(s): Ghost<Setting>,
    Ghost(b): Ghost<Build>,
) -> (r: usize)
    requires
        stands(*old(store), s, b, old(effects)@),
        knows(old(nets)@, b, old(store).items@.len() as int),
        s.register == register,
        h < s.items.len(),
        s.items[h as int] is Net,
        s.id + cloned_net(s, prefix@, Some(field_name@), s.items[h as int]->Net_0@, b).1.ids
            <= u64::MAX,
    ensures
        ({
            let (x, c) = cloned_net(s, prefix@, Some(field_name@), s.items[h as int]->Net_0@, b);
            &&& r == x
            &&& stands(*final(store), s, c, final(effects)@)
            &&& knows(final(nets)@, c, final(store).items@.len() as int)
        }),
        old(store).items@.len() <= final(store).items@.len(),
        r < final(store).items@.len(),
{
    proof {
        lemma_extends_item(store.items@, s.items, h as int);
        assert(refers_below(store.items@[h as int], h as int));
    }
    let ghost view = s.items[h as int]->Net_0@;
    let nowhere = Place { path: String::new(), span: None };
    let mut copy = NetValue::open(0, &nowhere);
    if let Item::Net(n) = &store.items[h] {
        copy = n.with_new_id(n.net_id);
    }
    let source_id = copy.net_id;
    if let Some(x) = find_clone(nets, source_id) {
        proof {
            lemma_clone_of(nets@, source_id);
        }
        return x;
    }
    let name = compute_net_name(prefix, as_opt_str(&copy.template_name), Some(field_name), effects);
    let net_id: u64 = store.generate_net_id();
    let ghost before = store.items@;
    let net = NetValue {
        net_id,
        name,
        assignment_inferable: prefix.assignment_inferable,
        inferred_name: None,
        ..copy
    };
    let ghost made = Made::Net(net@);
    proof {
        lemma_below_later(handles_in(net.properties), h as int, store.items@.len() as int);
        lemma_holds_push(before, s, b.made, Item::Net(net), made);
    }
    let r = store.allocate(Item::Net(net));
    register_net(register, r, effects);
    nets.push((source_id, r));
    r
}

/// Clones the value of a field.
fn clone_value(
    store: &mut Store,
    h: usize,
    prefix: &InstancePrefix,
    name: &str,
    register: bool,
    nets: &mut Vec<(u64, usize)>,
    effects: &mut Vec<Effect>,
    Ghost(s): Ghost<Setting>,
    Ghost(b): Ghost<Build>,
) -> (r: usize)
    requires
        stands(*old(store), s, b, old(effects)@),
        knows(old(nets)@, b, old(store).items@.len() as int),
        s.register == register,
        h < s.items.len(),
        s.id + cloned_value(s, prefix@, name@, h, b).1.ids <= u64::MAX,
    ensures
        ({
            let (x, c) = cloned_value(s, prefix@, name@, h, b);
            &&& r == x
            &&& stands(*final(store), s, c, final(effects)@)
            &&& knows(final(nets)@, c, final(store).items@.len() as int)
        }),
        old(store).items@.len() <= final(store).items@.len(),
        r < final(store).items@.len(),
    decreases h, 2int,
{
    proof {
        lemma_extends_item(store.items@, s.items, h as int);
    }
    let sort: u8 = match &store.items[h] {
        Item::Net(_) => 0,
        Item::Interface(_) => 1,
        _ => 2,
    };
    if sort == 0 {
        clone_net_template(store, h, prefix, name, register, nets, effects, Ghost(s), Ghost(b))
    } else if sort == 1 {
        let child = prefix.child(name);
        clone_interface_template(store, h, &child, register, nets, effects, Ghost(s), Ghost(b))
    } else {
        h
    }
}

proof fn lemma_cloned_prefix(
    s: Setting,
    p: PrefixView,
    h: usize,
    f: Seq<(Seq<char>, usize)>,
    b: Build,
    k: int,
)
    requires
        0 <= k <= f.len(),
    ensures
        sound(s, cloned_fields(s, p, h, f, b).1, cloned_fields(s, p, h, f.take(k), b).1),
    decreases f.len(),
{
    if k == f.len() {
        assert(f.take(k) =~= f);
    } else {
        let d = f.drop_last();
        assert(d.take(k) =~= f.take(k));
        lemma_cloned_prefix(s, p, h, d, b, k);
        let (done, c) = cloned_fields(s, p, h, d, b);
        let (name, child) = f.last();
        if child < h {
            lemma_cloned_value(s, p, name, child, c);
            lemma_sound_trans(
                s,
                cloned_value(s, p, name, child, c).1,
                c,
                cloned_fields(s, p, h, f.take(k), b).1,
            );
        }
    }
}

/// Clones an instance of an interface under a new prefix.
fn clone_interface_template(
    store: &mut Store,
    h: usize,
    prefix: &InstancePrefix,
    register: bool,
    nets: &mut Vec<(u64, usize)>,
    effects: &mut Vec<Effect>,
    Ghost(s): Ghost<Setting>,
    Ghost(b): Ghost<Build>,
) -> (r: usize)
    requires
        stands(*old(store), s, b, old(effects)@),
        knows(old(nets)@, b, old(store).items@.len() as int),
        s.register == register,
        h < s.items.len(),
        s.items[h as int] is Interface,
        s.id + cloned_interface(s, prefix@, h, b).1.ids <= u64::MAX,
    ensures
        ({
            let (x, c) = cloned_interface(s, prefix@, h, b);
            &&& r == x
            &&& stands(*final(store), s, c, final(effects)@)
            &&& knows(final(nets)@, c, final(store).items@.len() as int)
        }),
        old(store).items@.len() <= final(store).items@.len(),
        r < final(store).items@.len(),
    decreases h, 1int,
{
    let ghost p = prefix@;
    let ghost v = s.items[h as int]->Interface_0;
    let ghost f = handles_in(v.fields);
    let ghost whole = cloned_fields(s, p, h, f, b);
    let ghost size = store.items@.len();
    proof {
        lemma_extends_item(store.items@, s.items, h as int);
        assert(refers_below(s.items[h as int], h as int));
    }
    let mut list: Vec<(String, usize)> = Vec::new();
    let mut generated_fields: Vec<String> = Vec::new();
    let mut instance_root_name: Option<String> = None;
    let mut factory: usize = 0;
    if let Item::Interface(i) = &store.items[h] {
        list = crate::lang::component_value::list_entries(&i.fields);
        generated_fields = clone_texts(&i.generated_fields);
        instance_root_name = clone_opt(&i.instance_root_name);
        factory = i.factory;
    }
    let mut out = new_handles();
    let mut k: usize = 0;
    proof {
        assert(f.take(0) =~= Seq::<(Seq<char>, usize)>::empty());
        assert(crate::lang::component_value::listed(list@) == f);
    }
    while k < list.len()
        invariant
            k <= list@.len(),
            p == prefix@,
            h < s.items.len(),
            s.register == register,
            crate::lang::component_value::listed(list@) == f,
            all_below(f, h as int),
            whole == cloned_fields(s, p, h, f, b),
            s.id + whole.1.ids <= u64::MAX,
            size <= store.items@.len(),
            stands(*store, s, cloned_fields(s, p, h, f.take(k as int), b).1, effects@),
            knows(
                nets@,
                cloned_fields(s, p, h, f.take(k as int), b).1,
                store.items@.len() as int,
            ),
            handles_in(out) == cloned_fields(s, p, h, f.take(k as int), b).0,
            distinct(handles_in(out)),
            all_below(handles_in(out), store.items@.len() as int),
        decreases list@.len() - k,
    {
        let ghost c = cloned_fields(s, p, h, f.take(k as int), b).1;
        proof {
            assert(f.take(k + 1).drop_last() =~= f.take(k as int));
            assert(f.take(k + 1).last() == f[k as int]);
            assert(f[k as int] == (list@[k as int].0@, list@[k as int].1));
            lemma_cloned_prefix(s, p, h, f, b, k + 1);
        }
        let child: usize = list[k].1;
        let ghost before = store.items@.len();
        let x = clone_value(
            store,
            child,
            prefix,
            list[k].0.as_str(),
            register,
            nets,
            effects,
            Ghost(s),
            Ghost(c),
        );
        proof {
            lemma_below_later(handles_in(out), before as int, store.items@.len() as int);
            lemma_put(handles_in(out), list@[k as int].0@, x);
            lemma_put_below(handles_in(out), list@[k as int].0@, x, store.items@.len() as int);
        }
        put_handle(&mut out, list[k].0.clone(), x);
        k += 1;
    }
    proof {
        assert(f.take(f.len() as int) =~= f);
        assert(list@.len() == f.len());
    }
    let ghost before = store.items@;
    let item = Item::Interface(
        InterfaceValue { fields: out, generated_fields, instance_root_name, factory },
    );
    proof {
        lemma_holds_push(
            before,
            s,
            whole.1.made,
            item,
            Made::Interface {
                fields: whole.0,
                generated: texts(v.generated_fields@),
                root: opt_text(v.instance_root_name),
                factory: v.factory,
            },
        );
    }
    store.allocate(item)
}

/// The defaults of the fields of a net type.
fn read_defaults(store: &Store, fields: &SmallMap<String, usize>) -> (r: SmallMap<String, usize>)
    requires
        store.wf(),
        all_below(handles_in(*fields), store.items@.len() as int),
    ensures
        handles_in(r) == default_fields(store.items@, handles_in(*fields)),
        distinct(handles_in(r)),
        all_below(handles_in(r), store.items@.len() as int),
{
    let ghost all = handles_in(*fields);
    let n = count_handles(fields);
    let mut out = new_handles();
    let mut i: usize = 0;
    proof {
        assert(all.take(0) =~= Seq::<(Seq<char>, usize)>::empty());
    }
    while i < n
        invariant
            i <= n,
            n == all.len(),
            all == handles_in(*fields),
            store.wf(),
            all_below(all, store.items@.len() as int),
            handles_in(out) == default_fields(store.items@, all.take(i as int)),
            distinct(handles_in(out)),
            all_below(handles_in(out), store.items@.len() as int),
        decreases n - i,
    {
        if let Some((k, h)) = handle_at(fields, i) {
            proof {
                assert(all.take(i + 1).drop_last() =~= all.take(i as int));
                assert(all.take(i + 1).last() == (k@, h));
                assert(all[i as int] == (k@, h));
                assert(refers_below(store.items@[h as int], h as int));
            }
            if let Item::Field(Some(d)) = &store.items[h] {
                proof {
                    lemma_put(handles_in(out), k@, *d);
                    lemma_put_below(handles_in(out), k@, *d, store.items@.len() as int);
                }
                put_handle(&mut out, k.to_owned(), *d);
            }
        }
        i += 1;
    }
    proof {
        assert(all.take(all.len() as int) =~= all);
    }
    out
}

proof fn lemma_defaults_below(items: Seq<Item>, f: Seq<(Seq<char>, usize)>, n: int)
    requires
        well_founded(items),
        all_below(f, n),
        n <= items.len(),
    ensures
        all_below(default_fields(items, f), n),
    decreases f.len(),
{
    if f.len() > 0 {
        let d = f.drop_last();
        assert forall|i: int| 0 <= i < d.len() implies (#[trigger] d[i]).1 < n by {
            assert(d[i] == f[i]);
        }
        lemma_defaults_below(items, d, n);
        let h = f.last().1;
        assert(f[f.len() - 1].1 < n);
        assert(refers_below(items[h as int], h as int));
        if let Item::Field(Some(v)) = items[h as int] {
            lemma_put_below(default_fields(items, d), f.last().0, v, n);
        }
    }
}

proof fn lemma_defaults_later(later: Seq<Item>, earlier: Seq<Item>, f: Seq<(Seq<char>, usize)>)
    requires
        extends(later, earlier),
        all_below(f, earlier.len() as int),
    ensures
        default_fields(later, f) == default_fields(earlier, f),
    decreases f.len(),
{
    if f.len() > 0 {
        let d = f.drop_last();
        assert forall|i: int| 0 <= i < d.len() implies (#[trigger] d[i]).1 < earlier.len() by {
            assert(d[i] == f[i]);
        }
        lemma_defaults_later(later, earlier, d);
        assert(f[f.len() - 1].1 < earlier.len());
        lemma_extends_item(later, earlier, f.last().1 as int);
    }
}

proof fn lemma_applied_later(
    later: Seq<Item>,
    earlier: Seq<Item>,
    f: Seq<(Seq<char>, usize)>,
    accepted: Seq<(Seq<char>, usize)>,
    label: Seq<char>,
)
    requires
        extends(later, earlier),
        all_below(accepted, earlier.len() as int),
    ensures
        ({
            let none = Seq::<Seq<char>>::empty();
            let empty = Seq::<(Seq<char>, usize)>::empty();
            let p = applied_fields(f, accepted, none, earlier, label, empty);
            &&& applied_fields(f, accepted, none, later, label, empty) == p
            &&& all_below(p, earlier.len() as int)
        }),
    decreases f.len(),
{
    if f.len() > 0 {
        lemma_applied_later(later, earlier, f.drop_last(), accepted, label);
        let none = Seq::<Seq<char>>::empty();
        let empty = Seq::<(Seq<char>, usize)>::empty();
        let p = applied_fields(f.drop_last(), accepted, none, earlier, label, empty);
        let name = f.last().0;
        lemma_place(accepted, name);
        if let Some(v) = under(accepted, name) {
            lemma_extends_item(later, earlier, v as int);
            lemma_put_below(p, name, v, earlier.len() as int);
        }
    }
}

/// Makes the net of a field whose type is a net type.
fn instantiate_generated_net(
    store: &mut Store,
    h: usize,
    prefix: &InstancePrefix,
    name: &str,
    register: bool,
    site: &Place,
    effects: &mut Vec<Effect>,
    Ghost(s): Ghost<Setting>,
    Ghost(b): Ghost<Build>,
) -> (r: usize)
    requires
        stands(*old(store), s, b, old(effects)@),
        s.register == register,
        s.site == site@,
        h < s.items.len(),
        s.items[h as int] is NetType,
        s.id + b.ids + 1 <= u64::MAX,
    ensures
        ({
            let (x, c) = generated_net(s, prefix@, name@, s.items[h as int]->NetType_0, b);
            &&& r == x
            &&& stands(*final(store), s, c, final(effects)@)
        }),
        old(store).items@.len() <= final(store).items@.len(),
        r < final(store).items@.len(),
{
    let ghost t = s.items[h as int]->NetType_0;
    let ghost fields = handles_in(t.fields);
    let ghost none = Seq::<Seq<char>>::empty();
    let ghost empty = Seq::<(Seq<char>, usize)>::empty();
    proof {
        lemma_extends_item(store.items@, s.items, h as int);
        assert(refers_below(s.items[h as int], h as int));
    }
    let mut own = NetType { type_label: String::new(), fields: new_handles() };
    if let Item::NetType(t) = &store.items[h] {
        own = NetType { type_label: t.type_label.clone(), fields: copy_handles(&t.fields) };
    }
    let new_name = compute_net_name(prefix, None, Some(name), effects);
    let e = Effect::CheckName { name: new_name.clone() };
    proof {
        lemma_effects_push(effects@, e);
    }
    effects.push(e);
    proof {
        lemma_below_later(fields, h as int, s.items.len() as int);
        lemma_below_later(fields, h as int, store.items@.len() as int);
        lemma_defaults_later(store.items@, s.items, fields);
        lemma_defaults_below(s.items, fields, s.items.len() as int);
        lemma_applied_later(
            store.items@,
            s.items,
            fields,
            default_fields(s.items, fields),
            t.type_label@,
        );
    }
    let accepted = read_defaults(store, &own.fields);
    let provided: Vec<String> = Vec::new();
    proof {
        assert(texts(provided@) =~= none);
    }
    let ghost before = store.items@;
    let ghost props = applied_fields(
        fields,
        default_fields(s.items, fields),
        none,
        s.items,
        t.type_label@,
        empty,
    );
    let ghost added = added_texts(props, s.items);
    proof {
        lemma_place(props, "symbol"@);
        if under(props, "symbol"@) is Some {
            lemma_extends_item(before, s.items, under(props, "symbol"@)->Some_0 as int);
        }
        assert(added_texts(props, before) == added);
    }
    let options = NetInstantiateOptions {
        should_register: register,
        assignment_inferable: prefix.assignment_inferable,
        intent: NetInstantiateIntent::Connected,
    };
    let (r, _, _) = own.instantiate(
        store,
        None,
        Some(new_name),
        &accepted,
        &provided,
        options,
        site,
    );
    proof {
        let (x, c) = generated_net(s, prefix@, name@, t, b);
        let n = s.items.len();
        let m = b.made.len();
        crate::lang::value::lemma_extends_transitive(store.items@, before, s.items);
        assert forall|i: int| 0 <= i < c.made.len() implies is_made(
            #[trigger] store.items@[n + i],
            c.made[i],
        ) by {
            if i < m {
                lemma_extends_item(store.items@, before, n + i);
                assert(is_made(before[n + i], b.made[i]));
            } else if i < m + added.len() {
                assert(before.len() + (i - m) == n + i);
                assert(text_of(store.items@[before.len() + (i - m)]) == Some(added[i - m].1));
                assert(c.made[i] == Made::Text(added[i - m].1));
            } else {
                assert(n + i == r);
            }
        }
    }
    register_net(register, r, effects);
    r
}

/// Finds what was provided for a field.
fn find_provided(v: &Vec<ProvidedField>, name: &str) -> (r: Option<usize>)
    ensures
        match r {
            None => provided_for(v@, name@) is None,
            Some(i) => i < v@.len() && provided_for(v@, name@) == Some(
                match v@[i as int].value {
                    Ok(h) => Ok::<usize, Seq<char>>(h),
                    Err(e) => Err::<usize, Seq<char>>(e@),
                },
            ),
        },
{
    let mut i: usize = 0;
    proof {
        assert(v@.skip(0) =~= v@);
    }
    while i < v.len()
        invariant
            i <= v@.len(),
            provided_for(v@, name@) == provided_for(v@.skip(i as int), name@),
        decreases v@.len() - i,
    {
        proof {
            assert(v@.skip(i as int)[0] == v@[i as int]);
            assert(v@.skip(i as int).skip(1) =~= v@.skip(i + 1));
        }
        if same(v[i].name.as_str(), name) {
            return Some(i);
        }
        i += 1;
    }
    None
}

/// Whether every value that was provided stands in the store.
pub open spec fn provided_below(v: Seq<ProvidedField>, n: int) -> bool {
    forall|i: int| 0 <= i < v.len() && (#[trigger] v[i]).value is Ok ==> v[i].value->Ok_0 < n
}

/// Makes the value of a field of a new instance.
fn create_field_value(
    store: &mut Store,
    name: &str,
    spec_at: usize,
    provided: &Vec<ProvidedField>,
    prefix: &InstancePrefix,
    register: bool,
    site: &Place,
    effects: &mut Vec<Effect>,
    Ghost(s): Ghost<Setting>,
    Ghost(b): Ghost<Build>,
) -> (r: Result<usize, InterfaceError>)
    requires
        stands(*old(store), s, b, old(effects)@),
        s.register == register,
        s.site == site@,
        spec_at < s.items.len(),
        provided_below(provided@, s.items.len() as int),
        s.id + made_field(s, prefix@, name@, spec_at, provided_for(provided@, name@), b).1.ids
            <= u64::MAX,
    ensures
        ({
            let (x, c) = made_field(
                s,
                prefix@,
                name@,
                spec_at,
                provided_for(provided@, name@),
                b,
            );
            &&& stands(*final(store), s, c, final(effects)@)
            &&& match (r, x) {
                (Ok(a), Ok(z)) => a == z && a < final(store).items@.len(),
                (Err(e), Err(t)) => e.message@ == t,
                _ => false,
            }
        }),
        old(store).items@.len() <= final(store).items@.len(),
    decreases spec_at, 2int,
{
    if let Some(i) = find_provided(provided, name) {
        return match &provided[i].value {
            Ok(h) => Ok(*h),
            Err(e) => Err(InterfaceError { message: e.clone() }),
        };
    }
    proof {
        lemma_extends_item(store.items@, s.items, spec_at as int);
        assert(refers_below(s.items[spec_at as int], spec_at as int));
    }
    let sort: u8 = match &store.items[spec_at] {
        Item::Field(Some(d)) => return Ok(*d),
        Item::Interface(_) => 0,
        Item::Net(_) => 1,
        Item::NetType(_) => 2,
        Item::InterfaceFactory(_) => 3,
        _ => 4,
    };
    let ghost fresh = Build { nets: Seq::<(u64, usize)>::empty(), ..b };
    if sort == 0 {
        let child = prefix.child(name);
        let mut nets: Vec<(u64, usize)> = Vec::new();
        proof {
            assert(nets@ =~= fresh.nets);
        }
        let x = clone_interface_template(
            store,
            spec_at,
            &child,
            register,
            &mut nets,
            effects,
            Ghost(s),
            Ghost(fresh),
        );
        Ok(x)
    } else if sort == 1 {
        let mut nets: Vec<(u64, usize)> = Vec::new();
        proof {
            assert(nets@ =~= fresh.nets);
        }
        let x = clone_net_template(
            store,
            spec_at,
            prefix,
            name,
            register,
            &mut nets,
            effects,
            Ghost(s),
            Ghost(fresh),
        );
        Ok(x)
    } else if sort == 2 {
        Ok(
            instantiate_generated_net(
                store,
                spec_at,
                prefix,
                name,
                register,
                site,
                effects,
                Ghost(s),
                Ghost(b),
            ),
        )
    } else if sort == 3 {
        let child = prefix.child(name);
        let none: Vec<ProvidedField> = Vec::new();
        proof {
            assert(none@ =~= Seq::<ProvidedField>::empty());
        }
        create_instance(
            store,
            spec_at,
            &none,
            &child,
            register,
            site,
            effects,
            Ghost(s),
            Ghost(b),
        )
    } else {
        Err(no_instance_error(store, spec_at))
    }
}

/// The error for a value that no instance can be made of.
fn no_instance_error(store: &Store, h: usize) -> (r: InterfaceError)
    requires
        h < store.items@.len(),
    ensures
        r.message@ == no_instance(store.items@[h as int]),
{
    let mut message =
        "internal error: unexpected value type in instantiate_interface: ".to_owned();
    let got = store.type_label(h);
    message.append(got.as_str());
    message.append(" (expected InterfaceFactory or InterfaceValue)");
    InterfaceError { message }
}

proof fn lemma_made_prefix(
    s: Setting,
    p: PrefixView,
    h: usize,
    f: Seq<(Seq<char>, usize)>,
    provided: Seq<ProvidedField>,
    b: Build,
    k: int,
)
    requires
        0 <= k <= f.len(),
    ensures
        sound(
            s,
            made_fields(s, p, h, f, provided, b).1,
            made_fields(s, p, h, f.take(k), provided, b).1,
        ),
        made_fields(s, p, h, f.take(k), provided, b).0 is Err ==> made_fields(
            s,
            p,
            h,
            f,
            provided,
            b,
        ) == made_fields(s, p, h, f.take(k), provided, b),
    decreases f.len(),
{
    if k == f.len() {
        assert(f.take(k) =~= f);
    } else {
        let d = f.drop_last();
        assert(d.take(k) =~= f.take(k));
        lemma_made_prefix(s, p, h, d, provided, b, k);
        let (before, c) = made_fields(s, p, h, d, provided, b);
        let (name, spec_at) = f.last();
        if before is Ok && spec_at < h {
            lemma_made_field(s, p, name, spec_at, provided_for(provided, name), c);
            lemma_sound_trans(
                s,
                made_field(s, p, name, spec_at, provided_for(provided, name), c).1,
                c,
                made_fields(s, p, h, f.take(k), provided, b).1,
            );
        }
    }
}

/// Makes an instance of an interface.
fn create_instance(
    store: &mut Store,
    h: usize,
    provided: &Vec<ProvidedField>,
    prefix: &InstancePrefix,
    register: bool,
    site: &Place,
    effects: &mut Vec<Effect>,
    Ghost(s): Ghost<Setting>,
    Ghost(b): Ghost<Build>,
) -> (r: Result<usize, InterfaceError>)
    requires
        stands(*old(store), s, b, old(effects)@),
        s.register == register,
        s.site == site@,
        h < s.items.len(),
        provided_below(provided@, s.items.len() as int),
        s.id + made_instance(s, prefix@, h, provided@, b).1.ids <= u64::MAX,
    ensures
        ({
            let (x, c) = made_instance(s, prefix@, h, provided@, b);
            &&& stands(*final(store), s, c, final(effects)@)
            &&& match (r, x) {
                (Ok(a), Ok(z)) => a == z && a < final(store).items@.len(),
                (Err(e), Err(t)) => e.message@ == t,
                _ => false,
            }
        }),
        old(store).items@.len() <= final(store).items@.len(),
    decreases h, 1int,
{
    let ghost p = prefix@;
    let ghost v = provided@;
    let ghost size = store.items@.len();
    proof {
        lemma_extends_item(store.items@, s.items, h as int);
        assert(refers_below(s.items[h as int], h as int));
    }
    let mut list: Vec<(String, usize)> = Vec::new();
    let mut post_init: Option<usize> = None;
    match &store.items[h] {
        Item::InterfaceFactory(f) => {
            list = crate::lang::component_value::list_entries(&f.fields);
            post_init = f.post_init;
        },
        _ => return Err(no_instance_error(store, h)),
    }
    let ghost factory = s.items[h as int]->InterfaceFactory_0;
    let ghost f = handles_in(factory.fields);
    let ghost whole = made_fields(s, p, h, f, v, b);
    proof {
        assert(made_instance(s, p, h, v, b).1.ids == whole.1.ids);
    }
    let mut out = new_handles();
    let mut generated_fields: Vec<String> = Vec::new();
    let mut k: usize = 0;
    proof {
        assert(f.take(0) =~= Seq::<(Seq<char>, usize)>::empty());
        assert(crate::lang::component_value::listed(list@) == f);
        assert(texts(generated_fields@) =~= Seq::<Seq<char>>::empty());
    }
    while k < list.len()
        invariant
            k <= list@.len(),
            p == prefix@,
            v == provided@,
            h < s.items.len(),
            s.register == register,
            s.site == site@,
            provided_below(v, s.items.len() as int),
            s.items[h as int] == Item::InterfaceFactory(factory),
            f == handles_in(factory.fields),
            crate::lang::component_value::listed(list@) == f,
            all_below(f, h as int),
            whole == made_fields(s, p, h, f, v, b),
            s.id + whole.1.ids <= u64::MAX,
            size <= store.items@.len(),
            size == old(store).items@.len(),
            stands(*store, s, made_fields(s, p, h, f.take(k as int), v, b).1, effects@),
            made_fields(s, p, h, f.take(k as int), v, b).0 == Ok::<
                Seq<(Seq<char>, usize)>,
                Seq<char>,
            >(handles_in(out)),
            texts(generated_fields@) == generated_names(f.take(k as int), v),
            distinct(handles_in(out)),
            all_below(handles_in(out), store.items@.len() as int),
        decreases list@.len() - k,
    {
        let ghost c = made_fields(s, p, h, f.take(k as int), v, b).1;
        let name = list[k].0.as_str();
        let spec_at: usize = list[k].1;
        proof {
            assert(f.take(k + 1).drop_last() =~= f.take(k as int));
            assert(f.take(k + 1).last() == f[k as int]);
            assert(f[k as int] == (name@, spec_at));
            lemma_made_prefix(s, p, h, f, v, b, k + 1);
        }
        if find_provided(provided, name).is_none() {
            let g = list[k].0.clone();
            proof {
                lemma_texts_push(generated_fields@, g);
            }
            generated_fields.push(g);
        }
        let ghost before = store.items@.len();
        let x = match create_field_value(
            store,
            name,
            spec_at,
            provided,
            prefix,
            register,
            site,
            effects,
            Ghost(s),
            Ghost(c),
        ) {
            Ok(x) => x,
            Err(e) => return Err(e),
        };
        proof {
            lemma_below_later(handles_in(out), before as int, store.items@.len() as int);
            lemma_put(handles_in(out), name@, x);
            lemma_put_below(handles_in(out), name@, x, store.items@.len() as int);
        }
        put_handle(&mut out, list[k].0.clone(), x);
        k += 1;
    }
    proof {
        assert(f.take(f.len() as int) =~= f);
        assert(list@.len() == f.len());
    }
    let ghost before = store.items@;
    let instance_root_name = if prefix.assignment_inferable {
        None
    } else {
        Some(prefix.new_style.clone())
    };
    let item = Item::Interface(
        InterfaceValue { fields: out, generated_fields, instance_root_name, factory: h },
    );
    proof {
        lemma_holds_push(
            before,
            s,
            whole.1.made,
            item,
            Made::Interface {
                fields: whole.0->Ok_0,
                generated: generated_names(f, v),
                root: if p.assignment_inferable {
                    None
                } else {
                    Some(p.new_style)
                },
                factory: h,
            },
        );
    }
    let r = store.allocate(item);
    if let Some(function) = post_init {
        proof {
            lemma_extends_item(store.items@, s.items, function as int);
        }
        if !store.is_none(function) {
            let e = Effect::PostInit { function, instance: r };
            proof {
                lemma_effects_push(effects@, e);
            }
            effects.push(e);
        }
    }
    Ok(r)
}

/// Makes an instance of an interface with the values that were provided for its fields.
pub fn create_interface_instance(
    store: &mut Store,
    factory: usize,
    provided: &Vec<ProvidedField>,
    prefix: &InstancePrefix,
    register: bool,
    site: &Place,
) -> (r: (Result<usize, InterfaceError>, Vec<Effect>))
    requires
        old(store).wf(),
        factory < old(store).items@.len(),
        provided_below(provided@, old(store).items@.len() as int),
        old(store).next_net_id + made_instance(
            setting_of(*old(store), register, site@),
            prefix@,
            factory,
            provided@,
            nothing_built(),
        ).1.ids <= u64::MAX,
    ensures
        ({
            let s = setting_of(*old(store), register, site@);
            let (x, c) = made_instance(s, prefix@, factory, provided@, nothing_built());
            &&& stands(*final(store), s, c, r.1@)
            &&& match (r.0, x) {
                (Ok(a), Ok(z)) => a == z && a < final(store).items@.len(),
                (Err(e), Err(t)) => e.message@ == t,
                _ => false,
            }
        }),
{
    let ghost s = setting_of(*store, register, site@);
    let mut effects: Vec<Effect> = Vec::new();
    proof {
        assert(effect_views(effects@) =~= Seq::<EffectView>::empty());
        assert(store.items@.take(store.items@.len() as int) =~= store.items@);
    }
    let r = create_instance(
        store,
        factory,
        provided,
        prefix,
        register,
        site,
        &mut effects,
        Ghost(s),
        Ghost(nothing_built()),
    );
    (r, effects)
}

/// Makes an instance of whatever describes one: a new one of an interface, a clone of an instance.
pub fn instantiate_interface(
    store: &mut Store,
    spec_at: usize,
    prefix: &InstancePrefix,
    register: bool,
    site: &Place,
) -> (r: (Result<usize, InterfaceError>, Vec<Effect>))
    requires
        old(store).wf(),
        spec_at < old(store).items@.len(),
        old(store).next_net_id + instance_of(
            setting_of(*old(store), register, site@),
            prefix@,
            spec_at,
            nothing_built(),
        ).1.ids <= u64::MAX,
    ensures
        ({
            let s = setting_of(*old(store), register, site@);
            let (x, c) = instance_of(s, prefix@, spec_at, nothing_built());
            &&& stands(*final(store), s, c, r.1@)
            &&& match (r.0, x) {
                (Ok(a), Ok(z)) => a == z && a < final(store).items@.len(),
                (Err(e), Err(t)) => e.message@ == t,
                _ => false,
            }
        }),
{
    let is_instance = match &store.items[spec_at] {
        Item::Interface(_) => true,
        _ => false,
    };
    if is_instance {
        let ghost s = setting_of(*store, register, site@);
        let mut effects: Vec<Effect> = Vec::new();
        let mut nets: Vec<(u64, usize)> = Vec::new();
        proof {
            assert(effect_views(effects@) =~= Seq::<EffectView>::empty());
            assert(nets@ =~= Seq::<(u64, usize)>::empty());
            assert(store.items@.take(store.items@.len() as int) =~= store.items@);
        }
        let x = clone_interface_template(
            store,
            spec_at,
            prefix,
            register,
            &mut nets,
            &mut effects,
            Ghost(s),
            Ghost(nothing_built()),
        );
        return (Ok(x), effects);
    }
    let none: Vec<ProvidedField> = Vec::new();
    proof {
        assert(none@ =~= Seq::<ProvidedField>::empty());
    }
    create_interface_instance(store, spec_at, &none, prefix, register, site)
}

/// Whether a net has got the name that it was registered under.
pub open spec fn net_named(before: Store, after: Store, net: usize, name: Seq<char>) -> bool {
    &&& after.next_net_id == before.next_net_id
    &&& after.items@.len() == before.items@.len()
    &&& forall|i: int|
        0 <= i < before.items@.len() && i != net ==> #[trigger] after.items@[i]
            == before.items@[i]
    &&& match opt_net(net_of(before.items@[net as int])) {
        Some(n) => opt_net(net_of(after.items@[net as int])) == Some(
            NetView { name, ..n },
        ),
        None => after.items@[net as int] == before.items@[net as int],
    }
}

/// Gives a net the name that it was registered under.
pub fn name_registered_net(store: &mut Store, net: usize, name: String)
    requires
        old(store).wf(),
        net < old(store).items@.len(),
    ensures
        final(store).wf(),
        net_named(*old(store), *final(store), net, name@),
{
    proof {
        assert(refers_below(store.items@[net as int], net as int));
    }
    let mut renamed: Option<NetValue> = None;
    if let Item::Net(n) = &store.items[net] {
        let inferred_name = clone_opt(&n.inferred_name);
        renamed = Some(NetValue { name, inferred_name, ..n.with_new_id(n.net_id) });
    }
    if let Some(n) = renamed {
        store.items.set(net, Item::Net(n));
        proof {
            assert forall|i: int| 0 <= i < store.items@.len() implies refers_below(
                #[trigger] store.items@[i],
                i,
            ) by {
                if i != net {
                    assert(refers_below(old(store).items@[i], i));
                }
            }
        }
    }
}

// ---------------------------------------------------------------------------------------------
// Declarations

/// The numbers of the nets that a value owns, at whatever depth.
pub open spec fn owned_nets(items: Seq<Item>, h: usize) -> Seq<u64>
    decreases h, 1int, 0int,
{
    match items[h as int] {
        Item::Net(n) => if n.was_bound {
            Seq::<u64>::empty()
        } else {
            seq![n.net_id]
        },
        Item::Interface(v) => owned_in_fields(items, h, handles_in(v.fields)),
        _ => Seq::<u64>::empty(),
    }
}

/// The numbers of the nets that the fields of an instance own.
pub open spec fn owned_in_fields(items: Seq<Item>, h: usize, f: Seq<(Seq<char>, usize)>) -> Seq<u64>
    decreases h, 0int, f.len(),
{
    if f.len() == 0 {
        Seq::<u64>::empty()
    } else {
        let r = owned_in_fields(items, h, f.drop_last());
        if f.last().1 < h {
            r + owned_nets(items, f.last().1)
        } else {
            r
        }
    }
}

/// Adds the numbers of the nets that a value owns, which are no longer to be registered.
pub fn unregister_template_owned_nets(store: &Store, h: usize, out: &mut Vec<u64>)
    requires
        store.wf(),
        h < store.items@.len(),
    ensures
        final(out)@ == old(out)@ + owned_nets(store.items@, h),
    decreases h,
{
    proof {
        assert(refers_below(store.items@[h as int], h as int));
        assert(out@ + Seq::<u64>::empty() =~= out@);
    }
    match &store.items[h] {
        Item::Net(n) => {
            if n.is_template_owned() {
                proof {
                    assert(out@ + seq![n.net_id] =~= out@.push(n.net_id));
                }
                out.push(n.id());
            }
        },
        Item::Interface(v) => {
            let ghost f = handles_in(v.fields);
            let ghost first = out@;
            let n = count_handles(&v.fields);
            let mut k: usize = 0;
            proof {
                assert(f.take(0) =~= Seq::<(Seq<char>, usize)>::empty());
            }
            while k < n
                invariant
                    k <= n,
                    n == f.len(),
                    f == handles_in(v.fields),
                    store.wf(),
                    h < store.items@.len(),
                    all_below(f, h as int),
                    out@ == first + owned_in_fields(store.items@, h, f.take(k as int)),
                decreases n - k,
            {
                if let Some((name, child)) = handle_at(&v.fields, k) {
                    proof {
                        assert(f.take(k + 1).drop_last() =~= f.take(k as int));
                        assert(f.take(k + 1).last() == (name@, child));
                        assert(f[k as int] == (name@, child));
                        assert((first + owned_in_fields(store.items@, h, f.take(k as int)))
                            + owned_nets(store.items@, child) =~= first + (owned_in_fields(
                            store.items@,
                            h,
                            f.take(k as int),
                        ) + owned_nets(store.items@, child)));
                    }
                    unregister_template_owned_nets(store, child, out);
                }
                k += 1;
            }
            proof {
                assert(f.take(f.len() as int) =~= f);
            }
        },
        _ => {},
    }
}

/// Whether a value can stand for the type of an interface's field.
pub open spec fn is_field_type(item: Item) -> bool {
    item is NetType || item is Net || item is Interface || item is Field || item is InterfaceFactory
}

/// What the declaration of an interface amounts to.
pub ghost struct Declared {
    pub fields: Seq<(Seq<char>, usize)>,
    pub post_init: Option<usize>,
    /// The numbers of the nets that are no longer to be registered.
    pub released: Seq<u64>,
    pub error: Option<Seq<char>>,
}

/// The fields of an interface that is declared, or the first thing that is wrong with them.
pub open spec fn declared(items: Seq<Item>, v: Seq<(String, usize)>) -> Declared
    decreases v.len(),
{
    if v.len() == 0 {
        Declared {
            fields: Seq::<(Seq<char>, usize)>::empty(),
            post_init: None,
            released: Seq::<u64>::empty(),
            error: None,
        }
    } else {
        let d = declared(items, v.drop_last());
        let (name, h) = v.last();
        if d.error is Some {
            d
        } else if name@ == "__post_init__"@ {
            Declared { post_init: Some(h), ..d }
        } else if name@ == "name"@ {
            Declared {
                error: Some(
                    "Field name 'name' is reserved (conflicts with implicit name parameter)"@,
                ),
                ..d
            }
        } else if is_field_type(items[h as int]) {
            Declared {
                fields: put(d.fields, name@, h),
                released: d.released + owned_nets(items, h),
                ..d
            }
        } else {
            Declared {
                error: Some(
                    "Interface field `"@ + name@
                        + "` must be Net type, Net instance, Interface type, Interface instance, or  field() specification, got `"@
                        + type_of(items[h as int]) + "`"@,
                ),
                ..d
            }
        }
    }
}

proof fn lemma_declared_fails(items: Seq<Item>, v: Seq<(String, usize)>, k: int)
    requires
        0 <= k <= v.len(),
        declared(items, v.take(k)).error is Some,
    ensures
        declared(items, v) == declared(items, v.take(k)),
    decreases v.len(),
{
    if k == v.len() {
        assert(v.take(k) =~= v);
    } else {
        assert(v.drop_last().take(k) =~= v.take(k));
        lemma_declared_fails(items, v.drop_last(), k);
    }
}

/// Declares an interface: `interface(field = type, ...)`. The second part of the result holds the
/// numbers of the nets that are no longer to be registered, since they are templates.
pub fn declare_interface(store: &Store, arguments: &Vec<(String, usize)>) -> (r: (
    Result<InterfaceFactory, InterfaceError>,
    Vec<u64>,
))
    requires
        store.wf(),
        forall|i: int|
            0 <= i < arguments@.len() ==> (#[trigger] arguments@[i]).1 < store.items@.len(),
    ensures
        ({
            let d = declared(store.items@, arguments@);
            &&& r.1@ == d.released
            &&& match (r.0, d.error) {
                (Ok(f), None) => handles_in(f.fields) == d.fields && f.post_init == d.post_init
                    && f.name is None && refers_below(
                    Item::InterfaceFactory(f),
                    store.items@.len() as int,
                ),
                (Err(e), Some(t)) => e.message@ == t,
                _ => false,
            }
        }),
{
    let ghost items = store.items@;
    let ghost all = arguments@;
    let mut fields = new_handles();
    let mut post_init: Option<usize> = None;
    let mut released: Vec<u64> = Vec::new();
    let mut i: usize = 0;
    proof {
        assert(all.take(0) =~= Seq::<(String, usize)>::empty());
    }
    while i < arguments.len()
        invariant
            i <= arguments@.len(),
            all == arguments@,
            items == store.items@,
            store.wf(),
            forall|k: int| 0 <= k < all.len() ==> (#[trigger] all[k]).1 < items.len(),
            declared(items, all.take(i as int)).error is None,
            declared(items, all.take(i as int)).fields == handles_in(fields),
            declared(items, all.take(i as int)).post_init == post_init,
            declared(items, all.take(i as int)).released == released@,
            distinct(handles_in(fields)),
            all_below(handles_in(fields), items.len() as int),
            post_init is Some ==> post_init->Some_0 < items.len(),
        decreases arguments@.len() - i,
    {
        let name = arguments[i].0.as_str();
        let h: usize = arguments[i].1;
        proof {
            assert(all.take(i + 1).drop_last() =~= all.take(i as int));
            assert(all.take(i + 1).last() == all[i as int]);
        }
        if same(name, "__post_init__") {
            post_init = Some(h);
        } else if same(name, "name") {
            proof {
                lemma_declared_fails(items, all, i + 1);
            }
            return (
                Err(
                    InterfaceError {
                        message:
                            "Field name 'name' is reserved (conflicts with implicit name parameter)".to_owned(),
                    },
                ),
                released,
            );
        } else {
            let accepted = match &store.items[h] {
                Item::NetType(_) => true,
                Item::Net(_) => true,
                Item::Interface(_) => true,
                Item::Field(_) => true,
                Item::InterfaceFactory(_) => true,
                _ => false,
            };
            if !accepted {
                proof {
                    lemma_declared_fails(items, all, i + 1);
                }
                let mut message = "Interface field `".to_owned();
                message.append(name);
                message.append(
                    "` must be Net type, Net instance, Interface type, Interface instance, or  field() specification, got `",
                );
                let got = store.type_label(h);
                message.append(got.as_str());
                message.append("`");
                return (Err(InterfaceError { message }), released);
            }
            unregister_template_owned_nets(store, h, &mut released);
            proof {
                lemma_put(handles_in(fields), name@, h);
                lemma_put_below(handles_in(fields), name@, h, items.len() as int);
            }
            put_handle(&mut fields, arguments[i].0.clone(), h);
        }
        i += 1;
    }
    proof {
        assert(all.take(all.len() as int) =~= all);
    }
    (Ok(InterfaceFactory { name: None, fields, post_init }), released)
}

/// Names without one.
pub open spec fn names_without(f: Seq<(Seq<char>, usize)>, name: Seq<char>) -> Seq<Seq<char>>
    decreases f.len(),
{
    if f.len() == 0 {
        Seq::<Seq<char>>::empty()
    } else {
        let r = names_without(f.drop_last(), name);
        if f.last().0 == name {
            r
        } else {
            r.push(f.last().0)
        }
    }
}

/// A field in the text of an interface that has no name.
pub open spec fn field_text(items: Seq<Item>, h: usize, field: (Seq<char>, usize)) -> Seq<char>
    decreases h, 0int, 0int,
{
    let shown = if field.1 < h && items[field.1 as int] is InterfaceFactory {
        interface_text(items, field.1)
    } else {
        type_of(items[field.1 as int])
    };
    field.0 + ": "@ + shown
}

/// The text of an interface: its name, or its fields with their types.
pub open spec fn interface_text(items: Seq<Item>, h: usize) -> Seq<char>
    decreases h, 2int, 0int,
{
    match items[h as int] {
        Item::InterfaceFactory(f) => match f.name {
            Some(name) => name@,
            None => "interface("@ + joined(
                field_texts(items, h, handles_in(f.fields)),
                ", "@,
            ) + ")"@,
        },
        _ => Seq::<char>::empty(),
    }
}

/// The fields in the text of an interface that has no name.
pub open spec fn field_texts(items: Seq<Item>, h: usize, f: Seq<(Seq<char>, usize)>) -> Seq<Seq<char>>
    decreases h, 1int, f.len(),
{
    if f.len() == 0 {
        Seq::<Seq<char>>::empty()
    } else {
        field_texts(items, h, f.drop_last()).push(field_text(items, h, f.last()))
    }
}

/// The text of an interface.
pub fn show_interface(store: &Store, h: usize) -> (r: String)
    requires
        store.wf(),
        h < store.items@.len(),
    ensures
        r@ == interface_text(store.items@, h),
    decreases h,
{
    let ghost items = store.items@;
    proof {
        assert(refers_below(items[h as int], h as int));
    }
    match &store.items[h] {
        Item::InterfaceFactory(v) => {
            if let Some(name) = &v.name {
                return name.clone();
            }
            let ghost f = handles_in(v.fields);
            let n = count_handles(&v.fields);
            let mut list: Vec<String> = Vec::new();
            let mut k: usize = 0;
            proof {
                assert(f.take(0) =~= Seq::<(Seq<char>, usize)>::empty());
                assert(texts(list@) =~= Seq::<Seq<char>>::empty());
            }
            while k < n
                invariant
                    k <= n,
                    n == f.len(),
                    f == handles_in(v.fields),
                    items == store.items@,
                    store.wf(),
                    h < items.len(),
                    all_below(f, h as int),
                    texts(list@) == field_texts(items, h, f.take(k as int)),
                decreases n - k,
            {
                if let Some((name, child)) = handle_at(&v.fields, k) {
                    proof {
                        assert(f.take(k + 1).drop_last() =~= f.take(k as int));
                        assert(f.take(k + 1).last() == (name@, child));
                        assert(f[k as int] == (name@, child));
                    }
                    let shown = match &store.items[child] {
                        Item::InterfaceFactory(_) => show_interface(store, child),
                        _ => store.type_label(child),
                    };
                    let mut line = name.to_owned();
                    line.append(": ");
                    line.append(shown.as_str());
                    proof {
                        assert(line@ == field_text(items, h, (name@, child)));
                        lemma_texts_push(list@, line);
                        assert(field_texts(items, h, f.take(k + 1)) == field_texts(
                            items,
                            h,
                            f.take(k as int),
                        ).push(field_text(items, h, (name@, child))));
                    }
                    list.push(line);
                }
                k += 1;
            }
            proof {
                assert(f.take(f.len() as int) =~= f);
            }
            let mut out = "interface(".to_owned();
            let inner = join(&list, ", ");
            out.append(inner.as_str());
            out.append(")");
            out
        },
        _ => {
            let out = String::new();
            proof {
                assert(out@ =~= Seq::<char>::empty());
            }
            out
        },
    }
}

/// A provided name for an instance, or the error. `name_error` is what is wrong with the name, where
/// it is a string.
pub open spec fn instance_prefix(
    items: Seq<Item>,
    name: Option<usize>,
    name_error: Option<Seq<char>>,
) -> Result<PrefixView, Seq<char>> {
    match name {
        None => Ok(no_prefix()),
        Some(h) => match text_of(items[h as int]) {
            None => Err("Interface name must be a string"@),
            Some(s) => match name_error {
                Some(e) => Err(e),
                None => Ok(
                    PrefixView { old_style: s, new_style: s, assignment_inferable: false },
                ),
            },
        },
    }
}

impl InterfaceFactory {
    /// Makes an instance: the nets begin with the name of the instance, where it has one, else they
    /// take the name of the variable that it is assigned to.
    pub fn invoke(
        store: &mut Store,
        factory: usize,
        name: Option<usize>,
        name_error: Option<String>,
        provided: &Vec<ProvidedField>,
        site: &Place,
    ) -> (r: (Result<usize, InterfaceError>, Vec<Effect>))
        requires
            old(store).wf(),
            factory < old(store).items@.len(),
            name is Some ==> name->Some_0 < old(store).items@.len(),
            provided_below(provided@, old(store).items@.len() as int),
            match instance_prefix(old(store).items@, name, opt_text(name_error)) {
                Ok(p) => old(store).next_net_id + made_instance(
                    setting_of(*old(store), true, site@),
                    p,
                    factory,
                    provided@,
                    nothing_built(),
                ).1.ids <= u64::MAX,
                Err(_) => true,
            },
        ensures
            match instance_prefix(old(store).items@, name, opt_text(name_error)) {
                Err(t) => r.0 is Err && r.0->Err_0.message@ == t && r.1@.len() == 0 && *final(store)
                    == *old(store),
                Ok(p) => {
                    let s = setting_of(*old(store), true, site@);
                    let (x, c) = made_instance(s, p, factory, provided@, nothing_built());
                    &&& stands(*final(store), s, c, r.1@)
                    &&& match (r.0, x) {
                        (Ok(a), Ok(z)) => a == z && a < final(store).items@.len(),
                        (Err(e), Err(t)) => e.message@ == t,
                        _ => false,
                    }
                },
            },
    {
        let prefix = match name {
            None => InstancePrefix::empty(),
            Some(h) => match store.text(h) {
                None => {
                    return (
                        Err(
                            InterfaceError {
                                message: "Interface name must be a string".to_owned(),
                            },
                        ),
                        Vec::new(),
                    );
                },
                Some(s) => {
                    if let Some(message) = name_error {
                        return (Err(InterfaceError { message }), Vec::new());
                    }
                    InstancePrefix::from_root(s)
                },
            },
        };
        create_interface_instance(store, factory, provided, &prefix, true, site)
    }

    /// Takes the name of the variable that the interface is assigned to, unless it has one.
    pub fn export_as(&mut self, variable_name: &str)
        ensures
            final(self).fields == old(self).fields,
            final(self).post_init == old(self).post_init,
            opt_text(final(self).name) == (match opt_text(old(self).name) {
                Some(name) => Some(name),
                None => Some(variable_name@),
            }),
    {
        if self.name.is_none() {
            self.name = Some(variable_name.to_owned());
        }
    }

    /// The fields of the interface, with their types.
    pub fn fields(&self) -> (r: &SmallMap<String, usize>)
        ensures
            *r == self.fields,
    {
        &self.fields
    }

    /// The type of a field.
    pub fn field(&self, name: &str) -> (r: Option<usize>)
        ensures
            r == under(handles_in(self.fields), name@),
    {
        get_handle(&self.fields, name)
    }

    /// The fields of the interface, in order.
    pub fn iter(&self) -> (r: Vec<(String, usize)>)
        ensures
            crate::lang::component_value::listed(r@) == handles_in(self.fields),
    {
        crate::lang::component_value::list_entries(&self.fields)
    }

    /// The names of the fields.
    pub fn dir_attr(&self) -> (r: Vec<String>)
        ensures
            texts(r@) == names_of(handles_in(self.fields)),
    {
        key_names(&self.fields)
    }

    /// The names of the parameters: the name of the instance, then every field of another name.
    pub fn parameter_names(&self) -> (r: Vec<String>)
        ensures
            texts(r@) == seq!["name"@] + names_without(handles_in(self.fields), "name"@),
    {
        let ghost f = handles_in(self.fields);
        let n = count_handles(&self.fields);
        let mut out: Vec<String> = Vec::new();
        out.push("name".to_owned());
        let mut k: usize = 0;
        proof {
            assert(f.take(0) =~= Seq::<(Seq<char>, usize)>::empty());
            assert(texts(out@) =~= seq!["name"@] + Seq::<Seq<char>>::empty());
        }
        while k < n
            invariant
                k <= n,
                n == f.len(),
                f == handles_in(self.fields),
                texts(out@) == seq!["name"@] + names_without(f.take(k as int), "name"@),
            decreases n - k,
        {
            if let Some((name, h)) = handle_at(&self.fields, k) {
                proof {
                    assert(f.take(k + 1).drop_last() =~= f.take(k as int));
                    assert(f.take(k + 1).last() == (name@, h));
                }
                if !same(name, "name") {
                    let s = name.to_owned();
                    let ghost prior = names_without(f.take(k as int), "name"@);
                    proof {
                        lemma_texts_push(out@, s);
                        assert((seq!["name"@] + prior).push(name@) =~= seq!["name"@] + prior.push(
                            name@,
                        ));
                    }
                    out.push(s);
                }
            }
            k += 1;
        }
        proof {
            assert(f.take(f.len() as int) =~= f);
        }
        out
    }
}

// ---------------------------------------------------------------------------------------------
// Instances in use

/// The name that a net of an instance takes from the instance's variable.
pub open spec fn name_in_variable(variable: Seq<char>, name: Seq<char>) -> Seq<char> {
    let relative = if begins(name, "_"@) {
        name.skip(1)
    } else {
        name
    };
    if relative.len() == 0 {
        variable
    } else {
        variable + "_"@ + relative
    }
}

/// The names that the nets of an instance take when it is assigned to a variable: of those fields
/// that were not provided, at whatever depth, unless the instance has a name of its own.
pub open spec fn assigned_names(items: Seq<Item>, variable: Seq<char>, h: usize) -> Seq<
    (usize, Seq<char>),
>
    decreases h, 1int, 0int,
{
    match items[h as int] {
        Item::Interface(v) => if v.instance_root_name is Some {
            Seq::<(usize, Seq<char>)>::empty()
        } else {
            assigned_in_fields(
                items,
                variable,
                h,
                handles_in(v.fields),
                texts(v.generated_fields@),
            )
        },
        _ => Seq::<(usize, Seq<char>)>::empty(),
    }
}

/// The names that the fields of an instance take.
pub open spec fn assigned_in_fields(
    items: Seq<Item>,
    variable: Seq<char>,
    h: usize,
    f: Seq<(Seq<char>, usize)>,
    generated: Seq<Seq<char>>,
) -> Seq<(usize, Seq<char>)>
    decreases h, 0int, f.len(),
{
    if f.len() == 0 {
        Seq::<(usize, Seq<char>)>::empty()
    } else {
        let r = assigned_in_fields(items, variable, h, f.drop_last(), generated);
        let (name, child) = f.last();
        if !generated.contains(name) || child >= h {
            r
        } else {
            match items[child as int] {
                Item::Net(n) => r.push((child, name_in_variable(variable, resolved_name(n@)))),
                Item::Interface(_) => r + assigned_names(items, variable, child),
                _ => r,
            }
        }
    }
}

/// The contents of a list of names.
pub open spec fn name_views(v: Seq<(usize, String)>) -> Seq<(usize, Seq<char>)> {
    Seq::new(v.len(), |i: int| (v[i].0, v[i].1@))
}

/// Adds the names that the nets of an instance take from a variable.
fn add_assigned_names(store: &Store, variable: &str, h: usize, out: &mut Vec<(usize, String)>)
    requires
        store.wf(),
        h < store.items@.len(),
    ensures
        name_views(final(out)@) == name_views(old(out)@) + assigned_names(
            store.items@,
            variable@,
            h,
        ),
    decreases h,
{
    let ghost items = store.items@;
    let ghost first = name_views(out@);
    proof {
        assert(refers_below(items[h as int], h as int));
        assert(first + Seq::<(usize, Seq<char>)>::empty() =~= first);
    }
    if let Item::Interface(v) = &store.items[h] {
        if v.instance_root_name.is_some() {
            return ;
        }
        let ghost f = handles_in(v.fields);
        let ghost g = texts(v.generated_fields@);
        let n = count_handles(&v.fields);
        let mut k: usize = 0;
        proof {
            assert(f.take(0) =~= Seq::<(Seq<char>, usize)>::empty());
        }
        while k < n
            invariant
                k <= n,
                n == f.len(),
                f == handles_in(v.fields),
                g == texts(v.generated_fields@),
                items == store.items@,
                store.wf(),
                h < items.len(),
                all_below(f, h as int),
                name_views(out@) == first + assigned_in_fields(
                    items,
                    variable@,
                    h,
                    f.take(k as int),
                    g,
                ),
            decreases n - k,
        {
            if let Some((name, child)) = handle_at(&v.fields, k) {
                let ghost r = assigned_in_fields(items, variable@, h, f.take(k as int), g);
                proof {
                    assert(f.take(k + 1).drop_last() =~= f.take(k as int));
                    assert(f.take(k + 1).last() == (name@, child));
                    assert(f[k as int] == (name@, child));
                }
                if contains_text(&v.generated_fields, name) {
                    match &store.items[child] {
                        Item::Net(net) => {
                            let own = net.name();
                            proof {
                                reveal_strlit("_");
                            }
                            let relative: &str = match strip_prefix(own, "_") {
                                Some(rest) => rest,
                                None => own,
                            };
                            let inferred = if relative.unicode_len() == 0 {
                                variable.to_owned()
                            } else {
                                let mut s = variable.to_owned();
                                s.append("_");
                                s.append(relative);
                                s
                            };
                            let ghost e = (child, inferred@);
                            let ghost prior = name_views(out@);
                            out.push((child, inferred));
                            proof {
                                assert(name_views(out@) =~= prior.push(e));
                                assert((first + r).push(e) =~= first + r.push(e));
                            }
                        },
                        Item::Interface(_) => {
                            proof {
                                assert((first + r) + assigned_names(items, variable@, child)
                                    =~= first + (r + assigned_names(items, variable@, child)));
                            }
                            add_assigned_names(store, variable, child, out);
                        },
                        _ => {},
                    }
                }
            }
            k += 1;
        }
        proof {
            assert(f.take(f.len() as int) =~= f);
        }
    }
}

impl InterfaceValue {
    /// The names that the nets of an instance take when it is assigned to a variable, net by net.
    pub fn export_as(store: &Store, instance: usize, variable_name: &str) -> (r: Vec<(usize, String)>)
        requires
            store.wf(),
            instance < store.items@.len(),
        ensures
            name_views(r@) == assigned_names(store.items@, variable_name@, instance),
    {
        let mut out: Vec<(usize, String)> = Vec::new();
        proof {
            assert(name_views(out@) =~= Seq::<(usize, Seq<char>)>::empty());
            assert(name_views(out@) + assigned_names(store.items@, variable_name@, instance)
                =~= assigned_names(store.items@, variable_name@, instance));
        }
        add_assigned_names(store, variable_name, instance, &mut out);
        out
    }

    /// A field of the instance.
    pub fn get_attr(&self, attribute: &str) -> (r: Option<usize>)
        ensures
            r == under(handles_in(self.fields), attribute@),
    {
        get_handle(&self.fields, attribute)
    }

    /// The names of the fields.
    pub fn dir_attr(&self) -> (r: Vec<String>)
        ensures
            texts(r@) == names_of(handles_in(self.fields)),
    {
        key_names(&self.fields)
    }

    /// The fields of the instance.
    pub fn fields(&self) -> (r: &SmallMap<String, usize>)
        ensures
            *r == self.fields,
    {
        &self.fields
    }

    /// The interface that the instance is of.
    pub fn factory(&self) -> (r: usize)
        ensures
            r == self.factory,
    {
        self.factory
    }
}

} // verus!
