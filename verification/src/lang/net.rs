//! Nets and their types.

use starlark::collections::SmallMap;
use vstd::prelude::*;

use crate::diagnostic::{opt_placed, somewhere_in, Notice, NoticeView, Place, PlaceView};
use crate::diagnostic::{PlacedNotice, Severity, SourceSpan};
use crate::lang::value::{all_below, copy_handles, lemma_below_later, net_of, refers_below, text_of};
use crate::lang::value::{type_of, Item, Store};
use crate::small_map::{count_handles, distinct, drop_handle, get_handle, handle_at, handles_in};
use crate::small_map::{lemma_place, lemma_put, lemma_without, names_of, new_handles, place, put};
use crate::small_map::{put_handle, under, without};
use crate::text::{as_opt_str, clone_opt, contains_text, law_ascending_is_determined};
use crate::text::{lemma_texts_push, opt_str, opt_text, same, sorted_texts, strictly_ascending};
use crate::text::texts;

verus! {

/// The number of a net.
pub type NetId = u64;

/// The type under which a net can be seen instead of its own, if it has to be: every net can be
/// seen as a plain one.
pub fn compatible_net_type_view<'a>(actual: &str, expected: &'a str) -> (r: Option<&'a str>)
    ensures
        opt_str(r) == (if actual@ != expected@ && expected@ == "Net"@ {
            Some(expected@)
        } else {
            None
        }),
{
    if !same(actual, expected) && same(expected, "Net") {
        Some(expected)
    } else {
        None
    }
}

/// Whether nets of a kind need a name.
pub fn net_kind_requires_name(kind: &str) -> (r: bool)
    ensures
        r == (kind@ != "NotConnected"@),
{
    !same(kind, "NotConnected")
}

/// The fields that the nets of a type have even where nobody declares them.
pub open spec fn optional_fields(type_label: Seq<char>) -> Seq<Seq<char>> {
    if type_label == "Net"@ {
        seq!["voltage"@, "impedance"@]
    } else if type_label == "Power"@ {
        seq!["voltage"@]
    } else {
        Seq::<Seq<char>>::empty()
    }
}

/// The fields that the nets of a type have even where nobody declares them.
pub fn builtin_optional_net_fields(type_label: &str) -> (r: Vec<String>)
    ensures
        texts(r@) == optional_fields(type_label@),
{
    let mut out: Vec<String> = Vec::new();
    if same(type_label, "Net") {
        out.push("voltage".to_owned());
        out.push("impedance".to_owned());
    } else if same(type_label, "Power") {
        out.push("voltage".to_owned());
    }
    proof {
        assert(texts(out@) =~= optional_fields(type_label@));
    }
    out
}

/// Whether a field is one that the nets of a type have even where nobody declares it.
pub fn is_builtin_optional_net_field(type_label: &str, field: &str) -> (r: bool)
    ensures
        r == optional_fields(type_label@).contains(field@),
{
    contains_text(&builtin_optional_net_fields(type_label), field)
}

/// Whether a net is meant to be connected.
#[derive(Clone, Copy, PartialEq, Eq, Structural, Debug)]
pub enum ConnectionIntent {
    Connected,
    Open,
}

/// A net.
pub struct NetValue {
    pub net_id: NetId,
    /// The name; empty while it is to be inferred.
    pub name: String,
    /// The name that copies of the net are named after.
    pub template_name: Option<String>,
    /// The name that the net was given.
    pub original_name: Option<String>,
    /// Whether the net takes the name of the variable that it is assigned to.
    pub assignment_inferable: bool,
    /// Whether the net was assigned to a variable.
    pub was_bound: bool,
    /// The name that was inferred.
    pub inferred_name: Option<String>,
    /// The file in which the net was made.
    pub declaration_path: String,
    /// The call that made it, where that is known.
    pub declaration_span: Option<SourceSpan>,
    /// The type, such as `Net`, `Power` or `Ground`.
    pub type_label: String,
    pub connection_intent: ConnectionIntent,
    pub properties: SmallMap<String, usize>,
}

/// The contents of a net.
pub struct NetView {
    pub net_id: NetId,
    pub name: Seq<char>,
    pub template_name: Option<Seq<char>>,
    pub original_name: Option<Seq<char>>,
    pub assignment_inferable: bool,
    pub was_bound: bool,
    pub inferred_name: Option<Seq<char>>,
    pub declaration_path: Seq<char>,
    pub declaration_span: Option<SourceSpan>,
    pub type_label: Seq<char>,
    pub connection_intent: ConnectionIntent,
    pub properties: Seq<(Seq<char>, usize)>,
}

impl View for NetValue {
    type V = NetView;

    open spec fn view(&self) -> NetView {
        NetView {
            net_id: self.net_id,
            name: self.name@,
            template_name: opt_text(self.template_name),
            original_name: opt_text(self.original_name),
            assignment_inferable: self.assignment_inferable,
            was_bound: self.was_bound,
            inferred_name: opt_text(self.inferred_name),
            declaration_path: self.declaration_path@,
            declaration_span: self.declaration_span,
            type_label: self.type_label@,
            connection_intent: self.connection_intent,
            properties: handles_in(self.properties),
        }
    }
}

/// The name that a net goes by: the inferred one, where there is one.
pub open spec fn resolved_name(n: NetView) -> Seq<char> {
    match n.inferred_name {
        Some(name) => name,
        None => n.name,
    }
}

/// The kind of a net in a netlist.
pub open spec fn kind_of(n: NetView) -> Seq<char> {
    if n.connection_intent == ConnectionIntent::Open {
        "NotConnected"@
    } else {
        n.type_label
    }
}

/// Whether a net goes where a type is expected: it has the type, or is open.
pub open spec fn goes_as(n: NetView, expected: Seq<char>) -> bool {
    n.connection_intent == ConnectionIntent::Open || n.type_label == expected
}

/// A copy of a net under another number and type.
pub open spec fn copied(n: NetView, net_id: NetId, type_label: Seq<char>) -> NetView {
    NetView { net_id, name: resolved_name(n), type_label, ..n }
}

/// An open net that was made at a place.
pub open spec fn open_net(net_id: NetId, site: PlaceView) -> NetView {
    NetView {
        net_id,
        name: Seq::<char>::empty(),
        template_name: None,
        original_name: None,
        assignment_inferable: false,
        was_bound: false,
        inferred_name: None,
        declaration_path: site.path,
        declaration_span: site.span,
        type_label: "Net"@,
        connection_intent: ConnectionIntent::Open,
        properties: Seq::<(Seq<char>, usize)>::empty(),
    }
}

/// What an attribute of a net is.
pub enum NetAttr {
    /// The net, seen as a plain one.
    AsNet,
    /// A property.
    Property(usize),
    /// An optional field that is not set.
    Unset,
}

/// Whether a net took the name of a variable, where it may.
pub open spec fn takes_name(before: NetValue, after: NetValue, name: Seq<char>) -> bool {
    after@ == (if before.assignment_inferable && before.inferred_name is None {
        NetView { inferred_name: Some(name), ..before@ }
    } else {
        before@
    })
}

impl NetValue {
    /// The invariant: no property stands twice.
    pub open spec fn wf(&self) -> bool {
        distinct(handles_in(self.properties))
    }

    /// A plain net.
    pub fn new(net_id: NetId, name: String, properties: SmallMap<String, usize>) -> (r: NetValue)
        ensures
            r@ == (NetView {
                name: name@,
                connection_intent: ConnectionIntent::Connected,
                properties: handles_in(properties),
                ..open_net(net_id, somewhere_in(Seq::<char>::empty()))
            }),
    {
        NetValue {
            net_id,
            name,
            template_name: None,
            original_name: None,
            assignment_inferable: false,
            was_bound: false,
            inferred_name: None,
            declaration_path: String::new(),
            declaration_span: None,
            type_label: "Net".to_owned(),
            connection_intent: ConnectionIntent::Connected,
            properties,
        }
    }

    /// A net that is left open.
    pub fn open(net_id: NetId, site: &Place) -> (r: NetValue)
        ensures
            r.wf(),
            r@ == open_net(net_id, site@),
    {
        NetValue {
            net_id,
            name: String::new(),
            template_name: None,
            original_name: None,
            assignment_inferable: false,
            was_bound: false,
            inferred_name: None,
            declaration_path: site.path.clone(),
            declaration_span: site.span,
            type_label: "Net".to_owned(),
            connection_intent: ConnectionIntent::Open,
            properties: new_handles(),
        }
    }

    /// The name that the net goes by.
    pub fn name(&self) -> (r: &str)
        ensures
            r@ == resolved_name(self@),
    {
        match &self.inferred_name {
            Some(name) => name.as_str(),
            None => self.name.as_str(),
        }
    }

    /// The number of the net.
    pub fn id(&self) -> (r: NetId)
        ensures
            r == self.net_id,
    {
        self.net_id
    }

    /// The number of the net.
    pub fn net_id(&self) -> (r: NetId)
        ensures
            r == self.net_id,
    {
        self.net_id
    }

    /// The name that the net was given, or the one that it goes by.
    pub fn original_name(&self) -> (r: &str)
        ensures
            r@ == (match self@.original_name {
                Some(name) => name,
                None => resolved_name(self@),
            }),
    {
        match &self.original_name {
            Some(name) => name.as_str(),
            None => self.name(),
        }
    }

    /// The name that the net was given.
    pub fn original_name_opt(&self) -> (r: Option<&str>)
        ensures
            opt_str(r) == self@.original_name,
    {
        as_opt_str(&self.original_name)
    }

    /// The name that copies of the net are named after.
    pub fn template_name_opt(&self) -> (r: Option<&str>)
        ensures
            opt_str(r) == self@.template_name,
    {
        as_opt_str(&self.template_name)
    }

    /// The type of the net.
    pub fn net_type_name(&self) -> (r: &str)
        ensures
            r@ == self.type_label@,
    {
        self.type_label.as_str()
    }

    /// The kind of the net in a netlist.
    pub fn net_kind_name(&self) -> (r: &str)
        ensures
            r@ == kind_of(self@),
    {
        match self.connection_intent {
            ConnectionIntent::Open => "NotConnected",
            ConnectionIntent::Connected => self.type_label.as_str(),
        }
    }

    /// Whether the net is left open.
    pub fn is_open(&self) -> (r: bool)
        ensures
            r == (self.connection_intent == ConnectionIntent::Open),
    {
        match self.connection_intent {
            ConnectionIntent::Open => true,
            ConnectionIntent::Connected => false,
        }
    }

    /// The properties of the net.
    pub fn properties(&self) -> (r: &SmallMap<String, usize>)
        ensures
            *r == self.properties,
    {
        &self.properties
    }

    /// The file in which the net was made, where it is known.
    pub fn declaration_path(&self) -> (r: Option<&str>)
        ensures
            opt_str(r) == (if self.declaration_path@.len() == 0 {
                None
            } else {
                Some(self.declaration_path@)
            }),
    {
        if self.declaration_path.as_str().unicode_len() == 0 {
            None
        } else {
            Some(self.declaration_path.as_str())
        }
    }

    /// The call that made the net, where that is known.
    pub fn declaration_span(&self) -> (r: Option<SourceSpan>)
        ensures
            r == self@.declaration_span,
    {
        self.declaration_span
    }

    /// Whether the net was assigned to a variable.
    pub fn is_external_reference(&self) -> (r: bool)
        ensures
            r == self.was_bound,
    {
        self.was_bound
    }

    /// Whether the net belongs to the expression that it stands in.
    pub fn is_template_owned(&self) -> (r: bool)
        ensures
            r == !self.was_bound,
    {
        !self.was_bound
    }

    /// Whether implicit checks leave the net out.
    pub fn skips_implicit_checks(&self) -> (r: bool)
        ensures
            r == self.was_bound,
    {
        self.was_bound
    }

    /// Whether the net goes where a type is expected.
    pub fn matches_type_name(&self, expected: &str) -> (r: bool)
        ensures
            r == goes_as(self@, expected@),
    {
        self.is_open() || same(self.type_label.as_str(), expected)
    }

    /// Takes note that the net was assigned to a variable.
    pub fn mark_bound(&mut self)
        ensures
            final(self)@ == (NetView { was_bound: true, ..old(self)@ }),
    {
        self.was_bound = true;
    }

    /// Takes the name of a variable, `final_name` being the name that is free for the net; a net
    /// whose name is fixed or was inferred before keeps it.
    pub fn infer_assignment_name(&mut self, final_name: String)
        ensures
            takes_name(*old(self), *final(self), final_name@),
    {
        if self.assignment_inferable && self.inferred_name.is_none() {
            self.inferred_name = Some(final_name);
        }
    }

    /// A copy under another number and type. Properties are shared.
    pub fn alloc_clone(&self, net_id: NetId, type_label: String) -> (r: NetValue)
        requires
            self.wf(),
        ensures
            r.wf(),
            r@ == copied(self@, net_id, type_label@),
    {
        NetValue {
            net_id,
            name: self.name().to_owned(),
            template_name: clone_opt(&self.template_name),
            original_name: clone_opt(&self.original_name),
            assignment_inferable: self.assignment_inferable,
            was_bound: self.was_bound,
            inferred_name: clone_opt(&self.inferred_name),
            declaration_path: self.declaration_path.clone(),
            declaration_span: self.declaration_span,
            type_label,
            connection_intent: self.connection_intent,
            properties: copy_handles(&self.properties),
        }
    }

    /// A copy under a number of its own.
    pub fn with_new_id(&self, net_id: NetId) -> (r: NetValue)
        requires
            self.wf(),
        ensures
            r.wf(),
            r@ == copied(self@, net_id, self.type_label@),
    {
        self.alloc_clone(net_id, self.type_label.clone())
    }

    /// The same net, seen as one of another type.
    pub fn with_net_type(&self, new_type: &str) -> (r: NetValue)
        requires
            self.wf(),
        ensures
            r.wf(),
            r@ == copied(self@, self.net_id, new_type@),
    {
        self.alloc_clone(self.net_id, new_type.to_owned())
    }

    /// The same net once more.
    pub fn to_current_heap(&self) -> (r: NetValue)
        requires
            self.wf(),
        ensures
            r.wf(),
            r@ == copied(self@, self.net_id, self.type_label@),
    {
        self.alloc_clone(self.net_id, self.type_label.clone())
    }

    /// The same net, made elsewhere.
    pub fn with_declaration_site(&self, site: &Place) -> (r: NetValue)
        requires
            self.wf(),
        ensures
            r.wf(),
            r@ == (NetView {
                declaration_path: site@.path,
                declaration_span: site@.span,
                ..copied(self@, self.net_id, self.type_label@)
            }),
    {
        let r = self.alloc_clone(self.net_id, self.type_label.clone());
        NetValue { declaration_path: site.path.clone(), declaration_span: site.span, ..r }
    }

    /// An attribute of the net.
    pub fn get_attr(&self, attribute: &str) -> (r: Option<NetAttr>)
        ensures
            r == (if attribute@ == "NET"@ {
                Some(NetAttr::AsNet)
            } else {
                match under(handles_in(self.properties), attribute@) {
                    Some(v) => Some(NetAttr::Property(v)),
                    None => if optional_fields(self.type_label@).contains(attribute@) {
                        Some(NetAttr::Unset)
                    } else {
                        None
                    },
                }
            }),
    {
        if same(attribute, "NET") {
            return Some(NetAttr::AsNet);
        }
        match get_handle(&self.properties, attribute) {
            Some(v) => Some(NetAttr::Property(v)),
            None => if is_builtin_optional_net_field(self.type_label.as_str(), attribute) {
                Some(NetAttr::Unset)
            } else {
                None
            },
        }
    }

    /// Whether the net has an attribute.
    pub fn has_attr(&self, attribute: &str) -> (r: bool)
        ensures
            r == (attribute@ == "NET"@ || under(handles_in(self.properties), attribute@) is Some
                || optional_fields(self.type_label@).contains(attribute@)),
    {
        same(attribute, "NET") || get_handle(&self.properties, attribute).is_some()
            || is_builtin_optional_net_field(self.type_label.as_str(), attribute)
    }

    /// The names of the net's attributes: its properties, the plain view, the optional fields that
    /// are not set, and what every net has.
    pub fn dir_attr(&self) -> (r: Vec<String>)
        ensures
            texts(r@) == with_missing(
                with_missing(names_of(handles_in(self.properties)), seq!["NET"@]),
                optional_fields(self.type_label@),
            ) + seq!["name"@, "net_id"@, "original_name"@, "type"@],
    {
        let mut out = key_names(&self.properties);
        let mut own: Vec<String> = Vec::new();
        own.push("NET".to_owned());
        proof {
            assert(texts(own@) =~= seq!["NET"@]);
        }
        add_missing(&mut out, &own);
        let optional = builtin_optional_net_fields(self.type_label.as_str());
        add_missing(&mut out, &optional);
        let ghost prior = texts(out@);
        out.push("name".to_owned());
        out.push("net_id".to_owned());
        out.push("original_name".to_owned());
        out.push("type".to_owned());
        proof {
            assert(texts(out@) =~= prior + seq!["name"@, "net_id"@, "original_name"@, "type"@]);
        }
        out
    }
}

/// A list with those of other names behind it that it does not hold.
pub open spec fn with_missing(names: Seq<Seq<char>>, more: Seq<Seq<char>>) -> Seq<Seq<char>>
    decreases more.len(),
{
    if more.len() == 0 {
        names
    } else {
        let r = with_missing(names, more.drop_last());
        if r.contains(more.last()) {
            r
        } else {
            r.push(more.last())
        }
    }
}

/// Adds those names that a list does not hold.
fn add_missing(out: &mut Vec<String>, more: &Vec<String>)
    ensures
        texts(final(out)@) == with_missing(texts(old(out)@), texts(more@)),
{
    let ghost first = texts(out@);
    let ghost all = texts(more@);
    let mut i: usize = 0;
    proof {
        assert(all.take(0) =~= Seq::<Seq<char>>::empty());
    }
    while i < more.len()
        invariant
            i <= more@.len(),
            all == texts(more@),
            first == texts(old(out)@),
            texts(out@) == with_missing(first, all.take(i as int)),
        decreases more@.len() - i,
    {
        proof {
            assert(all.take(i + 1).drop_last() =~= all.take(i as int));
            assert(all.take(i + 1).last() == more@[i as int]@);
        }
        if !contains_text(out, more[i].as_str()) {
            let s = more[i].clone();
            proof {
                lemma_texts_push(out@, s);
            }
            out.push(s);
        }
        i += 1;
    }
    proof {
        assert(all.take(all.len() as int) =~= all);
    }
}

/// The keys of a map, in order.
pub fn key_names(m: &SmallMap<String, usize>) -> (r: Vec<String>)
    ensures
        texts(r@) == names_of(handles_in(*m)),
{
    let ghost all = handles_in(*m);
    let n = count_handles(m);
    let mut out: Vec<String> = Vec::new();
    let mut i: usize = 0;
    while i < n
        invariant
            i <= n,
            n == all.len(),
            all == handles_in(*m),
            out@.len() == i,
            forall|k: int| 0 <= k < i ==> (#[trigger] out@[k])@ == all[k].0,
        decreases n - i,
    {
        if let Some((k, _)) = handle_at(m, i) {
            out.push(k.to_owned());
        }
        i += 1;
    }
    proof {
        assert(texts(out@) =~= names_of(all));
    }
    out
}

// ---------------------------------------------------------------------------------------------
// Net types

/// A type of nets: its name and the specifications of its fields.
pub struct NetType {
    pub type_label: String,
    pub fields: SmallMap<String, usize>,
}

/// What is wrong with a net.
pub enum NetError {
    ReservedField,
    /// What a named argument is not.
    NotAName { type_label: String, got: String },
    NeitherNameNorNet { type_label: String, got: String },
    OpenNotAName { got: String },
    OpenNameNotText { got: String },
    OpenTooMany,
    OpenUnexpected { name: String },
    /// The specification of a field is none.
    InvalidFieldType { field: String, error: String },
}

impl NetError {
    /// The text of the error.
    pub open spec fn text(&self) -> Seq<char> {
        match *self {
            NetError::ReservedField =>
            "Field name 'name' is reserved (conflicts with implicit name parameter)"@,
            NetError::NotAName { type_label, got } => type_label@ + "() 'name' must be string, got "@
                + got@,
            NetError::NeitherNameNorNet { type_label, got } => type_label@
                + "() expects string or Net value as positional, got "@ + got@,
            NetError::OpenNotAName { got } =>
            "NotConnected() expects an optional name string, got "@ + got@,
            NetError::OpenNameNotText { got } => "NotConnected() `name` must be string, got "@ + got@,
            NetError::OpenTooMany => "NotConnected() accepts at most one positional argument"@,
            NetError::OpenUnexpected { name } => "NotConnected() got unexpected named argument `"@
                + name@ + "`"@,
            NetError::InvalidFieldType { field, error } => "Invalid type spec for field '"@ + field@
                + "': "@ + error@,
        }
    }

    /// The text of the error.
    pub fn message(&self) -> (r: String)
        ensures
            r@ == self.text(),
    {
        match self {
            NetError::ReservedField =>
            "Field name 'name' is reserved (conflicts with implicit name parameter)".to_owned(),
            NetError::NotAName { type_label, got } => {
                let mut out = type_label.clone();
                out.append("() 'name' must be string, got ");
                out.append(got.as_str());
                out
            },
            NetError::NeitherNameNorNet { type_label, got } => {
                let mut out = type_label.clone();
                out.append("() expects string or Net value as positional, got ");
                out.append(got.as_str());
                out
            },
            NetError::OpenNotAName { got } => {
                let mut out = "NotConnected() expects an optional name string, got ".to_owned();
                out.append(got.as_str());
                out
            },
            NetError::OpenNameNotText { got } => {
                let mut out = "NotConnected() `name` must be string, got ".to_owned();
                out.append(got.as_str());
                out
            },
            NetError::OpenTooMany =>
            "NotConnected() accepts at most one positional argument".to_owned(),
            NetError::OpenUnexpected { name } => {
                let mut out = "NotConnected() got unexpected named argument `".to_owned();
                out.append(name.as_str());
                out.append("`");
                out
            },
            NetError::InvalidFieldType { field, error } => {
                let mut out = "Invalid type spec for field '".to_owned();
                out.append(field.as_str());
                out.append("': ");
                out.append(error.as_str());
                out
            },
        }
    }
}

/// The first thing that is wrong with the named arguments of an open net.
pub open spec fn named_error(named: Seq<(String, usize)>, items: Seq<Item>) -> Option<Seq<char>>
    decreases named.len(),
{
    if named.len() == 0 {
        None
    } else {
        match named_error(named.drop_last(), items) {
            Some(e) => Some(e),
            None => if named.last().0@ == "name"@ {
                match text_of(items[named.last().1 as int]) {
                    Some(_) => None,
                    None => Some(
                        "NotConnected() `name` must be string, got "@ + type_of(
                            items[named.last().1 as int],
                        ),
                    ),
                }
            } else {
                Some(
                    "NotConnected() got unexpected named argument `"@ + named.last().0@ + "`"@,
                )
            },
        }
    }
}

/// What is wrong with the arguments of an open net.
pub open spec fn open_net_error(
    positional: Seq<usize>,
    named: Seq<(String, usize)>,
    items: Seq<Item>,
) -> Option<Seq<char>> {
    if positional.len() > 1 {
        Some("NotConnected() accepts at most one positional argument"@)
    } else if positional.len() == 1 && text_of(items[positional[0] as int]) is None {
        Some(
            "NotConnected() expects an optional name string, got "@ + type_of(
                items[positional[0] as int],
            ),
        )
    } else {
        named_error(named, items)
    }
}

proof fn lemma_named_error_stays(named: Seq<(String, usize)>, items: Seq<Item>, k: int)
    requires
        0 <= k <= named.len(),
        named_error(named.take(k), items) is Some,
    ensures
        named_error(named, items) == named_error(named.take(k), items),
    decreases named.len(),
{
    if k == named.len() {
        assert(named.take(k) =~= named);
    } else {
        assert(named.drop_last().take(k) =~= named.take(k));
        lemma_named_error_stays(named.drop_last(), items, k);
    }
}

/// The text of the note that an open net takes no name.
pub const NAME_IGNORED: &'static str = "NotConnected does not support names; name ignored";

/// The note that an open net takes no name, at the place where it is made.
pub open spec fn ignored_name(site: PlaceView) -> (PlaceView, NoticeView) {
    (
        site,
        NoticeView {
            message: NAME_IGNORED@,
            kind: "net.not_connected_name_ignored"@,
            severity: Severity::Warning,
        },
    )
}

/// The note that an open net takes no name, where one was given.
pub(crate) fn note_ignored_name(given: bool, site: &Place) -> (r: Option<PlacedNotice>)
    ensures
        opt_placed(r) == (if given {
            Some(ignored_name(site@))
        } else {
            None
        }),
{
    if given {
        let notice = Notice {
            message: NAME_IGNORED.to_owned(),
            kind: "net.not_connected_name_ignored".to_owned(),
            severity: Severity::Warning,
        };
        Some(PlacedNotice { place: site.copy(), notice })
    } else {
        None
    }
}

/// Whether an open net is made as it is to be.
pub open spec fn open_net_made(
    before: Store,
    after: Store,
    positional: Seq<usize>,
    named: Seq<(String, usize)>,
    site: PlaceView,
    r: Result<(usize, Option<PlacedNotice>), NetError>,
) -> bool {
    match r {
        Ok((h, ignored)) => {
            &&& open_net_error(positional, named, before.items@) is None
            &&& h == before.items@.len()
            &&& after.items@.len() == h + 1
            &&& after.items@.take(h as int) == before.items@
            &&& after.next_net_id == before.next_net_id + 1
            &&& (net_of(after.items@[h as int]) matches Some(n) && n@ == open_net(
                before.next_net_id,
                site,
            ))
            &&& opt_placed(ignored) == (if positional.len() > 0 || named.len() > 0 {
                Some(ignored_name(site))
            } else {
                None
            })
        },
        Err(e) => open_net_error(positional, named, before.items@) == Some(e.text()) && after
            == before,
    }
}

/// Makes an open net. A name that was given is ignored; the second part of the result is the note
/// about it.
pub fn instantiate_not_connected(
    store: &mut Store,
    positional: &Vec<usize>,
    named: &Vec<(String, usize)>,
    site: &Place,
) -> (r: Result<(usize, Option<PlacedNotice>), NetError>)
    requires
        old(store).wf(),
        old(store).next_net_id < u64::MAX,
        forall|i: int| 0 <= i < positional@.len() ==> (#[trigger] positional@[i]) < old(store).items@.len(),
        forall|i: int| 0 <= i < named@.len() ==> (#[trigger] named@[i]).1 < old(store).items@.len(),
    ensures
        final(store).wf(),
        open_net_made(*old(store), *final(store), positional@, named@, site@, r),
{
    if positional.len() > 1 {
        return Err(NetError::OpenTooMany);
    }
    if positional.len() == 1 {
        if store.text(positional[0]).is_none() {
            return Err(NetError::OpenNotAName { got: store.type_label(positional[0]) });
        }
    }
    let mut i: usize = 0;
    proof {
        assert(named@.take(0) =~= Seq::<(String, usize)>::empty());
    }
    while i < named.len()
        invariant
            i <= named@.len(),
            *store == *old(store),
            store.wf(),
            positional@.len() <= 1,
            positional@.len() == 1 ==> text_of(store.items@[positional@[0] as int]) is Some,
            forall|k: int| 0 <= k < named@.len() ==> (#[trigger] named@[k]).1 < store.items@.len(),
            named_error(named@.take(i as int), store.items@) is None,
        decreases named@.len() - i,
    {
        proof {
            assert(named@.take(i + 1).drop_last() =~= named@.take(i as int));
            assert(named@.take(i + 1).last() == named@[i as int]);
        }
        let h = named[i].1;
        if same(named[i].0.as_str(), "name") {
            if store.text(h).is_none() {
                proof {
                    lemma_named_error_stays(named@, store.items@, i + 1);
                }
                return Err(NetError::OpenNameNotText { got: store.type_label(h) });
            }
        } else {
            proof {
                lemma_named_error_stays(named@, store.items@, i + 1);
            }
            return Err(NetError::OpenUnexpected { name: named[i].0.clone() });
        }
        i += 1;
    }
    proof {
        assert(named@.take(named@.len() as int) =~= named@);
    }
    let id = store.generate_net_id();
    let h = store.allocate(Item::Net(NetValue::open(id, site)));
    proof {
        assert(store.items@.take(h as int) =~= old(store).items@);
    }
    Ok((h, note_ignored_name(positional.len() > 0 || named.len() > 0, site)))
}

/// The first thing that is wrong with the fields of a net type, `errors` holding what is wrong with
/// each field's specification.
pub open spec fn field_error(
    fields: Seq<(Seq<char>, usize)>,
    errors: Seq<Option<String>>,
) -> Option<Seq<char>>
    decreases fields.len(),
{
    if fields.len() == 0 {
        None
    } else {
        let k = fields.len() - 1;
        match field_error(fields.drop_last(), errors) {
            Some(e) => Some(e),
            None => if fields[k].0 == "name"@ {
                Some("Field name 'name' is reserved (conflicts with implicit name parameter)"@)
            } else {
                match errors[k] {
                    Some(e) => Some("Invalid type spec for field '"@ + fields[k].0 + "': "@ + e@),
                    None => None,
                }
            },
        }
    }
}

proof fn lemma_field_error_stays(
    fields: Seq<(Seq<char>, usize)>,
    errors: Seq<Option<String>>,
    k: int,
)
    requires
        0 <= k <= fields.len(),
        field_error(fields.take(k), errors) is Some,
    ensures
        field_error(fields, errors) == field_error(fields.take(k), errors),
    decreases fields.len(),
{
    if k == fields.len() {
        assert(fields.take(k) =~= fields);
    } else {
        assert(fields.drop_last().take(k) =~= fields.take(k));
        lemma_field_error_stays(fields.drop_last(), errors, k);
    }
}

/// What a net made from another takes over from it.
#[derive(Clone, Copy, PartialEq, Eq, Structural, Debug)]
pub enum NetInstantiateIntent {
    /// The net is connected.
    Connected,
    /// The net is open where the other is.
    PreserveBase,
}

/// How a net is made.
#[derive(Clone, Copy, PartialEq, Eq, Structural, Debug)]
pub struct NetInstantiateOptions {
    /// Whether the net is to be registered with its module.
    pub should_register: bool,
    pub assignment_inferable: bool,
    pub intent: NetInstantiateIntent,
}

/// What a module is to register of a net. The net then takes the name that it is registered under.
pub struct NetRegistration {
    pub net_id: NetId,
    pub name: String,
    pub assignment_inferable: bool,
    pub kind: String,
}

/// The contents of a registration.
pub struct RegistrationView {
    pub net_id: NetId,
    pub name: Seq<char>,
    pub assignment_inferable: bool,
    pub kind: Seq<char>,
}

/// The contents of an optional registration.
pub open spec fn opt_registration(o: Option<NetRegistration>) -> Option<RegistrationView> {
    match o {
        Some(r) => Some(
            RegistrationView {
                net_id: r.net_id,
                name: r.name@,
                assignment_inferable: r.assignment_inferable,
                kind: r.kind@,
            },
        ),
        None => None,
    }
}

/// What a module is to register of a net, where it is to.
pub open spec fn registered(n: NetView, should_register: bool) -> Option<RegistrationView> {
    if should_register {
        Some(
            RegistrationView {
                net_id: n.net_id,
                name: n.name,
                assignment_inferable: n.assignment_inferable,
                kind: kind_of(n),
            },
        )
    } else {
        None
    }
}

/// Whether a net that is made is open.
pub open spec fn made_intent(
    base: Option<NetView>,
    intent: NetInstantiateIntent,
) -> ConnectionIntent {
    match (intent, base) {
        (NetInstantiateIntent::PreserveBase, Some(n)) => n.connection_intent,
        _ => ConnectionIntent::Connected,
    }
}

/// The name that is asked for: the one given, else the one that the other net was given. An open net
/// has none.
pub open spec fn asked_name(
    base: Option<NetView>,
    explicit: Option<Seq<char>>,
    intent: NetInstantiateIntent,
) -> Option<Seq<char>> {
    if made_intent(base, intent) == ConnectionIntent::Open {
        None
    } else {
        match (explicit, base) {
            (Some(name), _) => Some(name),
            (None, Some(n)) => n.original_name,
            (None, None) => None,
        }
    }
}

/// The properties after the fields of a type were applied. `accepted` holds the values of the fields,
/// defaults among them; `provided` names the fields that were given.
pub open spec fn applied_fields(
    fields: Seq<(Seq<char>, usize)>,
    accepted: Seq<(Seq<char>, usize)>,
    provided: Seq<Seq<char>>,
    items: Seq<Item>,
    type_label: Seq<char>,
    properties: Seq<(Seq<char>, usize)>,
) -> Seq<(Seq<char>, usize)>
    decreases fields.len(),
{
    if fields.len() == 0 {
        properties
    } else {
        let p = applied_fields(
            fields.drop_last(),
            accepted,
            provided,
            items,
            type_label,
            properties,
        );
        let name = fields.last().0;
        match under(accepted, name) {
            Some(v) => if items[v as int] == Item::Nothing && optional_fields(type_label).contains(
                name,
            ) {
                if provided.contains(name) {
                    without(p, name)
                } else {
                    p
                }
            } else {
                put(p, name, v)
            },
            None => p,
        }
    }
}

/// What a net shows of its symbol: the keys of its properties with their texts.
pub open spec fn symbol_texts(s: crate::lang::symbol::SymbolView) -> Seq<(Seq<char>, Seq<char>)> {
    let a = match s.name {
        Some(t) => seq![("symbol_name"@, t)],
        None => Seq::<(Seq<char>, Seq<char>)>::empty(),
    };
    let b = match s.source_uri {
        Some(t) => a.push(("symbol_path"@, t)),
        None => a,
    };
    match s.raw_sexp {
        Some(t) => b.push(("__symbol_value"@, t)),
        None => b,
    }
}

/// The texts that the symbol of some properties adds to them.
pub open spec fn added_texts(properties: Seq<(Seq<char>, usize)>, items: Seq<Item>) -> Seq<
    (Seq<char>, Seq<char>),
> {
    match under(properties, "symbol"@) {
        Some(h) => match items[h as int] {
            Item::Symbol(s) => symbol_texts(s@),
            _ => Seq::<(Seq<char>, Seq<char>)>::empty(),
        },
        None => Seq::<(Seq<char>, Seq<char>)>::empty(),
    }
}

/// Properties with texts added that stand in the store from place `n` on.
pub open spec fn put_texts(
    properties: Seq<(Seq<char>, usize)>,
    texts: Seq<(Seq<char>, Seq<char>)>,
    n: int,
) -> Seq<(Seq<char>, usize)>
    decreases texts.len(),
{
    if texts.len() == 0 {
        properties
    } else {
        put(
            put_texts(properties, texts.drop_last(), n),
            texts.last().0,
            (n + texts.len() - 1) as usize,
        )
    }
}

/// The net that a type makes.
pub open spec fn made_net(
    t: &NetType,
    base: Option<NetView>,
    explicit: Option<Seq<char>>,
    accepted: Seq<(Seq<char>, usize)>,
    provided: Seq<Seq<char>>,
    options: NetInstantiateOptions,
    items: Seq<Item>,
    next_id: u64,
    site: PlaceView,
) -> NetView {
    let intent = made_intent(base, options.intent);
    let named = intent == ConnectionIntent::Connected;
    let asked = asked_name(base, explicit, options.intent);
    let inferable = options.assignment_inferable && named;
    let start = match base {
        Some(n) => n.properties,
        None => Seq::<(Seq<char>, usize)>::empty(),
    };
    let p = applied_fields(
        handles_in(t.fields),
        accepted,
        provided,
        items,
        t.type_label@,
        start,
    );
    NetView {
        net_id: match base {
            Some(n) => n.net_id,
            None => next_id,
        },
        name: match (asked, base) {
            (Some(name), _) => name,
            (None, Some(n)) => if named {
                resolved_name(n)
            } else {
                Seq::<char>::empty()
            },
            (None, None) => Seq::<char>::empty(),
        },
        template_name: match base {
            Some(n) => if named {
                n.template_name
            } else {
                None
            },
            None => if inferable || !named {
                None
            } else {
                explicit
            },
        },
        original_name: asked,
        assignment_inferable: inferable,
        was_bound: match base {
            Some(n) => n.was_bound,
            None => false,
        },
        inferred_name: None,
        declaration_path: site.path,
        declaration_span: site.span,
        type_label: t.type_label@,
        connection_intent: intent,
        properties: put_texts(p, added_texts(p, items), items.len() as int),
    }
}

/// The contents of an optional net.
pub open spec fn opt_net(o: Option<NetValue>) -> Option<NetView> {
    match o {
        Some(n) => Some(n@),
        None => None,
    }
}

/// The net behind an optional place in the store.
pub open spec fn base_view(items: Seq<Item>, base: Option<usize>) -> Option<NetView> {
    match base {
        Some(h) => opt_net(net_of(items[h as int])),
        None => None,
    }
}

/// What the constructor of a net type was given.
pub struct NetArguments {
    /// The net that the new one is made from.
    pub base: Option<usize>,
    pub explicit_name: Option<String>,
    pub assignment_inferable: bool,
}

/// What the constructor of a net type makes of its arguments: a keyword name counts before a
/// positional one; a net that is given neither a name nor a connected net takes the name of its
/// variable.
pub open spec fn read_arguments(
    items: Seq<Item>,
    positional: Option<usize>,
    keyword: Option<usize>,
) -> (Option<usize>, Option<Seq<char>>, bool) {
    let from_keyword = match keyword {
        Some(h) => text_of(items[h as int]),
        None => None,
    };
    let from_position = match positional {
        Some(h) => text_of(items[h as int]),
        None => None,
    };
    let base = match positional {
        Some(h) => if net_of(items[h as int]) is Some {
            Some(h)
        } else {
            None
        },
        None => None,
    };
    let explicit = match from_keyword {
        Some(name) => Some(name),
        None => from_position,
    };
    let open = match base_view(items, base) {
        Some(n) => n.connection_intent == ConnectionIntent::Open,
        None => true,
    };
    (base, explicit, explicit is None && open)
}

impl NetType {
    /// The invariant: no field stands twice.
    pub open spec fn wf(&self) -> bool {
        distinct(handles_in(self.fields))
    }

    /// A type of nets, `errors` holding what is wrong with the specification of each field.
    pub fn new(
        type_label: String,
        fields: SmallMap<String, usize>,
        errors: &Vec<Option<String>>,
    ) -> (r: Result<NetType, NetError>)
        requires
            errors@.len() == handles_in(fields).len(),
        ensures
            match r {
                Ok(t) => field_error(handles_in(fields), errors@) is None && t.type_label
                    == type_label && t.fields == fields,
                Err(e) => field_error(handles_in(fields), errors@) == Some(e.text()),
            },
    {
        let ghost all = handles_in(fields);
        let n = count_handles(&fields);
        let mut i: usize = 0;
        proof {
            assert(all.take(0) =~= Seq::<(Seq<char>, usize)>::empty());
        }
        while i < n
            invariant
                i <= n,
                n == all.len(),
                all == handles_in(fields),
                errors@.len() == n,
                field_error(all.take(i as int), errors@) is None,
            decreases n - i,
        {
            proof {
                assert(all.take(i + 1).drop_last() =~= all.take(i as int));
                assert(all.take(i + 1).last() == all[i as int]);
            }
            if let Some((name, _)) = handle_at(&fields, i) {
                if same(name, "name") {
                    proof {
                        lemma_field_error_stays(all, errors@, i + 1);
                    }
                    return Err(NetError::ReservedField);
                }
                if let Some(error) = &errors[i] {
                    proof {
                        lemma_field_error_stays(all, errors@, i + 1);
                    }
                    return Err(
                        NetError::InvalidFieldType { field: name.to_owned(), error: error.clone() },
                    );
                }
            }
            i += 1;
        }
        proof {
            assert(all.take(all.len() as int) =~= all);
        }
        Ok(NetType { type_label, fields })
    }

    /// The name of the type of the nets.
    pub fn instance_ty_name(&self) -> (r: &str)
        ensures
            r@ == self.type_label@,
    {
        self.type_label.as_str()
    }

    /// The name of the type's own type.
    pub fn ty_name(&self) -> (r: String)
        ensures
            r@ == self.type_label@ + "Type"@,
    {
        let mut out = self.type_label.clone();
        out.append("Type");
        out
    }

    /// What makes two net types the same: the name and the names of the fields, whatever their order.
    pub fn type_key(&self) -> (r: (String, Vec<String>))
        ensures
            r.0@ == self.type_label@,
            strictly_ascending(texts(r.1@)),
            forall|q: Seq<char>| #[trigger]
                texts(r.1@).contains(q) == names_of(handles_in(self.fields)).contains(q),
    {
        (self.type_label.clone(), sorted_texts(&key_names(&self.fields)))
    }

    /// Reads the arguments of the constructor.
    pub fn read_arguments(
        &self,
        store: &Store,
        positional: Option<usize>,
        keyword: Option<usize>,
    ) -> (r: Result<NetArguments, NetError>)
        requires
            positional is Some ==> positional->Some_0 < store.items@.len(),
            keyword is Some ==> keyword->Some_0 < store.items@.len(),
        ensures
            match r {
                Ok(a) => (a.base, opt_text(a.explicit_name), a.assignment_inferable)
                    == read_arguments(store.items@, positional, keyword) && (keyword is Some
                    ==> text_of(store.items@[keyword->Some_0 as int]) is Some) && (positional is Some
                    ==> text_of(store.items@[positional->Some_0 as int]) is Some || net_of(
                    store.items@[positional->Some_0 as int],
                ) is Some),
                Err(e) => if keyword is Some && text_of(
                    store.items@[keyword->Some_0 as int],
                ) is None {
                    e.text() == self.type_label@ + "() 'name' must be string, got "@ + type_of(
                        store.items@[keyword->Some_0 as int],
                    )
                } else {
                    positional is Some && text_of(store.items@[positional->Some_0 as int]) is None
                        && net_of(store.items@[positional->Some_0 as int]) is None && e.text()
                        == self.type_label@ + "() expects string or Net value as positional, got "@
                        + type_of(store.items@[positional->Some_0 as int])
                },
            },
    {
        let from_keyword: Option<String> = match keyword {
            Some(h) => match store.text(h) {
                Some(s) => Some(s.to_owned()),
                None => {
                    return Err(
                        NetError::NotAName {
                            type_label: self.type_label.clone(),
                            got: store.type_label(h),
                        },
                    );
                },
            },
            None => None,
        };
        let mut base: Option<usize> = None;
        let mut from_position: Option<String> = None;
        let mut open: bool = true;
        if let Some(h) = positional {
            if let Some(s) = store.text(h) {
                from_position = Some(s.to_owned());
            } else if let Some(n) = store.net(h) {
                base = Some(h);
                open = n.is_open();
            } else {
                return Err(
                    NetError::NeitherNameNorNet {
                        type_label: self.type_label.clone(),
                        got: store.type_label(h),
                    },
                );
            }
        }
        let explicit_name = match from_keyword {
            Some(name) => Some(name),
            None => from_position,
        };
        let assignment_inferable = explicit_name.is_none() && open;
        Ok(NetArguments { base, explicit_name, assignment_inferable })
    }

    /// The name that a net asks for, which has to be checked before the net is made.
    pub fn requested_name(
        store: &Store,
        base: Option<usize>,
        explicit_name: &Option<String>,
        intent: NetInstantiateIntent,
    ) -> (r: Option<String>)
        requires
            base is Some ==> base->Some_0 < store.items@.len(),
        ensures
            opt_text(r) == asked_name(
                base_view(store.items@, base),
                opt_text(*explicit_name),
                intent,
            ),
    {
        let base_net: Option<&NetValue> = match base {
            Some(h) => store.net(h),
            None => None,
        };
        let open = match (intent, base_net) {
            (NetInstantiateIntent::PreserveBase, Some(n)) => n.is_open(),
            _ => false,
        };
        if open {
            return None;
        }
        match explicit_name {
            Some(name) => Some(name.clone()),
            None => match base_net {
                Some(n) => clone_opt(&n.original_name),
                None => None,
            },
        }
    }

    /// The properties after the fields of the type were applied.
    fn apply_fields(
        &self,
        store: &Store,
        accepted: &SmallMap<String, usize>,
        provided: &Vec<String>,
        properties: SmallMap<String, usize>,
    ) -> (r: SmallMap<String, usize>)
        requires
            distinct(handles_in(properties)),
            all_below(handles_in(properties), store.items@.len() as int),
            all_below(handles_in(*accepted), store.items@.len() as int),
        ensures
            distinct(handles_in(r)),
            all_below(handles_in(r), store.items@.len() as int),
            handles_in(r) == applied_fields(
                handles_in(self.fields),
                handles_in(*accepted),
                texts(provided@),
                store.items@,
                self.type_label@,
                handles_in(properties),
            ),
    {
        let ghost all = handles_in(self.fields);
        let ghost first = handles_in(properties);
        let ghost names = texts(provided@);
        let mut p = properties;
        let n = count_handles(&self.fields);
        let mut i: usize = 0;
        proof {
            assert(all.take(0) =~= Seq::<(Seq<char>, usize)>::empty());
        }
        while i < n
            invariant
                i <= n,
                n == all.len(),
                all == handles_in(self.fields),
                names == texts(provided@),
                distinct(handles_in(p)),
                all_below(handles_in(p), store.items@.len() as int),
                all_below(handles_in(*accepted), store.items@.len() as int),
                handles_in(p) == applied_fields(
                    all.take(i as int),
                    handles_in(*accepted),
                    names,
                    store.items@,
                    self.type_label@,
                    first,
                ),
            decreases n - i,
        {
            proof {
                assert(all.take(i + 1).drop_last() =~= all.take(i as int));
                assert(all.take(i + 1).last() == all[i as int]);
            }
            if let Some((field, _)) = handle_at(&self.fields, i) {
                if let Some(v) = get_handle(accepted, field) {
                    proof {
                        lemma_place(handles_in(*accepted), field@);
                        lemma_put(handles_in(p), field@, v);
                        lemma_without(handles_in(p), field@);
                        lemma_put_below(handles_in(p), field@, v, store.items@.len() as int);
                        lemma_without_below(handles_in(p), field@, store.items@.len() as int);
                    }
                    if store.is_none(v) && is_builtin_optional_net_field(
                        self.type_label.as_str(),
                        field,
                    ) {
                        if contains_text(provided, field) {
                            drop_handle(&mut p, field);
                        }
                    } else {
                        put_handle(&mut p, field.to_owned(), v);
                    }
                }
            }
            i += 1;
        }
        proof {
            assert(all.take(all.len() as int) =~= all);
        }
        p
    }

    /// Makes a net, alone or from another. `accepted` holds the values of the fields, defaults among
    /// them; `provided` names the fields that were given. The second part of the result is the note
    /// that an open net ignores the name that it was given, where it was; the third is what the
    /// module is to register, where it is to.
    pub fn instantiate(
        &self,
        store: &mut Store,
        base: Option<usize>,
        explicit_name: Option<String>,
        accepted: &SmallMap<String, usize>,
        provided: &Vec<String>,
        options: NetInstantiateOptions,
        site: &Place,
    ) -> (r: (usize, Option<PlacedNotice>, Option<NetRegistration>))
        requires
            old(store).wf(),
            base is None ==> old(store).next_net_id < u64::MAX,
            all_below(handles_in(*accepted), old(store).items@.len() as int),
            base is Some ==> base->Some_0 < old(store).items@.len() && net_of(
                old(store).items@[base->Some_0 as int],
            ) is Some,
        ensures
            final(store).wf(),
            crate::lang::value::extends(final(store).items@, old(store).items@),
            r.0 + 1 == final(store).items@.len(),
            final(store).next_net_id == old(store).next_net_id + (if base is None {
                1int
            } else {
                0int
            }),
            ({
                let items = old(store).items@;
                let b = base_view(items, base);
                let n = made_net(
                    self,
                    b,
                    opt_text(explicit_name),
                    handles_in(*accepted),
                    texts(provided@),
                    options,
                    items,
                    old(store).next_net_id,
                    site@,
                );
                let start = match b {
                    Some(n) => n.properties,
                    None => Seq::<(Seq<char>, usize)>::empty(),
                };
                let added = added_texts(
                    applied_fields(
                        handles_in(self.fields),
                        handles_in(*accepted),
                        texts(provided@),
                        items,
                        self.type_label@,
                        start,
                    ),
                    items,
                );
                &&& opt_net(net_of(final(store).items@[r.0 as int])) == Some(n)
                &&& r.0 == items.len() + added.len()
                &&& forall|i: int|
                    0 <= i < added.len() ==> text_of(#[trigger] final(store).items@[items.len() + i])
                        == Some(added[i].1)
                &&& opt_placed(r.1) == (if explicit_name is Some && n.connection_intent
                    == ConnectionIntent::Open {
                    Some(ignored_name(site@))
                } else {
                    None
                })
                &&& opt_registration(r.2) == registered(n, options.should_register)
            }),
    {
        let ghost items = store.items@;
        let ghost b = base_view(items, base);
        let asked = NetType::requested_name(store, base, &explicit_name, options.intent);
        let mut intent = ConnectionIntent::Connected;
        let mut base_name = String::new();
        let mut template_name: Option<String> = None;
        let mut was_bound = false;
        let mut start = new_handles();
        let mut net_id: NetId = 0;
        if let Some(h) = base {
            proof {
                assert(refers_below(store.items@[h as int], h as int));
            }
            if let Some(n) = store.net(h) {
                if let NetInstantiateIntent::PreserveBase = options.intent {
                    intent = n.connection_intent;
                }
                base_name = n.name().to_owned();
                template_name = clone_opt(&n.template_name);
                was_bound = n.was_bound;
                start = copy_handles(&n.properties);
                net_id = n.net_id;
                proof {
                    lemma_below_later(handles_in(start), h as int, store.items@.len() as int);
                }
            }
        }
        let named = match intent {
            ConnectionIntent::Open => false,
            ConnectionIntent::Connected => true,
        };
        let name_ignored = !named && explicit_name.is_some();
        let assignment_inferable = options.assignment_inferable && named;
        let ghost explicit = opt_text(explicit_name);
        let template_name = match base {
            Some(_) => if named {
                template_name
            } else {
                None
            },
            None => if assignment_inferable || !named {
                None
            } else {
                explicit_name
            },
        };
        let name = match &asked {
            Some(name) => name.clone(),
            None => if named {
                base_name
            } else {
                String::new()
            },
        };
        let net_id = match base {
            Some(_) => net_id,
            None => store.generate_net_id(),
        };
        let p = self.apply_fields(store, accepted, provided, start);
        let ghost added = added_texts(handles_in(p), store.items@);
        let properties = show_symbol(store, p);
        proof {
            assert(name@ =~= made_net(
                self,
                b,
                explicit,
                handles_in(*accepted),
                texts(provided@),
                options,
                items,
                old(store).next_net_id,
                site@,
            ).name);
        }
        let ghost before = store.items@;
        let net = NetValue {
            net_id,
            name,
            template_name,
            original_name: asked,
            assignment_inferable,
            was_bound,
            inferred_name: None,
            declaration_path: site.path.clone(),
            declaration_span: site.span,
            type_label: self.type_label.clone(),
            connection_intent: intent,
            properties,
        };
        let registration = if options.should_register {
            Some(
                NetRegistration {
                    net_id,
                    name: net.name.clone(),
                    assignment_inferable,
                    kind: net.net_kind_name().to_owned(),
                },
            )
        } else {
            None
        };
        let h = store.allocate(Item::Net(net));
        proof {
            assert(store.items@.take(items.len() as int) =~= items);
            assert(opt_net(net_of(store.items@[h as int])) == Some(net@));
        }
        (h, note_ignored_name(name_ignored, site), registration)
    }
}

/// What is known of a field before its value is chosen.
pub struct FieldCheck {
    /// Whether the field's specification names a type at all.
    pub type_known: bool,
    /// The value that was given.
    pub provided: Option<usize>,
    /// The value that the specification has for the field.
    pub default: Option<usize>,
    /// Whether the given value has the type.
    pub matches: bool,
    /// What the given value can be converted to, and whether that has the type.
    pub converted: Option<(usize, bool)>,
}

/// The value of a field: the given one, or what it converts to, or the default; an error where the
/// given one has the wrong type.
pub open spec fn field_value(c: FieldCheck) -> Result<Option<usize>, ()> {
    match c.provided {
        None => Ok(c.default),
        Some(v) => if !c.type_known || c.matches {
            Ok(Some(v))
        } else {
            match c.converted {
                Some((w, true)) => Ok(Some(w)),
                _ => Err(()),
            }
        },
    }
}

/// Chooses the value of a field.
pub fn validate_field(c: &FieldCheck) -> (r: Result<Option<usize>, ()>)
    ensures
        r == field_value(*c),
{
    match c.provided {
        None => Ok(c.default),
        Some(v) => if !c.type_known || c.matches {
            Ok(Some(v))
        } else {
            match c.converted {
                Some((w, fits)) => if fits {
                    Ok(Some(w))
                } else {
                    Err(())
                },
                None => Err(()),
            }
        },
    }
}

/// The error for a field whose value has the wrong type.
pub fn field_type_error(field: &str, expected: &str, shown: &str, got: &str) -> (r: String)
    ensures
        r@ == "Field `"@ + field@ + "` has wrong type: expected `"@ + expected@ + "`, got value `"@
            + shown@ + "` of type `"@ + got@ + "`"@,
{
    let mut out = "Field `".to_owned();
    out.append(field);
    out.append("` has wrong type: expected `");
    out.append(expected);
    out.append("`, got value `");
    out.append(shown);
    out.append("` of type `");
    out.append(got);
    out.append("`");
    out
}

/// Two net types with the same name and the same fields are the same type, in whatever order the
/// fields were declared.
pub proof fn law_type_key_ignores_order(
    s: &NetType,
    t: &NetType,
    a: Seq<Seq<char>>,
    b: Seq<Seq<char>>,
)
    requires
        strictly_ascending(a),
        strictly_ascending(b),
        forall|q: Seq<char>| #[trigger]
            a.contains(q) == names_of(handles_in(s.fields)).contains(q),
        forall|q: Seq<char>| #[trigger]
            b.contains(q) == names_of(handles_in(t.fields)).contains(q),
        forall|q: Seq<char>| #[trigger]
            names_of(handles_in(s.fields)).contains(q) == names_of(handles_in(t.fields)).contains(q),
    ensures
        a == b,
{
    assert forall|q: Seq<char>| #[trigger] a.contains(q) == b.contains(q) by {
        assert(names_of(handles_in(s.fields)).contains(q) == names_of(handles_in(t.fields)).contains(
            q,
        ));
    }
    law_ascending_is_determined(a, b);
}

pub proof fn lemma_put_below(p: Seq<(Seq<char>, usize)>, k: Seq<char>, v: usize, n: int)
    requires
        all_below(p, n),
        v < n,
    ensures
        all_below(put(p, k, v), n),
{
    lemma_place(p, k);
    let t = put(p, k, v);
    assert forall|i: int| 0 <= i < t.len() implies (#[trigger] t[i]).1 < n by {
        if i < p.len() && i != place(p, k) {
            assert(t[i] == p[i]);
        }
    }
}

pub proof fn lemma_without_below(p: Seq<(Seq<char>, usize)>, k: Seq<char>, n: int)
    requires
        all_below(p, n),
    ensures
        all_below(without(p, k), n),
{
    lemma_place(p, k);
    let t = without(p, k);
    let at = place(p, k);
    assert forall|i: int| 0 <= i < t.len() implies (#[trigger] t[i]).1 < n by {
        if at < p.len() {
            if i < at {
                assert(t[i] == p[i]);
            } else {
                assert(t[i] == p[i + 1]);
            }
        }
    }
}

/// Adds a text to the store and to some properties.
fn put_text_item(store: &mut Store, p: &mut SmallMap<String, usize>, key: &str, text: &str)
    requires
        old(store).wf(),
        distinct(handles_in(*old(p))),
        all_below(handles_in(*old(p)), old(store).items@.len() as int),
    ensures
        final(store).wf(),
        final(store).next_net_id == old(store).next_net_id,
        final(store).items@.len() == old(store).items@.len() + 1,
        final(store).items@.take(old(store).items@.len() as int) == old(store).items@,
        text_of(final(store).items@[old(store).items@.len() as int]) == Some(text@),
        distinct(handles_in(*final(p))),
        all_below(handles_in(*final(p)), final(store).items@.len() as int),
        handles_in(*final(p)) == put(handles_in(*old(p)), key@, old(store).items@.len() as usize),
{
    let h = store.alloc_text(text);
    proof {
        lemma_put(handles_in(*p), key@, h);
        lemma_below_later(handles_in(*p), h as int, h + 1);
        lemma_put_below(handles_in(*p), key@, h, h + 1);
    }
    put_handle(p, key.to_owned(), h);
}

/// Adds what a net shows of its symbol to its properties.
fn show_symbol(store: &mut Store, properties: SmallMap<String, usize>) -> (r: SmallMap<String, usize>)
    requires
        old(store).wf(),
        distinct(handles_in(properties)),
        all_below(handles_in(properties), old(store).items@.len() as int),
    ensures
        final(store).wf(),
        final(store).next_net_id == old(store).next_net_id,
        distinct(handles_in(r)),
        all_below(handles_in(r), final(store).items@.len() as int),
        ({
            let items = old(store).items@;
            let added = added_texts(handles_in(properties), items);
            &&& final(store).items@.len() == items.len() + added.len()
            &&& added.len() <= 3
            &&& final(store).items@.take(items.len() as int) == items
            &&& forall|i: int|
                0 <= i < added.len() ==> text_of(#[trigger] final(store).items@[items.len() + i])
                    == Some(added[i].1)
            &&& handles_in(r) == put_texts(handles_in(properties), added, items.len() as int)
        }),
{
    let ghost items = store.items@;
    let ghost first = handles_in(properties);
    let ghost n = items.len() as int;
    let mut name: Option<String> = None;
    let mut uri: Option<String> = None;
    let mut raw: Option<String> = None;
    proof {
        lemma_place(first, "symbol"@);
    }
    if let Some(h) = get_handle(&properties, "symbol") {
        if let Item::Symbol(s) = &store.items[h] {
            name = clone_opt(&s.name);
            uri = clone_opt(&s.source_uri);
            raw = clone_opt(&s.raw_sexp);
        }
    }
    let ghost added = added_texts(first, items);
    let ghost empty = Seq::<(Seq<char>, Seq<char>)>::empty();
    let ghost a = match opt_text(name) {
        Some(t) => seq![("symbol_name"@, t)],
        None => empty,
    };
    let ghost b = match opt_text(uri) {
        Some(t) => a.push(("symbol_path"@, t)),
        None => a,
    };
    let ghost c = match opt_text(raw) {
        Some(t) => b.push(("__symbol_value"@, t)),
        None => b,
    };
    proof {
        assert(c =~= added);
    }
    let mut p = properties;
    if let Some(t) = &name {
        proof {
            assert(a.drop_last() =~= empty);
            assert(put_texts(first, empty, n) == first);
        }
        put_text_item(store, &mut p, "symbol_name", t.as_str());
    }
    let ghost at_a = store.items@;
    proof {
        assert(handles_in(p) == put_texts(first, a, n));
        assert(at_a.take(n) =~= items);
    }
    if let Some(t) = &uri {
        proof {
            assert(b.drop_last() =~= a);
        }
        put_text_item(store, &mut p, "symbol_path", t.as_str());
        proof {
            assert(store.items@.take(at_a.len() as int) == at_a);
            assert(store.items@.take(n) =~= at_a.take(n));
            assert forall|i: int| 0 <= i < a.len() implies #[trigger] store.items@[n + i] == at_a[n + i] by {
                assert(store.items@.take(at_a.len() as int)[n + i] == store.items@[n + i]);
            }
        }
    }
    let ghost at_b = store.items@;
    proof {
        assert(handles_in(p) == put_texts(first, b, n));
        assert(at_b.take(n) =~= items);
        assert forall|i: int| 0 <= i < b.len() implies text_of(#[trigger] at_b[n + i]) == Some(
            b[i].1,
        ) by {}
    }
    if let Some(t) = &raw {
        proof {
            assert(c.drop_last() =~= b);
        }
        put_text_item(store, &mut p, "__symbol_value", t.as_str());
        proof {
            assert(store.items@.take(at_b.len() as int) == at_b);
            assert(store.items@.take(n) =~= at_b.take(n));
            assert forall|i: int| 0 <= i < b.len() implies #[trigger] store.items@[n + i] == at_b[n + i] by {
                assert(store.items@.take(at_b.len() as int)[n + i] == store.items@[n + i]);
            }
        }
    }
    proof {
        assert(handles_in(p) == put_texts(first, c, n));
        assert forall|i: int| 0 <= i < c.len() implies text_of(#[trigger] store.items@[n + i])
            == Some(c[i].1) by {}
    }
    p
}

/// A net made from another keeps the other's number, so it stays the same net; one made alone gets a
/// number that no earlier net of the store was given.
pub proof fn law_net_identity(
    t: &NetType,
    base: Option<NetView>,
    explicit: Option<Seq<char>>,
    accepted: Seq<(Seq<char>, usize)>,
    provided: Seq<Seq<char>>,
    options: NetInstantiateOptions,
    items: Seq<Item>,
    next_id: u64,
    site: PlaceView,
)
    ensures
        ({
            let n = made_net(t, base, explicit, accepted, provided, options, items, next_id, site);
            &&& base is Some ==> n.net_id == base->Some_0.net_id
            &&& base is None ==> n.net_id == next_id
            &&& n.connection_intent == ConnectionIntent::Open ==> n.name.len() == 0
                && n.original_name is None && n.template_name is None && !n.assignment_inferable
        }),
{
}

} // verus!
