//! Parameters of modules: `config()` and `io()`.

use starlark::collections::SmallMap;
use vstd::prelude::*;

use crate::lang::net_call::{all_fit, net_made, FieldGiven, NetOutcome, NetRequest};
use crate::lang::value::{bool_of, copy_handles, extends, lemma_extends_item};
use crate::lang::value::{lemma_extends_transitive, net_of, refers_below, text_of, type_of, Item};
use crate::lang::value::Store;
use crate::diagnostic::{opt_placed, Notice, NoticeView, Place, PlaceView, PlacedNotice, Severity};
use crate::lang::net::{added_texts, base_view, copied, ignored_name, opt_net, opt_registration};
use crate::lang::net::{put_texts, registered, resolved_name, ConnectionIntent};
use crate::lang::net::{NetInstantiateIntent, NetInstantiateOptions, NetRegistration, NetType};
use crate::lang::net::{NetValue, NetView};
use crate::lang::interface::owned_nets;
use crate::schematic::IoDirection;
use crate::small_map::{get_handle, handles_in, lemma_place, new_handles, under};
use crate::text::{opt_text, same};

verus! {

/// What is wrong with the declaration of a parameter.
pub struct ParamError {
    pub message: String,
}

/// What a parameter is.
#[derive(Clone, Copy, PartialEq, Eq, Structural, Debug)]
pub enum ParamKind {
    Config,
    Io,
}

/// The name of the function that declares a parameter.
pub open spec fn function_of(kind: ParamKind) -> Seq<char> {
    match kind {
        ParamKind::Config => "config"@,
        ParamKind::Io => "io"@,
    }
}

impl ParamKind {
    /// The name of the function that declares the parameter.
    pub fn kind_name(self) -> (r: &'static str)
        ensures
            r@ == function_of(self),
    {
        match self {
            ParamKind::Config => "config",
            ParamKind::Io => "io",
        }
    }

    /// The text that shows a parameter that has no name yet.
    pub fn repr(self) -> (r: &'static str)
        ensures
            r@ == (match self {
                ParamKind::Config => "config(...)"@,
                ParamKind::Io => "io(...)"@,
            }),
    {
        match self {
            ParamKind::Config => "config(...)",
            ParamKind::Io => "io(...)",
        }
    }

    /// Whether the values of the parameter can be restricted.
    pub fn allows_allowed(self) -> (r: bool)
        ensures
            r == (self == ParamKind::Config),
    {
        match self {
            ParamKind::Config => true,
            ParamKind::Io => false,
        }
    }

    /// Whether the parameter can have a direction.
    pub fn allows_direction(self) -> (r: bool)
        ensures
            r == (self == ParamKind::Io),
    {
        match self {
            ParamKind::Config => false,
            ParamKind::Io => true,
        }
    }

    /// The error for a parameter that never gets a name.
    pub fn unresolved_error(self) -> (r: &'static str)
        ensures
            r@ == (match self {
                ParamKind::Config =>
                "config() without an explicit name must be assigned to a top-level variable"@,
                ParamKind::Io =>
                "io() without an explicit name must be assigned to a top-level variable"@,
            }),
    {
        match self {
            ParamKind::Config =>
            "config() without an explicit name must be assigned to a top-level variable",
            ParamKind::Io =>
            "io() without an explicit name must be assigned to a top-level variable",
        }
    }
}

// ---------------------------------------------------------------------------------------------
// Arguments

/// The declaration of a parameter.
pub struct DeclArgs {
    pub typ: usize,
    pub checks: Option<usize>,
    pub default: Option<usize>,
    pub allowed: Option<usize>,
    pub optional: Option<bool>,
    pub help: Option<String>,
    pub direction: Option<IoDirection>,
}

/// The named arguments of a declaration.
pub struct NamedView {
    pub checks: Option<usize>,
    pub default: Option<usize>,
    pub allowed: Option<usize>,
    pub optional: Option<bool>,
    pub help: Option<Seq<char>>,
    pub direction: Option<IoDirection>,
}

/// A value, unless it is `None`.
pub open spec fn unless_none(items: Seq<Item>, h: usize) -> Option<usize> {
    if items[h as int] == Item::Nothing {
        None
    } else {
        Some(h)
    }
}

/// A value, unless it is `None`.
fn none_if_none(store: &Store, h: usize) -> (r: Option<usize>)
    requires
        h < store.items@.len(),
    ensures
        r == unless_none(store.items@, h),
{
    if store.is_none(h) {
        None
    } else {
        Some(h)
    }
}

/// The error for an argument of the wrong type.
pub open spec fn wrong_argument(function: Seq<char>, parameter: Seq<char>, wanted: Seq<char>) -> Seq<char> {
    function + "() `"@ + parameter + "` must be a "@ + wanted
}

/// The error for an argument of the wrong type.
fn wrong_argument_error(function: &str, parameter: &str, wanted: &str) -> (r: ParamError)
    ensures
        r.message@ == wrong_argument(function@, parameter@, wanted@),
{
    let mut message = function.to_owned();
    message.append("() `");
    message.append(parameter);
    message.append("` must be a ");
    message.append(wanted);
    ParamError { message }
}

/// An argument that is a truth value.
pub fn unpack_bool_arg(store: &Store, h: usize, function: &str, parameter: &str) -> (r: Result<
    bool,
    ParamError,
>)
    requires
        h < store.items@.len(),
    ensures
        match (r, bool_of(store.items@[h as int])) {
            (Ok(b), Some(c)) => b == c,
            (Err(e), None) => e.message@ == wrong_argument(function@, parameter@, "bool"@),
            _ => false,
        },
{
    match store.truth(h) {
        Some(b) => Ok(b),
        None => Err(wrong_argument_error(function, parameter, "bool")),
    }
}

/// An argument that is a string.
pub fn unpack_string_arg(store: &Store, h: usize, function: &str, parameter: &str) -> (r: Result<
    String,
    ParamError,
>)
    requires
        h < store.items@.len(),
    ensures
        match (r, text_of(store.items@[h as int])) {
            (Ok(s), Some(t)) => s@ == t,
            (Err(e), None) => e.message@ == wrong_argument(function@, parameter@, "string"@),
            _ => false,
        },
{
    match store.text(h) {
        Some(s) => Ok(s.to_owned()),
        None => Err(wrong_argument_error(function, parameter, "string")),
    }
}

/// The text of an argument that is a string or `None`, or the error.
pub open spec fn optional_text(items: Seq<Item>, h: usize, function: Seq<char>, parameter: Seq<char>) -> Result<
    Option<Seq<char>>,
    Seq<char>,
> {
    match items[h as int] {
        Item::Nothing => Ok(None),
        Item::Text(s) => Ok(Some(s@)),
        _ => Err(wrong_argument(function, parameter, "string"@)),
    }
}

/// An argument that is a string or `None`.
pub fn unpack_optional_string_arg(store: &Store, h: usize, function: &str, parameter: &str) -> (r: Result<
    Option<String>,
    ParamError,
>)
    requires
        h < store.items@.len(),
    ensures
        match (r, optional_text(store.items@, h, function@, parameter@)) {
            (Ok(s), Ok(t)) => opt_text(s) == t,
            (Err(e), Err(t)) => e.message@ == t,
            _ => false,
        },
{
    if store.is_none(h) {
        return Ok(None);
    }
    match unpack_string_arg(store, h, function, parameter) {
        Ok(s) => Ok(Some(s)),
        Err(e) => Err(e),
    }
}

/// The contents of what a direction was read as.
pub open spec fn direction_result(r: Result<Option<IoDirection>, String>) -> Result<
    Option<IoDirection>,
    Seq<char>,
> {
    match r {
        Ok(d) => Ok(d),
        Err(e) => Err(e@),
    }
}

/// The named arguments of a declaration, or the first thing that is wrong with them. `direction` is
/// what the text of the argument of that name was read as.
pub open spec fn named_arguments(
    kind: ParamKind,
    items: Seq<Item>,
    v: Seq<(String, usize)>,
    direction: Result<Option<IoDirection>, Seq<char>>,
) -> Result<NamedView, Seq<char>>
    decreases v.len(),
{
    if v.len() == 0 {
        Ok(
            NamedView {
                checks: None,
                default: None,
                allowed: None,
                optional: None,
                help: None,
                direction: None,
            },
        )
    } else {
        let function = function_of(kind);
        let (name, h) = (v.last().0@, v.last().1);
        match named_arguments(kind, items, v.drop_last(), direction) {
            Err(e) => Err(e),
            Ok(n) => if name == "checks"@ {
                Ok(NamedView { checks: unless_none(items, h), ..n })
            } else if name == "default"@ {
                Ok(NamedView { default: unless_none(items, h), ..n })
            } else if name == "allowed"@ && kind == ParamKind::Config {
                Ok(NamedView { allowed: unless_none(items, h), ..n })
            } else if name == "optional"@ {
                match bool_of(items[h as int]) {
                    Some(b) => Ok(NamedView { optional: Some(b), ..n }),
                    None => Err(wrong_argument(function, "optional"@, "bool"@)),
                }
            } else if name == "help"@ {
                match optional_text(items, h, function, "help"@) {
                    Ok(t) => Ok(NamedView { help: t, ..n }),
                    Err(e) => Err(e),
                }
            } else if name == "direction"@ && kind == ParamKind::Io {
                match optional_text(items, h, function, "direction"@) {
                    Err(e) => Err(e),
                    Ok(_) => match direction {
                        Err(e) => Err(e),
                        Ok(d) => Ok(NamedView { direction: d, ..n }),
                    },
                }
            } else {
                Err(function + "() got unexpected named argument `"@ + name + "`"@)
            },
        }
    }
}

proof fn lemma_named_fails(
    kind: ParamKind,
    items: Seq<Item>,
    v: Seq<(String, usize)>,
    direction: Result<Option<IoDirection>, Seq<char>>,
    k: int,
)
    requires
        0 <= k <= v.len(),
        named_arguments(kind, items, v.take(k), direction) is Err,
    ensures
        named_arguments(kind, items, v, direction) == named_arguments(
            kind,
            items,
            v.take(k),
            direction,
        ),
    decreases v.len(),
{
    if k == v.len() {
        assert(v.take(k) =~= v);
    } else {
        assert(v.drop_last().take(k) =~= v.take(k));
        lemma_named_fails(kind, items, v.drop_last(), direction, k);
    }
}

/// The name, the type and the checks that the positional arguments give, or the error.
pub open spec fn positional_arguments(kind: ParamKind, items: Seq<Item>, v: Seq<usize>) -> Result<
    (Option<Seq<char>>, usize, Option<usize>),
    Seq<char>,
> {
    let function = function_of(kind);
    let name = text_of(items[v[0] as int]);
    if v.len() == 1 {
        if name is Some {
            Err(function + "(name, ...) requires a type as the second positional argument"@)
        } else {
            Ok((None, v[0], None))
        }
    } else if v.len() == 2 {
        if name is Some {
            Ok((name, v[1], None))
        } else {
            Ok((None, v[0], unless_none(items, v[1])))
        }
    } else if name is Some {
        Ok((name, v[1], unless_none(items, v[2])))
    } else {
        Err(function + "(typ, checks) accepts at most two positional arguments"@)
    }
}

/// The contents of a declaration.
pub struct DeclView {
    pub typ: usize,
    pub named: NamedView,
}

impl View for DeclArgs {
    type V = DeclView;

    open spec fn view(&self) -> DeclView {
        DeclView {
            typ: self.typ,
            named: NamedView {
                checks: self.checks,
                default: self.default,
                allowed: self.allowed,
                optional: self.optional,
                help: opt_text(self.help),
                direction: self.direction,
            },
        }
    }
}

/// The name and the declaration of a parameter, or the first thing that is wrong with the arguments.
pub open spec fn declaration(
    kind: ParamKind,
    items: Seq<Item>,
    positional: Seq<usize>,
    named: Seq<(String, usize)>,
    direction: Result<Option<IoDirection>, Seq<char>>,
) -> Result<(Option<Seq<char>>, DeclView), Seq<char>> {
    let function = function_of(kind);
    if positional.len() == 0 || positional.len() > 3 {
        Err(
            function + "() accepts `"@ + function + "(name, typ, checks?)` or `"@ + function
                + "(typ, checks?)`"@,
        )
    } else {
        match named_arguments(kind, items, named, direction) {
            Err(e) => Err(e),
            Ok(n) => match positional_arguments(kind, items, positional) {
                Err(e) => Err(e),
                Ok((name, typ, checks)) => if n.checks is Some && checks is Some {
                    Err(function + "() got `checks` both positionally and by name"@)
                } else {
                    Ok(
                        (
                            name,
                            DeclView {
                                typ,
                                named: NamedView {
                                    checks: if n.checks is Some {
                                        n.checks
                                    } else {
                                        checks
                                    },
                                    ..n
                                },
                            },
                        ),
                    )
                },
            },
        }
    }
}

/// Reads the named arguments of a declaration.
fn parse_named(
    kind: ParamKind,
    store: &Store,
    v: &Vec<(String, usize)>,
    direction: &Result<Option<IoDirection>, String>,
) -> (r: Result<DeclArgs, ParamError>)
    requires
        forall|i: int| 0 <= i < v@.len() ==> (#[trigger] v@[i]).1 < store.items@.len(),
    ensures
        match (r, named_arguments(kind, store.items@, v@, direction_result(*direction))) {
            (Ok(d), Ok(n)) => d@.named == n,
            (Err(e), Err(t)) => e.message@ == t,
            _ => false,
        },
{
    let ghost items = store.items@;
    let ghost all = v@;
    let ghost dir = direction_result(*direction);
    let function = kind.kind_name();
    let mut d = DeclArgs {
        typ: 0,
        checks: None,
        default: None,
        allowed: None,
        optional: None,
        help: None,
        direction: None,
    };
    let mut i: usize = 0;
    proof {
        assert(all.take(0) =~= Seq::<(String, usize)>::empty());
    }
    while i < v.len()
        invariant
            i <= v@.len(),
            items == store.items@,
            all == v@,
            dir == direction_result(*direction),
            function@ == function_of(kind),
            forall|k: int| 0 <= k < v@.len() ==> (#[trigger] v@[k]).1 < items.len(),
            named_arguments(kind, items, all.take(i as int), dir) == Ok::<NamedView, Seq<char>>(
                d@.named,
            ),
        decreases v@.len() - i,
    {
        let name = v[i].0.as_str();
        let h: usize = v[i].1;
        proof {
            assert(all.take(i + 1).drop_last() =~= all.take(i as int));
            assert(all.take(i + 1).last() == all[i as int]);
            if named_arguments(kind, items, all.take(i + 1), dir) is Err {
                lemma_named_fails(kind, items, all, dir, i + 1);
            }
        }
        if same(name, "checks") {
            d.checks = none_if_none(store, h);
        } else if same(name, "default") {
            d.default = none_if_none(store, h);
        } else if same(name, "allowed") && kind.allows_allowed() {
            d.allowed = none_if_none(store, h);
        } else if same(name, "optional") {
            match unpack_bool_arg(store, h, function, "optional") {
                Ok(b) => {
                    d.optional = Some(b);
                },
                Err(e) => {
                    return Err(e);
                },
            }
        } else if same(name, "help") {
            match unpack_optional_string_arg(store, h, function, "help") {
                Ok(t) => {
                    d.help = t;
                },
                Err(e) => {
                    return Err(e);
                },
            }
        } else if same(name, "direction") && kind.allows_direction() {
            if let Err(e) = unpack_optional_string_arg(store, h, function, "direction") {
                return Err(e);
            }
            match direction {
                Ok(x) => {
                    d.direction = *x;
                },
                Err(e) => {
                    return Err(ParamError { message: e.clone() });
                },
            }
        } else {
            let mut message = function.to_owned();
            message.append("() got unexpected named argument `");
            message.append(name);
            message.append("`");
            return Err(ParamError { message });
        }
        i += 1;
    }
    proof {
        assert(all.take(all.len() as int) =~= all);
    }
    Ok(d)
}

/// Reads the arguments of a declaration: `f(name, typ, checks?)` or `f(typ, checks?)`. `direction` is
/// what the text of the argument of that name was read as.
pub fn parse_decl_args(
    kind: ParamKind,
    store: &Store,
    positional: &Vec<usize>,
    named: &Vec<(String, usize)>,
    direction: Result<Option<IoDirection>, String>,
) -> (r: Result<(Option<String>, DeclArgs), ParamError>)
    requires
        forall|i: int| 0 <= i < positional@.len() ==> (#[trigger] positional@[i]) < store.items@.len(),
        forall|i: int| 0 <= i < named@.len() ==> (#[trigger] named@[i]).1 < store.items@.len(),
    ensures
        match (
            r,
            declaration(
                kind,
                store.items@,
                positional@,
                named@,
                direction_result(direction),
            ),
        ) {
            (Ok((name, d)), Ok((n, v))) => opt_text(name) == n && d@ == v,
            (Err(e), Err(t)) => e.message@ == t,
            _ => false,
        },
{
    let function = kind.kind_name();
    if positional.len() == 0 || positional.len() > 3 {
        let mut message = function.to_owned();
        message.append("() accepts `");
        message.append(function);
        message.append("(name, typ, checks?)` or `");
        message.append(function);
        message.append("(typ, checks?)`");
        return Err(ParamError { message });
    }
    let mut d = match parse_named(kind, store, named, &direction) {
        Ok(d) => d,
        Err(e) => return Err(e),
    };
    let first: Option<String> = match store.text(positional[0]) {
        Some(s) => Some(s.to_owned()),
        None => None,
    };
    let mut checks: Option<usize> = None;
    let name: Option<String>;
    if positional.len() == 1 {
        if first.is_some() {
            let mut message = function.to_owned();
            message.append("(name, ...) requires a type as the second positional argument");
            return Err(ParamError { message });
        }
        name = None;
        d.typ = positional[0];
    } else if positional.len() == 2 {
        if first.is_some() {
            name = first;
            d.typ = positional[1];
        } else {
            name = None;
            d.typ = positional[0];
            checks = none_if_none(store, positional[1]);
        }
    } else {
        if first.is_none() {
            let mut message = function.to_owned();
            message.append("(typ, checks) accepts at most two positional arguments");
            return Err(ParamError { message });
        }
        name = first;
        d.typ = positional[1];
        checks = none_if_none(store, positional[2]);
    }
    if d.checks.is_some() && checks.is_some() {
        let mut message = function.to_owned();
        message.append("() got `checks` both positionally and by name");
        return Err(ParamError { message });
    }
    if d.checks.is_none() {
        d.checks = checks;
    }
    Ok((name, d))
}

// ---------------------------------------------------------------------------------------------
// Configuration

/// The value that a configuration parameter gets.
pub enum ConfigChoice {
    /// A value, to be converted to the type.
    Convert(usize),
    /// A value as it is.
    Take(usize),
    /// No value.
    Nothing,
    /// A value made up for the type, to be converted to it.
    Generate,
}

/// The value of a configuration parameter; whether it is missing; and whether it is optional.
pub open spec fn config_choice(
    provided: Option<usize>,
    optional: Option<bool>,
    default: Option<usize>,
    allowed: Option<Seq<usize>>,
    strict: bool,
) -> (ConfigChoice, bool, bool) {
    let is_optional = match optional {
        Some(b) => b,
        None => default is Some,
    };
    match provided {
        Some(h) => (ConfigChoice::Convert(h), false, is_optional),
        None => if is_optional {
            (
                match default {
                    Some(d) => ConfigChoice::Take(d),
                    None => ConfigChoice::Nothing,
                },
                false,
                is_optional,
            )
        } else {
            (
                match default {
                    Some(d) => ConfigChoice::Take(d),
                    None => match allowed {
                        Some(v) => if v.len() > 0 {
                            ConfigChoice::Take(v[0])
                        } else {
                            ConfigChoice::Generate
                        },
                        None => ConfigChoice::Generate,
                    },
                },
                strict,
                is_optional,
            )
        },
    }
}

/// The contents of an optional list of values.
pub open spec fn opt_handles(o: Option<Vec<usize>>) -> Option<Seq<usize>> {
    match o {
        Some(v) => Some(v@),
        None => None,
    }
}

/// The error for a type that no configuration parameter can have.
pub open spec fn record_config() -> Seq<char> {
    "config() does not support record types; use primitive, enum, or physical-value config parameters"@
}

/// Chooses the value of a configuration parameter. `default` and `allowed` are as the type has them;
/// in a strict evaluation a value that is neither provided nor optional is missing.
pub fn resolve_config(
    is_record: bool,
    provided: Option<usize>,
    optional: Option<bool>,
    default: Option<usize>,
    allowed: &Option<Vec<usize>>,
    strict: bool,
) -> (r: Result<(ConfigChoice, bool, bool), ParamError>)
    ensures
        match r {
            Ok(c) => !is_record && c == config_choice(
                provided,
                optional,
                default,
                opt_handles(*allowed),
                strict,
            ),
            Err(e) => is_record && e.message@ == record_config(),
        },
{
    if is_record {
        return Err(
            ParamError {
                message:
                    "config() does not support record types; use primitive, enum, or physical-value config parameters".to_owned(),
            },
        );
    }
    let is_optional = match optional {
        Some(b) => b,
        None => default.is_some(),
    };
    if let Some(h) = provided {
        return Ok((ConfigChoice::Convert(h), false, is_optional));
    }
    if let Some(d) = default {
        return Ok((ConfigChoice::Take(d), !is_optional && strict, is_optional));
    }
    if is_optional {
        return Ok((ConfigChoice::Nothing, false, is_optional));
    }
    let choice = match allowed {
        Some(v) => if v.len() > 0 {
            ConfigChoice::Take(v[0])
        } else {
            ConfigChoice::Generate
        },
        None => ConfigChoice::Generate,
    };
    Ok((choice, strict, is_optional))
}

/// A value that is provided is used whatever else there is; else the default, where there is one; else
/// the first of the allowed values, unless the value is optional. One is missing exactly where the
/// evaluation is strict and it is neither provided nor optional.
pub proof fn law_provided_value_is_used(
    provided: Option<usize>,
    optional: Option<bool>,
    default: Option<usize>,
    allowed: Option<Seq<usize>>,
    strict: bool,
)
    ensures
        ({
            let (choice, missing, is_optional) = config_choice(
                provided,
                optional,
                default,
                allowed,
                strict,
            );
            &&& provided is Some ==> choice == ConfigChoice::Convert(provided->Some_0) && !missing
            &&& missing <==> strict && provided is None && !is_optional
            &&& optional is Some ==> is_optional == optional->Some_0
            &&& optional is None ==> is_optional == (default is Some)
            &&& provided is None && default is Some ==> choice == ConfigChoice::Take(default->Some_0)
            &&& provided is None && default is None && is_optional ==> choice == ConfigChoice::Nothing
            &&& provided is None && default is None && !is_optional && allowed is Some
                && allowed->Some_0.len() > 0 ==> choice == ConfigChoice::Take(allowed->Some_0[0])
            &&& provided is None && default is None && !is_optional && (allowed is None
                || allowed->Some_0.len() == 0) ==> choice == ConfigChoice::Generate
        }),
{
}

// ---------------------------------------------------------------------------------------------
// Inputs and outputs

/// What an `io()` is modelled on.
#[derive(Clone, Copy, PartialEq, Eq, Structural, Debug)]
pub enum IoTemplateValue {
    Net(usize),
    Interface(usize),
}

/// What a value is as the model of an `io()`: a net that is not open, or an instance of an interface.
pub open spec fn template_of(items: Seq<Item>, h: usize) -> Option<IoTemplateValue> {
    match items[h as int] {
        Item::Net(n) => if n.connection_intent == ConnectionIntent::Open {
            None
        } else {
            Some(IoTemplateValue::Net(h))
        },
        Item::Interface(_) => Some(IoTemplateValue::Interface(h)),
        _ => None,
    }
}

impl IoTemplateValue {
    /// What a value is as the model of an `io()`.
    pub fn from_value(store: &Store, h: usize) -> (r: Option<IoTemplateValue>)
        requires
            h < store.items@.len(),
        ensures
            r == template_of(store.items@, h),
    {
        match &store.items[h] {
            Item::Net(n) => if n.is_open() {
                None
            } else {
                Some(IoTemplateValue::Net(h))
            },
            Item::Interface(_) => Some(IoTemplateValue::Interface(h)),
            _ => None,
        }
    }
}

/// A check that comes with the model of an `io()`.
pub struct VoltageCheck {
    /// The voltage of the model.
    pub template_voltage: usize,
    /// The text of it.
    pub template_display: String,
}

/// The voltage of a net, where it is a quantity.
pub open spec fn voltage_of(items: Seq<Item>, h: usize) -> Option<usize> {
    match items[h as int] {
        Item::Net(n) => match under(handles_in(n.properties), "voltage"@) {
            Some(v) => if items[v as int] is Quantity {
                Some(v)
            } else {
                None
            },
            None => None,
        },
        _ => None,
    }
}

/// The voltage of a net, where it is a quantity.
fn read_voltage(store: &Store, h: usize) -> (r: Option<usize>)
    requires
        store.wf(),
        h < store.items@.len(),
    ensures
        r == voltage_of(store.items@, h),
        r is Some ==> r->Some_0 < store.items@.len(),
{
    proof {
        assert(refers_below(store.items@[h as int], h as int));
    }
    match &store.items[h] {
        Item::Net(n) => {
            proof {
                lemma_place(handles_in(n.properties), "voltage"@);
            }
            match get_handle(&n.properties, "voltage") {
                Some(v) => match &store.items[v] {
                    Item::Quantity { type_label: _, shown: _, repr: _ } => Some(v),
                    _ => None,
                },
                None => None,
            }
        },
        _ => None,
    }
}

/// The check that comes with a model: that of its voltage, unless the model was assigned to a
/// variable.
pub open spec fn implicit_check(items: Seq<Item>, template: IoTemplateValue) -> Option<(usize, Seq<char>)> {
    match template {
        IoTemplateValue::Interface(_) => None,
        IoTemplateValue::Net(h) => match items[h as int] {
            Item::Net(n) => if n.was_bound {
                None
            } else {
                match voltage_of(items, h) {
                    None => None,
                    Some(v) => match items[v as int] {
                        Item::Quantity { type_label: _, shown: _, repr } => Some((v, repr@)),
                        _ => None,
                    },
                }
            },
            _ => None,
        },
    }
}

/// The contents of an optional check.
pub open spec fn opt_check(o: Option<VoltageCheck>) -> Option<(usize, Seq<char>)> {
    match o {
        Some(c) => Some((c.template_voltage, c.template_display@)),
        None => None,
    }
}

/// The check that comes with a model.
pub fn derive_implicit_check(store: &Store, template: IoTemplateValue) -> (r: Option<VoltageCheck>)
    requires
        store.wf(),
        match template {
            IoTemplateValue::Net(h) => h < store.items@.len(),
            IoTemplateValue::Interface(h) => h < store.items@.len(),
        },
    ensures
        opt_check(r) == implicit_check(store.items@, template),
{
    match template {
        IoTemplateValue::Interface(_) => None,
        IoTemplateValue::Net(h) => match &store.items[h] {
            Item::Net(n) => {
                if n.skips_implicit_checks() {
                    return None;
                }
                match read_voltage(store, h) {
                    None => None,
                    Some(v) => match &store.items[v] {
                        Item::Quantity { type_label: _, shown: _, repr } => Some(
                            VoltageCheck { template_voltage: v, template_display: repr.clone() },
                        ),
                        _ => None,
                    },
                }
            },
            _ => None,
        },
    }
}

/// What is wrong with the voltage of an input, if anything. `fits` says whether it lies within that
/// of the model.
pub open spec fn check_failure(
    name: Seq<char>,
    items: Seq<Item>,
    check: (usize, Seq<char>),
    value: usize,
    fits: bool,
) -> Option<Seq<char>> {
    if !(items[check.0 as int] is Quantity) {
        None
    } else {
        match voltage_of(items, value) {
            None => Some(
                "Input '"@ + name + "' is missing voltage required by template voltage "@ + check.1,
            ),
            Some(v) => if fits {
                None
            } else {
                Some(
                    "Input '"@ + name + "' voltage "@ + items[v as int]->Quantity_shown@
                        + " is not within template voltage "@ + check.1,
                )
            },
        }
    }
}

/// Checks the voltage of an input. `fits` says whether it lies within that of the model.
pub fn run_implicit_check(
    name: &str,
    store: &Store,
    check: &VoltageCheck,
    value: usize,
    fits: bool,
) -> (r: Option<String>)
    requires
        store.wf(),
        value < store.items@.len(),
        check.template_voltage < store.items@.len(),
    ensures
        opt_text(r) == check_failure(
            name@,
            store.items@,
            (check.template_voltage, check.template_display@),
            value,
            fits,
        ),
{
    let is_quantity = match &store.items[check.template_voltage] {
        Item::Quantity { type_label: _, shown: _, repr: _ } => true,
        _ => false,
    };
    if !is_quantity {
        return None;
    }
    match read_voltage(store, value) {
        None => {
            let mut message = "Input '".to_owned();
            message.append(name);
            message.append("' is missing voltage required by template voltage ");
            message.append(check.template_display.as_str());
            Some(message)
        },
        Some(v) => {
            if fits {
                return None;
            }
            match &store.items[v] {
                Item::Quantity { type_label: _, shown, repr: _ } => {
                    let mut message = "Input '".to_owned();
                    message.append(name);
                    message.append("' voltage ");
                    message.append(shown.as_str());
                    message.append(" is not within template voltage ");
                    message.append(check.template_display.as_str());
                    Some(message)
                },
                _ => None,
            }
        },
    }
}

/// What an `io()` amounts to.
pub struct NormalizedIo {
    /// The type of the parameter.
    pub typ: usize,
    pub template: Option<IoTemplateValue>,
    pub check: Option<VoltageCheck>,
    /// The numbers of the nets that are no longer to be registered, since they belong to the model.
    pub released: Vec<u64>,
}

/// Whether an `io()` is read as it is to be.
pub open spec fn io_read(
    before: Store,
    after: Store,
    args: DeclArgs,
    r: Result<NormalizedIo, ParamError>,
) -> bool {
    &&& after.next_net_id == before.next_net_id
    &&& extends(after.items@, before.items@)
    &&& ({
        let items = before.items@;
        match (r, template_of(items, args.typ)) {
            (Err(e), Some(_)) => args.default is Some && e.message@
                == "io() cannot accept both a template positional argument and `default=`; remove `default=`"@
                && after.items@ == items,
            (Ok(n), None) => n.typ == args.typ && n.template is None && n.check is None
                && n.released@.len() == 0 && after.items@ == items,
            (Ok(n), Some(t)) => {
                &&& args.default is None
                &&& n.template == Some(t)
                &&& opt_check(n.check) == implicit_check(items, t)
                &&& n.released@ == owned_nets(items, args.typ)
                &&& n.typ < after.items@.len()
                &&& match t {
                    IoTemplateValue::Net(h) => n.typ == items.len() && after.items@.len()
                        == items.len() + 1 && (
                    after.items@[items.len() as int] matches Item::NetType(x)
                        && x.type_label@ == items[h as int]->Net_0.type_label@ && handles_in(
                        x.fields,
                    ).len() == 0),
                    IoTemplateValue::Interface(h) => n.typ
                        == items[h as int]->Interface_0.factory && after.items@ == items,
                }
            },
            _ => false,
        }
    })
}

/// Reads an `io()`: a model gives the type, and leaves no room for a default.
pub fn normalize_io_args(store: &mut Store, args: &DeclArgs) -> (r: Result<NormalizedIo, ParamError>)
    requires
        old(store).wf(),
        args.typ < old(store).items@.len(),
    ensures
        final(store).wf(),
        io_read(*old(store), *final(store), *args, r),
{
    let ghost items = store.items@;
    proof {
        assert(items.take(items.len() as int) =~= items);
        assert(refers_below(items[args.typ as int], args.typ as int));
    }
    let template = match IoTemplateValue::from_value(store, args.typ) {
        None => {
            return Ok(
                NormalizedIo {
                    typ: args.typ,
                    template: None,
                    check: None,
                    released: Vec::new(),
                },
            );
        },
        Some(t) => t,
    };
    if args.default.is_some() {
        return Err(
            ParamError {
                message:
                    "io() cannot accept both a template positional argument and `default=`; remove `default=`".to_owned(),
            },
        );
    }
    let mut released: Vec<u64> = Vec::new();
    proof {
        assert(released@ + owned_nets(items, args.typ) =~= owned_nets(items, args.typ));
    }
    crate::lang::interface::unregister_template_owned_nets(store, args.typ, &mut released);
    let check = derive_implicit_check(store, template);
    let mut label: Option<String> = None;
    let mut typ: usize = args.typ;
    match &store.items[args.typ] {
        Item::Net(n) => {
            label = Some(n.net_type_name().to_owned());
        },
        Item::Interface(v) => {
            typ = v.factory();
        },
        _ => {},
    }
    if let Some(type_label) = label {
        typ = store.allocate(Item::NetType(NetType { type_label, fields: new_handles() }));
        proof {
            assert(store.items@.take(items.len() as int) =~= items);
        }
    }
    Ok(NormalizedIo { typ, template: Some(template), check, released })
}

/// How the value of an input or output is found.
#[derive(Clone, Copy, PartialEq, Eq, Structural, Debug)]
pub enum IoChoice {
    /// A value was provided; the default is made for documentation alone.
    Provided(usize),
    /// The default is used; another is made for documentation.
    Default,
    /// The default is used, and documents itself.
    GeneratedDefault,
    /// The value is missing.
    Missing,
}

/// How the value of an input or output is found, or the error. `typ` is the type of the parameter.
pub open spec fn io_choice(
    items: Seq<Item>,
    typ: usize,
    provided: Option<usize>,
    optional: Option<bool>,
    strict: bool,
) -> Result<IoChoice, Seq<char>> {
    let item = items[typ as int];
    if !(item is NetType || item is InterfaceFactory) {
        Err("builtin.io() requires a Net or interface type, got "@ + type_of(item) + "."@)
    } else {
        Ok(
            match provided {
                Some(h) => IoChoice::Provided(h),
                None => if optional == Some(true) {
                    IoChoice::Default
                } else if strict {
                    IoChoice::Missing
                } else {
                    IoChoice::GeneratedDefault
                },
            },
        )
    }
}

/// An input or output of an accepted type that is provided is what was provided. One that is not is
/// missing exactly where the evaluation is strict and it is not optional; its default is used exactly
/// where it is optional; and one is made up only where the evaluation is not strict.
pub proof fn law_strict_inputs_are_not_made_up(
    items: Seq<Item>,
    typ: usize,
    provided: Option<usize>,
    optional: Option<bool>,
    strict: bool,
)
    ensures
        ({
            let r = io_choice(items, typ, provided, optional, strict);
            &&& r is Ok <==> items[typ as int] is NetType || items[typ as int] is InterfaceFactory
            &&& r is Ok ==> {
                let choice = r->Ok_0;
                &&& forall|h: usize| provided == Some(h) <==> choice == IoChoice::Provided(h)
                &&& strict && provided is None && optional != Some(true) <==> choice
                    == IoChoice::Missing
                &&& provided is None && optional == Some(true) <==> choice == IoChoice::Default
                &&& choice == IoChoice::GeneratedDefault ==> !strict
                &&& !strict && provided is None && optional != Some(true) ==> choice
                    == IoChoice::GeneratedDefault
            }
        }),
{
}

/// Decides how the value of an input or output is found.
pub fn resolve_io(
    store: &Store,
    typ: usize,
    provided: Option<usize>,
    optional: Option<bool>,
    strict: bool,
) -> (r: Result<IoChoice, ParamError>)
    requires
        typ < store.items@.len(),
    ensures
        match (r, io_choice(store.items@, typ, provided, optional, strict)) {
            (Ok(c), Ok(d)) => c == d,
            (Err(e), Err(t)) => e.message@ == t,
            _ => false,
        },
{
    let accepted = match &store.items[typ] {
        Item::NetType(_) => true,
        Item::InterfaceFactory(_) => true,
        _ => false,
    };
    if !accepted {
        let mut message = "builtin.io() requires a Net or interface type, got ".to_owned();
        let got = store.type_label(typ);
        message.append(got.as_str());
        message.append(".");
        return Err(ParamError { message });
    }
    if let Some(h) = provided {
        return Ok(IoChoice::Provided(h));
    }
    let is_optional = match optional {
        Some(b) => b,
        None => false,
    };
    if is_optional {
        Ok(IoChoice::Default)
    } else if strict {
        Ok(IoChoice::Missing)
    } else {
        Ok(IoChoice::GeneratedDefault)
    }
}

/// Where the default of an input or output comes from.
#[derive(Clone, Copy, PartialEq, Eq, Structural, Debug)]
pub enum DefaultSource {
    /// A new instance of the model.
    Template(IoTemplateValue),
    /// The default that was given, to be converted to the type.
    Given(usize),
    /// A value made up for the type.
    Generated,
}

/// Decides where the default of an input or output comes from.
pub fn default_source(template: Option<IoTemplateValue>, default: Option<usize>) -> (r: DefaultSource)
    ensures
        r == (match template {
            Some(t) => DefaultSource::Template(t),
            None => match default {
                Some(d) => DefaultSource::Given(d),
                None => DefaultSource::Generated,
            },
        }),
{
    match template {
        Some(t) => DefaultSource::Template(t),
        None => match default {
            Some(d) => DefaultSource::Given(d),
            None => DefaultSource::Generated,
        },
    }
}

/// Whether a value is made in the file that declares a parameter.
pub open spec fn stamped(
    before: Store,
    after: Store,
    h: usize,
    site: PlaceView,
    r: usize,
) -> bool {
    &&& after.next_net_id == before.next_net_id
    &&& extends(after.items@, before.items@)
    &&& r < after.items@.len()
    &&& match opt_net(net_of(before.items@[h as int])) {
        Some(n) => r == before.items@.len() && opt_net(net_of(after.items@[r as int]))
            == Some(
            NetView {
                declaration_path: site.path,
                declaration_span: site.span,
                ..copied(n, n.net_id, n.type_label)
            },
        ),
        None => r == h && after.items@ == before.items@,
    }
}

/// A value made in the file that declares a parameter; only a net tells of its file.
pub fn stamp_declaration_site(store: &mut Store, h: usize, site: &Place) -> (r: usize)
    requires
        old(store).wf(),
        h < old(store).items@.len(),
    ensures
        final(store).wf(),
        stamped(*old(store), *final(store), h, site@, r),
{
    let ghost items = store.items@;
    proof {
        assert(items.take(items.len() as int) =~= items);
        assert(refers_below(items[h as int], h as int));
    }
    let mut stamped: Option<NetValue> = None;
    if let Item::Net(n) = &store.items[h] {
        stamped = Some(n.with_declaration_site(site));
    }
    match stamped {
        Some(n) => {
            proof {
                crate::lang::value::lemma_below_later(
                    handles_in(n.properties),
                    h as int,
                    items.len() as int,
                );
            }
            let r = store.allocate(Item::Net(n));
            proof {
                assert(store.items@.take(items.len() as int) =~= items);
            }
            r
        },
        None => h,
    }
}

/// The net that is made of a model: it keeps the number of the model, and goes by the model's own
/// name, where it has one, else by the name of the parameter.
pub open spec fn net_of_template(
    n: NetView,
    name: Seq<char>,
    items: Seq<Item>,
    at: int,
    site: PlaceView,
) -> NetView {
    let named = n.connection_intent == ConnectionIntent::Connected;
    let asked = if !named {
        None
    } else if n.template_name is None {
        Some(name)
    } else {
        n.original_name
    };
    NetView {
        net_id: n.net_id,
        name: match asked {
            Some(s) => s,
            None => if named {
                resolved_name(n)
            } else {
                Seq::<char>::empty()
            },
        },
        template_name: if named {
            n.template_name
        } else {
            None
        },
        original_name: asked,
        assignment_inferable: false,
        was_bound: n.was_bound,
        inferred_name: None,
        declaration_path: site.path,
        declaration_span: site.span,
        type_label: n.type_label,
        connection_intent: n.connection_intent,
        properties: put_texts(n.properties, added_texts(n.properties, items), at),
    }
}

/// Makes a net of a model. The second part of the result is the note that an open net ignores the
/// name that it was given, where it was; the third is what the module is to register, where it is to.
pub fn instantiate_net_template(
    store: &mut Store,
    name: &str,
    template: usize,
    should_register: bool,
    site: &Place,
) -> (r: (usize, Option<PlacedNotice>, Option<NetRegistration>))
    requires
        old(store).wf(),
        template < old(store).items@.len(),
        old(store).items@[template as int] is Net,
    ensures
        final(store).wf(),
        final(store).next_net_id == old(store).next_net_id,
        extends(final(store).items@, old(store).items@),
        r.0 < final(store).items@.len(),
        ({
            let items = old(store).items@;
            let n = items[template as int]->Net_0@;
            &&& opt_net(net_of(final(store).items@[r.0 as int])) == Some(
                net_of_template(n, name@, items, items.len() as int + 1, site@),
            )
            &&& opt_placed(r.1) == (if n.template_name is None && n.connection_intent
                == ConnectionIntent::Open {
                Some(ignored_name(site@))
            } else {
                None
            })
            &&& opt_registration(r.2) == registered(
                net_of_template(n, name@, items, items.len() as int + 1, site@),
                should_register,
            )
        }),
{
    let ghost items = store.items@;
    let ghost n = items[template as int]->Net_0@;
    proof {
        assert(refers_below(items[template as int], template as int));
    }
    let mut own = NetType { type_label: String::new(), fields: new_handles() };
    let mut copy = NetValue::open(0, site);
    if let Item::Net(t) = &store.items[template] {
        own = NetType { type_label: t.net_type_name().to_owned(), fields: new_handles() };
        copy = t.to_current_heap();
    }
    let explicit = if copy.template_name.is_none() {
        Some(name.to_owned())
    } else {
        None
    };
    let ghost asked = opt_text(explicit);
    proof {
        crate::lang::value::lemma_below_later(
            handles_in(copy.properties),
            template as int,
            items.len() as int,
        );
        lemma_place(n.properties, "symbol"@);
    }
    let base = store.allocate(Item::Net(copy));
    let ghost before = store.items@;
    let ghost empty = Seq::<(Seq<char>, usize)>::empty();
    let ghost b = base_view(before, Some(base))->Some_0;
    proof {
        assert(before.take(items.len() as int) =~= items);
        assert(b == copied(n, n.net_id, n.type_label));
        assert(handles_in(own.fields) =~= empty);
        if under(n.properties, "symbol"@) is Some {
            lemma_extends_item(before, items, under(n.properties, "symbol"@)->Some_0 as int);
        }
        assert(added_texts(n.properties, before) == added_texts(n.properties, items));
    }
    let accepted = new_handles();
    let provided: Vec<String> = Vec::new();
    let options = NetInstantiateOptions {
        should_register,
        assignment_inferable: false,
        intent: NetInstantiateIntent::PreserveBase,
    };
    let (r, ignored, registration) = own.instantiate(
        store,
        Some(base),
        explicit,
        &accepted,
        &provided,
        options,
        site,
    );
    proof {
        lemma_extends_transitive(store.items@, before, items);
    }
    (r, ignored, registration)
}

/// The net that stands for one that is provided for an input, in this evaluation: a net from elsewhere
/// is copied, and seen as one of the input's type unless it is open.
pub open spec fn brought_here(n: NetView, type_label: Seq<char>) -> NetView {
    copied(
        n,
        n.net_id,
        if n.connection_intent == ConnectionIntent::Open {
            n.type_label
        } else {
            type_label
        },
    )
}

/// What comes of a value that is used without more.
pub open spec fn used(h: usize, r: NetOutcome) -> bool {
    r.net == Ok::<usize, String>(h) && r.ignored is None && r.registration is None
}

/// What an unnamed net becomes for an input: a net of the input's type and name, which is registered.
pub open spec fn named_after(
    base: usize,
    name: Seq<char>,
    given: Seq<FieldGiven>,
    name_error: Option<Seq<char>>,
    site: PlaceView,
) -> NetRequest {
    NetRequest {
        base: Some(base),
        explicit: Some(name),
        given,
        options: NetInstantiateOptions {
            should_register: true,
            assignment_inferable: false,
            intent: NetInstantiateIntent::PreserveBase,
        },
        name_error,
        site,
    }
}

/// Whether a value becomes what it is to for an input. Of a net type, a net that is neither open nor
/// named becomes one of the input's name; all else is used as it is, or as it was brought here.
pub open spec fn io_net_provided(
    name: Seq<char>,
    value: usize,
    typ: usize,
    from_elsewhere: bool,
    given: Seq<FieldGiven>,
    name_error: Option<Seq<char>>,
    site: PlaceView,
    before: Seq<Item>,
    id: u64,
    after: Seq<Item>,
    next: u64,
    r: NetOutcome,
) -> bool {
    match (before[typ as int], before[value as int]) {
        (Item::NetType(t), Item::Net(n)) => {
            let n1 = before.len() + (if from_elsewhere {
                1int
            } else {
                0int
            });
            let here = after.take(n1);
            let h = if from_elsewhere {
                before.len() as usize
            } else {
                value
            };
            let net = net_of(here[h as int]);
            &&& n1 <= after.len()
            &&& extends(here, before)
            &&& net is Some
            &&& from_elsewhere ==> net->Some_0@ == brought_here(n@, t.type_label@)
            &&& if n.connection_intent == ConnectionIntent::Open || resolved_name(n@).len() > 0 {
                after.len() == n1 && next == id && used(h, r)
            } else {
                net_made(
                    &t,
                    named_after(h, name, given, name_error, site),
                    here,
                    id,
                    after,
                    next,
                    r,
                )
            }
        },
        _ => after == before && next == id && used(value, r),
    }
}

/// Makes what is provided for an input the input's own. `given` tells of the fields of the input's type,
/// of which none is given a value here, and `name_error` is what is wrong with the input's name.
pub fn register_provided_io_net(
    store: &mut Store,
    name: &str,
    value: usize,
    typ: usize,
    from_elsewhere: bool,
    given: &Vec<FieldGiven>,
    name_error: Option<String>,
    site: &Place,
) -> (r: NetOutcome)
    requires
        old(store).wf(),
        value < old(store).items@.len(),
        typ < old(store).items@.len(),
        old(store).items@[typ as int] matches Item::NetType(t) ==> given@.len() == handles_in(
            t.fields,
        ).len(),
        all_fit(given@, old(store).items@.len() as int),
        forall|i: int| 0 <= i < given@.len() ==> (#[trigger] given@[i]).check.provided is None,
    ensures
        final(store).wf(),
        io_net_provided(
            name@,
            value,
            typ,
            from_elsewhere,
            given@,
            opt_text(name_error),
            site@,
            old(store).items@,
            old(store).next_net_id,
            final(store).items@,
            final(store).next_net_id,
            r,
        ),
{
    let ghost before = store.items@;
    let mut own = NetType { type_label: String::new(), fields: new_handles() };
    let mut is_net_type = false;
    proof {
        assert(refers_below(before[typ as int], typ as int));
        assert(refers_below(before[value as int], value as int));
        assert(before.take(before.len() as int) =~= before);
    }
    if let Item::NetType(t) = &store.items[typ] {
        own = NetType { type_label: t.type_label.clone(), fields: copy_handles(&t.fields) };
        is_net_type = true;
    }
    if !is_net_type {
        return NetOutcome { net: Ok(value), ignored: None, registration: None };
    }
    let ghost t = before[typ as int]->NetType_0;
    let mut brought: Option<NetValue> = None;
    let mut settled = true;
    let mut is_net = false;
    if let Item::Net(n) = &store.items[value] {
        is_net = true;
        settled = n.is_open() || n.name().unicode_len() > 0;
        if from_elsewhere {
            if n.is_open() {
                brought = Some(n.to_current_heap());
            } else {
                brought = Some(n.with_net_type(own.type_label.as_str()));
            }
        }
    }
    if !is_net {
        return NetOutcome { net: Ok(value), ignored: None, registration: None };
    }
    let mut h: usize = value;
    if let Some(n) = brought {
        proof {
            assert(refers_below(Item::Net(n), before.len() as int));
        }
        h = store.allocate(Item::Net(n));
        proof {
            assert(store.items@.take(before.len() as int) =~= before);
        }
    }
    let ghost here = store.items@;
    proof {
        assert(here.take(here.len() as int) =~= here);
        assert forall|i: int| 0 <= i < given@.len() implies (#[trigger] given@[i]).fits(
            here.len() as int,
        ) by {
            assert(given@[i].fits(before.len() as int));
        }
    }
    if settled {
        return NetOutcome { net: Ok(h), ignored: None, registration: None };
    }
    let options = NetInstantiateOptions {
        should_register: true,
        assignment_inferable: false,
        intent: NetInstantiateIntent::PreserveBase,
    };
    let r = own.instantiate_checked(
        store,
        Some(h),
        Some(name.to_owned()),
        given,
        options,
        name_error,
        site,
    );
    r
}

/// The warning for an `io()` with a default.
pub fn warn_deprecated_io_default() -> (r: Notice)
    ensures
        r@ == (NoticeView {
            message:
                "io() parameter `default` is deprecated; prefer template-first `io(template)` instead"@,
            kind: Seq::<char>::empty(),
            severity: Severity::Warning,
        }),
{
    let kind = String::new();
    proof {
        assert(kind@ =~= Seq::<char>::empty());
    }
    Notice {
        message:
            "io() parameter `default` is deprecated; prefer template-first `io(template)` instead".to_owned(),
        kind,
        severity: Severity::Warning,
    }
}

/// The warning for an input that fails a check that comes with the model.
pub fn implicit_check_diag(message: String) -> (r: Notice)
    ensures
        r@ == (NoticeView {
            message: message@,
            kind: "io.implicit_check"@,
            severity: Severity::Warning,
        }),
{
    Notice { message, kind: "io.implicit_check".to_owned(), severity: Severity::Warning }
}

} // verus!
