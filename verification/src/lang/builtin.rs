//! The functions of `builtin`.

use starlark::collections::SmallMap;
use vstd::prelude::*;

use crate::diagnostic::{Place, SourceSpan};
use crate::attrs;
use crate::lang::part::{PartValue, PartView};
use crate::lang::value::{all_below, extends, lemma_extends_item, lemma_extends_transitive, text_of};
use crate::lang::value::{type_of, Item, Store};
use crate::map::text_entries;
use crate::schematic::InstancePath;
use crate::small_map::{get_handle, handles_in, lemma_place, under};
use crate::text::{decimal, is_blank, is_blank_text, opt_text, same, texts, to_decimal};

verus! {

/// What is wrong with the call of a function.
pub struct BuiltinError {
    pub message: String,
}

/// `builtin`.
pub struct Builtin;

/// A check that is run on a module once all of it is known.
pub struct ElectricalCheck {
    pub name: String,
    /// The function to call.
    pub check_func: usize,
    pub inputs: SmallMap<String, usize>,
    pub severity: String,
    /// The file of the call; empty, where it is not known.
    pub source_path: String,
    /// The call itself, where it is known.
    pub call_span: Option<SourceSpan>,
}

/// What is wrong with the severity of a check.
pub open spec fn severity_error(severity: Seq<char>) -> Option<Seq<char>> {
    if severity == "error"@ || severity == "warning"@ || severity == "advice"@ {
        None
    } else {
        Some("Invalid severity '"@ + severity + "'. Must be 'error', 'warning', or 'advice'"@)
    }
}

/// Whether a value is a list of texts.
pub open spec fn lists_texts(items: Seq<Item>, h: usize, v: Seq<Seq<char>>) -> bool {
    match items[h as int] {
        Item::List(l) => l@.len() == v.len() && forall|i: int|
            0 <= i < v.len() ==> text_of(items[#[trigger] l@[i] as int]) == Some(v[i]),
        _ => false,
    }
}

/// What `serde_json::to_string_pretty` makes of what `serde_json::from_str` reads in a text, or the
/// error of either.
pub uninterp spec fn pretty_form(text: Seq<char>) -> Result<Seq<char>, Seq<char>>;

/// The contents of a text or an error.
pub open spec fn text_result(r: Result<String, String>) -> Result<Seq<char>, Seq<char>> {
    match r {
        Ok(s) => Ok(s@),
        Err(e) => Err(e@),
    }
}

/// `serde_json::from_str` to a `serde_json::Value`, then `serde_json::to_string_pretty` of it, by the
/// name of the result.
#[verifier::external_body]
fn pretty_json(text: &str) -> (r: Result<String, String>)
    ensures
        text_result(r) == pretty_form(text@),
{
    serde_json::from_str::<serde_json::Value>(text)
        .and_then(|v| serde_json::to_string_pretty(&v))
        .map_err(|e| e.to_string())
}

/// What a board configuration adds to the properties of a module, or the error. `known` and
/// `known_default` say what the module has: a configuration of the name, and the name of the default.
/// `printed` is the pretty form of the configuration's text.
pub open spec fn board_config(
    name: Seq<char>,
    default: bool,
    known: bool,
    known_default: Option<Seq<char>>,
    json: Result<Seq<char>, Seq<char>>,
    validated: Result<(), Seq<char>>,
    printed: Result<Seq<char>, Seq<char>>,
) -> (Seq<(Seq<char>, Seq<char>)>, Option<Seq<char>>) {
    let none = Seq::<(Seq<char>, Seq<char>)>::empty();
    let first = if default {
        none.push(("default_board_config"@, name))
    } else {
        none
    };
    if known {
        (none, Some("Board config '"@ + name + "' already exists"@))
    } else if default && known_default is Some {
        (
            none,
            Some(
                "Default board config already set to '"@ + known_default->Some_0 + "'. Cannot set '"@
                    + name + "' as default."@,
            ),
        )
    } else {
        match json {
            Err(e) => (first, Some("Failed to convert config to JSON: "@ + e)),
            Ok(_) => match validated {
                Err(e) => (first, Some("Board config validation failed: "@ + e)),
                Ok(_) => match printed {
                    Err(e) => (first, Some("Failed to pretty-print JSON: "@ + e)),
                    Ok(p) => (first.push(("board_config."@ + name, p)), None),
                },
            },
        }
    }
}

/// The contents of a check or an error.
pub open spec fn unit_result(r: Result<(), String>) -> Result<(), Seq<char>> {
    match r {
        Ok(_) => Ok(()),
        Err(e) => Err(e@),
    }
}

/// The contents of an optional error.
pub open spec fn outcome(r: Result<(), BuiltinError>) -> Option<Seq<char>> {
    match r {
        Ok(_) => None,
        Err(e) => Some(e.message@),
    }
}

/// The first words of an error, and the error.
fn prefixed(prefix: &str, e: &str) -> (r: BuiltinError)
    ensures
        r.message@ == prefix@ + e@,
{
    let mut message = prefix.to_owned();
    message.append(e);
    BuiltinError { message }
}

/// What a board configuration adds to the properties of a module, once its text was printed.
pub fn place_board_config(
    name: &str,
    default: bool,
    known: bool,
    known_default: Option<&str>,
    json: &Result<String, String>,
    validated: Result<(), String>,
    printed: Result<String, String>,
) -> (r: (Vec<(String, String)>, Result<(), BuiltinError>))
    ensures
        (text_entries(r.0@), outcome(r.1)) == board_config(
            name@,
            default,
            known,
            crate::text::opt_str(known_default),
            text_result(*json),
            unit_result(validated),
            text_result(printed),
        ),
{
    let mut out: Vec<(String, String)> = Vec::new();
    let ghost none = Seq::<(Seq<char>, Seq<char>)>::empty();
    proof {
        assert(text_entries(out@) =~= none);
    }
    if known {
        let mut message = "Board config '".to_owned();
        message.append(name);
        message.append("' already exists");
        return (out, Err(BuiltinError { message }));
    }
    if default {
        if let Some(other) = known_default {
            let mut message = "Default board config already set to '".to_owned();
            message.append(other);
            message.append("'. Cannot set '");
            message.append(name);
            message.append("' as default.");
            return (out, Err(BuiltinError { message }));
        }
        out.push(("default_board_config".to_owned(), name.to_owned()));
        proof {
            assert(text_entries(out@) =~= none.push(("default_board_config"@, name@)));
        }
    }
    if let Err(e) = json {
        return (out, Err(prefixed("Failed to convert config to JSON: ", e.as_str())));
    }
    if let Err(e) = validated {
        return (out, Err(prefixed("Board config validation failed: ", e.as_str())));
    }
    match printed {
        Err(e) => (out, Err(prefixed("Failed to pretty-print JSON: ", e.as_str()))),
        Ok(p) => {
            let mut key = "board_config.".to_owned();
            key.append(name);
            let ghost prior = text_entries(out@);
            let ghost entry = (key@, p@);
            out.push((key, p));
            proof {
                assert(text_entries(out@) =~= prior.push(entry));
            }
            (out, Ok(()))
        },
    }
}

/// A call that adds a board configuration.
pub struct BoardCall {
    pub name: Seq<char>,
    pub default: bool,
    pub json: Result<Seq<char>, Seq<char>>,
    pub validated: Result<(), Seq<char>>,
    pub printed: Result<Seq<char>, Seq<char>>,
}

/// What a call adds to the texts among the properties of a module, or the error.
pub open spec fn called(texts: Map<Seq<char>, Seq<char>>, c: BoardCall) -> (
    Seq<(Seq<char>, Seq<char>)>,
    Option<Seq<char>>,
) {
    board_config(
        c.name,
        c.default,
        texts.dom().contains("board_config."@ + c.name),
        if texts.dom().contains("default_board_config"@) {
            Some(texts["default_board_config"@])
        } else {
            None
        },
        c.json,
        c.validated,
        c.printed,
    )
}

/// Texts with others put over them.
pub open spec fn with_texts_put(
    texts: Map<Seq<char>, Seq<char>>,
    more: Seq<(Seq<char>, Seq<char>)>,
) -> Map<Seq<char>, Seq<char>>
    decreases more.len(),
{
    if more.len() == 0 {
        texts
    } else {
        with_texts_put(texts, more.drop_last()).insert(more.last().0, more.last().1)
    }
}

/// The texts among the properties of a module after some calls.
pub open spec fn after_calls(texts: Map<Seq<char>, Seq<char>>, calls: Seq<BoardCall>) -> Map<
    Seq<char>,
    Seq<char>,
>
    decreases calls.len(),
{
    if calls.len() == 0 {
        texts
    } else {
        let t = after_calls(texts, calls.drop_last());
        with_texts_put(t, called(t, calls.last()).0)
    }
}

/// Whether a call of a sequence succeeds.
pub open spec fn succeeds(texts: Map<Seq<char>, Seq<char>>, calls: Seq<BoardCall>, i: int) -> bool {
    called(after_calls(texts, calls.take(i)), calls[i]).1 is None
}

proof fn lemma_texts_put(
    texts: Map<Seq<char>, Seq<char>>,
    more: Seq<(Seq<char>, Seq<char>)>,
    key: Seq<char>,
)
    ensures
        with_texts_put(texts, more).dom().contains(key) <==> texts.dom().contains(key) || exists|
            i: int,
        |
            0 <= i < more.len() && (#[trigger] more[i]).0 == key,
    decreases more.len(),
{
    if more.len() > 0 {
        let d = more.drop_last();
        lemma_texts_put(texts, d, key);
        if exists|i: int| 0 <= i < d.len() && (#[trigger] d[i]).0 == key {
            let i = choose|i: int| 0 <= i < d.len() && (#[trigger] d[i]).0 == key;
            assert(more[i].0 == key);
        }
        if exists|i: int| 0 <= i < more.len() && (#[trigger] more[i]).0 == key {
            let i = choose|i: int| 0 <= i < more.len() && (#[trigger] more[i]).0 == key;
            if i < d.len() {
                assert(d[i].0 == key);
            }
        }
        if more.last().0 == key {
            assert(more[more.len() - 1].0 == key);
        }
    }
}

/// What a successful call put among the properties is there after all later calls.
proof fn lemma_config_stays(
    texts: Map<Seq<char>, Seq<char>>,
    calls: Seq<BoardCall>,
    i: int,
    j: int,
)
    requires
        0 <= i < j <= calls.len(),
        succeeds(texts, calls, i),
    ensures
        after_calls(texts, calls.take(j)).dom().contains("board_config."@ + calls[i].name),
        calls[i].default ==> after_calls(texts, calls.take(j)).dom().contains(
            "default_board_config"@,
        ),
    decreases j - i,
{
    let d = calls.take(j);
    assert(d.drop_last() =~= calls.take(j - 1));
    assert(d.last() == calls[j - 1]);
    let t = after_calls(texts, calls.take(j - 1));
    let more = called(t, calls[j - 1]).0;
    let key = "board_config."@ + calls[i].name;
    lemma_texts_put(t, more, key);
    lemma_texts_put(t, more, "default_board_config"@);
    if i < j - 1 {
        lemma_config_stays(texts, calls, i, j - 1);
    } else {
        assert(more[more.len() - 1].0 == key);
        if calls[i].default {
            assert(more[0].0 == "default_board_config"@);
        }
    }
}

/// Of the calls that add board configurations to a module, no two that succeed have the same name,
/// and one at most sets the default: a later call with the name of an earlier one, or a second
/// default, is an error.
pub proof fn law_board_configs_are_distinct(
    texts: Map<Seq<char>, Seq<char>>,
    calls: Seq<BoardCall>,
    i: int,
    j: int,
)
    requires
        0 <= i < j < calls.len(),
        succeeds(texts, calls, i),
    ensures
        calls[i].name == calls[j].name ==> !succeeds(texts, calls, j),
        calls[i].default && calls[j].default ==> !succeeds(texts, calls, j),
{
    lemma_config_stays(texts, calls, i, j);
}

/// The name of a board configuration that is the default.
pub open spec fn default_config(items: Seq<Item>, p: Seq<(Seq<char>, usize)>) -> Option<Seq<char>> {
    match under(p, "default_board_config"@) {
        Some(h) => text_of(items[h as int]),
        None => None,
    }
}

/// Whether the names on the way to a module are a list of the store.
pub open spec fn path_listed(
    before: Store,
    after: Store,
    path: Option<Seq<Seq<char>>>,
    r: usize,
) -> bool {
    &&& extends(after.items@, before.items@)
    &&& after.next_net_id == before.next_net_id
    &&& r < after.items@.len()
    &&& lists_texts(
        after.items@,
        r,
        match path {
            Some(p) => p,
            None => Seq::<Seq<char>>::empty(),
        },
    )
}

impl Builtin {
    /// Adds a board configuration: the properties to add, and what is wrong, if anything. `json` is
    /// the text of the configuration, and `validated` what its checks say.
    pub fn add_board_config(
        store: &Store,
        properties: &SmallMap<String, usize>,
        name: &str,
        default: bool,
        json: Result<String, String>,
        validated: Result<(), String>,
    ) -> (r: (Vec<(String, String)>, Result<(), BuiltinError>))
        requires
            all_below(handles_in(*properties), store.items@.len() as int),
        ensures
            (text_entries(r.0@), outcome(r.1)) == board_config(
                name@,
                default,
                under(handles_in(*properties), "board_config."@ + name@) is Some,
                default_config(store.items@, handles_in(*properties)),
                text_result(json),
                unit_result(validated),
                match text_result(json) {
                    Ok(text) => pretty_form(text),
                    Err(e) => Err(e),
                },
            ),
    {
        let mut key = "board_config.".to_owned();
        key.append(name);
        let known = get_handle(properties, key.as_str()).is_some();
        proof {
            lemma_place(handles_in(*properties), "default_board_config"@);
        }
        let known_default = match get_handle(properties, "default_board_config") {
            Some(h) => store.text(h),
            None => None,
        };
        let printed = match &json {
            Ok(text) => pretty_json(text.as_str()),
            Err(e) => Err(e.clone()),
        };
        place_board_config(name, default, known, known_default, &json, validated, printed)
    }

    /// Tests the name of a net type.
    pub fn net_type_name(name: &str) -> (r: Result<(), BuiltinError>)
        ensures
            outcome(r) == (if name@ == "NotConnected"@ {
                Some("NotConnected is an open-net constructor, not a net type"@)
            } else {
                None
            }),
    {
        if same(name, "NotConnected") {
            return Err(
                BuiltinError {
                    message: "NotConnected is an open-net constructor, not a net type".to_owned(),
                },
            );
        }
        Ok(())
    }

    /// `Part(...)`: a part, of which nothing that is given may be blank.
    pub fn part(
        mpn: String,
        manufacturer: String,
        qualifications: Vec<String>,
        datasheet: Option<String>,
    ) -> (r: Result<PartValue, BuiltinError>)
        ensures
            match (r, part_error(mpn@, manufacturer@, opt_text(datasheet))) {
                (Ok(p), None) => p@ == (PartView {
                    mpn: mpn@,
                    manufacturer: manufacturer@,
                    qualifications: texts(qualifications@),
                    datasheet: opt_text(datasheet),
                }),
                (Err(e), Some(t)) => e.message@ == t,
                _ => false,
            },
    {
        if is_blank_text(mpn.as_str()) {
            return Err(
                BuiltinError { message: "`mpn` must be a non-empty string".to_owned() },
            );
        }
        if is_blank_text(manufacturer.as_str()) {
            return Err(
                BuiltinError { message: "`manufacturer` must be a non-empty string".to_owned() },
            );
        }
        if let Some(d) = &datasheet {
            if is_blank_text(d.as_str()) {
                return Err(
                    BuiltinError {
                        message: "`datasheet` must be a non-empty string when provided".to_owned(),
                    },
                );
            }
        }
        Ok(PartValue::new(mpn, manufacturer, qualifications, datasheet))
    }

    /// Tests the severity of an electrical check.
    pub fn check_severity(severity: &str) -> (r: Result<(), BuiltinError>)
        ensures
            outcome(r) == severity_error(severity@),
    {
        if same(severity, "error") || same(severity, "warning") || same(severity, "advice") {
            return Ok(());
        }
        let mut message = "Invalid severity '".to_owned();
        message.append(severity);
        message.append("'. Must be 'error', 'warning', or 'advice'");
        Err(BuiltinError { message })
    }

    /// `add_electrical_check(...)`: a check, `call_site` being the file of the call.
    pub fn electrical_check(
        name: String,
        check_func: usize,
        inputs: SmallMap<String, usize>,
        severity: String,
        call_site: Option<Place>,
    ) -> (r: Result<ElectricalCheck, BuiltinError>)
        ensures
            match (r, severity_error(severity@)) {
                (Ok(c), None) => c.name == name && c.check_func == check_func && c.inputs == inputs
                    && c.severity == severity && (match call_site {
                    Some(place) => c.source_path@ == place@.path && c.call_span == place@.span,
                    None => c.source_path@.len() == 0 && c.call_span is None,
                }),
                (Err(e), Some(t)) => e.message@ == t,
                _ => false,
            },
    {
        if let Err(e) = Builtin::check_severity(severity.as_str()) {
            return Err(e);
        }
        let (source_path, call_span): (String, Option<SourceSpan>) = match call_site {
            Some(place) => (place.path, place.span),
            None => (String::new(), None),
        };
        Ok(ElectricalCheck { name, check_func, inputs, severity, source_path, call_span })
    }

    /// `current_module_path()`: the names on the way from the root to the module, as a list; an empty
    /// one, where there is no module.
    pub fn current_path(store: &mut Store, path: Option<&InstancePath>) -> (r: usize)
        requires
            old(store).wf(),
        ensures
            final(store).wf(),
            path_listed(
                *old(store),
                *final(store),
                match path {
                    Some(p) => Some(p@),
                    None => None,
                },
                r,
            ),
    {
        let ghost first = store.items@;
        let ghost id = store.next_net_id;
        let mut list: Vec<usize> = Vec::new();
        proof {
            assert(first.take(first.len() as int) =~= first);
        }
        if let Some(p) = path {
            let mut i: usize = 0;
            while i < p.segments.len()
                invariant
                    i <= p.segments@.len(),
                    store.wf(),
                    store.next_net_id == id,
                    extends(store.items@, first),
                    list@.len() == i,
                    forall|k: int| 0 <= k < i ==> (#[trigger] list@[k]) < store.items@.len(),
                    forall|k: int|
                        0 <= k < i ==> text_of(store.items@[#[trigger] list@[k] as int]) == Some(
                            p.segments@[k]@,
                        ),
                decreases p.segments@.len() - i,
            {
                let ghost before = store.items@;
                let h = store.alloc_text(p.segments[i].as_str());
                proof {
                    lemma_extends_transitive(store.items@, before, first);
                    assert forall|k: int| 0 <= k < i implies text_of(
                        store.items@[#[trigger] list@[k] as int],
                    ) == Some(p.segments@[k]@) by {
                        lemma_extends_item(store.items@, before, list@[k] as int);
                    }
                }
                list.push(h);
                i += 1;
            }
        }
        let ghost middle = store.items@;
        let ghost made = list@;
        let r = store.allocate(Item::List(list));
        proof {
            assert(store.items@.take(middle.len() as int) =~= middle);
            lemma_extends_transitive(store.items@, middle, first);
            assert forall|k: int| 0 <= k < made.len() implies store.items@[#[trigger] made[k] as int]
                == middle[made[k] as int] by {
                lemma_extends_item(store.items@, middle, made[k] as int);
            }
        }
        r
    }

    /// Tests that a component modifier is a function.
    pub fn check_component_modifier(store: &Store, h: usize) -> (r: Result<(), BuiltinError>)
        requires
            h < store.items@.len(),
        ensures
            outcome(r) == (if type_of(store.items@[h as int]) == "function"@ {
                None
            } else {
                Some(
                    "Component modifier must be a function, got "@ + type_of(
                        store.items@[h as int],
                    ),
                )
            }),
    {
        let got = store.type_label(h);
        if same(got.as_str(), "function") {
            return Ok(());
        }
        Err(prefixed("Component modifier must be a function, got ", got.as_str()))
    }

    /// The variants of an enumeration, which are strings.
    pub fn enum_variants(store: &Store, args: &Vec<usize>) -> (r: Result<Vec<String>, BuiltinError>)
        requires
            forall|i: int| 0 <= i < args@.len() ==> (#[trigger] args@[i]) < store.items@.len(),
        ensures
            match r {
                Ok(v) => v@.len() == args@.len() && forall|i: int|
                    0 <= i < args@.len() ==> text_of(store.items@[(#[trigger] args@[i]) as int])
                        == Some(v@[i]@),
                Err(e) => e.message@ == "All enum variants must be strings"@ && exists|i: int|
                    0 <= i < args@.len() && text_of(
                        store.items@[(#[trigger] args@[i]) as int],
                    ) is None,
            },
    {
        let mut out: Vec<String> = Vec::new();
        let mut i: usize = 0;
        while i < args.len()
            invariant
                i <= args@.len(),
                forall|k: int| 0 <= k < args@.len() ==> (#[trigger] args@[k]) < store.items@.len(),
                out@.len() == i,
                forall|k: int|
                    0 <= k < i ==> text_of(store.items@[(#[trigger] args@[k]) as int]) == Some(
                        out@[k]@,
                    ),
            decreases args@.len() - i,
        {
            match store.text(args[i]) {
                Some(s) => {
                    out.push(s.to_owned());
                },
                None => {
                    proof {
                        assert(text_of(store.items@[args@[i as int] as int]) is None);
                    }
                    return Err(
                        BuiltinError { message: "All enum variants must be strings".to_owned() },
                    );
                },
            }
            i += 1;
        }
        Ok(out)
    }
}

/// What is wrong with a part, if anything.
pub open spec fn part_error(mpn: Seq<char>, manufacturer: Seq<char>, datasheet: Option<Seq<char>>) -> Option<
    Seq<char>,
> {
    if is_blank(mpn) {
        Some("`mpn` must be a non-empty string"@)
    } else if is_blank(manufacturer) {
        Some("`manufacturer` must be a non-empty string"@)
    } else if datasheet is Some && is_blank(datasheet->Some_0) {
        Some("`datasheet` must be a non-empty string when provided"@)
    } else {
        None
    }
}

/// Where the setup of a simulation comes from.
pub enum SimSetupSource {
    /// A file, of which the path is to be resolved.
    File(String),
    /// The text itself.
    Content(String),
}

/// Decides where the setup of a simulation comes from.
pub fn sim_setup_source(path: Option<String>, content: Option<String>) -> (r: Result<
    SimSetupSource,
    BuiltinError,
>)
    ensures
        match (r, path, content) {
            (Ok(SimSetupSource::File(p)), Some(q), None) => p == q,
            (Ok(SimSetupSource::Content(t)), None, Some(u)) => t == u,
            (Err(e), Some(_), Some(_)) => e.message@
                == "set_sim_setup() accepts either 'file' or 'content', not both"@,
            (Err(e), None, None) => e.message@
                == "set_sim_setup() requires either 'file' or 'content' argument"@,
            _ => false,
        },
{
    match (path, content) {
        (Some(p), None) => Ok(SimSetupSource::File(p)),
        (None, Some(t)) => Ok(SimSetupSource::Content(t)),
        (Some(_), Some(_)) => Err(
            BuiltinError {
                message: "set_sim_setup() accepts either 'file' or 'content', not both".to_owned(),
            },
        ),
        (None, None) => Err(
            BuiltinError {
                message: "set_sim_setup() requires either 'file' or 'content' argument".to_owned(),
            },
        ),
    }
}

/// The setup of a simulation that stands in a file: `resolved` is what the path resolved to, and
/// `content` is what was read there.
pub open spec fn setup_in_file(
    resolved: Result<Seq<char>, Seq<char>>,
    content: Result<Seq<char>, Seq<char>>,
) -> Result<Seq<char>, Seq<char>> {
    match (resolved, content) {
        (Err(e), _) => Err("Failed to resolve sim setup file path: "@ + e),
        (Ok(p), Err(e)) => Err("Failed to read sim setup file '"@ + p + "': "@ + e),
        (Ok(_), Ok(t)) => Ok(t),
    }
}

/// Takes the setup of a simulation from a file.
pub fn read_sim_setup(resolved: Result<String, String>, content: Result<String, String>) -> (r: Result<
    String,
    BuiltinError,
>)
    ensures
        match (r, setup_in_file(text_result(resolved), text_result(content))) {
            (Ok(t), Ok(u)) => t@ == u,
            (Err(e), Err(m)) => e.message@ == m,
            _ => false,
        },
{
    match (resolved, content) {
        (Err(e), _) => {
            let mut message = "Failed to resolve sim setup file path: ".to_owned();
            message.append(e.as_str());
            Err(BuiltinError { message })
        },
        (Ok(p), Err(e)) => {
            let mut message = "Failed to read sim setup file '".to_owned();
            message.append(p.as_str());
            message.append("': ");
            message.append(e.as_str());
            Err(BuiltinError { message })
        },
        (Ok(_), Ok(t)) => Ok(t),
    }
}

/// A range of a text, as lines and places in them.
pub struct SpanPlaces {
    pub begin_row: u64,
    pub begin_place: u64,
    pub end_row: u64,
    pub end_place: u64,
}

/// The text of a range.
pub open spec fn span_text(s: SpanPlaces) -> Seq<char> {
    decimal(s.begin_row as nat) + ":"@ + decimal(s.begin_place as nat) + ":"@ + decimal(
        s.end_row as nat,
    ) + ":"@ + decimal(s.end_place as nat)
}

/// What the setup of a simulation adds to the properties of a module.
pub open spec fn sim_setup(content: Seq<char>, span: Option<SpanPlaces>) -> Seq<(Seq<char>, Seq<char>)> {
    let first = Seq::<(Seq<char>, Seq<char>)>::empty().push((attrs::SIM_SETUP@, content));
    match span {
        Some(s) => first.push((attrs::SIM_SETUP_SPAN@, span_text(s))),
        None => first,
    }
}

/// Sets the setup of a simulation, once in a module: the properties to add.
pub fn set_sim_setup(
    properties: &SmallMap<String, usize>,
    content: String,
    span: Option<SpanPlaces>,
) -> (r: Result<Vec<(String, String)>, BuiltinError>)
    ensures
        match r {
            Ok(v) => under(handles_in(*properties), attrs::SIM_SETUP@) is None && text_entries(v@)
                == sim_setup(content@, span),
            Err(e) => under(handles_in(*properties), attrs::SIM_SETUP@) is Some && e.message@
                == "Sim setup already set. set_sim_setup() can only be called once per module."@,
        },
{
    if get_handle(properties, attrs::SIM_SETUP).is_some() {
        return Err(
            BuiltinError {
                message:
                    "Sim setup already set. set_sim_setup() can only be called once per module.".to_owned(),
            },
        );
    }
    let ghost first = Seq::<(Seq<char>, Seq<char>)>::empty().push((attrs::SIM_SETUP@, content@));
    let mut out: Vec<(String, String)> = Vec::new();
    out.push((attrs::SIM_SETUP.to_owned(), content));
    proof {
        assert(text_entries(out@) =~= first);
    }
    if let Some(s) = span {
        let mut t = to_decimal(s.begin_row);
        t.append(":");
        let b = to_decimal(s.begin_place);
        t.append(b.as_str());
        t.append(":");
        let c = to_decimal(s.end_row);
        t.append(c.as_str());
        t.append(":");
        let d = to_decimal(s.end_place);
        t.append(d.as_str());
        let ghost entry = (attrs::SIM_SETUP_SPAN@, t@);
        out.push((attrs::SIM_SETUP_SPAN.to_owned(), t));
        proof {
            assert(text_entries(out@) =~= first.push(entry));
        }
    }
    Ok(out)
}

} // verus!
