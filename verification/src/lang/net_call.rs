//! The constructor of a net type, from its arguments to the net.
//!
//! Whether a name is one and whether a value has a type is found out by others and comes with the
//! arguments; which of the findings count, and in what order things go wrong, is decided here.

use starlark::collections::SmallMap;
use vstd::prelude::*;

use crate::diagnostic::{opt_placed, Place, PlaceView, PlacedNotice};
use crate::lang::net::{added_texts, applied_fields, asked_name, base_view, field_type_error};
use crate::lang::net::{field_value, ignored_name, lemma_put_below, made_intent, made_net};
use crate::lang::net::{note_ignored_name, opt_net, opt_registration, read_arguments, registered};
use crate::lang::net::{validate_field, ConnectionIntent, FieldCheck, NetInstantiateIntent};
use crate::lang::net::{NetInstantiateOptions, NetRegistration, NetType, NetValue};
use crate::lang::value::{all_below, extends, net_of, text_of, type_of, Item, Store};
use crate::small_map::{count_handles, handle_at, handles_in, new_handles, put, put_handle};
use crate::text::{lemma_texts_push, opt_text, texts};

verus! {

/// What is known of a field of a net that is made.
pub struct FieldGiven {
    pub check: FieldCheck,
    /// What went wrong when the given value was to be converted, if anything.
    pub conversion_error: Option<String>,
    /// The type of the field, as text.
    pub expected: String,
    /// The given value, as text.
    pub shown: String,
}

impl FieldGiven {
    /// Whether the values are in the store.
    pub open spec fn fits(&self, n: int) -> bool {
        &&& self.check.provided is Some ==> self.check.provided->Some_0 < n
        &&& self.check.default is Some ==> self.check.default->Some_0 < n
        &&& self.check.converted is Some ==> self.check.converted->Some_0.0 < n
    }
}

/// Whether what is known of fields is about values of the store.
pub open spec fn all_fit(given: Seq<FieldGiven>, n: int) -> bool {
    forall|i: int| 0 <= i < given.len() ==> (#[trigger] given[i]).fits(n)
}

/// The value of a field, or what is wrong with it.
pub open spec fn field_outcome(field: Seq<char>, g: FieldGiven, items: Seq<Item>) -> Result<
    Option<usize>,
    Seq<char>,
> {
    let c = g.check;
    if c.provided is Some && c.type_known && !c.matches && g.conversion_error is Some {
        Err(g.conversion_error->Some_0@)
    } else {
        match field_value(c) {
            Ok(v) => Ok(v),
            Err(_) => Err(
                "Field `"@ + field + "` has wrong type: expected `"@ + g.expected@
                    + "`, got value `"@ + g.shown@ + "` of type `"@ + type_of(
                    items[c.provided->Some_0 as int],
                ) + "`"@,
            ),
        }
    }
}

/// The values of the fields that have one, or what is wrong with the first that fails.
pub open spec fn fields_outcome(
    fields: Seq<(Seq<char>, usize)>,
    given: Seq<FieldGiven>,
    items: Seq<Item>,
) -> Result<Seq<(Seq<char>, usize)>, Seq<char>>
    decreases fields.len(),
{
    if fields.len() == 0 || given.len() != fields.len() {
        Ok(Seq::<(Seq<char>, usize)>::empty())
    } else {
        match fields_outcome(fields.drop_last(), given.drop_last(), items) {
            Err(e) => Err(e),
            Ok(accepted) => match field_outcome(fields.last().0, given.last(), items) {
                Err(e) => Err(e),
                Ok(Some(v)) => Ok(put(accepted, fields.last().0, v)),
                Ok(None) => Ok(accepted),
            },
        }
    }
}

/// The names of the fields that were given.
pub open spec fn names_given(fields: Seq<(Seq<char>, usize)>, given: Seq<FieldGiven>) -> Seq<Seq<char>>
    decreases fields.len(),
{
    if fields.len() == 0 || given.len() != fields.len() {
        Seq::<Seq<char>>::empty()
    } else {
        let r = names_given(fields.drop_last(), given.drop_last());
        if given.last().check.provided is Some {
            r.push(fields.last().0)
        } else {
            r
        }
    }
}

proof fn lemma_fields_fail(
    fields: Seq<(Seq<char>, usize)>,
    given: Seq<FieldGiven>,
    items: Seq<Item>,
    k: int,
)
    requires
        fields.len() == given.len(),
        0 <= k <= fields.len(),
        fields_outcome(fields.take(k), given.take(k), items) is Err,
    ensures
        fields_outcome(fields, given, items) == fields_outcome(fields.take(k), given.take(k), items),
    decreases fields.len(),
{
    if k == fields.len() {
        assert(fields.take(k) =~= fields);
        assert(given.take(k) =~= given);
    } else {
        assert(fields.drop_last().take(k) =~= fields.take(k));
        assert(given.drop_last().take(k) =~= given.take(k));
        lemma_fields_fail(fields.drop_last(), given.drop_last(), items, k);
    }
}

/// Chooses the value of a field.
fn choose_field(store: &Store, field: &str, g: &FieldGiven) -> (r: Result<Option<usize>, String>)
    requires
        g.fits(store.items@.len() as int),
    ensures
        match (r, field_outcome(field@, *g, store.items@)) {
            (Ok(v), Ok(w)) => v == w && (v is Some ==> v->Some_0 < store.items@.len()),
            (Err(e), Err(t)) => e@ == t,
            _ => false,
        },
{
    if g.check.provided.is_some() && g.check.type_known && !g.check.matches {
        if let Some(e) = &g.conversion_error {
            return Err(e.clone());
        }
    }
    match validate_field(&g.check) {
        Ok(v) => Ok(v),
        Err(_) => {
            let got = match g.check.provided {
                Some(h) => store.type_label(h),
                None => String::new(),
            };
            Err(
                field_type_error(field, g.expected.as_str(), g.shown.as_str(), got.as_str()),
            )
        },
    }
}

/// Chooses the values of the fields of a type. The second part of the result names the fields that
/// were given.
fn choose_fields(store: &Store, t: &NetType, given: &Vec<FieldGiven>) -> (r: Result<
    (SmallMap<String, usize>, Vec<String>),
    String,
>)
    requires
        given@.len() == handles_in(t.fields).len(),
        all_fit(given@, store.items@.len() as int),
    ensures
        match (r, fields_outcome(handles_in(t.fields), given@, store.items@)) {
            (Ok((m, names)), Ok(accepted)) => handles_in(m) == accepted && all_below(
                accepted,
                store.items@.len() as int,
            ) && texts(names@) == names_given(handles_in(t.fields), given@),
            (Err(e), Err(e2)) => e@ == e2,
            _ => false,
        },
{
    let ghost fields = handles_in(t.fields);
    let ghost items = store.items@;
    let mut out = new_handles();
    let mut names: Vec<String> = Vec::new();
    let n = count_handles(&t.fields);
    let mut i: usize = 0;
    proof {
        assert(fields.take(0) =~= Seq::<(Seq<char>, usize)>::empty());
        assert(texts(names@) =~= Seq::<Seq<char>>::empty());
    }
    while i < n
        invariant
            i <= n,
            n == fields.len(),
            fields == handles_in(t.fields),
            items == store.items@,
            given@.len() == fields.len(),
            all_fit(given@, items.len() as int),
            all_below(handles_in(out), items.len() as int),
            fields_outcome(fields.take(i as int), given@.take(i as int), items) == Ok::<
                Seq<(Seq<char>, usize)>,
                Seq<char>,
            >(handles_in(out)),
            texts(names@) == names_given(fields.take(i as int), given@.take(i as int)),
        decreases n - i,
    {
        proof {
            assert(fields.take(i + 1).drop_last() =~= fields.take(i as int));
            assert(given@.take(i + 1).drop_last() =~= given@.take(i as int));
            assert(fields.take(i + 1).last() == fields[i as int]);
            assert(given@.take(i + 1).last() == given@[i as int]);
            assert(given@[i as int].fits(items.len() as int));
        }
        if let Some((field, _)) = handle_at(&t.fields, i) {
            match choose_field(store, field, &given[i]) {
                Err(e) => {
                    proof {
                        lemma_fields_fail(fields, given@, items, i + 1);
                    }
                    return Err(e);
                },
                Ok(Some(v)) => {
                    proof {
                        lemma_put_below(handles_in(out), field@, v, items.len() as int);
                    }
                    put_handle(&mut out, field.to_owned(), v);
                },
                Ok(None) => {},
            }
            if given[i].check.provided.is_some() {
                let name = field.to_owned();
                proof {
                    lemma_texts_push(names@, name);
                }
                names.push(name);
            }
        }
        i += 1;
    }
    proof {
        assert(fields.take(fields.len() as int) =~= fields);
        assert(given@.take(given@.len() as int) =~= given@);
    }
    Ok((out, names))
}

/// What comes of making a net: the net, or what is wrong.
pub struct NetOutcome {
    pub net: Result<usize, String>,
    /// The note that an open net ignores the name that it was given, where it was.
    pub ignored: Option<PlacedNotice>,
    /// What the module is to register, where it is to.
    pub registration: Option<NetRegistration>,
}

/// What is to be made of a net type.
pub ghost struct NetRequest {
    pub base: Option<usize>,
    pub explicit: Option<Seq<char>>,
    pub given: Seq<FieldGiven>,
    pub options: NetInstantiateOptions,
    pub name_error: Option<Seq<char>>,
    pub site: PlaceView,
}

/// What is wrong with the name that is asked for: where none is, nothing.
pub open spec fn refused_name(q: NetRequest, items: Seq<Item>) -> Option<Seq<char>> {
    if asked_name(base_view(items, q.base), q.explicit, q.options.intent) is Some {
        q.name_error
    } else {
        None
    }
}

/// The note about a name that is ignored, where one is.
pub open spec fn noted_name(q: NetRequest, items: Seq<Item>) -> Option<(
    PlaceView,
    crate::diagnostic::NoticeView,
)> {
    if q.explicit is Some && made_intent(base_view(items, q.base), q.options.intent)
        == ConnectionIntent::Open {
        Some(ignored_name(q.site))
    } else {
        None
    }
}

/// Whether a net is made as it is to be: a name that is refused gives its error and leaves all as it
/// is; the first field that fails gives its error, once a net that is made alone took its number; else
/// the net stands last in the store, behind the texts that it shows of its symbol.
pub open spec fn net_made(
    t: &NetType,
    q: NetRequest,
    before: Seq<Item>,
    id: u64,
    after: Seq<Item>,
    next: u64,
    r: NetOutcome,
) -> bool {
    let base = base_view(before, q.base);
    let numbered = id + (if q.base is None {
        1int
    } else {
        0int
    });
    &&& opt_placed(r.ignored) == noted_name(q, before)
    &&& match refused_name(q, before) {
        Some(e) => after == before && next == id && r.registration is None && r.net is Err
            && r.net->Err_0@ == e,
        None => match fields_outcome(handles_in(t.fields), q.given, before) {
            Err(e) => after == before && next == numbered && r.registration is None && r.net is Err
                && r.net->Err_0@ == e,
            Ok(accepted) => {
                let provided = names_given(handles_in(t.fields), q.given);
                let n = made_net(
                    t,
                    base,
                    q.explicit,
                    accepted,
                    provided,
                    q.options,
                    before,
                    id,
                    q.site,
                );
                let start = match base {
                    Some(b) => b.properties,
                    None => Seq::<(Seq<char>, usize)>::empty(),
                };
                let added = added_texts(
                    applied_fields(
                        handles_in(t.fields),
                        accepted,
                        provided,
                        before,
                        t.type_label@,
                        start,
                    ),
                    before,
                );
                &&& next == numbered
                &&& extends(after, before)
                &&& after.len() == before.len() + added.len() + 1
                &&& r.net is Ok
                &&& r.net->Ok_0 == before.len() + added.len()
                &&& opt_net(net_of(after[r.net->Ok_0 as int])) == Some(n)
                &&& forall|i: int|
                    0 <= i < added.len() ==> text_of(#[trigger] after[before.len() + i]) == Some(
                        added[i].1,
                    )
                &&& opt_registration(r.registration) == registered(n, q.options.should_register)
            },
        },
    }
}

/// What the arguments of the constructor are wrong with, if anything.
pub open spec fn argument_error(
    t: &NetType,
    items: Seq<Item>,
    positional: Option<usize>,
    keyword: Option<usize>,
) -> Option<Seq<char>> {
    if keyword is Some && text_of(items[keyword->Some_0 as int]) is None {
        Some(
            t.type_label@ + "() 'name' must be string, got "@ + type_of(
                items[keyword->Some_0 as int],
            ),
        )
    } else if positional is Some && text_of(items[positional->Some_0 as int]) is None && net_of(
        items[positional->Some_0 as int],
    ) is None {
        Some(
            t.type_label@ + "() expects string or Net value as positional, got "@ + type_of(
                items[positional->Some_0 as int],
            ),
        )
    } else {
        None
    }
}

impl NetType {
    /// Makes a net, alone or from another, once its name and its fields are in order. `name_error` is
    /// what is wrong with the name that it asks for, if anything, and `given` tells of each field.
    pub fn instantiate_checked(
        &self,
        store: &mut Store,
        base: Option<usize>,
        explicit_name: Option<String>,
        given: &Vec<FieldGiven>,
        options: NetInstantiateOptions,
        name_error: Option<String>,
        site: &Place,
    ) -> (r: NetOutcome)
        requires
            old(store).wf(),
            base is None ==> old(store).next_net_id < u64::MAX,
            base is Some ==> base->Some_0 < old(store).items@.len() && net_of(
                old(store).items@[base->Some_0 as int],
            ) is Some,
            given@.len() == handles_in(self.fields).len(),
            all_fit(given@, old(store).items@.len() as int),
        ensures
            final(store).wf(),
            net_made(
                self,
                NetRequest {
                    base,
                    explicit: opt_text(explicit_name),
                    given: given@,
                    options,
                    name_error: opt_text(name_error),
                    site: site@,
                },
                old(store).items@,
                old(store).next_net_id,
                final(store).items@,
                final(store).next_net_id,
                r,
            ),
    {
        let base_net: Option<&NetValue> = match base {
            Some(h) => store.net(h),
            None => None,
        };
        let open = match (options.intent, base_net) {
            (NetInstantiateIntent::PreserveBase, Some(n)) => n.is_open(),
            _ => false,
        };
        let asked = NetType::requested_name(store, base, &explicit_name, options.intent);
        if asked.is_some() {
            if let Some(e) = name_error {
                return NetOutcome {
                    net: Err(e),
                    ignored: note_ignored_name(explicit_name.is_some() && open, site),
                    registration: None,
                };
            }
        }
        let (accepted, provided) = match choose_fields(store, self, given) {
            Ok(found) => found,
            Err(e) => {
                if base.is_none() {
                    let _ = store.generate_net_id();
                }
                return NetOutcome {
                    net: Err(e),
                    ignored: note_ignored_name(explicit_name.is_some() && open, site),
                    registration: None,
                };
            },
        };
        let (h, ignored, registration) = self.instantiate(
            store,
            base,
            explicit_name,
            &accepted,
            &provided,
            options,
            site,
        );
        NetOutcome { net: Ok(h), ignored, registration }
    }

    /// The constructor: reads the arguments and makes the net.
    pub fn invoke(
        &self,
        store: &mut Store,
        positional: Option<usize>,
        keyword: Option<usize>,
        should_register: bool,
        given: &Vec<FieldGiven>,
        name_error: Option<String>,
        site: &Place,
    ) -> (r: NetOutcome)
        requires
            old(store).wf(),
            old(store).next_net_id < u64::MAX,
            positional is Some ==> positional->Some_0 < old(store).items@.len(),
            keyword is Some ==> keyword->Some_0 < old(store).items@.len(),
            given@.len() == handles_in(self.fields).len(),
            all_fit(given@, old(store).items@.len() as int),
        ensures
            final(store).wf(),
            match argument_error(self, old(store).items@, positional, keyword) {
                Some(e) => r.net is Err && r.net->Err_0@ == e && r.ignored is None
                    && r.registration is None && *final(store) == *old(store),
                None => {
                    let (base, explicit, inferable) = read_arguments(
                        old(store).items@,
                        positional,
                        keyword,
                    );
                    net_made(
                        self,
                        NetRequest {
                            base,
                            explicit,
                            given: given@,
                            options: NetInstantiateOptions {
                                should_register,
                                assignment_inferable: inferable,
                                intent: NetInstantiateIntent::Connected,
                            },
                            name_error: opt_text(name_error),
                            site: site@,
                        },
                        old(store).items@,
                        old(store).next_net_id,
                        final(store).items@,
                        final(store).next_net_id,
                        r,
                    )
                },
            },
    {
        let arguments = match self.read_arguments(store, positional, keyword) {
            Ok(arguments) => arguments,
            Err(e) => {
                return NetOutcome { net: Err(e.message()), ignored: None, registration: None };
            },
        };
        let options = NetInstantiateOptions {
            should_register,
            assignment_inferable: arguments.assignment_inferable,
            intent: NetInstantiateIntent::Connected,
        };
        self.instantiate_checked(
            store,
            arguments.base,
            arguments.explicit_name,
            given,
            options,
            name_error,
            site,
        )
    }
}

} // verus!
