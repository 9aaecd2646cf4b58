//! The SPICE fields of symbols.

use starlark::collections::SmallMap;
use vstd::prelude::*;

use crate::map::text_entries;
use crate::small_map::{count_texts, distinct, get_handle, get_text, handles_in, lemma_put};
use crate::small_map::{names_of, new_texts, put, put_text, text_at, texts_in, under};
use crate::text::{chars_of, contains_char, contains_text, cut_first, is_space, is_whitespace, same};
use crate::text::{split_once, split_whitespace, text_between, texts, trimmed_start, words};

verus! {

/// Why a SPICE model could not be taken from a symbol.
pub struct SimError {
    pub message: String,
}

impl SimError {
    /// The text of the error.
    pub open spec fn text(&self) -> Seq<char> {
        self.message@
    }
}

/// The error for a pin assignment that is none.
pub open spec fn bad_token(token: Seq<char>) -> Seq<char> {
    "Invalid Sim.Pins token '"@ + token + "'; expected '<symbol-pin>=<model-pin>'"@
}

/// The error for a symbol pin that is assigned twice.
pub open spec fn duplicate_pin(pin: Seq<char>) -> Seq<char> {
    "Duplicate symbol pin '"@ + pin + "' in Sim.Pins"@
}

/// The pin assignments of a list of words: symbol pin and model pin with `=` between, no symbol pin
/// twice.
pub open spec fn sim_pins(tokens: Seq<Seq<char>>) -> Result<Seq<(Seq<char>, Seq<char>)>, Seq<char>>
    decreases tokens.len(),
{
    if tokens.len() == 0 {
        Ok(Seq::<(Seq<char>, Seq<char>)>::empty())
    } else {
        match sim_pins(tokens.drop_last()) {
            Err(e) => Err(e),
            Ok(m) => match cut_first(tokens.last(), '=') {
                None => Err(bad_token(tokens.last())),
                Some((a, b)) => if a.len() == 0 || b.len() == 0 || b.contains('=') {
                    Err(bad_token(tokens.last()))
                } else if names_of(m).contains(a) {
                    Err(duplicate_pin(a))
                } else {
                    Ok(m.push((a, b)))
                },
            },
        }
    }
}

proof fn lemma_sim_pins_fails(tokens: Seq<Seq<char>>, k: int)
    requires
        0 <= k <= tokens.len(),
        sim_pins(tokens.take(k)) is Err,
    ensures
        sim_pins(tokens) == sim_pins(tokens.take(k)),
    decreases tokens.len(),
{
    if k == tokens.len() {
        assert(tokens.take(k) =~= tokens);
    } else {
        assert(tokens.drop_last().take(k) =~= tokens.take(k));
        lemma_sim_pins_fails(tokens.drop_last(), k);
    }
}

/// The error for a pin assignment that is none.
fn bad_token_error(token: &str) -> (r: SimError)
    ensures
        r.text() == bad_token(token@),
{
    let mut message = "Invalid Sim.Pins token '".to_owned();
    message.append(token);
    message.append("'; expected '<symbol-pin>=<model-pin>'");
    SimError { message }
}

/// Whether the first of some pairs is a text.
fn has_first(v: &Vec<(String, String)>, s: &str) -> (r: bool)
    ensures
        r == names_of(text_entries(v@)).contains(s@),
{
    let ghost names = names_of(text_entries(v@));
    let mut i: usize = 0;
    while i < v.len()
        invariant
            i <= v@.len(),
            names == names_of(text_entries(v@)),
            forall|k: int| 0 <= k < i ==> names[k] != s@,
        decreases v@.len() - i,
    {
        if same(v[i].0.as_str(), s) {
            proof {
                assert(names[i as int] == s@);
            }
            return true;
        }
        i += 1;
    }
    false
}

/// Reads pin assignments.
pub fn parse_sim_pins(pins: &str) -> (r: Result<Vec<(String, String)>, SimError>)
    ensures
        match (r, sim_pins(words(pins@))) {
            (Ok(v), Ok(m)) => text_entries(v@) == m,
            (Err(e), Err(t)) => e.text() == t,
            _ => false,
        },
{
    let tokens = split_whitespace(pins);
    let ghost all = texts(tokens@);
    let mut out: Vec<(String, String)> = Vec::new();
    let mut i: usize = 0;
    proof {
        assert(all.take(0) =~= Seq::<Seq<char>>::empty());
        assert(text_entries(out@) =~= Seq::<(Seq<char>, Seq<char>)>::empty());
    }
    while i < tokens.len()
        invariant
            i <= tokens@.len(),
            all == texts(tokens@),
            all == words(pins@),
            sim_pins(all.take(i as int)) == Ok::<Seq<(Seq<char>, Seq<char>)>, Seq<char>>(
                text_entries(out@),
            ),
        decreases tokens@.len() - i,
    {
        let token = tokens[i].as_str();
        proof {
            assert(all.take(i + 1).drop_last() =~= all.take(i as int));
            assert(all.take(i + 1).last() == token@);
        }
        let (symbol_pin, model_pin) = match split_once(token, '=') {
            Some(p) => p,
            None => {
                proof {
                    lemma_sim_pins_fails(all, i + 1);
                }
                return Err(bad_token_error(token));
            },
        };
        if symbol_pin.as_str().unicode_len() == 0 || model_pin.as_str().unicode_len() == 0
            || contains_char(model_pin.as_str(), '=') {
            proof {
                lemma_sim_pins_fails(all, i + 1);
            }
            return Err(bad_token_error(token));
        }
        if has_first(&out, symbol_pin.as_str()) {
            let mut message = "Duplicate symbol pin '".to_owned();
            message.append(symbol_pin.as_str());
            message.append("' in Sim.Pins");
            proof {
                lemma_sim_pins_fails(all, i + 1);
            }
            return Err(SimError { message });
        }
        let ghost prior = text_entries(out@);
        let ghost pair = (symbol_pin@, model_pin@);
        out.push((symbol_pin, model_pin));
        proof {
            assert(text_entries(out@) =~= prior.push(pair));
        }
        i += 1;
    }
    proof {
        assert(all.take(all.len() as int) =~= all);
    }
    Ok(out)
}

// ---------------------------------------------------------------------------------------------
// Parameters

/// How many characters at the front belong to a key.
pub open spec fn key_len(s: Seq<char>) -> int
    decreases s.len(),
{
    if s.len() > 0 && !is_space(s[0]) && s[0] != '=' {
        1 + key_len(s.skip(1))
    } else {
        0
    }
}

/// How many characters at the front are no white space.
pub open spec fn word_len(s: Seq<char>) -> int
    decreases s.len(),
{
    if s.len() > 0 && !is_space(s[0]) {
        1 + word_len(s.skip(1))
    } else {
        0
    }
}

/// What stands before the closing quote, in which `\"` stands for a quote, and how many characters
/// that takes with the quote.
pub open spec fn quoted(s: Seq<char>) -> Option<(Seq<char>, int)>
    decreases s.len(),
{
    if s.len() == 0 {
        None
    } else if s[0] == '"' {
        Some((Seq::<char>::empty(), 1))
    } else if s[0] == '\\' && s.len() > 1 && s[1] == '"' {
        match quoted(s.skip(2)) {
            Some((t, n)) => Some((seq!['"'] + t, n + 2)),
            None => None,
        }
    } else {
        match quoted(s.skip(1)) {
            Some((t, n)) => Some((seq![s[0]] + t, n + 1)),
            None => None,
        }
    }
}

proof fn lemma_key_len(s: Seq<char>)
    ensures
        0 <= key_len(s) <= s.len(),
    decreases s.len(),
{
    if s.len() > 0 && !is_space(s[0]) && s[0] != '=' {
        lemma_key_len(s.skip(1));
    }
}

proof fn lemma_word_len(s: Seq<char>)
    ensures
        0 <= word_len(s) <= s.len(),
        s.len() > 0 && !is_space(s[0]) ==> word_len(s) > 0,
    decreases s.len(),
{
    if s.len() > 0 && !is_space(s[0]) {
        lemma_word_len(s.skip(1));
    }
}

proof fn lemma_quoted(s: Seq<char>)
    ensures
        quoted(s) is Some ==> 1 <= quoted(s)->Some_0.1 <= s.len(),
    decreases s.len(),
{
    if s.len() > 0 && s[0] != '"' {
        if s[0] == '\\' && s.len() > 1 && s[1] == '"' {
            lemma_quoted(s.skip(2));
        } else {
            lemma_quoted(s.skip(1));
        }
    }
}

proof fn lemma_trimmed_start_len(s: Seq<char>)
    ensures
        trimmed_start(s).len() <= s.len(),
        trimmed_start(s).len() > 0 ==> !is_space(trimmed_start(s)[0]),
    decreases s.len(),
{
    if s.len() > 0 && is_space(s[0]) {
        lemma_trimmed_start_len(s.skip(1));
    }
}

/// The parameters that a text holds, added to those in `acc`: keys alone, which stand for 1, or keys
/// with `=` and a word or a quoted value.
pub open spec fn sim_params(s: Seq<char>, acc: Seq<(Seq<char>, Seq<char>)>) -> Result<
    Seq<(Seq<char>, Seq<char>)>,
    Seq<char>,
>
    decreases s.len(),
    via sim_params_decreases
{
    let t = trimmed_start(s);
    if t.len() == 0 {
        Ok(acc)
    } else {
        let k = key_len(t);
        let key = t.take(k);
        let u = trimmed_start(t.skip(k));
        if k == 0 {
            Err("Invalid Sim.Params syntax"@)
        } else if u.len() == 0 || u[0] != '=' {
            sim_params(u, put(acc, key, "1"@))
        } else {
            let w = trimmed_start(u.skip(1));
            if w.len() == 0 {
                Err("Missing value for Sim.Params key '"@ + key + "'"@)
            } else if w[0] == '"' {
                match quoted(w.skip(1)) {
                    None => Err("Unterminated quoted value in Sim.Params"@),
                    Some((value, n)) => sim_params(w.skip(1).skip(n), put(acc, key, value)),
                }
            } else {
                sim_params(w.skip(word_len(w)), put(acc, key, w.take(word_len(w))))
            }
        }
    }
}

#[via_fn]
proof fn sim_params_decreases(s: Seq<char>, acc: Seq<(Seq<char>, Seq<char>)>) {
    let t = trimmed_start(s);
    lemma_trimmed_start_len(s);
    if t.len() > 0 {
        let k = key_len(t);
        lemma_key_len(t);
        let u = trimmed_start(t.skip(k));
        lemma_trimmed_start_len(t.skip(k));
        if k > 0 && u.len() > 0 && u[0] == '=' {
            let w = trimmed_start(u.skip(1));
            lemma_trimmed_start_len(u.skip(1));
            if w.len() > 0 {
                lemma_word_len(w);
                lemma_quoted(w.skip(1));
            }
        }
    }
}

/// The place behind the white space from a place on.
fn skip_spaces(v: &Vec<char>, from: usize) -> (r: usize)
    requires
        from <= v@.len(),
    ensures
        from <= r <= v@.len(),
        v@.skip(r as int) == trimmed_start(v@.skip(from as int)),
{
    let mut i: usize = from;
    while i < v.len() && is_whitespace(v[i])
        invariant
            from <= i <= v@.len(),
            trimmed_start(v@.skip(i as int)) == trimmed_start(v@.skip(from as int)),
        decreases v@.len() - i,
    {
        proof {
            assert(v@.skip(i as int).skip(1) =~= v@.skip(i + 1));
        }
        i += 1;
    }
    proof {
        if i < v@.len() {
            assert(v@.skip(i as int)[0] == v@[i as int]);
        }
    }
    i
}

/// The place behind a key.
fn key_end(v: &Vec<char>, from: usize) -> (r: usize)
    requires
        from <= v@.len(),
    ensures
        from <= r <= v@.len(),
        r == from + key_len(v@.skip(from as int)),
{
    let mut i: usize = from;
    while i < v.len() && !is_whitespace(v[i]) && v[i] != '='
        invariant
            from <= i <= v@.len(),
            i + key_len(v@.skip(i as int)) == from + key_len(v@.skip(from as int)),
        decreases v@.len() - i,
    {
        proof {
            assert(v@.skip(i as int)[0] == v@[i as int]);
            assert(v@.skip(i as int).skip(1) =~= v@.skip(i + 1));
        }
        i += 1;
    }
    proof {
        if i < v@.len() {
            assert(v@.skip(i as int)[0] == v@[i as int]);
        }
    }
    i
}

/// The place behind a word.
fn word_end(v: &Vec<char>, from: usize) -> (r: usize)
    requires
        from <= v@.len(),
    ensures
        from <= r <= v@.len(),
        r == from + word_len(v@.skip(from as int)),
{
    let mut i: usize = from;
    while i < v.len() && !is_whitespace(v[i])
        invariant
            from <= i <= v@.len(),
            i + word_len(v@.skip(i as int)) == from + word_len(v@.skip(from as int)),
        decreases v@.len() - i,
    {
        proof {
            assert(v@.skip(i as int)[0] == v@[i as int]);
            assert(v@.skip(i as int).skip(1) =~= v@.skip(i + 1));
        }
        i += 1;
    }
    proof {
        if i < v@.len() {
            assert(v@.skip(i as int)[0] == v@[i as int]);
        }
    }
    i
}

/// Reads a quoted value up to its closing quote; gives the value and the place behind the quote.
fn read_quoted(v: &Vec<char>, from: usize) -> (r: Option<(String, usize)>)
    requires
        from <= v@.len(),
    ensures
        match r {
            Some((t, end)) => from < end <= v@.len() && quoted(v@.skip(from as int)) == Some(
                (t@, end - from),
            ),
            None => quoted(v@.skip(from as int)) is None,
        },
{
    let ghost all = quoted(v@.skip(from as int));
    let mut out = String::new();
    let mut i: usize = from;
    proof {
        if all is Some {
            assert(out@ + all->Some_0.0 =~= all->Some_0.0);
        }
    }
    while i < v.len()
        invariant
            from <= i <= v@.len(),
            all == quoted(v@.skip(from as int)),
            match (all, quoted(v@.skip(i as int))) {
                (Some((t, n)), Some((u, m))) => t == out@ + u && n == m + i - from,
                (None, None) => true,
                _ => false,
            },
        decreases v@.len() - i,
    {
        let ghost rest = v@.skip(i as int);
        let ghost before = out@;
        proof {
            assert(rest[0] == v@[i as int]);
        }
        if v[i] == '"' {
            proof {
                assert(out@ + Seq::<char>::empty() =~= out@);
            }
            return Some((out, i + 1));
        }
        if v[i] == '\\' && i + 1 < v.len() && v[i + 1] == '"' {
            proof {
                assert(rest[1] == v@[i + 1]);
                assert(rest.skip(2) =~= v@.skip(i + 2));
            }
            out.push('"');
            proof {
                if let Some((u, m)) = quoted(v@.skip(i + 2)) {
                    assert(before + (seq!['"'] + u) =~= out@ + u);
                }
            }
            i += 2;
        } else {
            proof {
                if rest.len() > 1 {
                    assert(rest[1] == v@[i + 1]);
                }
                assert(rest.skip(1) =~= v@.skip(i + 1));
            }
            out.push(v[i]);
            proof {
                if let Some((u, m)) = quoted(v@.skip(i + 1)) {
                    assert(before + (seq![rest[0]] + u) =~= out@ + u);
                }
            }
            i += 1;
        }
    }
    None
}

/// Reads parameters.
pub fn parse_sim_params(params: &str) -> (r: Result<SmallMap<String, String>, SimError>)
    ensures
        match (r, sim_params(params@, Seq::<(Seq<char>, Seq<char>)>::empty())) {
            (Ok(m), Ok(t)) => texts_in(m) == t && distinct(t),
            (Err(e), Err(t)) => e.text() == t,
            _ => false,
        },
{
    let v = chars_of(params);
    let mut out = new_texts();
    let ghost want = sim_params(params@, Seq::<(Seq<char>, Seq<char>)>::empty());
    let mut i: usize = 0;
    proof {
        assert(v@.skip(0) =~= v@);
    }
    loop
        invariant
            i <= v@.len(),
            want == sim_params(params@, Seq::<(Seq<char>, Seq<char>)>::empty()),
            distinct(texts_in(out)),
            sim_params(v@.skip(i as int), texts_in(out)) == want,
        decreases v@.len() - i,
    {
        let a = skip_spaces(&v, i);
        let ghost t = v@.skip(a as int);
        if a >= v.len() {
            return Ok(out);
        }
        let b = key_end(&v, a);
        if a == b {
            return Err(SimError { message: "Invalid Sim.Params syntax".to_owned() });
        }
        let key = text_between(&v, a, b);
        proof {
            assert(key@ =~= t.take(b - a));
            assert(v@.skip(b as int) =~= t.skip(b - a));
        }
        let c = skip_spaces(&v, b);
        let ghost u = v@.skip(c as int);
        proof {
            if c < v@.len() {
                assert(u[0] == v@[c as int]);
            }
            lemma_put(texts_in(out), key@, "1"@);
        }
        if c >= v.len() || v[c] != '=' {
            put_text(&mut out, key, "1".to_owned());
            i = c;
        } else {
            proof {
                assert(v@.skip(c + 1) =~= u.skip(1));
            }
            let d = skip_spaces(&v, c + 1);
            let ghost w = v@.skip(d as int);
            if d >= v.len() {
                let mut message = "Missing value for Sim.Params key '".to_owned();
                message.append(key.as_str());
                message.append("'");
                return Err(SimError { message });
            }
            proof {
                assert(w[0] == v@[d as int]);
                assert(v@.skip(d + 1) =~= w.skip(1));
                lemma_trimmed_start_len(u.skip(1));
                lemma_word_len(w);
            }
            if v[d] == '"' {
                match read_quoted(&v, d + 1) {
                    None => {
                        return Err(
                            SimError {
                                message: "Unterminated quoted value in Sim.Params".to_owned(),
                            },
                        );
                    },
                    Some((value, end)) => {
                        proof {
                            assert(v@.skip(end as int) =~= w.skip(1).skip(end - (d + 1)));
                            lemma_put(texts_in(out), key@, value@);
                        }
                        put_text(&mut out, key, value);
                        i = end;
                    },
                }
            } else {
                let e = word_end(&v, d);
                let value = text_between(&v, d, e);
                proof {
                    assert(value@ =~= w.take(e - d));
                    assert(v@.skip(e as int) =~= w.skip(e - d));
                    lemma_put(texts_in(out), key@, value@);
                }
                put_text(&mut out, key, value);
                i = e;
            }
        }
    }
}

// ---------------------------------------------------------------------------------------------
// Terminals

/// The signals that the model's terminals are assigned to, by terminal.
pub open spec fn terminal_signals(
    mappings: Seq<(Seq<char>, Seq<char>)>,
    pads: Seq<(Seq<char>, Seq<char>)>,
) -> Result<Seq<(Seq<char>, Seq<char>)>, Seq<char>>
    decreases mappings.len(),
{
    if mappings.len() == 0 {
        Ok(Seq::<(Seq<char>, Seq<char>)>::empty())
    } else {
        match terminal_signals(mappings.drop_last(), pads) {
            Err(e) => Err(e),
            Ok(m) => {
                let (symbol_pin, model_pin) = mappings.last();
                let signal = under(pads, symbol_pin)->Some_0;
                match under(m, model_pin) {
                    Some(other) => if other != signal {
                        Err(
                            "Sim.Pins maps model pin '"@ + model_pin
                                + "' to multiple symbol signals: "@ + other + ", "@ + signal,
                        )
                    } else {
                        Ok(m)
                    },
                    None => Ok(put(m, model_pin, signal)),
                }
            },
        }
    }
}

/// The first symbol pin of some assignments that the symbol does not have.
pub open spec fn unknown_pin(
    mappings: Seq<(Seq<char>, Seq<char>)>,
    pads: Seq<(Seq<char>, Seq<char>)>,
) -> Option<Seq<char>>
    decreases mappings.len(),
{
    if mappings.len() == 0 {
        None
    } else {
        match unknown_pin(mappings.drop_last(), pads) {
            Some(p) => Some(p),
            None => if under(pads, mappings.last().0) is None {
                Some(mappings.last().0)
            } else {
                None
            },
        }
    }
}

proof fn lemma_unknown_pin(
    mappings: Seq<(Seq<char>, Seq<char>)>,
    pads: Seq<(Seq<char>, Seq<char>)>,
    k: int,
)
    requires
        0 <= k <= mappings.len(),
    ensures
        unknown_pin(mappings.take(k), pads) is Some ==> unknown_pin(mappings, pads) == unknown_pin(
            mappings.take(k),
            pads,
        ),
        unknown_pin(mappings, pads) is None ==> forall|i: int|
            0 <= i < mappings.len() ==> under(pads, (#[trigger] mappings[i]).0) is Some,
    decreases mappings.len(),
{
    if mappings.len() > 0 {
        let d = mappings.drop_last();
        if k < mappings.len() {
            assert(d.take(k) =~= mappings.take(k));
            lemma_unknown_pin(d, pads, k);
        } else {
            assert(mappings.take(k) =~= mappings);
            lemma_unknown_pin(d, pads, 0);
        }
        if unknown_pin(mappings, pads) is None {
            assert forall|i: int| 0 <= i < mappings.len() implies under(
                pads,
                (#[trigger] mappings[i]).0,
            ) is Some by {
                if i < d.len() {
                    assert(d[i] == mappings[i]);
                }
            }
        }
    }
}

proof fn lemma_terminal_signals_fails(
    mappings: Seq<(Seq<char>, Seq<char>)>,
    pads: Seq<(Seq<char>, Seq<char>)>,
    k: int,
)
    requires
        0 <= k <= mappings.len(),
        terminal_signals(mappings.take(k), pads) is Err,
    ensures
        terminal_signals(mappings, pads) == terminal_signals(mappings.take(k), pads),
    decreases mappings.len(),
{
    if k == mappings.len() {
        assert(mappings.take(k) =~= mappings);
    } else {
        assert(mappings.drop_last().take(k) =~= mappings.take(k));
        lemma_terminal_signals_fails(mappings.drop_last(), pads, k);
    }
}

/// The signals of the model's terminals, or the error.
pub open spec fn assigned_signals(
    mappings: Seq<(Seq<char>, Seq<char>)>,
    pads: Seq<(Seq<char>, Seq<char>)>,
) -> Result<Seq<(Seq<char>, Seq<char>)>, Seq<char>> {
    match unknown_pin(mappings, pads) {
        Some(p) => Err("Sim.Pins references unknown symbol pin '"@ + p + "'"@),
        None => terminal_signals(mappings, pads),
    }
}

/// Finds the signal of each terminal of the model.
pub fn assign_terminals(
    mappings: &Vec<(String, String)>,
    pads: &SmallMap<String, String>,
) -> (r: Result<SmallMap<String, String>, SimError>)
    ensures
        match (r, assigned_signals(text_entries(mappings@), texts_in(*pads))) {
            (Ok(m), Ok(t)) => texts_in(m) == t && distinct(t),
            (Err(e), Err(t)) => e.text() == t,
            _ => false,
        },
{
    let ghost all = text_entries(mappings@);
    let ghost p = texts_in(*pads);
    let mut i: usize = 0;
    proof {
        assert(all.take(0) =~= Seq::<(Seq<char>, Seq<char>)>::empty());
    }
    while i < mappings.len()
        invariant
            i <= mappings@.len(),
            all == text_entries(mappings@),
            p == texts_in(*pads),
            unknown_pin(all.take(i as int), p) is None,
        decreases mappings@.len() - i,
    {
        proof {
            assert(all.take(i + 1).drop_last() =~= all.take(i as int));
            assert(all.take(i + 1).last() == (mappings@[i as int].0@, mappings@[i as int].1@));
        }
        if get_text(pads, mappings[i].0.as_str()).is_none() {
            proof {
                lemma_unknown_pin(all, p, i + 1);
            }
            let mut message = "Sim.Pins references unknown symbol pin '".to_owned();
            message.append(mappings[i].0.as_str());
            message.append("'");
            return Err(SimError { message });
        }
        i += 1;
    }
    proof {
        assert(all.take(all.len() as int) =~= all);
        lemma_unknown_pin(all, p, 0);
    }
    let mut out = new_texts();
    let mut j: usize = 0;
    while j < mappings.len()
        invariant
            j <= mappings@.len(),
            all == text_entries(mappings@),
            p == texts_in(*pads),
            unknown_pin(all, p) is None,
            forall|i: int| 0 <= i < all.len() ==> under(p, (#[trigger] all[i]).0) is Some,
            distinct(texts_in(out)),
            terminal_signals(all.take(j as int), p) == Ok::<
                Seq<(Seq<char>, Seq<char>)>,
                Seq<char>,
            >(texts_in(out)),
        decreases mappings@.len() - j,
    {
        proof {
            assert(all.take(j + 1).drop_last() =~= all.take(j as int));
            assert(all.take(j + 1).last() == (mappings@[j as int].0@, mappings@[j as int].1@));
            assert(under(p, all[j as int].0) is Some);
        }
        let model_pin = mappings[j].1.as_str();
        if let Some(signal) = get_text(pads, mappings[j].0.as_str()) {
            proof {
                lemma_put(texts_in(out), model_pin@, signal@);
            }
            let other: Option<String> = match get_text(&out, model_pin) {
                Some(s) => Some(s.to_owned()),
                None => None,
            };
            match other {
                Some(other) => {
                    if !same(other.as_str(), signal) {
                        proof {
                            lemma_terminal_signals_fails(all, p, j + 1);
                        }
                        let mut message = "Sim.Pins maps model pin '".to_owned();
                        message.append(model_pin);
                        message.append("' to multiple symbol signals: ");
                        message.append(other.as_str());
                        message.append(", ");
                        message.append(signal);
                        return Err(SimError { message });
                    }
                },
                None => {
                    put_text(&mut out, model_pin.to_owned(), signal.to_owned());
                },
            }
        }
        j += 1;
    }
    Ok(out)
}

/// The nets of the model's terminals in order, or the first thing that is wrong.
pub open spec fn terminal_nets(
    terminals: Seq<Seq<char>>,
    signals: Seq<(Seq<char>, Seq<char>)>,
    connections: Seq<(Seq<char>, usize)>,
) -> Result<Seq<usize>, Seq<char>>
    decreases terminals.len(),
{
    if terminals.len() == 0 {
        Ok(Seq::<usize>::empty())
    } else {
        let pin = terminals.last();
        match terminal_nets(terminals.drop_last(), signals, connections) {
            Err(e) => Err(e),
            Ok(nets) => match under(signals, pin) {
                None => Err("Sim.Pins does not map model pin '"@ + pin + "'"@),
                Some(signal) => match under(connections, signal) {
                    None => Err(
                        "Sim.Pins mapped model pin '"@ + pin + "' to unconnected symbol signal '"@
                            + signal + "'"@,
                    ),
                    Some(net) => Ok(nets.push(net)),
                },
            },
        }
    }
}

/// The first assigned terminal that the model does not have.
pub open spec fn unknown_terminal(signals: Seq<(Seq<char>, Seq<char>)>, terminals: Seq<Seq<char>>) -> Option<
    Seq<char>,
>
    decreases signals.len(),
{
    if signals.len() == 0 {
        None
    } else {
        match unknown_terminal(signals.drop_last(), terminals) {
            Some(p) => Some(p),
            None => if terminals.contains(signals.last().0) {
                None
            } else {
                Some(signals.last().0)
            },
        }
    }
}

proof fn lemma_terminal_nets_fails(
    terminals: Seq<Seq<char>>,
    signals: Seq<(Seq<char>, Seq<char>)>,
    connections: Seq<(Seq<char>, usize)>,
    k: int,
)
    requires
        0 <= k <= terminals.len(),
        terminal_nets(terminals.take(k), signals, connections) is Err,
    ensures
        terminal_nets(terminals, signals, connections) == terminal_nets(
            terminals.take(k),
            signals,
            connections,
        ),
    decreases terminals.len(),
{
    if k == terminals.len() {
        assert(terminals.take(k) =~= terminals);
    } else {
        assert(terminals.drop_last().take(k) =~= terminals.take(k));
        lemma_terminal_nets_fails(terminals.drop_last(), signals, connections, k);
    }
}

proof fn lemma_unknown_terminal_stays(
    signals: Seq<(Seq<char>, Seq<char>)>,
    terminals: Seq<Seq<char>>,
    k: int,
)
    requires
        0 <= k <= signals.len(),
        unknown_terminal(signals.take(k), terminals) is Some,
    ensures
        unknown_terminal(signals, terminals) == unknown_terminal(signals.take(k), terminals),
    decreases signals.len(),
{
    if k == signals.len() {
        assert(signals.take(k) =~= signals);
    } else {
        assert(signals.drop_last().take(k) =~= signals.take(k));
        lemma_unknown_terminal_stays(signals.drop_last(), terminals, k);
    }
}

/// The nets of the model's terminals and its parameters, or the first thing that is wrong.
pub open spec fn bound_model(
    terminals: Seq<Seq<char>>,
    signals: Seq<(Seq<char>, Seq<char>)>,
    connections: Seq<(Seq<char>, usize)>,
    params: Seq<char>,
) -> Result<(Seq<usize>, Seq<(Seq<char>, Seq<char>)>), Seq<char>> {
    match terminal_nets(terminals, signals, connections) {
        Err(e) => Err(e),
        Ok(nets) => match unknown_terminal(signals, terminals) {
            Some(p) => Err("Sim.Pins references unknown model pin '"@ + p + "'"@),
            None => match sim_params(params, Seq::<(Seq<char>, Seq<char>)>::empty()) {
                Err(e) => Err(e),
                Ok(args) => Ok((nets, args)),
            },
        },
    }
}

/// Connects the terminals of a model, `terminals` being those that the model declares, and reads its
/// parameters.
pub fn bind_model(
    terminals: &Vec<String>,
    signals: &SmallMap<String, String>,
    connections: &SmallMap<String, usize>,
    params: &str,
) -> (r: Result<(Vec<usize>, SmallMap<String, String>), SimError>)
    ensures
        match (
            r,
            bound_model(
                texts(terminals@),
                texts_in(*signals),
                handles_in(*connections),
                params@,
            ),
        ) {
            (Ok((nets, args)), Ok((n, a))) => nets@ == n && texts_in(args) == a && distinct(a),
            (Err(e), Err(t)) => e.text() == t,
            _ => false,
        },
{
    let ghost all = texts(terminals@);
    let ghost s = texts_in(*signals);
    let ghost c = handles_in(*connections);
    let mut nets: Vec<usize> = Vec::new();
    let mut i: usize = 0;
    proof {
        assert(all.take(0) =~= Seq::<Seq<char>>::empty());
        assert(nets@ =~= Seq::<usize>::empty());
    }
    while i < terminals.len()
        invariant
            i <= terminals@.len(),
            all == texts(terminals@),
            s == texts_in(*signals),
            c == handles_in(*connections),
            terminal_nets(all.take(i as int), s, c) == Ok::<Seq<usize>, Seq<char>>(nets@),
        decreases terminals@.len() - i,
    {
        let pin = terminals[i].as_str();
        proof {
            assert(all.take(i + 1).drop_last() =~= all.take(i as int));
            assert(all.take(i + 1).last() == pin@);
        }
        match get_text(signals, pin) {
            None => {
                proof {
                    lemma_terminal_nets_fails(all, s, c, i + 1);
                }
                let mut message = "Sim.Pins does not map model pin '".to_owned();
                message.append(pin);
                message.append("'");
                return Err(SimError { message });
            },
            Some(signal) => {
                match get_handle(connections, signal) {
                    None => {
                        proof {
                            lemma_terminal_nets_fails(all, s, c, i + 1);
                        }
                        let mut message = "Sim.Pins mapped model pin '".to_owned();
                        message.append(pin);
                        message.append("' to unconnected symbol signal '");
                        message.append(signal);
                        message.append("'");
                        return Err(SimError { message });
                    },
                    Some(net) => {
                        nets.push(net);
                    },
                }
            },
        }
        i += 1;
    }
    proof {
        assert(all.take(all.len() as int) =~= all);
    }
    let n = count_texts(signals);
    let mut j: usize = 0;
    proof {
        assert(s.take(0) =~= Seq::<(Seq<char>, Seq<char>)>::empty());
    }
    while j < n
        invariant
            j <= n,
            n == s.len(),
            all == texts(terminals@),
            s == texts_in(*signals),
            c == handles_in(*connections),
            terminal_nets(all, s, c) == Ok::<Seq<usize>, Seq<char>>(nets@),
            unknown_terminal(s.take(j as int), all) is None,
        decreases n - j,
    {
        proof {
            assert(s.take(j + 1).drop_last() =~= s.take(j as int));
            assert(s.take(j + 1).last() == s[j as int]);
        }
        if let Some((pin, _)) = text_at(signals, j) {
            if !contains_text(terminals, pin) {
                proof {
                    lemma_unknown_terminal_stays(s, all, j + 1);
                }
                let mut message = "Sim.Pins references unknown model pin '".to_owned();
                message.append(pin);
                message.append("'");
                return Err(SimError { message });
            }
        }
        j += 1;
    }
    proof {
        assert(s.take(s.len() as int) =~= s);
    }
    match parse_sim_params(params) {
        Ok(args) => Ok((nets, args)),
        Err(e) => Err(e),
    }
}

/// A model that is bound has one net per terminal.
pub proof fn law_bound_model_is_complete(
    terminals: Seq<Seq<char>>,
    signals: Seq<(Seq<char>, Seq<char>)>,
    connections: Seq<(Seq<char>, usize)>,
    params: Seq<char>,
)
    requires
        bound_model(terminals, signals, connections, params) is Ok,
    ensures
        bound_model(terminals, signals, connections, params)->Ok_0.0.len() == terminals.len(),
        forall|i: int|
            0 <= i < terminals.len() ==> {
                &&& under(signals, #[trigger] terminals[i]) is Some
                &&& under(connections, under(signals, terminals[i])->Some_0) == Some(
                    bound_model(terminals, signals, connections, params)->Ok_0.0[i],
                )
            },
{
    lemma_terminal_nets(terminals, signals, connections);
}

proof fn lemma_terminal_nets(
    terminals: Seq<Seq<char>>,
    signals: Seq<(Seq<char>, Seq<char>)>,
    connections: Seq<(Seq<char>, usize)>,
)
    requires
        terminal_nets(terminals, signals, connections) is Ok,
    ensures
        terminal_nets(terminals, signals, connections)->Ok_0.len() == terminals.len(),
        forall|i: int|
            0 <= i < terminals.len() ==> {
                &&& under(signals, #[trigger] terminals[i]) is Some
                &&& under(connections, under(signals, terminals[i])->Some_0) == Some(
                    terminal_nets(terminals, signals, connections)->Ok_0[i],
                )
            },
    decreases terminals.len(),
{
    if terminals.len() > 0 {
        let t = terminals.drop_last();
        lemma_terminal_nets(t, signals, connections);
        assert forall|i: int| 0 <= i < terminals.len() implies {
            &&& under(signals, #[trigger] terminals[i]) is Some
            &&& under(connections, under(signals, terminals[i])->Some_0) == Some(
                terminal_nets(terminals, signals, connections)->Ok_0[i],
            )
        } by {
            if i < t.len() {
                assert(t[i] == terminals[i]);
            }
        }
    }
}

} // verus!
