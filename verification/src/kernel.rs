//! The small kernel: one module to talk to, or several put together as one, over a
//! list of endpoints with a default.
use crate::envelope::{self, Verb, extract_json_object, speech_keys_once};
use crate::events::{self, EventV, SessionEvent};
use crate::json::{Json, JsonV, parse_json};
use crate::module::{Module, Roster};
use crate::ports::{self, Msg};
use crate::review::{self, CheckItem};
use crate::table::{self, Table};
use crate::text::{self, cat4, cat5, clone_opt, clone_strings, eq_ignore_case, is_blank, join, push_when, split, str_eq, trim};
use vstd::prelude::*;

verus! {

// ---- endpoints ----

/// An endpoint with its key and the models it offers.
#[derive(Debug)]
pub struct Endpoint {
    pub kind: String,
    pub base_url: String,
    pub api_key: String,
    pub models: Vec<String>,
}

#[verifier::ext_equal]
pub struct EndpointV {
    pub kind: Seq<char>,
    pub base_url: Seq<char>,
    pub api_key: Seq<char>,
    pub models: Seq<Seq<char>>,
}

impl View for Endpoint {
    type V = EndpointV;

    open spec fn view(&self) -> EndpointV {
        EndpointV {
            kind: self.kind@,
            base_url: self.base_url@,
            api_key: self.api_key@,
            models: text::texts(self.models@),
        }
    }
}

/// The endpoints by name, and the one used by default.
#[derive(Debug)]
pub struct Registry {
    pub providers: Table<Endpoint>,
    pub default: Option<String>,
}

#[verifier::ext_equal]
pub struct EndpointsV {
    pub providers: Seq<(Seq<char>, EndpointV)>,
    pub default: Option<Seq<char>>,
}

impl View for Registry {
    type V = EndpointsV;

    open spec fn view(&self) -> EndpointsV {
        EndpointsV { providers: table::entries_v(self.providers@), default: text::opt_text(self.default) }
    }
}

/// The endpoints with one more. The first one becomes the default.
pub open spec fn with_endpoint(
    r: EndpointsV,
    id: Seq<char>,
    base_url: Seq<char>,
    api_key: Seq<char>,
    models: Seq<Seq<char>>,
) -> Result<EndpointsV, Seq<char>> {
    if id.len() == 0 || base_url.len() == 0 || api_key.len() == 0 {
        Err("id / base_url / api_key 均不能为空"@)
    } else {
        Ok(
            EndpointsV {
                providers: table::inserted(
                    r.providers,
                    id,
                    EndpointV { kind: "llm"@, base_url, api_key, models },
                ),
                default: if r.default is None {
                    Some(id)
                } else {
                    r.default
                },
            },
        )
    }
}

/// The endpoints without one. Where it was the default, the first that is left
/// becomes it.
pub open spec fn without_endpoint(r: EndpointsV, id: Seq<char>) -> EndpointsV {
    let left = table::removed(r.providers, id);
    EndpointsV {
        providers: left,
        default: if table::lookup(r.providers, id) is Some && r.default == Some(id) {
            if left.len() == 0 {
                None
            } else {
                Some(left[0].0)
            }
        } else {
            r.default
        },
    }
}

/// The endpoints with another default; nothing changes where there is none such.
pub open spec fn with_default(r: EndpointsV, id: Seq<char>) -> EndpointsV {
    if table::lookup(r.providers, id) is Some {
        EndpointsV { default: Some(id), ..r }
    } else {
        r
    }
}

impl Registry {
    /// The name of the default.
    pub fn provider_default(&self) -> (r: Option<String>)
        ensures
            text::opt_text(r) == self@.default,
    {
        clone_opt(&self.default)
    }

    /// Registers an endpoint, or changes one.
    pub fn provider_upsert(&mut self, id: &str, base_url: &str, api_key: &str, models: &Vec<String>) -> (r:
        Result<(), String>)
        ensures
            match r {
                Ok(_) => with_endpoint(old(self)@, id@, base_url@, api_key@, text::texts(models@)) == Ok::<
                    _,
                    Seq<char>,
                >(final(self)@),
                Err(e) => with_endpoint(old(self)@, id@, base_url@, api_key@, text::texts(models@)) == Err::<
                    EndpointsV,
                    _,
                >(e@) && final(self)@ == old(self)@,
            },
    {
        if id.unicode_len() == 0 || base_url.unicode_len() == 0 || api_key.unicode_len() == 0 {
            return Err("id / base_url / api_key 均不能为空".to_owned());
        }
        let e = Endpoint {
            kind: "llm".to_owned(),
            base_url: base_url.to_owned(),
            api_key: api_key.to_owned(),
            models: clone_strings(models),
        };
        proof {
            table::lemma_entries(self.providers@, id@, e);
        }
        self.providers.insert(id.to_owned(), e);
        if self.default.is_none() {
            self.default = Some(id.to_owned());
        }
        Ok(())
    }

    /// Takes an endpoint out; whether it was there.
    pub fn provider_remove(&mut self, id: &str) -> (r: bool)
        ensures
            final(self)@ == without_endpoint(old(self)@, id@),
            r == (table::lookup(old(self)@.providers, id@) is Some),
    {
        proof {
            table::lemma_entries(self.providers@, id@, self.providers@[0].1);
        }
        let there = self.providers.remove(id);
        let was = match &self.default {
            Some(d) => str_eq(d.as_str(), id),
            None => false,
        };
        if there && was {
            assert(table::entries_v(self.providers@).len() == self.providers@.len());
            if self.providers.len() == 0 {
                self.default = None;
            } else {
                assert(table::entries_v(self.providers@)[0].0 == self.providers@[0].0);
                self.default = Some(self.providers.key_at(0).to_owned());
            }
        }
        there
    }

    /// Sets the default; whether there is one such.
    pub fn provider_set_default(&mut self, id: &str) -> (r: bool)
        ensures
            final(self)@ == with_default(old(self)@, id@),
            r == (table::lookup(old(self)@.providers, id@) is Some),
    {
        proof {
            table::lemma_entries(self.providers@, id@, self.providers@[0].1);
        }
        if !self.providers.contains_key(id) {
            return false;
        }
        self.default = Some(id.to_owned());
        true
    }
}

/// Whether the default is one of the endpoints.
pub open spec fn default_is_there(r: EndpointsV) -> bool {
    table::ascending(r.providers) && (r.default is Some ==> table::lookup(r.providers, r.default->0) is Some)
}

/// The default is always one of the endpoints, whatever is registered, taken out or
/// set.
pub proof fn the_default_is_registered(
    r: EndpointsV,
    id: Seq<char>,
    base_url: Seq<char>,
    api_key: Seq<char>,
    models: Seq<Seq<char>>,
)
    requires
        default_is_there(r),
    ensures
        with_endpoint(r, id, base_url, api_key, models) matches Ok(n) ==> default_is_there(n),
        default_is_there(without_endpoint(r, id)),
        default_is_there(with_default(r, id)),
{
    let e = EndpointV { kind: "llm"@, base_url, api_key, models };
    table::inserting(r.providers, id, e);
    table::removing(r.providers, id);
    let a = with_endpoint(r, id, base_url, api_key, models);
    if a is Ok && r.default is Some && r.default->0 != id {
        assert(table::lookup(table::inserted(r.providers, id, e), r.default->0) == table::lookup(
            r.providers,
            r.default->0,
        ));
    }
    let b = without_endpoint(r, id);
    let left = table::removed(r.providers, id);
    if b.default is Some {
        if r.default == Some(id) && table::lookup(r.providers, id) is Some {
            table::lemma_slot(left, left[0].0, 0);
        } else if r.default is Some && r.default->0 != id {
            assert(table::lookup(left, r.default->0) == table::lookup(r.providers, r.default->0));
        }
    }
}

// ---- picking modules ----

/// The parts of texts at the wide comma.
pub open spec fn parts_of(v: Seq<Seq<char>>, n: int) -> Seq<Seq<char>>
    decreases n,
{
    if n <= 0 {
        Seq::empty()
    } else {
        parts_of(v, n - 1) + text::split_at_char(v[n - 1], '，')
    }
}

/// The texts of the first `n` that are not blank, without white space around them.
pub open spec fn filled_parts(v: Seq<Seq<char>>, n: int) -> Seq<Seq<char>>
    decreases n,
{
    if n <= 0 {
        Seq::empty()
    } else {
        filled_parts(v, n - 1) + text::when(text::trimmed(v[n - 1]).len() > 0, text::trimmed(v[n - 1]))
    }
}

/// What a list names: it is separated by commas, plain or wide.
pub open spec fn names_in(list: Seq<char>) -> Seq<Seq<char>> {
    let v = text::split_at_char(list, ',');
    let parts = parts_of(v, v.len() as int);
    filled_parts(parts, parts.len() as int)
}

/// What a list names.
pub fn named_in(list: &str) -> (r: Vec<String>)
    ensures
        text::texts(r@) == names_in(list@),
{
    let v = split(list, ',');
    let ghost vv = text::texts(v@);
    assert(vv.len() == v@.len());
    let mut parts: Vec<String> = Vec::new();
    let mut i: usize = 0;
    assert(text::texts(parts@) =~= Seq::empty());
    while i < v.len()
        invariant
            i <= v@.len(),
            vv == text::texts(v@),
            text::texts(parts@) == parts_of(vv, i as int),
        decreases v@.len() - i,
    {
        assert(vv[i as int] == v@[i as int]@);
        let mut more = split(v[i].as_str(), '，');
        let ghost prev = parts@;
        let ghost mv = more@;
        parts.append(&mut more);
        proof {
            assert(parts@ =~= prev + mv);
            assert(text::texts(parts@) =~= text::texts(prev) + text::texts(mv));
        }
        i = i + 1;
    }
    let ghost pv = text::texts(parts@);
    assert(pv.len() == parts@.len());
    let mut out: Vec<String> = Vec::new();
    let mut j: usize = 0;
    assert(text::texts(out@) =~= Seq::empty());
    while j < parts.len()
        invariant
            j <= parts@.len(),
            pv == text::texts(parts@),
            text::texts(out@) == filled_parts(pv, j as int),
        decreases parts@.len() - j,
    {
        assert(pv[j as int] == parts@[j as int]@);
        let t = trim(parts[j].as_str());
        let b = t.as_str().unicode_len() > 0;
        push_when(&mut out, b, t);
        j = j + 1;
    }
    out
}

/// The first module of an id from the `i`th on.
pub open spec fn index_of_module(v: Seq<Module>, id: Seq<char>, i: int) -> Option<int>
    decreases v.len() - i,
{
    if i < 0 || i >= v.len() {
        None
    } else if v[i].manifest.id@ == id {
        Some(i)
    } else {
        index_of_module(v, id, i + 1)
    }
}

/// The modules the first `n` names stand for; a name that stands for none is left
/// out.
pub open spec fn picked_below(v: Seq<Module>, names: Seq<Seq<char>>, n: int) -> Seq<int>
    decreases n,
{
    if n <= 0 {
        Seq::empty()
    } else {
        match index_of_module(v, names[n - 1], 0) {
            Some(i) => picked_below(v, names, n - 1).push(i),
            None => picked_below(v, names, n - 1),
        }
    }
}

/// The modules a list picks.
pub open spec fn picks_of(v: Seq<Module>, list: Seq<char>) -> Seq<int> {
    let names = names_in(list);
    picked_below(v, names, names.len() as int)
}

/// All positions of a list.
pub open spec fn all_of(v: Seq<Module>) -> Seq<int> {
    Seq::new(v.len(), |i: int| i)
}

pub open spec fn positions(v: Seq<usize>) -> Seq<int> {
    v.map_values(|i: usize| i as int)
}

pub(crate) fn find_in_list(v: &Vec<Module>, id: &str) -> (r: Option<usize>)
    ensures
        match r {
            Some(i) => index_of_module(v@, id@, 0) == Some(i as int) && i < v@.len(),
            None => index_of_module(v@, id@, 0) is None,
        },
{
    let mut i: usize = 0;
    while i < v.len()
        invariant
            i <= v@.len(),
            index_of_module(v@, id@, 0) == index_of_module(v@, id@, i as int),
        decreases v@.len() - i,
    {
        if str_eq(v[i].manifest.id.as_str(), id) {
            return Some(i);
        }
        i = i + 1;
    }
    None
}

/// The modules a list picks, by their places.
pub fn pick_owned(modules: &Roster, ids: &str) -> (r: Vec<usize>)
    ensures
        positions(r@) == picks_of(modules.modules@, ids@),
        forall|k: int| 0 <= k < r@.len() ==> #[trigger] r@[k] < modules.modules@.len(),
{
    let names = named_in(ids);
    let ghost nv = text::texts(names@);
    let ghost mv = modules.modules@;
    assert(nv.len() == names@.len());
    let mut out: Vec<usize> = Vec::new();
    let mut i: usize = 0;
    assert(positions(out@) =~= Seq::empty());
    while i < names.len()
        invariant
            i <= names@.len(),
            nv == text::texts(names@),
            mv == modules.modules@,
            positions(out@) == picked_below(mv, nv, i as int),
            forall|k: int| 0 <= k < out@.len() ==> #[trigger] out@[k] < mv.len(),
        decreases names@.len() - i,
    {
        assert(nv[i as int] == names@[i as int]@);
        match find_in_list(&modules.modules, names[i].as_str()) {
            Some(k) => {
                let ghost prev = out@;
                out.push(k);
                assert(positions(out@) =~= positions(prev).push(k as int));
            },
            None => {},
        }
        i = i + 1;
    }
    out
}

/// The modules a list picks, and all of them where it names none.
pub fn pick_borrowed(modules: &Roster, ids: &str) -> (r: Vec<usize>)
    ensures
        positions(r@) == if text::trimmed(ids@).len() == 0 {
            all_of(modules.modules@)
        } else {
            picks_of(modules.modules@, ids@)
        },
        forall|k: int| 0 <= k < r@.len() ==> #[trigger] r@[k] < modules.modules@.len(),
{
    if !is_blank(ids) {
        return pick_owned(modules, ids);
    }
    let n = modules.modules.len();
    let mut out: Vec<usize> = Vec::new();
    let mut i: usize = 0;
    while i < n
        invariant
            i <= n,
            n == modules.modules@.len(),
            out@.len() == i,
            forall|k: int| 0 <= k < i ==> #[trigger] out@[k] == k,
        decreases n - i,
    {
        out.push(i);
        i = i + 1;
    }
    assert(positions(out@) =~= all_of(modules.modules@));
    out
}

// ---- talking ----

/// What is told first to one that has the duties of several modules.
pub open spec fn omni_text(v: Seq<Module>, picks: Seq<int>, n: int) -> Seq<char>
    decreases n,
{
    if n <= 0 {
        "你是全能助手，能力由以下模块职责拼装：\n"@
    } else {
        let m = v[picks[n - 1]].manifest;
        omni_text(v, picks, n - 1) + "\n== "@ + m.id@ + " ==\n"@ + m.system@
    }
}

/// A talk with one module, or with several as one.
#[derive(Debug)]
pub struct DirectSession {
    /// Under what name it speaks.
    pub id: String,
    pub history: Vec<Msg>,
    pub note: Option<String>,
}

/// Begins a talk with several modules as one; none where the list picks none.
pub fn start_omni(modules: &Roster, ids: &str, note: Option<String>) -> (r: Result<
    DirectSession,
    String,
>)
    ensures
        ({
            let picks = if text::trimmed(ids@).len() == 0 {
                all_of(modules.modules@)
            } else {
                picks_of(modules.modules@, ids@)
            };
            match r {
                Ok(s) => picks.len() > 0 && s.id@ == "全能"@ && ports::msgs_v(s.history@) == seq![
                    ports::plain_msg(
                        "system"@,
                        omni_text(modules.modules@, picks, picks.len() as int),
                    ),
                ] && s.note == note,
                Err(e) => picks.len() == 0 && e@ == "无可拼装模块"@,
            }
        }),
{
    let chosen = pick_borrowed(modules, ids);
    let ghost picks = positions(chosen@);
    assert(picks.len() == chosen@.len());
    if chosen.len() == 0 {
        return Err("无可拼装模块".to_owned());
    }
    let mut merged = "你是全能助手，能力由以下模块职责拼装：\n".to_owned();
    let mut i: usize = 0;
    while i < chosen.len()
        invariant
            i <= chosen@.len(),
            picks == positions(chosen@),
            forall|k: int| 0 <= k < chosen@.len() ==> #[trigger] chosen@[k] < modules.modules@.len(),
            merged@ == omni_text(modules.modules@, picks, i as int),
        decreases chosen@.len() - i,
    {
        let m = &modules.modules[chosen[i]].manifest;
        assert(picks[i as int] == chosen@[i as int]);
        merged = cat5(merged.as_str(), "\n== ", m.id.as_str(), " ==\n", m.system.as_str());
        i = i + 1;
    }
    let ghost mv = merged@;
    let mut history: Vec<Msg> = Vec::new();
    history.push(Msg::system(merged));
    assert(ports::msgs_v(history@) =~= seq![ports::plain_msg("system"@, mv)]);
    Ok(DirectSession { id: "全能".to_owned(), history, note })
}

impl DirectSession {
    /// Begins a talk with one module, which is told its duties first.
    pub fn start(id: &str, system: String, note: Option<String>) -> (r: DirectSession)
        ensures
            r.id@ == id@,
            ports::msgs_v(r.history@) == seq![ports::plain_msg("system"@, system@)],
            r.note == note,
    {
        let ghost sv = system@;
        let mut history: Vec<Msg> = Vec::new();
        history.push(Msg::system(system));
        assert(ports::msgs_v(history@) =~= seq![ports::plain_msg("system"@, sv)]);
        DirectSession { id: id.to_owned(), history, note }
    }

    /// What is said first: that the channel is another one, where it is.
    pub fn open(&self) -> (r: Vec<SessionEvent>)
        ensures
            events::events_v(r@) == match self.note {
                Some(n) => seq![EventV::Notice(n@)],
                None => Seq::empty(),
            },
    {
        let mut r: Vec<SessionEvent> = Vec::new();
        match &self.note {
            Some(n) => {
                r.push(SessionEvent::Notice(n.clone()));
                assert(events::events_v(r@) =~= seq![EventV::Notice(n@)]);
            },
            None => {
                assert(events::events_v(r@) =~= Seq::empty());
            },
        }
        r
    }

    /// The user says something; the history is what the model is sent.
    pub fn say(&mut self, text: &str)
        ensures
            ports::msgs_v(final(self).history@) == ports::msgs_v(old(self).history@).push(
                ports::plain_msg("user"@, text@),
            ),
            final(self).id == old(self).id,
            final(self).note == old(self).note,
    {
        let ghost before = self.history@;
        self.history.push(Msg::user(text.to_owned()));
        assert(ports::msgs_v(self.history@) =~= ports::msgs_v(before).push(ports::plain_msg("user"@, text@)));
    }

    /// Takes what the model answered: the line that is shown comes back.
    pub fn hear(&mut self, raw: &str) -> (r: String)
        ensures
            ({
                let said = plain_reply(raw@, envelope::first_value(raw@)).1;
                r@ == "["@ + old(self).id@ + "] "@ + said && ports::msgs_v(final(self).history@)
                    == ports::msgs_v(old(self).history@).push(ports::plain_msg("assistant"@, said))
            }),
            final(self).id == old(self).id,
            final(self).note == old(self).note,
    {
        let reply = parse_plain(raw);
        let line = cat4("[", self.id.as_str(), "] ", reply.1.as_str());
        let ghost before = self.history@;
        let ghost said = reply.1@;
        self.history.push(Msg::assistant(reply.1));
        assert(ports::msgs_v(self.history@) =~= ports::msgs_v(before).push(ports::plain_msg("assistant"@, said)));
        line
    }
}

/// What a plain envelope says: the stand, the text, and whether there was none. One
/// without a stand or a text, or with one of them twice, is no envelope; then the whole
/// text was said.
pub open spec fn plain_reply(raw: Seq<char>, v: Option<JsonV>) -> (Verb, Seq<char>, bool) {
    match v {
        Some(_) if !envelope::written_once(raw, envelope::speech_keys()) => (
            Verb::Say,
            text::trimmed(raw),
            true,
        ),
        Some(j) => match (j.text_at("type"@), j.text_at("text"@)) {
            (Some(t), Some(text)) => (plain_verb(t), text, false),
            _ => (Verb::Say, text::trimmed(raw), true),
        },
        None => (Verb::Say, text::trimmed(raw), true),
    }
}

pub open spec fn plain_verb(t: Seq<char>) -> Verb {
    if t == "ask"@ {
        Verb::Ask
    } else if t == "leave"@ {
        Verb::Leave
    } else if t == "agree"@ {
        Verb::Agree
    } else {
        Verb::Say
    }
}

fn read_plain(raw: &str, v: Option<&Json>) -> (r: (Verb, String, bool))
    ensures
        (r.0, r.1@, r.2) == plain_reply(
            raw@,
            match v {
                Some(j) => Some(j@),
                None => None,
            },
        ),
{
    if !speech_keys_once(raw) {
        return (Verb::Say, trim(raw), true);
    }
    match v {
        Some(j) => match j.str_at("type") {
            Some(t) => match j.str_at("text") {
                Some(text) => {
                    let verb = if str_eq(t, "ask") {
                        Verb::Ask
                    } else if str_eq(t, "leave") {
                        Verb::Leave
                    } else if str_eq(t, "agree") {
                        Verb::Agree
                    } else {
                        Verb::Say
                    };
                    (verb, text.to_owned(), false)
                },
                None => (Verb::Say, trim(raw), true),
            },
            None => (Verb::Say, trim(raw), true),
        },
        None => (Verb::Say, trim(raw), true),
    }
}

/// Reads a plain envelope.
pub fn parse_plain(raw: &str) -> (r: (Verb, String, bool))
    ensures
        (r.0, r.1@, r.2) == plain_reply(raw@, envelope::first_value(raw@)),
{
    match extract_json_object(raw) {
        Some(o) => match parse_json(o.as_str()) {
            Ok(v) => read_plain(raw, Some(&v)),
            Err(_) => read_plain(raw, None),
        },
        None => read_plain(raw, None),
    }
}

// ---- after a review ----

/// What comes after a review.
#[derive(Debug, Clone, Copy, PartialEq, Eq, Structural)]
pub enum AfterReview {
    /// It is delivered: passed, or as often done again as it may be.
    Deliver { ok: bool },
    /// It is done again.
    Rework,
}

/// Decides what comes after a review, when the work was done again `rework` times
/// and may be `cap` times.
pub fn after_review(all_pass: bool, rework: usize, cap: usize) -> (r: AfterReview)
    ensures
        r == if all_pass {
            AfterReview::Deliver { ok: true }
        } else if rework < cap {
            AfterReview::Rework
        } else {
            AfterReview::Deliver { ok: false }
        },
{
    if all_pass {
        AfterReview::Deliver { ok: true }
    } else if rework < cap {
        AfterReview::Rework
    } else {
        AfterReview::Deliver { ok: false }
    }
}

/// What did not pass, as those are told who do it again.
pub open spec fn fails_below(v: Seq<CheckItem>, n: int) -> Seq<Seq<char>>
    decreases n,
{
    if n <= 0 {
        Seq::empty()
    } else {
        let i = v[n - 1];
        fails_below(v, n - 1) + text::when(
            !text::same_ignoring_case(i.status@, "pass"@),
            "- "@ + i.item@ + "："@ + review::or_nothing(text::opt_text(i.reason)),
        )
    }
}

/// Lists what did not pass, and why.
pub fn fail_text(items: &Vec<CheckItem>) -> (r: String)
    ensures
        r@ == text::joined(fails_below(items@, items@.len() as int), "\n"@),
{
    let mut out: Vec<String> = Vec::new();
    let mut k: usize = 0;
    assert(text::texts(out@) =~= Seq::empty());
    while k < items.len()
        invariant
            k <= items@.len(),
            text::texts(out@) == fails_below(items@, k as int),
        decreases items@.len() - k,
    {
        let i = &items[k];
        let why = match &i.reason {
            Some(w) => w.clone(),
            None => String::new(),
        };
        assert(why@ =~= review::or_nothing(text::opt_text(i.reason)));
        let b = !eq_ignore_case(i.status.as_str(), "pass");
        push_when(&mut out, b, cat4("- ", i.item.as_str(), "：", why.as_str()));
        k = k + 1;
    }
    join(&out, "\n")
}

/// An endpoint is found again as it was given, and the others stay; the first becomes the
/// one to ask, and stays it.
pub proof fn endpoints_are_found_again(
    r: EndpointsV,
    id: Seq<char>,
    base_url: Seq<char>,
    api_key: Seq<char>,
    models: Seq<Seq<char>>,
    other: Seq<char>,
)
    requires
        table::ascending(r.providers),
    ensures
        with_endpoint(r, id, base_url, api_key, models) is Ok <==> id.len() > 0 && base_url.len() > 0
            && api_key.len() > 0,
        with_endpoint(r, id, base_url, api_key, models) matches Ok(n) ==> {
            &&& table::lookup(n.providers, id) matches Some(e) && e.base_url == base_url && e.api_key == api_key
                && e.models == models
            &&& other != id ==> table::lookup(n.providers, other) == table::lookup(r.providers, other)
            &&& r.default is None ==> n.default == Some(id)
            &&& r.default is Some ==> n.default == r.default
        },
        table::lookup(without_endpoint(r, id).providers, id) is None,
        other != id ==> table::lookup(without_endpoint(r, id).providers, other) == table::lookup(
            r.providers,
            other,
        ),
        r.default != Some(id) ==> without_endpoint(r, id).default == r.default,
        table::lookup(r.providers, id) is Some ==> with_default(r, id).default == Some(id),
        table::lookup(r.providers, id) is None ==> with_default(r, id) == r,
        with_default(r, id).providers == r.providers,
{
    table::inserting(r.providers, id, EndpointV { kind: "llm"@, base_url, api_key, models });
    table::removing(r.providers, id);
}

proof fn lemma_split_parts(a: Seq<char>, b: Seq<char>, c: char)
    ensures
        text::split_at_char(a + seq![c] + b, c) == text::split_at_char(a, c) + text::split_at_char(b, c),
    decreases a.len(),
{
    let s = a + seq![c] + b;
    text::lemma_index_of_char(a, c);
    let i = text::index_of_char(a, c);
    if i < a.len() {
        assert forall|k: int| 0 <= k < i implies s[k] != c by {
            assert(s[k] == a[k]);
        }
        assert(s[i] == a[i]);
        text::lemma_index_of_char_is(s, c, i);
        let t = a.skip(i + 1);
        assert(s.skip(i + 1) =~= t + seq![c] + b);
        assert(s.take(i) =~= a.take(i));
        lemma_split_parts(t, b, c);
        assert(text::split_at_char(s, c) =~= text::split_at_char(a, c) + text::split_at_char(b, c));
    } else {
        assert forall|k: int| 0 <= k < a.len() implies s[k] != c by {
            assert(s[k] == a[k]);
        }
        text::lemma_index_of_char_is(s, c, a.len() as int);
        assert(s.take(a.len() as int) =~= a);
        assert(s.skip(a.len() as int + 1) =~= b);
    }
}

proof fn lemma_parts_together(v: Seq<Seq<char>>, w: Seq<Seq<char>>, n: int)
    requires
        0 <= n <= w.len(),
    ensures
        parts_of(v + w, v.len() + n) == parts_of(v, v.len() as int) + parts_of(w, n),
        filled_parts(v + w, v.len() + n) == filled_parts(v, v.len() as int) + filled_parts(w, n),
    decreases n,
{
    if n > 0 {
        lemma_parts_together(v, w, n - 1);
        assert((v + w)[v.len() + n - 1] == w[n - 1]);
        assert(parts_of(v + w, v.len() + n) =~= parts_of(v, v.len() as int) + parts_of(w, n));
        assert(filled_parts(v + w, v.len() + n) =~= filled_parts(v, v.len() as int) + filled_parts(w, n));
    } else {
        lemma_parts_same(v, v + w, v.len() as int);
        assert(parts_of(v, v.len() as int) + parts_of(w, 0) =~= parts_of(v, v.len() as int));
        assert(filled_parts(v, v.len() as int) + filled_parts(w, 0) =~= filled_parts(v, v.len() as int));
    }
}

proof fn lemma_parts_same(v: Seq<Seq<char>>, w: Seq<Seq<char>>, n: int)
    requires
        0 <= n <= v.len() <= w.len(),
        forall|k: int| 0 <= k < v.len() ==> #[trigger] v[k] == w[k],
    ensures
        parts_of(v, n) == parts_of(w, n),
        filled_parts(v, n) == filled_parts(w, n),
    decreases n,
{
    if n > 0 {
        lemma_parts_same(v, w, n - 1);
        assert(v[n - 1] == w[n - 1]);
    }
}

/// A list of names is read name by name: what stands on both sides of a comma is read as
/// if it stood alone, and without a comma it is one name, without the spaces round it, or
/// none.
pub proof fn lists_are_read_name_by_name(a: Seq<char>, b: Seq<char>)
    ensures
        names_in(a + seq![','] + b) == names_in(a) + names_in(b),
        !a.contains(',') && !a.contains('，') && text::trimmed(a).len() > 0 ==> names_in(a) == seq![
            text::trimmed(a),
        ],
        !a.contains(',') && !a.contains('，') && text::trimmed(a).len() == 0 ==> names_in(a).len() == 0,
{
    lemma_split_parts(a, b, ',');
    let v = text::split_at_char(a, ',');
    let w = text::split_at_char(b, ',');
    lemma_parts_together(v, w, w.len() as int);
    let x = parts_of(v, v.len() as int);
    let y = parts_of(w, w.len() as int);
    lemma_parts_together(x, y, y.len() as int);
    if !a.contains(',') && !a.contains('，') {
        assert forall|k: int| 0 <= k < a.len() implies a[k] != ',' && a[k] != '，' by {
            assert(a.contains(a[k]));
        }
        text::lemma_index_of_char_is(a, ',', a.len() as int);
        text::lemma_index_of_char_is(a, '，', a.len() as int);
        assert(v =~= seq![a]);
        reveal_with_fuel(parts_of, 2);
        assert(x =~= seq![a]);
        reveal_with_fuel(filled_parts, 2);
        if text::trimmed(a).len() > 0 {
            assert(names_in(a) =~= seq![text::trimmed(a)]);
        }
    }
}

/// A module is found by its id, the first of that id.
pub proof fn modules_are_found_by_id(v: Seq<Module>, id: Seq<char>, i: int)
    requires
        0 <= i,
    ensures
        match index_of_module(v, id, i) {
            Some(k) => i <= k < v.len() && v[k].manifest.id@ == id && forall|j: int|
                i <= j < k ==> (#[trigger] v[j]).manifest.id@ != id,
            None => forall|j: int| i <= j < v.len() ==> (#[trigger] v[j]).manifest.id@ != id,
        },
    decreases v.len() - i,
{
    if i < v.len() && v[i].manifest.id@ != id {
        modules_are_found_by_id(v, id, i + 1);
    }
}

/// A reply that is written as it should be is taken by its word and its text; any other
/// is taken as said, as it stands.
pub proof fn plain_replies_are_taken_by_their_word(raw: Seq<char>, v: Option<JsonV>)
    ensures
        ({
            let r = plain_reply(raw, v);
            let sound = v is Some && envelope::written_once(raw, envelope::speech_keys()) && (v->0).text_at("type"@)
                is Some && (v->0).text_at("text"@) is Some;
            &&& sound ==> !r.2 && r.1 == (v->0).text_at("text"@)->0
            &&& sound && (v->0).text_at("type"@) == Some("leave"@) ==> r.0 is Leave
            &&& sound && (v->0).text_at("type"@) == Some("agree"@) ==> r.0 is Agree
            &&& sound && (v->0).text_at("type"@) == Some("ask"@) ==> r.0 is Ask
            &&& sound && (v->0).text_at("type"@) == Some("say"@) ==> r.0 is Say
            &&& !sound ==> r.0 is Say && r.2 && r.1 == text::trimmed(raw)
        }),
{
    reveal_strlit("leave");
    assert("leave"@.len() == 5);
    reveal_strlit("agree");
    assert("agree"@.len() == 5);
    reveal_strlit("ask");
    assert("ask"@.len() == 3);
    reveal_strlit("say");
    assert("say"@.len() == 3);
    assert("leave"@[0] != "agree"@[0]);
    assert("ask"@[0] != "say"@[0]);
}

/// What did not pass is listed, and what passed is not.
pub proof fn failures_are_listed(v: Seq<CheckItem>, n: int)
    requires
        0 < n <= v.len(),
    ensures
        text::same_ignoring_case(v[n - 1].status@, "pass"@) ==> fails_below(v, n) == fails_below(v, n - 1),
        !text::same_ignoring_case(v[n - 1].status@, "pass"@) ==> fails_below(v, n).len() == fails_below(v, n - 1).len()
            + 1 && text::starts(fails_below(v, n).last(), "- "@ + v[n - 1].item@),
{
    let h = fails_below(v, n);
    let p = fails_below(v, n - 1);
    if text::same_ignoring_case(v[n - 1].status@, "pass"@) {
        assert(h =~= p);
    } else {
        let l = "- "@ + v[n - 1].item@;
        assert(h.last().subrange(0, l.len() as int) =~= l);
    }
}

/// Modules are picked by the names in a list, in the order of the names; a name that is
/// no module's is passed over.
pub proof fn modules_are_picked_in_order(v: Seq<Module>, names: Seq<Seq<char>>, n: int)
    requires
        0 < n <= names.len(),
    ensures
        match index_of_module(v, names[n - 1], 0) {
            Some(i) => picked_below(v, names, n).len() == picked_below(v, names, n - 1).len() + 1 && v[picked_below(
                v,
                names,
                n,
            ).last()].manifest.id@ == names[n - 1] && picked_below(v, names, n).drop_last() == picked_below(
                v,
                names,
                n - 1,
            ),
            None => picked_below(v, names, n) == picked_below(v, names, n - 1),
        },
{
    modules_are_found_by_id(v, names[n - 1], 0);
    if index_of_module(v, names[n - 1], 0) is Some {
        assert(picked_below(v, names, n).drop_last() =~= picked_below(v, names, n - 1));
    }
}

} // verus!
