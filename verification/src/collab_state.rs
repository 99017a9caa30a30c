//! The state of a collaboration, read off its transcript: what the next step is
//! follows from the events alone, so that a session can be taken up wherever it
//! broke off.
use crate::chain::{NodeV, TaskChain};
use crate::events::{self, EventV, LineV};
use crate::json::{self, Json, JsonV};
use crate::table::{self, Table, put_text};
use crate::text::{self, clone_strings, eq_ignore_case, has_sub, parse_usize, starts_with, str_eq, to_size, trim};
use vstd::prelude::*;

verus! {

/// The state that follows from the events.
#[derive(Debug)]
pub struct CollabState {
    /// What the user asked for last.
    pub task: Option<String>,
    /// The roster as it was drafted last.
    pub slate: Option<String>,
    pub slate_confirmed: bool,
    /// The user let the discussion begin.
    pub begun: bool,
    /// The team may decide for itself.
    pub allow: bool,
    /// The roster.
    pub picked: Vec<String>,
    pub round: usize,
    /// Who is still there.
    pub present: Table<bool>,
    /// Who has agreed.
    pub agreed: Table<bool>,
    /// The discussion is over.
    pub closed: bool,
    pub plan_approved: bool,
    pub plan: Option<String>,
    pub chain: TaskChain,
    pub reports: Table<String>,
    pub review_raw: Option<String>,
    pub review_pass: bool,
    pub rework: usize,
    pub delivery: Option<bool>,
    pub ended: bool,
    /// The question that is not answered yet: who asks, and what.
    pub pending_ask: Option<(String, String)>,
    /// How many tools were run.
    pub tool_runs: usize,
}

#[verifier::ext_equal]
pub struct CollabV {
    pub task: Option<Seq<char>>,
    pub slate: Option<Seq<char>>,
    pub slate_confirmed: bool,
    pub begun: bool,
    pub allow: bool,
    pub picked: Seq<Seq<char>>,
    pub round: nat,
    pub present: Seq<(Seq<char>, bool)>,
    pub agreed: Seq<(Seq<char>, bool)>,
    pub closed: bool,
    pub plan_approved: bool,
    pub plan: Option<Seq<char>>,
    pub chain: Seq<NodeV>,
    pub reports: Seq<(Seq<char>, Seq<char>)>,
    pub review_raw: Option<Seq<char>>,
    pub review_pass: bool,
    pub rework: nat,
    pub delivery: Option<bool>,
    pub ended: bool,
    pub pending_ask: Option<(Seq<char>, Seq<char>)>,
    pub tool_runs: nat,
}

impl View for CollabState {
    type V = CollabV;

    open spec fn view(&self) -> CollabV {
        CollabV {
            task: text::opt_text(self.task),
            slate: text::opt_text(self.slate),
            slate_confirmed: self.slate_confirmed,
            begun: self.begun,
            allow: self.allow,
            picked: text::texts(self.picked@),
            round: self.round as nat,
            present: self.present@,
            agreed: self.agreed@,
            closed: self.closed,
            plan_approved: self.plan_approved,
            plan: text::opt_text(self.plan),
            chain: self.chain@,
            reports: table::text_entries(self.reports@),
            review_raw: text::opt_text(self.review_raw),
            review_pass: self.review_pass,
            rework: self.rework as nat,
            delivery: self.delivery,
            ended: self.ended,
            pending_ask: match self.pending_ask {
                Some(a) => Some((a.0@, a.1@)),
                None => None,
            },
            tool_runs: self.tool_runs as nat,
        }
    }
}

/// A table with one value for the first `n` of some names.
pub open spec fn with_all(t: Seq<(Seq<char>, bool)>, names: Seq<Seq<char>>, v: bool, n: int) -> Seq<
    (Seq<char>, bool),
>
    decreases n,
{
    if n <= 0 {
        t
    } else {
        table::inserted(with_all(t, names, v, n - 1), names[n - 1], v)
    }
}

fn set_all(t: &mut Table<bool>, names: &Vec<String>, v: bool)
    ensures
        final(t)@ == with_all(old(t)@, text::texts(names@), v, names@.len() as int),
{
    let ghost start = t@;
    let mut i: usize = 0;
    while i < names.len()
        invariant
            i <= names@.len(),
            t@ == with_all(start, text::texts(names@), v, i as int),
        decreases names@.len() - i,
    {
        assert(text::texts(names@)[i as int] == names@[i as int]@);
        t.insert(names[i].clone(), v);
        i = i + 1;
    }
}

/// Nobody of the roster has agreed.
pub open spec fn unagreed(st: CollabV) -> CollabV {
    CollabV { agreed: with_all(st.agreed, st.picked, false, st.picked.len() as int), ..st }
}

/// Takes back the agreement of everyone on the roster.
pub fn reset_agreed(st: &mut CollabState)
    ensures
        final(st)@ == unagreed(old(st)@),
{
    set_all(&mut st.agreed, &st.picked, false);
}

/// The state before any event.
pub open spec fn start_state(names: Seq<Seq<char>>) -> CollabV {
    let n = names.len() as int;
    CollabV {
        task: None,
        slate: None,
        slate_confirmed: false,
        begun: false,
        allow: false,
        picked: names,
        round: 0,
        present: with_all(Seq::empty(), names, true, n),
        agreed: with_all(Seq::empty(), names, false, n),
        closed: false,
        plan_approved: false,
        plan: None,
        chain: Seq::empty(),
        reports: Seq::empty(),
        review_raw: None,
        review_pass: false,
        rework: 0,
        delivery: None,
        ended: false,
        pending_ask: None,
        tool_runs: 0,
    }
}

fn start(names: &Vec<String>) -> (r: CollabState)
    ensures
        r@ == start_state(text::texts(names@)),
{
    let mut present: Table<bool> = Table::new();
    set_all(&mut present, names, true);
    let mut agreed: Table<bool> = Table::new();
    set_all(&mut agreed, names, false);
    let r = CollabState {
        task: None,
        slate: None,
        slate_confirmed: false,
        begun: false,
        allow: false,
        picked: clone_strings(names),
        round: 0,
        present,
        agreed,
        closed: false,
        plan_approved: false,
        plan: None,
        chain: TaskChain::empty(),
        reports: Table::new(),
        review_raw: None,
        review_pass: false,
        rework: 0,
        delivery: None,
        ended: false,
        pending_ask: None,
        tool_runs: 0,
    };
    assert(table::text_entries(r.reports@) =~= Seq::<(Seq<char>, Seq<char>)>::empty());
    assert(r@ =~= start_state(text::texts(names@)));
    r
}

/// What a line of the user's does to the state, and whether the discussion runs.
pub open spec fn user_line(
    st: CollabV,
    running: bool,
    verb: Seq<char>,
    text: Seq<char>,
) -> (CollabV, bool) {
    if verb == "需求"@ {
        (CollabV { task: Some(text), ..st }, running)
    } else if verb == "撤回"@ {
        (CollabV { agreed: table::inserted(st.agreed, text::trimmed(text), false), ..st }, running)
    } else if verb == "名单"@ {
        (CollabV { slate_confirmed: text::starts(text, "确认"@), ..st }, running)
    } else if verb == "同意方案"@ {
        (CollabV { plan_approved: true, ..st }, running)
    } else if verb == "开始"@ {
        (
            unagreed(
                CollabV {
                    begun: true,
                    allow: text::contains_text(text, "allow"@),
                    round: 1,
                    closed: false,
                    ..st
                },
            ),
            true,
        )
    } else {
        (CollabV { pending_ask: None, ..st }, running)
    }
}

/// What a line of a member's does to the state.
pub open spec fn member_line(
    st: CollabV,
    speaker: Seq<char>,
    verb: Seq<char>,
    text: Seq<char>,
) -> CollabV {
    if verb == "agree"@ {
        CollabV { agreed: table::inserted(st.agreed, speaker, true), ..st }
    } else if verb == "leave"@ {
        CollabV { present: table::inserted(st.present, speaker, false), ..st }
    } else if verb == "ask"@ {
        CollabV { pending_ask: Some((speaker, text)), ..st }
    } else {
        st
    }
}

/// What a line of the transcript does to the state.
pub open spec fn line_state(st: CollabV, running: bool, l: JsonV) -> (CollabV, bool) {
    let speaker = l.text_or_empty("speaker"@);
    let verb = l.text_or_empty("verb"@);
    let text = l.text_or_empty("line"@);
    if l.text_or_empty("kind"@) == "round"@ {
        (
            CollabV {
                round: match text::number_in(text) {
                    Some(n) => n,
                    None => st.round,
                },
                closed: false,
                ..st
            },
            running,
        )
    } else if speaker == "用户"@ {
        user_line(st, running, verb, text)
    } else if speaker == "代拟"@ {
        (CollabV { slate: Some(text), ..st }, running)
    } else if speaker == "core"@ {
        (CollabV { pending_ask: None, ..st }, running)
    } else if speaker.len() > 0 {
        (member_line(st, speaker, verb, text), running)
    } else {
        (st, running)
    }
}

fn take_line(st: &mut CollabState, running: bool, l: &Json) -> (r: bool)
    ensures
        (final(st)@, r) == line_state(old(st)@, running, l@),
{
    let ghost before = st@;
    let speaker = l.str_or_empty("speaker");
    let verb = l.str_or_empty("verb");
    let kind = l.str_or_empty("kind");
    let text = l.str_or_empty("line");
    let mut now = running;
    if str_eq(kind.as_str(), "round") {
        match parse_usize(text.as_str()) {
            Some(n) => {
                st.round = n;
            },
            None => {},
        }
        st.closed = false;
    } else if str_eq(speaker.as_str(), "用户") {
        if str_eq(verb.as_str(), "需求") {
            st.task = Some(text);
        } else if str_eq(verb.as_str(), "撤回") {
            st.agreed.insert(trim(text.as_str()), false);
        } else if str_eq(verb.as_str(), "名单") {
            st.slate_confirmed = starts_with(text.as_str(), "确认");
        } else if str_eq(verb.as_str(), "同意方案") {
            st.plan_approved = true;
        } else if str_eq(verb.as_str(), "开始") {
            st.begun = true;
            st.allow = has_sub(text.as_str(), "allow");
            st.round = 1;
            st.closed = false;
            reset_agreed(st);
            now = true;
        } else {
            st.pending_ask = None;
        }
    } else if str_eq(speaker.as_str(), "代拟") {
        st.slate = Some(text);
    } else if str_eq(speaker.as_str(), "core") {
        st.pending_ask = None;
    } else if speaker.as_str().unicode_len() > 0 {
        if str_eq(verb.as_str(), "agree") {
            st.agreed.insert(speaker, true);
        } else if str_eq(verb.as_str(), "leave") {
            st.present.insert(speaker, false);
        } else if str_eq(verb.as_str(), "ask") {
            st.pending_ask = Some((speaker, text));
        }
    }
    assert(st@ =~= line_state(before, running, l@).0);
    now
}

/// What the first `n` lines do to the state.
pub open spec fn lines_state(st: CollabV, running: bool, lines: Seq<JsonV>, n: int) -> (
    CollabV,
    bool,
)
    decreases n,
{
    if n <= 0 {
        (st, running)
    } else {
        let prev = lines_state(st, running, lines, n - 1);
        line_state(prev.0, prev.1, lines[n - 1])
    }
}

/// Whether an acceptance passes: it has items, and each of them does.
pub open spec fn passes(items: Seq<JsonV>) -> bool {
    items.len() > 0 && forall|k: int| 0 <= k < items.len() ==> item_passes(#[trigger] items[k])
}

pub open spec fn item_passes(i: JsonV) -> bool {
    match i.text_at("status"@) {
        Some(s) => text::same_ignoring_case(s, "pass"@),
        None => false,
    }
}

fn all_pass(items: &Vec<Json>) -> (r: bool)
    ensures
        r == passes(json::items_v(items@)),
{
    proof {
        json::lemma_items(items@);
    }
    if items.len() == 0 {
        return false;
    }
    let ghost iv = json::items_v(items@);
    let mut i: usize = 0;
    while i < items.len()
        invariant
            i <= items@.len(),
            iv == json::items_v(items@),
            iv.len() == items@.len(),
            forall|k: int| 0 <= k < items@.len() ==> #[trigger] iv[k] == items@[k]@,
            forall|k: int| 0 <= k < i ==> item_passes(#[trigger] iv[k]),
        decreases items@.len() - i,
    {
        assert(iv[i as int] == items@[i as int]@);
        let ok = match items[i].str_at("status") {
            Some(s) => eq_ignore_case(s, "pass"),
            None => false,
        };
        if !ok {
            assert(!item_passes(iv[i as int]));
            return false;
        }
        i = i + 1;
    }
    true
}

/// What an event does to the state; `chain` is the chain it holds, where it holds one.
pub open spec fn event_state(
    st: CollabV,
    running: bool,
    ev: JsonV,
    chain: Option<Seq<NodeV>>,
) -> (CollabV, bool) {
    let kind = ev.text_or_empty("type"@);
    if kind == "transcript"@ {
        match ev.array_at("lines"@) {
            Some(ls) => lines_state(st, running, ls, ls.len() as int),
            None => (st, running),
        }
    } else if kind == "discussion_done"@ {
        (CollabV { closed: true, ..st }, running)
    } else if kind == "plan"@ {
        (CollabV { plan: ev.text_at("text"@), ..st }, running)
    } else if kind == "plan_review"@ {
        match chain {
            Some(c) => if ev.get("chain"@) is Some {
                (CollabV { chain: c, ..st }, running)
            } else {
                (st, running)
            },
            None => (st, running),
        }
    } else if kind == "report"@ {
        let n = match ev.natural_at("rework"@) {
            Some(n) => text::as_size(n),
            None => 0,
        };
        (
            CollabV {
                rework: if n > st.rework {
                    n
                } else {
                    st.rework
                },
                reports: table::inserted(st.reports, ev.text_or_empty("id"@), ev.text_or_empty("text"@)),
                ..st
            },
            running,
        )
    } else if kind == "review"@ {
        (
            CollabV {
                review_pass: match ev.array_at("items"@) {
                    Some(items) => passes(items),
                    None => false,
                },
                review_raw: ev.text_at("raw"@),
                ..st
            },
            running,
        )
    } else if kind == "delivery"@ {
        (
            CollabV {
                delivery: match ev.get("ok"@) {
                    Some(v) => v.boolean(),
                    None => None,
                },
                ..st
            },
            running,
        )
    } else if kind == "ended"@ {
        (CollabV { ended: true, ..st }, running)
    } else {
        (st, running)
    }
}

impl CollabState {
    /// Takes a member's report and the number of its rework.
    pub fn report_rework(&mut self, id: String, text: String, rework: usize)
        ensures
            final(self)@ == (CollabV {
                rework: if rework > old(self)@.rework {
                    rework as nat
                } else {
                    old(self)@.rework
                },
                reports: table::inserted(old(self)@.reports, id@, text@),
                ..old(self)@
            }),
    {
        if rework > self.rework {
            self.rework = rework;
        }
        put_text(&mut self.reports, id.as_str(), text);
    }
}

fn owned(o: Option<&str>) -> (r: Option<String>)
    ensures
        match o {
            Some(s) => text::opt_text(r) == Some(s@),
            None => r is None,
        },
{
    match o {
        Some(s) => Some(s.to_owned()),
        None => None,
    }
}

fn take_event(st: &mut CollabState, running: bool, ev: &Json, chain: &Option<TaskChain>) -> (r: bool)
    ensures
        (final(st)@, r) == event_state(
            old(st)@,
            running,
            ev@,
            opt_chain(*chain),
        ),
{
    let ghost before = st@;
    let ghost cv = opt_chain(*chain);
    let kind = ev.str_or_empty("type");
    let mut now = running;
    if str_eq(kind.as_str(), "transcript") {
        match ev.array_at("lines") {
            Some(ls) => {
                let ghost lv = json::items_v(ls@);
                proof {
                    json::lemma_items(ls@);
                }
                let mut i: usize = 0;
                while i < ls.len()
                    invariant
                        i <= ls@.len(),
                        lv == json::items_v(ls@),
                        lv.len() == ls@.len(),
                        forall|k: int| 0 <= k < ls@.len() ==> #[trigger] lv[k] == ls@[k]@,
                        (st@, now) == lines_state(before, running, lv, i as int),
                    decreases ls@.len() - i,
                {
                    assert(lv[i as int] == ls@[i as int]@);
                    now = take_line(st, now, &ls[i]);
                    i = i + 1;
                }
                return now;
            },
            None => {
                return now;
            },
        }
    }
    if str_eq(kind.as_str(), "discussion_done") {
        st.closed = true;
    } else if str_eq(kind.as_str(), "plan") {
        st.plan = owned(ev.str_at("text"));
    } else if str_eq(kind.as_str(), "plan_review") {
        match chain {
            Some(c) => {
                if ev.get("chain").is_some() {
                    st.chain = c.copy();
                }
            },
            None => {},
        }
    } else if str_eq(kind.as_str(), "report") {
        let n: u64 = match ev.u64_at("rework") {
            Some(n) => n,
            None => 0,
        };
        st.report_rework(ev.str_or_empty("id"), ev.str_or_empty("text"), to_size(n));
    } else if str_eq(kind.as_str(), "review") {
        st.review_pass = match ev.array_at("items") {
            Some(items) => all_pass(items),
            None => false,
        };
        st.review_raw = owned(ev.str_at("raw"));
    } else if str_eq(kind.as_str(), "delivery") {
        st.delivery = match ev.get("ok") {
            Some(v) => v.as_bool(),
            None => None,
        };
    } else if str_eq(kind.as_str(), "ended") {
        st.ended = true;
    }
    assert(st@ =~= event_state(before, running, ev@, cv).0);
    now
}

pub open spec fn opt_chain(o: Option<TaskChain>) -> Option<Seq<NodeV>> {
    match o {
        Some(c) => Some(c@),
        None => None,
    }
}

pub open spec fn chains_v(v: Seq<Option<TaskChain>>) -> Seq<Option<Seq<NodeV>>> {
    v.map_values(|o: Option<TaskChain>| opt_chain(o))
}

/// What the first `n` events make of a state.
pub open spec fn events_state(
    st: CollabV,
    running: bool,
    events: Seq<JsonV>,
    chains: Seq<Option<Seq<NodeV>>>,
    n: int,
) -> (CollabV, bool)
    decreases n,
{
    if n <= 0 {
        (st, running)
    } else {
        let prev = events_state(st, running, events, chains, n - 1);
        event_state(prev.0, prev.1, events[n - 1], chains[n - 1])
    }
}

/// Whether everyone on the roster is still there and has agreed.
pub open spec fn unanimous(st: CollabV) -> bool {
    st.picked.len() > 0 && forall|k: int|
        0 <= k < st.picked.len() ==> there_and_agreed(st, #[trigger] st.picked[k])
}

pub open spec fn there_and_agreed(st: CollabV, id: Seq<char>) -> bool {
    table::lookup(st.present, id) != Some(false) && table::lookup(st.agreed, id) == Some(true)
}

fn all_agreed(st: &CollabState) -> (r: bool)
    ensures
        r == unanimous(st@),
{
    if st.picked.len() == 0 {
        return false;
    }
    let mut i: usize = 0;
    while i < st.picked.len()
        invariant
            i <= st.picked@.len(),
            forall|k: int| 0 <= k < i ==> there_and_agreed(st@, #[trigger] st@.picked[k]),
        decreases st.picked@.len() - i,
    {
        let id = st.picked[i].as_str();
        assert(st@.picked[i as int] == id@);
        let there = match st.present.get(id) {
            Some(b) => *b,
            None => true,
        };
        let yes = match st.agreed.get(id) {
            Some(b) => *b,
            None => false,
        };
        if !there || !yes {
            assert(!there_and_agreed(st@, st@.picked[i as int]));
            return false;
        }
        i = i + 1;
    }
    true
}

/// How many of the first `n` lines are calls of tools.
pub open spec fn tool_lines(lines: Seq<JsonV>, n: int) -> nat
    decreases n,
{
    if n <= 0 {
        0
    } else {
        tool_lines(lines, n - 1) + if lines[n - 1].get("tool"@) is Some {
            1nat
        } else {
            0
        }
    }
}

pub open spec fn tools_in(ev: JsonV) -> nat {
    if ev.text_at("type"@) == Some("transcript"@) {
        match ev.array_at("lines"@) {
            Some(ls) => tool_lines(ls, ls.len() as int),
            None => 0,
        }
    } else {
        0
    }
}

/// How many lines of the first `n` events are calls of tools.
pub open spec fn tool_count(events: Seq<JsonV>, n: int) -> nat
    decreases n,
{
    if n <= 0 {
        0
    } else {
        tool_count(events, n - 1) + tools_in(events[n - 1])
    }
}

fn count_tools(ls: &Vec<Json>) -> (n: usize)
    ensures
        n == tool_lines(json::items_v(ls@), ls@.len() as int),
{
    let ghost lv = json::items_v(ls@);
    proof {
        json::lemma_items(ls@);
    }
    let mut n: usize = 0;
    let mut i: usize = 0;
    while i < ls.len()
        invariant
            i <= ls@.len(),
            lv == json::items_v(ls@),
            lv.len() == ls@.len(),
            forall|k: int| 0 <= k < ls@.len() ==> #[trigger] lv[k] == ls@[k]@,
            n == tool_lines(lv, i as int),
            n <= i,
        decreases ls@.len() - i,
    {
        assert(lv[i as int] == ls@[i as int]@);
        assert(i < ls.len());
        if ls[i].get("tool").is_some() {
            n = n + 1;
        }
        i = i + 1;
    }
    n
}

/// How many tools were run: the lines of the transcript that are calls of tools.
pub fn tool_runs(events: &Vec<Json>) -> (n: usize)
    ensures
        n == text::as_size(tool_count(json::items_v(events@), events@.len() as int)),
{
    let ghost ev = json::items_v(events@);
    proof {
        json::lemma_items(events@);
    }
    let mut n: usize = 0;
    let mut i: usize = 0;
    while i < events.len()
        invariant
            i <= events@.len(),
            ev == json::items_v(events@),
            ev.len() == events@.len(),
            forall|k: int| 0 <= k < events@.len() ==> #[trigger] ev[k] == events@[k]@,
            n == text::as_size(tool_count(ev, i as int)),
        decreases events@.len() - i,
    {
        assert(ev[i as int] == events@[i as int]@);
        let spoken = match events[i].str_at("type") {
            Some(s) => str_eq(s, "transcript"),
            None => false,
        };
        if spoken {
            match events[i].array_at("lines") {
                Some(ls) => {
                    proof {
                        json::lemma_items(ls@);
                    }
                    let k = count_tools(ls);
                    n = if k <= usize::MAX - n {
                        n + k
                    } else {
                        usize::MAX
                    };
                },
                None => {},
            }
        }
        i = i + 1;
    }
    n
}

/// The state the events of a session lead to. A discussion that runs is over once
/// everyone on the roster is there and has agreed.
pub open spec fn derived(
    events: Seq<JsonV>,
    chains: Seq<Option<Seq<NodeV>>>,
    names: Seq<Seq<char>>,
) -> CollabV {
    let n = events.len() as int;
    let end = events_state(start_state(names), false, events, chains, n);
    let st = CollabV { tool_runs: text::as_size(tool_count(events, n)), ..end.0 };
    if end.1 && !st.closed && unanimous(st) {
        CollabV { closed: true, ..st }
    } else {
        st
    }
}

/// Reads the state off the events. `names` is the roster of the session, `chains`
/// holds for each event the chain it carries, where that can be read.
pub fn derive(events: &Vec<Json>, chains: &Vec<Option<TaskChain>>, names: &Vec<String>) -> (r:
    CollabState)
    requires
        chains@.len() == events@.len(),
    ensures
        r@ == derived(json::items_v(events@), chains_v(chains@), text::texts(names@)),
{
    let ghost ev = json::items_v(events@);
    let ghost cv = chains_v(chains@);
    let ghost nv = text::texts(names@);
    proof {
        json::lemma_items(events@);
    }
    let mut st = start(names);
    let mut running = false;
    let mut i: usize = 0;
    while i < events.len()
        invariant
            i <= events@.len(),
            chains@.len() == events@.len(),
            ev == json::items_v(events@),
            cv == chains_v(chains@),
            ev.len() == events@.len(),
            forall|k: int| 0 <= k < events@.len() ==> #[trigger] ev[k] == events@[k]@,
            (st@, running) == events_state(start_state(nv), false, ev, cv, i as int),
        decreases events@.len() - i,
    {
        assert(ev[i as int] == events@[i as int]@);
        assert(cv[i as int] == opt_chain(chains@[i as int]));
        running = take_event(&mut st, running, &events[i], &chains[i]);
        i = i + 1;
    }
    st.tool_runs = tool_runs(events);
    if running && !st.closed && all_agreed(&st) {
        st.closed = true;
    }
    st
}

// ---- laws ----

/// Events taken in two parts give what they give in one: a session can be taken up
/// from the state it broke off in.
pub proof fn events_can_be_taken_in_parts(
    st: CollabV,
    running: bool,
    events: Seq<JsonV>,
    chains: Seq<Option<Seq<NodeV>>>,
    n: int,
    m: int,
)
    requires
        0 <= n <= m <= events.len(),
        events.len() == chains.len(),
    ensures
        ({
            let mid = events_state(st, running, events, chains, n);
            events_state(st, running, events, chains, m) == events_state(
                mid.0,
                mid.1,
                events.skip(n),
                chains.skip(n),
                m - n,
            )
        }),
    decreases m - n,
{
    if n < m {
        events_can_be_taken_in_parts(st, running, events, chains, n, m - 1);
        assert(events.skip(n)[m - 1 - n] == events[m - 1]);
        assert(chains.skip(n)[m - 1 - n] == chains[m - 1]);
    }
}

/// A new round does not take back an agreement: neither does any line of a member's.
pub proof fn agreement_is_sticky(st: CollabV, running: bool, l: JsonV, id: Seq<char>)
    requires
        table::ascending(st.agreed),
        table::lookup(st.agreed, id) == Some(true),
        l.text_or_empty("kind"@) == "round"@ || l.text_or_empty("speaker"@) != "用户"@,
    ensures
        table::lookup(line_state(st, running, l).0.agreed, id) == Some(true),
{
    table::inserting(st.agreed, l.text_or_empty("speaker"@), true);
}

/// What was ended stays ended.
pub proof fn the_end_is_final(
    st: CollabV,
    running: bool,
    ev: JsonV,
    chain: Option<Seq<NodeV>>,
)
    requires
        st.ended,
    ensures
        event_state(st, running, ev, chain).0.ended,
{
    match ev.array_at("lines"@) {
        Some(ls) => {
            lemma_lines_keep_the_end(st, running, ls, ls.len() as int);
        },
        None => {},
    }
}

proof fn lemma_lines_keep_the_end(st: CollabV, running: bool, lines: Seq<JsonV>, n: int)
    ensures
        lines_state(st, running, lines, n).0.ended == st.ended,
    decreases n,
{
    if n > 0 {
        lemma_lines_keep_the_end(st, running, lines, n - 1);
    }
}

proof fn lemma_kinds_differ()
    ensures
        "plan"@ != "idle"@,
        "report"@ != "review"@,
        "report"@ != "notice"@,
        "review"@ != "notice"@,
        "delivery"@ != "decision"@,
        "ended"@ != "delta"@,
{
    reveal_strlit("plan");
    assert("plan"@.len() == 4);
    reveal_strlit("idle");
    assert("idle"@.len() == 4);
    reveal_strlit("report");
    assert("report"@.len() == 6);
    reveal_strlit("review");
    assert("review"@.len() == 6);
    reveal_strlit("notice");
    assert("notice"@.len() == 6);
    reveal_strlit("delivery");
    assert("delivery"@.len() == 8);
    reveal_strlit("decision");
    assert("decision"@.len() == 8);
    reveal_strlit("ended");
    assert("ended"@.len() == 5);
    reveal_strlit("delta");
    assert("delta"@.len() == 5);
    assert("plan"@[0] != "idle"@[0]);
    assert("report"@[2] != "review"@[2]);
    assert("report"@[0] != "notice"@[0]);
    assert("review"@[0] != "notice"@[0]);
    assert("delivery"@[2] != "decision"@[2]);
    assert("ended"@[0] != "delta"@[0]);
}

/// What was written of a work is what the work is found in again: that its discussion is
/// done, its plan, its reports, its review, its delivery and its end, each as it was; and
/// what only shows or tells changes nothing.
pub proof fn what_happened_is_found_again(
    st: CollabV,
    running: bool,
    e: EventV,
    chain: Option<Seq<NodeV>>,
    k: int,
)
    requires
        table::ascending(st.reports),
    ensures
        ({
            let a = event_state(st, running, events::event_json(e), chain);
            let n = a.0;
            match e {
                EventV::DiscussionDone { round, over_cap } => n.closed && n.agreed == st.agreed && n.present
                    == st.present && n.round == st.round,
                EventV::Plan(s) => n.plan == Some(s) && n.plan_approved == st.plan_approved && n.chain == st.chain,
                EventV::PlanReview { plan, chain: c } => (chain is Some ==> n.chain == chain->0) && n.plan_approved
                    == st.plan_approved && n.plan == st.plan,
                EventV::Report { id, text, rework } => table::lookup(n.reports, id) == Some(text) && n.ended
                    == st.ended && n.delivery == st.delivery,
                EventV::Review { items, raw } => n.review_raw == Some(raw) && (n.review_pass && 0 <= k
                    < items.len() ==> text::same_ignoring_case(items[k].status, "pass"@)) && (items.len() == 0
                    ==> !n.review_pass),
                EventV::Delivery { ok, over_rework } => n.delivery == Some(ok) && n.ended == st.ended,
                EventV::Ended => n.ended && n.delivery == st.delivery,
                EventV::Transcript(_) => true,
                _ => a == (st, running),
            }
        }),
        !(e is Transcript) ==> event_state(st, running, events::event_json(e), chain).1 == running,
{
    events::events_tell_what_happened(e);
    reveal_strlit("transcript");
    assert("transcript"@.len() == 10);
    reveal_strlit("discussion_done");
    assert("discussion_done"@.len() == 15);
    reveal_strlit("plan");
    assert("plan"@.len() == 4);
    reveal_strlit("plan_review");
    assert("plan_review"@.len() == 11);
    reveal_strlit("report");
    assert("report"@.len() == 6);
    reveal_strlit("review");
    assert("review"@.len() == 6);
    reveal_strlit("delivery");
    assert("delivery"@.len() == 8);
    reveal_strlit("ended");
    assert("ended"@.len() == 5);
    reveal_strlit("notice");
    assert("notice"@.len() == 6);
    reveal_strlit("compacted");
    assert("compacted"@.len() == 9);
    reveal_strlit("tool_call");
    assert("tool_call"@.len() == 9);
    reveal_strlit("delta");
    assert("delta"@.len() == 5);
    reveal_strlit("decision");
    assert("decision"@.len() == 8);
    reveal_strlit("working");
    assert("working"@.len() == 7);
    reveal_strlit("idle");
    assert("idle"@.len() == 4);
    lemma_kinds_differ();
    match e {
        EventV::Report { id, text, rework } => {
            table::inserting(st.reports, id, text);
        },
        EventV::Review { items, raw } => {
            let j = events::event_json(e).array_at("items"@)->0;
            if passes(j) && 0 <= k < items.len() {
                assert(item_passes(j[k]));
                reveal_strlit("item");
                assert("item"@.len() == 4);
                reveal_strlit("note");
                assert("note"@.len() == 4);
                reveal_strlit("status");
                assert("status"@.len() == 6);
                reveal_with_fuel(crate::json::member_from, 4);
                assert(j[k] == events::check_json_v(items[k]));
                assert(j[k].text_at("status"@) == Some(items[k].status));
            }
        },
        _ => {},
    }
}

proof fn lemma_verbs_differ()
    ensures
        "agree"@ != "leave"@,
        "需求"@ != "撤回"@,
        "需求"@ != "名单"@,
        "需求"@ != "开始"@,
        "撤回"@ != "名单"@,
        "撤回"@ != "开始"@,
        "名单"@ != "开始"@,
        "代拟"@ != "用户"@,
{
    reveal_strlit("agree");
    reveal_strlit("leave");
    reveal_strlit("需求");
    reveal_strlit("撤回");
    reveal_strlit("名单");
    reveal_strlit("开始");
    reveal_strlit("代拟");
    reveal_strlit("用户");
    assert("agree"@[0] != "leave"@[0]);
    assert("需求"@[0] != "撤回"@[0]);
    assert("需求"@[0] != "名单"@[0]);
    assert("需求"@[0] != "开始"@[0]);
    assert("撤回"@[0] != "名单"@[0]);
    assert("撤回"@[0] != "开始"@[0]);
    assert("名单"@[0] != "开始"@[0]);
    assert("代拟"@[0] != "用户"@[0]);
}

/// A member's stand is found again in what was written: whoever left is not there,
/// whoever agreed has agreed, whoever asks waits for the answer; the others stay as they
/// were.
pub proof fn stands_are_found_again(st: CollabV, running: bool, l: LineV, other: Seq<char>)
    requires
        table::ascending(st.present),
        table::ascending(st.agreed),
        l.kind != "round"@,
        l.speaker.len() > 0,
        l.speaker != "用户"@,
        l.speaker != "代拟"@,
        l.speaker != "core"@,
    ensures
        ({
            let a = line_state(st, running, events::line_json_v(l));
            let n = a.0;
            &&& l.verb == "leave"@ ==> table::lookup(n.present, l.speaker) == Some(false) && n.agreed == st.agreed
            &&& l.verb == "agree"@ ==> table::lookup(n.agreed, l.speaker) == Some(true) && n.present == st.present
            &&& l.verb == "ask"@ ==> n.pending_ask == Some((l.speaker, l.line)) && n.present == st.present
                && n.agreed == st.agreed
            &&& l.verb != "leave"@ && l.verb != "agree"@ && l.verb != "ask"@ ==> n == st
            &&& other != l.speaker ==> table::lookup(n.present, other) == table::lookup(st.present, other)
                && table::lookup(n.agreed, other) == table::lookup(st.agreed, other)
            &&& n.round == st.round && n.task == st.task && n.closed == st.closed && n.plan_approved
                == st.plan_approved
            &&& a.1 == running
        }),
{
    events::lines_tell_what_was_said(l);
    lemma_verbs_differ();
    reveal_strlit("agree");
    assert("agree"@.len() == 5);
    reveal_strlit("leave");
    assert("leave"@.len() == 5);
    reveal_strlit("ask");
    assert("ask"@.len() == 3);
    table::inserting(st.present, l.speaker, false);
    table::inserting(st.agreed, l.speaker, true);
}

/// What the user said is found again: the task, the approval, the taking back, what was
/// answered; and a beginning begins the first round, with nobody having agreed.
pub proof fn the_users_words_are_found_again(st: CollabV, running: bool, t: Seq<char>, k: int)
    requires
        table::ascending(st.agreed),
    ensures
        ({
            let task = line_state(st, running, events::line_json_v(events::user_line("需求"@, t)));
            let approval = line_state(st, running, events::line_json_v(events::user_line("同意方案"@, t)));
            let back = line_state(st, running, events::line_json_v(events::user_line("撤回"@, t)));
            let begin = line_state(st, running, events::line_json_v(events::user_line("开始"@, t)));
            let answer = line_state(st, running, events::line_json_v(events::user_line(Seq::empty(), t)));
            &&& task.0.task == Some(t) && task.1 == running && task.0.plan_approved == st.plan_approved
                && task.0.begun == st.begun
            &&& approval.0.plan_approved && approval.1 == running && approval.0.plan == st.plan
            &&& table::lookup(back.0.agreed, text::trimmed(t)) == Some(false) && back.1 == running
            &&& begin.0.begun && begin.0.round == 1 && !begin.0.closed && begin.1 && begin.0.allow
                == text::contains_text(t, "allow"@) && begin.0.present == st.present
            &&& 0 <= k < st.picked.len() ==> table::lookup(begin.0.agreed, st.picked[k]) == Some(false)
            &&& answer.0.pending_ask is None && answer.0.agreed == st.agreed && answer.0.task == st.task
        }),
{
    events::lines_tell_what_was_said(events::user_line("需求"@, t));
    events::lines_tell_what_was_said(events::user_line("同意方案"@, t));
    events::lines_tell_what_was_said(events::user_line("撤回"@, t));
    events::lines_tell_what_was_said(events::user_line("开始"@, t));
    events::lines_tell_what_was_said(events::user_line(Seq::empty(), t));
    lemma_verbs_differ();
    reveal_strlit("需求");
    assert("需求"@.len() == 2);
    reveal_strlit("撤回");
    assert("撤回"@.len() == 2);
    reveal_strlit("名单");
    assert("名单"@.len() == 2);
    reveal_strlit("开始");
    assert("开始"@.len() == 2);
    reveal_strlit("同意方案");
    assert("同意方案"@.len() == 4);
    reveal_strlit("user");
    assert("user"@.len() == 4);
    reveal_strlit("round");
    assert("round"@.len() == 5);
    table::inserting(st.agreed, text::trimmed(t), false);
    if 0 <= k < st.picked.len() {
        lemma_all_set(st.agreed, st.picked, false, st.picked.len() as int, k);
    }
}

proof fn lemma_all_set(t: Seq<(Seq<char>, bool)>, names: Seq<Seq<char>>, v: bool, n: int, k: int)
    requires
        table::ascending(t),
        0 <= n <= names.len(),
    ensures
        table::ascending(with_all(t, names, v, n)),
        0 <= k < n ==> table::lookup(with_all(t, names, v, n), names[k]) == Some(v),
    decreases n,
{
    if n > 0 {
        lemma_all_set(t, names, v, n - 1, k);
        table::inserting(with_all(t, names, v, n - 1), names[n - 1], v);
    }
}

/// A work begins with everybody there and nobody having agreed.
pub proof fn works_begin_with_everybody(names: Seq<Seq<char>>, k: int)
    requires
        0 <= k < names.len(),
    ensures
        table::lookup(start_state(names).present, names[k]) == Some(true),
        table::lookup(start_state(names).agreed, names[k]) == Some(false),
        !start_state(names).begun && !start_state(names).closed && !start_state(names).plan_approved
            && !start_state(names).ended,
{
    let n = names.len() as int;
    lemma_all_set(Seq::empty(), names, true, n, k);
    lemma_all_set(Seq::empty(), names, false, n, k);
}

/// The number of a round is found again, and a new round is open.
pub proof fn rounds_are_found_again(st: CollabV, running: bool, n: nat)
    requires
        n <= usize::MAX,
    ensures
        line_state(st, running, events::line_json_v(events::round_line(n))).0.round == n,
        !line_state(st, running, events::line_json_v(events::round_line(n))).0.closed,
        line_state(st, running, events::line_json_v(events::round_line(n))).0.agreed == st.agreed,
{
    events::lines_tell_what_was_said(events::round_line(n));
    text::decimals_are_read_back(n);
}

/// A discussion that runs is closed once everybody there has agreed, and not before it
/// was said to be done.
pub proof fn agreeing_closes_a_discussion(
    events: Seq<JsonV>,
    chains: Seq<Option<Seq<NodeV>>>,
    names: Seq<Seq<char>>,
    k: int,
)
    ensures
        ({
            let end = events_state(start_state(names), false, events, chains, events.len() as int);
            let d = derived(events, chains, names);
            &&& end.0.closed ==> d.closed
            &&& !end.1 ==> d.closed == end.0.closed
            &&& end.1 && end.0.picked.len() > 0 && (forall|i: int|
                0 <= i < end.0.picked.len() ==> there_and_agreed(end.0, #[trigger] end.0.picked[i])) ==> d.closed
            &&& !end.0.closed && 0 <= k < end.0.picked.len() && table::lookup(end.0.agreed, end.0.picked[k])
                != Some(true) ==> !d.closed
            &&& d.plan == end.0.plan && d.present == end.0.present && d.agreed == end.0.agreed && d.round
                == end.0.round && d.ended == end.0.ended
        }),
{
    let end = events_state(start_state(names), false, events, chains, events.len() as int);
    let st = CollabV { tool_runs: text::as_size(tool_count(events, events.len() as int)), ..end.0 };
    assert forall|id: Seq<char>| #[trigger] there_and_agreed(st, id) == there_and_agreed(end.0, id) by {}
    assert(st.picked == end.0.picked);
    if end.1 && end.0.picked.len() > 0 && (forall|i: int|
        0 <= i < end.0.picked.len() ==> there_and_agreed(end.0, #[trigger] end.0.picked[i])) {
        assert forall|i: int| 0 <= i < st.picked.len() implies there_and_agreed(st, #[trigger] st.picked[i]) by {
            assert(there_and_agreed(end.0, end.0.picked[i]));
        }
        assert(unanimous(st));
    }
    if 0 <= k < end.0.picked.len() && table::lookup(end.0.agreed, end.0.picked[k]) != Some(true) {
        assert(!there_and_agreed(st, st.picked[k]));
    }
}

} // verus!
