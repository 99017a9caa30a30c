//! How a team's work is driven: what is done with what the user says, and with each
//! turn of a member.
use crate::chain::{self, NodeV, TaskNode};
use crate::collab::{self, Assembled, CollabSession, Step, StepV, WorkV};
use crate::converse::{self, verb_tag};
use crate::discussion::{self, AfterTurn, MemberTurn, MemberTurnV};
use crate::envelope::Verb;
use crate::events::{self, EventV, Pending, SessionEvent, interrupted_note};
use crate::history::{self, AgentMeta, AgentMetaV, SessionMeta, SessionMetaV, modules_of_agents};
use crate::module::{Module, Roster};
use crate::prompt::{self, Prompts};
use crate::providers::Settings;
use crate::text::{self, cat2, cat3, has_sub, str_eq};
use crate::work::CollabStep;
use vstd::prelude::*;

verus! {

/// What a team's session is handed out for.
#[derive(Debug, Clone, Copy, PartialEq, Eq, Structural)]
pub enum CollabWork {
    Step(CollabStep),
    Resume,
}

/// How many turns are driven in one go; reminders end long before.
pub const TURN_GUARD: u32 = 500;

/// The session of an agent of a work.
pub open spec fn child_of(sid: Seq<char>, agent: Seq<char>) -> Seq<char> {
    sid + "--"@ + agent
}

/// The name of the session of an agent of a work.
pub fn child_name(sid: &str, agent: &str) -> (r: String)
    ensures
        r@ == child_of(sid@, agent@),
{
    cat3(sid, "--", agent)
}

/// How a stand is noted in the session of the one that took it.
pub open spec fn tag_of(v: Option<Verb>) -> Seq<char> {
    match v {
        Some(v) => converse::verb_text(v),
        None => "未表态"@,
    }
}

pub fn stand_tag(v: Option<Verb>) -> (r: &'static str)
    ensures
        r@ == tag_of(v),
{
    match v {
        Some(v) => verb_tag(v),
        None => "未表态",
    }
}

/// What the user is told when a summary they asked for was not made.
pub fn compact_note(why: &str) -> (r: String)
    ensures
        r@ == events::interrupted_text("压缩没成功："@ + why@),
{
    interrupted_note(cat2("压缩没成功：", why).as_str())
}

// ---- the agents of a work ----

/// Those of the first `n` agents that have a name.
pub open spec fn agents_named(v: Seq<AgentMetaV>, name: Seq<char>, n: int) -> Seq<AgentMetaV>
    decreases n,
{
    if n <= 0 {
        Seq::empty()
    } else if v[n - 1].name == name {
        agents_named(v, name, n - 1).push(v[n - 1])
    } else {
        agents_named(v, name, n - 1)
    }
}

/// The record of the session an agent of a work has: it is alone in it, with its own
/// modules, in the directories of the work.
pub fn child_record(meta: &SessionMeta, agent: &str) -> (r: SessionMeta)
    ensures
        ({
            let agents = agents_named(meta@.agents, agent@, meta@.agents.len() as int);
            r@ == (SessionMetaV {
                name: child_of(meta@.name, agent@),
                mode: "single"@,
                modules: history::flat_modules(agents),
                agents,
                parent: Some(meta@.name),
                ..meta@
            })
        }),
{
    let mut own: Vec<AgentMeta> = Vec::new();
    let ghost av = meta@.agents;
    let mut i: usize = 0;
    assert(av.len() == meta.agents@.len());
    assert(history::agents_v(own@) =~= agents_named(av, agent@, 0));
    while i < meta.agents.len()
        invariant
            i <= meta.agents@.len(),
            av == history::agents_v(meta.agents@),
            history::agents_v(own@) == agents_named(av, agent@, i as int),
        decreases meta.agents@.len() - i,
    {
        assert(av[i as int] == meta.agents@[i as int]@);
        if str_eq(meta.agents[i].name.as_str(), agent) {
            let ghost before = own@;
            let a = meta.agents[i].copy();
            own.push(a);
            assert(history::agents_v(own@) =~= history::agents_v(before).push(a@));
        }
        i = i + 1;
    }
    let mut r = meta.copy();
    r.name = child_name(meta.name.as_str(), agent);
    r.mode = "single".to_owned();
    r.modules = modules_of_agents(&own);
    r.agents = own;
    r.parent = Some(meta.name.clone());
    r
}

/// Whether these nodes are the ones to be started: once the plan is approved and
/// nobody is waited for, those of the first stage that has not passed which were not
/// started yet.
pub open spec fn to_start(w: WorkV, nodes: Seq<NodeV>) -> bool {
    if !w.approved || collab::awaiting(w) || w.done || w.chain is None {
        nodes.len() == 0
    } else {
        (nodes.len() == 0 && all_passed(w.chain->0)) || (exists|s: nat| #[trigger]
            left_of(w.chain->0, nodes, s))
    }
}

/// Whether every stage has passed.
pub open spec fn all_passed(c: Seq<NodeV>) -> bool {
    forall|t: nat| 1 <= t <= chain::top_stage(c) ==> #[trigger] chain::passed(c, t)
}

/// Whether these are the nodes not yet started of the stage at hand, and it is this one.
pub open spec fn left_of(c: Seq<NodeV>, nodes: Seq<NodeV>, s: nat) -> bool {
    is_current(c, s) && nodes == chain::pending_of(chain::in_stage(c, s))
}

/// Whether a stage is the first that has not passed.
pub open spec fn is_current(c: Seq<NodeV>, s: nat) -> bool {
    1 <= s <= chain::top_stage(c) && !chain::passed(c, s) && forall|t: nat|
        1 <= t < s ==> #[trigger] chain::passed(c, t)
}

/// The nodes to be started.
pub fn ready_nodes(c: &CollabSession) -> (r: Vec<&TaskNode>)
    ensures
        to_start(c@, chain::refs_v(r@)),
{
    let none: Vec<&TaskNode> = Vec::new();
    assert(chain::refs_v(none@).len() == 0);
    if !c.plan_approved() || c.awaiting_user() || c.is_done() {
        return none;
    }
    match c.chain() {
        Some(k) => match k.current_stage() {
            Some(s) => {
                let r = k.stage_ready(s);
                assert(c@.chain == Some(k@));
                let ghost n = s as nat;
                assert(is_current(k@, n));
                assert(chain::refs_v(r@) == chain::pending_of(chain::in_stage(k@, n)));
                assert(c@.approved && !collab::awaiting(c@) && !c@.done);
                assert(left_of(c@.chain->0, chain::refs_v(r@), n));
                assert(to_start(c@, chain::refs_v(r@)));
                r
            },
            None => {
                assert(c@.chain == Some(k@));
                assert(to_start(c@, chain::refs_v(none@)));
                none
            },
        },
        None => {
            assert(c@.chain is None);
            none
        },
    }
}

// ---- what the user says ----

/// What is made of what a session was handed out for.
pub open spec fn begun(
    p: Prompts,
    s: Settings,
    modules: Seq<Module>,
    c: CollabSession,
    work: CollabWork,
    text: Seq<char>,
    made: Result<Assembled, String>,
    demo: bool,
) -> (WorkV, StepV, Seq<EventV>) {
    match work {
        CollabWork::Step(CollabStep::Begin) => collab::with_begin(
            p,
            c@,
            text::contains_text(text, "allow"@),
            made,
            demo,
        ),
        CollabWork::Step(CollabStep::Answer) => collab::with_decision(
            p,
            c@,
            text,
            c.team_words(p.core.refs, text),
        ),
        CollabWork::Step(CollabStep::ApprovePlan) => {
            let a = collab::with_approval(c@);
            let b = collab::with_resume(p, s, modules, a.0);
            (b.0, b.1, seq![a.1] + b.2)
        },
        CollabWork::Step(_) => (c@, StepV::Wait, Seq::empty()),
        CollabWork::Resume => collab::with_resume(p, s, modules, c@),
    }
}

/// Does what a session was handed out for. `made` is the team, where it begins.
pub fn start_work(
    c: &mut CollabSession,
    prompts: &Prompts,
    settings: &Settings,
    modules: &Roster,
    work: CollabWork,
    text: &str,
    made: Result<Assembled, String>,
    demo: bool,
) -> (r: (Step, Vec<SessionEvent>))
    requires
        prompt::book_sound(*prompts),
        collab::work_sound(old(c)@),
    ensures
        collab::handed_kept(final(c)@),
        (final(c)@, r.0@, events::events_v(r.1@)) == begun(
            *prompts,
            *settings,
            modules.modules@,
            *old(c),
            work,
            text@,
            made,
            demo,
        ),
{
    match work {
        CollabWork::Step(step) => match step {
            CollabStep::Begin => c.begin(prompts, has_sub(text, "allow"), made, demo),
            CollabStep::Answer => c.decide(prompts, text),
            CollabStep::ApprovePlan => {
                let e = c.approve_plan();
                let (step, more) = c.resume(prompts, settings, modules);
                let ghost mv = more@;
                let mut out: Vec<SessionEvent> = Vec::new();
                out.push(e);
                let ghost first = out@;
                let mut more = more;
                out.append(&mut more);
                proof {
                    assert(events::events_v(first) =~= seq![e@]);
                    assert(out@ =~= first + mv);
                    assert(events::events_v(out@) =~= seq![e@] + events::events_v(mv));
                }
                (step, out)
            },
            _ => {
                let out: Vec<SessionEvent> = Vec::new();
                assert(events::events_v(out@) =~= Seq::empty());
                (Step::Wait, out)
            },
        },
        CollabWork::Resume => c.resume(prompts, settings, modules),
    }
}

// ---- a member's turn ----

/// What comes of a member's turn.
#[derive(Debug)]
pub struct TurnEnd {
    /// What is to be done next.
    pub step: Step,
    pub events: Vec<SessionEvent>,
    /// What the member is told in its own session, where it took no stand.
    pub reminder: Option<String>,
}

#[verifier::ext_equal]
pub struct TurnEndV {
    pub step: StepV,
    pub events: Seq<EventV>,
    pub reminder: Option<Seq<char>>,
}

impl View for TurnEnd {
    type V = TurnEndV;

    open spec fn view(&self) -> TurnEndV {
        TurnEndV {
            step: self.step@,
            events: events::events_v(self.events@),
            reminder: text::opt_text(self.reminder),
        }
    }
}

/// What is said when a work was driven for too long.
pub open spec fn guard_text() -> Seq<char> {
    "[警告] 讨论推进次数异常（已到安全上限），已停下等用户处理"@
}

/// What comes of a turn before it is counted: one with a stand is taken; one without
/// is asked again, or passed over.
pub open spec fn turn_ended(
    p: Prompts,
    w: WorkV,
    i: int,
    t: MemberTurnV,
    turn_id: u64,
    cancelled: bool,
    remind_cap: u32,
) -> (WorkV, TurnEndV) {
    let a = discussion::after(w.disc->0, i, t.verb is Some, cancelled, remind_cap);
    let now = WorkV { disc: Some(a.0), ..w };
    match a.1 {
        AfterTurn::Done => {
            let f = collab::with_turn(p, now, i, t, turn_id);
            (f.0, TurnEndV { step: f.1, events: f.2, reminder: None })
        },
        AfterTurn::Remind => (
            now,
            TurnEndV {
                step: StepV::Again,
                events: Seq::empty(),
                reminder: Some(p.core.tool_texts.discuss_reminder@),
            },
        ),
        AfterTurn::Unanswered => {
            let f = collab::with_silence(now, i);
            (f.0, TurnEndV { step: StepV::Again, events: f.1, reminder: None })
        },
    }
}

/// What comes of the `n`th turn of one go: after too many the work is let rest.
pub open spec fn turn_counted(e: TurnEndV, n: u32) -> TurnEndV {
    if n >= TURN_GUARD {
        TurnEndV {
            step: StepV::Wait,
            events: e.events.push(EventV::Notice(guard_text())),
            ..e
        }
    } else {
        e
    }
}

/// Takes a member's turn, the `n`th of one go, counted from none.
pub fn end_turn(
    c: &mut CollabSession,
    prompts: &Prompts,
    i: usize,
    turn: MemberTurn,
    turn_id: u64,
    cancelled: bool,
    remind_cap: u32,
    n: u32,
) -> (r: TurnEnd)
    requires
        prompt::book_sound(*prompts),
        collab::work_sound(old(c)@),
        old(c)@.disc is Some,
        i < (old(c)@.disc->0).members.len(),
    ensures
        collab::handed_kept(final(c)@),
        ({
            let e = turn_ended(
                *prompts,
                old(c)@,
                i as int,
                turn@,
                turn_id,
                cancelled,
                remind_cap,
            );
            final(c)@ == e.0 && r@ == turn_counted(e.1, n)
        }),
{
    let has_verb = turn.verb.is_some();
    let mut end = match c.after_member_turn(i, has_verb, cancelled, remind_cap) {
        AfterTurn::Done => {
            let (step, events) = c.feed_with(prompts, i, turn, turn_id);
            TurnEnd { step, events, reminder: None }
        },
        AfterTurn::Remind => {
            let events: Vec<SessionEvent> = Vec::new();
            assert(events::events_v(events@) =~= Seq::empty());
            TurnEnd { step: Step::Again, events, reminder: Some(c.reminder_text(prompts)) }
        },
        AfterTurn::Unanswered => {
            let events = c.pass_over(i);
            TurnEnd { step: Step::Again, events, reminder: None }
        },
    };
    if n >= TURN_GUARD {
        let ghost before = end.events@;
        end.events.push(
            SessionEvent::Notice(
                "[警告] 讨论推进次数异常（已到安全上限），已停下等用户处理".to_owned(),
            ),
        );
        end.step = Step::Wait;
        assert(events::events_v(end.events@) =~= events::events_v(before).push(EventV::Notice(guard_text())));
    }
    end
}

/// Whoever takes no stand is not counted as having taken one: its turn leaves what
/// the members agreed to as it was.
pub proof fn silence_is_no_stand(
    p: Prompts,
    w: WorkV,
    i: int,
    t: MemberTurnV,
    turn_id: u64,
    cancelled: bool,
    remind_cap: u32,
    k: int,
)
    requires
        w.disc is Some,
        0 <= i < (w.disc->0).members.len(),
        0 <= k < (w.disc->0).members.len(),
        t.verb is None,
        !cancelled,
    ensures
        ({
            let e = turn_ended(p, w, i, t, turn_id, cancelled, remind_cap);
            e.0.disc is Some && (e.0.disc->0).members[k].agreed == (w.disc->0).members[k].agreed
        }),
{
}

/// The last line there is in the first `n` of some events, as it reads; nothing where
/// there is none.
pub open spec fn last_line(v: Seq<EventV>, n: int) -> Seq<char>
    decreases n,
{
    if n <= 0 {
        Seq::empty()
    } else {
        match v[n - 1] {
            EventV::Transcript(lines) => if lines.len() > 0 {
                events::line_text(lines.last())
            } else {
                last_line(v, n - 1)
            },
            _ => last_line(v, n - 1),
        }
    }
}

/// What a node reports: the last line of what its session told.
pub fn node_report(told: &Vec<SessionEvent>) -> (r: String)
    ensures
        r@ == last_line(events::events_v(told@), told@.len() as int),
{
    let ghost ev = events::events_v(told@);
    let mut i: usize = told.len();
    while i > 0
        invariant
            i <= told@.len(),
            ev == events::events_v(told@),
            last_line(ev, told@.len() as int) == last_line(ev, i as int),
        decreases i,
    {
        assert(ev[i - 1] == told@[i - 1]@);
        match &told[i - 1] {
            SessionEvent::Transcript(lines) => {
                let n = lines.len();
                assert(events::line_views(lines@).len() == n);
                if n > 0 {
                    assert(events::line_views(lines@).last() == lines@[n - 1]@);
                    return lines[n - 1].render();
                }
            },
            _ => {},
        }
        i = i - 1;
    }
    let r = String::new();
    assert(r@ =~= Seq::empty());
    r
}

/// A node is begun only once everything it needs is done and was found good; and only
/// one that nobody began, while the plan is approved, nothing waits for the user and
/// the work goes on.
pub proof fn nodes_begin_after_what_they_need(w: WorkV, nodes: Seq<NodeV>, i: int, k: int)
    requires
        to_start(w, nodes),
        w.chain is Some,
        forall|j: int| 0 <= j < (w.chain->0).len() ==> #[trigger] chain::layering(w.chain->0)[j] is Some,
        0 <= i < nodes.len(),
    ensures
        w.approved && !collab::awaiting(w) && !w.done,
        nodes[i].status is Pending,
        exists|j: int| 0 <= j < (w.chain->0).len() && #[trigger] (w.chain->0)[j] == nodes[i],
        0 <= k < nodes[i].deps.len() ==> (chain::position(w.chain->0, nodes[i].deps[k]) matches Some(j) && (
        w.chain->0)[j].status is Done && (w.chain->0)[j].acceptance is Some && ((
        w.chain->0)[j].acceptance->0).ok),
{
    let c = w.chain->0;
    let s = choose|s: nat| #[trigger] left_of(c, nodes, s);
    chain::what_is_left_was_not_begun(chain::in_stage(c, s));
    assert(nodes.contains(nodes[i]));
    let v = chain::in_stage(c, s);
    assert(v.contains(nodes[i]));
    let j = chain::lemma_from_stage(c, s, nodes[i]);
    assert(c[j] == nodes[i]);
    chain::stages_follow_what_is_needed(c, j);
    if 0 <= k < nodes[i].deps.len() {
        let d = c[j].deps[k];
        chain::lemma_position_from(c, d, 0);
        assert(chain::layering(c)[chain::position(c, d)->0] is Some);
        let m = chain::position(c, d)->0;
        assert(chain::stages_of(c)[m] < s);
        chain::stages_follow_what_is_needed(c, m);
        assert(chain::passed(c, chain::stages_of(c)[m]));
        chain::a_stage_passes_with_all_its_nodes(c, chain::stages_of(c)[m]);
    }
}

/// What can be begun is begun: a node nobody began is, once all the stages before its
/// own are done and were found good, and its own was not.
pub proof fn what_can_begin_begins(w: WorkV, nodes: Seq<NodeV>, j: int)
    requires
        to_start(w, nodes),
        w.approved,
        !collab::awaiting(w),
        !w.done,
        w.chain is Some,
        0 <= j < (w.chain->0).len(),
        forall|i: int| 0 <= i < (w.chain->0).len() ==> #[trigger] chain::layering(w.chain->0)[i] is Some,
        (w.chain->0)[j].status is Pending,
        forall|i: int|
            0 <= i < (w.chain->0).len() && #[trigger] chain::stages_of(w.chain->0)[i] < chain::stages_of(
                w.chain->0,
            )[j] ==> chain::accepted((w.chain->0)[i]),
    ensures
        nodes.contains((w.chain->0)[j]),
{
    let c = w.chain->0;
    let s = chain::stages_of(c)[j];
    chain::stages_follow_what_is_needed(c, j);
    chain::a_stage_passes_with_all_its_nodes(c, s);
    assert(!chain::passed(c, s)) by {
        assert(chain::stages_of(c)[j] == s);
    }
    chain::lemma_greatest(chain::stages_of(c), j);
    assert forall|t: nat| 1 <= t < s implies #[trigger] chain::passed(c, t) by {
        let m = chain::lemma_no_stage_empty(c, j, t);
        assert(chain::stages_of(c)[m] == t);
        chain::a_stage_passes_with_all_its_nodes(c, t);
    }
    assert(!all_passed(c)) by {
        assert(1 <= s <= chain::top_stage(c));
    }
    let u = choose|u: nat| #[trigger] left_of(c, nodes, u);
    assert(u == s) by {
        if u < s {
            assert(chain::passed(c, u));
        }
        if s < u {
            assert(chain::passed(c, s));
        }
    }
    chain::lemma_into_stage(c, s, j);
    chain::what_is_left_was_not_begun(chain::in_stage(c, s));
}

/// What a member's turn leads to: a stand is taken in, a turn without one reminds the
/// member as often as it may be reminded, and then passes it over.
pub proof fn turns_are_taken_in_or_reminded(
    p: Prompts,
    w: WorkV,
    i: int,
    t: MemberTurnV,
    turn_id: u64,
    cap: u32,
)
    requires
        w.disc is Some,
        0 <= i < (w.disc->0).members.len(),
    ensures
        ({
            let a = turn_ended(p, w, i, t, turn_id, false, cap);
            let left = discussion::reminders(w.disc->0, (w.disc->0).members[i].id) < cap;
            &&& t.verb is Some ==> a.1.reminder is None
            &&& t.verb == Some(Verb::Leave) ==> !(a.0.disc->0).members[i].present
            &&& t.verb == Some(Verb::Agree) ==> (a.0.disc->0).members[i].agreed
            &&& t.verb is None && left ==> a.1.reminder is Some && a.1.step is Again && a.1.events.len() == 0 && (
            a.0.disc->0).transcript == (w.disc->0).transcript && (a.0.disc->0).cursor == (w.disc->0).cursor
            &&& t.verb is None && !left ==> a.1.reminder is None && (a.0.disc->0).members == (
            w.disc->0).members && (a.0.disc->0).transcript.len() == (w.disc->0).transcript.len() + 1
        }),
{
}

/// A work that is pushed on too often stops and waits.
pub proof fn endless_works_stop(e: TurnEndV, n: u32)
    ensures
        n >= TURN_GUARD ==> turn_counted(e, n).step is Wait && turn_counted(e, n).events.len() == e.events.len()
            + 1,
        n < TURN_GUARD ==> turn_counted(e, n) == e,
{
}

/// The last line is that of the last lines that went out.
pub proof fn the_last_line_is_the_last_that_went_out(v: Seq<EventV>, n: int, k: int)
    requires
        0 <= k < n <= v.len(),
        v[k] matches EventV::Transcript(l) && l.len() > 0,
        forall|j: int| k < j < n ==> ((#[trigger] v[j]) matches EventV::Transcript(l) ==> l.len() == 0),
    ensures
        last_line(v, n) == events::line_text(v[k]->Transcript_0.last()),
    decreases n,
{
    if k < n - 1 {
        assert(v[n - 1] matches EventV::Transcript(l) ==> l.len() == 0);
        the_last_line_is_the_last_that_went_out(v, n - 1, k);
    }
}

/// The agents of a name are those that have it.
pub proof fn agents_are_found_by_name(v: Seq<AgentMetaV>, name: Seq<char>, n: int, a: AgentMetaV)
    requires
        0 <= n <= v.len(),
    ensures
        agents_named(v, name, n).contains(a) <==> a.name == name && exists|k: int|
            0 <= k < n && #[trigger] v[k] == a,
    decreases n,
{
    if n > 0 {
        agents_are_found_by_name(v, name, n - 1, a);
        let p = agents_named(v, name, n - 1);
        let h = agents_named(v, name, n);
        if h.contains(a) {
            let k = choose|k: int| 0 <= k < h.len() && h[k] == a;
            if k < p.len() {
                assert(p[k] == a);
            } else {
                assert(v[n - 1] == a);
            }
        }
        if p.contains(a) {
            let k = choose|k: int| 0 <= k < p.len() && p[k] == a;
            assert(h[k] == a);
        }
        if a.name == name && v[n - 1] == a {
            assert(h[p.len() as int] == a);
        }
    }
}

} // verus!
