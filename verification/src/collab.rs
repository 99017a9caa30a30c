//! The work of a team, from the task to the delivery: a roster, a discussion, a plan
//! that the user approves, the stages of its nodes, and the acceptance. It says what
//! is to be done next and takes what came of it; models are called elsewhere.
use crate::agents::{self, Agent, RosterPick, TeamV, model_listing, resolve_picks};
use crate::chain::{self, Acceptance, AcceptanceV, NodeStatus, NodeV, TaskChain, TaskNode};
use crate::collab_state::{CollabState, CollabV};
use crate::discussion::{self, Adv, AdvV, AfterTurn, Cursor, DiscV, Discussion, MAX_ROUNDS, Member, MemberTurn, MemberTurnV, MemberV, TurnOut, TurnOutV, lines_from};
use crate::events::{self, EventV, LineV, LineView, Pending, PendingV, SessionEvent, interrupted_note, stopped_note};
use crate::history::{self, AgentMeta, AgentMetaV, SessionMeta, SessionMetaV, copy_agents, names_of_agents};
use crate::module::{self, Module, Roster};
use crate::ports::{self, Msg, MsgV};
use crate::prompt::{self, Prompts, RefsPrompts, fill3, fill4};
use crate::providers::Settings;
use crate::refs::{self, RefRoots, rewrite};
use crate::review::{self, Execution, ExecutionV, ItemV, NodeVerdict, VerdictV, ids_of, node_table, review_event, review_nodes, verdict_problems};
use crate::table::{self, put_text};
use crate::text::{self, cat2, cat3, cat4, cat5, cat6, clone_opt, clone_strings, dec_usize, eq_ignore_case, is_blank, join, push_when, str_eq, trim};
use crate::workspace::{PathV, RealPath};
use vstd::prelude::*;

verus! {

// ---- nodes of the chain ----

/// The nodes, with the first of a name changed.
pub open spec fn with_node(nodes: Seq<NodeV>, id: Seq<char>, f: spec_fn(NodeV) -> NodeV) -> Seq<NodeV> {
    match chain::position(nodes, id) {
        Some(i) => nodes.update(i, f(nodes[i])),
        None => nodes,
    }
}

pub open spec fn accept_node(ok: bool, note: Seq<char>) -> spec_fn(NodeV) -> NodeV {
    |n: NodeV| NodeV { acceptance: Some(AcceptanceV { ok, note }), ..n }
}

pub open spec fn start_node(sub: Seq<char>) -> spec_fn(NodeV) -> NodeV {
    |n: NodeV| NodeV { sub_session: Some(sub), status: NodeStatus::Running, ..n }
}

pub open spec fn finish_node(report: Seq<char>) -> spec_fn(NodeV) -> NodeV {
    |n: NodeV| NodeV { status: NodeStatus::Done, report: Some(report), ..n }
}

pub open spec fn tell_node() -> spec_fn(NodeV) -> NodeV {
    |n: NodeV| NodeV { reported: true, ..n }
}

pub open spec fn fresh_again() -> spec_fn(NodeV) -> NodeV {
    |n: NodeV|
        NodeV {
            status: NodeStatus::Pending,
            sub_session: None,
            report: None,
            acceptance: None,
            reported: false,
            ..n
        }
}

fn node_at(chain: &TaskChain, id: &str) -> (r: Option<usize>)
    ensures
        match r {
            Some(i) => chain::position(chain@, id@) == Some(i as int) && i < chain.nodes@.len(),
            None => chain::position(chain@, id@) is None,
        },
{
    let ghost nv = chain@;
    let mut i: usize = 0;
    while i < chain.nodes.len()
        invariant
            i <= chain.nodes@.len(),
            nv == chain@,
            chain::position(nv, id@) == chain::position_from(nv, id@, i as int),
        decreases chain.nodes@.len() - i,
    {
        assert(nv[i as int] == chain.nodes@[i as int]@);
        if str_eq(chain.nodes[i].id.as_str(), id) {
            return Some(i);
        }
        i = i + 1;
    }
    None
}

fn put_node(chain: &mut TaskChain, i: usize, n: TaskNode)
    requires
        i < old(chain).nodes@.len(),
    ensures
        final(chain)@ == old(chain)@.update(i as int, n@),
{
    let ghost before = chain@;
    chain.nodes.set(i, n);
    assert(chain@ =~= before.update(i as int, n@));
}

// ---- the state ----

/// The work of a team.
#[derive(Debug)]
pub struct CollabSession {
    /// Whether the core drafts the roster.
    delegated: bool,
    roster: Vec<AgentMeta>,
    task: String,
    /// The roster as drafted, until it is confirmed.
    slate_picks: Vec<AgentMeta>,
    /// What waits for the user.
    pub pending: Option<Pending>,
    allow: bool,
    plan: Option<String>,
    chain: Option<TaskChain>,
    disc: Option<Discussion>,
    /// The number of the last turn.
    turns: u64,
    /// Why the last turn failed, until it is told.
    turn_error: Option<String>,
    /// How many lines of the discussion went out.
    emitted: usize,
    next_line: u64,
    /// Where references to shared files lead.
    shared: RealPath,
    done: bool,
    plan_approved: bool,
    /// What the core advises on what waits for the user.
    gate_advice: String,
}

#[verifier::ext_equal]
pub struct WorkV {
    pub delegated: bool,
    pub roster: Seq<AgentMetaV>,
    pub task: Seq<char>,
    pub slate: Seq<AgentMetaV>,
    pub pending: Option<PendingV>,
    pub allow: bool,
    pub plan: Option<Seq<char>>,
    pub chain: Option<Seq<NodeV>>,
    pub disc: Option<DiscV>,
    pub turns: u64,
    pub turn_error: Option<Seq<char>>,
    pub emitted: usize,
    pub next_line: u64,
    pub shared: PathV,
    pub done: bool,
    pub approved: bool,
    pub advice: Seq<char>,
}

pub open spec fn opt_chain(o: Option<TaskChain>) -> Option<Seq<NodeV>> {
    match o {
        Some(c) => Some(c@),
        None => None,
    }
}

pub open spec fn opt_disc(o: Option<Discussion>) -> Option<DiscV> {
    match o {
        Some(d) => Some(d@),
        None => None,
    }
}

impl View for CollabSession {
    type V = WorkV;

    closed spec fn view(&self) -> WorkV {
        WorkV {
            delegated: self.delegated,
            roster: history::agents_v(self.roster@),
            task: self.task@,
            slate: history::agents_v(self.slate_picks@),
            pending: events::opt_pending(self.pending),
            allow: self.allow,
            plan: text::opt_text(self.plan),
            chain: opt_chain(self.chain),
            disc: opt_disc(self.disc),
            turns: self.turns,
            turn_error: text::opt_text(self.turn_error),
            emitted: self.emitted,
            next_line: self.next_line,
            shared: self.shared@,
            done: self.done,
            approved: self.plan_approved,
            advice: self.gate_advice@,
        }
    }
}

/// How many lines the discussion has.
pub open spec fn talk_len(w: WorkV) -> nat {
    match w.disc {
        Some(d) => d.transcript.len(),
        None => 0,
    }
}

/// What every state of the work keeps: lines that were handed out are there.
pub open spec fn handed_kept(w: WorkV) -> bool {
    w.disc matches Some(d) ==> d.handed <= d.transcript.len()
}

/// A state the work can go on from: lines that were handed out are there, and there
/// are numbers left for lines and rounds.
pub open spec fn work_sound(w: WorkV) -> bool {
    &&& w.next_line + talk_len(w) + 8 <= u64::MAX
    &&& handed_kept(w)
    &&& w.disc matches Some(d) ==> d.closed || d.round < usize::MAX
}

/// Whether the work waits for the user.
pub open spec fn awaiting(w: WorkV) -> bool {
    match w.pending {
        Some(PendingV::Ask { member, question }) => true,
        Some(PendingV::PlanReview) => true,
        Some(PendingV::NodeBlocked { nodes }) => true,
        _ => false,
    }
}

/// What is to be done next.
#[derive(Debug)]
pub enum Step {
    /// Nothing, until something happens.
    Wait,
    /// Go on at once.
    Again,
    /// Ask a member: who it is, and what the turn asks.
    Ask { i: usize, identity: String, turn: Vec<Msg> },
    /// Have the core draft a roster.
    Draft(Vec<Msg>),
    /// Have the core draw up a plan.
    Plan(Vec<Msg>),
    /// Have the core judge the nodes of a stage.
    ReviewStage { stage: usize, msgs: Vec<Msg> },
    /// Have the core judge the whole.
    ReviewAll(Vec<Msg>),
    /// Have the core judge whether the user is clear.
    Judge(Vec<Msg>),
}

#[verifier::ext_equal]
pub enum StepV {
    Wait,
    Again,
    Ask { i: usize, identity: Seq<char>, turn: Seq<MsgV> },
    Draft(Seq<MsgV>),
    Plan(Seq<MsgV>),
    ReviewStage { stage: nat, msgs: Seq<MsgV> },
    ReviewAll(Seq<MsgV>),
    Judge(Seq<MsgV>),
}

impl View for Step {
    type V = StepV;

    open spec fn view(&self) -> StepV {
        match *self {
            Step::Wait => StepV::Wait,
            Step::Again => StepV::Again,
            Step::Ask { i, identity, turn } => StepV::Ask {
                i,
                identity: identity@,
                turn: ports::msgs_v(turn@),
            },
            Step::Draft(m) => StepV::Draft(ports::msgs_v(m@)),
            Step::Plan(m) => StepV::Plan(ports::msgs_v(m@)),
            Step::ReviewStage { stage, msgs } => StepV::ReviewStage {
                stage: stage as nat,
                msgs: ports::msgs_v(msgs@),
            },
            Step::ReviewAll(m) => StepV::ReviewAll(ports::msgs_v(m@)),
            Step::Judge(m) => StepV::Judge(ports::msgs_v(m@)),
        }
    }
}

// ---- lines ----

/// A line with its number, which is its reply too.
pub open spec fn numbered(l: LineV, n: int) -> LineV {
    LineV { id: n as u64, reply: n as u64, ..l }
}

/// Lines with their numbers.
pub open spec fn numbered_from(v: Seq<LineV>, n: int) -> Seq<LineV> {
    Seq::new(v.len(), |k: int| numbered(v[k], n + k))
}

/// With one line more of the work's own.
pub open spec fn with_own_line(w: WorkV) -> WorkV {
    WorkV { next_line: (w.next_line + 1) as u64, ..w }
}

pub open spec fn own_line(w: WorkV, l: LineV) -> EventV {
    EventV::Transcript(seq![numbered(l, w.next_line as int)])
}

/// The lines of the discussion up to `n` that did not go out yet go out.
pub open spec fn sent_to(w: WorkV, n: int) -> (WorkV, Seq<EventV>) {
    if n > w.emitted {
        let lines = (w.disc->0).transcript.subrange(w.emitted as int, n);
        (
            WorkV { emitted: n as usize, next_line: (w.next_line + lines.len()) as u64, ..w },
            seq![EventV::Transcript(numbered_from(lines, w.next_line as int))],
        )
    } else {
        (w, Seq::empty())
    }
}

/// All lines of the discussion that did not go out yet go out.
pub open spec fn sent(w: WorkV) -> (WorkV, Seq<EventV>) {
    sent_to(w, talk_len(w) as int)
}

pub open spec fn noticed(text: Seq<char>) -> Seq<EventV> {
    seq![EventV::Notice(text)]
}

fn notice(text: String) -> (r: Vec<SessionEvent>)
    ensures
        events::events_v(r@) == noticed(text@),
{
    let mut r: Vec<SessionEvent> = Vec::new();
    let ghost tv = text@;
    r.push(SessionEvent::Notice(text));
    assert(events::events_v(r@) =~= noticed(tv));
    r
}

/// What goes out where something waits for the user: nobody is at work, and what is
/// to be decided, with what the core advises.
pub open spec fn gate_events(p: PendingV, advice: Seq<char>) -> Seq<EventV> {
    seq![EventV::Idle, EventV::Decision { what: p, advice }]
}

/// What goes out where the core is asked.
pub open spec fn core_works() -> EventV {
    EventV::Working("核心"@)
}

/// What comes of a reply of the core: it is no longer at work, and the rest follows.
pub open spec fn replied(a: (WorkV, StepV, Seq<EventV>)) -> (WorkV, StepV, Seq<EventV>) {
    (a.0, a.1, seq![EventV::Idle] + a.2)
}

fn core_at_work() -> (r: SessionEvent)
    ensures
        r@ == core_works(),
{
    SessionEvent::Working("核心".to_owned())
}

fn working_now() -> (r: Vec<SessionEvent>)
    ensures
        events::events_v(r@) == seq![core_works()],
{
    let mut r = no_events();
    push_event(&mut r, core_at_work());
    assert(events::events_v(r@) =~= seq![core_works()]);
    r
}

fn idle_first(more: Vec<SessionEvent>) -> (r: Vec<SessionEvent>)
    ensures
        events::events_v(r@) == seq![EventV::Idle] + events::events_v(more@),
{
    let mut r = no_events();
    push_event(&mut r, SessionEvent::Idle);
    assert(events::events_v(r@) =~= seq![EventV::Idle]);
    push_events(&mut r, more);
    r
}

fn no_events() -> (r: Vec<SessionEvent>)
    ensures
        events::events_v(r@) == Seq::<EventV>::empty(),
{
    let r: Vec<SessionEvent> = Vec::new();
    assert(events::events_v(r@) =~= Seq::empty());
    r
}

fn push_event(out: &mut Vec<SessionEvent>, e: SessionEvent)
    ensures
        events::events_v(final(out)@) == events::events_v(old(out)@).push(e@),
{
    let ghost before = out@;
    out.push(e);
    assert(events::events_v(out@) =~= events::events_v(before).push(e@));
}

fn push_events(out: &mut Vec<SessionEvent>, more: Vec<SessionEvent>)
    ensures
        events::events_v(final(out)@) == events::events_v(old(out)@) + events::events_v(more@),
{
    let ghost before = out@;
    let mut more = more;
    let ghost mv = more@;
    out.append(&mut more);
    assert(events::events_v(out@) =~= events::events_v(before) + events::events_v(mv));
}

// ---- the stages ----

/// The first stage from `t` on that has not passed.
pub open spec fn open_stage(nodes: Seq<NodeV>, t: nat) -> Option<nat>
    decreases chain::top_stage(nodes) + 1 - t,
{
    if t > chain::top_stage(nodes) {
        None
    } else if !chain::passed(nodes, t) {
        Some(t)
    } else {
        open_stage(nodes, t + 1)
    }
}

proof fn lemma_open_stage(nodes: Seq<NodeV>, t: nat, s: nat)
    requires
        1 <= t <= s <= chain::top_stage(nodes),
        !chain::passed(nodes, s),
        forall|k: nat| 1 <= k < s ==> #[trigger] chain::passed(nodes, k),
    ensures
        open_stage(nodes, t) == Some(s),
    decreases s - t,
{
    if t < s {
        assert(chain::passed(nodes, t));
        lemma_open_stage(nodes, t + 1, s);
    }
}

proof fn lemma_no_open_stage(nodes: Seq<NodeV>, t: nat)
    requires
        1 <= t,
        forall|k: nat| 1 <= k <= chain::top_stage(nodes) ==> #[trigger] chain::passed(nodes, k),
    ensures
        open_stage(nodes, t) is None,
    decreases chain::top_stage(nodes) + 1 - t,
{
    if t <= chain::top_stage(nodes) {
        assert(chain::passed(nodes, t));
        lemma_no_open_stage(nodes, t + 1);
    }
}

/// What a node has to show.
pub open spec fn output_of(n: NodeV) -> Seq<char> {
    match n.report {
        Some(r) => r,
        None => "（该节点没有产出）"@,
    }
}

/// Whether a node is done and the user was not told.
pub open spec fn fresh(n: NodeV) -> bool {
    n.status == NodeStatus::Done && !n.reported
}

/// The nodes after the user was told of those of the first `n` that are done.
pub open spec fn told_below(nodes: Seq<NodeV>, n: int) -> Seq<NodeV>
    decreases n,
{
    if n <= 0 {
        nodes
    } else if fresh(nodes[n - 1]) {
        with_node(told_below(nodes, n - 1), nodes[n - 1].id, tell_node())
    } else {
        told_below(nodes, n - 1)
    }
}

/// What the user is told of them.
pub open spec fn reports_below(nodes: Seq<NodeV>, n: int) -> Seq<EventV>
    decreases n,
{
    if n <= 0 {
        Seq::empty()
    } else if fresh(nodes[n - 1]) {
        reports_below(nodes, n - 1).push(
            EventV::Report { id: nodes[n - 1].id, text: output_of(nodes[n - 1]), rework: 0 },
        )
    } else {
        reports_below(nodes, n - 1)
    }
}

/// What the nodes report to the final acceptance.
pub open spec fn node_reports(nodes: Seq<NodeV>, n: int) -> Seq<(Seq<char>, Seq<char>)>
    decreases n,
{
    if n <= 0 {
        Seq::empty()
    } else {
        table::inserted(node_reports(nodes, n - 1), nodes[n - 1].id, output_of(nodes[n - 1]))
    }
}

// ---- a step ----

/// What the user is told of a turn that failed: that they stopped it, or why.
pub open spec fn break_text(cancelled: bool, why: Seq<char>) -> Seq<char> {
    if cancelled {
        events::stopped_text()
    } else {
        events::interrupted_text(why)
    }
}

pub open spec fn done_events(round: usize) -> Seq<EventV> {
    (if round > MAX_ROUNDS {
        noticed("[上限] 讨论轮次超限，交用户裁决。"@)
    } else {
        Seq::empty()
    }).push(
        EventV::DiscussionDone { round: round as nat, over_cap: round > MAX_ROUNDS },
    )
}

/// What the discussion's own step makes of the work.
pub open spec fn talk_outcome(w: WorkV, a: (DiscV, AdvV), cancelled: bool) -> (
    WorkV,
    StepV,
    Seq<EventV>,
) {
    let now = WorkV { disc: Some(a.0), ..w };
    match a.1 {
        AdvV::Ask { i, identity, turn } => (now, StepV::Ask { i, identity, turn }, Seq::empty()),
        AdvV::Opened => (now, StepV::Again, Seq::empty()),
        AdvV::Out(o) => match o {
            TurnOutV::Round => (now, StepV::Again, Seq::empty()),
            TurnOutV::Interrupted(e) => (now, StepV::Wait, noticed(break_text(cancelled, e))),
            TurnOutV::Stopped => (now, StepV::Wait, noticed(events::stopped_text())),
            TurnOutV::AskUser { member, question } => (
                WorkV { pending: Some(PendingV::Ask { member, question }), ..now },
                StepV::Wait,
                gate_events(PendingV::Ask { member, question }, w.advice),
            ),
            TurnOutV::Done => (now, StepV::Again, done_events(a.0.round)),
        },
    }
}

/// A step of the discussion.
pub open spec fn talk_step(p: Prompts, w: WorkV, cancelled: bool) -> (WorkV, StepV, Seq<EventV>) {
    if awaiting(w) {
        (w, StepV::Wait, Seq::empty())
    } else {
        match w.turn_error {
            Some(e) => (
                WorkV { turn_error: None, ..w },
                StepV::Wait,
                noticed(break_text(cancelled, e)),
            ),
            None => talk_outcome(w, discussion::advanced(p, w.disc->0, cancelled), cancelled),
        }
    }
}

/// A step of the nodes: those that are done are told; then the stage at hand is
/// judged where all of it has ended, and the whole where no stage is left.
pub open spec fn node_step(p: Prompts, w: WorkV) -> (WorkV, StepV, Seq<EventV>) {
    let nodes = w.chain->0;
    let told = told_below(nodes, nodes.len() as int);
    let now = WorkV { chain: Some(told), ..w };
    let events = reports_below(nodes, nodes.len() as int);
    if awaiting(now) {
        (now, StepV::Wait, events.push(EventV::Idle))
    } else {
        match open_stage(told, 1) {
            Some(s) => if !chain::settled(told, s) {
                (now, StepV::Wait, events.push(EventV::Idle))
            } else {
                (
                    now,
                    StepV::ReviewStage {
                        stage: s,
                        msgs: review::nodes_request(p, chain::in_stage(told, s), Seq::empty()),
                    },
                    events.push(core_works()),
                )
            },
            None => (
                now,
                StepV::ReviewAll(
                    review::review_request(
                        p,
                        node_reports(told, told.len() as int),
                        w.plan->0,
                        review::table_of(told),
                        Seq::empty(),
                    ),
                ),
                events.push(core_works()),
            ),
        }
    }
}

/// One step of the work.
pub open spec fn pumped(p: Prompts, w: WorkV, cancelled: bool) -> (WorkV, StepV, Seq<EventV>) {
    if w.done || w.disc is None {
        (w, StepV::Wait, Seq::empty())
    } else if !(w.disc->0).closed {
        talk_step(p, w, cancelled)
    } else if w.plan is None || w.chain is None {
        (
            w,
            StepV::Plan(discussion::plan_request(p, (w.disc->0).members, (w.disc->0).transcript)),
            seq![core_works()],
        )
    } else if !w.approved {
        (
            WorkV { pending: Some(PendingV::PlanReview), ..w },
            StepV::Wait,
            seq![EventV::PlanReview { plan: w.plan->0, chain: w.chain->0 }] + gate_events(
                PendingV::PlanReview,
                w.advice,
            ),
        )
    } else {
        node_step(p, w)
    }
}

/// Up to `n` more steps, as long as there is something to go on with.
pub open spec fn pumped_times(p: Prompts, w: WorkV, cancelled: bool, n: nat) -> (
    WorkV,
    StepV,
    Seq<EventV>,
)
    decreases n,
{
    let a = pumped(p, w, cancelled);
    if n == 0 || !(a.1 is Again) {
        a
    } else {
        let b = pumped_times(p, a.0, cancelled, (n - 1) as nat);
        (b.0, b.1, a.2 + b.2)
    }
}

/// Whether the work goes on to here: as many steps as there are, in order.
pub open spec fn pumps_to(
    p: Prompts,
    w: WorkV,
    cancelled: bool,
    r: (WorkV, StepV, Seq<EventV>),
) -> bool {
    !(r.1 is Again) && exists|n: nat| r == #[trigger] pumped_times(p, w, cancelled, n)
}

impl CollabSession {
    /// Has something wait for the user.
    fn ask_user(&mut self, p: Pending, out: &mut Vec<SessionEvent>)
        ensures
            final(self)@ == (WorkV { pending: Some(p@), ..old(self)@ }),
            events::events_v(final(out)@) == events::events_v(old(out)@) + gate_events(
                p@,
                old(self)@.advice,
            ),
    {
        let ghost head = events::events_v(out@);
        push_event(out, SessionEvent::Idle);
        push_event(
            out,
            SessionEvent::Decision { what: p.copy(), advice: self.gate_advice.clone() },
        );
        assert(events::events_v(out@) =~= head + gate_events(p@, self@.advice));
        self.pending = Some(p);
    }

    fn line_event(&mut self, l: LineView) -> (r: SessionEvent)
        requires
            old(self)@.next_line < u64::MAX,
        ensures
            final(self)@ == with_own_line(old(self)@),
            r@ == own_line(old(self)@, l@),
            final(self).disc == old(self).disc,
    {
        let n = self.next_line;
        let mut l = l;
        l.id = n;
        l.reply = n;
        self.next_line = n + 1;
        let mut ls: Vec<LineView> = Vec::new();
        ls.push(l);
        assert(events::line_views(ls@) =~= seq![l@]);
        SessionEvent::Transcript(ls)
    }

    /// The lines of the discussion up to `n` go out.
    fn send_to(&mut self, n: usize) -> (r: Vec<SessionEvent>)
        requires
            old(self)@.disc is Some,
            n <= (old(self)@.disc->0).transcript.len(),
            old(self)@.next_line + n - old(self)@.emitted <= u64::MAX,
        ensures
            (final(self)@, events::events_v(r@)) == sent_to(old(self)@, n as int),
            final(self).disc == old(self).disc,
    {
        let ghost start = self@;
        let mut out = no_events();
        if n > self.emitted {
            match &self.disc {
                Some(d) => {
                    let ghost tv = events::line_views(d.transcript@);
                    assert(tv == (start.disc->0).transcript);
                    assert(tv.len() == d.transcript@.len());
                    let mut ls: Vec<LineView> = Vec::new();
                    let from = self.emitted;
                    let base = self.next_line;
                    let mut k: usize = from;
                    let ghost want = numbered_from(
                        tv.subrange(from as int, n as int),
                        base as int,
                    );
                    while k < n
                        invariant
                            from <= k <= n <= d.transcript@.len(),
                            base + n - from <= u64::MAX,
                            tv == events::line_views(d.transcript@),
                            want == numbered_from(tv.subrange(from as int, n as int), base as int),
                            events::line_views(ls@) == want.take(k - from),
                        decreases n - k,
                    {
                        let mut l = d.transcript[k].copy();
                        l.id = base + (k - from) as u64;
                        l.reply = base + (k - from) as u64;
                        let ghost prev = ls@;
                        ls.push(l);
                        proof {
                            assert(tv[k as int] == d.transcript@[k as int]@);
                            assert(l@ =~= numbered(tv[k as int], base + (k - from)));
                            assert(want[k - from] == l@);
                            assert(events::line_views(ls@) =~= events::line_views(prev).push(l@));
                            assert(events::line_views(ls@) =~= want.take(k + 1 - from));
                        }
                        k = k + 1;
                    }
                    assert(want.take(n - from) =~= want);
                    push_event(&mut out, SessionEvent::Transcript(ls));
                    self.emitted = n;
                    self.next_line = base + (n - from) as u64;
                    assert(events::events_v(out@) =~= seq![EventV::Transcript(want)]);
                },
                None => {},
            }
        }
        out
    }

    fn talk_lines(&self) -> (r: usize)
        ensures
            r == talk_len(self@),
    {
        match &self.disc {
            Some(d) => {
                assert(events::line_views(d.transcript@).len() == d.transcript@.len());
                d.transcript.len()
            },
            None => 0,
        }
    }

    /// Whether the work can go on: lines that were handed out are there, and there are
    /// numbers left for lines, rounds and turns.
    pub fn can_go_on(&self) -> (r: bool)
        ensures
            r == (work_sound(self@) && self@.turns < u64::MAX),
    {
        let lines = self.talk_lines();
        let rest: u64 = u64::MAX - self.next_line;
        let room = rest >= 8 && rest - 8 >= lines as u64;
        let talk = match &self.disc {
            Some(d) => d.handed <= lines && (d.closed || d.round < usize::MAX),
            None => true,
        };
        room && talk && self.turns < u64::MAX
    }

    /// Whether the work waits for the user: nothing goes on until they answer.
    pub fn awaiting_user(&self) -> (r: bool)
        ensures
            r == awaiting(self@),
    {
        match &self.pending {
            Some(p) => match p {
                Pending::Ask { .. } => true,
                Pending::PlanReview => true,
                Pending::NodeBlocked { .. } => true,
                _ => false,
            },
            None => false,
        }
    }

    fn talk(&mut self, prompts: &Prompts, cancelled: bool) -> (r: (Step, Vec<SessionEvent>))
        requires
            prompt::book_sound(*prompts),
            old(self)@.disc is Some,
            (old(self)@.disc->0).round < usize::MAX,
        ensures
            (final(self)@, r.0@, events::events_v(r.1@)) == talk_step(*prompts, old(self)@, cancelled),
    {
        let ghost start = self@;
        if self.awaiting_user() {
            return (Step::Wait, no_events());
        }
        match self.turn_error.take() {
            Some(e) => {
                let note = if cancelled {
                    stopped_note()
                } else {
                    interrupted_note(e.as_str())
                };
                return (Step::Wait, notice(note));
            },
            None => {},
        }
        match self.disc.take() {
            Some(d) => {
                let mut d = d;
                let adv = d.advance(prompts, cancelled);
                let ghost av = adv@;
                let round = d.round;
                self.disc = Some(d);
                match adv {
                    Adv::Ask { i, identity, turn } => (
                        Step::Ask { i, identity, turn },
                        no_events(),
                    ),
                    Adv::Opened => (Step::Again, no_events()),
                    Adv::Out(o) => match o {
                        TurnOut::Round => (Step::Again, no_events()),
                        TurnOut::Interrupted(e) => {
                            let note = if cancelled {
                                stopped_note()
                            } else {
                                interrupted_note(e.as_str())
                            };
                            (Step::Wait, notice(note))
                        },
                        TurnOut::Stopped => (Step::Wait, notice(stopped_note())),
                        TurnOut::AskUser { member, question } => {
                            let mut out = no_events();
                            self.ask_user(Pending::Ask { member, question }, &mut out);
                            assert(events::events_v(out@) =~= talk_step(
                                *prompts,
                                start,
                                cancelled,
                            ).2);
                            (Step::Wait, out)
                        },
                        TurnOut::Done => {
                            let mut out = no_events();
                            if round > MAX_ROUNDS {
                                push_event(
                                    &mut out,
                                    SessionEvent::Notice(
                                        "[上限] 讨论轮次超限，交用户裁决。".to_owned(),
                                    ),
                                );
                            }
                            push_event(
                                &mut out,
                                SessionEvent::DiscussionDone {
                                    round,
                                    over_cap: round > MAX_ROUNDS,
                                },
                            );
                            assert(events::events_v(out@) =~= done_events(round));
                            (Step::Again, out)
                        },
                    },
                }
            },
            None => (Step::Wait, no_events()),
        }
    }

    fn tell_done(&mut self) -> (r: Vec<SessionEvent>)
        requires
            old(self)@.chain is Some,
        ensures
            ({
                let nodes = old(self)@.chain->0;
                &&& final(self)@ == (WorkV {
                    chain: Some(told_below(nodes, nodes.len() as int)),
                    ..old(self)@
                })
                &&& events::events_v(r@) == reports_below(nodes, nodes.len() as int)
            }),
    {
        let ghost start = self@;
        let mut out = no_events();
        match self.chain.take() {
            Some(c) => {
                let mut c = c;
                let ghost nodes = c@;
                let was = c.copy();
                let mut i: usize = 0;
                while i < was.nodes.len()
                    invariant
                        i <= was.nodes@.len(),
                        nodes == was@,
                        c@ == told_below(nodes, i as int),
                        events::events_v(out@) == reports_below(nodes, i as int),
                    decreases was.nodes@.len() - i,
                {
                    let n = &was.nodes[i];
                    assert(nodes[i as int] == n@);
                    if n.status == NodeStatus::Done && !n.reported {
                        let ghost cv = c@;
                        match node_at(&c, n.id.as_str()) {
                            Some(k) => {
                                let mut m = c.nodes[k].copy();
                                assert(cv[k as int] == c.nodes@[k as int]@);
                                m.reported = true;
                                put_node(&mut c, k, m);
                                assert(c@ =~= with_node(cv, n@.id, tell_node()));
                            },
                            None => {},
                        }
                        let text = match &n.report {
                            Some(r) => r.clone(),
                            None => "（该节点没有产出）".to_owned(),
                        };
                        push_event(
                            &mut out,
                            SessionEvent::Report { id: n.id.clone(), text, rework: 0 },
                        );
                    }
                    i = i + 1;
                }
                self.chain = Some(c);
            },
            None => {},
        }
        out
    }

    /// The final acceptance of what the nodes report.
    fn execution(&self) -> (r: Execution)
        requires
            self@.chain is Some,
        ensures
            r@.reports == node_reports(self@.chain->0, (self@.chain->0).len() as int),
            r@.items.len() == 0,
            r@.error is None,
            !r@.stopped,
    {
        let mut exec = Execution::new();
        match &self.chain {
            Some(c) => {
                let ghost nodes = c@;
                let mut i: usize = 0;
                assert(exec@.reports =~= Seq::empty());
                while i < c.nodes.len()
                    invariant
                        i <= c.nodes@.len(),
                        nodes == c@,
                        exec@.reports == node_reports(nodes, i as int),
                        exec@.items.len() == 0,
                        exec@.error is None,
                        !exec@.stopped,
                    decreases c.nodes@.len() - i,
                {
                    let n = &c.nodes[i];
                    assert(nodes[i as int] == n@);
                    let text = match &n.report {
                        Some(r) => r.clone(),
                        None => "（该节点没有产出）".to_owned(),
                    };
                    put_text(&mut exec.reports, n.id.as_str(), text);
                    i = i + 1;
                }
            },
            None => {},
        }
        exec
    }

    fn stage_request(&self, prompts: &Prompts, stage: usize, retry: Option<&str>) -> (r: Vec<Msg>)
        requires
            prompt::book_sound(*prompts),
            self@.chain is Some,
        ensures
            ports::msgs_v(r@) == review::nodes_request(
                *prompts,
                chain::in_stage(self@.chain->0, stage as nat),
                review::again(retry),
            ),
    {
        let nodes = self.nodes_in(stage);
        review_nodes(prompts, &nodes, retry)
    }

    fn nodes_in(&self, stage: usize) -> (r: Vec<TaskNode>)
        requires
            self@.chain is Some,
        ensures
            chain::nodes_v(r@) == chain::in_stage(self@.chain->0, stage as nat),
    {
        let mut out: Vec<TaskNode> = Vec::new();
        match &self.chain {
            Some(c) => {
                let refs = c.stage_nodes(stage);
                let ghost want = chain::in_stage(c@, stage as nat);
                let mut i: usize = 0;
                assert(chain::refs_v(refs@).len() == refs@.len());
                assert(chain::nodes_v(out@) =~= want.take(0));
                while i < refs.len()
                    invariant
                        i <= refs@.len(),
                        chain::refs_v(refs@) == want,
                        chain::nodes_v(out@) == want.take(i as int),
                    decreases refs@.len() - i,
                {
                    let n = refs[i].copy();
                    let ghost prev = out@;
                    out.push(n);
                    proof {
                        assert(chain::refs_v(refs@)[i as int] == refs@[i as int]@);
                        assert(chain::nodes_v(out@) =~= chain::nodes_v(prev).push(n@));
                        assert(chain::nodes_v(out@) =~= want.take(i + 1));
                    }
                    i = i + 1;
                }
                assert(want.take(want.len() as int) =~= want);
            },
            None => {},
        }
        out
    }

    fn whole_request(&self, prompts: &Prompts, retry: Option<&str>) -> (r: Vec<Msg>)
        requires
            prompt::book_sound(*prompts),
            self@.chain is Some,
            self@.plan is Some,
        ensures
            ports::msgs_v(r@) == review::review_request(
                *prompts,
                node_reports(self@.chain->0, (self@.chain->0).len() as int),
                self@.plan->0,
                review::table_of(self@.chain->0),
                review::again(retry),
            ),
    {
        let exec = self.execution();
        let table = match &self.chain {
            Some(c) => node_table(&c.nodes),
            None => String::new(),
        };
        match &self.plan {
            Some(p) => exec.review(p.as_str(), table.as_str(), retry, prompts),
            None => exec.review("", table.as_str(), retry, prompts),
        }
    }

    fn nodes_on(&mut self, prompts: &Prompts) -> (r: (Step, Vec<SessionEvent>))
        requires
            prompt::book_sound(*prompts),
            old(self)@.chain is Some,
            old(self)@.plan is Some,
        ensures
            (final(self)@, r.0@, events::events_v(r.1@)) == node_step(*prompts, old(self)@),
    {
        let mut out = self.tell_done();
        if self.awaiting_user() {
            push_event(&mut out, SessionEvent::Idle);
            return (Step::Wait, out);
        }
        let (stage, over) = match &self.chain {
            Some(c) => {
                let ghost told = c@;
                match c.current_stage() {
                    Some(s) => {
                        proof {
                            lemma_open_stage(told, 1, s as nat);
                        }
                        (Some(s), c.stage_settled(s))
                    },
                    None => {
                        proof {
                            lemma_no_open_stage(told, 1);
                        }
                        (None, false)
                    },
                }
            },
            None => (None, false),
        };
        match stage {
            Some(s) => {
                if !over {
                    push_event(&mut out, SessionEvent::Idle);
                    return (Step::Wait, out);
                }
                let msgs = self.stage_request(prompts, s, None);
                push_event(&mut out, core_at_work());
                (Step::ReviewStage { stage: s, msgs }, out)
            },
            None => {
                let msgs = self.whole_request(prompts, None);
                push_event(&mut out, core_at_work());
                (Step::ReviewAll(msgs), out)
            },
        }
    }

    /// Takes one step.
    pub fn pump_once(&mut self, prompts: &Prompts, cancelled: bool) -> (r: (Step, Vec<SessionEvent>))
        requires
            prompt::book_sound(*prompts),
            old(self)@.disc matches Some(d) ==> d.closed || d.round < usize::MAX,
        ensures
            handed_kept(old(self)@) ==> handed_kept(final(self)@),
            (final(self)@, r.0@, events::events_v(r.1@)) == pumped(*prompts, old(self)@, cancelled),
    {
        if self.done {
            return (Step::Wait, no_events());
        }
        let closed = match &self.disc {
            Some(d) => d.closed,
            None => {
                return (Step::Wait, no_events());
            },
        };
        if !closed {
            return self.talk(prompts, cancelled);
        }
        if self.plan.is_none() || self.chain.is_none() {
            return match &self.disc {
                Some(d) => (Step::Plan(d.synthesize(prompts)), working_now()),
                None => (Step::Wait, no_events()),
            };
        }
        if !self.plan_approved {
            let plan = match &self.plan {
                Some(p) => p.clone(),
                None => String::new(),
            };
            let chain = match &self.chain {
                Some(c) => c.copy(),
                None => TaskChain::empty(),
            };
            let mut out = no_events();
            push_event(&mut out, SessionEvent::PlanReview { plan, chain });
            assert(events::events_v(out@) =~= seq![
                EventV::PlanReview { plan: self@.plan->0, chain: self@.chain->0 },
            ]);
            self.ask_user(Pending::PlanReview, &mut out);
            return (Step::Wait, out);
        }
        self.nodes_on(prompts)
    }

    /// Goes on as far as it can without a model or the user.
    pub fn pump_with(&mut self, prompts: &Prompts, cancelled: bool) -> (r: (Step, Vec<SessionEvent>))
        requires
            prompt::book_sound(*prompts),
            old(self)@.disc matches Some(d) ==> d.closed || d.round < usize::MAX,
        ensures
            handed_kept(old(self)@) ==> handed_kept(final(self)@),
            pumps_to(*prompts, old(self)@, cancelled, (final(self)@, r.0@, events::events_v(r.1@))),
    {
        let ghost start = self@;
        let (step0, out0) = self.pump_once(prompts, cancelled);
        let mut step = step0;
        let mut out = out0;
        let ghost mut n: nat = 0;
        proof {
            lemma_one_step(*prompts, start, cancelled);
        }
        loop
            invariant
                prompt::book_sound(*prompts),
                (self@, step@, events::events_v(out@)) == pumped_times(*prompts, start, cancelled, n),
                step@ is Again ==> self@.disc is Some && ((self@.disc->0).closed || (self@.disc->0).round
                    < usize::MAX),
                handed_kept(start) ==> handed_kept(self@),
            ensures
                handed_kept(start) ==> handed_kept(self@),
                pumps_to(*prompts, start, cancelled, (self@, step@, events::events_v(out@))),
            decreases
                    if step@ is Again {
                        1int
                    } else {
                        0
                    },
                    left_closed(self@),
                    left_opening(self@),
                    left_rounds(self@),
        {
            match step {
                Step::Again => {},
                _ => {
                    assert(pumps_to(*prompts, start, cancelled, (self@, step@, events::events_v(out@))));
                    break;
                },
            }
            let ghost mid = self@;
            let (next, more) = self.pump_once(prompts, cancelled);
            proof {
                lemma_one_more_step(*prompts, start, cancelled, n);
                lemma_one_step(*prompts, mid, cancelled);
                n = n + 1;
            }
            step = next;
            push_events(&mut out, more);
        }
        (step, out)
    }
}

/// What is left before the discussion is over, its opening is, its rounds are.
pub open spec fn left_closed(w: WorkV) -> int {
    match w.disc {
        Some(d) => if d.closed {
            0
        } else {
            1
        },
        None => 0,
    }
}

pub open spec fn left_opening(w: WorkV) -> int {
    match w.disc {
        Some(d) => if d.cursor is Opener {
            1
        } else {
            0
        },
        None => 0,
    }
}

pub open spec fn left_rounds(w: WorkV) -> int {
    match w.disc {
        Some(d) => if d.round <= MAX_ROUNDS {
            MAX_ROUNDS - d.round
        } else {
            0
        },
        None => 0,
    }
}

/// A step that goes on brings the end of the discussion nearer.
proof fn lemma_one_step(p: Prompts, w: WorkV, cancelled: bool)
    requires
        w.disc matches Some(d) ==> d.closed || d.round < usize::MAX,
    ensures
        ({
            let a = pumped(p, w, cancelled);
            a.1 is Again ==> {
                &&& a.0.disc is Some
                &&& (a.0.disc->0).closed || (a.0.disc->0).round < usize::MAX
                &&& (left_closed(a.0) < left_closed(w) || (left_closed(a.0) == left_closed(w)
                    && (left_opening(a.0) < left_opening(w) || (left_opening(a.0) == left_opening(
                    w,
                ) && left_rounds(a.0) < left_rounds(w)))))
            }
        }),
{
    let a = pumped(p, w, cancelled);
    if a.1 is Again {
        let d = w.disc->0;
        let b = discussion::advanced(p, d, cancelled);
        assert(a.0.disc == Some(b.0));
        discussion::rounds_are_counted(p, d, cancelled);
    }
}

/// One more step at the end is one more step in all.
proof fn lemma_one_more_step(p: Prompts, w: WorkV, cancelled: bool, n: nat)
    requires
        pumped_times(p, w, cancelled, n).1 is Again,
    ensures
        ({
            let a = pumped_times(p, w, cancelled, n);
            let b = pumped(p, a.0, cancelled);
            pumped_times(p, w, cancelled, n + 1) == (b.0, b.1, a.2 + b.2)
        }),
    decreases n,
{
    let first = pumped(p, w, cancelled);
    let a = pumped_times(p, w, cancelled, n);
    let b = pumped(p, a.0, cancelled);
    if n == 0 {
        assert(pumped_times(p, first.0, cancelled, 0) == b);
    } else {
        lemma_one_more_step(p, first.0, cancelled, (n - 1) as nat);
        let rest = pumped_times(p, first.0, cancelled, (n - 1) as nat);
        assert(first.2 + (rest.2 + b.2) =~= (first.2 + rest.2) + b.2);
    }
}


// ---- what came of it ----

/// A plan as it came: its text, its nodes, and what the core advises.
#[derive(Debug)]
pub struct PlanMade {
    pub plan: String,
    pub chain: TaskChain,
    pub advice: String,
}

/// The work after a plan came, or none did. A chain that does not hold together is
/// not taken; one that does gets the names of its stages.
pub open spec fn with_plan(w: WorkV, made: Result<PlanMade, String>, cancelled: bool) -> (
    WorkV,
    StepV,
    Seq<EventV>,
) {
    match made {
        Ok(m) => {
            let members = (w.disc->0).members;
            let faults = chain::problems_of(m.chain@, discussion::present_names(members, members.len() as int));
            let advised = WorkV { advice: m.advice@, ..w };
            if faults.len() > 0 {
                (
                    advised,
                    StepV::Wait,
                    noticed(
                        "[错误] 核心给出的任务链不自洽："@ + text::joined(faults, "；"@)
                            + "。点「继续」会重新整理。"@,
                    ),
                )
            } else {
                (
                    WorkV {
                        plan: Some(m.plan@),
                        chain: Some(chain::renumbered(m.chain@)),
                        ..advised
                    },
                    StepV::Again,
                    seq![EventV::Plan(m.plan@)],
                )
            }
        },
        Err(e) => (w, StepV::Wait, noticed(break_text(cancelled, e@))),
    }
}

/// The nodes with the verdicts of the first `n` noted.
pub open spec fn accepted_below(nodes: Seq<NodeV>, v: Seq<VerdictV>, n: int) -> Seq<NodeV>
    decreases n,
{
    if n <= 0 {
        nodes
    } else {
        with_node(
            accepted_below(nodes, v, n - 1),
            v[n - 1].node,
            accept_node(v[n - 1].ok, v[n - 1].note),
        )
    }
}

/// The nodes that did not pass.
pub open spec fn bad_below(v: Seq<VerdictV>, n: int) -> Seq<Seq<char>>
    decreases n,
{
    if n <= 0 {
        Seq::empty()
    } else {
        bad_below(v, n - 1) + text::when(!v[n - 1].ok, v[n - 1].node)
    }
}

/// What the user is told of a node to do again.
pub open spec fn rework_text(node: Seq<char>, why: Seq<char>) -> Seq<char> {
    if text::trimmed(why).len() == 0 {
        "[返工] "@ + node + "：没过（等用户点「继续」后只重派它）"@
    } else {
        "[返工] "@ + node + "："@ + text::trimmed(why)
    }
}

fn rework_note(node: &str, why: &str) -> (r: String)
    ensures
        r@ == rework_text(node@, why@),
{
    let t = trim(why);
    if t.as_str().unicode_len() == 0 {
        cat3("[返工] ", node, "：没过（等用户点「继续」后只重派它）")
    } else {
        cat4("[返工] ", node, "：", t.as_str())
    }
}

pub open spec fn rework_events(v: Seq<VerdictV>, n: int) -> Seq<EventV>
    decreases n,
{
    if n <= 0 {
        Seq::empty()
    } else if v[n - 1].ok {
        rework_events(v, n - 1)
    } else {
        rework_events(v, n - 1).push(EventV::Notice(rework_text(v[n - 1].node, v[n - 1].note)))
    }
}

pub open spec fn stage_retry(faults: Seq<Seq<char>>, nodes: Seq<NodeV>) -> Seq<char> {
    "你上一次的判定没落到这一阶段的节点上（"@ + text::joined(faults, "；"@)
        + "）。请只从下面这张表里选 node，并且**每个节点都给一条结论**：\n"@ + review::table_of(nodes)
}

/// The verdicts on a stage, and what the core advises.
#[derive(Debug)]
pub struct StageVerdicts {
    pub verdicts: Vec<NodeVerdict>,
    pub advice: String,
}

/// The work after a stage was judged. Verdicts that cannot be used are asked for
/// again. Where a node did not pass, the work waits for the user; else it goes on.
pub open spec fn with_verdicts(
    p: Prompts,
    w: WorkV,
    stage: nat,
    made: Result<StageVerdicts, String>,
    cancelled: bool,
) -> (WorkV, StepV, Seq<EventV>) {
    match made {
        Err(e) => (w, StepV::Wait, noticed(events::interrupted_text(e@))),
        Ok(m) => {
            let v = review::verdicts_v(m.verdicts@);
            let nodes = chain::in_stage(w.chain->0, stage);
            let faults = review::verdict_faults(v, review::node_ids(nodes));
            let refused = noticed(
                "[阶段 "@ + text::decimal(stage) + " 验收] 这次判定用不了（"@ + text::joined(faults, "；"@)
                    + "），已要求核心重填；要停就点「停止」。"@,
            );
            let bad = bad_below(v, v.len() as int);
            let judged = WorkV {
                advice: m.advice@,
                chain: Some(accepted_below(w.chain->0, v, v.len() as int)),
                ..w
            };
            if faults.len() > 0 && cancelled {
                (w, StepV::Wait, refused.push(EventV::Notice(events::stopped_text())))
            } else if faults.len() > 0 {
                (
                    w,
                    StepV::ReviewStage {
                        stage,
                        msgs: review::nodes_request(
                            p,
                            nodes,
                            seq![ports::plain_msg("user"@, stage_retry(faults, nodes))],
                        ),
                    },
                    refused.push(core_works()),
                )
            } else if bad.len() > 0 {
                (
                    WorkV { pending: Some(PendingV::NodeBlocked { nodes: bad }), ..judged },
                    StepV::Wait,
                    rework_events(v, v.len() as int).push(
                        EventV::Notice(
                            "[阶段 "@ + text::decimal(stage) + " 验收] 没通过："@ + text::joined(bad, "、"@)
                                + "。点「继续」后**只重派这些**（下一阶段先不开工）。"@,
                        ),
                    ) + gate_events(PendingV::NodeBlocked { nodes: bad }, m.advice@),
                )
            } else {
                (
                    judged,
                    StepV::Again,
                    noticed("[阶段 "@ + text::decimal(stage) + " 通过] 下一阶段开工。"@),
                )
            }
        },
    }
}

pub open spec fn item_events(v: Seq<ItemV>, n: int) -> Seq<EventV>
    decreases n,
{
    if n <= 0 {
        Seq::empty()
    } else if review::failed(v[n - 1]) {
        item_events(v, n - 1).push(
            EventV::Notice(
                rework_text(review::or_nothing(v[n - 1].rework), review::or_nothing(v[n - 1].reason)),
            ),
        )
    } else {
        item_events(v, n - 1)
    }
}

pub open spec fn whole_retry(faults: Seq<Seq<char>>, nodes: Seq<NodeV>) -> Seq<char> {
    "你上一次的清单用不了（"@ + text::joined(faults, "；"@)
        + "）。没过（fail）的条目**必须**填 rework，且只能取下面这张表里的节点 id：\n"@
        + review::table_of(nodes)
}

/// The work after the whole was judged: delivered where nothing is to be done again.
pub open spec fn with_checklist(p: Prompts, w: WorkV, x: ExecutionV, cancelled: bool) -> (
    WorkV,
    StepV,
    Seq<EventV>,
) {
    let nodes = w.chain->0;
    let faults = review::item_faults(review::node_ids(nodes), x.items, x.items.len() as int);
    let bad = review::targets_below(x.items, x.items.len() as int);
    let shown = EventV::Review {
        items: x.items.map_values(|i: ItemV| review::shown_check(i)),
        raw: x.checklist_raw,
    };
    if x.stopped || cancelled {
        (w, StepV::Wait, noticed(events::stopped_text()))
    } else if x.error is Some {
        (w, StepV::Wait, noticed(events::interrupted_text(x.error->0)))
    } else if faults.len() > 0 {
        (
            w,
            StepV::ReviewAll(
                review::review_request(
                    p,
                    node_reports(nodes, nodes.len() as int),
                    w.plan->0,
                    review::table_of(nodes),
                    seq![ports::plain_msg("user"@, whole_retry(faults, nodes))],
                ),
            ),
            noticed(
                "[总验收] 这次判定用不了（"@ + text::joined(faults, "；"@)
                    + "），已要求核心重填；要停就点「停止」。"@,
            ).push(core_works()),
        )
    } else if bad.len() > 0 {
        (
            WorkV { pending: Some(PendingV::NodeBlocked { nodes: bad }), ..w },
            StepV::Wait,
            (seq![shown] + item_events(x.items, x.items.len() as int)).push(
                EventV::Notice(
                    "[总验收] 没通过："@ + text::joined(bad, "、"@)
                        + "。点「继续」后**只重派这些**（不交付）。"@,
                ),
            ) + gate_events(PendingV::NodeBlocked { nodes: bad }, w.advice),
        )
    } else {
        (
            WorkV { done: true, ..w },
            StepV::Wait,
            seq![
                shown,
                EventV::Delivery { ok: review::passed_all(x.items), over_rework: false },
                EventV::Ended,
            ],
        )
    }
}

impl CollabSession {
    /// Takes a plan, or why there is none.
    pub fn planned(&mut self, made: Result<PlanMade, String>, cancelled: bool) -> (r: (
        Step,
        Vec<SessionEvent>,
    ))
        requires
            old(self)@.disc is Some,
        ensures
            handed_kept(old(self)@) ==> handed_kept(final(self)@),
            (final(self)@, r.0@, events::events_v(r.1@)) == replied(
                with_plan(old(self)@, made, cancelled),
            ),
    {
        let (step, out) = self.take_plan(made, cancelled);
        (step, idle_first(out))
    }

    fn take_plan(&mut self, made: Result<PlanMade, String>, cancelled: bool) -> (r: (
        Step,
        Vec<SessionEvent>,
    ))
        requires
            old(self)@.disc is Some,
        ensures
            handed_kept(old(self)@) ==> handed_kept(final(self)@),
            (final(self)@, r.0@, events::events_v(r.1@)) == with_plan(old(self)@, made, cancelled),
    {
        match made {
            Ok(m) => {
                self.gate_advice = m.advice;
                let roster = self.present_members();
                let faults = m.chain.problems(&roster);
                assert(text::texts(faults@).len() == faults@.len());
                if faults.len() > 0 {
                    let text = cat3(
                        "[错误] 核心给出的任务链不自洽：",
                        join(&faults, "；").as_str(),
                        "。点「继续」会重新整理。",
                    );
                    return (Step::Wait, notice(text));
                }
                let mut chain = m.chain;
                chain.renumber_by_stage();
                let mut out = no_events();
                push_event(&mut out, SessionEvent::Plan(m.plan.clone()));
                assert(events::events_v(out@) =~= seq![EventV::Plan(m.plan@)]);
                self.plan = Some(m.plan);
                self.chain = Some(chain);
                (Step::Again, out)
            },
            Err(e) => {
                let note = if cancelled {
                    stopped_note()
                } else {
                    interrupted_note(e.as_str())
                };
                (Step::Wait, notice(note))
            },
        }
    }

    fn present_members(&self) -> (r: Vec<String>)
        requires
            self@.disc is Some,
        ensures
            text::texts(r@) == discussion::present_names(
                (self@.disc->0).members,
                (self@.disc->0).members.len() as int,
            ),
    {
        let mut there: Vec<String> = Vec::new();
        match &self.disc {
            Some(d) => {
                let ghost mv = crate::discussion::members_v(d.members@);
                let mut k: usize = 0;
                assert(text::texts(there@) =~= discussion::present_names(mv, 0));
                while k < d.members.len()
                    invariant
                        k <= d.members@.len(),
                        mv == crate::discussion::members_v(d.members@),
                        text::texts(there@) == discussion::present_names(mv, k as int),
                    decreases d.members@.len() - k,
                {
                    assert(mv[k as int] == d.members@[k as int]@);
                    push_when(&mut there, d.members[k].present, d.members[k].id.clone());
                    k = k + 1;
                }
            },
            None => {},
        }
        there
    }

    fn change_node(&mut self, id: &str, n: TaskNode, k: usize, Ghost(f): Ghost<
        spec_fn(NodeV) -> NodeV,
    >)
        requires
            old(self)@.chain is Some,
            chain::position(old(self)@.chain->0, id@) == Some(k as int),
            k < (old(self)@.chain->0).len(),
            n@ == f((old(self)@.chain->0)[k as int]),
        ensures
            final(self)@ == (WorkV {
                chain: Some(with_node(old(self)@.chain->0, id@, f)),
                ..old(self)@
            }),
    {
        match self.chain.take() {
            Some(c) => {
                let mut c = c;
                assert(c@.len() == c.nodes@.len());
                put_node(&mut c, k, n);
                self.chain = Some(c);
            },
            None => {},
        }
    }

    fn find_node(&self, id: &str) -> (r: Option<(usize, TaskNode)>)
        ensures
            match r {
                Some(x) => self@.chain is Some && chain::position(self@.chain->0, id@) == Some(
                    x.0 as int,
                ) && x.0 < (self@.chain->0).len() && x.1@ == (self@.chain->0)[x.0 as int],
                None => self@.chain is Some ==> chain::position(self@.chain->0, id@) is None,
            },
    {
        match &self.chain {
            Some(c) => match node_at(c, id) {
                Some(k) => {
                    assert(c@[k as int] == c.nodes@[k as int]@);
                    Some((k, c.nodes[k].copy()))
                },
                None => None,
            },
            None => None,
        }
    }

    /// Notes what the core said of a node.
    pub fn set_node_acceptance(&mut self, node: &str, ok: bool, note: &str)
        ensures
            handed_kept(old(self)@) ==> handed_kept(final(self)@),
            final(self)@ == match old(self)@.chain {
                Some(c) => WorkV {
                    chain: Some(with_node(c, node@, accept_node(ok, note@))),
                    ..old(self)@
                },
                None => old(self)@,
            },
    {
        match self.find_node(node) {
            Some((k, n)) => {
                let mut n = n;
                n.acceptance = Some(Acceptance { ok, note: note.to_owned() });
                let ghost f = accept_node(ok, note@);
                self.change_node(node, n, k, Ghost(f));
            },
            None => {},
        }
    }

    /// Notes that a node runs, and in which session.
    pub fn mark_node_started(&mut self, node: &str, sub: &str)
        ensures
            handed_kept(old(self)@) ==> handed_kept(final(self)@),
            final(self)@ == match old(self)@.chain {
                Some(c) => WorkV {
                    chain: Some(with_node(c, node@, start_node(sub@))),
                    ..old(self)@
                },
                None => old(self)@,
            },
    {
        match self.find_node(node) {
            Some((k, n)) => {
                let mut n = n;
                n.sub_session = Some(sub.to_owned());
                n.status = NodeStatus::Running;
                let ghost f = start_node(sub@);
                self.change_node(node, n, k, Ghost(f));
            },
            None => {},
        }
    }

    /// Notes that a node is done, and what it gave. Whether it passes is judged later.
    pub fn mark_node_done(&mut self, node: &str, report: &str)
        ensures
            handed_kept(old(self)@) ==> handed_kept(final(self)@),
            final(self)@ == match old(self)@.chain {
                Some(c) => WorkV {
                    chain: Some(with_node(c, node@, finish_node(report@))),
                    ..old(self)@
                },
                None => old(self)@,
            },
    {
        match self.find_node(node) {
            Some((k, n)) => {
                let mut n = n;
                n.status = NodeStatus::Done;
                n.report = Some(report.to_owned());
                let ghost f = finish_node(report@);
                self.change_node(node, n, k, Ghost(f));
            },
            None => {},
        }
    }

    /// Makes a node one that is still to be done.
    pub fn reset_node(&mut self, node: &str)
        ensures
            handed_kept(old(self)@) ==> handed_kept(final(self)@),
            final(self)@ == match old(self)@.chain {
                Some(c) => WorkV {
                    chain: Some(with_node(c, node@, fresh_again())),
                    ..old(self)@
                },
                None => old(self)@,
            },
    {
        match self.find_node(node) {
            Some((k, n)) => {
                let mut n = n;
                n.status = NodeStatus::Pending;
                n.sub_session = None;
                n.report = None;
                n.acceptance = None;
                n.reported = false;
                let ghost f = fresh_again();
                self.change_node(node, n, k, Ghost(f));
            },
            None => {},
        }
    }

    /// Takes the verdicts on a stage, or why there are none.
    pub fn stage_reviewed(
        &mut self,
        prompts: &Prompts,
        stage: usize,
        made: Result<StageVerdicts, String>,
        cancelled: bool,
    ) -> (r: (Step, Vec<SessionEvent>))
        requires
            prompt::book_sound(*prompts),
            old(self)@.chain is Some,
        ensures
            handed_kept(old(self)@) ==> handed_kept(final(self)@),
            (final(self)@, r.0@, events::events_v(r.1@)) == replied(
                with_verdicts(
                    *prompts,
                    old(self)@,
                    stage as nat,
                    made,
                    cancelled,
                ),
            ),
    {
        let (step, out) = self.take_verdicts(prompts, stage, made, cancelled);
        (step, idle_first(out))
    }

    fn take_verdicts(
        &mut self,
        prompts: &Prompts,
        stage: usize,
        made: Result<StageVerdicts, String>,
        cancelled: bool,
    ) -> (r: (Step, Vec<SessionEvent>))
        requires
            prompt::book_sound(*prompts),
            old(self)@.chain is Some,
        ensures
            handed_kept(old(self)@) ==> handed_kept(final(self)@),
            (final(self)@, r.0@, events::events_v(r.1@)) == with_verdicts(
                *prompts,
                old(self)@,
                stage as nat,
                made,
                cancelled,
            ),
    {
        let ghost start = self@;
        let m = match made {
            Ok(m) => m,
            Err(e) => {
                return (Step::Wait, notice(interrupted_note(e.as_str())));
            },
        };
        let ghost v = review::verdicts_v(m.verdicts@);
        assert(v.len() == m.verdicts@.len());
        let nodes = self.nodes_in(stage);
        let known = ids_of(&nodes);
        let faults = verdict_problems(&m.verdicts, &known);
        let name = dec_usize(stage);
        assert(text::texts(faults@).len() == faults@.len());
        if faults.len() > 0 {
            let what = join(&faults, "；");
            let mut out = notice(
                cat5(
                    "[阶段 ",
                    name.as_str(),
                    " 验收] 这次判定用不了（",
                    what.as_str(),
                    "），已要求核心重填；要停就点「停止」。",
                ),
            );
            if cancelled {
                push_event(&mut out, SessionEvent::Notice(stopped_note()));
                return (Step::Wait, out);
            }
            let table = node_table(&nodes);
            let retry = cat4(
                "你上一次的判定没落到这一阶段的节点上（",
                what.as_str(),
                "）。请只从下面这张表里选 node，并且**每个节点都给一条结论**：\n",
                table.as_str(),
            );
            let msgs = review_nodes(prompts, &nodes, Some(retry.as_str()));
            push_event(&mut out, core_at_work());
            return (Step::ReviewStage { stage, msgs }, out);
        }
        self.gate_advice = m.advice.clone();
        let mut bad: Vec<String> = Vec::new();
        let mut out = no_events();
        let mut i: usize = 0;
        assert(text::texts(bad@) =~= Seq::empty());
        while i < m.verdicts.len()
            invariant
                i <= m.verdicts@.len(),
                v == review::verdicts_v(m.verdicts@),
                start.chain is Some,
                self@ == (WorkV {
                    advice: m.advice@,
                    chain: Some(accepted_below(start.chain->0, v, i as int)),
                    ..start
                }),
                text::texts(bad@) == bad_below(v, i as int),
                events::events_v(out@) == rework_events(v, i as int),
            decreases m.verdicts@.len() - i,
        {
            let x = &m.verdicts[i];
            assert(v[i as int] == x@);
            self.set_node_acceptance(x.node.as_str(), x.ok, x.note.as_str());
            push_when(&mut bad, !x.ok, x.node.clone());
            if !x.ok {
                push_event(
                    &mut out,
                    SessionEvent::Notice(rework_note(x.node.as_str(), x.note.as_str())),
                );
            }
            i = i + 1;
        }
        assert(text::texts(bad@).len() == bad@.len());
        if bad.len() > 0 {
            push_event(
                &mut out,
                SessionEvent::Notice(
                    cat5(
                        "[阶段 ",
                        name.as_str(),
                        " 验收] 没通过：",
                        join(&bad, "、").as_str(),
                        "。点「继续」后**只重派这些**（下一阶段先不开工）。",
                    ),
                ),
            );
            self.ask_user(Pending::NodeBlocked { nodes: bad }, &mut out);
            return (Step::Wait, out);
        }
        (Step::Again, notice(cat3("[阶段 ", name.as_str(), " 通过] 下一阶段开工。")))
    }

    /// Takes the checklist of the final acceptance.
    pub fn all_reviewed(&mut self, prompts: &Prompts, exec: &Execution, cancelled: bool) -> (r: (
        Step,
        Vec<SessionEvent>,
    ))
        requires
            prompt::book_sound(*prompts),
            old(self)@.chain is Some,
            old(self)@.plan is Some,
        ensures
            handed_kept(old(self)@) ==> handed_kept(final(self)@),
            (final(self)@, r.0@, events::events_v(r.1@)) == replied(
                with_checklist(
                    *prompts,
                    old(self)@,
                    exec@,
                    cancelled,
                ),
            ),
    {
        let (step, out) = self.take_checklist(prompts, exec, cancelled);
        (step, idle_first(out))
    }

    fn take_checklist(&mut self, prompts: &Prompts, exec: &Execution, cancelled: bool) -> (r: (
        Step,
        Vec<SessionEvent>,
    ))
        requires
            prompt::book_sound(*prompts),
            old(self)@.chain is Some,
            old(self)@.plan is Some,
        ensures
            handed_kept(old(self)@) ==> handed_kept(final(self)@),
            (final(self)@, r.0@, events::events_v(r.1@)) == with_checklist(
                *prompts,
                old(self)@,
                exec@,
                cancelled,
            ),
    {
        match exec_note(exec, cancelled) {
            Some(note) => {
                return (Step::Wait, notice(note));
            },
            None => {},
        }
        let known = match &self.chain {
            Some(c) => ids_of(&c.nodes),
            None => Vec::new(),
        };
        let faults = exec.rework_problems(&known);
        assert(text::texts(faults@).len() == faults@.len());
        if faults.len() > 0 {
            let what = join(&faults, "；");
            let table = match &self.chain {
                Some(c) => node_table(&c.nodes),
                None => String::new(),
            };
            let retry = cat4(
                "你上一次的清单用不了（",
                what.as_str(),
                "）。没过（fail）的条目**必须**填 rework，且只能取下面这张表里的节点 id：\n",
                table.as_str(),
            );
            let msgs = self.whole_request(prompts, Some(retry.as_str()));
            let text = cat3(
                "[总验收] 这次判定用不了（",
                what.as_str(),
                "），已要求核心重填；要停就点「停止」。",
            );
            let mut out = notice(text);
            push_event(&mut out, core_at_work());
            return (Step::ReviewAll(msgs), out);
        }
        let mut out = no_events();
        push_event(&mut out, review_event(exec));
        let bad = exec.rework_targets();
        assert(text::texts(bad@).len() == bad@.len());
        if bad.len() > 0 {
            let ghost iv = exec@.items;
            let ghost head = events::events_v(out@);
            let mut i: usize = 0;
            assert(head + item_events(iv, 0) =~= head);
            while i < exec.items.len()
                invariant
                    i <= exec.items@.len(),
                    iv == exec@.items,
                    iv == review::check_items(exec.items@),
                    events::events_v(out@) == head + item_events(iv, i as int),
                decreases exec.items@.len() - i,
            {
                let it = &exec.items[i];
                assert(iv[i as int] == it@);
                let ghost prev = events::events_v(out@);
                if eq_ignore_case(it.status.as_str(), "fail") {
                    let node = match &it.rework {
                        Some(n) => n.clone(),
                        None => String::new(),
                    };
                    let why = match &it.reason {
                        Some(n) => n.clone(),
                        None => String::new(),
                    };
                    assert(node@ =~= review::or_nothing(it@.rework));
                    assert(why@ =~= review::or_nothing(it@.reason));
                    push_event(
                        &mut out,
                        SessionEvent::Notice(rework_note(node.as_str(), why.as_str())),
                    );
                }
                i = i + 1;
                assert(events::events_v(out@) =~= head + item_events(iv, i as int));
            }
            push_event(
                &mut out,
                SessionEvent::Notice(
                    cat3(
                        "[总验收] 没通过：",
                        join(&bad, "、").as_str(),
                        "。点「继续」后**只重派这些**（不交付）。",
                    ),
                ),
            );
            self.ask_user(Pending::NodeBlocked { nodes: bad }, &mut out);
            assert(events::events_v(out@) =~= with_checklist(
                *prompts,
                old(self)@,
                exec@,
                cancelled,
            ).2);
            return (Step::Wait, out);
        }
        push_event(
            &mut out,
            SessionEvent::Delivery { ok: exec.all_pass(), over_rework: false },
        );
        push_event(&mut out, SessionEvent::Ended);
        self.done = true;
        assert(events::events_v(out@) =~= with_checklist(*prompts, old(self)@, exec@, cancelled).2);
        (Step::Wait, out)
    }
}

/// What the user is told where the acceptance broke off: that they stopped it, or
/// why; nothing where it did not.
pub fn exec_note(exec: &Execution, cancelled: bool) -> (r: Option<String>)
    ensures
        text::opt_text(r) == if exec@.stopped || cancelled {
            Some(events::stopped_text())
        } else {
            match exec@.error {
                Some(e) => Some(events::interrupted_text(e)),
                None => None,
            }
        },
{
    if exec.stopped || cancelled {
        return Some(stopped_note());
    }
    match &exec.error {
        Some(e) => Some(interrupted_note(e.as_str())),
        None => None,
    }
}


// ---- what the user does ----

/// The end of a work that cannot go on.
pub open spec fn gives_up(w: WorkV, text: Seq<char>) -> (WorkV, StepV, Seq<EventV>) {
    (WorkV { done: true, ..w }, StepV::Wait, seq![EventV::Notice(text), EventV::Ended])
}

fn give_up(text: &str) -> (r: Vec<SessionEvent>)
    ensures
        events::events_v(r@) == seq![EventV::Notice(text@), EventV::Ended],
{
    let mut out = notice(text.to_owned());
    push_event(&mut out, SessionEvent::Ended);
    assert(events::events_v(out@) =~= seq![EventV::Notice(text@), EventV::Ended]);
    out
}

pub open spec fn agents_text(p: Prompts, known: Seq<(Seq<char>, Agent)>) -> Seq<char> {
    if known.len() == 0 {
        p.core.no_agents@
    } else {
        text::joined(agents::agent_lines(p, known), "\n"@)
    }
}

/// The request to draft a roster: who and what there is, and the task.
pub open spec fn slate_request(p: Prompts, s: Settings, modules: Seq<Module>, task: Seq<char>) -> Seq<
    MsgV,
> {
    seq![
        ports::plain_msg("system"@, p.core.slate.system@),
        ports::plain_msg(
            "user"@,
            prompt::filled(
                p.core.slate.user@,
                seq![
                    ("agents"@, agents_text(p, s.agents@)),
                    ("modules"@, text::joined(module::listing_lines(p.core.tool_texts, modules), "\n"@)),
                    ("models"@, text::joined(agents::model_lines(p.core.tool_texts, s.models@), "\n"@)),
                    ("task"@, task),
                ],
            ),
        ),
    ]
}

/// Asks for a roster.
pub fn draft_slate(prompts: &Prompts, settings: &Settings, modules: &Roster, task: &str) -> (r: Vec<
    Msg,
>)
    requires
        prompt::book_sound(*prompts),
    ensures
        ports::msgs_v(r@) == slate_request(*prompts, *settings, modules.modules@, task@),
{
    let user = fill4(
        prompts.core.slate.user.as_str(),
        "agents",
        crate::agents::listing(prompts, &settings.agents).as_str(),
        "modules",
        crate::module::listing(modules, &prompts.core.tool_texts).as_str(),
        "models",
        model_listing(&settings.models, &prompts.core.tool_texts).as_str(),
        "task",
        task,
    );
    let ghost uv = user@;
    let mut msgs: Vec<Msg> = Vec::new();
    msgs.push(Msg::system(prompts.core.slate.system.clone()));
    msgs.push(Msg::user(user));
    assert(ports::msgs_v(msgs@) =~= seq![
        ports::plain_msg("system"@, prompts.core.slate.system@),
        ports::plain_msg("user"@, uv),
    ]);
    msgs
}

/// The names of the team, as they are announced.
pub open spec fn team_text(roster: Seq<AgentMetaV>) -> Seq<char> {
    "[建组] "@ + text::joined(history::agent_names(roster), " + "@)
}

/// The work after the task was given.
pub open spec fn with_task(
    p: Prompts,
    s: Settings,
    modules: Seq<Module>,
    w: WorkV,
    task: Seq<char>,
) -> (WorkV, StepV, Seq<EventV>) {
    if text::trimmed(task).len() == 0 {
        gives_up(w, "[取消] 需求为空"@)
    } else {
        let told = with_own_line(WorkV { task, ..w });
        let line = own_line(w, events::user_line("需求"@, task));
        if w.delegated {
            (told, StepV::Draft(slate_request(p, s, modules, task)), seq![line, core_works()])
        } else {
            (
                WorkV { pending: Some(PendingV::ConfirmBegin), ..told },
                StepV::Wait,
                seq![line, EventV::Notice(team_text(w.roster))] + gate_events(
                    PendingV::ConfirmBegin,
                    w.advice,
                ),
            )
        }
    }
}

/// How an agent of a drafted roster is shown.
pub open spec fn slate_text(a: AgentMetaV, why: Seq<char>) -> Seq<char> {
    if a.transient {
        a.name + "〈"@ + text::joined(a.modules, ","@) + "〉→ "@ + review::or_nothing(a.model) + "（"@ + why
            + "）"@
    } else {
        a.name + "（复用；"@ + why + "）"@
    }
}

pub fn slate_item(a: &AgentMeta, why: &str) -> (r: String)
    ensures
        r@ == slate_text(a@, why@),
{
    if a.transient {
        let model = match &a.model {
            Some(m) => m.clone(),
            None => String::new(),
        };
        assert(model@ =~= review::or_nothing(a@.model));
        let head = cat4(
            a.name.as_str(),
            "〈",
            join(&a.modules, ",").as_str(),
            "〉→ ",
        );
        cat5(head.as_str(), model.as_str(), "（", why, "）")
    } else {
        cat4(a.name.as_str(), "（复用；", why, "）")
    }
}

pub open spec fn refusals(v: Seq<Seq<char>>) -> Seq<EventV> {
    v.map_values(|r: Seq<char>| EventV::Notice("[代拟] "@ + r + "，拒收"@))
}

pub open spec fn slate_texts(v: Seq<(AgentMetaV, Seq<char>)>) -> Seq<Seq<char>> {
    v.map_values(|e: (AgentMetaV, Seq<char>)| slate_text(e.0, e.1))
}

pub open spec fn picked_agents(v: Seq<(AgentMetaV, Seq<char>)>) -> Seq<AgentMetaV> {
    v.map_values(|e: (AgentMetaV, Seq<char>)| e.0)
}

/// The work after a roster was drafted: what is wrong with it is refused, and the
/// rest waits for the user.
pub open spec fn with_slate(w: WorkV, team: Option<TeamV>) -> (WorkV, StepV, Seq<EventV>) {
    match team {
        None => gives_up(w, "[错误] 代拟失败（模型无响应格式）。请直接点名 agent。"@),
        Some(t) => {
            let head = refusals(t.rejected);
            if t.picked.len() == 0 {
                (
                    WorkV { done: true, ..w },
                    StepV::Wait,
                    head + seq![EventV::Notice("[错误] 代拟名单无可用 agent"@), EventV::Ended],
                )
            } else {
                (
                    WorkV {
                        slate: picked_agents(t.picked),
                        pending: Some(PendingV::ConfirmSlate),
                        ..with_own_line(w)
                    },
                    StepV::Wait,
                    head.push(
                        own_line(
                            w,
                            events::system_line("代拟"@, text::joined(slate_texts(t.picked), "；"@)),
                        ),
                    ) + gate_events(PendingV::ConfirmSlate, w.advice),
                )
            }
        },
    }
}

pub open spec fn opt_picks(
    picks: Option<Vec<RosterPick>>,
    s: Settings,
    modules: Seq<Module>,
) -> Option<TeamV> {
    match picks {
        Some(v) => Some(
            agents::team_of(v@, s.agents@, agents::module_ids(modules), s.models@, v@.len() as int),
        ),
        None => None,
    }
}

/// The work after the user confirmed the drafted roster, or did not.
pub open spec fn with_confirmation(
    p: Prompts,
    s: Settings,
    modules: Seq<Module>,
    w: WorkV,
    ok: bool,
) -> (WorkV, StepV, Seq<EventV>) {
    let now = with_own_line(w);
    let line = own_line(
        w,
        events::user_line(
            "名单"@,
            if ok {
                "确认"@
            } else {
                "取消"@
            },
        ),
    );
    if !ok {
        (
            WorkV { done: true, ..now },
            StepV::Wait,
            seq![line, EventV::Notice("[取消] 已按用户意愿取消"@), EventV::Ended],
        )
    } else if w.slate.len() == 0 {
        (
            now,
            StepV::Draft(slate_request(p, s, modules, w.task)),
            seq![
                line,
                EventV::Notice("[提示] 上次拟的名单未落档（重启会丢），重新拟一份，请再确认。"@),
                core_works(),
            ],
        )
    } else {
        (
            WorkV { roster: w.slate, pending: Some(PendingV::ConfirmBegin), ..now },
            StepV::Wait,
            seq![line, EventV::Notice(team_text(w.slate))] + gate_events(
                PendingV::ConfirmBegin,
                w.advice,
            ),
        )
    }
}

/// The members as they were assembled, and what their channels say of themselves.
#[derive(Debug)]
pub struct Assembled {
    pub members: Vec<Member>,
    pub notes: Vec<String>,
}

pub open spec fn notes_told(v: Seq<Seq<char>>) -> Seq<EventV> {
    v.map_values(|n: Seq<char>| EventV::Notice(n))
}

/// A discussion as it begins.
pub open spec fn new_talk(p: Prompts, members: Seq<MemberV>, allow: bool, task: Seq<char>) -> DiscV {
    let protocol = p.core.mechanism@ + "\n"@ + p.core.chat_protocol@;
    DiscV {
        members,
        transcript: Seq::empty(),
        round: 0,
        answers: Seq::empty(),
        closed: false,
        autonomy: allow,
        protocol,
        reminded: Seq::empty(),
        remind_round: 0,
        opener: prompt::filled(
            p.core.discuss.opener@,
            seq![("protocol"@, protocol), ("task"@, task)],
        ),
        cursor: Cursor::Opener(0),
        handed: 0,
    }
}

/// The work after the user let the discussion begin.
pub open spec fn with_begin(
    p: Prompts,
    w: WorkV,
    allow: bool,
    made: Result<Assembled, String>,
    demo: bool,
) -> (WorkV, StepV, Seq<EventV>) {
    if w.done || w.disc is Some {
        (w, StepV::Wait, Seq::empty())
    } else {
        let now = with_own_line(WorkV { allow, ..w });
        let line = own_line(
            w,
            events::user_line(
                "开始"@,
                if allow {
                    "yes,allow"@
                } else {
                    "yes"@
                },
            ),
        );
        match made {
            Err(e) => (now, StepV::Wait, seq![line, EventV::Notice("[装配失败] "@ + e@)]),
            Ok(m) => (
                WorkV {
                    disc: Some(
                        new_talk(p, crate::discussion::members_v(m.members@), allow, w.task),
                    ),
                    ..now
                },
                StepV::Again,
                seq![line] + notes_told(text::texts(m.notes@)) + (if demo {
                    noticed("[提示] 核心未配置供应商：整理/验收使用内置假模型（演示）"@)
                } else {
                    Seq::empty()
                }),
            ),
        }
    }
}

/// The work after a member's turn.
pub open spec fn with_turn(p: Prompts, w: WorkV, i: int, t: MemberTurnV, turn_id: u64) -> (
    WorkV,
    StepV,
    Seq<EventV>,
) {
    let f = discussion::fed(p, w.disc->0, i, t, turn_id);
    let a = sent_to(WorkV { disc: Some(f.0), ..w }, f.0.handed as int);
    let b = sent(a.0);
    match f.1 {
        Some(TurnOutV::AskUser { member, question }) => (
            WorkV { pending: Some(PendingV::Ask { member, question }), ..b.0 },
            StepV::Wait,
            a.1 + b.1 + gate_events(PendingV::Ask { member, question }, w.advice),
        ),
        _ => (b.0, StepV::Again, a.1 + b.1),
    }
}

/// The work after a member was passed over.
pub open spec fn with_silence(w: WorkV, i: int) -> (WorkV, Seq<EventV>) {
    match w.disc {
        Some(d) => if i < d.members.len() {
            let noted = DiscV {
                transcript: d.transcript.push(
                    events::system_line(Seq::empty(), "["@ + d.members[i].id + "] 本轮未回应"@),
                ),
                ..d
            };
            sent(WorkV { disc: Some(discussion::moved(noted, i)), ..w })
        } else {
            (w, Seq::empty())
        },
        None => (w, Seq::empty()),
    }
}

/// The work after the user answered a member: all members read it.
pub open spec fn with_answer(w: WorkV, text: Seq<char>) -> (WorkV, StepV) {
    match w.pending {
        Some(PendingV::Ask { member, question }) => (
            WorkV {
                pending: None,
                advice: Seq::empty(),
                disc: match w.disc {
                    Some(d) => Some(DiscV { answers: d.answers.push(text), ..d }),
                    None => None,
                },
                ..w
            },
            StepV::Again,
        ),
        _ => (w, StepV::Wait),
    }
}

/// What the core is told of what waits for the user.
pub open spec fn brief(w: WorkV, p: PendingV) -> Seq<char> {
    match p {
        PendingV::PlanReview => "方案："@ + review::or_nothing(w.plan) + "\n任务链：\n"@ + text::joined(
            chain_lines(w.chain),
            "\n"@,
        ),
        PendingV::NodeBlocked { nodes } => "没过验收的节点："@ + text::joined(nodes, "、"@),
        PendingV::Ask { member, question } => member + " 问："@ + question,
        PendingV::ConfirmSlate => "代拟名单待用户确认。"@,
        PendingV::ConfirmBegin => "名单已定，等用户确认开始讨论。"@,
    }
}

pub open spec fn chain_lines(c: Option<Seq<NodeV>>) -> Seq<Seq<char>> {
    match c {
        Some(nodes) => nodes.map_values(
            |n: NodeV| "- "@ + n.id + "（"@ + n.title + "）→ "@ + n.assignee,
        ),
        None => Seq::empty(),
    }
}

/// What the decision is about, in a word.
pub open spec fn gate_name(p: PendingV) -> Seq<char> {
    match p {
        PendingV::PlanReview => "方案待审"@,
        PendingV::NodeBlocked { nodes } => "节点没过"@,
        PendingV::Ask { member, question } => "请教"@,
        PendingV::ConfirmSlate => "名单待确认"@,
        PendingV::ConfirmBegin => "开始待确认"@,
    }
}

/// The request to judge whether the user is clear.
pub open spec fn clear_request(p: Prompts, w: WorkV, gate: PendingV, text: Seq<char>) -> Seq<MsgV> {
    seq![
        ports::plain_msg("system"@, p.core.verdict.system@),
        ports::plain_msg(
            "user"@,
            prompt::filled(
                p.core.verdict.user@,
                seq![("kind"@, gate_name(gate)), ("payload"@, brief(w, gate)), ("text"@, text)],
            ),
        ),
    ]
}

/// What comes of what the user writes: an answer goes to the team; what would let
/// the work go on is judged first; the rest is not for words.
pub open spec fn with_decision(p: Prompts, w: WorkV, text: Seq<char>, answer: Seq<char>) -> (
    WorkV,
    StepV,
    Seq<EventV>,
) {
    match w.pending {
        Some(PendingV::Ask { member, question }) => (
            with_answer(w, answer).0,
            with_answer(w, answer).1,
            Seq::empty(),
        ),
        Some(PendingV::PlanReview) => (
            w,
            StepV::Judge(clear_request(p, w, PendingV::PlanReview, text)),
            seq![core_works()],
        ),
        Some(PendingV::NodeBlocked { nodes }) => (
            w,
            StepV::Judge(clear_request(p, w, PendingV::NodeBlocked { nodes }, text)),
            seq![core_works()],
        ),
        Some(_) => (
            w,
            StepV::Wait,
            noticed("[裁决] 这一步是二选一（确认 / 取消），请用卡片上的按钮。"@),
        ),
        None => (w, StepV::Wait, noticed("[裁决] 现在没有等你定的事。"@)),
    }
}

/// The work after the user's words went into the transcript, if there were any.
pub open spec fn with_words(w: WorkV, text: Seq<char>, t: Seq<char>) -> (WorkV, Seq<EventV>) {
    if text::trimmed(text).len() == 0 {
        (w, Seq::empty())
    } else {
        (with_own_line(w), seq![own_line(w, events::user_line(Seq::empty(), t))])
    }
}

/// The work after the user approved the plan.
pub open spec fn with_approval(w: WorkV) -> (WorkV, EventV) {
    (
        WorkV { approved: true, pending: None, advice: Seq::empty(), ..with_own_line(w) },
        own_line(w, events::user_line("同意方案"@, Seq::empty())),
    )
}

/// The nodes with the first `n` of some names made fresh again.
pub open spec fn reset_below(c: Option<Seq<NodeV>>, ids: Seq<Seq<char>>, n: int) -> Option<Seq<NodeV>>
    decreases n,
{
    if n <= 0 {
        c
    } else {
        match reset_below(c, ids, n - 1) {
            Some(nodes) => Some(with_node(nodes, ids[n - 1], fresh_again())),
            None => None,
        }
    }
}

/// The work with the nodes sent back that did not pass, and no other.
pub open spec fn sent_back(w: WorkV) -> WorkV {
    match w.pending {
        Some(PendingV::NodeBlocked { nodes }) => WorkV {
            pending: None,
            advice: Seq::empty(),
            chain: reset_below(w.chain, nodes, nodes.len() as int),
            ..w
        },
        _ => w,
    }
}

/// The work after the user let it go on.
pub open spec fn with_resume(p: Prompts, s: Settings, modules: Seq<Module>, w: WorkV) -> (
    WorkV,
    StepV,
    Seq<EventV>,
) {
    let now = sent_back(w);
    if w.done {
        (w, StepV::Wait, Seq::empty())
    } else if w.disc is Some {
        (now, StepV::Again, Seq::empty())
    } else if w.delegated && w.slate.len() == 0 && w.roster.len() == 0 {
        (now, StepV::Draft(slate_request(p, s, modules, w.task)), seq![core_works()])
    } else {
        (now, StepV::Wait, noticed("[提示] 等待你在裁决门确认名单 / 开始讨论。"@))
    }
}

/// Whether the user was clear, as the core sees it, and why.
#[derive(Debug)]
pub struct Clarity {
    pub clear: bool,
    pub why: String,
}

/// The work after it was judged whether the user was clear: only then it goes on.
pub open spec fn with_clarity(
    p: Prompts,
    s: Settings,
    modules: Seq<Module>,
    w: WorkV,
    made: Result<Clarity, String>,
    text: Seq<char>,
    t: Seq<char>,
) -> (WorkV, StepV, Seq<EventV>) {
    let said = with_words(w, text, t);
    match made {
        Ok(c) => if c.clear {
            let why = if text::trimmed(c.why@).len() == 0 {
                Seq::empty()
            } else {
                noticed("[裁决] 照你说的开工："@ + c.why@)
            };
            match w.pending {
                Some(PendingV::PlanReview) => {
                    let a = with_approval(said.0);
                    let r = with_resume(p, s, modules, a.0);
                    (r.0, r.1, (said.1 + why).push(a.1) + r.2)
                },
                _ => {
                    let r = with_resume(p, s, modules, said.0);
                    (r.0, r.1, said.1 + why + r.2)
                },
            }
        } else {
            (
                said.0,
                StepV::Wait,
                said.1 + noticed(
                    if text::trimmed(c.why@).len() == 0 {
                        "[裁决] 我还没听出明确的意思，先不开工；请再说一句（要做 / 不要做 / 照哪个走）。"@
                    } else {
                        "[裁决] 先不开工——"@ + c.why@ + "；请再说一句。"@
                    },
                ),
            )
        },
        Err(e) => (
            said.0,
            StepV::Wait,
            said.1 + noticed(
                events::interrupted_text(
                    "判定你的意思时没能问模型（"@ + e@ + "）；为稳妥先不开工，请再说一句。"@,
                ),
            ),
        ),
    }
}

/// The members with those of a name no longer agreeing.
pub open spec fn disagreed(v: Seq<MemberV>, id: Seq<char>) -> Seq<MemberV> {
    v.map_values(
        |m: MemberV|
            if m.id == id {
                MemberV { agreed: false, ..m }
            } else {
                m
            },
    )
}

/// The work after the user took back what a member agreed to.
pub open spec fn with_withdrawal(w: WorkV, agent: Seq<char>) -> (WorkV, EventV) {
    (
        WorkV {
            disc: match w.disc {
                Some(d) => Some(
                    DiscV { members: disagreed(d.members, agent), closed: false, ..d },
                ),
                None => None,
            },
            ..with_own_line(w)
        },
        own_line(w, events::user_line("撤回"@, agent)),
    )
}


fn push_notices(out: &mut Vec<SessionEvent>, v: &Vec<String>)
    ensures
        events::events_v(final(out)@) == events::events_v(old(out)@) + notes_told(text::texts(v@)),
{
    let ghost head = events::events_v(out@);
    let ghost all = notes_told(text::texts(v@));
    let mut i: usize = 0;
    assert(head + all.take(0) =~= head);
    while i < v.len()
        invariant
            i <= v@.len(),
            all == notes_told(text::texts(v@)),
            events::events_v(out@) == head + all.take(i as int),
        decreases v@.len() - i,
    {
        push_event(out, SessionEvent::Notice(v[i].clone()));
        assert(all[i as int] == EventV::Notice(v@[i as int]@));
        i = i + 1;
        assert(events::events_v(out@) =~= head + all.take(i as int));
    }
    assert(all.take(all.len() as int) =~= all);
}

impl CollabSession {
    /// A work that begins.
    pub fn start(roster: Vec<AgentMeta>, delegated: bool, shared: RealPath) -> (r: CollabSession)
        ensures
            r@ == (WorkV {
                delegated,
                roster: history::agents_v(roster@),
                task: Seq::empty(),
                slate: Seq::empty(),
                pending: None,
                allow: false,
                plan: None,
                chain: None,
                disc: None,
                turns: 0,
                turn_error: None,
                emitted: 0,
                next_line: 0,
                shared: shared@,
                done: false,
                approved: false,
                advice: Seq::empty(),
            }),
            work_sound(r@),
    {
        let r = CollabSession {
            delegated,
            roster,
            task: String::new(),
            slate_picks: Vec::new(),
            pending: None,
            allow: false,
            plan: None,
            chain: None,
            disc: None,
            turns: 0,
            turn_error: None,
            emitted: 0,
            next_line: 0,
            shared,
            done: false,
            plan_approved: false,
            gate_advice: String::new(),
        };
        assert(history::agents_v(r.slate_picks@) =~= Seq::empty());
        r
    }

    /// What a text of the user becomes for the whole team.
    pub closed spec fn team_words(self, refs: RefsPrompts, text: Seq<char>) -> Seq<char> {
        refs::rewritten(text, None, RefRoots { work: self.shared, private: None }, refs)
    }

    fn reword(&self, prompts: &Prompts, text: &str) -> (r: String)
        requires
            prompt::book_sound(*prompts),
        ensures
            r@ == self.team_words(prompts.core.refs, text@),
    {
        let roots = RefRoots { work: self.shared.copy(), private: None };
        proof {
            refs::lemma_roots_by_view(
                text@,
                None,
                roots,
                RefRoots { work: self.shared, private: None },
                prompts.core.refs,
            );
        }
        rewrite(text, None, &roots, &prompts.core.refs)
    }

    /// The user gives the task.
    pub fn set_task(&mut self, prompts: &Prompts, settings: &Settings, modules: &Roster, task: &str) -> (r: (
        Step,
        Vec<SessionEvent>,
    ))
        requires
            prompt::book_sound(*prompts),
            work_sound(old(self)@),
        ensures
            handed_kept(old(self)@) ==> handed_kept(final(self)@),
            (final(self)@, r.0@, events::events_v(r.1@)) == with_task(
                *prompts,
                *settings,
                modules.modules@,
                old(self)@,
                old(self).team_words(prompts.core.refs, task@),
            ),
    {
        let t = self.reword(prompts, task);
        if is_blank(t.as_str()) {
            self.done = true;
            return (Step::Wait, give_up("[取消] 需求为空"));
        }
        let ghost w = self@;
        self.task = t.clone();
        let mut out = no_events();
        let e = self.line_event(LineView::user("需求", t.clone()));
        push_event(&mut out, e);
        if self.delegated {
            push_event(&mut out, core_at_work());
            assert(events::events_v(out@) =~= seq![
                own_line(w, events::user_line("需求"@, t@)),
                core_works(),
            ]);
            return (
                Step::Draft(draft_slate(prompts, settings, modules, t.as_str())),
                out,
            );
        }
        let names = names_of_agents(&self.roster);
        push_event(
            &mut out,
            SessionEvent::Notice(cat2("[建组] ", join(&names, " + ").as_str())),
        );
        assert(events::events_v(out@) =~= seq![
            own_line(w, events::user_line("需求"@, t@)),
            EventV::Notice(team_text(w.roster)),
        ]);
        self.ask_user(Pending::ConfirmBegin, &mut out);
        (Step::Wait, out)
    }

    /// Takes a drafted roster; `None` where the core gave none.
    pub fn drafted(&mut self, picks: Option<Vec<RosterPick>>, settings: &Settings, modules: &Roster) -> (r: (
        Step,
        Vec<SessionEvent>,
    ))
        requires
            work_sound(old(self)@),
        ensures
            handed_kept(old(self)@) ==> handed_kept(final(self)@),
            (final(self)@, r.0@, events::events_v(r.1@)) == replied(
                with_slate(
                    old(self)@,
                    opt_picks(picks, *settings, modules.modules@),
                ),
            ),
    {
        let (step, out) = self.take_slate(picks, settings, modules);
        (step, idle_first(out))
    }

    fn take_slate(&mut self, picks: Option<Vec<RosterPick>>, settings: &Settings, modules: &Roster) -> (r: (
        Step,
        Vec<SessionEvent>,
    ))
        requires
            work_sound(old(self)@),
        ensures
            handed_kept(old(self)@) ==> handed_kept(final(self)@),
            (final(self)@, r.0@, events::events_v(r.1@)) == with_slate(
                old(self)@,
                opt_picks(picks, *settings, modules.modules@),
            ),
    {
        let ghost w = self@;
        let picks = match picks {
            Some(p) => p,
            None => {
                self.done = true;
                return (
                    Step::Wait,
                    give_up("[错误] 代拟失败（模型无响应格式）。请直接点名 agent。"),
                );
            },
        };
        let ghost team = opt_picks(Some(picks), *settings, modules.modules@)->0;
        let (picked, rejected) = resolve_picks(
            &picks,
            &settings.agents,
            modules,
            &settings.models,
        );
        let ghost pv = team.picked;
        let mut out = no_events();
        let ghost all = refusals(team.rejected);
        let mut i: usize = 0;
        assert(events::events_v(out@) =~= all.take(0));
        while i < rejected.len()
            invariant
                i <= rejected@.len(),
                all == refusals(team.rejected),
                team.rejected == text::texts(rejected@),
                events::events_v(out@) == all.take(i as int),
            decreases rejected@.len() - i,
        {
            push_event(
                &mut out,
                SessionEvent::Notice(cat3("[代拟] ", rejected[i].as_str(), "，拒收")),
            );
            assert(all[i as int] == EventV::Notice("[代拟] "@ + rejected@[i as int]@ + "，拒收"@));
            i = i + 1;
            assert(events::events_v(out@) =~= all.take(i as int));
        }
        assert(all.take(all.len() as int) =~= all);
        assert(pv.len() == picked@.len());
        if picked.len() == 0 {
            self.done = true;
            push_events(&mut out, give_up("[错误] 代拟名单无可用 agent"));
            return (Step::Wait, out);
        }
        let mut items: Vec<String> = Vec::new();
        let mut team_picks: Vec<AgentMeta> = Vec::new();
        let ghost want = slate_texts(pv);
        let ghost agents = picked_agents(pv);
        let mut k: usize = 0;
        assert(text::texts(items@) =~= want.take(0));
        assert(history::agents_v(team_picks@) =~= agents.take(0));
        while k < picked.len()
            invariant
                k <= picked@.len(),
                pv == agents::picked_v(picked@),
                want == slate_texts(pv),
                agents == picked_agents(pv),
                text::texts(items@) == want.take(k as int),
                history::agents_v(team_picks@) == agents.take(k as int),
            decreases picked@.len() - k,
        {
            let l = slate_item(&picked[k].0, picked[k].1.as_str());
            let a = picked[k].0.copy();
            let ghost prev = items@;
            let ghost before = team_picks@;
            items.push(l);
            team_picks.push(a);
            proof {
                assert(pv[k as int] == (picked@[k as int].0@, picked@[k as int].1@));
                text::lemma_texts_push(prev, l);
                assert(want[k as int] == l@);
                assert(text::texts(items@) =~= want.take(k + 1));
                assert(history::agents_v(team_picks@) =~= history::agents_v(before).push(a@));
                assert(agents[k as int] == a@);
                assert(history::agents_v(team_picks@) =~= agents.take(k + 1));
            }
            k = k + 1;
        }
        assert(want.take(want.len() as int) =~= want);
        assert(agents.take(agents.len() as int) =~= agents);
        let e = self.line_event(LineView::system("代拟", join(&items, "；")));
        push_event(&mut out, e);
        self.slate_picks = team_picks;
        self.ask_user(Pending::ConfirmSlate, &mut out);
        (Step::Wait, out)
    }

    /// The user confirms the drafted roster, or does not.
    pub fn confirm_slate(
        &mut self,
        prompts: &Prompts,
        settings: &Settings,
        modules: &Roster,
        ok: bool,
    ) -> (r: (Step, Vec<SessionEvent>))
        requires
            prompt::book_sound(*prompts),
            work_sound(old(self)@),
        ensures
            handed_kept(old(self)@) ==> handed_kept(final(self)@),
            (final(self)@, r.0@, events::events_v(r.1@)) == with_confirmation(
                *prompts,
                *settings,
                modules.modules@,
                old(self)@,
                ok,
            ),
    {
        let ghost want = with_confirmation(*prompts, *settings, modules.modules@, self@, ok);
        let mut out = no_events();
        let word = if ok {
            "确认"
        } else {
            "取消"
        };
        let e = self.line_event(LineView::user("名单", word.to_owned()));
        push_event(&mut out, e);
        if !ok {
            push_events(&mut out, give_up("[取消] 已按用户意愿取消"));
            self.done = true;
            assert(events::events_v(out@) =~= want.2);
            return (Step::Wait, out);
        }
        assert(history::agents_v(self.slate_picks@).len() == self.slate_picks@.len());
        if self.slate_picks.len() == 0 {
            push_event(
                &mut out,
                SessionEvent::Notice(
                    "[提示] 上次拟的名单未落档（重启会丢），重新拟一份，请再确认。".to_owned(),
                ),
            );
            push_event(&mut out, core_at_work());
            assert(events::events_v(out@) =~= want.2);
            return (
                Step::Draft(draft_slate(prompts, settings, modules, self.task.as_str())),
                out,
            );
        }
        self.roster = copy_agents(&self.slate_picks);
        let names = names_of_agents(&self.roster);
        push_event(
            &mut out,
            SessionEvent::Notice(cat2("[建组] ", join(&names, " + ").as_str())),
        );
        self.ask_user(Pending::ConfirmBegin, &mut out);
        assert(events::events_v(out@) =~= want.2);
        (Step::Wait, out)
    }

    /// The user lets the discussion begin; with `allow` the team decides for itself.
    pub fn begin(
        &mut self,
        prompts: &Prompts,
        allow: bool,
        made: Result<Assembled, String>,
        demo: bool,
    ) -> (r: (Step, Vec<SessionEvent>))
        requires
            prompt::book_sound(*prompts),
            work_sound(old(self)@),
        ensures
            handed_kept(old(self)@) ==> handed_kept(final(self)@),
            (final(self)@, r.0@, events::events_v(r.1@)) == with_begin(
                *prompts,
                old(self)@,
                allow,
                made,
                demo,
            ),
    {
        let ghost want = with_begin(*prompts, self@, allow, made, demo);
        if self.done || self.disc.is_some() {
            return (Step::Wait, no_events());
        }
        self.allow = allow;
        let mut out = no_events();
        let word = if allow {
            "yes,allow"
        } else {
            "yes"
        };
        let e = self.line_event(LineView::user("开始", word.to_owned()));
        push_event(&mut out, e);
        let m = match made {
            Ok(m) => m,
            Err(e) => {
                push_event(&mut out, SessionEvent::Notice(cat2("[装配失败] ", e.as_str())));
                assert(events::events_v(out@) =~= want.2);
                return (Step::Wait, out);
            },
        };
        push_notices(&mut out, &m.notes);
        if demo {
            push_event(
                &mut out,
                SessionEvent::Notice(
                    "[提示] 核心未配置供应商：整理/验收使用内置假模型（演示）".to_owned(),
                ),
            );
        }
        assert(events::events_v(out@) =~= want.2);
        let protocol = cat3(
            prompts.core.mechanism.as_str(),
            "\n",
            prompts.core.chat_protocol.as_str(),
        );
        let mut disc = Discussion::new(m.members, allow, protocol);
        disc.start(prompts, self.task.as_str());
        assert(disc@ =~= (want.0.disc->0));
        self.disc = Some(disc);
        (Step::Again, out)
    }

    /// Takes a member's turn.
    pub fn feed_with(&mut self, prompts: &Prompts, i: usize, turn: MemberTurn, turn_id: u64) -> (r: (
        Step,
        Vec<SessionEvent>,
    ))
        requires
            prompt::book_sound(*prompts),
            work_sound(old(self)@),
            old(self)@.disc is Some,
            i < (old(self)@.disc->0).members.len(),
        ensures
            handed_kept(old(self)@) ==> handed_kept(final(self)@),
            (final(self)@, r.0@, events::events_v(r.1@)) == with_turn(
                *prompts,
                old(self)@,
                i as int,
                turn@,
                turn_id,
            ),
    {
        let ghost start = self@;
        let ghost tv = turn@;
        match self.disc.take() {
            Some(d) => {
                let mut d = d;
                let ghost d0 = d@;
                let (asks, _lines) = d.feed(prompts, i, turn, turn_id);
                let handed = d.handed;
                let n = d.transcript.len();
                proof {
                    assert(events::line_views(d.transcript@).len() == n);
                    assert(d@.transcript.len() <= d0.transcript.len() + 2);
                    assert(d@.handed <= d@.transcript.len());
                }
                self.disc = Some(d);
                let mut out = self.send_to(handed);
                let more = self.send_to(n);
                push_events(&mut out, more);
                match asks {
                    Some(TurnOut::AskUser { member, question }) => {
                        self.ask_user(Pending::Ask { member, question }, &mut out);
                        (Step::Wait, out)
                    },
                    _ => (Step::Again, out),
                }
            },
            None => (Step::Wait, no_events()),
        }
    }

    /// Says what is done after a member's turn.
    pub fn after_member_turn(&mut self, i: usize, has_verb: bool, user_stopped: bool, remind_cap: u32) -> (r:
        AfterTurn)
        requires
            old(self)@.disc is Some,
            i < (old(self)@.disc->0).members.len(),
        ensures
            handed_kept(old(self)@) ==> handed_kept(final(self)@),
            ({
                let a = discussion::after(
                    old(self)@.disc->0,
                    i as int,
                    has_verb,
                    user_stopped,
                    remind_cap,
                );
                final(self)@ == (WorkV { disc: Some(a.0), ..old(self)@ }) && r == a.1
            }),
    {
        match self.disc.take() {
            Some(d) => {
                let mut d = d;
                let r = d.after_turn(i, has_verb, user_stopped, remind_cap);
                self.disc = Some(d);
                r
            },
            None => AfterTurn::Done,
        }
    }

    /// Passes a member over that did not answer, and says so.
    pub fn pass_over(&mut self, i: usize) -> (r: Vec<SessionEvent>)
        requires
            work_sound(old(self)@),
        ensures
            handed_kept(old(self)@) ==> handed_kept(final(self)@),
            (final(self)@, events::events_v(r@)) == with_silence(old(self)@, i as int),
    {
        let ghost start = self@;
        match self.disc.take() {
            Some(d) => {
                let mut d = d;
                let n = d.members.len();
                assert(d@.members.len() == n);
                if i >= n {
                    self.disc = Some(d);
                    return no_events();
                }
                assert(d@.members[i as int] == d.members@[i as int]@);
                let note = cat3("[", d.members[i].id.as_str(), "] 本轮未回应");
                d.note_system(note.as_str());
                d.skip(i);
                let len = d.transcript.len();
                assert(events::line_views(d.transcript@).len() == len);
                self.disc = Some(d);
                self.send_to(len)
            },
            None => no_events(),
        }
    }

    /// The user answers a member; the whole team reads it.
    pub fn answer(&mut self, prompts: &Prompts, text: &str) -> (r: Step)
        requires
            prompt::book_sound(*prompts),
        ensures
            handed_kept(old(self)@) ==> handed_kept(final(self)@),
            (final(self)@, r@) == with_answer(
                old(self)@,
                old(self).team_words(prompts.core.refs, text@),
            ),
    {
        let asked = match &self.pending {
            Some(Pending::Ask { .. }) => true,
            _ => false,
        };
        if !asked {
            return Step::Wait;
        }
        let t = self.reword(prompts, text);
        self.pending = None;
        self.gate_advice = String::new();
        match self.disc.take() {
            Some(d) => {
                let mut d = d;
                let ghost before = d.pending_user_answers@;
                d.pending_user_answers.push(t);
                proof {
                    text::lemma_texts_push(before, t);
                }
                self.disc = Some(d);
            },
            None => {},
        }
        Step::Again
    }

    fn decision_brief(&self, p: &Pending) -> (r: String)
        ensures
            r@ == brief(self@, p@),
    {
        match p {
            Pending::PlanReview => {
                let mut ls: Vec<String> = Vec::new();
                let ghost all = chain_lines(self@.chain);
                assert(text::texts(ls@) =~= all.take(0));
                match &self.chain {
                    Some(c) => {
                        let mut i: usize = 0;
                        while i < c.nodes.len()
                            invariant
                                i <= c.nodes@.len(),
                                all == chain_lines(Some(c@)),
                                text::texts(ls@) == all.take(i as int),
                            decreases c.nodes@.len() - i,
                        {
                            let n = &c.nodes[i];
                            let l = cat6(
                                "- ",
                                n.id.as_str(),
                                "（",
                                n.title.as_str(),
                                "）→ ",
                                n.assignee.as_str(),
                            );
                            let ghost prev = ls@;
                            ls.push(l);
                            proof {
                                text::lemma_texts_push(prev, l);
                                assert(c@[i as int] == n@);
                                assert(all[i as int] == l@);
                                assert(text::texts(ls@) =~= all.take(i + 1));
                            }
                            i = i + 1;
                        }
                    },
                    None => {},
                }
                assert(all.take(all.len() as int) =~= all);
                let plan = match &self.plan {
                    Some(p) => p.clone(),
                    None => String::new(),
                };
                assert(plan@ =~= review::or_nothing(self@.plan));
                cat4("方案：", plan.as_str(), "\n任务链：\n", join(&ls, "\n").as_str())
            },
            Pending::NodeBlocked { nodes } => cat2("没过验收的节点：", join(nodes, "、").as_str()),
            Pending::Ask { member, question } => cat3(
                member.as_str(),
                " 问：",
                question.as_str(),
            ),
            Pending::ConfirmSlate => "代拟名单待用户确认。".to_owned(),
            Pending::ConfirmBegin => "名单已定，等用户确认开始讨论。".to_owned(),
        }
    }

    fn judge_clear(&self, prompts: &Prompts, gate: &Pending, text: &str) -> (r: Vec<Msg>)
        requires
            prompt::book_sound(*prompts),
        ensures
            ports::msgs_v(r@) == clear_request(*prompts, self@, gate@, text@),
    {
        let kind = match gate {
            Pending::PlanReview => "方案待审",
            Pending::NodeBlocked { .. } => "节点没过",
            Pending::Ask { .. } => "请教",
            Pending::ConfirmSlate => "名单待确认",
            Pending::ConfirmBegin => "开始待确认",
        };
        let user = fill3(
            prompts.core.verdict.user.as_str(),
            "kind",
            kind,
            "payload",
            self.decision_brief(gate).as_str(),
            "text",
            text,
        );
        let ghost uv = user@;
        let mut msgs: Vec<Msg> = Vec::new();
        msgs.push(Msg::system(prompts.core.verdict.system.clone()));
        msgs.push(Msg::user(user));
        assert(ports::msgs_v(msgs@) =~= seq![
            ports::plain_msg("system"@, prompts.core.verdict.system@),
            ports::plain_msg("user"@, uv),
        ]);
        msgs
    }

    /// The user writes to what waits for them.
    pub fn decide(&mut self, prompts: &Prompts, text: &str) -> (r: (Step, Vec<SessionEvent>))
        requires
            prompt::book_sound(*prompts),
        ensures
            handed_kept(old(self)@) ==> handed_kept(final(self)@),
            (final(self)@, r.0@, events::events_v(r.1@)) == with_decision(
                *prompts,
                old(self)@,
                text@,
                old(self).team_words(prompts.core.refs, text@),
            ),
    {
        let gate = match &self.pending {
            Some(p) => p.copy(),
            None => {
                return (Step::Wait, notice("[裁决] 现在没有等你定的事。".to_owned()));
            },
        };
        match &gate {
            Pending::Ask { .. } => {
                let step = self.answer(prompts, text);
                (step, no_events())
            },
            Pending::PlanReview => (
                Step::Judge(self.judge_clear(prompts, &gate, text)),
                working_now(),
            ),
            Pending::NodeBlocked { .. } => (
                Step::Judge(self.judge_clear(prompts, &gate, text)),
                working_now(),
            ),
            _ => (
                Step::Wait,
                notice("[裁决] 这一步是二选一（确认 / 取消），请用卡片上的按钮。".to_owned()),
            ),
        }
    }

    fn note_user(&mut self, prompts: &Prompts, text: &str) -> (r: Vec<SessionEvent>)
        requires
            prompt::book_sound(*prompts),
            old(self)@.next_line < u64::MAX,
        ensures
            (final(self)@, events::events_v(r@)) == with_words(
                old(self)@,
                text@,
                old(self).team_words(prompts.core.refs, text::trimmed(text@)),
            ),
    {
        let said = trim(text);
        if said.as_str().unicode_len() == 0 {
            return no_events();
        }
        let t = self.reword(prompts, said.as_str());
        let mut out = no_events();
        proof {
            reveal_strlit("");
            assert(""@ =~= Seq::empty());
        }
        let e = self.line_event(LineView::user("", t));
        push_event(&mut out, e);
        assert(events::events_v(out@) =~= seq![e@]);
        out
    }

    /// The user approves the plan.
    pub fn approve_plan(&mut self) -> (r: SessionEvent)
        requires
            old(self)@.next_line < u64::MAX,
        ensures
            handed_kept(old(self)@) ==> handed_kept(final(self)@),
            (final(self)@, r@) == with_approval(old(self)@),
    {
        let e = self.line_event(LineView::user("同意方案", String::new()));
        self.plan_approved = true;
        self.pending = None;
        self.gate_advice = String::new();
        e
    }

    /// The user lets the work go on: what did not pass is done again, and nothing
    /// else.
    pub fn resume(&mut self, prompts: &Prompts, settings: &Settings, modules: &Roster) -> (r: (
        Step,
        Vec<SessionEvent>,
    ))
        requires
            prompt::book_sound(*prompts),
        ensures
            handed_kept(old(self)@) ==> handed_kept(final(self)@),
            (final(self)@, r.0@, events::events_v(r.1@)) == with_resume(
                *prompts,
                *settings,
                modules.modules@,
                old(self)@,
            ),
    {
        if self.done {
            return (Step::Wait, no_events());
        }
        let ghost w = self@;
        let back = match &self.pending {
            Some(Pending::NodeBlocked { nodes }) => Some(clone_strings(nodes)),
            _ => None,
        };
        match back {
            Some(nodes) => {
                let ghost ids = text::texts(nodes@);
                self.pending = None;
                self.gate_advice = String::new();
                let ghost base = self@;
                let mut i: usize = 0;
                while i < nodes.len()
                    invariant
                        i <= nodes@.len(),
                        ids == text::texts(nodes@),
                        base.chain == w.chain,
                        self@ == (WorkV { chain: reset_below(w.chain, ids, i as int), ..base }),
                    decreases nodes@.len() - i,
                {
                    self.reset_node(nodes[i].as_str());
                    i = i + 1;
                }
            },
            None => {},
        }
        assert(self@ =~= sent_back(w));
        if self.disc.is_some() {
            return (Step::Again, no_events());
        }
        assert(history::agents_v(self.slate_picks@).len() == self.slate_picks@.len());
        assert(history::agents_v(self.roster@).len() == self.roster@.len());
        if self.delegated && self.slate_picks.len() == 0 && self.roster.len() == 0 {
            return (
                Step::Draft(draft_slate(prompts, settings, modules, self.task.as_str())),
                working_now(),
            );
        }
        (Step::Wait, notice("[提示] 等待你在裁决门确认名单 / 开始讨论。".to_owned()))
    }

    /// Takes whether the user was clear, or why that is not known.
    pub fn judged(
        &mut self,
        prompts: &Prompts,
        settings: &Settings,
        modules: &Roster,
        made: Result<Clarity, String>,
        text: &str,
    ) -> (r: (Step, Vec<SessionEvent>))
        requires
            prompt::book_sound(*prompts),
            work_sound(old(self)@),
        ensures
            handed_kept(old(self)@) ==> handed_kept(final(self)@),
            (final(self)@, r.0@, events::events_v(r.1@)) == replied(
                with_clarity(
                    *prompts,
                    *settings,
                    modules.modules@,
                    old(self)@,
                    made,
                    text@,
                    old(self).team_words(prompts.core.refs, text::trimmed(text@)),
                ),
            ),
    {
        let (step, out) = self.take_clarity(prompts, settings, modules, made, text);
        (step, idle_first(out))
    }

    fn take_clarity(
        &mut self,
        prompts: &Prompts,
        settings: &Settings,
        modules: &Roster,
        made: Result<Clarity, String>,
        text: &str,
    ) -> (r: (Step, Vec<SessionEvent>))
        requires
            prompt::book_sound(*prompts),
            work_sound(old(self)@),
        ensures
            handed_kept(old(self)@) ==> handed_kept(final(self)@),
            (final(self)@, r.0@, events::events_v(r.1@)) == with_clarity(
                *prompts,
                *settings,
                modules.modules@,
                old(self)@,
                made,
                text@,
                old(self).team_words(prompts.core.refs, text::trimmed(text@)),
            ),
    {
        let ghost t = self.team_words(prompts.core.refs, text::trimmed(text@));
        let ghost w = self@;
        let ghost said = with_words(w, text@, t);
        let mut out = self.note_user(prompts, text);
        match made {
            Ok(c) => {
                let vague = is_blank(c.why.as_str());
                if c.clear {
                    if !vague {
                        push_events(
                            &mut out,
                            notice(cat2("[裁决] 照你说的开工：", c.why.as_str())),
                        );
                    }
                    let ghost why = if text::trimmed(c.why@).len() == 0 {
                        Seq::empty()
                    } else {
                        noticed("[裁决] 照你说的开工："@ + c.why@)
                    };
                    assert(events::events_v(out@) =~= said.1 + why);
                    let plan = match &self.pending {
                        Some(Pending::PlanReview) => true,
                        _ => false,
                    };
                    if plan {
                        let e = self.approve_plan();
                        push_event(&mut out, e);
                        let (step, more) = self.resume(prompts, settings, modules);
                        push_events(&mut out, more);
                        return (step, out);
                    }
                    let (step, more) = self.resume(prompts, settings, modules);
                    push_events(&mut out, more);
                    return (step, out);
                }
                let note = if vague {
                    "[裁决] 我还没听出明确的意思，先不开工；请再说一句（要做 / 不要做 / 照哪个走）。".to_owned()
                } else {
                    cat3("[裁决] 先不开工——", c.why.as_str(), "；请再说一句。")
                };
                push_events(&mut out, notice(note));
                (Step::Wait, out)
            },
            Err(e) => {
                let why = cat3(
                    "判定你的意思时没能问模型（",
                    e.as_str(),
                    "）；为稳妥先不开工，请再说一句。",
                );
                push_events(&mut out, notice(interrupted_note(why.as_str())));
                (Step::Wait, out)
            },
        }
    }

    /// The user takes back what a member agreed to: the discussion goes on.
    pub fn withdraw_agree(&mut self, agent: &str) -> (r: SessionEvent)
        requires
            old(self)@.next_line < u64::MAX,
        ensures
            handed_kept(old(self)@) ==> handed_kept(final(self)@),
            (final(self)@, r@) == with_withdrawal(old(self)@, agent@),
    {
        let ghost w = self@;
        let e = self.line_event(LineView::user("撤回", agent.to_owned()));
        match self.disc.take() {
            Some(d) => {
                let mut d = d;
                let ghost d0 = d@;
                let ghost want = disagreed(d0.members, agent@);
                let mut ms: Vec<Member> = Vec::new();
                let mut rest = d.members;
                let ghost all = rest@;
                let mut i: usize = 0;
                let n = rest.len();
                assert(crate::discussion::members_v(ms@) =~= want.take(0));
                while i < n
                    invariant
                        i <= n,
                        n == all.len(),
                        rest@ == all.skip(i as int),
                        want == disagreed(crate::discussion::members_v(all), agent@),
                        crate::discussion::members_v(ms@) == want.take(i as int),
                    decreases n - i,
                {
                    let mut m = rest.remove(0);
                    assert(m == all[i as int]);
                    assert(crate::discussion::members_v(all)[i as int] == m@);
                    if str_eq(m.id.as_str(), agent) {
                        m.agreed = false;
                    }
                    let ghost prev = ms@;
                    ms.push(m);
                    proof {
                        assert(rest@ =~= all.skip(i + 1));
                        assert(want[i as int] == m@);
                        assert(crate::discussion::members_v(ms@)
                            =~= crate::discussion::members_v(prev).push(m@));
                        assert(crate::discussion::members_v(ms@) =~= want.take(i + 1));
                    }
                    i = i + 1;
                }
                assert(want.take(want.len() as int) =~= want);
                d.members = ms;
                d.closed = false;
                self.disc = Some(d);
            },
            None => {},
        }
        e
    }
}


// ---- a work that was kept ----

/// What waits for the user, by what was kept.
pub open spec fn state_pending(st: CollabV) -> Option<PendingV> {
    if st.ended {
        None
    } else if !st.begun {
        if st.slate is Some && !st.slate_confirmed {
            Some(PendingV::ConfirmSlate)
        } else if st.task is Some {
            Some(PendingV::ConfirmBegin)
        } else {
            None
        }
    } else {
        match st.pending_ask {
            Some(a) => Some(PendingV::Ask { member: a.0, question: a.1 }),
            None => None,
        }
    }
}

/// Says what waits for the user, by what was kept.
pub fn derive_pending(st: &CollabState) -> (r: Option<Pending>)
    ensures
        events::opt_pending(r) == state_pending(st@),
{
    if st.ended {
        return None;
    }
    if !st.begun {
        if st.slate.is_some() && !st.slate_confirmed {
            return Some(Pending::ConfirmSlate);
        }
        if st.task.is_some() {
            return Some(Pending::ConfirmBegin);
        }
        return None;
    }
    match &st.pending_ask {
        Some((m, q)) => Some(Pending::Ask { member: m.clone(), question: q.clone() }),
        None => None,
    }
}

/// Behind the last line of the first `n` with which the user let the discussion
/// begin.
pub open spec fn last_begin(v: Seq<LineV>, n: int) -> Option<int>
    decreases n,
{
    if n <= 0 {
        None
    } else if v[n - 1].kind == "user"@ && v[n - 1].verb == "开始"@ {
        Some(n)
    } else {
        last_begin(v, n - 1)
    }
}

/// Where the lines of the discussion begin.
pub open spec fn talk_start(v: Seq<LineV>) -> int {
    match last_begin(v, v.len() as int) {
        Some(i) => i,
        None => v.len() as int,
    }
}

/// A member's stand, by what was kept.
pub open spec fn kept_member(st: CollabV, m: MemberV) -> MemberV {
    MemberV {
        present: match table::lookup(st.present, m.id) {
            Some(b) => b,
            None => true,
        },
        agreed: match table::lookup(st.agreed, m.id) {
            Some(b) => b,
            None => false,
        },
        ..m
    }
}

pub open spec fn kept_members(st: CollabV, v: Seq<MemberV>) -> Seq<MemberV> {
    v.map_values(|m: MemberV| kept_member(st, m))
}

/// The discussion, by what was kept.
pub open spec fn kept_talk(
    p: Prompts,
    st: CollabV,
    lines: Seq<LineV>,
    members: Seq<MemberV>,
) -> DiscV {
    DiscV {
        members: kept_members(st, members),
        transcript: lines.skip(talk_start(lines)),
        round: if st.round > 1 {
            st.round as usize
        } else {
            1
        },
        answers: Seq::empty(),
        closed: st.closed,
        autonomy: st.allow,
        protocol: p.core.mechanism@ + "\n"@ + p.core.chat_protocol@,
        reminded: Seq::empty(),
        remind_round: 0,
        opener: Seq::empty(),
        cursor: Cursor::Fresh,
        handed: 0,
    }
}

/// The work, by what was kept; where its discussion had begun and its team cannot be
/// assembled, why.
pub open spec fn kept_work(
    p: Prompts,
    meta: SessionMetaV,
    st: CollabV,
    lines: Seq<LineV>,
    made: Result<Assembled, String>,
    shared: PathV,
) -> Result<WorkV, Seq<char>> {
    let base = WorkV {
        delegated: meta.delegate,
        roster: meta.agents,
        task: review::or_nothing(st.task),
        slate: Seq::empty(),
        pending: state_pending(st),
        allow: st.allow,
        plan: st.plan,
        chain: if st.chain.len() == 0 {
            None
        } else {
            Some(st.chain)
        },
        disc: None,
        turns: 0,
        turn_error: None,
        emitted: 0,
        next_line: lines.len() as u64,
        shared,
        done: st.ended,
        approved: st.plan_approved,
        advice: Seq::empty(),
    };
    if !st.begun {
        Ok(base)
    } else {
        match made {
            Err(e) => Err(e@),
            Ok(m) => Ok(
                WorkV {
                    disc: Some(
                        kept_talk(p, st, lines, crate::discussion::members_v(m.members@)),
                    ),
                    emitted: (lines.len() - talk_start(lines)) as usize,
                    ..base
                },
            ),
        }
    }
}

fn find_talk_start(lines: &Vec<LineView>) -> (r: usize)
    ensures
        r == talk_start(events::line_views(lines@)),
        r <= lines@.len(),
{
    let ghost lv = events::line_views(lines@);
    let mut n: usize = lines.len();
    assert(lv.len() == n);
    while n > 0
        invariant
            n <= lines@.len(),
            lv == events::line_views(lines@),
            lv.len() == lines@.len(),
            last_begin(lv, lv.len() as int) == last_begin(lv, n as int),
        decreases n,
    {
        let l = &lines[n - 1];
        assert(lv[n - 1] == l@);
        if str_eq(l.kind.as_str(), "user") && str_eq(l.verb.as_str(), "开始") {
            return n;
        }
        n = n - 1;
    }
    lines.len()
}

fn keep_members(st: &CollabState, members: Vec<Member>) -> (r: Vec<Member>)
    ensures
        crate::discussion::members_v(r@) == kept_members(
            st@,
            crate::discussion::members_v(members@),
        ),
        r@.len() == members@.len(),
        forall|k: int|
            0 <= k < r@.len() ==> (#[trigger] r@[k]).params == members@[k].params && r@[k].mode
                == members@[k].mode,
{
    let ghost all = members@;
    let ghost want = kept_members(st@, crate::discussion::members_v(all));
    let n = members.len();
    let mut rest = members;
    let mut ms: Vec<Member> = Vec::new();
    let mut i: usize = 0;
    assert(crate::discussion::members_v(ms@) =~= want.take(0));
    while i < n
        invariant
            i <= n,
            n == all.len(),
            ms@.len() == i,
            rest@ == all.skip(i as int),
            want == kept_members(st@, crate::discussion::members_v(all)),
            crate::discussion::members_v(ms@) == want.take(i as int),
            forall|k: int|
                0 <= k < i ==> (#[trigger] ms@[k]).params == all[k].params && ms@[k].mode
                    == all[k].mode,
        decreases n - i,
    {
        let mut m = rest.remove(0);
        assert(m == all[i as int]);
        assert(crate::discussion::members_v(all)[i as int] == m@);
        let ghost mv = m@;
        let present = match st.present.get(m.id.as_str()) {
            Some(b) => *b,
            None => true,
        };
        let agreed = match st.agreed.get(m.id.as_str()) {
            Some(b) => *b,
            None => false,
        };
        m.present = present;
        m.agreed = agreed;
        let ghost prev = ms@;
        ms.push(m);
        proof {
            assert(rest@ =~= all.skip(i + 1));
            assert(m@ == kept_member(st@, mv));
            assert(want[i as int] == m@);
            assert(crate::discussion::members_v(ms@) =~= crate::discussion::members_v(prev).push(
                m@,
            ));
            assert(crate::discussion::members_v(ms@) =~= want.take(i + 1));
        }
        i = i + 1;
    }
    assert(want.take(want.len() as int) =~= want);
    ms
}

impl CollabSession {
    /// A work as it was kept: the roster by its record, the rest by its transcript.
    pub fn restore(
        prompts: &Prompts,
        meta: &SessionMeta,
        st: &CollabState,
        lines: &Vec<LineView>,
        made: Result<Assembled, String>,
        shared: RealPath,
    ) -> (r: Result<CollabSession, String>)
        ensures
            r matches Ok(s) ==> handed_kept(s@),
            match r {
                Ok(s) => kept_work(
                    *prompts,
                    meta@,
                    st@,
                    events::line_views(lines@),
                    made,
                    shared@,
                ) == Ok::<_, Seq<char>>(s@),
                Err(e) => kept_work(
                    *prompts,
                    meta@,
                    st@,
                    events::line_views(lines@),
                    made,
                    shared@,
                ) == Err::<WorkV, _>(e@),
            },
    {
        let ghost lv = events::line_views(lines@);
        assert(lv.len() == lines@.len());
        let mut s = CollabSession::start(copy_agents(&meta.agents), meta.delegate, shared);
        s.task = match &st.task {
            Some(t) => t.clone(),
            None => String::new(),
        };
        s.pending = derive_pending(st);
        s.allow = st.allow;
        s.plan = clone_opt(&st.plan);
        assert(st.chain@.len() == st.chain.nodes@.len());
        s.chain = if st.chain.nodes.len() == 0 {
            None
        } else {
            Some(st.chain.copy())
        };
        s.next_line = lines.len() as u64;
        s.done = st.ended;
        s.plan_approved = st.plan_approved;
        assert(s.task@ =~= review::or_nothing(st@.task));
        if !st.begun {
            return Ok(s);
        }
        let m = match made {
            Ok(m) => m,
            Err(e) => {
                return Err(e);
            },
        };
        let ghost mv = crate::discussion::members_v(m.members@);
        let protocol = cat3(
            prompts.core.mechanism.as_str(),
            "\n",
            prompts.core.chat_protocol.as_str(),
        );
        let from = find_talk_start(lines);
        let mut disc = Discussion::new(keep_members(st, m.members), st.allow, protocol);
        disc.transcript = lines_from(lines, from);
        disc.round = if st.round > 1 {
            st.round
        } else {
            1
        };
        disc.closed = st.closed;
        s.emitted = lines.len() - from;
        assert(disc@ =~= kept_talk(*prompts, st@, lv, mv));
        s.disc = Some(disc);
        Ok(s)
    }

    // ---- what a driver asks ----

    pub fn chain(&self) -> (r: Option<&TaskChain>)
        ensures
            match r {
                Some(c) => self@.chain == Some(c@),
                None => self@.chain is None,
            },
    {
        match &self.chain {
            Some(c) => Some(c),
            None => None,
        }
    }

    pub fn plan_approved(&self) -> (r: bool)
        ensures
            r == self@.approved,
    {
        self.plan_approved
    }

    pub fn gate_advice(&self) -> (r: &str)
        ensures
            r@ == self@.advice,
    {
        self.gate_advice.as_str()
    }

    /// Notes why a member's turn failed; the next step tells it.
    pub fn note_turn_failure(&mut self, err: String)
        ensures
            handed_kept(old(self)@) ==> handed_kept(final(self)@),
            final(self)@ == (WorkV { turn_error: Some(err@), ..old(self)@ }),
    {
        self.turn_error = Some(err);
    }

    pub fn round(&self) -> (r: usize)
        ensures
            r == match self@.disc {
                Some(d) => d.round,
                None => 0,
            },
    {
        match &self.disc {
            Some(d) => d.round,
            None => 0,
        }
    }

    /// Takes the number of the next turn.
    pub fn next_turn_id(&mut self) -> (r: u64)
        requires
            old(self)@.turns < u64::MAX,
        ensures
            handed_kept(old(self)@) ==> handed_kept(final(self)@),
            r == old(self)@.turns + 1,
            final(self)@ == (WorkV { turns: r, ..old(self)@ }),
    {
        self.turns = self.turns + 1;
        self.turns
    }

    /// The node that runs in a session, if one does.
    pub fn running_node_of(&self, sub: &str) -> (r: Option<String>)
        ensures
            text::opt_text(r) == match self@.chain {
                Some(c) => running_in(c, sub@, 0),
                None => None,
            },
    {
        match &self.chain {
            Some(c) => {
                let ghost cv = c@;
                let mut i: usize = 0;
                while i < c.nodes.len()
                    invariant
                        i <= c.nodes@.len(),
                        cv == c@,
                        self@.chain == Some(cv),
                        running_in(cv, sub@, 0) == running_in(cv, sub@, i as int),
                    decreases c.nodes@.len() - i,
                {
                    let n = &c.nodes[i];
                    assert(cv[i as int] == n@);
                    let here = match &n.sub_session {
                        Some(s) => str_eq(s.as_str(), sub),
                        None => false,
                    };
                    if here && n.status == NodeStatus::Running {
                        return Some(n.id.clone());
                    }
                    i = i + 1;
                }
                None
            },
            None => None,
        }
    }

    pub fn roster(&self) -> (r: &Vec<AgentMeta>)
        ensures
            history::agents_v(r@) == self@.roster,
    {
        &self.roster
    }

    /// The roster as drafted.
    pub fn slate(&self) -> (r: Vec<AgentMeta>)
        ensures
            history::agents_v(r@) == self@.slate,
    {
        copy_agents(&self.slate_picks)
    }

    /// The name of a member.
    pub fn member_id(&self, i: usize) -> (r: Option<String>)
        ensures
            match r {
                Some(s) => self@.disc is Some && i < (self@.disc->0).members.len() && s@ == (
                self@.disc->0).members[i as int].id,
                None => self@.disc is Some ==> i >= (self@.disc->0).members.len(),
            },
    {
        match &self.disc {
            Some(d) => match d.member_id(i) {
                Some(s) => Some(s.to_owned()),
                None => None,
            },
            None => None,
        }
    }

    /// Begins the discussion where it has not begun.
    pub fn start_if_needed(&mut self, prompts: &Prompts)
        requires
            prompt::book_sound(*prompts),
        ensures
            handed_kept(old(self)@) ==> handed_kept(final(self)@),
            final(self)@ == match old(self)@.disc {
                Some(d) => if d.cursor == Cursor::Fresh && d.round == 0 {
                    WorkV {
                        disc: Some(
                            DiscV {
                                opener: prompt::filled(
                                    prompts.core.discuss.opener@,
                                    seq![
                                        ("protocol"@, d.protocol),
                                        ("task"@, old(self)@.task),
                                    ],
                                ),
                                handed: d.transcript.len() as usize,
                                cursor: Cursor::Opener(0),
                                ..d
                            },
                        ),
                        ..old(self)@
                    }
                } else {
                    old(self)@
                },
                None => old(self)@,
            },
    {
        match self.disc.take() {
            Some(d) => {
                let mut d = d;
                if d.not_started() {
                    d.start(prompts, self.task.as_str());
                }
                self.disc = Some(d);
            },
            None => {},
        }
    }

    /// What a member is told that took no stand.
    pub fn reminder_text(&self, prompts: &Prompts) -> (r: String)
        ensures
            r@ == prompts.core.tool_texts.discuss_reminder@,
    {
        prompts.core.tool_texts.discuss_reminder.clone()
    }

    /// What waits for the user.
    pub fn waiting_for(&self) -> (r: Option<&Pending>)
        ensures
            match r {
                Some(x) => self@.pending == Some(x@),
                None => self@.pending is None,
            },
    {
        match &self.pending {
            Some(p) => Some(p),
            None => None,
        }
    }

    pub fn is_done(&self) -> (r: bool)
        ensures
            r == self@.done,
    {
        self.done
    }
}

/// The first node from the `i`th on that runs in a session.
pub open spec fn running_in(nodes: Seq<NodeV>, sub: Seq<char>, i: int) -> Option<Seq<char>>
    decreases nodes.len() - i,
{
    if i < 0 || i >= nodes.len() {
        None
    } else if nodes[i].sub_session == Some(sub) && nodes[i].status == NodeStatus::Running {
        Some(nodes[i].id)
    } else {
        running_in(nodes, sub, i + 1)
    }
}

// ---- what holds of every work ----

/// A work that is over stays over: nothing is asked of anybody.
pub proof fn the_end_of_a_work(
    p: Prompts,
    s: Settings,
    modules: Seq<Module>,
    w: WorkV,
    cancelled: bool,
)
    requires
        w.done,
    ensures
        pumped(p, w, cancelled) == (w, StepV::Wait, Seq::<EventV>::empty()),
        with_resume(p, s, modules, w) == (w, StepV::Wait, Seq::<EventV>::empty()),
{
}

/// Nothing is judged, let alone delivered, before there is a plan that the user
/// approved.
pub proof fn nothing_starts_unapproved(p: Prompts, w: WorkV, cancelled: bool)
    requires
        !w.approved || w.plan is None || w.chain is None,
    ensures
        !(pumped(p, w, cancelled).1 is ReviewStage),
        !(pumped(p, w, cancelled).1 is ReviewAll),
        pumped(p, w, cancelled).0.chain == w.chain,
{
}

/// What waits for the user waits: going on changes neither what waits nor which
/// nodes are done, and asks nobody.
pub proof fn waiting_is_not_skipped(p: Prompts, w: WorkV, cancelled: bool)
    requires
        awaiting(w),
        w.disc is Some,
        !(w.disc->0).closed || (w.approved && w.plan is Some && w.chain is Some),
    ensures
        pumped(p, w, cancelled).1 is Wait,
        pumped(p, w, cancelled).0.pending == w.pending,
        pumped(p, w, cancelled).0.disc == w.disc,
{
}

/// Only the nodes that did not pass are done again: the others stay as they are.
pub proof fn only_failures_are_sent_back(nodes: Seq<NodeV>, ids: Seq<Seq<char>>, n: int, k: int)
    requires
        0 <= n <= ids.len(),
        0 <= k < nodes.len(),
        forall|j: int| 0 <= j < n ==> #[trigger] ids[j] != nodes[k].id,
    ensures
        reset_below(Some(nodes), ids, n) is Some,
        (reset_below(Some(nodes), ids, n)->0).len() == nodes.len(),
        (reset_below(Some(nodes), ids, n)->0)[k] == nodes[k],
    decreases n,
{
    if n > 0 {
        only_failures_are_sent_back(nodes, ids, n - 1, k);
        let prev = reset_below(Some(nodes), ids, n - 1)->0;
        assert(ids[n - 1] != nodes[k].id);
        chain::lemma_position_from(prev, ids[n - 1], 0);
    }
}

/// A stage is passed only where every node of it was judged, and each passed.
pub proof fn stages_pass_as_a_whole(
    p: Prompts,
    w: WorkV,
    stage: nat,
    made: Result<StageVerdicts, String>,
    cancelled: bool,
)
    requires
        with_verdicts(p, w, stage, made, cancelled).1 is Again,
    ensures
        made is Ok,
        ({
            let v = review::verdicts_v(made->Ok_0.verdicts@);
            &&& forall|k: int| 0 <= k < v.len() ==> (#[trigger] v[k]).ok
            &&& forall|k: int|
                0 <= k < chain::in_stage(w.chain->0, stage).len() ==> review::judged_names(v).contains(
                    (#[trigger] chain::in_stage(w.chain->0, stage)[k]).id,
                )
        }),
{
    let v = review::verdicts_v(made->Ok_0.verdicts@);
    let nodes = chain::in_stage(w.chain->0, stage);
    review::usable_verdicts_cover_the_stage(v, review::node_ids(nodes));
    assert forall|k: int| 0 <= k < v.len() implies (#[trigger] v[k]).ok by {
        lemma_no_bad(v, v.len() as int, k);
    }
    assert forall|k: int| 0 <= k < nodes.len() implies review::judged_names(v).contains(
        (#[trigger] nodes[k]).id,
    ) by {
        assert(review::node_ids(nodes)[k] == nodes[k].id);
    }
}

proof fn lemma_no_bad(v: Seq<VerdictV>, n: int, k: int)
    requires
        0 <= k < n <= v.len(),
        bad_below(v, n).len() == 0,
    ensures
        v[k].ok,
    decreases n,
{
    if k < n - 1 {
        lemma_no_bad(v, n - 1, k);
    }
}

/// Lines go out once: after all went out, there is nothing to send.
pub proof fn lines_go_out_once(w: WorkV)
    requires
        talk_len(w) <= usize::MAX,
    ensures
        sent(sent(w).0) == (sent(w).0, Seq::<EventV>::empty()),
{
}

/// A delivery is the end, and it comes only where no node is to be done again.
pub proof fn deliveries_end_the_work(p: Prompts, w: WorkV, x: ExecutionV, cancelled: bool)
    requires
        !w.done,
        with_checklist(p, w, x, cancelled).0.done,
    ensures
        with_checklist(p, w, x, cancelled).1 is Wait,
        review::targets_below(x.items, x.items.len() as int).len() == 0,
        review::item_faults(
            review::node_ids(w.chain->0),
            x.items,
            x.items.len() as int,
        ).len() == 0,
        with_checklist(p, w, x, cancelled).2.last() == EventV::Ended,
{
}

/// Whether a list of events ends with others.
pub open spec fn ends_in(v: Seq<EventV>, tail: Seq<EventV>) -> bool {
    v.len() >= tail.len() && v.skip(v.len() - tail.len()) == tail
}

/// What comes to wait for the user is announced last of all, with what the core
/// advises on it.
pub proof fn what_waits_is_announced(
    p: Prompts,
    w: WorkV,
    cancelled: bool,
    stage: nat,
    made: Result<StageVerdicts, String>,
    x: ExecutionV,
)
    ensures
        ({
            let a = pumped(p, w, cancelled);
            a.0.pending != w.pending ==> a.1 is Wait && a.0.pending is Some && ends_in(
                a.2,
                gate_events(a.0.pending->0, a.0.advice),
            )
        }),
        ({
            let b = with_verdicts(p, w, stage, made, cancelled);
            b.0.pending != w.pending ==> b.1 is Wait && b.0.pending is Some && ends_in(
                b.2,
                gate_events(b.0.pending->0, b.0.advice),
            )
        }),
        ({
            let c = with_checklist(p, w, x, cancelled);
            c.0.pending != w.pending ==> c.1 is Wait && c.0.pending is Some && ends_in(
                c.2,
                gate_events(c.0.pending->0, c.0.advice),
            )
        }),
{
    let a = pumped(p, w, cancelled);
    if a.0.pending != w.pending {
        let tail = gate_events(a.0.pending->0, a.0.advice);
        assert(a.2.skip(a.2.len() - tail.len()) =~= tail);
    }
    let b = with_verdicts(p, w, stage, made, cancelled);
    if b.0.pending != w.pending {
        let tail = gate_events(b.0.pending->0, b.0.advice);
        assert(b.2.skip(b.2.len() - tail.len()) =~= tail);
    }
    let c = with_checklist(p, w, x, cancelled);
    if c.0.pending != w.pending {
        let tail = gate_events(c.0.pending->0, c.0.advice);
        assert(c.2.skip(c.2.len() - tail.len()) =~= tail);
    }
}

/// Where a step asks the core, that the core is at work is told last of all.
pub proof fn the_core_is_seen_at_work(p: Prompts, w: WorkV, cancelled: bool)
    ensures
        ({
            let a = pumped(p, w, cancelled);
            a.1 is Plan || a.1 is ReviewStage || a.1 is ReviewAll ==> a.2.len() > 0 && a.2.last()
                == core_works()
        }),
{
}

/// What is noted of a node changes that node and no other: that it runs and where, that
/// it is done and with what, what the core said of it, or that it is to be done again.
pub proof fn notes_change_one_node(
    nodes: Seq<NodeV>,
    id: Seq<char>,
    sub: Seq<char>,
    report: Seq<char>,
    ok: bool,
    note: Seq<char>,
    i: int,
)
    requires
        chain::position(nodes, id) == Some(i),
    ensures
        ({
            let started = with_node(nodes, id, start_node(sub));
            let done = with_node(nodes, id, finish_node(report));
            let judged = with_node(nodes, id, accept_node(ok, note));
            let again = with_node(nodes, id, fresh_again());
            &&& 0 <= i < nodes.len() && nodes[i].id == id
            &&& started[i].status is Running && started[i].sub_session == Some(sub) && started[i].report
                == nodes[i].report && started[i].acceptance == nodes[i].acceptance
            &&& done[i].status is Done && done[i].report == Some(report) && done[i].acceptance
                == nodes[i].acceptance && done[i].sub_session == nodes[i].sub_session
            &&& judged[i].acceptance is Some && (judged[i].acceptance->0).ok == ok && (
            judged[i].acceptance->0).note == note && judged[i].status == nodes[i].status && judged[i].report
                == nodes[i].report
            &&& again[i].status is Pending && again[i].sub_session is None && again[i].report is None
                && again[i].acceptance is None && !again[i].reported
            &&& forall|k: int|
                0 <= k < nodes.len() && k != i ==> started[k] == nodes[k] && done[k] == nodes[k] && judged[k]
                    == nodes[k] && #[trigger] again[k] == nodes[k]
            &&& forall|k: int|
                0 <= k < nodes.len() ==> started[k].id == nodes[k].id && done[k].id == nodes[k].id
                    && judged[k].id == nodes[k].id && #[trigger] again[k].id == nodes[k].id && again[k].deps
                    == nodes[k].deps && again[k].assignee == nodes[k].assignee && again[k].objective
                    == nodes[k].objective
        }),
{
    chain::lemma_position_from(nodes, id, 0);
}

/// A plan that comes is taken with its chain where the chain holds together, and waits
/// to be approved; one whose chain does not is not taken.
pub proof fn only_sound_plans_are_taken(w: WorkV, made: Result<PlanMade, String>, cancelled: bool)
    requires
        w.disc is Some,
    ensures
        ({
            let a = with_plan(w, made, cancelled);
            let members = (w.disc->0).members;
            let roster = discussion::present_names(members, members.len() as int);
            &&& made is Err ==> a.0 == w && a.1 is Wait
            &&& made matches Ok(m) ==> {
                let fine = (m.chain@).len() > 0 && forall|i: int|
                    0 <= i < (m.chain@).len() ==> #[trigger] chain::node_holds(m.chain@, roster, i);
                &&& a.0.advice == m.advice@
                &&& fine ==> a.0.plan == Some(m.plan@) && a.0.chain is Some && (a.0.chain->0).len() == (
                m.chain@).len() && a.1 is Again && a.2.contains(EventV::Plan(m.plan@))
                &&& !fine ==> a.0.plan == w.plan && a.0.chain == w.chain && a.1 is Wait
            }
            &&& a.0.approved == w.approved && a.0.pending == w.pending && a.0.done == w.done
        }),
{
    match made {
        Ok(m) => {
            let members = (w.disc->0).members;
            let roster = discussion::present_names(members, members.len() as int);
            chain::sound_chains_have_no_problems(m.chain@, roster);
            let a = with_plan(w, made, cancelled);
            if a.1 is Again {
                assert(a.2[0] == EventV::Plan(m.plan@));
            }
        },
        Err(_) => {},
    }
}

/// The user's approval lets the plan go on; and nothing the team does by itself
/// approves it.
pub proof fn only_the_user_approves(p: Prompts, w: WorkV, cancelled: bool, i: int, t: MemberTurnV, turn_id: u64)
    ensures
        with_approval(w).0.approved && with_approval(w).0.pending is None,
        with_approval(w).0.plan == w.plan && with_approval(w).0.chain == w.chain && with_approval(w).0.disc
            == w.disc,
        pumped(p, w, cancelled).0.approved == w.approved,
        w.disc is Some ==> with_turn(p, w, i, t, turn_id).0.approved == w.approved,
{
}

/// What did not pass waits for the user, with the nodes named; the others keep what was
/// said of them, and the next stage does not begin.
pub proof fn failures_wait_for_the_user(
    p: Prompts,
    w: WorkV,
    stage: nat,
    made: Result<StageVerdicts, String>,
    cancelled: bool,
    k: int,
)
    requires
        made is Ok,
        review::verdict_faults(
            review::verdicts_v(made->Ok_0.verdicts@),
            review::node_ids(chain::in_stage(w.chain->0, stage)),
        ).len() == 0,
        0 <= k < made->Ok_0.verdicts@.len(),
        !made->Ok_0.verdicts@[k].ok,
    ensures
        ({
            let a = with_verdicts(p, w, stage, made, cancelled);
            a.1 is Wait && (a.0.pending matches Some(PendingV::NodeBlocked { nodes }) && nodes.contains(
                made->Ok_0.verdicts@[k].node@,
            )) && a.0.advice == made->Ok_0.advice@
        }),
{
    let v = review::verdicts_v(made->Ok_0.verdicts@);
    assert(v[k] == made->Ok_0.verdicts@[k]@);
    lemma_bad_holds(v, v.len() as int, k);
}

proof fn lemma_bad_holds(v: Seq<VerdictV>, n: int, k: int)
    requires
        0 <= k < n <= v.len(),
        !v[k].ok,
    ensures
        bad_below(v, n).contains(v[k].node),
    decreases n,
{
    let p = bad_below(v, n - 1);
    let h = bad_below(v, n);
    if k == n - 1 {
        assert(h[p.len() as int] == v[k].node);
    } else {
        lemma_bad_holds(v, n - 1, k);
        let j = choose|j: int| 0 <= j < p.len() && p[j] == v[k].node;
        assert(h[j] == v[k].node);
    }
}

/// An answer is for the question that waits: it goes to the whole team, and nothing
/// waits any more.
pub proof fn answers_reach_the_team(w: WorkV, t: Seq<char>)
    ensures
        w.pending is Some && w.pending->0 is Ask ==> with_answer(w, t).0.pending is None && with_answer(
            w,
            t,
        ).1 is Again && (w.disc is Some ==> (with_answer(w, t).0.disc->0).answers == (w.disc->0).answers.push(t)
            && (with_answer(w, t).0.disc->0).members == (w.disc->0).members),
        !(w.pending is Some && w.pending->0 is Ask) ==> with_answer(w, t) == (w, StepV::Wait),
{
}

/// Where the user was clear the work goes on; where not, what waits still waits and
/// nothing of the plan changes.
pub proof fn unclear_words_begin_nothing(
    p: Prompts,
    s: Settings,
    modules: Seq<Module>,
    w: WorkV,
    made: Result<Clarity, String>,
    words: Seq<char>,
    t: Seq<char>,
)
    requires
        made is Ok ==> !made->Ok_0.clear,
    ensures
        ({
            let a = with_clarity(p, s, modules, w, made, words, t);
            a.1 is Wait && a.0.pending == w.pending && a.0.approved == w.approved && a.0.chain == w.chain
                && a.0.plan == w.plan && a.0.done == w.done
        }),
{
}

/// Clear words on a plan approve it, and those on nodes that did not pass send these
/// back to be done again.
pub proof fn clear_words_let_the_work_go_on(
    p: Prompts,
    s: Settings,
    modules: Seq<Module>,
    w: WorkV,
    made: Result<Clarity, String>,
    words: Seq<char>,
    t: Seq<char>,
)
    requires
        made is Ok,
        made->Ok_0.clear,
        !w.done,
        w.disc is Some,
    ensures
        ({
            let a = with_clarity(p, s, modules, w, made, words, t);
            &&& a.1 is Again
            &&& w.pending == Some(PendingV::PlanReview) ==> a.0.approved && a.0.pending is None
            &&& w.pending matches Some(PendingV::NodeBlocked { nodes }) ==> a.0.pending is None && a.0.chain
                == reset_below(w.chain, nodes, nodes.len() as int)
        }),
{
}

/// The user's taking back makes a member one that has not agreed, and opens the
/// discussion again; the others stay as they are.
pub proof fn agreement_can_be_taken_back(w: WorkV, agent: Seq<char>, k: int)
    requires
        w.disc is Some,
        0 <= k < (w.disc->0).members.len(),
    ensures
        ({
            let now = with_withdrawal(w, agent).0.disc->0;
            &&& !now.closed
            &&& now.members.len() == (w.disc->0).members.len()
            &&& (w.disc->0).members[k].id == agent ==> !now.members[k].agreed && now.members[k].present == (
            w.disc->0).members[k].present
            &&& (w.disc->0).members[k].id != agent ==> now.members[k] == (w.disc->0).members[k]
        }),
{
}

/// A task opens a work: the user is asked to begin, or the core for a team where it is to
/// find one. Without a task there is no work.
pub proof fn tasks_open_a_work(p: Prompts, s: Settings, modules: Seq<Module>, w: WorkV, task: Seq<char>)
    requires
        w.next_line < u64::MAX,
    ensures
        ({
            let a = with_task(p, s, modules, w, task);
            &&& text::trimmed(task).len() == 0 ==> a.0.done && a.1 is Wait && a.2.last() == EventV::Ended
                && a.0.task == w.task
            &&& text::trimmed(task).len() > 0 ==> a.0.task == task && a.0.done == w.done && a.0.next_line
                == w.next_line + 1 && (a.2[0] matches EventV::Transcript(v) && v.len() == 1 && v[0].line == task
                && v[0].id == w.next_line && v[0].verb == "需求"@)
            &&& text::trimmed(task).len() > 0 && w.delegated ==> a.1 is Draft && a.0.pending == w.pending
            &&& text::trimmed(task).len() > 0 && !w.delegated ==> a.1 is Wait && a.0.pending == Some(
                PendingV::ConfirmBegin,
            )
            &&& a.0.roster == w.roster && a.0.disc == w.disc && a.0.approved == w.approved
        }),
{
}

/// A team that the core drafts waits for the user, in the order it was drafted; none of
/// it is the team yet. Without a draft the work ends.
pub proof fn drafts_wait_for_the_user(w: WorkV, team: Option<TeamV>, k: int)
    requires
        w.next_line < u64::MAX,
    ensures
        ({
            let a = with_slate(w, team);
            &&& team is None || (team->0).picked.len() == 0 ==> a.0.done && a.2.last() == EventV::Ended
                && a.0.pending == w.pending
            &&& team is Some && (team->0).picked.len() > 0 ==> a.0.pending == Some(PendingV::ConfirmSlate)
                && a.0.slate.len() == (team->0).picked.len() && (0 <= k < (team->0).picked.len() ==> a.0.slate[k]
                == (team->0).picked[k].0) && a.0.done == w.done
            &&& a.1 is Wait && a.0.roster == w.roster && a.0.disc == w.disc
        }),
{
}

/// A draft that the user confirms is the team; one that the user turns down ends the
/// work.
pub proof fn confirmed_drafts_are_the_team(p: Prompts, s: Settings, modules: Seq<Module>, w: WorkV, ok: bool)
    requires
        w.next_line < u64::MAX,
    ensures
        ({
            let a = with_confirmation(p, s, modules, w, ok);
            &&& !ok ==> a.0.done && a.1 is Wait && a.2.last() == EventV::Ended && a.0.roster == w.roster
            &&& ok && w.slate.len() > 0 ==> a.0.roster == w.slate && a.0.pending == Some(PendingV::ConfirmBegin)
                && a.1 is Wait && a.0.done == w.done
            &&& ok && w.slate.len() == 0 ==> a.1 is Draft && a.0.roster == w.roster && a.0.done == w.done
            &&& a.0.next_line == w.next_line + 1 && a.0.disc == w.disc
        }),
{
}

/// A discussion begins once, with everybody who was seated, with nothing said, and with
/// the first of them to be heard; it does not begin where the team cannot sit down.
pub proof fn discussions_begin_with_everybody(
    p: Prompts,
    w: WorkV,
    allow: bool,
    made: Result<Assembled, String>,
    demo: bool,
    k: int,
)
    requires
        w.next_line < u64::MAX,
    ensures
        ({
            let a = with_begin(p, w, allow, made, demo);
            &&& w.done || w.disc is Some ==> a == (w, StepV::Wait, Seq::<EventV>::empty())
            &&& !w.done && w.disc is None && made is Err ==> a.0.disc is None && a.1 is Wait
            &&& !w.done && w.disc is None && made is Ok ==> {
                let d = a.0.disc->0;
                &&& a.0.disc is Some && a.1 is Again
                &&& d.members.len() == made->Ok_0.members@.len()
                &&& 0 <= k < d.members.len() ==> d.members[k] == made->Ok_0.members@[k]@
                &&& d.transcript.len() == 0 && d.round == 0 && !d.closed && d.answers.len() == 0
                &&& d.cursor == Cursor::Opener(0) && d.autonomy == allow
            }
            &&& a.0.approved == w.approved && a.0.plan == w.plan && a.0.chain == w.chain && a.0.done == w.done
        }),
{
}

/// What the user says is for what waits: a question is answered by it, a plan or nodes
/// that did not pass are for the core to judge the words on, and nothing changes before.
pub proof fn words_are_for_what_waits(p: Prompts, w: WorkV, words: Seq<char>, answer: Seq<char>)
    ensures
        ({
            let a = with_decision(p, w, words, answer);
            &&& w.pending is Some && w.pending->0 is Ask ==> a.0.pending is None && a.1 is Again && (w.disc is Some
                ==> a.0.disc is Some && (a.0.disc->0).answers == (w.disc->0).answers.push(answer))
            &&& w.pending is Some && (w.pending->0 is PlanReview || w.pending->0 is NodeBlocked) ==> a.1 is Judge
                && a.0 == w
            &&& w.pending is None || w.pending->0 is ConfirmSlate || w.pending->0 is ConfirmBegin ==> a.1 is Wait
                && a.0 == w
        }),
{
}

/// A node that is done is reported, with what it brought, and marked as reported; what
/// was reported before is not reported again.
pub proof fn nodes_are_reported_once(nodes: Seq<NodeV>, n: int, k: int)
    requires
        chain::distinct_ids(nodes),
        0 <= k < n <= nodes.len(),
    ensures
        nodes[k].status is Done && !nodes[k].reported ==> reports_below(nodes, n).contains(
            EventV::Report {
                id: nodes[k].id,
                text: match nodes[k].report {
                    Some(r) => r,
                    None => "（该节点没有产出）"@,
                },
                rework: 0,
            },
        ) && told_below(nodes, n)[k].reported,
        !(nodes[k].status is Done) || nodes[k].reported ==> told_below(nodes, n)[k] == nodes[k],
        told_below(nodes, n)[k].status == nodes[k].status && told_below(nodes, n)[k].report == nodes[k].report
            && told_below(nodes, n)[k].acceptance == nodes[k].acceptance && told_below(nodes, n)[k].id
            == nodes[k].id,
{
    lemma_told(nodes, n, k);
    if nodes[k].status is Done && !nodes[k].reported {
        lemma_reported(nodes, n, k);
    }
}

proof fn lemma_reported(nodes: Seq<NodeV>, n: int, k: int)
    requires
        0 <= k < n <= nodes.len(),
        fresh(nodes[k]),
    ensures
        reports_below(nodes, n).contains(
            EventV::Report { id: nodes[k].id, text: output_of(nodes[k]), rework: 0 },
        ),
    decreases n,
{
    let e = EventV::Report { id: nodes[k].id, text: output_of(nodes[k]), rework: 0 };
    let p = reports_below(nodes, n - 1);
    let h = reports_below(nodes, n);
    if k == n - 1 {
        assert(h[p.len() as int] == e);
    } else {
        lemma_reported(nodes, n - 1, k);
        let j = choose|j: int| 0 <= j < p.len() && p[j] == e;
        assert(h[j] == e);
    }
}

proof fn lemma_told(nodes: Seq<NodeV>, n: int, k: int)
    requires
        chain::distinct_ids(nodes),
        0 <= n <= nodes.len(),
        0 <= k < nodes.len(),
    ensures
        told_below(nodes, n).len() == nodes.len(),
        forall|j: int| 0 <= j < nodes.len() ==> (#[trigger] told_below(nodes, n)[j]).id == nodes[j].id,
        k < n && fresh(nodes[k]) ==> told_below(nodes, n)[k] == (NodeV { reported: true, ..nodes[k] }),
        k >= n || !fresh(nodes[k]) ==> told_below(nodes, n)[k] == nodes[k],
    decreases n,
{
    if n > 0 {
        lemma_told(nodes, n - 1, k);
        lemma_told(nodes, n - 1, n - 1);
        let prev = told_below(nodes, n - 1);
        if fresh(nodes[n - 1]) {
            chain::lemma_position_from(prev, nodes[n - 1].id, 0);
            assert(prev[n - 1].id == nodes[n - 1].id);
            let i = chain::position(prev, nodes[n - 1].id)->0;
            assert(prev[i].id == nodes[i].id);
            if i < n - 1 {
                assert(nodes[i].id != nodes[n - 1].id);
            }
            if i > n - 1 {
                assert(prev[n - 1].id != nodes[n - 1].id);
            }
        }
    }
}

/// A verdict is for the node it names: the node keeps it, and nodes that no verdict names
/// stay as they are.
pub proof fn verdicts_are_for_their_nodes(nodes: Seq<NodeV>, v: Seq<VerdictV>, n: int, k: int)
    requires
        0 < n <= v.len(),
        0 <= k < nodes.len(),
    ensures
        chain::position(nodes, v[n - 1].node) == Some(k) ==> accepted_below(nodes, v, n)[k].acceptance == Some(
            AcceptanceV { ok: v[n - 1].ok, note: v[n - 1].note },
        ),
        (forall|j: int| 0 <= j < n ==> (#[trigger] v[j]).node != nodes[k].id) ==> accepted_below(nodes, v, n)[k]
            == nodes[k],
        accepted_below(nodes, v, n).len() == nodes.len(),
        accepted_below(nodes, v, n)[k].status == nodes[k].status && accepted_below(nodes, v, n)[k].report
            == nodes[k].report && accepted_below(nodes, v, n)[k].id == nodes[k].id,
{
    lemma_judged(nodes, v, n, k);
    lemma_judged(nodes, v, n - 1, k);
    let prev = accepted_below(nodes, v, n - 1);
    lemma_same_position(nodes, prev, v[n - 1].node, 0, nodes, v, n - 1);
    chain::lemma_position_from(nodes, v[n - 1].node, 0);
}

proof fn lemma_same_position(
    a: Seq<NodeV>,
    b: Seq<NodeV>,
    id: Seq<char>,
    i: int,
    nodes: Seq<NodeV>,
    v: Seq<VerdictV>,
    n: int,
)
    requires
        a == nodes,
        b == accepted_below(nodes, v, n),
        0 <= n <= v.len(),
        0 <= i,
    ensures
        chain::position_from(a, id, i) == chain::position_from(b, id, i),
    decreases a.len() - i,
{
    lemma_judged(nodes, v, n, i);
    if i < a.len() {
        lemma_same_position(a, b, id, i + 1, nodes, v, n);
    }
}

proof fn lemma_judged(nodes: Seq<NodeV>, v: Seq<VerdictV>, n: int, k: int)
    requires
        0 <= n <= v.len(),
    ensures
        accepted_below(nodes, v, n).len() == nodes.len(),
        0 <= k < nodes.len() ==> accepted_below(nodes, v, n)[k].id == nodes[k].id && accepted_below(
            nodes,
            v,
            n,
        )[k].status == nodes[k].status && accepted_below(nodes, v, n)[k].report == nodes[k].report,
        0 <= k < nodes.len() && (forall|j: int| 0 <= j < n ==> (#[trigger] v[j]).node != nodes[k].id)
            ==> accepted_below(nodes, v, n)[k] == nodes[k],
    decreases n,
{
    if n > 0 {
        lemma_judged(nodes, v, n - 1, k);
        let prev = accepted_below(nodes, v, n - 1);
        chain::lemma_position_from(prev, v[n - 1].node, 0);
    }
}

/// Lines go out with the next numbers, in their order, and say what was said.
pub proof fn lines_go_out_in_order(w: WorkV, k: int)
    requires
        w.disc is Some,
        w.emitted < talk_len(w) <= usize::MAX,
        w.next_line + talk_len(w) <= u64::MAX,
    ensures
        ({
            let t = (w.disc->0).transcript;
            let a = sent(w);
            &&& a.1.len() == 1
            &&& a.0.emitted == t.len()
            &&& a.0.next_line == w.next_line + (t.len() - w.emitted)
            &&& (a.1[0] matches EventV::Transcript(v) && v.len() == t.len() - w.emitted && (0 <= k < v.len()
                ==> v[k].id == w.next_line + k && v[k].line == t[w.emitted + k].line && v[k].speaker
                == t[w.emitted + k].speaker && v[k].verb == t[w.emitted + k].verb && v[k].turn
                == t[w.emitted + k].turn))
        }),
{
}

/// What waits for the user is found again with the work: what the last question was, or
/// what is to be confirmed before it begins; nothing waits once it ended.
pub proof fn what_waits_is_found_again(st: CollabV)
    ensures
        st.ended ==> state_pending(st) is None,
        !st.ended && st.begun && st.pending_ask is Some ==> state_pending(st) == Some(
            PendingV::Ask { member: (st.pending_ask->0).0, question: (st.pending_ask->0).1 },
        ),
        !st.ended && st.begun && st.pending_ask is None ==> state_pending(st) is None,
        !st.ended && !st.begun && st.slate is Some && !st.slate_confirmed ==> state_pending(st) == Some(
            PendingV::ConfirmSlate,
        ),
        !st.ended && !st.begun && (st.slate is None || st.slate_confirmed) && st.task is Some ==> state_pending(st)
            == Some(PendingV::ConfirmBegin),
{
}

/// A work is taken up where it was left: with its task, its plan, its nodes and what was
/// approved; and a discussion that had begun with who had left and who had agreed, its
/// round, and all that was said since it began, none of which goes out again.
pub proof fn works_are_taken_up_where_they_were_left(
    p: Prompts,
    meta: SessionMetaV,
    st: CollabV,
    lines: Seq<LineV>,
    made: Result<Assembled, String>,
    shared: PathV,
    k: int,
    b: int,
)
    requires
        lines.len() <= usize::MAX,
        0 <= b < lines.len(),
        lines[b].kind == "user"@ && lines[b].verb == "开始"@,
        forall|j: int| b < j < lines.len() ==> !((#[trigger] lines[j]).kind == "user"@ && lines[j].verb == "开始"@),
    ensures
        st.begun && made is Err ==> kept_work(p, meta, st, lines, made, shared) is Err,
        kept_work(p, meta, st, lines, made, shared) matches Ok(w) ==> {
            &&& w.plan == st.plan && w.approved == st.plan_approved && w.done == st.ended && w.allow == st.allow
            &&& st.chain.len() > 0 ==> w.chain == Some(st.chain)
            &&& st.chain.len() == 0 ==> w.chain is None
            &&& st.task is Some ==> w.task == st.task->0
            &&& w.roster == meta.agents && w.next_line == lines.len()
            &&& !st.begun ==> w.disc is None
            &&& st.begun ==> w.disc is Some && {
                let d = w.disc->0;
                &&& d.members.len() == made->Ok_0.members@.len()
                &&& 0 <= k < d.members.len() ==> ({
                    let m = made->Ok_0.members@[k]@;
                    &&& d.members[k].id == m.id
                    &&& table::lookup(st.present, m.id) == Some(false) ==> !d.members[k].present
                    &&& table::lookup(st.present, m.id) != Some(false) ==> d.members[k].present
                    &&& d.members[k].agreed <==> table::lookup(st.agreed, m.id) == Some(true)
                })
                &&& d.closed == st.closed && d.autonomy == st.allow
                &&& 1 <= st.round <= usize::MAX ==> d.round == st.round
                &&& d.transcript == lines.skip(b + 1)
                &&& w.emitted == d.transcript.len()
            }
        },
{
    lemma_last_begin(lines, lines.len() as int, b);
}

proof fn lemma_last_begin(v: Seq<LineV>, n: int, b: int)
    requires
        0 <= b < n <= v.len(),
        v[b].kind == "user"@ && v[b].verb == "开始"@,
        forall|j: int| b < j < n ==> !((#[trigger] v[j]).kind == "user"@ && v[j].verb == "开始"@),
    ensures
        last_begin(v, n) == Some(b + 1),
    decreases n,
{
    if b < n - 1 {
        lemma_last_begin(v, n - 1, b);
    }
}

/// The node that a session works on is the one that runs in it.
pub proof fn sessions_work_on_their_nodes(nodes: Seq<NodeV>, sub: Seq<char>, i: int)
    requires
        0 <= i,
    ensures
        match running_in(nodes, sub, i) {
            Some(id) => exists|k: int|
                i <= k < nodes.len() && (#[trigger] nodes[k]).id == id && nodes[k].sub_session == Some(sub)
                    && nodes[k].status is Running,
            None => forall|k: int|
                i <= k < nodes.len() ==> (#[trigger] nodes[k]).sub_session != Some(sub) || !(
                nodes[k].status is Running),
        },
    decreases nodes.len() - i,
{
    if i < nodes.len() {
        sessions_work_on_their_nodes(nodes, sub, i + 1);
        if nodes[i].sub_session == Some(sub) && nodes[i].status == NodeStatus::Running {
            assert(nodes[i].id == nodes[i].id);
        }
    }
}

/// What a talk comes to is what the work goes on with: a question waits for the user, an
/// end is told with its round and leads to a plan, a stop or a break is told and waits.
pub proof fn talks_lead_on(w: WorkV, a: (DiscV, AdvV), cancelled: bool)
    ensures
        ({
            let r = talk_outcome(w, a, cancelled);
            &&& r.0.disc == Some(a.0)
            &&& r.0.plan == w.plan && r.0.chain == w.chain && r.0.approved == w.approved && r.0.done == w.done
            &&& a.1 matches AdvV::Ask { i, identity, turn } ==> r.1 == StepV::Ask { i, identity, turn }
                && r.0.pending == w.pending
            &&& a.1 matches AdvV::Out(TurnOutV::AskUser { member, question }) ==> r.1 is Wait && r.0.pending
                == Some(PendingV::Ask { member, question })
            &&& a.1 matches AdvV::Out(TurnOutV::Done) ==> r.1 is Again && r.0.pending == w.pending && r.2.last()
                == (EventV::DiscussionDone { round: a.0.round as nat, over_cap: a.0.round > MAX_ROUNDS })
            &&& a.1 matches AdvV::Out(TurnOutV::Round) ==> r.1 is Again && r.2.len() == 0
            &&& a.1 matches AdvV::Out(TurnOutV::Stopped) ==> r.1 is Wait && r.2 == seq![
                EventV::Notice(events::stopped_text()),
            ]
            &&& a.1 matches AdvV::Out(TurnOutV::Interrupted(e)) ==> r.1 is Wait && r.2.len() == 1
        }),
{
}

/// A final review sends back what failed, and what it names waits for the user; where it
/// was stopped or broke off, nothing changes; where all is well the work is delivered.
pub proof fn final_reviews_send_back_or_deliver(p: Prompts, w: WorkV, x: ExecutionV, cancelled: bool, node: Seq<char>)
    ensures
        ({
            let a = with_checklist(p, w, x, cancelled);
            let usable = review::item_faults(
                review::node_ids(w.chain->0),
                x.items,
                x.items.len() as int,
            ).len() == 0;
            let broken = x.stopped || cancelled || x.error is Some;
            let failed = exists|i: int|
                0 <= i < x.items.len() && text::same_ignoring_case((#[trigger] x.items[i]).status, "fail"@)
                    && x.items[i].rework == Some(node);
            &&& broken ==> a.0 == w && a.1 is Wait
            &&& !broken && !usable ==> a.0 == w && a.1 is ReviewAll
            &&& !broken && usable && failed && text::trimmed(node).len() > 0 ==> a.1 is Wait && !a.0.done == !w.done
                && a.0.pending is Some && a.0.pending->0 is NodeBlocked && (a.0.pending->0)->nodes.contains(node)
            &&& !broken && usable && review::targets_below(x.items, x.items.len() as int).len() == 0 ==> a.0.done
                && a.2.last() == EventV::Ended
        }),
{
    review::failures_are_done_again(x.items, x.items.len() as int, node);
}

} // verus!
