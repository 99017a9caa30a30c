//! The small kernel's team: a roster is put together, talks until it agrees, and does
//! the task, which is done again until it passes or may not be done again.
use crate::converse::Round;
use crate::discussion::MAX_ROUNDS;
use crate::events::{self, EventV, Pending, PendingV, SessionEvent};
use crate::kernel::{self, AfterReview, after_review, fail_text, find_in_list, pick_owned};
use crate::module::{Module, Roster};
use crate::ports::{self, Msg, MsgV};
use crate::review::{self, Execution, ExecutionV, ItemV, review_event};
use crate::text::{self, cat2, cat3, cat4, cat5, dec_usize, is_blank, join, push_when, str_eq, trim};
use crate::turn::Talk;
use vstd::prelude::*;

verus! {

/// What a team's session tells: lines of the transcript as they stand, and what
/// happened.
#[derive(Debug)]
pub enum CrewEvent {
    Lines(Vec<String>),
    Told(SessionEvent),
}

#[verifier::ext_equal]
pub enum CrewEventV {
    Lines(Seq<Seq<char>>),
    Told(EventV),
}

impl View for CrewEvent {
    type V = CrewEventV;

    open spec fn view(&self) -> CrewEventV {
        match *self {
            CrewEvent::Lines(v) => CrewEventV::Lines(text::texts(v@)),
            CrewEvent::Told(e) => CrewEventV::Told(e@),
        }
    }
}

pub open spec fn crew_events(v: Seq<CrewEvent>) -> Seq<CrewEventV> {
    v.map_values(|e: CrewEvent| e@)
}

pub open spec fn crew_notice(t: Seq<char>) -> CrewEventV {
    CrewEventV::Told(EventV::Notice(t))
}

/// What is to be done next.
#[derive(Debug)]
pub enum CrewStep {
    /// Nothing, until the user does something.
    Wait,
    /// Have the core draft a roster.
    Draft(Vec<Msg>),
    /// Open the discussion.
    Open,
    /// Hand the discussion what the user answered, and have it go on.
    Answer(String),
    /// Have the discussion go on.
    Talk,
    /// Have the core draw up a plan.
    Plan,
    /// Have the members carry the plan out.
    Run,
    /// Have what the members report judged.
    Review,
    /// Have the members do it again: what did not pass.
    Rerun(String),
}

#[verifier::ext_equal]
pub enum CrewStepV {
    Wait,
    Draft(Seq<MsgV>),
    Open,
    Answer(Seq<char>),
    Talk,
    Plan,
    Run,
    Review,
    Rerun(Seq<char>),
}

impl View for CrewStep {
    type V = CrewStepV;

    open spec fn view(&self) -> CrewStepV {
        match *self {
            CrewStep::Wait => CrewStepV::Wait,
            CrewStep::Draft(m) => CrewStepV::Draft(ports::msgs_v(m@)),
            CrewStep::Open => CrewStepV::Open,
            CrewStep::Answer(s) => CrewStepV::Answer(s@),
            CrewStep::Talk => CrewStepV::Talk,
            CrewStep::Plan => CrewStepV::Plan,
            CrewStep::Run => CrewStepV::Run,
            CrewStep::Review => CrewStepV::Review,
            CrewStep::Rerun(s) => CrewStepV::Rerun(s@),
        }
    }
}

/// How a step of the discussion ended.
#[derive(Debug)]
pub enum CrewOut {
    /// A round is over.
    Round,
    /// A member asks the user.
    AskUser { member: String, question: String },
    /// The discussion is over after so many rounds.
    Done { round: usize },
}

#[verifier::ext_equal]
pub enum CrewOutV {
    Round,
    AskUser { member: Seq<char>, question: Seq<char> },
    Done { round: nat },
}

impl View for CrewOut {
    type V = CrewOutV;

    open spec fn view(&self) -> CrewOutV {
        match *self {
            CrewOut::Round => CrewOutV::Round,
            CrewOut::AskUser { member, question } => CrewOutV::AskUser {
                member: member@,
                question: question@,
            },
            CrewOut::Done { round } => CrewOutV::Done { round: round as nat },
        }
    }
}

/// A module of a drafted roster, and why it is in it.
#[derive(Debug)]
pub struct Pick {
    pub id: String,
    pub why: String,
}

pub open spec fn picks_v(v: Seq<Pick>) -> Seq<(Seq<char>, Seq<char>)> {
    v.map_values(|p: Pick| (p.id@, p.why@))
}

/// A team's session.
#[derive(Debug)]
pub struct CrewSession {
    /// Whether the core drafts the roster.
    delegated: bool,
    /// The modules of the team.
    picked: Vec<String>,
    task: String,
    slate: Vec<Pick>,
    /// What waits for the user.
    pub pending: Option<Pending>,
    allow: bool,
    /// Whether the discussion was begun.
    begun: bool,
    /// How many lines of the discussion went out.
    emitted: usize,
    plan: String,
    /// How often the task was done again, and how often it may be.
    rework: usize,
    cap: usize,
    done: bool,
}

#[verifier::ext_equal]
pub struct CrewV {
    pub delegated: bool,
    pub picked: Seq<Seq<char>>,
    pub task: Seq<char>,
    pub slate: Seq<(Seq<char>, Seq<char>)>,
    pub pending: Option<PendingV>,
    pub allow: bool,
    pub begun: bool,
    pub emitted: nat,
    pub plan: Seq<char>,
    pub rework: nat,
    pub cap: nat,
    pub done: bool,
}

impl View for CrewSession {
    type V = CrewV;

    closed spec fn view(&self) -> CrewV {
        CrewV {
            delegated: self.delegated,
            picked: text::texts(self.picked@),
            task: self.task@,
            slate: picks_v(self.slate@),
            pending: events::opt_pending(self.pending),
            allow: self.allow,
            begun: self.begun,
            emitted: self.emitted as nat,
            plan: self.plan@,
            rework: self.rework as nat,
            cap: self.cap as nat,
            done: self.done,
        }
    }
}

// ---- what comes of what happens ----

/// The ids of modules by their places.
pub open spec fn ids_at(v: Seq<Module>, picks: Seq<int>) -> Seq<Seq<char>> {
    picks.map_values(|i: int| v[i].manifest.id@)
}

/// A team's session as it begins: a list that is a question mark has the core draft
/// the roster; another one has to name a module.
pub open spec fn crew_of(modules: Seq<Module>, ids: Seq<char>, cap: nat) -> Result<CrewV, Seq<char>> {
    let delegated = text::trimmed(ids) == "?"@;
    let picks = kernel::picks_of(modules, ids);
    if !delegated && picks.len() == 0 {
        Err("名单为空或无有效模块"@)
    } else {
        Ok(
            CrewV {
                delegated,
                picked: if delegated {
                    Seq::empty()
                } else {
                    ids_at(modules, picks)
                },
                task: Seq::empty(),
                slate: Seq::empty(),
                pending: None,
                allow: false,
                begun: false,
                emitted: 0,
                plan: Seq::empty(),
                rework: 0,
                cap,
                done: false,
            },
        )
    }
}

/// The end of a session that cannot go on.
pub open spec fn crew_gives_up(w: CrewV, t: Seq<char>) -> (CrewV, CrewStepV, Seq<CrewEventV>) {
    (CrewV { done: true, ..w }, CrewStepV::Wait, seq![crew_notice(t), CrewEventV::Told(EventV::Ended)])
}

pub open spec fn brief_lines(v: Seq<Module>) -> Seq<Seq<char>> {
    v.map_values(|m: Module| "- "@ + m.manifest.id@ + "："@ + m.manifest.brief@)
}

/// The request to draft a roster.
pub open spec fn draft_request(modules: Seq<Module>, task: Seq<char>) -> Seq<MsgV> {
    seq![
        ports::plain_msg(
            "system"@,
            "你是核心编排者。根据需求从模块简述中代拟建组名单。只输出 JSON：{\"picks\":[{\"id\":\"模块id\",\"why\":\"一句入选理由\"}]}。不选择不存在的模块。"@,
        ),
        ports::plain_msg(
            "user"@,
            "== 模块简述 ==\n"@ + text::joined(brief_lines(modules), "\n"@) + "\n\n== 需求 ==\n"@ + task,
        ),
    ]
}

pub open spec fn crew_named(names: Seq<Seq<char>>) -> CrewEventV {
    crew_notice("[建组] "@ + text::joined(names, " + "@))
}

/// The session after the task was given.
pub open spec fn crew_task(w: CrewV, modules: Seq<Module>, task: Seq<char>) -> (
    CrewV,
    CrewStepV,
    Seq<CrewEventV>,
) {
    if text::trimmed(task).len() == 0 {
        crew_gives_up(w, "[取消] 需求为空"@)
    } else if w.delegated {
        (CrewV { task, ..w }, CrewStepV::Draft(draft_request(modules, task)), Seq::empty())
    } else {
        (
            CrewV { task, pending: Some(PendingV::ConfirmBegin), ..w },
            CrewStepV::Wait,
            seq![crew_named(w.picked)],
        )
    }
}

pub open spec fn is_module(modules: Seq<Module>, id: Seq<char>) -> bool {
    kernel::index_of_module(modules, id, 0) is Some
}

/// Those of the first `n` picks that are modules.
pub open spec fn real_picks(modules: Seq<Module>, v: Seq<(Seq<char>, Seq<char>)>, n: int) -> Seq<
    (Seq<char>, Seq<char>),
>
    decreases n,
{
    if n <= 0 {
        Seq::empty()
    } else if is_module(modules, v[n - 1].0) {
        real_picks(modules, v, n - 1).push(v[n - 1])
    } else {
        real_picks(modules, v, n - 1)
    }
}

/// What is told of those that are not.
pub open spec fn refused_picks(modules: Seq<Module>, v: Seq<(Seq<char>, Seq<char>)>, n: int) -> Seq<
    CrewEventV,
>
    decreases n,
{
    if n <= 0 {
        Seq::empty()
    } else if is_module(modules, v[n - 1].0) {
        refused_picks(modules, v, n - 1)
    } else {
        refused_picks(modules, v, n - 1).push(crew_notice("[代拟] "@ + v[n - 1].0 + " 不存在，拒收"@))
    }
}

pub open spec fn pick_texts(v: Seq<(Seq<char>, Seq<char>)>) -> Seq<Seq<char>> {
    v.map_values(|p: (Seq<char>, Seq<char>)| p.0 + "（"@ + p.1 + "）"@)
}

/// The session after a roster was drafted: what is no module is refused, and the rest
/// waits for the user.
pub open spec fn crew_draft(
    w: CrewV,
    modules: Seq<Module>,
    picks: Option<Seq<(Seq<char>, Seq<char>)>>,
) -> (CrewV, CrewStepV, Seq<CrewEventV>) {
    match picks {
        None => crew_gives_up(w, "[错误] 代拟失败（模型无响应格式）。请直接点名模块。"@),
        Some(v) => {
            let good = real_picks(modules, v, v.len() as int);
            let head = refused_picks(modules, v, v.len() as int);
            if good.len() == 0 {
                let e = crew_gives_up(w, "[错误] 代拟名单无有效模块"@);
                (e.0, e.1, head + e.2)
            } else {
                (
                    CrewV { slate: good, pending: Some(PendingV::ConfirmSlate), ..w },
                    CrewStepV::Wait,
                    head.push(
                        CrewEventV::Lines(
                            seq!["[代拟] "@ + text::joined(pick_texts(good), "；"@)],
                        ),
                    ),
                )
            }
        },
    }
}

/// The names of the first `n` picks that are still modules.
pub open spec fn names_left(modules: Seq<Module>, v: Seq<(Seq<char>, Seq<char>)>, n: int) -> Seq<
    Seq<char>,
>
    decreases n,
{
    if n <= 0 {
        Seq::empty()
    } else {
        names_left(modules, v, n - 1) + text::when(is_module(modules, v[n - 1].0), v[n - 1].0)
    }
}

/// The session after the user confirmed the drafted roster, or did not.
pub open spec fn crew_confirmed(w: CrewV, modules: Seq<Module>, ok: bool) -> (
    CrewV,
    CrewStepV,
    Seq<CrewEventV>,
) {
    let line = CrewEventV::Lines(
        seq![
            "[用户:名单] "@ + if ok {
                "确认"@
            } else {
                "取消"@
            },
        ],
    );
    if !ok {
        let e = crew_gives_up(w, "[取消] 已按用户意愿取消"@);
        (e.0, e.1, seq![line] + e.2)
    } else {
        let names = names_left(modules, w.slate, w.slate.len() as int);
        (
            CrewV { picked: names, pending: Some(PendingV::ConfirmBegin), ..w },
            CrewStepV::Wait,
            seq![line, crew_named(names)],
        )
    }
}

pub open spec fn crew_notes(v: Seq<Seq<char>>) -> Seq<CrewEventV> {
    v.map_values(|n: Seq<char>| crew_notice(n))
}

/// The session after the user let the discussion begin.
pub open spec fn crew_begun(w: CrewV, allow: bool, notes: Seq<Seq<char>>, demo: bool) -> (
    CrewV,
    CrewStepV,
    Seq<CrewEventV>,
) {
    if w.done || w.begun {
        (w, CrewStepV::Wait, Seq::empty())
    } else {
        (
            CrewV { allow, begun: true, ..w },
            CrewStepV::Open,
            crew_notes(notes) + if demo {
                seq![crew_notice("[提示] 核心未配置供应商：整理/验收使用内置假模型（演示）"@)]
            } else {
                Seq::empty()
            },
        )
    }
}

/// The lines that did not go out yet go out.
pub open spec fn crew_lines(w: CrewV, lines: Seq<Seq<char>>) -> (CrewV, Seq<CrewEventV>) {
    if lines.len() > w.emitted {
        (
            CrewV { emitted: lines.len(), ..w },
            seq![CrewEventV::Lines(lines.skip(w.emitted as int))],
        )
    } else {
        (w, Seq::empty())
    }
}

/// The session after the discussion was opened.
pub open spec fn crew_opened(w: CrewV, lines: Seq<Seq<char>>) -> (CrewV, CrewStepV, Seq<CrewEventV>) {
    let a = crew_lines(w, lines);
    (
        a.0,
        if w.done || !w.begun {
            CrewStepV::Wait
        } else {
            CrewStepV::Talk
        },
        a.1,
    )
}

/// The session after a step of the discussion: it goes on, a member asks the user, or
/// it is over and a plan is drawn up.
pub open spec fn crew_talked(w: CrewV, lines: Seq<Seq<char>>, out: CrewOutV) -> (
    CrewV,
    CrewStepV,
    Seq<CrewEventV>,
) {
    if w.done || !w.begun {
        (w, CrewStepV::Wait, Seq::empty())
    } else {
        let a = crew_lines(w, lines);
        match out {
            CrewOutV::Round => (a.0, CrewStepV::Talk, a.1),
            CrewOutV::AskUser { member, question } => (
                CrewV { pending: Some(PendingV::Ask { member, question }), ..a.0 },
                CrewStepV::Wait,
                a.1,
            ),
            CrewOutV::Done { round } => (
                a.0,
                CrewStepV::Plan,
                a.1 + (if round > MAX_ROUNDS {
                    seq![crew_notice("[上限] 讨论轮次超限，交用户裁决。"@)]
                } else {
                    Seq::empty()
                }).push(
                    CrewEventV::Told(
                        EventV::DiscussionDone { round, over_cap: round > MAX_ROUNDS },
                    ),
                ),
            ),
        }
    }
}

/// The session after the user answered a member.
pub open spec fn crew_answered(w: CrewV, t: Seq<char>) -> (CrewV, CrewStepV) {
    if w.pending is Some && w.pending->0 is Ask {
        (
            CrewV { pending: None, ..w },
            if w.done || !w.begun {
                CrewStepV::Wait
            } else {
                CrewStepV::Answer(t)
            },
        )
    } else {
        (w, CrewStepV::Wait)
    }
}

/// The session after the plan was drawn up.
pub open spec fn crew_planned(w: CrewV, plan: Seq<char>) -> (CrewV, CrewStepV, Seq<CrewEventV>) {
    (CrewV { plan, ..w }, CrewStepV::Run, seq![CrewEventV::Told(EventV::Plan(plan))])
}

pub open spec fn crew_reports(v: Seq<(Seq<char>, Seq<char>)>, rework: nat) -> Seq<CrewEventV> {
    v.map_values(
        |e: (Seq<char>, Seq<char>)|
            CrewEventV::Told(EventV::Report { id: e.0, text: e.1, rework }),
    )
}

/// The session after what was reported was judged: what did not pass is done again as
/// often as it may be; then the session is over, whether it passed or not.
pub open spec fn crew_reviewed(w: CrewV, x: ExecutionV, fails: Seq<char>) -> (
    CrewV,
    CrewStepV,
    Seq<CrewEventV>,
) {
    let shown = CrewEventV::Told(
        EventV::Review {
            items: x.items.map_values(|i: ItemV| review::shown_check(i)),
            raw: x.checklist_raw,
        },
    );
    let ok = review::passed_all(x.items);
    if !ok && w.rework < w.cap {
        (
            CrewV { rework: w.rework + 1, ..w },
            CrewStepV::Rerun(fails),
            seq![
                shown,
                crew_notice(
                    "[返工] 第 "@ + text::decimal(w.rework + 1) + " 次（上限 "@ + text::decimal(w.cap)
                        + "）"@,
                ),
            ],
        )
    } else {
        (
            CrewV { done: true, ..w },
            CrewStepV::Wait,
            seq![
                shown,
                CrewEventV::Told(EventV::Delivery { ok, over_rework: !ok }),
                CrewEventV::Told(EventV::Ended),
            ],
        )
    }
}

// ---- doing it ----

fn nothing_told() -> (r: Vec<CrewEvent>)
    ensures
        crew_events(r@) == Seq::<CrewEventV>::empty(),
{
    let r: Vec<CrewEvent> = Vec::new();
    assert(crew_events(r@) =~= Seq::empty());
    r
}

fn tell(out: &mut Vec<CrewEvent>, e: CrewEvent)
    ensures
        crew_events(final(out)@) == crew_events(old(out)@).push(e@),
{
    let ghost before = out@;
    out.push(e);
    assert(crew_events(out@) =~= crew_events(before).push(e@));
}

fn tell_notice(out: &mut Vec<CrewEvent>, t: String)
    ensures
        crew_events(final(out)@) == crew_events(old(out)@).push(crew_notice(t@)),
{
    tell(out, CrewEvent::Told(SessionEvent::Notice(t)));
}

fn tell_line(out: &mut Vec<CrewEvent>, t: String)
    ensures
        crew_events(final(out)@) == crew_events(old(out)@).push(CrewEventV::Lines(seq![t@])),
{
    let mut v: Vec<String> = Vec::new();
    v.push(t);
    assert(text::texts(v@) =~= seq![t@]);
    tell(out, CrewEvent::Lines(v));
}

fn brief_listing(modules: &Roster) -> (r: String)
    ensures
        r@ == text::joined(brief_lines(modules.modules@), "\n"@),
{
    let ghost all = brief_lines(modules.modules@);
    let mut ls: Vec<String> = Vec::new();
    let mut i: usize = 0;
    assert(text::texts(ls@) =~= all.take(0));
    while i < modules.modules.len()
        invariant
            i <= modules.modules@.len(),
            all == brief_lines(modules.modules@),
            text::texts(ls@) == all.take(i as int),
        decreases modules.modules@.len() - i,
    {
        let m = &modules.modules[i].manifest;
        let l = cat4("- ", m.id.as_str(), "：", m.brief.as_str());
        let ghost prev = ls@;
        ls.push(l);
        proof {
            text::lemma_texts_push(prev, l);
            assert(all[i as int] == l@);
            assert(text::texts(ls@) =~= all.take(i + 1));
        }
        i = i + 1;
    }
    assert(all.take(all.len() as int) =~= all);
    join(&ls, "\n")
}

fn ask_draft(modules: &Roster, task: &str) -> (r: Vec<Msg>)
    ensures
        ports::msgs_v(r@) == draft_request(modules.modules@, task@),
{
    let user = cat4(
        "== 模块简述 ==\n",
        brief_listing(modules).as_str(),
        "\n\n== 需求 ==\n",
        task,
    );
    let mut msgs: Vec<Msg> = Vec::new();
    msgs.push(
        Msg::system(
            "你是核心编排者。根据需求从模块简述中代拟建组名单。只输出 JSON：{\"picks\":[{\"id\":\"模块id\",\"why\":\"一句入选理由\"}]}。不选择不存在的模块。".to_owned(),
        ),
    );
    msgs.push(Msg::user(user));
    assert(ports::msgs_v(msgs@) =~= draft_request(modules.modules@, task@));
    msgs
}

impl CrewSession {
    /// Begins a session with the modules a list names, or with a roster the core
    /// drafts. What fails may be done again `cap` times.
    pub fn start(modules: &Roster, ids: &str, cap: usize) -> (r: Result<CrewSession, String>)
        ensures
            match r {
                Ok(s) => crew_of(modules.modules@, ids@, cap as nat) == Ok::<_, Seq<char>>(s@),
                Err(e) => crew_of(modules.modules@, ids@, cap as nat) == Err::<CrewV, _>(e@),
            },
    {
        let delegated = str_eq(trim(ids).as_str(), "?");
        let mut picked: Vec<String> = Vec::new();
        assert(text::texts(picked@) =~= Seq::empty());
        if !delegated {
            let picks = pick_owned(modules, ids);
            let ghost pv = kernel::positions(picks@);
            assert(pv.len() == picks@.len());
            if picks.len() == 0 {
                return Err("名单为空或无有效模块".to_owned());
            }
            let ghost all = ids_at(modules.modules@, pv);
            let mut i: usize = 0;
            assert(text::texts(picked@) =~= all.take(0));
            while i < picks.len()
                invariant
                    i <= picks@.len(),
                    pv == kernel::positions(picks@),
                    all == ids_at(modules.modules@, pv),
                    forall|k: int| 0 <= k < picks@.len() ==> #[trigger] picks@[k] < modules.modules@.len(),
                    text::texts(picked@) == all.take(i as int),
                decreases picks@.len() - i,
            {
                assert(pv[i as int] == picks@[i as int]);
                let id = modules.modules[picks[i]].manifest.id.clone();
                let ghost prev = picked@;
                picked.push(id);
                proof {
                    text::lemma_texts_push(prev, id);
                    assert(all[i as int] == id@);
                    assert(text::texts(picked@) =~= all.take(i + 1));
                }
                i = i + 1;
            }
            assert(all.take(all.len() as int) =~= all);
        }
        let s = CrewSession {
            delegated,
            picked,
            task: String::new(),
            slate: Vec::new(),
            pending: None,
            allow: false,
            begun: false,
            emitted: 0,
            plan: String::new(),
            rework: 0,
            cap,
            done: false,
        };
        assert(s@.slate =~= Seq::empty());
        assert(s@ =~= crew_of(modules.modules@, ids@, cap as nat)->Ok_0);
        Ok(s)
    }

    fn give_up(&mut self, out: &mut Vec<CrewEvent>, t: &str)
        ensures
            final(self)@ == (CrewV { done: true, ..old(self)@ }),
            crew_events(final(out)@) == crew_events(old(out)@) + crew_gives_up(old(self)@, t@).2,
    {
        let ghost head = crew_events(out@);
        tell_notice(out, t.to_owned());
        tell(out, CrewEvent::Told(SessionEvent::Ended));
        self.done = true;
        assert(crew_events(out@) =~= head + crew_gives_up(old(self)@, t@).2);
    }

    /// The user gives the task.
    pub fn set_task(&mut self, modules: &Roster, task: &str) -> (r: (CrewStep, Vec<CrewEvent>))
        ensures
            (final(self)@, r.0@, crew_events(r.1@)) == crew_task(old(self)@, modules.modules@, task@),
    {
        let ghost want = crew_task(self@, modules.modules@, task@);
        let mut out = nothing_told();
        if is_blank(task) {
            self.give_up(&mut out, "[取消] 需求为空");
            assert(crew_events(out@) =~= want.2);
            return (CrewStep::Wait, out);
        }
        self.task = task.to_owned();
        if self.delegated {
            return (CrewStep::Draft(ask_draft(modules, task)), out);
        }
        tell_notice(&mut out, cat2("[建组] ", join(&self.picked, " + ").as_str()));
        self.pending = Some(Pending::ConfirmBegin);
        assert(crew_events(out@) =~= want.2);
        (CrewStep::Wait, out)
    }

    /// Takes a drafted roster; `None` where the core gave none.
    pub fn drafted(&mut self, modules: &Roster, picks: Option<Vec<Pick>>) -> (r: (
        CrewStep,
        Vec<CrewEvent>,
    ))
        ensures
            (final(self)@, r.0@, crew_events(r.1@)) == crew_draft(
                old(self)@,
                modules.modules@,
                match picks {
                    Some(v) => Some(picks_v(v@)),
                    None => None,
                },
            ),
    {
        let mut out = nothing_told();
        let v = match picks {
            Some(v) => v,
            None => {
                let ghost want = crew_draft(self@, modules.modules@, None);
                self.give_up(&mut out, "[错误] 代拟失败（模型无响应格式）。请直接点名模块。");
                assert(crew_events(out@) =~= want.2);
                return (CrewStep::Wait, out);
            },
        };
        let ghost pv = picks_v(v@);
        let ghost mv = modules.modules@;
        let ghost want = crew_draft(self@, mv, Some(pv));
        let mut good: Vec<Pick> = Vec::new();
        let mut texts: Vec<String> = Vec::new();
        let mut i: usize = 0;
        assert(picks_v(good@) =~= Seq::empty());
        assert(text::texts(texts@) =~= pick_texts(picks_v(good@)));
        while i < v.len()
            invariant
                i <= v@.len(),
                pv == picks_v(v@),
                mv == modules.modules@,
                picks_v(good@) == real_picks(mv, pv, i as int),
                text::texts(texts@) == pick_texts(picks_v(good@)),
                crew_events(out@) == refused_picks(mv, pv, i as int),
            decreases v@.len() - i,
        {
            let p = &v[i];
            assert(pv[i as int] == (p.id@, p.why@));
            if find_in_list(&modules.modules, p.id.as_str()).is_some() {
                let l = cat4(p.id.as_str(), "（", p.why.as_str(), "）");
                let ghost before = texts@;
                let ghost prev = good@;
                texts.push(l);
                good.push(Pick { id: p.id.clone(), why: p.why.clone() });
                proof {
                    text::lemma_texts_push(before, l);
                    assert(picks_v(good@) =~= picks_v(prev).push(pv[i as int]));
                    assert(text::texts(texts@) =~= pick_texts(picks_v(good@)));
                }
            } else {
                tell_notice(&mut out, cat3("[代拟] ", p.id.as_str(), " 不存在，拒收"));
            }
            i = i + 1;
        }
        assert(picks_v(good@).len() == good@.len());
        if good.len() == 0 {
            self.give_up(&mut out, "[错误] 代拟名单无有效模块");
            return (CrewStep::Wait, out);
        }
        tell_line(&mut out, cat2("[代拟] ", join(&texts, "；").as_str()));
        self.slate = good;
        self.pending = Some(Pending::ConfirmSlate);
        assert(self@ =~= want.0);
        (CrewStep::Wait, out)
    }

    /// The user confirms the drafted roster, or does not.
    pub fn confirm_slate(&mut self, modules: &Roster, ok: bool) -> (r: (CrewStep, Vec<CrewEvent>))
        ensures
            (final(self)@, r.0@, crew_events(r.1@)) == crew_confirmed(old(self)@, modules.modules@, ok),
    {
        let ghost want = crew_confirmed(self@, modules.modules@, ok);
        let ghost mv = modules.modules@;
        let mut out = nothing_told();
        let word = if ok {
            "确认"
        } else {
            "取消"
        };
        tell_line(&mut out, cat2("[用户:名单] ", word));
        if !ok {
            self.give_up(&mut out, "[取消] 已按用户意愿取消");
            assert(crew_events(out@) =~= want.2);
            return (CrewStep::Wait, out);
        }
        let ghost pv = picks_v(self.slate@);
        let mut names: Vec<String> = Vec::new();
        let mut i: usize = 0;
        assert(text::texts(names@) =~= Seq::empty());
        while i < self.slate.len()
            invariant
                i <= self.slate@.len(),
                pv == picks_v(self.slate@),
                mv == modules.modules@,
                text::texts(names@) == names_left(mv, pv, i as int),
            decreases self.slate@.len() - i,
        {
            let p = &self.slate[i];
            assert(pv[i as int] == (p.id@, p.why@));
            let there = find_in_list(&modules.modules, p.id.as_str()).is_some();
            push_when(&mut names, there, p.id.clone());
            i = i + 1;
        }
        tell_notice(&mut out, cat2("[建组] ", join(&names, " + ").as_str()));
        self.picked = names;
        self.pending = Some(Pending::ConfirmBegin);
        assert(crew_events(out@) =~= want.2);
        assert(self@ =~= want.0);
        (CrewStep::Wait, out)
    }

    /// The modules of the team.
    pub fn team(&self) -> (r: &Vec<String>)
        ensures
            text::texts(r@) == self@.picked,
    {
        &self.picked
    }

    /// The task.
    pub fn task(&self) -> (r: &str)
        ensures
            r@ == self@.task,
    {
        self.task.as_str()
    }

    /// The plan.
    pub fn plan(&self) -> (r: &str)
        ensures
            r@ == self@.plan,
    {
        self.plan.as_str()
    }

    /// The user lets the discussion begin; with `allow` the team decides for itself.
    /// What the members' channels say of themselves is told first.
    pub fn begin(&mut self, allow: bool, notes: &Vec<String>, demo: bool) -> (r: (
        CrewStep,
        Vec<CrewEvent>,
    ))
        ensures
            (final(self)@, r.0@, crew_events(r.1@)) == crew_begun(
                old(self)@,
                allow,
                text::texts(notes@),
                demo,
            ),
    {
        let ghost want = crew_begun(self@, allow, text::texts(notes@), demo);
        let mut out = nothing_told();
        if self.done || self.begun {
            return (CrewStep::Wait, out);
        }
        self.allow = allow;
        self.begun = true;
        let ghost all = crew_notes(text::texts(notes@));
        let mut i: usize = 0;
        assert(crew_events(out@) =~= all.take(0));
        while i < notes.len()
            invariant
                i <= notes@.len(),
                all == crew_notes(text::texts(notes@)),
                crew_events(out@) == all.take(i as int),
            decreases notes@.len() - i,
        {
            tell_notice(&mut out, notes[i].clone());
            assert(all[i as int] == crew_notice(notes@[i as int]@));
            i = i + 1;
            assert(crew_events(out@) =~= all.take(i as int));
        }
        assert(all.take(all.len() as int) =~= all);
        if demo {
            tell_notice(
                &mut out,
                "[提示] 核心未配置供应商：整理/验收使用内置假模型（演示）".to_owned(),
            );
        }
        assert(crew_events(out@) =~= want.2);
        (CrewStep::Open, out)
    }

    fn send_lines(&mut self, lines: &Vec<String>) -> (r: Vec<CrewEvent>)
        ensures
            (final(self)@, crew_events(r@)) == crew_lines(old(self)@, text::texts(lines@)),
    {
        let ghost want = crew_lines(self@, text::texts(lines@));
        let mut out = nothing_told();
        assert(text::texts(lines@).len() == lines@.len());
        if lines.len() > self.emitted {
            let ghost all = text::texts(lines@);
            let from = self.emitted;
            let mut fresh: Vec<String> = Vec::new();
            let mut i: usize = from;
            assert(text::texts(fresh@) =~= all.subrange(from as int, from as int));
            while i < lines.len()
                invariant
                    from <= i <= lines@.len(),
                    all == text::texts(lines@),
                    text::texts(fresh@) == all.subrange(from as int, i as int),
                decreases lines@.len() - i,
            {
                let l = lines[i].clone();
                let ghost prev = fresh@;
                fresh.push(l);
                proof {
                    text::lemma_texts_push(prev, l);
                    assert(all[i as int] == l@);
                    assert(text::texts(fresh@) =~= all.subrange(from as int, i + 1));
                }
                i = i + 1;
            }
            assert(all.subrange(from as int, all.len() as int) =~= all.skip(from as int));
            tell(&mut out, CrewEvent::Lines(fresh));
            self.emitted = lines.len();
            assert(crew_events(out@) =~= want.1);
            assert(self@ =~= want.0);
        }
        out
    }

    /// Takes the transcript of the discussion as it was opened.
    pub fn opened(&mut self, lines: &Vec<String>) -> (r: (CrewStep, Vec<CrewEvent>))
        ensures
            (final(self)@, r.0@, crew_events(r.1@)) == crew_opened(old(self)@, text::texts(lines@)),
    {
        let idle = self.done || !self.begun;
        let out = self.send_lines(lines);
        if idle {
            (CrewStep::Wait, out)
        } else {
            (CrewStep::Talk, out)
        }
    }

    /// Takes the transcript after a step of the discussion, and how the step ended.
    pub fn pump(&mut self, lines: &Vec<String>, out: CrewOut) -> (r: (CrewStep, Vec<CrewEvent>))
        ensures
            (final(self)@, r.0@, crew_events(r.1@)) == crew_talked(
                old(self)@,
                text::texts(lines@),
                out@,
            ),
    {
        let ghost want = crew_talked(self@, text::texts(lines@), out@);
        if self.done || !self.begun {
            return (CrewStep::Wait, nothing_told());
        }
        let mut told = self.send_lines(lines);
        match out {
            CrewOut::Round => (CrewStep::Talk, told),
            CrewOut::AskUser { member, question } => {
                self.pending = Some(Pending::Ask { member, question });
                (CrewStep::Wait, told)
            },
            CrewOut::Done { round } => {
                if round > MAX_ROUNDS {
                    tell_notice(&mut told, "[上限] 讨论轮次超限，交用户裁决。".to_owned());
                }
                tell(
                    &mut told,
                    CrewEvent::Told(
                        SessionEvent::DiscussionDone { round, over_cap: round > MAX_ROUNDS },
                    ),
                );
                assert(crew_events(told@) =~= want.2);
                (CrewStep::Plan, told)
            },
        }
    }

    /// The user answers a member.
    pub fn answer(&mut self, text: &str) -> (r: CrewStep)
        ensures
            (final(self)@, r@) == crew_answered(old(self)@, text@),
    {
        let asked = match &self.pending {
            Some(Pending::Ask { .. }) => true,
            _ => false,
        };
        if !asked {
            return CrewStep::Wait;
        }
        self.pending = None;
        if self.done || !self.begun {
            return CrewStep::Wait;
        }
        CrewStep::Answer(text.to_owned())
    }

    /// Takes the plan.
    pub fn planned(&mut self, plan: String) -> (r: (CrewStep, Vec<CrewEvent>))
        ensures
            (final(self)@, r.0@, crew_events(r.1@)) == crew_planned(old(self)@, plan@),
    {
        let ghost want = crew_planned(self@, plan@);
        let mut out = nothing_told();
        tell(&mut out, CrewEvent::Told(SessionEvent::Plan(plan.clone())));
        self.plan = plan;
        assert(crew_events(out@) =~= want.2);
        (CrewStep::Run, out)
    }

    /// Takes what the members report.
    pub fn ran(&self, exec: &Execution) -> (r: (CrewStep, Vec<CrewEvent>))
        ensures
            r.0@ is Review,
            crew_events(r.1@) == crew_reports(exec@.reports, self@.rework),
    {
        let ghost all = crew_reports(exec@.reports, self@.rework);
        let mut out = nothing_told();
        let n = exec.reports.len();
        let mut i: usize = 0;
        assert(exec@.reports.len() == exec.reports@.len());
        assert(crew_events(out@) =~= all.take(0));
        while i < n
            invariant
                i <= n,
                n == exec.reports@.len(),
                exec@.reports.len() == n,
                all == crew_reports(exec@.reports, self@.rework),
                crew_events(out@) == all.take(i as int),
            decreases n - i,
        {
            let id = exec.reports.key_at(i).to_owned();
            let text = exec.reports.value_at(i).clone();
            assert(exec@.reports[i as int] == (id@, text@));
            tell(&mut out, CrewEvent::Told(SessionEvent::Report { id, text, rework: self.rework }));
            assert(all[i as int] == CrewEventV::Told(
                EventV::Report { id: id@, text: text@, rework: self@.rework },
            ));
            i = i + 1;
            assert(crew_events(out@) =~= all.take(i as int));
        }
        assert(all.take(all.len() as int) =~= all);
        (CrewStep::Review, out)
    }

    /// Takes the checklist on what was reported.
    pub fn reviewed(&mut self, exec: &Execution) -> (r: (CrewStep, Vec<CrewEvent>))
        ensures
            (final(self)@, r.0@, crew_events(r.1@)) == crew_reviewed(
                old(self)@,
                exec@,
                text::joined(kernel::fails_below(exec.items@, exec.items@.len() as int), "\n"@),
            ),
    {
        let ghost want = crew_reviewed(
            self@,
            exec@,
            text::joined(kernel::fails_below(exec.items@, exec.items@.len() as int), "\n"@),
        );
        let mut out = nothing_told();
        tell(&mut out, CrewEvent::Told(review_event(exec)));
        match after_review(exec.all_pass(), self.rework, self.cap) {
            AfterReview::Rework => {
                self.rework = self.rework + 1;
                tell_notice(
                    &mut out,
                    cat5(
                        "[返工] 第 ",
                        dec_usize(self.rework).as_str(),
                        " 次（上限 ",
                        dec_usize(self.cap).as_str(),
                        "）",
                    ),
                );
                assert(crew_events(out@) =~= want.2);
                (CrewStep::Rerun(fail_text(&exec.items)), out)
            },
            AfterReview::Deliver { ok } => {
                tell(
                    &mut out,
                    CrewEvent::Told(SessionEvent::Delivery { ok, over_rework: !ok }),
                );
                tell(&mut out, CrewEvent::Told(SessionEvent::Ended));
                self.done = true;
                assert(crew_events(out@) =~= want.2);
                (CrewStep::Wait, out)
            },
        }
    }
}

// ---- what holds of every team ----

/// What did not pass is done again, and never more often than it may be; what is
/// delivered without having passed was done again as often as it may.
pub proof fn a_team_stops_at_its_limit(w: CrewV, x: ExecutionV, fails: Seq<char>)
    requires
        w.rework <= w.cap,
        !w.done,
    ensures
        ({
            let a = crew_reviewed(w, x, fails);
            &&& a.0.rework <= a.0.cap
            &&& a.1 is Rerun <==> !a.0.done
            &&& a.1 is Rerun ==> a.0.rework == w.rework + 1 && !review::passed_all(x.items)
            &&& a.0.done ==> a.2.last() == CrewEventV::Told(EventV::Ended) && (review::passed_all(
                x.items,
            ) || w.rework == w.cap)
        }),
{
}

/// A team whose session is over does nothing more.
pub proof fn the_end_of_a_team(
    w: CrewV,
    allow: bool,
    notes: Seq<Seq<char>>,
    demo: bool,
    lines: Seq<Seq<char>>,
    out: CrewOutV,
)
    requires
        w.done,
    ensures
        crew_begun(w, allow, notes, demo) == (w, CrewStepV::Wait, Seq::<CrewEventV>::empty()),
        crew_talked(w, lines, out) == (w, CrewStepV::Wait, Seq::<CrewEventV>::empty()),
        crew_opened(w, lines).1 is Wait,
        forall|t: Seq<char>| (#[trigger] crew_answered(w, t)).1 is Wait,
{
}

/// Lines of the discussion go out once and in order: what went out before, with what
/// goes out now, is the transcript.
pub proof fn a_teams_lines_go_out_once(w: CrewV, lines: Seq<Seq<char>>)
    requires
        w.emitted <= lines.len(),
    ensures
        ({
            let a = crew_lines(w, lines);
            &&& a.0.emitted == lines.len()
            &&& a.1.len() <= 1
            &&& a.1.len() == 0 ==> w.emitted == lines.len()
            &&& a.1.len() == 1 ==> a.1[0] is Lines && lines.take(w.emitted as int) + a.1[0]->Lines_0
                == lines
            &&& crew_lines(a.0, lines) == (a.0, Seq::<CrewEventV>::empty())
        }),
{
    assert(lines.take(w.emitted as int) + lines.skip(w.emitted as int) =~= lines);
}

/// A drafted roster is made of modules there are, in the order they were drafted, and
/// a team that was confirmed is too.
pub proof fn drafted_teams_are_made_of_modules(
    modules: Seq<Module>,
    v: Seq<(Seq<char>, Seq<char>)>,
    n: int,
)
    requires
        0 <= n <= v.len(),
    ensures
        forall|k: int|
            0 <= k < real_picks(modules, v, n).len() ==> is_module(
                modules,
                (#[trigger] real_picks(modules, v, n)[k]).0,
            ) && v.contains(real_picks(modules, v, n)[k]),
        forall|k: int|
            0 <= k < names_left(modules, v, n).len() ==> is_module(
                modules,
                #[trigger] names_left(modules, v, n)[k],
            ),
        real_picks(modules, v, n).len() + refused_picks(modules, v, n).len() == n,
    decreases n,
{
    if n > 0 {
        drafted_teams_are_made_of_modules(modules, v, n - 1);
        assert(v.contains(v[n - 1]));
        let prev = names_left(modules, v, n - 1);
        assert forall|k: int| 0 <= k < names_left(modules, v, n).len() implies is_module(
            modules,
            #[trigger] names_left(modules, v, n)[k],
        ) by {
            if k < prev.len() {
                assert(names_left(modules, v, n)[k] == prev[k]);
            }
        }
    }
}

/// A draft keeps the modules that there are, in their order, and refuses the others by
/// name; a team that is confirmed is made of what was drafted.
pub proof fn drafts_keep_what_there_is(
    modules: Seq<Module>,
    v: Seq<(Seq<char>, Seq<char>)>,
    n: int,
    p: (Seq<char>, Seq<char>),
)
    requires
        0 <= n <= v.len(),
    ensures
        real_picks(modules, v, n).contains(p) <==> is_module(modules, p.0) && exists|k: int|
            0 <= k < n && #[trigger] v[k] == p,
        real_picks(modules, v, n).len() + refused_picks(modules, v, n).len() == n,
    decreases n,
{
    if n > 0 {
        drafts_keep_what_there_is(modules, v, n - 1, p);
        let a = real_picks(modules, v, n - 1);
        let h = real_picks(modules, v, n);
        if h.contains(p) {
            let k = choose|k: int| 0 <= k < h.len() && h[k] == p;
            if k < a.len() {
                assert(a[k] == p);
            } else {
                assert(v[n - 1] == p);
            }
        }
        if a.contains(p) {
            let k = choose|k: int| 0 <= k < a.len() && a[k] == p;
            assert(h[k] == p);
        }
        if is_module(modules, p.0) && v[n - 1] == p {
            assert(h[a.len() as int] == p);
        }
    }
}

/// What a team does next follows from what came of its talk: a question waits for the
/// user, a round goes on to the next, and what is done is planned; an answer goes to the
/// team, and only where one is waited for.
pub proof fn teams_go_on_by_what_was_said(w: CrewV, lines: Seq<Seq<char>>, out: CrewOutV, t: Seq<char>)
    requires
        w.begun,
        !w.done,
        w.emitted <= lines.len(),
    ensures
        ({
            let a = crew_talked(w, lines, out);
            &&& out matches CrewOutV::AskUser { member, question } ==> a.1 is Wait && a.0.pending == Some(
                PendingV::Ask { member, question },
            )
            &&& out is Round ==> a.1 is Talk && a.0.pending == w.pending
            &&& out is Done ==> a.1 is Plan && a.0.pending == w.pending
            &&& a.0.emitted == lines.len()
            &&& w.emitted < lines.len() ==> a.2.len() > 0 && a.2[0] == CrewEventV::Lines(
                lines.skip(w.emitted as int),
            )
        }),
        w.pending is Some && w.pending->0 is Ask ==> crew_answered(w, t).0.pending is None && crew_answered(w, t).1
            == CrewStepV::Answer(t),
        !(w.pending is Some && w.pending->0 is Ask) ==> crew_answered(w, t) == (w, CrewStepV::Wait),
{
}

/// A review ends the work where all passed, and where nothing may be done again; else it
/// is done again, once more than before.
pub proof fn reviews_end_or_repeat(w: CrewV, x: ExecutionV, fails: Seq<char>)
    ensures
        ({
            let a = crew_reviewed(w, x, fails);
            let ok = x.items.len() > 0 && forall|k: int|
                0 <= k < x.items.len() ==> text::same_ignoring_case((#[trigger] x.items[k]).status, "pass"@);
            &&& ok || w.rework >= w.cap ==> a.0.done && a.1 is Wait && a.0.rework == w.rework && a.2.contains(
                CrewEventV::Told(EventV::Delivery { ok, over_rework: !ok }),
            ) && a.2.last() == CrewEventV::Told(EventV::Ended)
            &&& !ok && w.rework < w.cap ==> a.1 == CrewStepV::Rerun(fails) && a.0.rework == w.rework + 1
                && a.0.done == w.done
        }),
{
    let a = crew_reviewed(w, x, fails);
    if a.2.len() == 3 {
        assert(a.2[1] == CrewEventV::Told(EventV::Delivery { ok: review::passed_all(x.items), over_rework: !review::passed_all(x.items) }));
    }
}

} // verus!
