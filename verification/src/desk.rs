//! The desk where the sessions are kept. A session that is at work is not on the
//! desk: it was handed out, and until it comes back nothing else is done with it.
use crate::collab::{self, CollabSession, Step, StepV, WorkV};
use crate::events::{self, EventV, Pending, SessionEvent};
use crate::execution::{self, Platform, Tier, tier_readiness};
use crate::history::{self, AgentMeta, HistoryView, copy_agents};
use crate::journal::{self, find_line_id};
use crate::json::{self, Json, JsonV};
use crate::module::{Module, Roster};
use crate::ports::LlmOpts;
use crate::prompt::{self, Prompts};
use crate::providers::{self, AppSettings, Channel, Settings, ToolMode};
use crate::session::AgentSession;
use crate::table::{self, Table};
use crate::team::{self, mode_of_seat};
use crate::text::{self, cat3, clone_opt, eq_ignore_case, str_eq, trim};
use crate::work::CollabStep;
use vstd::prelude::*;

verus! {

/// A session: one agent, or a team.
#[derive(Debug)]
pub enum Session {
    Single(AgentSession),
    Collab(CollabSession),
}

/// The core: what is registered, the texts, and the sessions.
#[derive(Debug)]
pub struct Core {
    pub settings: Settings,
    pub prompts: Prompts,
    pub sessions: Table<Session>,
    /// The sessions that are at work.
    pub running: Table<()>,
}

/// What is on the desk and what was handed out.
#[verifier::ext_equal]
pub struct DeskV {
    pub sessions: Seq<(Seq<char>, Session)>,
    pub running: Seq<(Seq<char>, ())>,
}

/// A session got ready to work.
#[derive(Debug)]
pub enum Prepared {
    /// It was handed out, with what is said first and how the model is called.
    Run { session: AgentSession, prefix: Vec<SessionEvent>, llm: LlmOpts },
    /// Nothing runs; this is said.
    Immediate(Vec<SessionEvent>),
    /// It is a team's.
    NotSingle,
}

/// What the user is told who lets an agent go on that has the last word.
pub open spec fn need_user() -> Seq<char> {
    "最后一条是 AI 发言：部分供应商不允许连续 AI 发言；请先发言再继续。"@
}

/// What one is told who wants something of a session at work.
pub open spec fn busy_text(sid: Seq<char>) -> Seq<char> {
    "会话 "@ + sid + " 正在生成中：先「停止」或等它结束，再做这一步"@
}

pub open spec fn held(d: DeskV, sid: Seq<char>) -> Option<Session> {
    table::lookup(d.sessions, sid)
}

pub open spec fn busy(d: DeskV, sid: Seq<char>) -> bool {
    table::lookup(d.running, sid) is Some
}

/// The desk after a session was handed out.
pub open spec fn handed_out(d: DeskV, sid: Seq<char>) -> DeskV {
    DeskV { sessions: table::removed(d.sessions, sid), running: table::inserted(d.running, sid, ()) }
}

/// The desk after a session came back.
pub open spec fn come_back(d: DeskV, sid: Seq<char>, s: Session) -> DeskV {
    DeskV { sessions: table::inserted(d.sessions, sid, s), running: table::removed(d.running, sid) }
}

/// Why an agent's session is not handed out, if it is not.
pub open spec fn single_fault(d: DeskV, sid: Seq<char>) -> Option<Seq<char>> {
    if busy(d, sid) {
        Some(busy_text(sid))
    } else {
        match held(d, sid) {
            Some(Session::Single(_)) => None,
            Some(Session::Collab(_)) => Some("该会话不是单 agent 模式"@),
            None => Some("无此会话"@),
        }
    }
}

/// Why a team's session is not handed out, if it is not.
pub open spec fn collab_fault(d: DeskV, sid: Seq<char>) -> Option<Seq<char>> {
    if busy(d, sid) {
        Some(busy_text(sid))
    } else {
        match held(d, sid) {
            Some(Session::Collab(_)) => None,
            Some(Session::Single(_)) => Some("该会话不是协作模式"@),
            None => Some("无此会话"@),
        }
    }
}

fn running_refusal(sid: &str) -> (r: String)
    ensures
        r@ == busy_text(sid@),
{
    cat3("会话 ", sid, " 正在生成中：先「停止」或等它结束，再做这一步")
}

/// How the tools of an agent are called is said when it changes.
pub open spec fn mode_notice(m: ToolMode) -> Seq<char> {
    match m {
        ToolMode::Native => "工具调用形态已按登记处改为**原生工具调用**（本条起生效）"@,
        ToolMode::Envelope => "工具调用形态已按登记处改为**手写信封**（本条起生效）"@,
    }
}

pub fn mode_change_note(mode: ToolMode) -> (r: String)
    ensures
        r@ == mode_notice(mode),
{
    match mode {
        ToolMode::Native => "工具调用形态已按登记处改为**原生工具调用**（本条起生效）".to_owned(),
        ToolMode::Envelope => "工具调用形态已按登记处改为**手写信封**（本条起生效）".to_owned(),
    }
}

pub open spec fn seat_of(s: AgentSession) -> ToolMode {
    match s.seat() {
        Some(t) => t.mode,
        None => ToolMode::Envelope,
    }
}

pub open spec fn user_last(s: AgentSession) -> bool {
    s@.dialogue.len() > 0 && s@.dialogue.last().role == "user"@
}

/// What is said before a session works.
pub open spec fn said_first(n: Option<Seq<char>>) -> Seq<EventV> {
    match n {
        Some(t) => seq![EventV::Notice(t)],
        None => Seq::empty(),
    }
}

/// What a short step makes of a work.
pub open spec fn short_outcome(
    p: Prompts,
    s: Settings,
    modules: Seq<Module>,
    c: CollabSession,
    step: CollabStep,
    text: Seq<char>,
) -> (WorkV, StepV, Seq<EventV>) {
    match step {
        CollabStep::SetTask => collab::with_task(p, s, modules, c@, c.team_words(p.core.refs, text)),
        _ => collab::with_confirmation(p, s, modules, c@, text::same_ignoring_case(text, "yes"@)),
    }
}

/// Whether a step is done at once: it sets the task or the roster.
pub open spec fn is_short(step: CollabStep) -> bool {
    step == CollabStep::SetTask || step == CollabStep::ConfirmSlate
}

/// Whether a desk is another with a work gone on to `w`: a work that is done is
/// taken off.
pub open spec fn gone_on(a: DeskV, b: DeskV, sid: Seq<char>, w: WorkV) -> bool {
    &&& a.running == b.running
    &&& if w.done {
        b.sessions == table::removed(a.sessions, sid)
    } else {
        exists|c: CollabSession|
            c@ == w && b.sessions == #[trigger] table::inserted(a.sessions, sid, Session::Collab(c))
    }
}

/// A session in the list of those there are.
#[derive(Debug)]
pub struct SessionView {
    pub sid: String,
    pub mode: String,
    pub done: bool,
    pub tier: String,
    /// Whether its tier can be carried now.
    pub tier_ready: bool,
    /// What is missing where it cannot.
    pub tier_missing: Vec<String>,
}

/// The first past session of this name, from the `i`th on.
pub open spec fn entry_of(h: Seq<HistoryView>, sid: Seq<char>, i: int) -> Option<int>
    decreases h.len() - i,
{
    if i < 0 || i >= h.len() {
        None
    } else if h[i].name@ == sid {
        Some(i)
    } else {
        entry_of(h, sid, i + 1)
    }
}

/// Whether a view shows a session as its record has it.
pub open spec fn shows_session(
    v: SessionView,
    sid: Seq<char>,
    done: bool,
    h: Seq<HistoryView>,
    bases: Seq<bool>,
    hypervisor: bool,
    platform: Platform,
) -> bool {
    &&& v.sid@ == sid
    &&& v.done == done
    &&& match entry_of(h, sid, 0) {
        Some(i) => {
            let t = execution::readiness_of(h[i].exec_spec, bases[i], hypervisor);
            &&& v.mode@ == h[i].mode@
            &&& v.tier@ == h[i].exec_spec.tier.text()
            &&& v.tier_ready == (t.base && t.hypervisor)
            &&& text::texts(v.tier_missing@) == execution::missing_texts(t, platform)
        },
        None => v.mode@.len() == 0 && v.tier@ == Tier::Host.text() && v.tier_ready
            && v.tier_missing@.len() == 0,
    }
}

/// Whether a session on the desk is over.
pub open spec fn is_over(s: Session) -> bool {
    match s {
        Session::Collab(c) => c@.done,
        Session::Single(_) => false,
    }
}

fn show_session(
    sid: &str,
    done: bool,
    h: &Vec<HistoryView>,
    bases: &Vec<bool>,
    hypervisor: bool,
    platform: Platform,
) -> (r: SessionView)
    requires
        bases@.len() == h@.len(),
    ensures
        shows_session(r, sid@, done, h@, bases@, hypervisor, platform),
{
    let mut i: usize = 0;
    while i < h.len()
        invariant
            i <= h@.len(),
            bases@.len() == h@.len(),
            entry_of(h@, sid@, 0) == entry_of(h@, sid@, i as int),
        decreases h@.len() - i,
    {
        if str_eq(h[i].name.as_str(), sid) {
            let t = tier_readiness(&h[i].exec_spec, bases[i], hypervisor);
            return SessionView {
                sid: sid.to_owned(),
                mode: h[i].mode.clone(),
                done,
                tier: h[i].exec_spec.tier.as_str().to_owned(),
                tier_ready: t.ready(),
                tier_missing: t.missing(platform),
            };
        }
        i = i + 1;
    }
    SessionView {
        sid: sid.to_owned(),
        mode: String::new(),
        done,
        tier: Tier::Host.as_str().to_owned(),
        tier_ready: true,
        tier_missing: Vec::new(),
    }
}

/// How the model is called.
pub open spec fn call_opts(app: AppSettings, want_stream: bool) -> LlmOpts {
    LlmOpts { stream: app.streaming && want_stream, timeout_secs: app.llm_timeout_secs }
}

impl Core {
    pub open spec fn desk(self) -> DeskV {
        DeskV { sessions: self.sessions@, running: self.running@ }
    }

    /// Whether two have the same registry and texts.
    pub open spec fn same_books(self, o: Core) -> bool {
        self.settings == o.settings && self.prompts == o.prompts
    }

    /// A core with nothing on its desk.
    pub fn new(settings: Settings, prompts: Prompts) -> (r: Core)
        ensures
            r.settings == settings,
            r.prompts == prompts,
            r.desk() == (DeskV { sessions: Seq::empty(), running: Seq::empty() }),
    {
        let r = Core { settings, prompts, sessions: Table::new(), running: Table::new() };
        assert(r.desk() =~= (DeskV { sessions: Seq::empty(), running: Seq::empty() }));
        r
    }

    /// How the model is called: the settings may forbid to stream, the caller may
    /// not want to.
    pub fn llm_opts(&self, want_stream: bool) -> (r: LlmOpts)
        ensures
            r == call_opts(self.settings.app, want_stream),
    {
        LlmOpts {
            stream: self.settings.app.streaming && want_stream,
            timeout_secs: self.settings.app.llm_timeout_secs,
        }
    }

    /// Where the user says the hypervisor is; none where they do not.
    pub fn qemu_path(&self) -> (r: Option<String>)
        ensures
            text::opt_text(r) == if text::trimmed(self.settings.app.qemu_path@).len() == 0 {
                None
            } else {
                Some(text::trimmed(self.settings.app.qemu_path@))
            },
    {
        let p = trim(self.settings.app.qemu_path.as_str());
        if p.as_str().unicode_len() == 0 {
            None
        } else {
            Some(p)
        }
    }

    pub fn core_model(&self) -> (r: Option<String>)
        ensures
            text::opt_text(r) == text::opt_text(self.settings.core),
    {
        clone_opt(&self.settings.core)
    }

    pub fn app_settings(&self) -> (r: AppSettings)
        ensures
            r.streaming == self.settings.app.streaming,
            r.show_reasoning == self.settings.app.show_reasoning,
            r.tier == self.settings.app.tier,
            r.fence_write == self.settings.app.fence_write,
            r.fence_read@ == self.settings.app.fence_read@,
            r.llm_timeout_secs == self.settings.app.llm_timeout_secs,
            r.qemu_path == self.settings.app.qemu_path,
    {
        self.settings.app.copy()
    }

    pub fn set_app_settings(&mut self, app: AppSettings)
        ensures
            final(self).settings == (Settings { app, ..old(self).settings }),
            final(self).prompts == old(self).prompts,
            final(self).desk() == old(self).desk(),
    {
        self.settings.app = app;
    }

    /// The channel of an agent: its own model's, and the core's where it has none.
    /// None where that leads nowhere.
    pub fn channel_of(&self, model: Option<&str>) -> (r: Option<Channel>)
        ensures
            ({
                let id = match model {
                    Some(m) => Some(m@),
                    None => text::opt_text(self.settings.core),
                };
                match r {
                    Some(c) => id is Some && providers::resolved(self.settings, id->0) == Ok::<_, Seq<char>>(
                        (c.provider, c.model@),
                    ),
                    None => id is Some ==> providers::resolved(self.settings, id->0) is Err,
                }
            }),
    {
        match model {
            Some(m) => match self.settings.resolve(m) {
                Ok(c) => Some(c),
                Err(_) => None,
            },
            None => self.settings.core_channel(),
        }
    }

    // ---- handing out and taking back ----

    pub fn session_exists(&self, sid: &str) -> (r: bool)
        ensures
            r == (held(self.desk(), sid@) is Some),
    {
        self.sessions.contains_key(sid)
    }

    /// Whether a session has to be built from its record before anything is done
    /// with it. One at work must not be built a second time.
    pub fn needs_session(&self, sid: &str) -> (r: Result<bool, String>)
        ensures
            match r {
                Ok(b) => b == (held(self.desk(), sid@) is None) && (b ==> !busy(self.desk(), sid@)),
                Err(e) => held(self.desk(), sid@) is None && busy(self.desk(), sid@) && e@
                    == busy_text(sid@),
            },
    {
        if self.sessions.contains_key(sid) {
            return Ok(false);
        }
        if self.running.contains_key(sid) {
            return Err(running_refusal(sid));
        }
        Ok(true)
    }

    /// Why nothing is done with a session now, if it is at work.
    pub fn refuse_busy(&self, sid: &str) -> (r: Option<String>)
        ensures
            text::opt_text(r) == if busy(self.desk(), sid@) {
                Some(busy_text(sid@))
            } else {
                None
            },
    {
        if self.running.contains_key(sid) {
            Some(running_refusal(sid))
        } else {
            None
        }
    }

    /// Puts a session on the desk that was built.
    pub fn place(&mut self, sid: &str, s: Session)
        ensures
            final(self).desk() == (DeskV {
                sessions: table::inserted(old(self).desk().sessions, sid@, s),
                ..old(self).desk()
            }),
            final(self).same_books(*old(self)),
    {
        self.sessions.insert(sid.to_owned(), s);
    }

    /// Takes a session off the desk for good, unless it is at work.
    pub fn forget(&mut self, sid: &str) -> (r: Result<bool, String>)
        ensures
            match r {
                Ok(b) => !busy(old(self).desk(), sid@) && b == (held(old(self).desk(), sid@) is Some)
                    && final(self).desk() == (DeskV {
                    sessions: table::removed(old(self).desk().sessions, sid@),
                    ..old(self).desk()
                }),
                Err(e) => busy(old(self).desk(), sid@) && e@ == busy_text(sid@)
                    && final(self).desk() == old(self).desk(),
            },
            final(self).same_books(*old(self)),
    {
        if self.running.contains_key(sid) {
            return Err(running_refusal(sid));
        }
        Ok(self.sessions.remove(sid))
    }

    /// Hands an agent's session out to work.
    pub fn take_single(&mut self, sid: &str) -> (r: Result<AgentSession, String>)
        ensures
            match r {
                Ok(s) => single_fault(old(self).desk(), sid@) is None && held(
                    old(self).desk(),
                    sid@,
                ) == Some(Session::Single(s)) && final(self).desk() == handed_out(
                    old(self).desk(),
                    sid@,
                ),
                Err(e) => single_fault(old(self).desk(), sid@) == Some(e@) && final(self).desk()
                    == old(self).desk(),
            },
            final(self).same_books(*old(self)),
    {
        if self.running.contains_key(sid) {
            return Err(running_refusal(sid));
        }
        let single = match self.sessions.get(sid) {
            Some(Session::Single(_)) => true,
            Some(Session::Collab(_)) => false,
            None => {
                return Err("无此会话".to_owned());
            },
        };
        if !single {
            return Err("该会话不是单 agent 模式".to_owned());
        }
        match self.sessions.take(sid) {
            Some(Session::Single(s)) => {
                self.running.insert(sid.to_owned(), ());
                Ok(s)
            },
            _ => Err("无此会话".to_owned()),
        }
    }

    /// Hands a team's session out to work.
    pub fn take_collab(&mut self, sid: &str) -> (r: Result<CollabSession, String>)
        ensures
            match r {
                Ok(c) => collab_fault(old(self).desk(), sid@) is None && held(
                    old(self).desk(),
                    sid@,
                ) == Some(Session::Collab(c)) && final(self).desk() == handed_out(
                    old(self).desk(),
                    sid@,
                ),
                Err(e) => collab_fault(old(self).desk(), sid@) == Some(e@) && final(self).desk()
                    == old(self).desk(),
            },
            final(self).same_books(*old(self)),
    {
        if self.running.contains_key(sid) {
            return Err(running_refusal(sid));
        }
        let team = match self.sessions.get(sid) {
            Some(Session::Collab(_)) => true,
            Some(Session::Single(_)) => false,
            None => {
                return Err("无此会话".to_owned());
            },
        };
        if !team {
            return Err("该会话不是协作模式".to_owned());
        }
        match self.sessions.take(sid) {
            Some(Session::Collab(c)) => {
                self.running.insert(sid.to_owned(), ());
                Ok(c)
            },
            _ => Err("无此会话".to_owned()),
        }
    }

    /// Takes an agent's session back.
    pub fn put_single(&mut self, sid: &str, s: AgentSession)
        ensures
            final(self).desk() == come_back(old(self).desk(), sid@, Session::Single(s)),
            final(self).same_books(*old(self)),
    {
        self.running.remove(sid);
        self.sessions.insert(sid.to_owned(), Session::Single(s));
    }

    /// Takes a team's session back.
    pub fn put_collab(&mut self, sid: &str, c: CollabSession)
        ensures
            final(self).desk() == come_back(old(self).desk(), sid@, Session::Collab(c)),
            final(self).same_books(*old(self)),
    {
        self.running.remove(sid);
        self.sessions.insert(sid.to_owned(), Session::Collab(c));
    }

    /// A session was lost at work: it is built anew from its record when next asked
    /// for.
    pub fn abort_running(&mut self, sid: &str)
        ensures
            final(self).desk() == (DeskV {
                running: table::removed(old(self).desk().running, sid@),
                ..old(self).desk()
            }),
            final(self).same_books(*old(self)),
    {
        self.running.remove(sid);
    }

    // ---- an agent's session ----

    /// How the tools of an agent's session are to be called from now on, where that
    /// has changed: the registry decides, not the session.
    pub fn tool_mode_change(&self, sid: &str, model: &Option<String>) -> (r: Option<ToolMode>)
        ensures
            r == match held(self.desk(), sid@) {
                Some(Session::Single(s)) => if seat_of(s) == team::seat_mode(
                    self.settings,
                    text::opt_text(*model),
                ) {
                    None
                } else {
                    Some(team::seat_mode(self.settings, text::opt_text(*model)))
                },
                _ => None,
            },
    {
        let want = mode_of_seat(&self.settings, model);
        match self.sessions.get(sid) {
            Some(Session::Single(s)) => {
                if s.tool_mode() == want {
                    None
                } else {
                    Some(want)
                }
            },
            _ => None,
        }
    }

    /// Gets a session ready: with a text of the user, or to go on. `notice` is said
    /// first. One whose agent has the last word does not go on.
    pub fn prepare_single(
        &mut self,
        sid: &str,
        text: Option<&str>,
        notice: Option<String>,
        want_stream: bool,
    ) -> (r: Result<Prepared, String>)
        ensures
            match held(old(self).desk(), sid@) {
                Some(Session::Collab(_)) => r is Ok && r->Ok_0 is NotSingle && final(self).desk()
                    == old(self).desk(),
                Some(Session::Single(s)) => if text is None && !user_last(s) {
                    r matches Ok(Prepared::Immediate(ev)) && events::events_v(ev@) == said_first(
                        text::opt_text(notice),
                    ).push(EventV::Notice(need_user())) && final(self).desk() == old(self).desk()
                } else if busy(old(self).desk(), sid@) {
                    r matches Err(e) && e@ == busy_text(sid@) && final(self).desk()
                        == old(self).desk()
                } else {
                    r matches Ok(Prepared::Run { session, prefix, llm }) && session == s
                        && events::events_v(prefix@) == said_first(text::opt_text(notice)) && llm == call_opts(
                        old(self).settings.app,
                        want_stream,
                    ) && final(self).desk() == handed_out(old(self).desk(), sid@)
                },
                None => r matches Err(e) && e@ == (if busy(old(self).desk(), sid@) {
                    busy_text(sid@)
                } else {
                    "无此会话"@
                }) && final(self).desk() == old(self).desk(),
            },
            final(self).same_books(*old(self)),
    {
        let llm = self.llm_opts(want_stream);
        let last = match self.sessions.get(sid) {
            Some(Session::Collab(_)) => {
                return Ok(Prepared::NotSingle);
            },
            Some(Session::Single(s)) => s.last_is_user(),
            None => {
                if self.running.contains_key(sid) {
                    return Err(running_refusal(sid));
                }
                return Err("无此会话".to_owned());
            },
        };
        let mut prefix: Vec<SessionEvent> = Vec::new();
        match notice {
            Some(n) => {
                prefix.push(SessionEvent::Notice(n));
            },
            None => {},
        }
        assert(events::events_v(prefix@) =~= said_first(text::opt_text(notice)));
        if text.is_none() && !last {
            let ghost before = prefix@;
            prefix.push(
                SessionEvent::Notice(
                    "最后一条是 AI 发言：部分供应商不允许连续 AI 发言；请先发言再继续。".to_owned(),
                ),
            );
            assert(events::events_v(prefix@) =~= events::events_v(before).push(EventV::Notice(need_user())));
            return Ok(Prepared::Immediate(prefix));
        }
        match self.take_single(sid) {
            Ok(session) => Ok(Prepared::Run { session, prefix, llm }),
            Err(e) => Err(e),
        }
    }

    /// Goes back in a session: at once in an agent's that is on the desk. Any other
    /// has to be built anew from its record; then the answer is no.
    pub fn rewind(&mut self, sid: &str, keep_id: u64) -> (r: Result<bool, String>)
        requires
            held(old(self).desk(), sid@) matches Some(Session::Single(s)) ==> s@.wf(),
        ensures
            match r {
                Err(e) => busy(old(self).desk(), sid@) && e@ == busy_text(sid@)
                    && final(self).desk() == old(self).desk(),
                Ok(b) => !busy(old(self).desk(), sid@) && b == (held(
                    old(self).desk(),
                    sid@,
                ) matches Some(Session::Single(_))) && if b {
                    went_back(old(self).desk(), final(self).desk(), sid@, keep_id)
                } else {
                    final(self).desk() == old(self).desk()
                },
            },
            final(self).same_books(*old(self)),
    {
        if self.running.contains_key(sid) {
            return Err(running_refusal(sid));
        }
        let i = match self.sessions.slot_of(sid) {
            Some(i) => i,
            None => {
                return Ok(false);
            },
        };
        let ghost t = self.sessions@;
        proof {
            table::lemma_slot(t, sid@, 0);
        }
        match &self.sessions.entries[i].1 {
            Session::Single(_) => {},
            Session::Collab(_) => {
                return Ok(false);
            },
        }
        let e = self.sessions.entries.remove(i);
        match e.1 {
            Session::Single(s) => {
                let mut s = s;
                s.rewind(keep_id);
                self.sessions.entries.insert(i, (e.0, Session::Single(s)));
                proof {
                    assert(self.sessions@ =~= t.update(i as int, (sid@, Session::Single(s))));
                    assert(self.sessions@ == table::inserted(t, sid@, Session::Single(s)));
                    assert(went_back(old(self).desk(), self.desk(), sid@, keep_id));
                }
                Ok(true)
            },
            Session::Collab(c) => {
                self.sessions.entries.insert(i, (e.0, Session::Collab(c)));
                assert(self.sessions@ =~= t);
                Ok(false)
            },
        }
    }

    // ---- a team's session ----

    /// Does a short step: sets the task, or settles the roster. A roster that stands
    /// now comes back too.
    pub fn collab_continue(&mut self, sid: &str, step: CollabStep, text: &str, modules: &Roster) -> (r:
        Result<(Step, Vec<SessionEvent>, Option<Vec<AgentMeta>>), String>)
        requires
            is_short(step),
            prompt::book_sound(old(self).prompts),
            held(old(self).desk(), sid@) matches Some(Session::Collab(c)) ==> collab::work_sound(c@),
        ensures
            match held(old(self).desk(), sid@) {
                None => r matches Err(e) && e@ == "无此会话"@ && final(self).desk()
                    == old(self).desk(),
                Some(Session::Single(_)) => r matches Err(e) && e@ == "该会话不是协作模式"@
                    && final(self).desk() == old(self).desk(),
                Some(Session::Collab(c)) => {
                    let o = short_outcome(
                        old(self).prompts,
                        old(self).settings,
                        modules.modules@,
                        c,
                        step,
                        text@,
                    );
                    r matches Ok(a) && (a.0@, events::events_v(a.1@)) == (o.1, o.2) && (match a.2 {
                        Some(v) => step == CollabStep::ConfirmSlate && o.0.roster.len() > 0
                            && history::agents_v(v@) == o.0.roster,
                        None => step == CollabStep::SetTask || o.0.roster.len() == 0,
                    }) && gone_on(old(self).desk(), final(self).desk(), sid@, o.0)
                },
            },
            final(self).same_books(*old(self)),
    {
        let i = match self.sessions.slot_of(sid) {
            Some(i) => i,
            None => {
                return Err("无此会话".to_owned());
            },
        };
        let ghost t = self.sessions@;
        proof {
            table::lemma_slot(t, sid@, 0);
        }
        match &self.sessions.entries[i].1 {
            Session::Single(_) => {
                return Err("该会话不是协作模式".to_owned());
            },
            Session::Collab(_) => {},
        }
        let e = self.sessions.entries.remove(i);
        let ghost start = *old(self);
        match e.1 {
            Session::Single(s) => {
                self.sessions.entries.insert(i, (e.0, Session::Single(s)));
                Err("该会话不是协作模式".to_owned())
            },
            Session::Collab(c) => {
                let mut c = c;
                let ghost o = short_outcome(
                    self.prompts,
                    self.settings,
                    modules.modules@,
                    c,
                    step,
                    text@,
                );
                let mut confirmed: Option<Vec<AgentMeta>> = None;
                let out = match step {
                    CollabStep::SetTask => c.set_task(&self.prompts, &self.settings, modules, text),
                    _ => {
                        let yes = eq_ignore_case(text, "yes");
                        let out = c.confirm_slate(&self.prompts, &self.settings, modules, yes);
                        let team = copy_agents(c.roster());
                        assert(history::agents_v(team@).len() == team@.len());
                        if team.len() > 0 {
                            confirmed = Some(team);
                        }
                        out
                    },
                };
                assert((c@, out.0@, events::events_v(out.1@)) == o);
                if c.is_done() {
                    assert(self.sessions@ =~= t.remove(i as int));
                } else {
                    self.sessions.entries.insert(i, (e.0, Session::Collab(c)));
                    proof {
                        assert(self.sessions@ =~= t.update(i as int, (sid@, Session::Collab(c))));
                        assert(self.sessions@ == table::inserted(t, sid@, Session::Collab(c)));
                    }
                }
                assert(gone_on(start.desk(), self.desk(), sid@, o.0));
                Ok((out.0, out.1, confirmed))
            },
        }
    }

    /// What a team waits for.
    pub fn collab_pending(&self, sid: &str) -> (r: Result<Option<&Pending>, String>)
        ensures
            match held(self.desk(), sid@) {
                Some(Session::Collab(c)) => r matches Ok(p) && (match p {
                    Some(x) => c@.pending == Some(x@),
                    None => c@.pending is None,
                }),
                Some(Session::Single(_)) => r matches Err(e) && e@ == "该会话不是协作模式"@,
                None => r matches Err(e) && e@ == "无此会话"@,
            },
    {
        match self.sessions.get(sid) {
            Some(Session::Collab(c)) => Ok(c.waiting_for()),
            Some(Session::Single(_)) => Err("该会话不是协作模式".to_owned()),
            None => Err("无此会话".to_owned()),
        }
    }

    /// The roster as drafted for a team.
    pub fn collab_slate(&self, sid: &str) -> (r: Result<Vec<AgentMeta>, String>)
        ensures
            match held(self.desk(), sid@) {
                Some(Session::Collab(c)) => r matches Ok(v) && history::agents_v(v@) == c@.slate,
                Some(Session::Single(_)) => r matches Err(e) && e@ == "该会话不是协作模式"@,
                None => r matches Err(e) && e@ == "无此会话"@,
            },
    {
        match self.sessions.get(sid) {
            Some(Session::Collab(c)) => Ok(c.slate()),
            Some(Session::Single(_)) => Err("该会话不是协作模式".to_owned()),
            None => Err("无此会话".to_owned()),
        }
    }

    /// The user takes back what an agent agreed to.
    pub fn withdraw_agree(&mut self, sid: &str, agent: &str) -> (r: Result<SessionEvent, String>)
        requires
            held(old(self).desk(), sid@) matches Some(Session::Collab(c)) ==> c@.next_line
                < u64::MAX,
        ensures
            match held(old(self).desk(), sid@) {
                Some(Session::Collab(c)) => {
                    let o = collab::with_withdrawal(c@, agent@);
                    r matches Ok(e) && e@ == o.1 && final(self).desk().running
                        == old(self).desk().running && exists|n: CollabSession|
                        n@ == o.0 && final(self).desk().sessions == #[trigger] table::inserted(
                            old(self).desk().sessions,
                            sid@,
                            Session::Collab(n),
                        )
                },
                Some(Session::Single(_)) => r matches Err(e) && e@
                    == "只有协作会话有「同意」可撤回"@ && final(self).desk() == old(self).desk(),
                None => r matches Err(e) && e@ == "无此会话"@ && final(self).desk()
                    == old(self).desk(),
            },
            final(self).same_books(*old(self)),
    {
        let i = match self.sessions.slot_of(sid) {
            Some(i) => i,
            None => {
                return Err("无此会话".to_owned());
            },
        };
        let ghost t = self.sessions@;
        proof {
            table::lemma_slot(t, sid@, 0);
        }
        match &self.sessions.entries[i].1 {
            Session::Single(_) => {
                return Err("只有协作会话有「同意」可撤回".to_owned());
            },
            Session::Collab(_) => {},
        }
        let e = self.sessions.entries.remove(i);
        match e.1 {
            Session::Single(s) => {
                self.sessions.entries.insert(i, (e.0, Session::Single(s)));
                Err("只有协作会话有「同意」可撤回".to_owned())
            },
            Session::Collab(c) => {
                let mut c = c;
                let ev = c.withdraw_agree(agent);
                self.sessions.entries.insert(i, (e.0, Session::Collab(c)));
                proof {
                    assert(self.sessions@ =~= t.update(i as int, (sid@, Session::Collab(c))));
                    assert(self.sessions@ == table::inserted(t, sid@, Session::Collab(c)));
                }
                Ok(ev)
            },
        }
    }

    /// The sessions there are: those on the desk, then those at work.
    pub fn session_views(
        &self,
        history: &Vec<HistoryView>,
        bases: &Vec<bool>,
        hypervisor: bool,
        platform: Platform,
    ) -> (r: Vec<SessionView>)
        requires
            bases@.len() == history@.len(),
        ensures
            r@.len() == self.sessions@.len() + self.running@.len(),
            forall|i: int|
                0 <= i < self.sessions@.len() ==> shows_session(
                    #[trigger] r@[i],
                    self.sessions@[i].0,
                    is_over(self.sessions@[i].1),
                    history@,
                    bases@,
                    hypervisor,
                    platform,
                ),
            forall|i: int|
                self.sessions@.len() <= i < r@.len() ==> shows_session(
                    #[trigger] r@[i],
                    self.running@[i - self.sessions@.len()].0,
                    false,
                    history@,
                    bases@,
                    hypervisor,
                    platform,
                ),
    {
        let mut r: Vec<SessionView> = Vec::new();
        let mut i: usize = 0;
        let n = self.sessions.len();
        while i < n
            invariant
                i <= n,
                n == self.sessions@.len(),
                bases@.len() == history@.len(),
                r@.len() == i,
                forall|k: int|
                    0 <= k < i ==> shows_session(
                        #[trigger] r@[k],
                        self.sessions@[k].0,
                        is_over(self.sessions@[k].1),
                        history@,
                        bases@,
                        hypervisor,
                        platform,
                    ),
            decreases n - i,
        {
            let done = match self.sessions.value_at(i) {
                Session::Collab(c) => c.is_done(),
                Session::Single(_) => false,
            };
            r.push(
                show_session(self.sessions.key_at(i), done, history, bases, hypervisor, platform),
            );
            i = i + 1;
        }
        let mut j: usize = 0;
        while j < self.running.len()
            invariant
                j <= self.running@.len(),
                n == self.sessions@.len(),
                bases@.len() == history@.len(),
                r@.len() == n + j,
                forall|k: int|
                    0 <= k < n ==> shows_session(
                        #[trigger] r@[k],
                        self.sessions@[k].0,
                        is_over(self.sessions@[k].1),
                        history@,
                        bases@,
                        hypervisor,
                        platform,
                    ),
                forall|k: int|
                    n <= k < n + j ==> shows_session(
                        #[trigger] r@[k],
                        self.running@[k - n].0,
                        false,
                        history@,
                        bases@,
                        hypervisor,
                        platform,
                    ),
            decreases self.running@.len() - j,
        {
            r.push(
                show_session(self.running.key_at(j), false, history, bases, hypervisor, platform),
            );
            j = j + 1;
        }
        r
    }
}

/// Whether a desk is another with an agent's session gone back.
pub open spec fn went_back(a: DeskV, b: DeskV, sid: Seq<char>, keep: u64) -> bool {
    &&& a.running == b.running
    &&& held(a, sid) matches Some(Session::Single(s)) && exists|n: AgentSession|
        n@ == s@.rewound(keep) && b.sessions == #[trigger] table::inserted(
            a.sessions,
            sid,
            Session::Single(n),
        )
}

/// What the change of a task comes to: the new task, and the line to go back to.
pub open spec fn task_change(text: Seq<char>, events: Seq<JsonV>) -> Result<
    (Seq<char>, nat),
    Seq<char>,
> {
    if text::trimmed(text).len() == 0 {
        Err("需求不能为空"@)
    } else {
        match journal::last_named(journal::all_rows(events), "[用户:需求]"@, journal::all_rows(events).len() as int) {
            None => Err("该会话没有需求行"@),
            Some(k) => Ok((text::trimmed(text), k + 1)),
        }
    }
}

/// Reads where a work goes back to when its task is changed: behind the line of the
/// task it had.
pub fn update_task(text: &str, events: &Vec<Json>) -> (r: Result<(String, u64), String>)
    ensures
        match r {
            Ok(a) => task_change(text@, json::items_v(events@)) matches Ok(b) && a.0@ == b.0 && a.1
                == as_line(b.1),
            Err(e) => task_change(text@, json::items_v(events@)) == Err::<(Seq<char>, nat), _>(e@),
        },
{
    let t = trim(text);
    if t.as_str().unicode_len() == 0 {
        return Err("需求不能为空".to_owned());
    }
    match find_line_id(events, "[用户:需求]") {
        Some(k) => Ok((t, if k < u64::MAX {
            k + 1
        } else {
            k
        })),
        None => Err("该会话没有需求行".to_owned()),
    }
}

/// The number of a line as it is kept; there is none behind the last one there can be.
pub open spec fn as_line(n: nat) -> u64 {
    if n <= u64::MAX {
        n as u64
    } else {
        u64::MAX
    }
}

// ---- what holds of every desk ----

/// Whether no session is both on the desk and at work.
pub open spec fn apart(d: DeskV) -> bool {
    &&& table::ascending(d.sessions)
    &&& table::ascending(d.running)
    &&& forall|sid: Seq<char>| !(#[trigger] held(d, sid) is Some && busy(d, sid))
}

/// A session is in one place: handing it out and taking it back leave none both on
/// the desk and at work.
pub proof fn sessions_are_in_one_place(d: DeskV, sid: Seq<char>, s: Session)
    requires
        apart(d),
    ensures
        apart(handed_out(d, sid)),
        apart(come_back(d, sid, s)),
        busy(handed_out(d, sid), sid),
        held(handed_out(d, sid), sid) is None,
        held(come_back(d, sid, s), sid) == Some(s),
        !busy(come_back(d, sid, s), sid),
{
    table::removing(d.sessions, sid);
    table::inserting(d.running, sid, ());
    let a = handed_out(d, sid);
    assert forall|k: Seq<char>| !(#[trigger] held(a, k) is Some && busy(a, k)) by {
        assert(!(held(d, k) is Some && busy(d, k)));
        if k != sid {
            assert(table::lookup(a.sessions, k) == table::lookup(d.sessions, k));
            assert(table::lookup(a.running, k) == table::lookup(d.running, k));
        }
    }
    table::inserting(d.sessions, sid, s);
    table::removing(d.running, sid);
    let b = come_back(d, sid, s);
    assert forall|k: Seq<char>| !(#[trigger] held(b, k) is Some && busy(b, k)) by {
        assert(!(held(d, k) is Some && busy(d, k)));
        if k != sid {
            assert(table::lookup(b.sessions, k) == table::lookup(d.sessions, k));
            assert(table::lookup(b.running, k) == table::lookup(d.running, k));
        }
    }
}

/// Work on one session leaves every other where it is and as it is.
pub proof fn other_sessions_stay(d: DeskV, sid: Seq<char>, s: Session, other: Seq<char>)
    requires
        apart(d),
        other != sid,
    ensures
        held(handed_out(d, sid), other) == held(d, other),
        busy(handed_out(d, sid), other) == busy(d, other),
        held(come_back(d, sid, s), other) == held(d, other),
        busy(come_back(d, sid, s), other) == busy(d, other),
{
    table::removing(d.sessions, sid);
    table::inserting(d.running, sid, ());
    table::inserting(d.sessions, sid, s);
    table::removing(d.running, sid);
}

/// A session at work is refused to everyone.
pub proof fn work_is_not_disturbed(d: DeskV, sid: Seq<char>)
    requires
        apart(d),
    ensures
        single_fault(handed_out(d, sid), sid) == Some(busy_text(sid)),
        collab_fault(handed_out(d, sid), sid) == Some(busy_text(sid)),
{
    table::inserting(d.running, sid, ());
}

/// A session is worked with where it is there, is of the kind that is asked for and
/// nobody works with it; else it is said which of these is not so.
pub proof fn sessions_are_used_one_at_a_time(d: DeskV, sid: Seq<char>)
    ensures
        single_fault(d, sid) is None <==> !busy(d, sid) && (held(d, sid) matches Some(s) && s is Single),
        collab_fault(d, sid) is None <==> !busy(d, sid) && (held(d, sid) matches Some(s) && s is Collab),
        busy(d, sid) ==> single_fault(d, sid) == Some(busy_text(sid)) && collab_fault(d, sid) == Some(
            busy_text(sid),
        ),
{
}

/// The task is changed in the last line that gave one, and what comes behind that line
/// goes.
pub proof fn the_last_task_is_changed(v: Seq<JsonV>, prefix: Seq<char>, n: int, k: int)
    requires
        0 <= k < n <= v.len(),
        v[k].text_at("line"@) matches Some(s) && text::starts(s, prefix),
        forall|j: int|
            k < j < n ==> ((#[trigger] v[j]).text_at("line"@) matches Some(s) ==> !text::starts(s, prefix)),
    ensures
        journal::last_named(v, prefix, n) == journal::row_id(v[k]),
    decreases n,
{
    if k < n - 1 {
        the_last_task_is_changed(v, prefix, n - 1, k);
        assert(v[n - 1].text_at("line"@) matches Some(s) ==> !text::starts(s, prefix));
    }
}

} // verus!
