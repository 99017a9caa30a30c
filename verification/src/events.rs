//! What the user's side is told: the events of a session and the answers a session
//! waits for. A line of the transcript is what the model saw, word for word.
use crate::chain::{self, NodeStatus, NodeV, TaskChain, TaskNode};
use crate::json::{self, Json, JsonV, int_json, opt_text_json, put, put_when, text_json, texts_json};
use crate::ports::ToolCall;
use crate::text::{self, cat2, cat3, cat4, cat6, clone_opt, clone_strings, dec_usize, join, str_eq};
use vstd::prelude::*;

verus! {

/// A call of a tool as the transcript shows it. A built-in tool has no module.
#[derive(Debug)]
pub struct ToolCallView {
    pub speaker: String,
    pub module: String,
    pub name: String,
    pub ok: bool,
    pub args: String,
    pub output: String,
    /// The text of the reply that made the call.
    pub raw: String,
    /// The provider's id of the call; empty for envelopes written by hand.
    pub call_id: String,
    /// The reply the call belongs to.
    pub reply: u64,
}

#[verifier::ext_equal]
pub struct CallV {
    pub speaker: Seq<char>,
    pub module: Seq<char>,
    pub name: Seq<char>,
    pub ok: bool,
    pub args: Seq<char>,
    pub output: Seq<char>,
    pub raw: Seq<char>,
    pub call_id: Seq<char>,
    pub reply: u64,
}

impl View for ToolCallView {
    type V = CallV;

    open spec fn view(&self) -> CallV {
        CallV {
            speaker: self.speaker@,
            module: self.module@,
            name: self.name@,
            ok: self.ok,
            args: self.args@,
            output: self.output@,
            raw: self.raw@,
            call_id: self.call_id@,
            reply: self.reply,
        }
    }
}

impl CallV {
    pub open spec fn label(self) -> Seq<char> {
        if self.module.len() == 0 {
            self.name
        } else {
            self.module + "."@ + self.name
        }
    }
}

impl ToolCallView {
    /// The tool's name for people: with its module, if it has one.
    pub fn label(&self) -> (r: String)
        ensures
            r@ == self@.label(),
    {
        if self.module.as_str().unicode_len() == 0 {
            self.name.clone()
        } else {
            cat3(self.module.as_str(), ".", self.name.as_str())
        }
    }

    pub fn copy(&self) -> (r: ToolCallView)
        ensures
            r@ == self@,
    {
        ToolCallView {
            speaker: self.speaker.clone(),
            module: self.module.clone(),
            name: self.name.clone(),
            ok: self.ok,
            args: self.args.clone(),
            output: self.output.clone(),
            raw: self.raw.clone(),
            call_id: self.call_id.clone(),
            reply: self.reply,
        }
    }
}

pub open spec fn opt_call(o: Option<ToolCallView>) -> Option<CallV> {
    match o {
        Some(c) => Some(c@),
        None => None,
    }
}

pub fn copy_call(o: &Option<ToolCallView>) -> (r: Option<ToolCallView>)
    ensures
        opt_call(r) == opt_call(*o),
{
    match o {
        Some(c) => Some(c.copy()),
        None => None,
    }
}

/// A line of the transcript.
#[derive(Debug)]
pub struct LineView {
    /// The line's number in its session, from 0.
    pub id: u64,
    /// The reply the line belongs to: the number of that reply's first line.
    pub reply: u64,
    pub line: String,
    pub reasoning: Option<String>,
    pub tool: Option<ToolCallView>,
    /// The reply had no envelope and was taken as it stood.
    pub degraded: bool,
    /// The line comes from the system, not from the user or an agent.
    pub system: bool,
    /// The turn of the work the line belongs to; 0 for none.
    pub turn: u64,
    pub speaker: String,
    pub verb: String,
    pub kind: String,
}

#[verifier::ext_equal]
pub struct LineV {
    pub id: u64,
    pub reply: u64,
    pub line: Seq<char>,
    pub reasoning: Option<Seq<char>>,
    pub tool: Option<CallV>,
    pub degraded: bool,
    pub system: bool,
    pub turn: u64,
    pub speaker: Seq<char>,
    pub verb: Seq<char>,
    pub kind: Seq<char>,
}

impl View for LineView {
    type V = LineV;

    open spec fn view(&self) -> LineV {
        LineV {
            id: self.id,
            reply: self.reply,
            line: self.line@,
            reasoning: text::opt_text(self.reasoning),
            tool: opt_call(self.tool),
            degraded: self.degraded,
            system: self.system,
            turn: self.turn,
            speaker: self.speaker@,
            verb: self.verb@,
            kind: self.kind@,
        }
    }
}

pub open spec fn line_views(v: Seq<LineView>) -> Seq<LineV> {
    v.map_values(|l: LineView| l@)
}

/// A line with a text and nothing else.
pub open spec fn plain_line(text: Seq<char>) -> LineV {
    LineV {
        id: 0,
        reply: 0,
        line: text,
        reasoning: None,
        tool: None,
        degraded: false,
        system: false,
        turn: 0,
        speaker: Seq::empty(),
        verb: Seq::empty(),
        kind: Seq::empty(),
    }
}

impl LineView {
    pub fn plain(text: String) -> (r: LineView)
        ensures
            r@ == plain_line(text@),
    {
        let r = LineView {
            id: 0,
            reply: 0,
            line: text,
            reasoning: None,
            tool: None,
            degraded: false,
            system: false,
            turn: 0,
            speaker: String::new(),
            verb: String::new(),
            kind: String::new(),
        };
        assert(r@ =~= plain_line(text@));
        r
    }

    pub fn copy(&self) -> (r: LineView)
        ensures
            r@ == self@,
    {
        LineView {
            id: self.id,
            reply: self.reply,
            line: self.line.clone(),
            reasoning: clone_opt(&self.reasoning),
            tool: copy_call(&self.tool),
            degraded: self.degraded,
            system: self.system,
            turn: self.turn,
            speaker: self.speaker.clone(),
            verb: self.verb.clone(),
            kind: self.kind.clone(),
        }
    }
}

pub open spec fn round_line(n: nat) -> LineV {
    LineV { kind: "round"@, ..plain_line(text::decimal(n)) }
}

pub open spec fn user_line(verb: Seq<char>, text: Seq<char>) -> LineV {
    LineV { kind: "user"@, speaker: "用户"@, verb, ..plain_line(text) }
}

pub open spec fn system_line(speaker: Seq<char>, text: Seq<char>) -> LineV {
    LineV { kind: "system"@, speaker, system: true, ..plain_line(text) }
}

pub open spec fn speech_line(speaker: Seq<char>, verb: Seq<char>, text: Seq<char>) -> LineV {
    LineV { kind: "msg"@, speaker, verb, ..plain_line(text) }
}

/// A line as the members of a discussion read it.
pub open spec fn line_text(l: LineV) -> Seq<char> {
    if l.kind == "round"@ {
        "[轮次] "@ + l.line
    } else if l.speaker.len() == 0 {
        l.line
    } else if l.verb.len() == 0 {
        "["@ + l.speaker + "] "@ + l.line
    } else {
        "["@ + l.speaker + ":"@ + l.verb + "] "@ + l.line
    }
}

impl LineView {
    /// The line that begins a round.
    pub fn round(n: usize) -> (r: LineView)
        ensures
            r@ == round_line(n as nat),
    {
        let mut r = LineView::plain(dec_usize(n));
        r.kind = "round".to_owned();
        assert(r@ =~= round_line(n as nat));
        r
    }

    /// A line of the user's.
    pub fn user(verb: &str, text: String) -> (r: LineView)
        ensures
            r@ == user_line(verb@, text@),
    {
        let mut r = LineView::plain(text);
        r.kind = "user".to_owned();
        r.speaker = "用户".to_owned();
        r.verb = verb.to_owned();
        assert(r@ =~= user_line(verb@, text@));
        r
    }

    /// A line of the system's.
    pub fn system(speaker: &str, text: String) -> (r: LineView)
        ensures
            r@ == system_line(speaker@, text@),
    {
        let mut r = LineView::plain(text);
        r.kind = "system".to_owned();
        r.speaker = speaker.to_owned();
        r.system = true;
        assert(r@ =~= system_line(speaker@, text@));
        r
    }

    /// A line of a member's.
    pub fn speech(speaker: &str, verb: &str, text: String) -> (r: LineView)
        ensures
            r@ == speech_line(speaker@, verb@, text@),
    {
        let mut r = LineView::plain(text);
        r.kind = "msg".to_owned();
        r.speaker = speaker.to_owned();
        r.verb = verb.to_owned();
        assert(r@ =~= speech_line(speaker@, verb@, text@));
        r
    }

    /// The line as the members of a discussion read it.
    pub fn render(&self) -> (r: String)
        ensures
            r@ == line_text(self@),
    {
        if str_eq(self.kind.as_str(), "round") {
            cat2("[轮次] ", self.line.as_str())
        } else if self.speaker.as_str().unicode_len() == 0 {
            self.line.clone()
        } else if self.verb.as_str().unicode_len() == 0 {
            cat4("[", self.speaker.as_str(), "] ", self.line.as_str())
        } else {
            cat6(
                "[",
                self.speaker.as_str(),
                ":",
                self.verb.as_str(),
                "] ",
                self.line.as_str(),
            )
        }
    }
}

pub open spec fn line_texts(v: Seq<LineV>) -> Seq<Seq<char>> {
    v.map_values(|l: LineV| line_text(l))
}

/// Lines as the members of a discussion read them.
pub fn render_lines(v: &Vec<LineView>) -> (r: String)
    ensures
        r@ == text::joined(line_texts(line_views(v@)), "\n"@),
{
    let ghost all = line_texts(line_views(v@));
    let mut ls: Vec<String> = Vec::new();
    let mut i: usize = 0;
    while i < v.len()
        invariant
            i <= v@.len(),
            all == line_texts(line_views(v@)),
            text::texts(ls@) == all.take(i as int),
        decreases v@.len() - i,
    {
        let l = v[i].render();
        let ghost prev = ls@;
        ls.push(l);
        proof {
            text::lemma_texts_push(prev, l);
            assert(all[i as int] == l@);
            assert(text::texts(ls@) =~= all.take(i + 1));
        }
        i = i + 1;
    }
    assert(all.take(all.len() as int) =~= all);
    join(&ls, "\n")
}

/// An item of an acceptance as it is shown.
#[derive(Debug)]
pub struct CheckView {
    pub item: String,
    pub status: String,
    pub note: String,
}

pub struct CheckV {
    pub item: Seq<char>,
    pub status: Seq<char>,
    pub note: Seq<char>,
}

impl View for CheckView {
    type V = CheckV;

    open spec fn view(&self) -> CheckV {
        CheckV { item: self.item@, status: self.status@, note: self.note@ }
    }
}

pub open spec fn checks_v(v: Seq<CheckView>) -> Seq<CheckV> {
    v.map_values(|c: CheckView| c@)
}

/// What happens in a session.
#[derive(Debug)]
pub enum SessionEvent {
    /// A remark on the state of things.
    Notice(String),
    /// New lines of the transcript.
    Transcript(Vec<LineView>),
    /// The discussion is over; `over_cap` where its rounds ran out.
    DiscussionDone { round: usize, over_cap: bool },
    /// The plan is there.
    Plan(String),
    /// The plan and its chain wait for the user.
    PlanReview { plan: String, chain: TaskChain },
    /// A member's report.
    Report { id: String, text: String, rework: usize },
    /// The acceptance, and its text where it could not be read.
    Review { items: Vec<CheckView>, raw: String },
    /// The outcome.
    Delivery { ok: bool, over_rework: bool },
    /// The lines before a number were replaced by a summary in what the model sees.
    Compacted { up_to: u64, summary: String },
    /// The session is over.
    Ended,
    /// A call of a tool, as it happens.
    ToolCall(ToolCallView),
    /// A piece of a reply, as it happens.
    Delta { speaker: String, kind: String, text: String },
    /// Something waits for the user, as it comes up, and what the core advises. What
    /// waits is kept with the session.
    Decision { what: Pending, advice: String },
    /// Somebody is at work, as it happens.
    Working(String),
    /// Nobody is at work any more, as it happens.
    Idle,
}

#[verifier::ext_equal]
pub enum EventV {
    Notice(Seq<char>),
    Transcript(Seq<LineV>),
    DiscussionDone { round: nat, over_cap: bool },
    Plan(Seq<char>),
    PlanReview { plan: Seq<char>, chain: Seq<NodeV> },
    Report { id: Seq<char>, text: Seq<char>, rework: nat },
    Review { items: Seq<CheckV>, raw: Seq<char> },
    Delivery { ok: bool, over_rework: bool },
    Compacted { up_to: u64, summary: Seq<char> },
    Ended,
    ToolCall(CallV),
    Delta { speaker: Seq<char>, kind: Seq<char>, text: Seq<char> },
    Decision { what: PendingV, advice: Seq<char> },
    Working(Seq<char>),
    Idle,
}

impl View for SessionEvent {
    type V = EventV;

    open spec fn view(&self) -> EventV {
        match *self {
            SessionEvent::Notice(s) => EventV::Notice(s@),
            SessionEvent::Transcript(v) => EventV::Transcript(line_views(v@)),
            SessionEvent::DiscussionDone { round, over_cap } => EventV::DiscussionDone {
                round: round as nat,
                over_cap,
            },
            SessionEvent::Plan(s) => EventV::Plan(s@),
            SessionEvent::PlanReview { plan, chain } => EventV::PlanReview {
                plan: plan@,
                chain: chain@,
            },
            SessionEvent::Report { id, text, rework } => EventV::Report {
                id: id@,
                text: text@,
                rework: rework as nat,
            },
            SessionEvent::Review { items, raw } => EventV::Review {
                items: checks_v(items@),
                raw: raw@,
            },
            SessionEvent::Delivery { ok, over_rework } => EventV::Delivery { ok, over_rework },
            SessionEvent::Compacted { up_to, summary } => EventV::Compacted {
                up_to,
                summary: summary@,
            },
            SessionEvent::Ended => EventV::Ended,
            SessionEvent::ToolCall(c) => EventV::ToolCall(c@),
            SessionEvent::Delta { speaker, kind, text } => EventV::Delta {
                speaker: speaker@,
                kind: kind@,
                text: text@,
            },
            SessionEvent::Decision { what, advice } => EventV::Decision {
                what: what@,
                advice: advice@,
            },
            SessionEvent::Working(s) => EventV::Working(s@),
            SessionEvent::Idle => EventV::Idle,
        }
    }
}

pub open spec fn events_v(v: Seq<SessionEvent>) -> Seq<EventV> {
    v.map_values(|e: SessionEvent| e@)
}

pub open spec fn interrupted_text(reason: Seq<char>) -> Seq<char> {
    "[中断] "@ + reason + "；本轮已中断，会话保留——点「继续」可重试。"@
}

/// What the user is told when a call of the model failed.
pub fn interrupted_note(reason: &str) -> (r: String)
    ensures
        r@ == interrupted_text(reason@),
{
    cat3("[中断] ", reason, "；本轮已中断，会话保留——点「继续」可重试。")
}

pub open spec fn stopped_text() -> Seq<char> {
    "[已停止] 生成已按你的要求中止（保留已产出的部分）"@
}

/// What the user is told when they stopped a session.
pub fn stopped_note() -> (r: String)
    ensures
        r@ == stopped_text(),
{
    "[已停止] 生成已按你的要求中止（保留已产出的部分）".to_owned()
}

// ---- on the wire ----

pub open spec fn call_json_v(c: CallV) -> JsonV {
    JsonV::Obj(
        seq![("args"@, JsonV::Str(c.args))] + json::member_when(
            c.call_id.len() > 0,
            "call_id"@,
            JsonV::Str(c.call_id),
        ) + seq![
            ("module"@, JsonV::Str(c.module)),
            ("name"@, JsonV::Str(c.name)),
            ("ok"@, JsonV::Bool(c.ok)),
            ("output"@, JsonV::Str(c.output)),
        ] + json::member_when(c.raw.len() > 0, "raw"@, JsonV::Str(c.raw)) + seq![
            ("reply"@, json::int_v(c.reply as int)),
            ("speaker"@, JsonV::Str(c.speaker)),
        ],
    )
}

fn call_json(c: &ToolCallView) -> (r: Json)
    ensures
        r@ == call_json_v(c@),
{
    let mut o: Vec<(String, Json)> = Vec::new();
    put(&mut o, "args", text_json(c.args.as_str()));
    put_when(
        &mut o,
        c.call_id.as_str().unicode_len() > 0,
        "call_id",
        text_json(c.call_id.as_str()),
    );
    put(&mut o, "module", text_json(c.module.as_str()));
    put(&mut o, "name", text_json(c.name.as_str()));
    put(&mut o, "ok", Json::Bool(c.ok));
    put(&mut o, "output", text_json(c.output.as_str()));
    put_when(&mut o, c.raw.as_str().unicode_len() > 0, "raw", text_json(c.raw.as_str()));
    put(&mut o, "reply", int_json(c.reply));
    put(&mut o, "speaker", text_json(c.speaker.as_str()));
    assert(json::members_v(o@) =~= call_json_v(c@)->Obj_0);
    Json::Obj(o)
}

pub open spec fn line_json_v(l: LineV) -> JsonV {
    JsonV::Obj(
        Seq::empty() + json::member_when(l.degraded, "degraded"@, JsonV::Bool(true)) + json::member_when(
            true,
            "id"@,
            json::int_v(l.id as int),
        ) + json::member_when(l.kind.len() > 0, "kind"@, JsonV::Str(l.kind)) + json::member_when(
            true,
            "line"@,
            JsonV::Str(l.line),
        ) + json::member_when(l.reasoning is Some, "reasoning"@, json::opt_text_v(l.reasoning)) + json::member_when(
            true,
            "reply"@,
            json::int_v(l.reply as int),
        ) + json::member_when(l.speaker.len() > 0, "speaker"@, JsonV::Str(l.speaker)) + json::member_when(
            l.system,
            "system"@,
            JsonV::Bool(true),
        ) + json::member_when(l.tool is Some, "tool"@, opt_call_v(l.tool)) + json::member_when(
            l.turn > 0,
            "turn"@,
            json::int_v(l.turn as int),
        ) + json::member_when(l.verb.len() > 0, "verb"@, JsonV::Str(l.verb)),
    )
}

pub open spec fn opt_call_v(o: Option<CallV>) -> JsonV {
    match o {
        Some(c) => call_json_v(c),
        None => JsonV::Null,
    }
}

fn opt_call_json(o: &Option<ToolCallView>) -> (r: Json)
    ensures
        r@ == opt_call_v(opt_call(*o)),
{
    match o {
        Some(c) => call_json(c),
        None => Json::Null,
    }
}

fn line_json(l: &LineView) -> (r: Json)
    ensures
        r@ == line_json_v(l@),
{
    let mut o: Vec<(String, Json)> = Vec::new();
    put_when(&mut o, l.degraded, "degraded", Json::Bool(true));
    put_when(&mut o, true, "id", int_json(l.id));
    put_when(&mut o, l.kind.as_str().unicode_len() > 0, "kind", text_json(l.kind.as_str()));
    put_when(&mut o, true, "line", text_json(l.line.as_str()));
    put_when(&mut o, l.reasoning.is_some(), "reasoning", opt_text_json(&l.reasoning));
    put_when(&mut o, true, "reply", int_json(l.reply));
    put_when(
        &mut o,
        l.speaker.as_str().unicode_len() > 0,
        "speaker",
        text_json(l.speaker.as_str()),
    );
    put_when(&mut o, l.system, "system", Json::Bool(true));
    put_when(&mut o, l.tool.is_some(), "tool", opt_call_json(&l.tool));
    put_when(&mut o, l.turn > 0, "turn", int_json(l.turn));
    put_when(&mut o, l.verb.as_str().unicode_len() > 0, "verb", text_json(l.verb.as_str()));
    Json::Obj(o)
}

pub open spec fn status_text(s: NodeStatus) -> Seq<char> {
    match s {
        NodeStatus::Pending => "pending"@,
        NodeStatus::Running => "running"@,
        NodeStatus::Done => "done"@,
        NodeStatus::Failed => "failed"@,
    }
}

pub open spec fn node_json_v(n: NodeV) -> JsonV {
    JsonV::Obj(
        seq![
            (
                "acceptance"@,
                match n.acceptance {
                    Some(a) => JsonV::Obj(
                        seq![("note"@, JsonV::Str(a.note)), ("ok"@, JsonV::Bool(a.ok))],
                    ),
                    None => JsonV::Null,
                },
            ),
            ("assignee"@, JsonV::Str(n.assignee)),
            ("deps"@, json::texts_json_v(n.deps)),
            ("id"@, JsonV::Str(n.id)),
            ("objective"@, JsonV::Str(n.objective)),
            ("report"@, json::opt_text_v(n.report)),
            ("status"@, JsonV::Str(status_text(n.status))),
            ("sub_session"@, json::opt_text_v(n.sub_session)),
            ("title"@, JsonV::Str(n.title)),
        ],
    )
}

fn node_json(n: &TaskNode) -> (r: Json)
    ensures
        r@ == node_json_v(n@),
{
    let accepted = match &n.acceptance {
        Some(a) => {
            let mut x: Vec<(String, Json)> = Vec::new();
            put(&mut x, "note", text_json(a.note.as_str()));
            put(&mut x, "ok", Json::Bool(a.ok));
            assert(json::members_v(x@) =~= seq![
                ("note"@, JsonV::Str(a.note@)),
                ("ok"@, JsonV::Bool(a.ok)),
            ]);
            Json::Obj(x)
        },
        None => Json::Null,
    };
    let status = match n.status {
        NodeStatus::Pending => "pending",
        NodeStatus::Running => "running",
        NodeStatus::Done => "done",
        NodeStatus::Failed => "failed",
    };
    let mut o: Vec<(String, Json)> = Vec::new();
    put(&mut o, "acceptance", accepted);
    put(&mut o, "assignee", text_json(n.assignee.as_str()));
    put(&mut o, "deps", texts_json(&n.deps));
    put(&mut o, "id", text_json(n.id.as_str()));
    put(&mut o, "objective", text_json(n.objective.as_str()));
    put(&mut o, "report", opt_text_json(&n.report));
    put(&mut o, "status", text_json(status));
    put(&mut o, "sub_session", opt_text_json(&n.sub_session));
    put(&mut o, "title", text_json(n.title.as_str()));
    assert(json::members_v(o@) =~= node_json_v(n@)->Obj_0);
    Json::Obj(o)
}

pub open spec fn check_json_v(c: CheckV) -> JsonV {
    JsonV::Obj(
        seq![
            ("item"@, JsonV::Str(c.item)),
            ("note"@, JsonV::Str(c.note)),
            ("status"@, JsonV::Str(c.status)),
        ],
    )
}

fn check_json(c: &CheckView) -> (r: Json)
    ensures
        r@ == check_json_v(c@),
{
    let mut o: Vec<(String, Json)> = Vec::new();
    put(&mut o, "item", text_json(c.item.as_str()));
    put(&mut o, "note", text_json(c.note.as_str()));
    put(&mut o, "status", text_json(c.status.as_str()));
    assert(json::members_v(o@) =~= check_json_v(c@)->Obj_0);
    Json::Obj(o)
}

pub open spec fn lines_json_v(v: Seq<LineV>) -> JsonV {
    JsonV::Arr(v.map_values(|l: LineV| line_json_v(l)))
}

fn lines_json(v: &Vec<LineView>) -> (r: Json)
    ensures
        r@ == lines_json_v(line_views(v@)),
{
    let ghost all = line_views(v@).map_values(|l: LineV| line_json_v(l));
    let mut a: Vec<Json> = Vec::new();
    let mut i: usize = 0;
    assert(json::items_v(a@) =~= all.take(0));
    while i < v.len()
        invariant
            i <= v@.len(),
            all == line_views(v@).map_values(|l: LineV| line_json_v(l)),
            json::items_v(a@) == all.take(i as int),
        decreases v@.len() - i,
    {
        let ghost prev = a@;
        a.push(line_json(&v[i]));
        proof {
            assert(a@.drop_last() =~= prev);
            assert(json::items_v(a@) =~= all.take(i + 1));
        }
        i = i + 1;
    }
    assert(all.take(all.len() as int) =~= all);
    Json::Arr(a)
}

pub open spec fn nodes_json_v(v: Seq<NodeV>) -> JsonV {
    JsonV::Arr(v.map_values(|n: NodeV| node_json_v(n)))
}

fn nodes_json(v: &Vec<TaskNode>) -> (r: Json)
    ensures
        r@ == nodes_json_v(chain::nodes_v(v@)),
{
    let ghost all = chain::nodes_v(v@).map_values(|n: NodeV| node_json_v(n));
    let mut a: Vec<Json> = Vec::new();
    let mut i: usize = 0;
    assert(json::items_v(a@) =~= all.take(0));
    while i < v.len()
        invariant
            i <= v@.len(),
            all == chain::nodes_v(v@).map_values(|n: NodeV| node_json_v(n)),
            json::items_v(a@) == all.take(i as int),
        decreases v@.len() - i,
    {
        let ghost prev = a@;
        a.push(node_json(&v[i]));
        proof {
            assert(a@.drop_last() =~= prev);
            assert(json::items_v(a@) =~= all.take(i + 1));
        }
        i = i + 1;
    }
    assert(all.take(all.len() as int) =~= all);
    Json::Arr(a)
}

pub open spec fn checks_json_v(v: Seq<CheckV>) -> JsonV {
    JsonV::Arr(v.map_values(|c: CheckV| check_json_v(c)))
}

fn checks_json(v: &Vec<CheckView>) -> (r: Json)
    ensures
        r@ == checks_json_v(checks_v(v@)),
{
    let ghost all = checks_v(v@).map_values(|c: CheckV| check_json_v(c));
    let mut a: Vec<Json> = Vec::new();
    let mut i: usize = 0;
    assert(json::items_v(a@) =~= all.take(0));
    while i < v.len()
        invariant
            i <= v@.len(),
            all == checks_v(v@).map_values(|c: CheckV| check_json_v(c)),
            json::items_v(a@) == all.take(i as int),
        decreases v@.len() - i,
    {
        let ghost prev = a@;
        a.push(check_json(&v[i]));
        proof {
            assert(a@.drop_last() =~= prev);
            assert(json::items_v(a@) =~= all.take(i + 1));
        }
        i = i + 1;
    }
    assert(all.take(all.len() as int) =~= all);
    Json::Arr(a)
}

pub open spec fn event_json(e: EventV) -> JsonV {
    JsonV::Obj(
        match e {
            EventV::Notice(s) => seq![("text"@, JsonV::Str(s)), ("type"@, JsonV::Str("notice"@))],
            EventV::Transcript(v) => seq![
                ("lines"@, lines_json_v(v)),
                ("type"@, JsonV::Str("transcript"@)),
            ],
            EventV::DiscussionDone { round, over_cap } => seq![
                ("over_cap"@, JsonV::Bool(over_cap)),
                ("round"@, json::int_v(round as int)),
                ("type"@, JsonV::Str("discussion_done"@)),
            ],
            EventV::Plan(s) => seq![("text"@, JsonV::Str(s)), ("type"@, JsonV::Str("plan"@))],
            EventV::PlanReview { plan, chain } => seq![
                ("chain"@, JsonV::Obj(seq![("nodes"@, nodes_json_v(chain))])),
                ("plan"@, JsonV::Str(plan)),
                ("type"@, JsonV::Str("plan_review"@)),
            ],
            EventV::Report { id, text, rework } => seq![
                ("id"@, JsonV::Str(id)),
                ("rework"@, json::int_v(rework as int)),
                ("text"@, JsonV::Str(text)),
                ("type"@, JsonV::Str("report"@)),
            ],
            EventV::Review { items, raw } => seq![
                ("items"@, checks_json_v(items)),
                ("raw"@, JsonV::Str(raw)),
                ("type"@, JsonV::Str("review"@)),
            ],
            EventV::Delivery { ok, over_rework } => seq![
                ("ok"@, JsonV::Bool(ok)),
                ("over_rework"@, JsonV::Bool(over_rework)),
                ("type"@, JsonV::Str("delivery"@)),
            ],
            EventV::Compacted { up_to, summary } => seq![
                ("summary"@, JsonV::Str(summary)),
                ("type"@, JsonV::Str("compacted"@)),
                ("up_to"@, json::int_v(up_to as int)),
            ],
            EventV::Ended => seq![("type"@, JsonV::Str("ended"@))],
            EventV::ToolCall(c) => seq![
                ("args"@, JsonV::Str(c.args)),
                ("module"@, JsonV::Str(c.module)),
                ("name"@, JsonV::Str(c.name)),
                ("ok"@, JsonV::Bool(c.ok)),
                ("output"@, JsonV::Str(c.output)),
                ("raw"@, JsonV::Str(c.raw)),
                ("speaker"@, JsonV::Str(c.speaker)),
                ("type"@, JsonV::Str("tool_call"@)),
            ],
            EventV::Delta { speaker, kind, text } => seq![
                ("kind"@, JsonV::Str(kind)),
                ("speaker"@, JsonV::Str(speaker)),
                ("text"@, JsonV::Str(text)),
                ("type"@, JsonV::Str("delta"@)),
            ],
            EventV::Decision { what, advice } => seq![
                ("advice"@, JsonV::Str(advice)),
                ("pending"@, pending_json_v(what)),
                ("type"@, JsonV::Str("decision"@)),
            ],
            EventV::Working(s) => seq![
                ("speaker"@, JsonV::Str(s)),
                ("type"@, JsonV::Str("working"@)),
            ],
            EventV::Idle => seq![("type"@, JsonV::Str("idle"@))],
        },
    )
}

impl SessionEvent {
    /// The event on the wire and in the history: one form for both.
    pub fn to_json(&self) -> (r: Json)
        ensures
            r@ == event_json(self@),
    {
        let mut o: Vec<(String, Json)> = Vec::new();
        match self {
            SessionEvent::Notice(s) => {
                put(&mut o, "text", text_json(s.as_str()));
                put(&mut o, "type", text_json("notice"));
            },
            SessionEvent::Transcript(v) => {
                put(&mut o, "lines", lines_json(v));
                put(&mut o, "type", text_json("transcript"));
            },
            SessionEvent::DiscussionDone { round, over_cap } => {
                put(&mut o, "over_cap", Json::Bool(*over_cap));
                put(&mut o, "round", int_json(*round as u64));
                put(&mut o, "type", text_json("discussion_done"));
            },
            SessionEvent::Plan(s) => {
                put(&mut o, "text", text_json(s.as_str()));
                put(&mut o, "type", text_json("plan"));
            },
            SessionEvent::PlanReview { plan, chain } => {
                let mut c: Vec<(String, Json)> = Vec::new();
                put(&mut c, "nodes", nodes_json(&chain.nodes));
                assert(json::members_v(c@) =~= seq![("nodes"@, nodes_json_v(chain@))]);
                put(&mut o, "chain", Json::Obj(c));
                put(&mut o, "plan", text_json(plan.as_str()));
                put(&mut o, "type", text_json("plan_review"));
            },
            SessionEvent::Report { id, text, rework } => {
                put(&mut o, "id", text_json(id.as_str()));
                put(&mut o, "rework", int_json(*rework as u64));
                put(&mut o, "text", text_json(text.as_str()));
                put(&mut o, "type", text_json("report"));
            },
            SessionEvent::Review { items, raw } => {
                put(&mut o, "items", checks_json(items));
                put(&mut o, "raw", text_json(raw.as_str()));
                put(&mut o, "type", text_json("review"));
            },
            SessionEvent::Delivery { ok, over_rework } => {
                put(&mut o, "ok", Json::Bool(*ok));
                put(&mut o, "over_rework", Json::Bool(*over_rework));
                put(&mut o, "type", text_json("delivery"));
            },
            SessionEvent::Compacted { up_to, summary } => {
                put(&mut o, "summary", text_json(summary.as_str()));
                put(&mut o, "type", text_json("compacted"));
                put(&mut o, "up_to", int_json(*up_to));
            },
            SessionEvent::Ended => {
                put(&mut o, "type", text_json("ended"));
            },
            SessionEvent::ToolCall(c) => {
                put(&mut o, "args", text_json(c.args.as_str()));
                put(&mut o, "module", text_json(c.module.as_str()));
                put(&mut o, "name", text_json(c.name.as_str()));
                put(&mut o, "ok", Json::Bool(c.ok));
                put(&mut o, "output", text_json(c.output.as_str()));
                put(&mut o, "raw", text_json(c.raw.as_str()));
                put(&mut o, "speaker", text_json(c.speaker.as_str()));
                put(&mut o, "type", text_json("tool_call"));
            },
            SessionEvent::Delta { speaker, kind, text } => {
                put(&mut o, "kind", text_json(kind.as_str()));
                put(&mut o, "speaker", text_json(speaker.as_str()));
                put(&mut o, "text", text_json(text.as_str()));
                put(&mut o, "type", text_json("delta"));
            },
            SessionEvent::Decision { what, advice } => {
                put(&mut o, "advice", text_json(advice.as_str()));
                put(&mut o, "pending", what.to_json());
                put(&mut o, "type", text_json("decision"));
            },
            SessionEvent::Working(s) => {
                put(&mut o, "speaker", text_json(s.as_str()));
                put(&mut o, "type", text_json("working"));
            },
            SessionEvent::Idle => {
                put(&mut o, "type", text_json("idle"));
            },
        }
        assert(json::members_v(o@) =~= event_json(self@)->Obj_0);
        Json::Obj(o)
    }
}

/// What a session waits for the user to say.
#[derive(Debug)]
pub enum Pending {
    /// A member asks.
    Ask { member: String, question: String },
    /// The drafted roster is to be confirmed.
    ConfirmSlate,
    /// The roster stands; the discussion is to be begun.
    ConfirmBegin,
    /// The plan is to be approved.
    PlanReview,
    /// Nodes did not pass.
    NodeBlocked { nodes: Vec<String> },
}


#[verifier::ext_equal]
pub enum PendingV {
    Ask { member: Seq<char>, question: Seq<char> },
    ConfirmSlate,
    ConfirmBegin,
    PlanReview,
    NodeBlocked { nodes: Seq<Seq<char>> },
}

impl View for Pending {
    type V = PendingV;

    open spec fn view(&self) -> PendingV {
        match *self {
            Pending::Ask { member, question } => PendingV::Ask {
                member: member@,
                question: question@,
            },
            Pending::ConfirmSlate => PendingV::ConfirmSlate,
            Pending::ConfirmBegin => PendingV::ConfirmBegin,
            Pending::PlanReview => PendingV::PlanReview,
            Pending::NodeBlocked { nodes } => PendingV::NodeBlocked { nodes: text::texts(nodes@) },
        }
    }
}

pub open spec fn opt_pending(o: Option<Pending>) -> Option<PendingV> {
    match o {
        Some(p) => Some(p@),
        None => None,
    }
}

/// What waits for the user, on the wire.
pub open spec fn pending_json_v(p: PendingV) -> JsonV {
    JsonV::Obj(
        match p {
            PendingV::Ask { member, question } => seq![
                ("member"@, JsonV::Str(member)),
                ("question"@, JsonV::Str(question)),
                ("type"@, JsonV::Str("ask"@)),
            ],
            PendingV::ConfirmSlate => seq![("type"@, JsonV::Str("confirm_slate"@))],
            PendingV::ConfirmBegin => seq![("type"@, JsonV::Str("confirm_begin"@))],
            PendingV::PlanReview => seq![("type"@, JsonV::Str("plan_review"@))],
            PendingV::NodeBlocked { nodes } => seq![
                ("nodes"@, json::texts_json_v(nodes)),
                ("type"@, JsonV::Str("node_blocked"@)),
            ],
        },
    )
}

impl Pending {
    fn to_json(&self) -> (r: Json)
        ensures
            r@ == pending_json_v(self@),
    {
        let mut o: Vec<(String, Json)> = Vec::new();
        match self {
            Pending::Ask { member, question } => {
                put(&mut o, "member", text_json(member.as_str()));
                put(&mut o, "question", text_json(question.as_str()));
                put(&mut o, "type", text_json("ask"));
            },
            Pending::ConfirmSlate => {
                put(&mut o, "type", text_json("confirm_slate"));
            },
            Pending::ConfirmBegin => {
                put(&mut o, "type", text_json("confirm_begin"));
            },
            Pending::PlanReview => {
                put(&mut o, "type", text_json("plan_review"));
            },
            Pending::NodeBlocked { nodes } => {
                put(&mut o, "nodes", texts_json(nodes));
                put(&mut o, "type", text_json("node_blocked"));
            },
        }
        assert(json::members_v(o@) =~= pending_json_v(self@)->Obj_0);
        Json::Obj(o)
    }

    pub fn copy(&self) -> (r: Pending)
        ensures
            r@ == self@,
    {
        match self {
            Pending::Ask { member, question } => Pending::Ask {
                member: member.clone(),
                question: question.clone(),
            },
            Pending::ConfirmSlate => Pending::ConfirmSlate,
            Pending::ConfirmBegin => Pending::ConfirmBegin,
            Pending::PlanReview => Pending::PlanReview,
            Pending::NodeBlocked { nodes } => Pending::NodeBlocked { nodes: clone_strings(nodes) },
        }
    }
}

proof fn lemma_names_differ()
    ensures
        "args"@ != "name"@,
        "args"@ != "type"@,
        "name"@ != "type"@,
        "module"@ != "output"@,
        "text"@ != "type"@,
        "kind"@ != "text"@,
        "kind"@ != "type"@,
        "plan"@ != "type"@,
        "kind"@ != "line"@,
        "kind"@ != "tool"@,
        "kind"@ != "turn"@,
        "kind"@ != "verb"@,
        "line"@ != "tool"@,
        "line"@ != "turn"@,
        "line"@ != "verb"@,
        "tool"@ != "turn"@,
        "tool"@ != "verb"@,
        "turn"@ != "verb"@,
        "reply"@ != "round"@,
        "item"@ != "note"@,
        "report"@ != "status"@,
        "acceptance"@ != "sub_session"@,
        "deps"@ != "type"@,
        "chain"@ != "items"@,
{
    reveal_strlit("args");
    assert("args"@.len() == 4);
    reveal_strlit("name");
    assert("name"@.len() == 4);
    reveal_strlit("type");
    assert("type"@.len() == 4);
    reveal_strlit("module");
    assert("module"@.len() == 6);
    reveal_strlit("output");
    assert("output"@.len() == 6);
    reveal_strlit("text");
    assert("text"@.len() == 4);
    reveal_strlit("kind");
    assert("kind"@.len() == 4);
    reveal_strlit("plan");
    assert("plan"@.len() == 4);
    reveal_strlit("line");
    assert("line"@.len() == 4);
    reveal_strlit("tool");
    assert("tool"@.len() == 4);
    reveal_strlit("turn");
    assert("turn"@.len() == 4);
    reveal_strlit("verb");
    assert("verb"@.len() == 4);
    reveal_strlit("reply");
    assert("reply"@.len() == 5);
    reveal_strlit("round");
    assert("round"@.len() == 5);
    reveal_strlit("item");
    assert("item"@.len() == 4);
    reveal_strlit("note");
    assert("note"@.len() == 4);
    reveal_strlit("report");
    assert("report"@.len() == 6);
    reveal_strlit("status");
    assert("status"@.len() == 6);
    reveal_strlit("acceptance");
    assert("acceptance"@.len() == 10);
    reveal_strlit("sub_session");
    assert("sub_session"@.len() == 11);
    reveal_strlit("deps");
    assert("deps"@.len() == 4);
    reveal_strlit("chain");
    assert("chain"@.len() == 5);
    reveal_strlit("items");
    assert("items"@.len() == 5);
    assert("args"@[0] != "name"@[0]);
    assert("args"@[0] != "type"@[0]);
    assert("name"@[0] != "type"@[0]);
    assert("module"@[0] != "output"@[0]);
    assert("text"@[1] != "type"@[1]);
    assert("kind"@[0] != "text"@[0]);
    assert("kind"@[0] != "type"@[0]);
    assert("plan"@[0] != "type"@[0]);
    assert("kind"@[0] != "line"@[0]);
    assert("kind"@[0] != "tool"@[0]);
    assert("kind"@[0] != "turn"@[0]);
    assert("kind"@[0] != "verb"@[0]);
    assert("line"@[0] != "tool"@[0]);
    assert("line"@[0] != "turn"@[0]);
    assert("line"@[0] != "verb"@[0]);
    assert("tool"@[1] != "turn"@[1]);
    assert("tool"@[0] != "verb"@[0]);
    assert("turn"@[0] != "verb"@[0]);
    assert("reply"@[1] != "round"@[1]);
    assert("item"@[0] != "note"@[0]);
    assert("report"@[0] != "status"@[0]);
    assert("deps"@[0] != "type"@[0]);
    assert("chain"@[0] != "items"@[0]);
}

proof fn lemma_line_member(l: LineV, key: Seq<char>)
    ensures
        line_json_v(l).get(key) == if l.degraded && key == "degraded"@ {
            Some(JsonV::Bool(true))
        } else if key == "id"@ {
            Some(json::int_v(l.id as int))
        } else if l.kind.len() > 0 && key == "kind"@ {
            Some(JsonV::Str(l.kind))
        } else if key == "line"@ {
            Some(JsonV::Str(l.line))
        } else if l.reasoning is Some && key == "reasoning"@ {
            Some(json::opt_text_v(l.reasoning))
        } else if key == "reply"@ {
            Some(json::int_v(l.reply as int))
        } else if l.speaker.len() > 0 && key == "speaker"@ {
            Some(JsonV::Str(l.speaker))
        } else if l.system && key == "system"@ {
            Some(JsonV::Bool(true))
        } else if l.tool is Some && key == "tool"@ {
            Some(opt_call_v(l.tool))
        } else if l.turn > 0 && key == "turn"@ {
            Some(json::int_v(l.turn as int))
        } else if l.verb.len() > 0 && key == "verb"@ {
            Some(JsonV::Str(l.verb))
        } else {
            None
        },
{
    let p0 = Seq::<(Seq<char>, JsonV)>::empty();
    let p1 = p0 + json::member_when(l.degraded, "degraded"@, JsonV::Bool(true));
    let p2 = p1 + json::member_when(true, "id"@, json::int_v(l.id as int));
    let p3 = p2 + json::member_when(l.kind.len() > 0, "kind"@, JsonV::Str(l.kind));
    let p4 = p3 + json::member_when(true, "line"@, JsonV::Str(l.line));
    let p5 = p4 + json::member_when(l.reasoning is Some, "reasoning"@, json::opt_text_v(l.reasoning));
    let p6 = p5 + json::member_when(true, "reply"@, json::int_v(l.reply as int));
    let p7 = p6 + json::member_when(l.speaker.len() > 0, "speaker"@, JsonV::Str(l.speaker));
    let p8 = p7 + json::member_when(l.system, "system"@, JsonV::Bool(true));
    let p9 = p8 + json::member_when(l.tool is Some, "tool"@, opt_call_v(l.tool));
    let p10 = p9 + json::member_when(l.turn > 0, "turn"@, json::int_v(l.turn as int));
    let p11 = p10 + json::member_when(l.verb.len() > 0, "verb"@, JsonV::Str(l.verb));
    json::members_come_on_condition(p0, l.degraded, "degraded"@, JsonV::Bool(true), key);
    json::members_come_on_condition(p1, true, "id"@, json::int_v(l.id as int), key);
    json::members_come_on_condition(p2, l.kind.len() > 0, "kind"@, JsonV::Str(l.kind), key);
    json::members_come_on_condition(p3, true, "line"@, JsonV::Str(l.line), key);
    json::members_come_on_condition(p4, l.reasoning is Some, "reasoning"@, json::opt_text_v(l.reasoning), key);
    json::members_come_on_condition(p5, true, "reply"@, json::int_v(l.reply as int), key);
    json::members_come_on_condition(p6, l.speaker.len() > 0, "speaker"@, JsonV::Str(l.speaker), key);
    json::members_come_on_condition(p7, l.system, "system"@, JsonV::Bool(true), key);
    json::members_come_on_condition(p8, l.tool is Some, "tool"@, opt_call_v(l.tool), key);
    json::members_come_on_condition(p9, l.turn > 0, "turn"@, json::int_v(l.turn as int), key);
    json::members_come_on_condition(p10, l.verb.len() > 0, "verb"@, JsonV::Str(l.verb), key);
    assert(line_json_v(l) == JsonV::Obj(p11));
}

/// A line that is written tells all of itself: who said what and how, its number and its
/// reply's, the tool that ran, and what was thought. What it does not have is not there.
pub proof fn lines_tell_what_was_said(l: LineV)
    ensures
        line_json_v(l).text_or_empty("speaker"@) == l.speaker,
        line_json_v(l).text_or_empty("verb"@) == l.verb,
        line_json_v(l).text_or_empty("kind"@) == l.kind,
        line_json_v(l).text_at("line"@) == Some(l.line),
        line_json_v(l).natural_at("id"@) == Some(l.id as nat),
        line_json_v(l).natural_at("reply"@) == Some(l.reply as nat),
        line_json_v(l).text_at("reasoning"@) == l.reasoning,
        line_json_v(l).flag_at("system"@) == l.system,
        line_json_v(l).flag_at("degraded"@) == l.degraded,
        l.tool is None ==> line_json_v(l).get("tool"@) is None,
        l.tool is Some ==> line_json_v(l).get("tool"@) == Some(call_json_v(l.tool->0)),
        l.turn > 0 ==> line_json_v(l).natural_at("turn"@) == Some(l.turn as nat),
        l.turn == 0 ==> line_json_v(l).get("turn"@) is None,
{
    reveal_strlit("degraded");
    assert("degraded"@.len() == 8);
    reveal_strlit("id");
    assert("id"@.len() == 2);
    reveal_strlit("kind");
    assert("kind"@.len() == 4);
    reveal_strlit("line");
    assert("line"@.len() == 4);
    reveal_strlit("reasoning");
    assert("reasoning"@.len() == 9);
    reveal_strlit("reply");
    assert("reply"@.len() == 5);
    reveal_strlit("speaker");
    assert("speaker"@.len() == 7);
    reveal_strlit("system");
    assert("system"@.len() == 6);
    reveal_strlit("tool");
    assert("tool"@.len() == 4);
    reveal_strlit("turn");
    assert("turn"@.len() == 4);
    reveal_strlit("verb");
    assert("verb"@.len() == 4);
    lemma_names_differ();
    lemma_line_member(l, "degraded"@);
    lemma_line_member(l, "id"@);
    lemma_line_member(l, "kind"@);
    lemma_line_member(l, "line"@);
    lemma_line_member(l, "reasoning"@);
    lemma_line_member(l, "reply"@);
    lemma_line_member(l, "speaker"@);
    lemma_line_member(l, "system"@);
    lemma_line_member(l, "tool"@);
    lemma_line_member(l, "turn"@);
    lemma_line_member(l, "verb"@);
    if l.speaker.len() == 0 {
        assert(l.speaker =~= Seq::empty());
    }
    if l.verb.len() == 0 {
        assert(l.verb =~= Seq::empty());
    }
    if l.kind.len() == 0 {
        assert(l.kind =~= Seq::empty());
    }
}

/// An event that is written tells its kind and what it carries.
pub proof fn events_tell_what_happened(e: EventV)
    ensures
        ({
            let j = event_json(e);
            match e {
                EventV::Notice(s) => j.text_at("type"@) == Some("notice"@) && j.text_at("text"@) == Some(s),
                EventV::Transcript(v) => j.text_at("type"@) == Some("transcript"@) && j.array_at("lines"@)
                    is Some && (j.array_at("lines"@)->0).len() == v.len() && forall|k: int|
                    0 <= k < v.len() ==> #[trigger] (j.array_at("lines"@)->0)[k] == line_json_v(v[k]),
                EventV::DiscussionDone { round, over_cap } => j.text_at("type"@) == Some("discussion_done"@)
                    && j.get("round"@) == Some(json::int_v(round as int)) && j.flag_at("over_cap"@) == over_cap,
                EventV::Plan(s) => j.text_at("type"@) == Some("plan"@) && j.text_at("text"@) == Some(s),
                EventV::PlanReview { plan, chain } => j.text_at("type"@) == Some("plan_review"@)
                    && j.text_at("plan"@) == Some(plan) && j.get("chain"@) is Some,
                EventV::Report { id, text, rework } => j.text_at("type"@) == Some("report"@) && j.text_at(
                    "id"@,
                ) == Some(id) && j.text_at("text"@) == Some(text) && j.get("rework"@) == Some(
                    json::int_v(rework as int),
                ),
                EventV::Review { items, raw } => j.text_at("type"@) == Some("review"@) && j.text_at("raw"@)
                    == Some(raw) && j.array_at("items"@) is Some && (j.array_at("items"@)->0).len() == items.len()
                    && forall|k: int|
                    0 <= k < items.len() ==> #[trigger] (j.array_at("items"@)->0)[k] == check_json_v(items[k]),
                EventV::Delivery { ok, over_rework } => j.text_at("type"@) == Some("delivery"@) && j.get("ok"@)
                    == Some(JsonV::Bool(ok)) && j.flag_at("over_rework"@) == over_rework,
                EventV::Compacted { up_to, summary } => j.text_at("type"@) == Some("compacted"@)
                    && j.natural_at("up_to"@) == Some(up_to as nat) && j.text_at("summary"@) == Some(summary),
                EventV::Ended => j.text_at("type"@) == Some("ended"@),
                EventV::ToolCall(c) => j.text_at("type"@) == Some("tool_call"@) && j.text_at("name"@) == Some(
                    c.name,
                ) && j.text_at("module"@) == Some(c.module) && j.text_at("args"@) == Some(c.args) && j.text_at(
                    "output"@,
                ) == Some(c.output) && j.flag_at("ok"@) == c.ok && j.text_at("speaker"@) == Some(c.speaker)
                    && j.text_at("raw"@) == Some(c.raw),
                EventV::Delta { speaker, kind, text } => j.text_at("type"@) == Some("delta"@) && j.text_at(
                    "speaker"@,
                ) == Some(speaker) && j.text_at("kind"@) == Some(kind) && j.text_at("text"@) == Some(text),
                EventV::Decision { what, advice } => j.text_at("type"@) == Some("decision"@) && j.get(
                    "pending"@,
                ) == Some(pending_json_v(what)) && j.text_at("advice"@) == Some(advice),
                EventV::Working(s) => j.text_at("type"@) == Some("working"@) && j.text_at("speaker"@) == Some(s),
                EventV::Idle => j.text_at("type"@) == Some("idle"@),
            }
        }),
{
    reveal_with_fuel(json::member_from, 10);
    reveal_strlit("type");
    assert("type"@.len() == 4);
    reveal_strlit("text");
    assert("text"@.len() == 4);
    reveal_strlit("lines");
    assert("lines"@.len() == 5);
    reveal_strlit("over_cap");
    assert("over_cap"@.len() == 8);
    reveal_strlit("round");
    assert("round"@.len() == 5);
    reveal_strlit("chain");
    assert("chain"@.len() == 5);
    reveal_strlit("plan");
    assert("plan"@.len() == 4);
    reveal_strlit("id");
    assert("id"@.len() == 2);
    reveal_strlit("rework");
    assert("rework"@.len() == 6);
    reveal_strlit("items");
    assert("items"@.len() == 5);
    reveal_strlit("raw");
    assert("raw"@.len() == 3);
    reveal_strlit("ok");
    assert("ok"@.len() == 2);
    reveal_strlit("over_rework");
    assert("over_rework"@.len() == 11);
    reveal_strlit("summary");
    assert("summary"@.len() == 7);
    reveal_strlit("up_to");
    assert("up_to"@.len() == 5);
    reveal_strlit("args");
    assert("args"@.len() == 4);
    reveal_strlit("module");
    assert("module"@.len() == 6);
    reveal_strlit("name");
    assert("name"@.len() == 4);
    reveal_strlit("output");
    assert("output"@.len() == 6);
    reveal_strlit("speaker");
    assert("speaker"@.len() == 7);
    reveal_strlit("kind");
    assert("kind"@.len() == 4);
    reveal_strlit("advice");
    assert("advice"@.len() == 6);
    reveal_strlit("pending");
    assert("pending"@.len() == 7);
    lemma_names_differ();
}

/// A line is read with its speaker and its verb in front of what it says, as far as it
/// has them.
pub proof fn lines_read_as_they_were_said(l: LineV)
    requires
        l.kind != "round"@,
    ensures
        l.speaker.len() == 0 ==> line_text(l) == l.line,
        l.speaker.len() > 0 && l.verb.len() == 0 ==> line_text(l) == seq!['['] + l.speaker + seq![']', ' ']
            + l.line,
        l.speaker.len() > 0 && l.verb.len() > 0 ==> line_text(l) == seq!['['] + l.speaker + seq![':'] + l.verb
            + seq![']', ' '] + l.line,
{
    reveal_strlit("[");
    reveal_strlit("] ");
    reveal_strlit(":");
    assert("["@ =~= seq!['[']);
    assert("] "@ =~= seq![']', ' ']);
    assert(":"@ =~= seq![':']);
}

/// A node that is written tells what it is: what is to be done and by whom, what it
/// needs, how far it is, what it brought and what was said of it.
pub proof fn nodes_tell_how_far_they_are(n: NodeV)
    ensures
        node_json_v(n).text_at("id"@) == Some(n.id),
        node_json_v(n).text_at("title"@) == Some(n.title),
        node_json_v(n).text_at("objective"@) == Some(n.objective),
        node_json_v(n).text_at("assignee"@) == Some(n.assignee),
        node_json_v(n).text_at("report"@) == n.report,
        node_json_v(n).text_at("sub_session"@) == n.sub_session,
        node_json_v(n).get("deps"@) == Some(json::texts_json_v(n.deps)),
        n.status is Pending ==> node_json_v(n).text_at("status"@) == Some("pending"@),
        n.status is Running ==> node_json_v(n).text_at("status"@) == Some("running"@),
        n.status is Done ==> node_json_v(n).text_at("status"@) == Some("done"@),
        n.status is Failed ==> node_json_v(n).text_at("status"@) == Some("failed"@),
        n.acceptance is None ==> node_json_v(n).get("acceptance"@) == Some(JsonV::Null),
        n.acceptance matches Some(a) ==> (node_json_v(n).get("acceptance"@) matches Some(j) && j.flag_at("ok"@)
            == a.ok && j.text_at("note"@) == Some(a.note)),
{
    reveal_strlit("acceptance");
    assert("acceptance"@.len() == 10);
    reveal_strlit("assignee");
    assert("assignee"@.len() == 8);
    reveal_strlit("deps");
    assert("deps"@.len() == 4);
    reveal_strlit("id");
    assert("id"@.len() == 2);
    reveal_strlit("objective");
    assert("objective"@.len() == 9);
    reveal_strlit("report");
    assert("report"@.len() == 6);
    reveal_strlit("status");
    assert("status"@.len() == 6);
    reveal_strlit("sub_session");
    assert("sub_session"@.len() == 11);
    reveal_strlit("title");
    assert("title"@.len() == 5);
    reveal_strlit("note");
    assert("note"@.len() == 4);
    reveal_strlit("ok");
    assert("ok"@.len() == 2);
    assert("report"@[0] != "status"@[0]);
    reveal_with_fuel(json::member_from, 10);
}

} // verus!
