//! The session of one agent: what was said, the transcript of it, and how the two
//! are cut together when the user goes back.
use crate::converse::{self, Round, RoundV, assemble, extend_msgs};
use crate::engine::{self, MemberTools};
use crate::events::{self, CallV, EventV, LineV, LineView, SessionEvent, ToolCallView, copy_call, interrupted_note, stopped_note};
use crate::json::{self, Json, JsonV, parse_json};
use crate::module::{self, Module, packs, system_prompt};
use crate::operation::{self, calls_of};
use crate::ports::{self, Chunk, Completion, Msg, MsgV};
use crate::prompt::{self, Prompts, RefsPrompts, ToolTexts};
use crate::providers::ToolMode;
use crate::rebuild::{self, RebuiltV};
use crate::refs::{self, RefRoots, rewrite};
use crate::systool::{self, env_block};
use crate::table::Table;
use crate::text::{self, cat2, cat3, cat4, cat5, cat6, dec, dec_usize, find_char, has_char, is_blank, slice, str_eq, to_chars, to_size, trim};
use crate::turn;
use crate::workspace::{self, RealPath, Sandbox};
use vstd::prelude::*;

verus! {

// ---- whole replies ----

/// The start of the run of lines of one reply that ends before `k`.
pub open spec fn reply_start(line_reply: Seq<u64>, losing: u64, k: int) -> int
    decreases k,
{
    if k <= 0 {
        0
    } else if line_reply[k - 1] == losing {
        reply_start(line_reply, losing, k - 1)
    } else {
        k
    }
}

/// How many lines stay where `keep` were asked for: never part of a reply.
pub open spec fn whole_replies(line_reply: Seq<u64>, keep: int) -> int {
    if keep <= 0 {
        0
    } else if keep >= line_reply.len() {
        line_reply.len() as int
    } else {
        reply_start(line_reply, line_reply[keep], keep)
    }
}

/// Moves a cut to where no reply is cut in two: a result without the message that
/// asked for it must not stay.
pub fn keep_whole_replies(line_reply: &Vec<u64>, keep: usize) -> (r: usize)
    ensures
        r == whole_replies(line_reply@, keep as int),
        r <= line_reply@.len(),
        r <= keep,
{
    if keep >= line_reply.len() {
        return line_reply.len();
    }
    if keep == 0 {
        return 0;
    }
    let losing = line_reply[keep];
    let mut k: usize = keep;
    while k > 0 && line_reply[k - 1] == losing
        invariant
            k <= keep < line_reply@.len(),
            reply_start(line_reply@, losing, keep as int) == reply_start(
                line_reply@,
                losing,
                k as int,
            ),
        decreases k,
    {
        k = k - 1;
    }
    k
}

proof fn lemma_reply_start(line_reply: Seq<u64>, losing: u64, k: int)
    requires
        0 <= k < line_reply.len(),
        line_reply[k] == losing,
    ensures
        ({
            let r = reply_start(line_reply, losing, k);
            0 <= r <= k && line_reply[r] == losing && (r == 0 || line_reply[r - 1] != losing)
        }),
    decreases k,
{
    if k > 0 && line_reply[k - 1] == losing {
        lemma_reply_start(line_reply, losing, k - 1);
    }
}

/// A cut never splits a reply, keeps no more than was asked, and is where it is
/// asked for a second time.
pub proof fn cuts_keep_replies_whole(line_reply: Seq<u64>, keep: int)
    requires
        0 <= keep,
    ensures
        ({
            let r = whole_replies(line_reply, keep);
            &&& 0 <= r <= line_reply.len()
            &&& r <= keep
            &&& 0 < r < line_reply.len() ==> line_reply[r - 1] != line_reply[r]
            &&& whole_replies(line_reply, r) == r
        }),
{
    if 0 < keep < line_reply.len() {
        lemma_reply_start(line_reply, line_reply[keep], keep);
        let r = whole_replies(line_reply, keep);
        if r > 0 {
            lemma_reply_start(line_reply, line_reply[r], r);
            assert(reply_start(line_reply, line_reply[r], r) == r);
        }
    }
}

/// Nothing is lost beyond the reply that is cut: the lines between the cut and what
/// was asked all belong to it.
pub proof fn cuts_lose_one_reply(line_reply: Seq<u64>, keep: int, k: int)
    requires
        0 < keep < line_reply.len(),
        whole_replies(line_reply, keep) <= k < keep,
    ensures
        line_reply[k] == line_reply[keep],
{
    lemma_run(line_reply, line_reply[keep], keep, k);
}

proof fn lemma_run(line_reply: Seq<u64>, losing: u64, n: int, k: int)
    requires
        0 <= n <= line_reply.len(),
        reply_start(line_reply, losing, n) <= k < n,
    ensures
        line_reply[k] == losing,
    decreases n,
{
    if line_reply[n - 1] == losing && k < n - 1 {
        lemma_run(line_reply, losing, n - 1, k);
    }
}

// ---- streaming ----

/// What may be shown of a reply: what stands before its first envelope.
pub open spec fn showable(s: Seq<char>) -> Seq<char> {
    s.take(text::index_of_char(s, '{'))
}

/// Takes the next piece of a reply: what may be shown of it, and the reply so far.
/// Nothing is shown from the first brace on.
pub fn stream_piece(acc: &str, piece: &str) -> (r: (String, String))
    ensures
        r.1@ == acc@ + piece@,
        r.0@ == if text::index_of_char(acc@, '{') < acc@.len() {
            Seq::<char>::empty()
        } else {
            showable(piece@)
        },
{
    proof {
        text::lemma_index_of_char(acc@, '{');
    }
    let send = if has_char(acc, '{') {
        String::new()
    } else {
        let v = to_chars(piece);
        let i: usize = find_char(&v, 0, '{');
        let s = slice(&v, 0, i);
        assert(v@.skip(0) =~= v@);
        assert(s@ =~= showable(piece@));
        s
    };
    (send, cat2(acc, piece))
}

/// The pieces shown make up what may be shown of the reply, however it was cut into
/// pieces; and none of them holds a brace.
pub proof fn pieces_show_what_may_be_shown(acc: Seq<char>, piece: Seq<char>)
    ensures
        showable(acc + piece) == showable(acc) + if text::index_of_char(acc, '{') < acc.len() {
            Seq::<char>::empty()
        } else {
            showable(piece)
        },
        !showable(acc).contains('{'),
{
    text::lemma_index_of_char(acc, '{');
    text::lemma_index_of_char(piece, '{');
    text::lemma_index_of_char(acc + piece, '{');
    let i = text::index_of_char(acc, '{');
    if i < acc.len() {
        assert((acc + piece)[i] == '{');
        text::lemma_index_of_char_is(acc + piece, '{', i);
        assert(showable(acc + piece) =~= showable(acc) + Seq::<char>::empty());
    } else {
        let j = text::index_of_char(piece, '{');
        if j < piece.len() {
            assert((acc + piece)[acc.len() + j] == piece[j]);
        }
        assert forall|k: int| 0 <= k < acc.len() + j implies (acc + piece)[k] != '{' by {
            if k >= acc.len() {
                assert((acc + piece)[k] == piece[k - acc.len()]);
            }
        }
        text::lemma_index_of_char_is(acc + piece, '{', acc.len() + j);
        assert(showable(acc + piece) =~= showable(acc) + showable(piece));
    }
}

// ---- what a session is told of itself ----

/// What a request needs besides the dialogue: who the agent is and where it works.
#[derive(Debug)]
pub struct SessionParams {
    pub agent: String,
    pub work_name: String,
    pub shared: RealPath,
    pub private: RealPath,
    pub module_dirs: Table<RealPath>,
    /// The modules' ids, and what each has to say.
    pub modules: Vec<(String, String)>,
}

impl SessionParams {
    /// What a session needs to know, from the agent's sandbox and what its modules say.
    pub fn from_packs(agent: &str, sb: &Sandbox, packs: Vec<(String, String)>) -> (r: SessionParams)
        ensures
            r.agent@ == agent@,
            r.work_name@ == sb.work_name@,
            r.shared@ == sb.shared@,
            r.private@ == sb.private@,
            workspace::paths_table(r.module_dirs@) == workspace::paths_table(sb.modules@),
            r.modules == packs,
    {
        SessionParams {
            agent: agent.to_owned(),
            work_name: sb.work_name.clone(),
            shared: sb.shared.copy(),
            private: sb.private.copy(),
            module_dirs: sb.copy_modules(),
            modules: packs,
        }
    }

    /// What a session needs to know, from the agent's sandbox and its modules.
    pub fn from_workspace(agent: &str, sb: &Sandbox, modules: &Vec<Module>) -> (r: SessionParams)
        ensures
            r.agent@ == agent@,
            r.work_name@ == sb.work_name@,
            r.shared@ == sb.shared@,
            r.private@ == sb.private@,
            workspace::paths_table(r.module_dirs@) == workspace::paths_table(sb.modules@),
            module::packs_v(r.modules@) == module::packs_of(modules@),
    {
        SessionParams::from_packs(agent, sb, packs(modules))
    }

    pub open spec fn identity_text(self, p: Prompts, mode: ToolMode) -> Seq<char> {
        module::system_text(
            p,
            self.agent@,
            module::packs_v(self.modules@),
            systool::env_text(p, self),
            ""@,
            ""@,
            mode,
        )
    }

    /// Who the agent is, in the words of the book as it is now.
    pub fn identity(&self, prompts: &Prompts, mode: ToolMode) -> (r: String)
        requires
            prompt::book_sound(*prompts),
        ensures
            r@ == self.identity_text(*prompts, mode),
    {
        let env = env_block(prompts, self);
        system_prompt(
            prompts,
            self.agent.as_str(),
            &self.modules,
            env.as_str(),
            "",
            "",
            mode,
        )
    }
}

// ---- the session ----

/// A line of a discussion's turn: what it says, with a call or not.
#[derive(Debug)]
pub struct DiscLine {
    pub text: String,
    pub tool: Option<ToolCallView>,
}

/// The session of one agent.
#[derive(Debug)]
pub struct AgentSession {
    id: String,
    params: SessionParams,
    /// What was said, and nothing else: who the agent is comes with each request.
    dialogue: Vec<Msg>,
    note: Option<String>,
    tools: Option<MemberTools>,
    refs: RefsPrompts,
    tool_texts: ToolTexts,
    /// The number of the next line.
    next_line: u64,
    /// For each line, how long the dialogue was when it was done.
    marks: Vec<usize>,
    /// For each line, the reply it belongs to.
    line_reply: Vec<u64>,
    cur_reply: u64,
    cur_turn: u64,
    /// How many characters the dialogue may have before it is summed up; 0 for any.
    compact_at: usize,
}

#[verifier::ext_equal]
pub struct SessV {
    pub dialogue: Seq<MsgV>,
    pub next_line: u64,
    pub marks: Seq<usize>,
    pub line_reply: Seq<u64>,
    pub cur_reply: u64,
    pub cur_turn: u64,
    pub compact_at: usize,
}

impl View for AgentSession {
    type V = SessV;

    closed spec fn view(&self) -> SessV {
        SessV {
            dialogue: ports::msgs_v(self.dialogue@),
            next_line: self.next_line,
            marks: self.marks@,
            line_reply: self.line_reply@,
            cur_reply: self.cur_reply,
            cur_turn: self.cur_turn,
            compact_at: self.compact_at,
        }
    }
}

impl SessV {
    /// Every line has a mark and a reply, and the marks go up to the dialogue's end.
    pub open spec fn wf(self) -> bool {
        &&& self.marks.len() == self.next_line
        &&& self.line_reply.len() == self.next_line
        &&& forall|i: int, j: int|
            0 <= i <= j < self.marks.len() ==> self.marks[i] <= self.marks[j]
        &&& forall|i: int|
            0 <= i < self.marks.len() ==> (#[trigger] self.marks[i]) <= self.dialogue.len()
        &&& self.dialogue.len() <= usize::MAX
    }

    /// With one line more, which belongs to the reply at hand.
    pub open spec fn with_line(self) -> SessV {
        SessV {
            next_line: (self.next_line + 1) as u64,
            marks: self.marks.push(self.dialogue.len() as usize),
            line_reply: self.line_reply.push(self.cur_reply),
            ..self
        }
    }

    /// That line.
    pub open spec fn new_line(
        self,
        line: Seq<char>,
        reasoning: Option<Seq<char>>,
        tool: Option<CallV>,
    ) -> LineV {
        LineV {
            id: self.next_line,
            reply: self.cur_reply,
            reasoning,
            tool,
            turn: self.cur_turn,
            ..events::plain_line(line)
        }
    }

    pub open spec fn with_msg(self, m: MsgV) -> SessV {
        SessV { dialogue: self.dialogue.push(m), ..self }
    }
}

/// Whether two states are of the same session: only the dialogue and its lines may
/// differ.
pub open spec fn same_session(a: AgentSession, b: AgentSession) -> bool {
    &&& a.name() == b.name()
    &&& a.settings() == b.settings()
    &&& a.seat() == b.seat()
    &&& a.texts() == b.texts()
    &&& a.ref_texts() == b.ref_texts()
    &&& a.opening() == b.opening()
}

impl AgentSession {
    pub closed spec fn name(self) -> Seq<char> {
        self.id@
    }

    pub closed spec fn settings(self) -> SessionParams {
        self.params
    }

    pub closed spec fn seat(self) -> Option<MemberTools> {
        self.tools
    }

    pub closed spec fn texts(self) -> ToolTexts {
        self.tool_texts
    }

    pub closed spec fn ref_texts(self) -> RefsPrompts {
        self.refs
    }

    pub closed spec fn opening(self) -> Option<Seq<char>> {
        text::opt_text(self.note)
    }

    /// A session in which nothing was said.
    pub fn new(
        id: &str,
        params: SessionParams,
        note: Option<String>,
        tools: Option<MemberTools>,
        refs: RefsPrompts,
        tool_texts: ToolTexts,
    ) -> (r: AgentSession)
        ensures
            r@ == (SessV {
                dialogue: Seq::empty(),
                next_line: 0,
                marks: Seq::empty(),
                line_reply: Seq::empty(),
                cur_reply: 0,
                cur_turn: 0,
                compact_at: 0,
            }),
            r@.wf(),
            r.name() == id@,
            r.settings() == params,
            r.seat() == tools,
            r.texts() == tool_texts,
            r.ref_texts() == refs,
            r.opening() == text::opt_text(note),
    {
        let r = AgentSession {
            id: id.to_owned(),
            params,
            dialogue: Vec::new(),
            note,
            tools,
            refs,
            tool_texts,
            next_line: 0,
            marks: Vec::new(),
            line_reply: Vec::new(),
            cur_reply: 0,
            cur_turn: 0,
            compact_at: 0,
        };
        assert(ports::msgs_v(r.dialogue@) =~= Seq::empty());
        r
    }

    /// A session as it was kept. Its lines go on from the last.
    pub fn restore(
        id: &str,
        params: SessionParams,
        dialogue: Vec<Msg>,
        marks: Vec<usize>,
        line_reply: Vec<u64>,
        note: Option<String>,
        tools: Option<MemberTools>,
        refs: RefsPrompts,
        tool_texts: ToolTexts,
    ) -> (r: AgentSession)
        ensures
            r@ == (SessV {
                dialogue: ports::msgs_v(dialogue@),
                next_line: marks@.len() as u64,
                marks: marks@,
                line_reply: line_reply@,
                cur_reply: 0,
                cur_turn: 0,
                compact_at: 0,
            }),
            rebuild::well_marked(
                (RebuiltV {
                    dialogue: ports::msgs_v(dialogue@),
                    marks: marks@,
                    line_reply: line_reply@,
                }),
            ) ==> r@.wf(),
            r.name() == id@,
            r.settings() == params,
            r.seat() == tools,
            r.texts() == tool_texts,
            r.ref_texts() == refs,
            r.opening() == text::opt_text(note),
    {
        AgentSession {
            id: id.to_owned(),
            params,
            next_line: marks.len() as u64,
            dialogue,
            note,
            tools,
            refs,
            tool_texts,
            marks,
            line_reply,
            cur_reply: 0,
            cur_turn: 0,
            compact_at: 0,
        }
    }

    /// What was said.
    pub fn dialogue(&self) -> (r: &Vec<Msg>)
        ensures
            ports::msgs_v(r@) == self@.dialogue,
    {
        &self.dialogue
    }

    pub fn params(&self) -> (r: &SessionParams)
        ensures
            *r == self.settings(),
    {
        &self.params
    }

    /// How the session calls tools now.
    pub fn tool_mode(&self) -> (r: ToolMode)
        ensures
            r == match self.seat() {
                Some(t) => t.mode,
                None => ToolMode::Envelope,
            },
    {
        match &self.tools {
            Some(t) => t.mode,
            None => ToolMode::Envelope,
        }
    }

    /// Changes how the session calls tools, and nothing else.
    pub fn set_tool_mode(&mut self, mode: ToolMode)
        ensures
            final(self)@ == old(self)@,
            final(self).seat() == match old(self).seat() {
                Some(t) => Some(MemberTools { mode, ..t }),
                None => None,
            },
            final(self).name() == old(self).name(),
            final(self).settings() == old(self).settings(),
            final(self).texts() == old(self).texts(),
            final(self).ref_texts() == old(self).ref_texts(),
            final(self).opening() == old(self).opening(),
    {
        match self.tools.take() {
            Some(t) => {
                let mut t = t;
                t.mode = mode;
                self.tools = Some(t);
            },
            None => {},
        }
    }

    /// Lends the seat's tools; they come back by `give_back`.
    pub fn take_tools(&mut self) -> (r: Option<MemberTools>)
        ensures
            r == old(self).seat(),
            final(self).seat() is None,
            final(self)@ == old(self)@,
            final(self).name() == old(self).name(),
            final(self).settings() == old(self).settings(),
            final(self).texts() == old(self).texts(),
            final(self).ref_texts() == old(self).ref_texts(),
            final(self).opening() == old(self).opening(),
    {
        self.tools.take()
    }

    pub fn give_back(&mut self, tools: Option<MemberTools>)
        ensures
            final(self).seat() == tools,
            final(self)@ == old(self)@,
            final(self).name() == old(self).name(),
            final(self).settings() == old(self).settings(),
            final(self).texts() == old(self).texts(),
            final(self).ref_texts() == old(self).ref_texts(),
            final(self).opening() == old(self).opening(),
    {
        self.tools = tools;
    }

    /// What the session starts with: that its channel is another one, where it is.
    pub fn open(&self) -> (r: Vec<SessionEvent>)
        ensures
            events::events_v(r@) == match self.opening() {
                Some(n) => seq![EventV::Notice(n)],
                None => Seq::empty(),
            },
    {
        let mut r: Vec<SessionEvent> = Vec::new();
        match &self.note {
            Some(n) => {
                r.push(SessionEvent::Notice(n.clone()));
                assert(events::events_v(r@) =~= seq![EventV::Notice(n@)]);
            },
            None => {
                assert(events::events_v(r@) =~= Seq::empty());
            },
        }
        r
    }

    /// The number of the next line.
    pub fn next_line_id(&self) -> (r: u64)
        ensures
            r == self@.next_line,
    {
        self.next_line
    }

    /// Sets how long the dialogue may get before it is summed up; 0 for any length.
    pub fn set_compact_budget(&mut self, chars: usize)
        ensures
            final(self)@ == (SessV { compact_at: chars, ..old(self)@ }),
            same_session(*old(self), *final(self)),
    {
        self.compact_at = chars;
    }

    /// Lets the lines to come belong to a turn of the work.
    pub fn set_turn(&mut self, turn_id: u64)
        ensures
            final(self)@ == (SessV { cur_turn: turn_id, ..old(self)@ }),
            same_session(*old(self), *final(self)),
    {
        self.cur_turn = turn_id;
    }

    /// Whether the user spoke last: only then there is something to answer.
    pub fn last_is_user(&self) -> (r: bool)
        ensures
            r == (self@.dialogue.len() > 0 && self@.dialogue.last().role == "user"@),
    {
        let n = self.dialogue.len();
        if n == 0 {
            return false;
        }
        assert(ports::msgs_v(self.dialogue@).last() == self.dialogue@[n - 1]@);
        str_eq(self.dialogue[n - 1].role.as_str(), "user")
    }

    fn line(
        &mut self,
        line: String,
        reasoning: Option<String>,
        tool: Option<ToolCallView>,
    ) -> (r: LineView)
        requires
            old(self)@.next_line < u64::MAX,
        ensures
            final(self)@ == old(self)@.with_line(),
            r@ == old(self)@.new_line(line@, text::opt_text(reasoning), events::opt_call(tool)),
            old(self)@.wf() ==> final(self)@.wf(),
            same_session(*old(self), *final(self)),
    {
        let r = LineView {
            id: self.next_line,
            reply: self.cur_reply,
            reasoning,
            tool,
            turn: self.cur_turn,
            ..LineView::plain(line)
        };
        assert(r@ =~= self@.new_line(line@, text::opt_text(reasoning), events::opt_call(tool)));
        self.next_line = self.next_line + 1;
        self.line_reply.push(self.cur_reply);
        let n = self.dialogue.len();
        self.marks.push(n);
        r
    }

    fn push_msg(&mut self, m: Msg)
        ensures
            final(self)@ == old(self)@.with_msg(m@),
            old(self)@.wf() ==> final(self)@.wf(),
            same_session(*old(self), *final(self)),
    {
        let ghost before = self.dialogue@;
        self.dialogue.push(m);
        let said = self.dialogue.len();
        assert(ports::msgs_v(self.dialogue@) =~= ports::msgs_v(before).push(m@));
        assert(self@.dialogue.len() == said);
    }
}


// ---- what happens in a session ----

impl SessV {
    /// After the user spoke: the line is a reply of its own.
    pub open spec fn told(self, m: MsgV) -> SessV {
        SessV { cur_reply: self.next_line, ..self.with_msg(m) }.with_line()
    }

    /// After the lines before `up_to` were summed up: the summary stands in their
    /// place at the head of the dialogue. The lines themselves stay.
    pub open spec fn compacted(self, up_to: u64, summary: Seq<char>) -> SessV {
        let keep = if up_to < self.marks.len() {
            up_to as int
        } else {
            self.marks.len() as int
        };
        let hist = if keep == 0 {
            0int
        } else {
            self.marks[keep - 1] as int
        };
        SessV {
            dialogue: seq![ports::plain_msg("user"@, "[此前内容摘要]\n"@ + summary)]
                + self.dialogue.skip(hist),
            marks: self.marks.map_values(
                |m: usize|
                    if m <= hist {
                        1usize
                    } else {
                        (m - hist + 1) as usize
                    },
            ),
            ..self
        }
    }

    /// After going back: only the lines before `keep_id` stay, and no reply in part.
    pub open spec fn rewound(self, keep_id: u64) -> SessV {
        let keep = whole_replies(self.line_reply, keep_id as int);
        if keep == 0 {
            SessV {
                dialogue: Seq::empty(),
                marks: Seq::empty(),
                line_reply: Seq::empty(),
                next_line: 0,
                ..self
            }
        } else {
            SessV {
                dialogue: self.dialogue.take(self.marks[keep - 1] as int),
                marks: self.marks.take(keep),
                line_reply: self.line_reply.take(keep),
                next_line: keep as u64,
                ..self
            }
        }
    }

    /// After a round: its messages are part of the dialogue, its lines have marks.
    pub open spec fn booked(self, r: RoundV) -> SessV {
        let s0 = SessV { cur_reply: r.reply, ..self };
        let has = converse::has_line(r.text, r.reasoning);
        match r.tool {
            Some(run) => {
                let s1 = if has {
                    s0.with_line()
                } else {
                    s0
                };
                SessV { dialogue: s1.dialogue + r.text_msgs + run.msgs, ..s1 }.with_line()
            },
            None => {
                let s1 = SessV { dialogue: s0.dialogue + r.text_msgs, ..s0 };
                if has {
                    s1.with_line()
                } else {
                    s1
                }
            },
        }
    }
}

pub open spec fn when_text(b: bool, s: Seq<char>) -> Seq<char> {
    if b {
        s
    } else {
        Seq::empty()
    }
}

pub fn text_when<'a>(b: bool, s: &'a str) -> (r: &'a str)
    ensures
        r@ == when_text(b, s@),
{
    proof {
        reveal_strlit("");
        assert(""@ =~= Seq::empty());
    }
    if b {
        s
    } else {
        ""
    }
}

/// The line of what an agent said, with what became of it.
pub open spec fn said_line(id: Seq<char>, t: ToolTexts, r: RoundV, stopped: bool) -> Seq<char> {
    let text = text::trimmed(r.text);
    "["@ + id + "]"@ + when_text(text.len() > 0, " "@ + text) + when_text(
        stopped,
        t.stopped_suffix@,
    ) + when_text(ports::cut_short(r.finish), t.truncated_suffix@)
}

pub open spec fn thought(reasoning: Seq<char>) -> Option<Seq<char>> {
    if text::trimmed(reasoning).len() == 0 {
        None
    } else {
        Some(reasoning)
    }
}

/// The line of a call an agent made.
pub open spec fn made_line(id: Seq<char>, view: CallV) -> Seq<char> {
    "["@ + id + "] 工具 "@ + view.label() + " → "@ + if view.ok {
        "成功"@
    } else {
        "失败"@
    }
}

pub open spec fn said_part(
    id: Seq<char>,
    t: ToolTexts,
    r: RoundV,
    stopped: bool,
    n: u64,
) -> Seq<LineV> {
    if converse::has_line(r.text, r.reasoning) {
        seq![
            LineV {
                id: n,
                reply: r.reply,
                reasoning: thought(r.reasoning),
                turn: r.reply,
                ..events::plain_line(said_line(id, t, r, stopped))
            },
        ]
    } else {
        Seq::empty()
    }
}

/// The lines of a round, numbered from `n`: what was said, if anything, and the call.
pub open spec fn round_lines(
    id: Seq<char>,
    t: ToolTexts,
    r: RoundV,
    stopped: bool,
    n: u64,
) -> Seq<LineV> {
    let head = said_part(id, t, r, stopped, n);
    match r.tool {
        Some(run) => head.push(
            LineV {
                id: (n + head.len()) as u64,
                reply: r.reply,
                tool: Some(run.view),
                turn: r.reply,
                ..events::plain_line(made_line(id, run.view))
            },
        ),
        None => head,
    }
}

/// Makes the lines of a round.
pub fn build_round_lines(
    id: &str,
    texts: &ToolTexts,
    round: &Round,
    stopped: bool,
    next_line: u64,
) -> (r: Vec<LineView>)
    requires
        next_line + 2 <= u64::MAX,
    ensures
        events::line_views(r@) == round_lines(id@, *texts, round@, stopped, next_line),
{
    let mut out: Vec<LineView> = Vec::new();
    let mut n: u64 = next_line;
    let text = trim(round.text.as_str());
    let silent = is_blank(round.reasoning.as_str());
    assert(events::line_views(out@) =~= Seq::empty());
    if text.as_str().unicode_len() > 0 || !silent {
        let reasoning = if silent {
            None
        } else {
            Some(round.reasoning.clone())
        };
        let body = cat2(" ", text.as_str());
        let line = cat6(
            "[",
            id,
            "]",
            text_when(text.as_str().unicode_len() > 0, body.as_str()),
            text_when(stopped, texts.stopped_suffix.as_str()),
            text_when(round.truncated(), texts.truncated_suffix.as_str()),
        );
        let l = LineView {
            id: n,
            reply: round.reply,
            reasoning,
            turn: round.reply,
            ..LineView::plain(line)
        };
        assert(l@ =~= said_part(id@, *texts, round@, stopped, next_line)[0]);
        out.push(l);
        n = n + 1;
    }
    assert(events::line_views(out@) =~= said_part(id@, *texts, round@, stopped, next_line));
    match &round.tool {
        Some(run) => {
            let label = run.view.label();
            let line = cat5(
                "[",
                id,
                "] 工具 ",
                label.as_str(),
                if run.view.ok {
                    " → 成功"
                } else {
                    " → 失败"
                },
            );
            proof {
                reveal_strlit(" → 成功");
                reveal_strlit(" → 失败");
                reveal_strlit(" → ");
                reveal_strlit("成功");
                reveal_strlit("失败");
                assert(" → 成功"@ =~= " → "@ + "成功"@);
                assert(" → 失败"@ =~= " → "@ + "失败"@);
                assert(line@ =~= made_line(id@, run.view@));
            }
            let l = LineView {
                id: n,
                reply: round.reply,
                tool: Some(run.view.copy()),
                turn: round.reply,
                ..LineView::plain(line)
            };
            let ghost head = out@;
            assert(l@ =~= LineV {
                id: n,
                reply: round.reply,
                tool: Some(run.view@),
                turn: round.reply,
                ..events::plain_line(made_line(id@, run.view@))
            });
            out.push(l);
            assert(events::line_views(out@) =~= events::line_views(head).push(l@));
        },
        None => {},
    }
    out
}

/// How many rounds there are before the first that failed, from the `i`th on.
pub open spec fn sound_rounds(v: Seq<RoundV>, i: int) -> int
    decreases v.len() - i,
{
    if i < 0 || i >= v.len() || v[i].error is Some {
        i
    } else {
        sound_rounds(v, i + 1)
    }
}

/// The session after `n` rounds.
pub open spec fn after_rounds(s: SessV, v: Seq<RoundV>, n: int) -> SessV
    decreases n,
{
    if n <= 0 {
        s
    } else {
        after_rounds(s, v, n - 1).booked(v[n - 1])
    }
}

pub open spec fn transcript_of(lines: Seq<LineV>) -> Seq<EventV> {
    if lines.len() == 0 {
        Seq::empty()
    } else {
        seq![EventV::Transcript(lines)]
    }
}

/// The transcripts of the first `n` rounds, one for each.
pub open spec fn round_events(
    id: Seq<char>,
    t: ToolTexts,
    s: SessV,
    v: Seq<RoundV>,
    stopped: bool,
    n: int,
) -> Seq<EventV>
    decreases n,
{
    if n <= 0 {
        Seq::empty()
    } else {
        round_events(id, t, s, v, stopped, n - 1) + transcript_of(
            round_lines(id, t, v[n - 1], stopped, after_rounds(s, v, n - 1).next_line),
        )
    }
}

/// What the user is told at the end: why it broke off, and that it was stopped.
pub open spec fn closing_events(v: Seq<RoundV>, stopped: bool) -> Seq<EventV> {
    let n = sound_rounds(v, 0);
    (if n < v.len() {
        seq![EventV::Notice(events::interrupted_text(v[n].error->0))]
    } else {
        Seq::empty()
    }) + (if stopped {
        seq![EventV::Notice(events::stopped_text())]
    } else {
        Seq::empty()
    })
}

/// The lines of the verifications of a turn, from the state before them.
pub open spec fn disc_lines(s: SessV, v: Seq<DiscLine>, n: int) -> (SessV, Seq<LineV>)
    decreases n,
{
    if n <= 0 {
        (s, Seq::empty())
    } else {
        let p = disc_lines(s, v, n - 1);
        (
            p.0.with_line(),
            p.1.push(p.0.new_line(v[n - 1].text@, None, events::opt_call(v[n - 1].tool))),
        )
    }
}

pub open spec fn turn_line(turn_id: u64, round: usize) -> Seq<char> {
    "[回合 t"@ + text::decimal(turn_id as nat) + "｜第 "@ + text::decimal(round as nat) + " 轮]"@
}

/// A discussion's turn in the session of the agent whose turn it was.
pub open spec fn turn_noted(
    s: SessV,
    id: Seq<char>,
    round: usize,
    turn_id: u64,
    verb: Seq<char>,
    text: Seq<char>,
    tools: Seq<DiscLine>,
) -> (SessV, Seq<LineV>) {
    let s0 = SessV { cur_turn: turn_id, ..s };
    let head = s0.new_line(turn_line(turn_id, round), None, None);
    let mid = disc_lines(s0.with_line(), tools, tools.len() as int);
    let last = mid.0.new_line("["@ + id + ":"@ + verb + "] "@ + text, None, None);
    (
        SessV { cur_turn: 0, ..mid.0.with_line() },
        (seq![head] + mid.1).push(last),
    )
}

/// How many characters a dialogue has.
pub open spec fn dialogue_chars(v: Seq<MsgV>) -> nat
    decreases v.len(),
{
    if v.len() == 0 {
        0
    } else {
        dialogue_chars(v.drop_last()) + v.last().content.len()
    }
}

/// What a turn that was to sum up the dialogue gave: the summary, or what was wrong.
pub open spec fn summary_of(done: Completion) -> Result<Seq<char>, Seq<char>> {
    let calls = ports::tool_calls_v(done.calls@);
    let all = if calls.len() > 0 {
        calls
    } else {
        operation::envelope_calls(turn::said_by(done.raw@))
    };
    match done.error {
        Some(e) => Err(e@),
        None => if all.len() == 0 {
            Err("压缩回合没有调用 compact（没给出摘要）"@)
        } else if all[0].name != "compact"@ {
            Err("压缩回合该只调 compact，实际调了 "@ + all[0].name)
        } else {
            match json::json_of(all[0].args_json) {
                Err(e) => Err("压缩参数不合法（"@ + e + "）："@ + all[0].args_json),
                Ok(v) => if text::trimmed(converse::arg_in(Ok(v), "summary"@)).len() == 0 {
                    Err("压缩回合给出的摘要是空的"@)
                } else {
                    Ok(converse::arg_in(Ok(v), "summary"@))
                },
            }
        },
    }
}

pub open spec fn text_result(r: Result<String, String>) -> Result<Seq<char>, Seq<char>> {
    match r {
        Ok(s) => Ok(s@),
        Err(e) => Err(e@),
    }
}

/// Takes the summary out of what a turn gave that was to sum up the dialogue.
pub fn take_summary(done: &Completion) -> (r: Result<String, String>)
    ensures
        text_result(r) == summary_of(*done),
{
    match &done.error {
        Some(e) => {
            return Err(e.clone());
        },
        None => {},
    }
    let mode = if done.calls.len() > 0 {
        ToolMode::Native
    } else {
        ToolMode::Envelope
    };
    let all = calls_of(mode, done);
    assert(ports::tool_calls_v(done.calls@).len() == done.calls@.len());
    assert(ports::tool_calls_v(all@).len() == all@.len());
    if all.len() == 0 {
        return Err("压缩回合没有调用 compact（没给出摘要）".to_owned());
    }
    assert(ports::tool_calls_v(all@)[0] == all@[0]@);
    let c = &all[0];
    if !str_eq(c.name.as_str(), "compact") {
        return Err(cat2("压缩回合该只调 compact，实际调了 ", c.name.as_str()));
    }
    match parse_json(c.args_json.as_str()) {
        Err(e) => Err(cat4("压缩参数不合法（", e.as_str(), "）：", c.args_json.as_str())),
        Ok(v) => {
            let summary = match v.get("summary") {
                Some(Json::Str(t)) => t.clone(),
                _ => String::new(),
            };
            assert(summary@ =~= converse::arg_in(Ok(v@), "summary"@));
            if is_blank(summary.as_str()) {
                return Err("压缩回合给出的摘要是空的".to_owned());
            }
            Ok(summary)
        },
    }
}

fn one_transcript(lines: Vec<LineView>) -> (r: Vec<SessionEvent>)
    ensures
        events::events_v(r@) == seq![EventV::Transcript(events::line_views(lines@))],
{
    let mut r: Vec<SessionEvent> = Vec::new();
    let ghost lv = events::line_views(lines@);
    r.push(SessionEvent::Transcript(lines));
    assert(events::events_v(r@) =~= seq![EventV::Transcript(lv)]);
    r
}

impl AgentSession {
    /// The user speaks: references become paths, and what is kept of it is what the
    /// model reads.
    pub fn say(&mut self, text: &str) -> (r: Vec<SessionEvent>)
        requires
            refs::refs_sound(old(self).ref_texts()),
            old(self)@.next_line < u64::MAX,
        ensures
            ({
                let t = old(self).rewritten_text(text@);
                &&& final(self)@ == old(self)@.told(ports::plain_msg("user"@, t))
                &&& events::events_v(r@) == seq![
                    EventV::Transcript(
                        seq![
                            SessV {
                                cur_reply: old(self)@.next_line,
                                ..old(self)@
                            }.new_line("[用户] "@ + t, None, None),
                        ],
                    ),
                ]
            }),
            old(self)@.wf() ==> final(self)@.wf(),
            same_session(*old(self), *final(self)),
    {
        let roots = RefRoots {
            work: self.params.shared.copy(),
            private: Some(self.params.private.copy()),
        };
        let id = self.id.clone();
        let t = rewrite(text, Some(id.as_str()), &roots, &self.refs);
        proof {
            refs::lemma_roots_by_view(
                text@,
                Some(self.id@),
                roots,
                RefRoots { work: self.params.shared, private: Some(self.params.private) },
                self.refs,
            );
        }
        self.push_msg(Msg::user(t.clone()));
        self.cur_reply = self.next_line;
        let l = self.line(cat2("[用户] ", t.as_str()), None, None);
        let mut ls: Vec<LineView> = Vec::new();
        ls.push(l);
        assert(events::line_views(ls@) =~= seq![l@]);
        one_transcript(ls)
    }

    /// The system speaks, and the model is to answer.
    pub fn inject_system(&mut self, text: &str) -> (r: Vec<SessionEvent>)
        requires
            old(self)@.next_line < u64::MAX,
        ensures
            final(self)@ == old(self)@.told(ports::plain_msg("system"@, text@)),
            events::events_v(r@) == seq![
                EventV::Transcript(
                    seq![
                        LineV {
                            system: true,
                            ..SessV {
                                cur_reply: old(self)@.next_line,
                                ..old(self)@
                            }.new_line(text@, None, None)
                        },
                    ],
                ),
            ],
            old(self)@.wf() ==> final(self)@.wf(),
            same_session(*old(self), *final(self)),
    {
        self.push_msg(Msg::system(text.to_owned()));
        self.cur_reply = self.next_line;
        let mut l = self.line(text.to_owned(), None, None);
        l.system = true;
        let mut ls: Vec<LineView> = Vec::new();
        ls.push(l);
        assert(events::line_views(ls@) =~= seq![l@]);
        one_transcript(ls)
    }

    /// The system speaks, and nobody is to answer now.
    pub fn note_system(&mut self, text: &str) -> (r: Vec<SessionEvent>)
        requires
            old(self)@.next_line < u64::MAX,
        ensures
            final(self)@ == old(self)@.with_msg(ports::plain_msg("system"@, text@)).with_line(),
            events::events_v(r@) == seq![
                EventV::Transcript(
                    seq![
                        LineV { system: true, ..old(self)@.new_line(text@, None, None) },
                    ],
                ),
            ],
            old(self)@.wf() ==> final(self)@.wf(),
            same_session(*old(self), *final(self)),
    {
        self.push_msg(Msg::system(text.to_owned()));
        let mut l = self.line(text.to_owned(), None, None);
        l.system = true;
        let mut ls: Vec<LineView> = Vec::new();
        ls.push(l);
        assert(events::line_views(ls@) =~= seq![l@]);
        one_transcript(ls)
    }

    /// Notes a discussion's turn: that it was one, what was verified, what was said.
    pub fn note_turn(
        &mut self,
        round: usize,
        turn_id: u64,
        verb: &str,
        text: &str,
        tools: &Vec<DiscLine>,
    ) -> (r: Vec<SessionEvent>)
        requires
            old(self)@.next_line + tools@.len() + 2 <= u64::MAX,
        ensures
            ({
                let n = turn_noted(
                    old(self)@,
                    old(self).name(),
                    round,
                    turn_id,
                    verb@,
                    text@,
                    tools@,
                );
                &&& final(self)@ == n.0
                &&& events::events_v(r@) == seq![EventV::Transcript(n.1)]
            }),
            old(self)@.wf() ==> final(self)@.wf(),
            same_session(*old(self), *final(self)),
    {
        let ghost start = *self;
        self.cur_turn = turn_id;
        let ghost s0 = self@;
        let mut ls: Vec<LineView> = Vec::new();
        let head = self.line(
            cat5("[回合 t", dec(turn_id).as_str(), "｜第 ", dec_usize(round).as_str(), " 轮]"),
            None,
            None,
        );
        ls.push(head);
        let ghost s1 = self@;
        let mut i: usize = 0;
        assert(events::line_views(ls@) =~= seq![head@] + disc_lines(s1, tools@, 0).1);
        while i < tools.len()
            invariant
                i <= tools@.len(),
                s1.next_line + tools@.len() + 1 <= u64::MAX,
                self@ == disc_lines(s1, tools@, i as int).0,
                self@.next_line == s1.next_line + i,
                events::line_views(ls@) == seq![head@] + disc_lines(s1, tools@, i as int).1,
                start@.wf() ==> self@.wf(),
                same_session(start, *self),
            decreases tools@.len() - i,
        {
            let l = self.line(tools[i].text.clone(), None, copy_call(&tools[i].tool));
            let ghost prev = ls@;
            ls.push(l);
            i = i + 1;
            assert(events::line_views(ls@) =~= events::line_views(prev).push(l@));
            assert(events::line_views(ls@) =~= seq![head@] + disc_lines(s1, tools@, i as int).1);
        }
        let id = self.id.clone();
        let last = self.line(cat6("[", id.as_str(), ":", verb, "] ", text), None, None);
        let ghost prev = ls@;
        ls.push(last);
        assert(events::line_views(ls@) =~= events::line_views(prev).push(last@));
        self.cur_turn = 0;
        one_transcript(ls)
    }

    /// Whether the dialogue is to be summed up before the next request.
    pub fn wants_compact(&self) -> (r: bool)
        ensures
            r == (self@.compact_at != 0 && dialogue_chars(self@.dialogue) > self@.compact_at),
    {
        if self.compact_at == 0 {
            return false;
        }
        let ghost dv = self@.dialogue;
        let mut left: usize = self.compact_at;
        let mut i: usize = 0;
        assert(dv.take(0) =~= Seq::empty());
        while i < self.dialogue.len()
            invariant
                i <= self.dialogue@.len(),
                dv == ports::msgs_v(self.dialogue@),
                dv == self@.dialogue,
                self.compact_at != 0,
                left + dialogue_chars(dv.take(i as int)) == self.compact_at,
            decreases self.dialogue@.len() - i,
        {
            let n = self.dialogue[i].content.as_str().unicode_len();
            proof {
                assert(dv.take(i + 1).drop_last() =~= dv.take(i as int));
                assert(dv.take(i + 1).last() == self.dialogue@[i as int]@);
            }
            if n > left {
                proof {
                    lemma_chars_grow(dv, i + 1, dv.len() as int);
                    assert(dv.take(dv.len() as int) =~= dv);
                }
                return true;
            }
            left = left - n;
            i = i + 1;
        }
        assert(dv.take(dv.len() as int) =~= dv);
        false
    }

    /// The request that asks the model to sum up the dialogue, with that tool alone.
    pub fn compact_request(&self, prompt: &str, identity: &str) -> (r: Vec<Msg>)
        requires
            self.seat() matches Some(t) ==> prompt::texts_sound(t.sandbox.texts),
        ensures
            ports::msgs_v(r@) == converse::assembled(
                identity@,
                match self.seat() {
                    Some(t) => engine::block_text(t, seq!["compact"@], false),
                    None => Seq::empty(),
                },
                self@.dialogue,
                seq![ports::plain_msg("user"@, prompt@)],
            ),
    {
        let mut ids: Vec<String> = Vec::new();
        ids.push("compact".to_owned());
        assert(text::texts(ids@) =~= seq!["compact"@]);
        let mut turn: Vec<Msg> = Vec::new();
        turn.push(Msg::user(prompt.to_owned()));
        assert(ports::msgs_v(turn@) =~= seq![ports::plain_msg("user"@, prompt@)]);
        assemble(identity, self.tools.as_ref(), &ids, false, &self.dialogue, &turn)
    }

    /// Sums up the lines before `up_to`: the model sees the summary and what came
    /// after; the user sees the lines as before.
    pub fn compact(&mut self, up_to: u64, summary: &str)
        requires
            old(self)@.wf(),
            old(self)@.dialogue.len() < usize::MAX,
        ensures
            final(self)@ == old(self)@.compacted(up_to, summary@),
            final(self)@.wf(),
            same_session(*old(self), *final(self)),
    {
        let ghost start = self@;
        let keep: usize = if up_to < self.marks.len() as u64 {
            up_to as usize
        } else {
            self.marks.len()
        };
        let hist: usize = if keep == 0 {
            0
        } else {
            self.marks[keep - 1]
        };
        assert(ports::msgs_v(self.dialogue@).len() == self.dialogue@.len());
        let rest = self.dialogue.split_off(hist);
        let mut d: Vec<Msg> = Vec::new();
        d.push(Msg::user(cat2("[此前内容摘要]\n", summary)));
        let ghost dv = d@;
        let mut rest = rest;
        let ghost rv = rest@;
        d.append(&mut rest);
        self.dialogue = d;
        proof {
            assert(ports::msgs_v(dv + rv) =~= ports::msgs_v(dv) + ports::msgs_v(rv));
            assert(ports::msgs_v(dv) =~= seq![ports::plain_msg("user"@, "[此前内容摘要]\n"@ + summary@)]);
            assert(ports::msgs_v(rv) =~= start.dialogue.skip(hist as int));
        }
        let ghost want = start.compacted(up_to, summary@).marks;
        let mut i: usize = 0;
        while i < self.marks.len()
            invariant
                i <= self.marks@.len(),
                self.marks@.len() == start.marks.len(),
                start.wf(),
                hist <= start.dialogue.len() < usize::MAX,
                self@ == (SessV { marks: self.marks@, ..start.compacted(up_to, summary@) }),
                want == start.compacted(up_to, summary@).marks,
                want == start.marks.map_values(
                    |m: usize|
                        if m <= hist {
                            1usize
                        } else {
                            (m - hist + 1) as usize
                        },
                ),
                forall|k: int| 0 <= k < i ==> self.marks@[k] == want[k],
                forall|k: int| i <= k < self.marks@.len() ==> self.marks@[k] == start.marks[k],
                self.same_rest(*old(self)),
            decreases self.marks@.len() - i,
        {
            let m = self.marks[i];
            assert(start.marks[i as int] == m);
            let n: usize = if m <= hist {
                1
            } else {
                m - hist + 1
            };
            self.marks.set(i, n);
            i = i + 1;
        }
        assert(self.marks@ =~= want);
    }

    /// What a text of the user becomes.
    pub closed spec fn rewritten_text(self, text: Seq<char>) -> Seq<char> {
        crate::refs::rewritten(
            text,
            Some(self.id@),
            RefRoots { work: self.params.shared, private: Some(self.params.private) },
            self.refs,
        )
    }

    closed spec fn same_rest(self, o: AgentSession) -> bool {
        same_session(o, self)
    }

    /// Takes what a turn gave that was to sum up the dialogue. Where there is no
    /// summary the user is told, and the dialogue stays whole.
    pub fn take_compaction(&mut self, made: Result<String, String>) -> (r: Vec<SessionEvent>)
        requires
            old(self)@.wf(),
            old(self)@.dialogue.len() < usize::MAX,
        ensures
            match made {
                Ok(s) => final(self)@ == old(self)@.compacted(old(self)@.next_line, s@)
                    && events::events_v(r@) == seq![
                    EventV::Compacted { up_to: old(self)@.next_line, summary: s@ },
                ],
                Err(e) => final(self)@ == old(self)@ && events::events_v(r@) == seq![
                    EventV::Notice("[警告] 自动压缩没成功："@ + e@ + "（继续用完整上下文）"@),
                ],
            },
            final(self)@.wf(),
            same_session(*old(self), *final(self)),
    {
        let mut r: Vec<SessionEvent> = Vec::new();
        match made {
            Ok(s) => {
                let up_to = self.next_line;
                self.compact(up_to, s.as_str());
                let ghost sv = s@;
                r.push(SessionEvent::Compacted { up_to, summary: s });
                assert(events::events_v(r@) =~= seq![EventV::Compacted { up_to, summary: sv }]);
            },
            Err(e) => {
                r.push(
                    SessionEvent::Notice(
                        cat3("[警告] 自动压缩没成功：", e.as_str(), "（继续用完整上下文）"),
                    ),
                );
                assert(events::events_v(r@) =~= seq![
                    EventV::Notice("[警告] 自动压缩没成功："@ + e@ + "（继续用完整上下文）"@),
                ]);
            },
        }
        r
    }

    /// Goes back: the lines from `keep_id` on are gone, with what was said in them
    /// and what was known of files. No reply stays in part.
    pub fn rewind(&mut self, keep_id: u64)
        requires
            old(self)@.wf(),
        ensures
            final(self)@ == old(self)@.rewound(keep_id),
            final(self)@.wf(),
            final(self).name() == old(self).name(),
            final(self).settings() == old(self).settings(),
            final(self).texts() == old(self).texts(),
            final(self).ref_texts() == old(self).ref_texts(),
            final(self).opening() == old(self).opening(),
            match old(self).seat() {
                Some(t) => final(self).seat() is Some && final(self).seat()->0 == (MemberTools {
                    observations: final(self).seat()->0.observations,
                    ..t
                }) && final(self).seat()->0.observations@.len() == 0,
                None => final(self).seat() is None,
            },
    {
        let ghost start = *self;
        match self.tools.take() {
            Some(t) => {
                let mut t = t;
                t.observations.clear();
                self.tools = Some(t);
            },
            None => {},
        }
        let lines = self.line_reply.len();
        let keep = keep_whole_replies(&self.line_reply, to_size(keep_id));
        assert(self.line_reply@.len() == lines);
        proof {
            lemma_keep_all(self.line_reply@, keep_id);
            cuts_keep_replies_whole(self.line_reply@, keep_id as int);
        }
        let ghost was = self@;
        assert(was == start@);
        assert(ports::msgs_v(self.dialogue@).len() == self.dialogue@.len());
        if keep == 0 {
            self.marks.clear();
            self.line_reply.clear();
            self.dialogue.clear();
            self.next_line = 0;
            assert(ports::msgs_v(self.dialogue@) =~= Seq::empty());
            assert(self@ =~= was.rewound(keep_id));
            return;
        }
        let hist = self.marks[keep - 1];
        self.marks.truncate(keep);
        self.line_reply.truncate(keep);
        let ghost dl = self.dialogue@;
        self.dialogue.truncate(hist);
        self.next_line = keep as u64;
        proof {
            assert(ports::msgs_v(self.dialogue@) =~= ports::msgs_v(dl).take(hist as int));
            assert(self.marks@ =~= was.marks.take(keep as int));
            assert(self.line_reply@ =~= was.line_reply.take(keep as int));
            assert(self@ =~= was.rewound(keep_id));
        }
    }

    /// Takes a round: its lines, and its part in the dialogue. One that failed
    /// leaves nothing.
    pub fn take_round(&mut self, round: &Round, stopped: bool) -> (r: Vec<LineView>)
        requires
            old(self)@.next_line + 2 <= u64::MAX,
        ensures
            if round.error is Some {
                final(self)@ == old(self)@ && r@.len() == 0
            } else {
                final(self)@ == old(self)@.booked(round@) && events::line_views(r@) == round_lines(
                    old(self).name(),
                    old(self).texts(),
                    round@,
                    stopped,
                    old(self)@.next_line,
                )
            },
            final(self)@.next_line <= old(self)@.next_line + 2,
            old(self)@.wf() ==> final(self)@.wf(),
            same_session(*old(self), *final(self)),
    {
        let ghost start = *self;
        if round.error.is_some() {
            return Vec::new();
        }
        let id = self.id.clone();
        let lines = build_round_lines(
            id.as_str(),
            &self.tool_texts,
            round,
            stopped,
            self.next_line,
        );
        self.cur_reply = round.reply;
        let has = !is_blank(round.text.as_str()) || !is_blank(round.reasoning.as_str());
        match &round.tool {
            Some(run) => {
                if has {
                    self.mark_line();
                }
                let ghost d0 = self@.dialogue;
                extend_msgs(&mut self.dialogue, &round.text_msgs);
                extend_msgs(&mut self.dialogue, &run.msgs);
                assert(self@.dialogue =~= d0 + ports::msgs_v(round.text_msgs@) + ports::msgs_v(run.msgs@));
                self.mark_line();
            },
            None => {
                extend_msgs(&mut self.dialogue, &round.text_msgs);
                if has {
                    self.mark_line();
                }
            },
        }
        let said = self.dialogue.len();
        proof {
            assert(ports::msgs_v(self.dialogue@).len() == said);
            assert(self@ =~= start@.booked(round@));
            if start@.wf() {
                lemma_booked_wf(start@, round@);
            }
        }
        lines
    }

    fn mark_line(&mut self)
        requires
            old(self)@.next_line < u64::MAX,
        ensures
            final(self)@ == old(self)@.with_line(),
            same_session(*old(self), *final(self)),
    {
        self.next_line = self.next_line + 1;
        self.line_reply.push(self.cur_reply);
        let n = self.dialogue.len();
        self.marks.push(n);
    }

    /// Takes the rounds of a turn, in order, up to the first that failed; then says
    /// why it broke off, and that the user stopped it.
    pub fn rounds_events(&mut self, rounds: &Vec<Round>, stopped: bool) -> (r: Vec<SessionEvent>)
        requires
            old(self)@.next_line + 2 * rounds@.len() <= u64::MAX,
        ensures
            ({
                let v = converse::rounds_v(rounds@);
                let n = sound_rounds(v, 0);
                &&& final(self)@ == after_rounds(old(self)@, v, n)
                &&& events::events_v(r@) == round_events(
                    old(self).name(),
                    old(self).texts(),
                    old(self)@,
                    v,
                    stopped,
                    n,
                ) + closing_events(v, stopped)
            }),
            old(self)@.wf() ==> final(self)@.wf(),
            same_session(*old(self), *final(self)),
    {
        let ghost start = *self;
        let ghost v = converse::rounds_v(rounds@);
        let mut out: Vec<SessionEvent> = Vec::new();
        let mut i: usize = 0;
        assert(events::events_v(out@) =~= Seq::empty());
        while i < rounds.len() && rounds[i].error.is_none()
            invariant
                i <= rounds@.len(),
                v == converse::rounds_v(rounds@),
                start@.next_line + 2 * rounds@.len() <= u64::MAX,
                self@.next_line <= start@.next_line + 2 * i,
                sound_rounds(v, 0) == sound_rounds(v, i as int),
                self@ == after_rounds(start@, v, i as int),
                start@.wf() ==> self@.wf(),
                same_session(start, *self),
                events::events_v(out@) == round_events(
                    start.name(),
                    start.texts(),
                    start@,
                    v,
                    stopped,
                    i as int,
                ),
            decreases rounds@.len() - i,
        {
            assert(v[i as int] == rounds@[i as int]@);
            let lines = self.take_round(&rounds[i], stopped);
            let ghost prev = out@;
            let ghost lv = events::line_views(lines@);
            assert(lv.len() == lines@.len());
            if lines.len() > 0 {
                let e = SessionEvent::Transcript(lines);
                out.push(e);
                assert(events::events_v(out@) =~= events::events_v(prev).push(EventV::Transcript(lv)));
            }
            assert(events::events_v(out@) =~= events::events_v(prev) + transcript_of(lv));
            i = i + 1;
        }
        let ghost head = events::events_v(out@);
        if i < rounds.len() {
            assert(v[i as int] == rounds@[i as int]@);
            match &rounds[i].error {
                Some(e) => {
                    let ghost prev = out@;
                    out.push(SessionEvent::Notice(interrupted_note(e.as_str())));
                    assert(events::events_v(out@) =~= events::events_v(prev).push(
                        EventV::Notice(events::interrupted_text(e@)),
                    ));
                },
                None => {
                    assert(false);
                },
            }
        }
        assert(sound_rounds(v, 0) == i);
        if stopped {
            let ghost prev = out@;
            out.push(SessionEvent::Notice(stopped_note()));
            assert(events::events_v(out@) =~= events::events_v(prev).push(EventV::Notice(events::stopped_text())));
        }
        assert(events::events_v(out@) =~= head + closing_events(v, stopped));
        out
    }
}

proof fn lemma_chars_grow(v: Seq<MsgV>, i: int, j: int)
    requires
        0 <= i <= j <= v.len(),
    ensures
        dialogue_chars(v.take(i)) <= dialogue_chars(v.take(j)),
    decreases j - i,
{
    if i < j {
        assert(v.take(j).drop_last() =~= v.take(j - 1));
        lemma_chars_grow(v, i, j - 1);
    }
}

proof fn lemma_keep_all(line_reply: Seq<u64>, keep: u64)
    requires
        line_reply.len() <= usize::MAX,
    ensures
        whole_replies(line_reply, text::as_size(keep as nat) as int) == whole_replies(
            line_reply,
            keep as int,
        ),
{
}

proof fn lemma_booked_wf(s: SessV, r: RoundV)
    requires
        s.wf(),
        s.next_line + 2 <= u64::MAX,
        s.booked(r).dialogue.len() <= usize::MAX,
    ensures
        s.booked(r).wf(),
{
    let has = converse::has_line(r.text, r.reasoning);
    let s0 = SessV { cur_reply: r.reply, ..s };
    lemma_line_wf(s0);
    match r.tool {
        Some(run) => {
            let s1 = if has {
                s0.with_line()
            } else {
                s0
            };
            let s2 = SessV { dialogue: s1.dialogue + r.text_msgs + run.msgs, ..s1 };
            assert(s2.wf());
            lemma_line_wf(s2);
        },
        None => {
            let s1 = SessV { dialogue: s0.dialogue + r.text_msgs, ..s0 };
            assert(s1.wf());
            lemma_line_wf(s1);
        },
    }
}

proof fn lemma_line_wf(s: SessV)
    requires
        s.wf(),
        s.next_line < u64::MAX,
    ensures
        s.with_line().wf(),
{
}

/// Going back to where the user spoke undoes it: what was said, and the lines, are
/// as before. The line must not carry the number of the reply before it.
pub proof fn going_back_undoes_a_message(s: SessV, m: MsgV)
    requires
        s.wf(),
        s.next_line < u64::MAX,
        s.next_line > 0 ==> s.marks.last() == s.dialogue.len() && s.line_reply.last()
            != s.next_line,
        s.next_line == 0 ==> s.dialogue.len() == 0,
    ensures
        ({
            let back = s.told(m).rewound(s.next_line);
            &&& back.dialogue == s.dialogue
            &&& back.marks == s.marks
            &&& back.line_reply == s.line_reply
            &&& back.next_line == s.next_line
        }),
{
    let t = s.told(m);
    let n = s.next_line as int;
    if n == 0 {
        assert(s.dialogue =~= Seq::empty());
        assert(s.marks =~= Seq::empty());
        assert(s.line_reply =~= Seq::empty());
    } else {
        assert(t.line_reply[n] == s.next_line);
        assert(t.line_reply[n - 1] == s.line_reply[n - 1]);
        assert(whole_replies(t.line_reply, n) == n);
        assert(t.marks[n - 1] == s.marks[n - 1]);
        assert(t.dialogue.take(s.dialogue.len() as int) =~= s.dialogue);
        assert(t.marks.take(n) =~= s.marks);
        assert(t.line_reply.take(n) =~= s.line_reply);
    }
}

/// Going back twice is going back once, to the earlier place.
pub proof fn going_back_twice(s: SessV, a: u64, b: u64)
    requires
        s.wf(),
        b <= a,
    ensures
        s.rewound(a).rewound(b) == s.rewound(b),
{
    cuts_keep_replies_whole(s.line_reply, a as int);
    cuts_keep_replies_whole(s.line_reply, b as int);
    let ka = whole_replies(s.line_reply, a as int);
    let kb = whole_replies(s.line_reply, b as int);
    let t = s.rewound(a);
    if ka == 0 {
        if kb > 0 {
            assert(kb <= b <= a);
            if 0 < a < s.line_reply.len() {
                cuts_lose_one_reply(s.line_reply, a as int, kb - 1);
                cuts_lose_one_reply(s.line_reply, a as int, 0);
                if kb < a {
                    cuts_lose_one_reply(s.line_reply, a as int, kb);
                }
            }
        }
        assert(kb == 0);
        assert(t.rewound(b) =~= s.rewound(b));
    } else {
        assert(t.line_reply =~= s.line_reply.take(ka));
        if b >= ka {
            if b < s.line_reply.len() && b > 0 {
                if ka < a && a < s.line_reply.len() {
                    lemma_same_cut(s.line_reply, a as int, b as int);
                }
            }
            assert(kb == ka);
            assert(whole_replies(t.line_reply, b as int) == ka);
            assert(t.rewound(b) =~= t);
        } else {
            lemma_start_of_take(s.line_reply, ka, b as int);
            assert(whole_replies(t.line_reply, b as int) == kb);
            if kb > 0 {
                assert(t.marks.take(kb) =~= s.marks.take(kb));
                assert(t.line_reply.take(kb) =~= s.line_reply.take(kb));
                assert(t.dialogue.take(s.marks[kb - 1] as int) =~= s.dialogue.take(
                    s.marks[kb - 1] as int,
                ));
            }
            assert(t.rewound(b) =~= s.rewound(b));
        }
    }
}

proof fn lemma_same_cut(v: Seq<u64>, a: int, b: int)
    requires
        0 < a < v.len(),
        whole_replies(v, a) <= b <= a,
        0 < b,
    ensures
        whole_replies(v, b) == whole_replies(v, a),
{
    if b < a {
        cuts_lose_one_reply(v, a, b);
        lemma_start_down(v, v[a], a, b);
    }
}

proof fn lemma_start_down(v: Seq<u64>, losing: u64, a: int, b: int)
    requires
        0 <= b <= a <= v.len(),
        reply_start(v, losing, a) <= b,
    ensures
        reply_start(v, losing, a) == reply_start(v, losing, b),
    decreases a,
{
    if b < a {
        lemma_start_down(v, losing, a - 1, b);
    }
}

proof fn lemma_start_of_take(v: Seq<u64>, n: int, k: int)
    requires
        0 <= k < n <= v.len(),
    ensures
        reply_start(v.take(n), v[k], k) == reply_start(v, v[k], k),
{
    lemma_start_prefix(v, v[k], n, k);
}

proof fn lemma_start_prefix(v: Seq<u64>, losing: u64, n: int, k: int)
    requires
        0 <= k <= n <= v.len(),
    ensures
        reply_start(v.take(n), losing, k) == reply_start(v, losing, k),
    decreases k,
{
    if k > 0 {
        lemma_start_prefix(v, losing, n, k - 1);
    }
}

/// A turn can be taken as it comes: taking some of its rounds and then the others
/// leaves the session, and shows the lines, that taking all of them at once does.
pub proof fn rounds_can_be_taken_in_parts(
    id: Seq<char>,
    t: ToolTexts,
    s: SessV,
    a: Seq<RoundV>,
    b: Seq<RoundV>,
    stopped: bool,
    n: int,
)
    requires
        0 <= n <= b.len(),
    ensures
        ({
            let half = after_rounds(s, a, a.len() as int);
            &&& after_rounds(s, a + b, a.len() + n) == after_rounds(half, b, n)
            &&& round_events(id, t, s, a + b, stopped, a.len() + n) == round_events(
                id,
                t,
                s,
                a,
                stopped,
                a.len() as int,
            ) + round_events(id, t, half, b, stopped, n)
        }),
    decreases n,
{
    if n > 0 {
        rounds_can_be_taken_in_parts(id, t, s, a, b, stopped, n - 1);
        assert((a + b)[a.len() + n - 1] == b[n - 1]);
        let half = after_rounds(s, a, a.len() as int);
        assert(round_events(id, t, s, a + b, stopped, a.len() + n) =~= round_events(
            id,
            t,
            s,
            a,
            stopped,
            a.len() as int,
        ) + round_events(id, t, half, b, stopped, n));
    } else {
        lemma_first_rounds(id, t, s, a, b, stopped, a.len() as int);
        assert(round_events(id, t, s, a, stopped, a.len() as int) + Seq::<EventV>::empty()
            =~= round_events(id, t, s, a, stopped, a.len() as int));
    }
}

proof fn lemma_first_rounds(
    id: Seq<char>,
    t: ToolTexts,
    s: SessV,
    a: Seq<RoundV>,
    b: Seq<RoundV>,
    stopped: bool,
    n: int,
)
    requires
        0 <= n <= a.len(),
    ensures
        after_rounds(s, a + b, n) == after_rounds(s, a, n),
        round_events(id, t, s, a + b, stopped, n) == round_events(id, t, s, a, stopped, n),
    decreases n,
{
    if n > 0 {
        lemma_first_rounds(id, t, s, a, b, stopped, n - 1);
        assert((a + b)[n - 1] == a[n - 1]);
    }
}

// ---- a turn in a discussion ----

pub open spec fn disc_v(v: Seq<DiscLine>) -> Seq<(Seq<char>, Option<CallV>)> {
    v.map_values(|l: DiscLine| (l.text@, events::opt_call(l.tool)))
}

/// The lines of the calls among the first `n` rounds.
pub open spec fn call_lines(v: Seq<RoundV>, n: int) -> Seq<(Seq<char>, Option<CallV>)>
    decreases n,
{
    if n <= 0 {
        Seq::empty()
    } else {
        match v[n - 1].tool {
            Some(t) => call_lines(v, n - 1).push((t.view.label(), Some(t.view))),
            None => call_lines(v, n - 1),
        }
    }
}

/// The lines of the calls of a turn, in order.
pub fn tool_lines(rounds: &Vec<Round>) -> (r: Vec<DiscLine>)
    ensures
        disc_v(r@) == call_lines(converse::rounds_v(rounds@), rounds@.len() as int),
        r@.len() <= rounds@.len(),
{
    let ghost rv = converse::rounds_v(rounds@);
    let mut out: Vec<DiscLine> = Vec::new();
    let mut i: usize = 0;
    assert(disc_v(out@) =~= Seq::empty());
    while i < rounds.len()
        invariant
            i <= rounds@.len(),
            rv == converse::rounds_v(rounds@),
            disc_v(out@) == call_lines(rv, i as int),
            out@.len() <= i,
        decreases rounds@.len() - i,
    {
        assert(rv[i as int] == rounds@[i as int]@);
        match &rounds[i].tool {
            Some(t) => {
                let ghost prev = out@;
                let l = DiscLine { text: t.view.label(), tool: Some(t.view.copy()) };
                out.push(l);
                assert(disc_v(out@) =~= disc_v(prev).push((l.text@, events::opt_call(l.tool))));
            },
            None => {},
        }
        i = i + 1;
    }
    out
}

/// A reply as it comes: its text so far, and the thought so far.
#[derive(Debug)]
pub struct Incoming {
    pub acc: String,
    pub thought: String,
}

/// What a piece makes of the text and the thought so far.
pub open spec fn gathered(acc: Seq<char>, thought: Seq<char>, c: Chunk) -> (Seq<char>, Seq<char>) {
    match c {
        Chunk::Start => (Seq::empty(), Seq::empty()),
        Chunk::Text(t) => (acc + t@, thought),
        Chunk::Reasoning(t) => (acc, thought + t@),
    }
}

/// What is shown of a piece: every piece is told, those of which nothing may be shown
/// as empty ones.
pub open spec fn piece_event(acc: Seq<char>, c: Chunk, speaker: Seq<char>) -> EventV {
    match c {
        Chunk::Start => EventV::Delta { speaker, kind: "start"@, text: Seq::empty() },
        Chunk::Text(t) => EventV::Delta {
            speaker,
            kind: "text"@,
            text: if text::index_of_char(acc, '{') < acc.len() {
                Seq::empty()
            } else {
                showable(t@)
            },
        },
        Chunk::Reasoning(t) => EventV::Delta { speaker, kind: "reasoning"@, text: t@ },
    }
}

impl Incoming {
    pub fn new() -> (r: Incoming)
        ensures
            r.acc@.len() == 0,
            r.thought@.len() == 0,
    {
        Incoming { acc: String::new(), thought: String::new() }
    }

    /// Takes the next piece.
    pub fn take(&mut self, c: Chunk, speaker: &str) -> (r: SessionEvent)
        ensures
            (final(self).acc@, final(self).thought@) == gathered(old(self).acc@, old(self).thought@, c),
            r@ == piece_event(old(self).acc@, c, speaker@),
    {
        let who = speaker.to_owned();
        match c {
            Chunk::Start => {
                self.acc = String::new();
                self.thought = String::new();
                SessionEvent::Delta { speaker: who, kind: "start".to_owned(), text: String::new() }
            },
            Chunk::Text(t) => {
                let (send, next) = stream_piece(self.acc.as_str(), t.as_str());
                self.acc = next;
                SessionEvent::Delta { speaker: who, kind: "text".to_owned(), text: send }
            },
            Chunk::Reasoning(t) => {
                self.thought = cat2(self.thought.as_str(), t.as_str());
                SessionEvent::Delta { speaker: who, kind: "reasoning".to_owned(), text: t }
            },
        }
    }
}

/// What the user says is the last of the dialogue, and its line begins a reply of its
/// own, numbered like the line.
pub proof fn what_is_told_comes_last(s: SessV, m: MsgV)
    requires
        s.wf(),
        s.next_line < u64::MAX,
        s.dialogue.len() < usize::MAX,
    ensures
        s.told(m).wf(),
        s.told(m).dialogue.len() == s.dialogue.len() + 1,
        s.told(m).dialogue.last() == m,
        s.told(m).dialogue.drop_last() == s.dialogue,
        s.told(m).next_line == s.next_line + 1,
        s.told(m).line_reply.last() == s.next_line,
        s.told(m).line_reply.drop_last() == s.line_reply,
        s.told(m).marks.last() == s.told(m).dialogue.len(),
        s.told(m).cur_turn == s.cur_turn,
        s.told(m).compact_at == s.compact_at,
{
    let n = s.told(m);
    assert(n.dialogue.drop_last() =~= s.dialogue);
    assert(n.line_reply.drop_last() =~= s.line_reply);
}

/// A round is kept as it came: what was said stands behind what there was, and what a
/// tool answered behind that; it makes a line where something was said and one where a
/// tool ran, and these belong to its reply.
pub proof fn rounds_are_kept_in_order(s: SessV, r: RoundV)
    requires
        s.wf(),
        s.next_line + 2 <= u64::MAX,
    ensures
        ({
            let n = s.booked(r);
            let spoke = text::trimmed(r.text).len() > 0 || text::trimmed(r.reasoning).len() > 0;
            let lines = (if spoke {
                1int
            } else {
                0
            }) + (if r.tool is Some {
                1int
            } else {
                0
            });
            &&& n.dialogue == s.dialogue + r.text_msgs + (if r.tool is Some {
                (r.tool->0).msgs
            } else {
                Seq::empty()
            })
            &&& n.next_line == s.next_line + lines
            &&& n.line_reply.len() == s.line_reply.len() + lines
            &&& n.marks.len() == s.marks.len() + lines
            &&& forall|i: int| 0 <= i < s.line_reply.len() ==> #[trigger] n.line_reply[i] == s.line_reply[i]
            &&& forall|i: int| 0 <= i < s.marks.len() ==> #[trigger] n.marks[i] == s.marks[i]
            &&& forall|i: int|
                s.line_reply.len() <= i < n.line_reply.len() ==> #[trigger] n.line_reply[i] == r.reply
            &&& n.cur_reply == r.reply
            &&& n.cur_turn == s.cur_turn && n.compact_at == s.compact_at
        }),
{
    let n = s.booked(r);
    assert(n.dialogue =~= s.dialogue + r.text_msgs + (if r.tool is Some {
        (r.tool->0).msgs
    } else {
        Seq::empty()
    }));
}

/// A summary takes the place of what lies before a line, and all behind it stays: each
/// later line still points behind the message it pointed behind.
pub proof fn summaries_replace_the_beginning(s: SessV, up_to: u64, summary: Seq<char>, i: int)
    requires
        s.wf(),
        0 < up_to <= s.marks.len(),
        s.dialogue.len() < usize::MAX,
        0 <= i < s.marks.len(),
    ensures
        ({
            let n = s.compacted(up_to, summary);
            let hist = s.marks[up_to - 1] as int;
            &&& n.dialogue.len() == s.dialogue.len() - hist + 1
            &&& n.dialogue[0].role == "user"@ && n.dialogue[0].content == "[此前内容摘要]\n"@ + summary
            &&& forall|k: int|
                hist <= k < s.dialogue.len() ==> n.dialogue[k - hist + 1] == #[trigger] s.dialogue[k]
            &&& n.next_line == s.next_line && n.line_reply == s.line_reply && n.marks.len() == s.marks.len()
            &&& s.marks[i] > hist ==> n.dialogue[n.marks[i] - 1] == s.dialogue[s.marks[i] - 1]
            &&& s.marks[i] <= hist ==> n.marks[i] == 1
        }),
{
}

/// The lines of a round are numbered one by one and belong to its reply: the first says
/// what was said, behind the name, the other names the tool and how it went.
pub proof fn rounds_are_told_in_lines(id: Seq<char>, t: ToolTexts, r: RoundV, n: u64)
    requires
        n + 2 <= u64::MAX,
        text::trimmed(r.text).len() > 0,
        r.tool is Some,
        !ports::cut_short(r.finish),
    ensures
        ({
            let v = round_lines(id, t, r, false, n);
            &&& v.len() == 2
            &&& v[0].id == n && v[1].id == n + 1
            &&& v[0].reply == r.reply && v[1].reply == r.reply
            &&& v[0].line == "["@ + id + "] "@ + text::trimmed(r.text)
            &&& v[0].tool is None && v[1].tool == Some((r.tool->0).view)
            &&& v[1].line == "["@ + id + "] 工具 "@ + (r.tool->0).view.label() + " → "@ + (if (
            r.tool->0).view.ok {
                "成功"@
            } else {
                "失败"@
            })
            &&& text::trimmed(r.reasoning).len() > 0 ==> v[0].reasoning == Some(r.reasoning)
            &&& text::trimmed(r.reasoning).len() == 0 ==> v[0].reasoning is None
        }),
{
    reveal_strlit("]");
    reveal_strlit(" ");
    reveal_strlit("] ");
    let v = round_lines(id, t, r, false, n);
    assert(v[0].line =~= "["@ + id + "] "@ + text::trimmed(r.text));
}

/// Rounds count up to the first that broke off, and the user hears why it did.
pub proof fn breaks_are_told(v: Seq<RoundV>, stopped: bool, k: int)
    ensures
        0 <= k < v.len() && v[k].error is Some && (forall|j: int|
            0 <= j < k ==> (#[trigger] v[j]).error is None) ==> sound_rounds(v, 0) == k && closing_events(
            v,
            stopped,
        ).contains(EventV::Notice(events::interrupted_text(v[k].error->0))),
        (forall|j: int| 0 <= j < v.len() ==> (#[trigger] v[j]).error is None) ==> sound_rounds(v, 0) == v.len()
            && (stopped ==> closing_events(v, stopped) == seq![EventV::Notice(events::stopped_text())]) && (
        !stopped ==> closing_events(v, stopped).len() == 0),
{
    if 0 <= k < v.len() && v[k].error is Some && (forall|j: int|
        0 <= j < k ==> (#[trigger] v[j]).error is None) {
        lemma_sound_up_to(v, 0, k);
        assert(closing_events(v, stopped)[0] == EventV::Notice(events::interrupted_text(v[k].error->0)));
    }
    if forall|j: int| 0 <= j < v.len() ==> (#[trigger] v[j]).error is None {
        lemma_sound_up_to(v, 0, v.len() as int);
        assert(stopped ==> closing_events(v, stopped) =~= seq![EventV::Notice(events::stopped_text())]);
    }
}

proof fn lemma_sound_up_to(v: Seq<RoundV>, i: int, k: int)
    requires
        0 <= i <= k <= v.len(),
        k < v.len() ==> v[k].error is Some,
        forall|j: int| 0 <= j < k ==> (#[trigger] v[j]).error is None,
    ensures
        sound_rounds(v, i) == k,
    decreases k - i,
{
    if i < k {
        lemma_sound_up_to(v, i + 1, k);
    }
}

/// A turn of a discussion is noted between two lines, one that numbers it and one with
/// the stand and the words; the lines are numbered one by one and are all of that turn.
pub proof fn turns_are_noted_whole(
    s: SessV,
    id: Seq<char>,
    round: usize,
    turn_id: u64,
    verb: Seq<char>,
    text: Seq<char>,
    tools: Seq<DiscLine>,
    k: int,
)
    requires
        s.wf(),
        s.next_line + tools.len() + 2 <= u64::MAX,
    ensures
        ({
            let a = turn_noted(s, id, round, turn_id, verb, text, tools);
            &&& a.1.len() == tools.len() + 2
            &&& a.0.next_line == s.next_line + tools.len() + 2
            &&& a.0.dialogue == s.dialogue
            &&& a.0.cur_turn == 0
            &&& a.1.last().line == "["@ + id + ":"@ + verb + "] "@ + text
            &&& a.1[0].line == turn_line(turn_id, round)
            &&& 0 <= k < a.1.len() ==> a.1[k].id == s.next_line + k && a.1[k].turn == turn_id && a.1[k].reply
                == s.cur_reply
            &&& 0 < k <= tools.len() ==> a.1[k].line == tools[k - 1].text@ && a.1[k].tool == events::opt_call(
                tools[k - 1].tool,
            )
        }),
{
    let s0 = SessV { cur_turn: turn_id, ..s };
    lemma_noted(s0.with_line(), tools, tools.len() as int, k - 1);
}

proof fn lemma_noted(s: SessV, v: Seq<DiscLine>, n: int, k: int)
    requires
        0 <= n <= v.len(),
        s.next_line + n <= u64::MAX,
    ensures
        disc_lines(s, v, n).1.len() == n,
        disc_lines(s, v, n).0.next_line == s.next_line + n,
        disc_lines(s, v, n).0.dialogue == s.dialogue,
        disc_lines(s, v, n).0.cur_turn == s.cur_turn,
        disc_lines(s, v, n).0.cur_reply == s.cur_reply,
        0 <= k < n ==> ({
            let l = disc_lines(s, v, n).1[k];
            l.id == s.next_line + k && l.turn == s.cur_turn && l.reply == s.cur_reply && l.line == v[k].text@
                && l.tool == events::opt_call(v[k].tool)
        }),
    decreases n,
{
    if n > 0 {
        lemma_noted(s, v, n - 1, k);
    }
}

/// What a model sends piece by piece adds up to the whole: its words in their order, its
/// thoughts in theirs, and a new start drops both.
pub proof fn pieces_add_up(acc: Seq<char>, thoughts: Seq<char>, c: Chunk)
    ensures
        c matches Chunk::Text(t) ==> gathered(acc, thoughts, c).0 == acc + t@ && gathered(acc, thoughts, c).1
            == thoughts,
        c matches Chunk::Reasoning(t) ==> gathered(acc, thoughts, c).0 == acc && gathered(acc, thoughts, c).1
            == thoughts + t@,
        c is Start ==> gathered(acc, thoughts, c).0.len() == 0 && gathered(acc, thoughts, c).1.len() == 0,
{
}

/// A summary is what the model gave when it was asked for one: it must have called for
/// it first of all, with a text that is not blank.
pub proof fn summaries_are_what_was_given(done: Completion, v: JsonV)
    ensures
        done.error matches Some(e) ==> summary_of(done) == Err::<Seq<char>, Seq<char>>(e@),
        done.error is None && done.calls@.len() > 0 && done.calls@[0].name@ != "compact"@ ==> summary_of(done)
            is Err,
        done.error is None && done.calls@.len() == 0 && turn::said_by(done.raw@).tool is None ==> summary_of(done)
            is Err,
        done.error is None && done.calls@.len() > 0 && done.calls@[0].name@ == "compact"@ && json::json_of(
            done.calls@[0].args_json@,
        ) == Ok::<JsonV, Seq<char>>(v) && text::trimmed(v.text_or_empty("summary"@)).len() > 0 ==> summary_of(done)
            == Ok::<Seq<char>, Seq<char>>(v.text_or_empty("summary"@)),
        summary_of(done) matches Ok(s) ==> text::trimmed(s).len() > 0,
{
    let calls = ports::tool_calls_v(done.calls@);
    assert(calls.len() == done.calls@.len());
    if calls.len() > 0 {
        assert(calls[0].name == done.calls@[0].name@);
        assert(calls[0].args_json == done.calls@[0].args_json@);
    }
}

/// The size of a dialogue is that of its parts.
pub proof fn dialogues_add_up(a: Seq<MsgV>, b: Seq<MsgV>)
    ensures
        dialogue_chars(a + b) == dialogue_chars(a) + dialogue_chars(b),
    decreases b.len(),
{
    if b.len() > 0 {
        assert((a + b).drop_last() =~= a + b.drop_last());
        dialogues_add_up(a, b.drop_last());
    } else {
        assert(a + b =~= a);
    }
}

/// What is shown of a piece is of the one who speaks: thoughts as they are, words up to
/// where a call begins, and nothing once it has.
pub proof fn pieces_are_shown_as_they_come(acc: Seq<char>, c: Chunk, who: Seq<char>)
    ensures
        piece_event(acc, c, who) matches EventV::Delta { speaker, kind, text: shown } && {
            &&& speaker == who
            &&& c is Start ==> kind == "start"@ && shown.len() == 0
            &&& c matches Chunk::Reasoning(t) ==> kind == "reasoning"@ && shown == t@
            &&& c matches Chunk::Text(t) ==> kind == "text"@ && (acc.contains('{') ==> shown.len() == 0) && (
            !acc.contains('{') && !t@.contains('{') ==> shown == t@) && !shown.contains('{')
        },
{
    text::lemma_index_of_char(acc, '{');
    if text::index_of_char(acc, '{') < acc.len() {
        assert(acc.contains('{'));
    }
    match c {
        Chunk::Text(t) => {
            text::lemma_index_of_char(t@, '{');
            pieces_show_what_may_be_shown(t@, Seq::empty());
            let i = text::index_of_char(t@, '{');
            if i < t@.len() {
                assert(t@[i] == '{');
            } else {
                assert(t@.take(i) =~= t@);
            }
        },
        _ => {},
    }
}

} // verus!
