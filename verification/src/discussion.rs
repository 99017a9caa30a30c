//! The discussion of a team: who is asked next, what becomes of an answer, and when
//! it is over. It never calls a model itself; whoever drives it does.
use crate::chain::{self, NodeStatus, NodeV, TaskChain, TaskNode};
use crate::converse::{self, Round, RoundV, verb_tag};
use crate::envelope::Verb;
use crate::events::{self, LineV, LineView, Pending, render_lines};
use crate::ports::{self, Msg, MsgV};
use crate::prompt::{self, Prompts, fill0, fill1, fill2};
use crate::providers::ToolMode;
use crate::session::{self, SessionParams, text_when};
use crate::table::{self, Table};
use crate::text::{self, cat3, clone_strings, join, push_when};
use vstd::prelude::*;

verus! {

/// How many rounds a discussion may have.
pub const MAX_ROUNDS: usize = 6;

/// How often a member is reminded in a round.
pub const MAX_DISCUSS_REMIND: u32 = 3;

/// What is done after a member's turn.
#[derive(Debug, Clone, Copy, PartialEq, Eq, Structural)]
pub enum AfterTurn {
    /// It took a stand: go on.
    Done,
    /// It took none, and may be reminded: it is asked again.
    Remind,
    /// It took none and was reminded often enough: it is passed over.
    Unanswered,
}

/// A member of a discussion.
#[derive(Debug)]
pub struct Member {
    pub id: String,
    pub params: SessionParams,
    pub mode: ToolMode,
    pub present: bool,
    pub agreed: bool,
}

#[verifier::ext_equal]
pub struct MemberV {
    pub id: Seq<char>,
    pub params: SessionParams,
    pub mode: ToolMode,
    pub present: bool,
    pub agreed: bool,
}

impl MemberV {
    /// Who the member is, as its model is told.
    pub open spec fn identity(self, p: Prompts) -> Seq<char> {
        self.params.identity_text(p, self.mode)
    }
}

impl View for Member {
    type V = MemberV;

    open spec fn view(&self) -> MemberV {
        MemberV {
            id: self.id@,
            params: self.params,
            mode: self.mode,
            present: self.present,
            agreed: self.agreed,
        }
    }
}

pub open spec fn members_v(v: Seq<Member>) -> Seq<MemberV> {
    v.map_values(|m: Member| m@)
}

impl Member {
    /// A member that is there and has not agreed.
    pub fn plain(id: &str, params: SessionParams, mode: ToolMode) -> (r: Member)
        ensures
            r@ == (MemberV { id: id@, params, mode, present: true, agreed: false }),
    {
        Member { id: id.to_owned(), params, mode, present: true, agreed: false }
    }
}

/// What a step of a discussion comes to.
#[derive(Debug)]
pub enum TurnOut {
    /// A round is over.
    Round,
    /// A call failed: the round is broken off, and nothing is taken for an answer.
    Interrupted(String),
    /// The user stopped it.
    Stopped,
    /// A member asks the user.
    AskUser { member: String, question: String },
    /// The discussion is over.
    Done,
}

#[verifier::ext_equal]
pub enum TurnOutV {
    Round,
    Interrupted(Seq<char>),
    Stopped,
    AskUser { member: Seq<char>, question: Seq<char> },
    Done,
}

impl View for TurnOut {
    type V = TurnOutV;

    open spec fn view(&self) -> TurnOutV {
        match *self {
            TurnOut::Round => TurnOutV::Round,
            TurnOut::Interrupted(s) => TurnOutV::Interrupted(s@),
            TurnOut::Stopped => TurnOutV::Stopped,
            TurnOut::AskUser { member, question } => TurnOutV::AskUser {
                member: member@,
                question: question@,
            },
            TurnOut::Done => TurnOutV::Done,
        }
    }
}

/// Where a discussion is.
#[derive(Debug, Clone, Copy, PartialEq, Eq, Structural)]
pub enum Cursor {
    /// The opening: this member is next.
    Opener(usize),
    /// A round is about to begin.
    Fresh,
    /// In a round: this member is next.
    At(usize),
}

/// A discussion.
#[derive(Debug)]
pub struct Discussion {
    pub members: Vec<Member>,
    pub transcript: Vec<LineView>,
    pub round: usize,
    /// What the user answered, first come first.
    pub pending_user_answers: Vec<String>,
    pub closed: bool,
    /// Whether the team decides for itself where it would ask the user.
    pub allow_autonomy: bool,
    pub protocol: String,
    /// How often each member was reminded in this round.
    pub reminded: Table<u32>,
    pub remind_round: usize,
    pub opener: String,
    pub cursor: Cursor,
    /// How many lines were handed out.
    pub handed: usize,
}

#[verifier::ext_equal]
pub struct DiscV {
    pub members: Seq<MemberV>,
    pub transcript: Seq<LineV>,
    pub round: usize,
    pub answers: Seq<Seq<char>>,
    pub closed: bool,
    pub autonomy: bool,
    pub protocol: Seq<char>,
    pub reminded: Seq<(Seq<char>, u32)>,
    pub remind_round: usize,
    pub opener: Seq<char>,
    pub cursor: Cursor,
    pub handed: usize,
}

impl View for Discussion {
    type V = DiscV;

    open spec fn view(&self) -> DiscV {
        DiscV {
            members: members_v(self.members@),
            transcript: events::line_views(self.transcript@),
            round: self.round,
            answers: text::texts(self.pending_user_answers@),
            closed: self.closed,
            autonomy: self.allow_autonomy,
            protocol: self.protocol@,
            reminded: self.reminded@,
            remind_round: self.remind_round,
            opener: self.opener@,
            cursor: self.cursor,
            handed: self.handed,
        }
    }
}

/// What is next in a discussion.
#[derive(Debug)]
pub enum Adv {
    /// Ask this member: who it is, and what the turn asks.
    Ask { i: usize, identity: String, turn: Vec<Msg> },
    /// Everybody was asked for the opening.
    Opened,
    Out(TurnOut),
}

#[verifier::ext_equal]
pub enum AdvV {
    Ask { i: usize, identity: Seq<char>, turn: Seq<MsgV> },
    Opened,
    Out(TurnOutV),
}

impl View for Adv {
    type V = AdvV;

    open spec fn view(&self) -> AdvV {
        match *self {
            Adv::Ask { i, identity, turn } => AdvV::Ask {
                i,
                identity: identity@,
                turn: ports::msgs_v(turn@),
            },
            Adv::Opened => AdvV::Opened,
            Adv::Out(o) => AdvV::Out(o@),
        }
    }
}

/// What a member's turn came to.
#[derive(Debug)]
pub struct MemberTurn {
    /// The stand it took, none where it took none.
    pub verb: Option<Verb>,
    pub text: String,
    pub degraded: bool,
    pub truncated: bool,
}

#[verifier::ext_equal]
pub struct MemberTurnV {
    pub verb: Option<Verb>,
    pub text: Seq<char>,
    pub degraded: bool,
    pub truncated: bool,
}

impl View for MemberTurn {
    type V = MemberTurnV;

    open spec fn view(&self) -> MemberTurnV {
        MemberTurnV {
            verb: self.verb,
            text: self.text@,
            degraded: self.degraded,
            truncated: self.truncated,
        }
    }
}

impl MemberTurn {
    pub fn verdict(verb: Option<Verb>, text: String, degraded: bool, truncated: bool) -> (r:
        MemberTurn)
        ensures
            r@ == (MemberTurnV { verb, text: text@, degraded, truncated }),
    {
        MemberTurn { verb, text, degraded, truncated }
    }
}

/// What the rounds of a member's turn come to: the last one decides.
pub open spec fn turn_of(v: Seq<RoundV>, cancelled: bool) -> Result<MemberTurnV, Seq<char>> {
    if cancelled || v.len() == 0 {
        Err("已停止"@)
    } else {
        let last = v.last();
        match last.error {
            Some(e) => Err(e),
            None => Ok(
                MemberTurnV {
                    verb: last.verb,
                    text: last.text,
                    degraded: last.degraded,
                    truncated: ports::cut_short(last.finish),
                },
            ),
        }
    }
}

/// Takes a member's turn out of its rounds.
pub fn turn_with(rounds: &Vec<Round>, cancelled: bool) -> (r: Result<MemberTurn, String>)
    ensures
        match r {
            Ok(t) => turn_of(converse::rounds_v(rounds@), cancelled) == Ok::<_, Seq<char>>(t@),
            Err(e) => turn_of(converse::rounds_v(rounds@), cancelled) == Err::<MemberTurnV, _>(e@),
        },
{
    assert(converse::rounds_v(rounds@).len() == rounds@.len());
    if cancelled || rounds.len() == 0 {
        return Err("已停止".to_owned());
    }
    let last = &rounds[rounds.len() - 1];
    assert(converse::rounds_v(rounds@).last() == last@);
    match &last.error {
        Some(e) => Err(e.clone()),
        None => Ok(
            MemberTurn::verdict(last.verb, last.text.clone(), last.degraded, last.truncated()),
        ),
    }
}

/// The first member from `i` on that is there and has not agreed; how many there
/// are where there is none.
pub open spec fn next_to_ask(v: Seq<MemberV>, i: int) -> int
    decreases v.len() - i,
{
    if i < 0 || i >= v.len() || (v[i].present && !v[i].agreed) {
        i
    } else {
        next_to_ask(v, i + 1)
    }
}

/// Whether all members that are there agreed.
pub open spec fn all_agreed(v: Seq<MemberV>) -> bool {
    forall|k: int| 0 <= k < v.len() && (#[trigger] v[k]).present ==> v[k].agreed
}

/// With the round's mark, and the first answer of the user behind it.
pub open spec fn begun(d: DiscV) -> DiscV {
    let marked = d.transcript.push(events::round_line((d.round + 1) as nat));
    if d.answers.len() > 0 {
        DiscV {
            handed: d.transcript.len() as usize,
            transcript: marked.push(events::user_line(Seq::empty(), d.answers[0])),
            answers: d.answers.skip(1),
            cursor: Cursor::At(0),
            ..d
        }
    } else {
        DiscV {
            handed: d.transcript.len() as usize,
            transcript: marked,
            cursor: Cursor::At(0),
            ..d
        }
    }
}

pub open spec fn place(c: Cursor) -> usize {
    match c {
        Cursor::At(i) => i,
        Cursor::Opener(i) => i,
        Cursor::Fresh => 0,
    }
}

/// What a member is asked in a round.
pub open spec fn step_prompt(p: Prompts, transcript: Seq<LineV>) -> Seq<char> {
    prompt::filled(
        p.core.discuss.step@,
        seq![("transcript"@, text::joined(events::line_texts(transcript), "\n"@))],
    )
}

/// The end of a round: the discussion is over where all agreed, or where it went on
/// long enough.
pub open spec fn round_over(d: DiscV) -> (DiscV, AdvV) {
    let next = DiscV { round: (d.round + 1) as usize, cursor: Cursor::Fresh, ..d };
    if all_agreed(d.members) || next.round > MAX_ROUNDS {
        (DiscV { closed: true, reminded: Seq::empty(), ..next }, AdvV::Out(TurnOutV::Done))
    } else {
        (next, AdvV::Out(TurnOutV::Round))
    }
}

/// The next step in a round.
pub open spec fn in_round(p: Prompts, d: DiscV) -> (DiscV, AdvV) {
    let i = next_to_ask(d.members, place(d.cursor) as int);
    if i >= d.members.len() {
        round_over(d)
    } else {
        (
            DiscV { cursor: Cursor::At(i as usize), ..d },
            AdvV::Ask {
                i: i as usize,
                identity: d.members[i].identity(p),
                turn: seq![ports::plain_msg("user"@, step_prompt(p, d.transcript))],
            },
        )
    }
}

/// The next step of a discussion.
pub open spec fn advanced(p: Prompts, d: DiscV, cancelled: bool) -> (DiscV, AdvV) {
    if d.closed {
        (d, AdvV::Out(TurnOutV::Done))
    } else if cancelled {
        (d, AdvV::Out(TurnOutV::Stopped))
    } else {
        match d.cursor {
            Cursor::Opener(i) => if i >= d.members.len() {
                (DiscV { round: 1, cursor: Cursor::Fresh, ..d }, AdvV::Opened)
            } else {
                (
                    d,
                    AdvV::Ask {
                        i,
                        identity: d.members[i as int].identity(p),
                        turn: seq![ports::plain_msg("user"@, d.opener)],
                    },
                )
            },
            Cursor::Fresh => in_round(p, begun(d)),
            Cursor::At(_) => in_round(p, d),
        }
    }
}

/// One place on, in the opening or in a round.
pub open spec fn moved(d: DiscV, i: int) -> DiscV {
    DiscV {
        cursor: if d.cursor is Opener {
            Cursor::Opener((i + 1) as usize)
        } else {
            Cursor::At((i + 1) as usize)
        },
        ..d
    }
}

/// The line of what a member said, with what was wrong with it.
pub open spec fn stand_line(
    p: Prompts,
    id: Seq<char>,
    verb: Verb,
    t: MemberTurnV,
    turn_id: u64,
) -> LineV {
    LineV {
        degraded: t.degraded,
        turn: turn_id,
        ..events::speech_line(
            id,
            converse::verb_text(verb),
            t.text + session::when_text(
                t.degraded,
                prompt::filled(p.core.tool_texts.discuss_degraded@, Seq::empty()),
            ) + session::when_text(
                t.truncated,
                prompt::filled(p.core.tool_texts.truncated_suffix@, Seq::empty()),
            ),
        )
    }
}

pub open spec fn with_member(d: DiscV, i: int, m: MemberV) -> DiscV {
    DiscV { members: d.members.update(i, m), ..d }
}

/// A member's turn is taken in: what it said is handed out, and its stand counts.
/// One that took no stand leaves nothing.
pub open spec fn fed(p: Prompts, d: DiscV, i: int, t: MemberTurnV, turn_id: u64) -> (
    DiscV,
    Option<TurnOutV>,
    Seq<LineV>,
) {
    let m = d.members[i];
    match t.verb {
        None => (moved(d, i), None, Seq::empty()),
        Some(verb) => {
            let all = d.transcript.push(stand_line(p, m.id, verb, t, turn_id));
            let out = all.skip(d.handed as int);
            let said = moved(
                DiscV { transcript: all, handed: all.len() as usize, ..d },
                i,
            );
            match verb {
                Verb::Leave => (with_member(said, i, MemberV { present: false, ..m }), None, out),
                Verb::Agree => (with_member(said, i, MemberV { agreed: true, ..m }), None, out),
                Verb::Ask => if d.cursor is Opener {
                    (said, None, out)
                } else if d.autonomy {
                    (
                        DiscV {
                            transcript: all.push(
                                events::system_line(Seq::empty(), p.core.discuss.autonomy_note@),
                            ),
                            ..said
                        },
                        None,
                        out,
                    )
                } else {
                    (said, Some(TurnOutV::AskUser { member: m.id, question: t.text }), out)
                },
                _ => (said, None, out),
            }
        },
    }
}

/// The reminders that count in this round.
pub open spec fn live_reminders(d: DiscV) -> Seq<(Seq<char>, u32)> {
    if d.round != d.remind_round {
        Seq::empty()
    } else {
        d.reminded
    }
}

/// How often a member was reminded in this round.
pub open spec fn reminders(d: DiscV, id: Seq<char>) -> u32 {
    match table::lookup(live_reminders(d), id) {
        Some(n) => n,
        None => 0,
    }
}

/// What is done after a member's turn.
pub open spec fn after(d: DiscV, i: int, has_verb: bool, user_stopped: bool, cap: u32) -> (
    DiscV,
    AfterTurn,
) {
    let id = d.members[i].id;
    let live = live_reminders(d);
    let now = DiscV { reminded: live, remind_round: d.round, ..d };
    if has_verb {
        (DiscV { reminded: table::removed(live, id), ..now }, AfterTurn::Done)
    } else if user_stopped {
        (now, AfterTurn::Done)
    } else if reminders(d, id) < cap {
        (
            DiscV { reminded: table::inserted(live, id, (reminders(d, id) + 1) as u32), ..now },
            AfterTurn::Remind,
        )
    } else {
        (DiscV { reminded: table::removed(live, id), ..now }, AfterTurn::Unanswered)
    }
}

fn move_cursor(c: Cursor, i: usize) -> (r: Cursor)
    requires
        i < usize::MAX,
    ensures
        r == if c is Opener {
            Cursor::Opener((i + 1) as usize)
        } else {
            Cursor::At((i + 1) as usize)
        },
{
    match c {
        Cursor::Opener(_) => Cursor::Opener(i + 1),
        _ => Cursor::At(i + 1),
    }
}

impl Discussion {
    pub fn new(members: Vec<Member>, allow_autonomy: bool, protocol: String) -> (r: Discussion)
        ensures
            r@ == (DiscV {
                members: members_v(members@),
                transcript: Seq::empty(),
                round: 0,
                answers: Seq::empty(),
                closed: false,
                autonomy: allow_autonomy,
                protocol: protocol@,
                reminded: Seq::empty(),
                remind_round: 0,
                opener: Seq::empty(),
                cursor: Cursor::Fresh,
                handed: 0,
            }),
            r.members == members,
    {
        let r = Discussion {
            members,
            transcript: Vec::new(),
            round: 0,
            pending_user_answers: Vec::new(),
            closed: false,
            allow_autonomy,
            protocol,
            reminded: Table::new(),
            remind_round: 0,
            opener: String::new(),
            cursor: Cursor::Fresh,
            handed: 0,
        };
        assert(events::line_views(r.transcript@) =~= Seq::empty());
        assert(text::texts(r.pending_user_answers@) =~= Seq::empty());
        assert(r.reminded@ =~= Seq::empty());
        r
    }

    /// Begins: what everybody is asked first is written once.
    pub fn start(&mut self, prompts: &Prompts, task: &str)
        requires
            prompt::book_sound(*prompts),
        ensures
            final(self)@ == (DiscV {
                opener: prompt::filled(
                    prompts.core.discuss.opener@,
                    seq![("protocol"@, old(self)@.protocol), ("task"@, task@)],
                ),
                handed: old(self)@.transcript.len() as usize,
                cursor: Cursor::Opener(0),
                ..old(self)@
            }),
            final(self).members == old(self).members,
    {
        self.opener = fill2(
            prompts.core.discuss.opener.as_str(),
            "protocol",
            self.protocol.as_str(),
            "task",
            task,
        );
        self.handed = self.transcript.len();
        self.cursor = Cursor::Opener(0);
        assert(events::line_views(self.transcript@).len() == self.transcript@.len());
    }

    /// The name of a member.
    pub fn member_id(&self, i: usize) -> (r: Option<&str>)
        ensures
            match r {
                Some(s) => i < self@.members.len() && s@ == self@.members[i as int].id,
                None => i >= self@.members.len(),
            },
    {
        if i < self.members.len() {
            assert(self@.members[i as int] == self.members@[i as int]@);
            Some(self.members[i].id.as_str())
        } else {
            None
        }
    }

    /// Whether it has not begun.
    pub fn not_started(&self) -> (r: bool)
        ensures
            r == (self@.cursor == Cursor::Fresh && self@.round == 0),
    {
        self.cursor == Cursor::Fresh && self.round == 0
    }

    fn push_line(&mut self, l: LineView)
        ensures
            final(self)@ == (DiscV { transcript: old(self)@.transcript.push(l@), ..old(self)@ }),
            final(self).members == old(self).members,
            final(self).transcript@.len() == old(self).transcript@.len() + 1,
    {
        let ghost before = self.transcript@;
        self.transcript.push(l);
        assert(events::line_views(self.transcript@) =~= events::line_views(before).push(l@));
    }

    fn begin_round(&mut self)
        requires
            old(self)@.round < usize::MAX,
        ensures
            final(self)@ == begun(old(self)@),
            final(self).members == old(self).members,
    {
        let ghost start = self@;
        assert(events::line_views(self.transcript@).len() == self.transcript@.len());
        self.handed = self.transcript.len();
        self.push_line(LineView::round(self.round + 1));
        assert(text::texts(self.pending_user_answers@).len() == self.pending_user_answers@.len());
        if self.pending_user_answers.len() > 0 {
            let ghost all = self.pending_user_answers@;
            let ans = self.pending_user_answers.remove(0);
            assert(text::texts(self.pending_user_answers@) =~= text::texts(all).skip(1));
            assert(text::texts(all)[0] == ans@);
            proof {
                reveal_strlit("");
                assert(""@ =~= Seq::empty());
            }
            self.push_line(LineView::user("", ans));
        }
        self.cursor = Cursor::At(0);
        assert(self@ =~= begun(start));
    }

    fn everyone_agreed(&self) -> (r: bool)
        ensures
            r == all_agreed(self@.members),
    {
        let ghost mv = self@.members;
        let mut k: usize = 0;
        while k < self.members.len()
            invariant
                k <= self.members@.len(),
                mv == members_v(self.members@),
                mv == self@.members,
                forall|j: int| 0 <= j < k && (#[trigger] mv[j]).present ==> mv[j].agreed,
            decreases self.members@.len() - k,
        {
            assert(mv[k as int] == self.members@[k as int]@);
            if self.members[k].present && !self.members[k].agreed {
                return false;
            }
            k = k + 1;
        }
        true
    }

    /// Says what is next: whom to ask, or that a round or the discussion is over.
    pub fn advance(&mut self, prompts: &Prompts, cancelled: bool) -> (r: Adv)
        requires
            prompt::book_sound(*prompts),
            old(self)@.round < usize::MAX,
        ensures
            (final(self)@, r@) == advanced(*prompts, old(self)@, cancelled),
            r@ matches AdvV::Ask { i, .. } ==> i < old(self)@.members.len(),
            final(self).members == old(self).members,
    {
        let ghost start = self@;
        assert(self@.members.len() == self.members@.len());
        if self.closed {
            return Adv::Out(TurnOut::Done);
        }
        if cancelled {
            return Adv::Out(TurnOut::Stopped);
        }
        let from: usize = match self.cursor {
            Cursor::Opener(i) => {
                if i >= self.members.len() {
                    self.round = 1;
                    self.cursor = Cursor::Fresh;
                    return Adv::Opened;
                }
                let identity = self.members[i].params.identity(prompts, self.members[i].mode);
                assert(self@.members[i as int] == self.members@[i as int]@);
                let mut turn: Vec<Msg> = Vec::new();
                turn.push(Msg::user(self.opener.clone()));
                assert(ports::msgs_v(turn@) =~= seq![ports::plain_msg("user"@, self.opener@)]);
                return Adv::Ask { i, identity, turn };
            },
            Cursor::Fresh => {
                self.begin_round();
                0
            },
            Cursor::At(i) => i,
        };
        let ghost d = self@;
        assert(from == place(d.cursor));
        let mut i: usize = from;
        while i < self.members.len() && (!self.members[i].present || self.members[i].agreed)
            invariant
                d == self@,
                d.members.len() == self.members@.len(),
                self.members == old(self).members,
                next_to_ask(d.members, from as int) == next_to_ask(d.members, i as int),
            decreases self.members@.len() - i,
        {
            assert(d.members[i as int] == self.members@[i as int]@);
            i = i + 1;
        }
        if i < self.members.len() {
            assert(d.members[i as int] == self.members@[i as int]@);
        }
        assert(next_to_ask(d.members, from as int) == i);
        if i >= self.members.len() {
            let done = self.everyone_agreed();
            self.round = self.round + 1;
            self.cursor = Cursor::Fresh;
            if done || self.round > MAX_ROUNDS {
                self.closed = true;
                self.reminded = Table::new();
                assert(self.reminded@ =~= Seq::empty());
                assert(self@ =~= round_over(d).0);
                return Adv::Out(TurnOut::Done);
            }
            assert(self@ =~= round_over(d).0);
            return Adv::Out(TurnOut::Round);
        }
        self.cursor = Cursor::At(i);
        let identity = self.members[i].params.identity(prompts, self.members[i].mode);
        let text = fill1(
            prompts.core.discuss.step.as_str(),
            "transcript",
            render_lines(&self.transcript).as_str(),
        );
        let mut turn: Vec<Msg> = Vec::new();
        let ghost tv = text@;
        turn.push(Msg::user(text));
        assert(ports::msgs_v(turn@) =~= seq![ports::plain_msg("user"@, tv)]);
        Adv::Ask { i, identity, turn }
    }

    fn absorb(&mut self, prompts: &Prompts, id: &str, verb: Verb, t: &MemberTurn, turn_id: u64)
        requires
            prompt::book_sound(*prompts),
        ensures
            final(self)@ == (DiscV {
                transcript: old(self)@.transcript.push(
                    stand_line(*prompts, id@, verb, t@, turn_id),
                ),
                ..old(self)@
            }),
            final(self).members == old(self).members,
            final(self).transcript@.len() == old(self).transcript@.len() + 1,
    {
        let texts = &prompts.core.tool_texts;
        let poor = fill0(texts.discuss_degraded.as_str());
        let cut = fill0(texts.truncated_suffix.as_str());
        let line = cat3(
            t.text.as_str(),
            text_when(t.degraded, poor.as_str()),
            text_when(t.truncated, cut.as_str()),
        );
        let mut l = LineView::speech(id, verb_tag(verb), line);
        l.degraded = t.degraded;
        l.turn = turn_id;
        assert(l@ =~= stand_line(*prompts, id@, verb, t@, turn_id));
        self.push_line(l);
    }

    /// Takes a member's turn in. The lines to hand out come back, and what the
    /// discussion comes to where it stops here.
    pub fn feed(&mut self, prompts: &Prompts, i: usize, turn: MemberTurn, turn_id: u64) -> (r: (
        Option<TurnOut>,
        Vec<LineView>,
    ))
        requires
            prompt::book_sound(*prompts),
            i < old(self)@.members.len(),
            old(self)@.handed <= old(self)@.transcript.len(),
        ensures
            ({
                let f = fed(*prompts, old(self)@, i as int, turn@, turn_id);
                &&& final(self)@ == f.0
                &&& match r.0 {
                    Some(o) => f.1 == Some(o@),
                    None => f.1 is None,
                }
                &&& events::line_views(r.1@) == f.2
            }),
    {
        let ghost start = self@;
        let n = self.members.len();
        assert(self@.members.len() == n);
        assert(start.members[i as int] == self.members@[i as int]@);
        let opener = match self.cursor {
            Cursor::Opener(_) => true,
            _ => false,
        };
        let verb = match turn.verb {
            None => {
                self.cursor = move_cursor(self.cursor, i);
                let none: Vec<LineView> = Vec::new();
                assert(events::line_views(none@) =~= Seq::empty());
                return (None, none);
            },
            Some(v) => v,
        };
        let id = self.members[i].id.clone();
        self.absorb(prompts, id.as_str(), verb, &turn, turn_id);
        let ghost all = self@.transcript;
        assert(all.len() == self.transcript@.len());
        let out = lines_from(&self.transcript, self.handed);
        self.handed = self.transcript.len();
        self.cursor = move_cursor(self.cursor, i);
        let ghost said = moved(
            DiscV { transcript: all, handed: all.len() as usize, ..start },
            i as int,
        );
        assert(self@ =~= said);
        match verb {
            Verb::Leave => {
                self.set_member(i, false, self.members[i].agreed);
                (None, out)
            },
            Verb::Agree => {
                self.set_member(i, self.members[i].present, true);
                (None, out)
            },
            Verb::Ask => {
                if opener {
                    return (None, out);
                }
                if self.allow_autonomy {
                    proof {
                        reveal_strlit("");
                        assert(""@ =~= Seq::empty());
                    }
                    self.push_line(
                        LineView::system("", prompts.core.discuss.autonomy_note.clone()),
                    );
                    return (None, out);
                }
                (Some(TurnOut::AskUser { member: id, question: turn.text }), out)
            },
            _ => (None, out),
        }
    }

    fn set_member(&mut self, i: usize, present: bool, agreed: bool)
        requires
            i < old(self)@.members.len(),
        ensures
            final(self)@ == with_member(
                old(self)@,
                i as int,
                MemberV { present, agreed, ..old(self)@.members[i as int] },
            ),
    {
        let ghost start = self@;
        let ghost ms = self.members@;
        assert(start.members.len() == ms.len());
        let m = self.members.remove(i);
        let m = Member { id: m.id, params: m.params, mode: m.mode, present, agreed };
        let ghost mv = m@;
        self.members.insert(i, m);
        proof {
            assert(start.members[i as int] == ms[i as int]@);
            assert(members_v(self.members@) =~= start.members.update(i as int, mv));
        }
    }

    /// Says what is done after a member's turn: it is only reminded, never made to
    /// answer. Each round counts anew.
    pub fn after_turn(&mut self, i: usize, has_verb: bool, user_stopped: bool, remind_cap: u32) -> (r:
        AfterTurn)
        requires
            i < old(self)@.members.len(),
        ensures
            (final(self)@, r) == after(
                old(self)@,
                i as int,
                has_verb,
                user_stopped,
                remind_cap,
            ),
            final(self).members == old(self).members,
    {
        assert(self@.members[i as int] == self.members@[i as int]@);
        if self.round != self.remind_round {
            self.reminded = Table::new();
            assert(self.reminded@ =~= Seq::empty());
            self.remind_round = self.round;
        }
        let id = self.members[i].id.clone();
        if has_verb {
            self.reminded.remove(id.as_str());
            return AfterTurn::Done;
        }
        if user_stopped {
            return AfterTurn::Done;
        }
        let n: u32 = match self.reminded.get(id.as_str()) {
            Some(n) => *n,
            None => 0,
        };
        if n < remind_cap {
            self.reminded.insert(id, n + 1);
            return AfterTurn::Remind;
        }
        self.reminded.remove(id.as_str());
        AfterTurn::Unanswered
    }

    /// Passes a member over that took no stand.
    pub fn skip(&mut self, i: usize)
        requires
            i < usize::MAX,
        ensures
            final(self)@ == moved(old(self)@, i as int),
            final(self).members == old(self).members,
    {
        self.cursor = move_cursor(self.cursor, i);
    }

    /// Notes something that nobody said.
    pub fn note_system(&mut self, text: &str)
        ensures
            final(self)@ == (DiscV {
                transcript: old(self)@.transcript.push(events::system_line(Seq::empty(), text@)),
                ..old(self)@
            }),
            final(self).members == old(self).members,
    {
        proof {
            reveal_strlit("");
            assert(""@ =~= Seq::empty());
        }
        self.push_line(LineView::system("", text.to_owned()));
    }

    /// Asks for a plan: the request to the core that sums up the discussion.
    pub fn synthesize(&self, prompts: &Prompts) -> (r: Vec<Msg>)
        requires
            prompt::book_sound(*prompts),
        ensures
            ports::msgs_v(r@) == plan_request(*prompts, self@.members, self@.transcript),
    {
        let mut there: Vec<String> = Vec::new();
        let ghost mv = self@.members;
        let mut k: usize = 0;
        assert(text::texts(there@) =~= present_names(mv, 0));
        while k < self.members.len()
            invariant
                k <= self.members@.len(),
                mv == members_v(self.members@),
                text::texts(there@) == present_names(mv, k as int),
            decreases self.members@.len() - k,
        {
            assert(mv[k as int] == self.members@[k as int]@);
            push_when(&mut there, self.members[k].present, self.members[k].id.clone());
            k = k + 1;
        }
        let user = fill2(
            prompts.core.synthesize.user.as_str(),
            "roster",
            join(&there, "、").as_str(),
            "transcript",
            render_lines(&self.transcript).as_str(),
        );
        let mut msgs: Vec<Msg> = Vec::new();
        msgs.push(Msg::system(prompts.core.synthesize.system.clone()));
        let ghost uv = user@;
        msgs.push(Msg::user(user));
        assert(ports::msgs_v(msgs@) =~= seq![
            ports::plain_msg("system"@, prompts.core.synthesize.system@),
            ports::plain_msg("user"@, uv),
        ]);
        msgs
    }
}

/// The names of those of the first `n` members that are there.
pub open spec fn present_names(v: Seq<MemberV>, n: int) -> Seq<Seq<char>>
    decreases n,
{
    if n <= 0 {
        Seq::empty()
    } else {
        present_names(v, n - 1) + text::when(v[n - 1].present, v[n - 1].id)
    }
}

/// The request for a plan: who is there, and what was said.
pub open spec fn plan_request(p: Prompts, members: Seq<MemberV>, transcript: Seq<LineV>) -> Seq<
    MsgV,
> {
    seq![
        ports::plain_msg("system"@, p.core.synthesize.system@),
        ports::plain_msg(
            "user"@,
            prompt::filled(
                p.core.synthesize.user@,
                seq![
                    ("roster"@, text::joined(present_names(members, members.len() as int), "、"@)),
                    ("transcript"@, text::joined(events::line_texts(transcript), "\n"@)),
                ],
            ),
        ),
    ]
}

/// The lines from `n` on.
pub fn lines_from(v: &Vec<LineView>, n: usize) -> (r: Vec<LineView>)
    requires
        n <= v@.len(),
    ensures
        events::line_views(r@) == events::line_views(v@).skip(n as int),
{
    let ghost all = events::line_views(v@).skip(n as int);
    let mut r: Vec<LineView> = Vec::new();
    let mut i: usize = n;
    assert(events::line_views(r@) =~= all.take(0));
    while i < v.len()
        invariant
            n <= i <= v@.len(),
            all == events::line_views(v@).skip(n as int),
            events::line_views(r@) == all.take(i - n),
        decreases v@.len() - i,
    {
        let ghost prev = r@;
        let l = v[i].copy();
        r.push(l);
        proof {
            assert(events::line_views(r@) =~= events::line_views(prev).push(l@));
            assert(all[i - n] == l@);
            assert(events::line_views(r@) =~= all.take(i + 1 - n));
        }
        i = i + 1;
    }
    assert(all.take(all.len() as int) =~= all);
    r
}

/// A node of a plan as the core gives it.
#[derive(Debug)]
pub struct SynthNode {
    pub id: String,
    pub title: String,
    pub objective: String,
    pub assignee: String,
    pub deps: Vec<String>,
}

/// The node of the chain it becomes: nothing of it is done.
pub open spec fn fresh_node(n: SynthNode) -> NodeV {
    NodeV {
        id: n.id@,
        title: n.title@,
        objective: n.objective@,
        assignee: n.assignee@,
        deps: text::texts(n.deps@),
        status: NodeStatus::Pending,
        sub_session: None,
        report: None,
        acceptance: None,
        reported: false,
    }
}

/// The chain of tasks of a plan.
pub fn plan_chain(nodes: Vec<SynthNode>) -> (r: TaskChain)
    ensures
        chain::nodes_v(r.nodes@) == nodes@.map_values(|n: SynthNode| fresh_node(n)),
{
    let ghost all = nodes@.map_values(|n: SynthNode| fresh_node(n));
    let mut out: Vec<TaskNode> = Vec::new();
    let mut i: usize = 0;
    assert(chain::nodes_v(out@) =~= all.take(0));
    while i < nodes.len()
        invariant
            i <= nodes@.len(),
            all == nodes@.map_values(|n: SynthNode| fresh_node(n)),
            chain::nodes_v(out@) == all.take(i as int),
        decreases nodes@.len() - i,
    {
        let n = &nodes[i];
        let t = TaskNode {
            id: n.id.clone(),
            title: n.title.clone(),
            objective: n.objective.clone(),
            assignee: n.assignee.clone(),
            deps: clone_strings(&n.deps),
            status: NodeStatus::Pending,
            sub_session: None,
            report: None,
            acceptance: None,
            reported: false,
        };
        let ghost prev = out@;
        out.push(t);
        proof {
            assert(all[i as int] == fresh_node(nodes@[i as int]));
            assert(t@ == fresh_node(*n));
            assert(chain::nodes_v(out@) =~= chain::nodes_v(prev).push(t@));
            assert(chain::nodes_v(out@) =~= all.take(i + 1));
        }
        i = i + 1;
    }
    assert(all.take(all.len() as int) =~= all);
    TaskChain { nodes: out }
}

// ---- what holds of every discussion ----

/// Only those are asked in a round who are there and have not agreed.
pub proof fn the_agreed_are_left_alone(p: Prompts, d: DiscV, cancelled: bool)
    requires
        d.members.len() <= usize::MAX,
    ensures
        match advanced(p, d, cancelled).1 {
            AdvV::Ask { i, .. } => i < d.members.len() && (!(d.cursor is Opener) ==> d.members[
                i as int
            ].present && !d.members[i as int].agreed),
            _ => true,
        },
{
    let from = if d.cursor is Fresh {
        0
    } else {
        place(d.cursor) as int
    };
    lemma_next_to_ask(d.members, from);
}

proof fn lemma_next_to_ask(v: Seq<MemberV>, i: int)
    requires
        0 <= i,
    ensures
        i <= next_to_ask(v, i),
        next_to_ask(v, i) < v.len() ==> v[next_to_ask(v, i)].present && !v[next_to_ask(v, i)].agreed,
    decreases v.len() - i,
{
    if i < v.len() && !(v[i].present && !v[i].agreed) {
        lemma_next_to_ask(v, i + 1);
    }
}

/// Who agreed goes on agreeing, and who left stays away, whatever anybody says.
pub proof fn stands_are_kept(p: Prompts, d: DiscV, i: int, t: MemberTurnV, turn_id: u64, k: int)
    requires
        0 <= i < d.members.len(),
        0 <= k < d.members.len(),
    ensures
        fed(p, d, i, t, turn_id).0.members.len() == d.members.len(),
        d.members[k].agreed ==> fed(p, d, i, t, turn_id).0.members[k].agreed,
        !d.members[k].present ==> !fed(p, d, i, t, turn_id).0.members[k].present,
        k != i ==> fed(p, d, i, t, turn_id).0.members[k] == d.members[k],
{
}

/// A discussion that is over stays over: nothing is asked any more.
pub proof fn the_end_of_a_discussion(p: Prompts, d: DiscV, cancelled: bool)
    requires
        d.closed,
    ensures
        advanced(p, d, cancelled) == (d, AdvV::Out(TurnOutV::Done)),
{
}

/// A discussion goes on for no more rounds than it may: each round that ends counts,
/// and the last one ends it.
pub proof fn rounds_are_counted(p: Prompts, d: DiscV, cancelled: bool)
    requires
        d.round < usize::MAX,
    ensures
        ({
            let a = advanced(p, d, cancelled);
            &&& a.1 == AdvV::Out(TurnOutV::Round) ==> a.0.round == d.round + 1 && a.0.round
                <= MAX_ROUNDS && !a.0.closed
            &&& !d.closed && a.1 == AdvV::Out(TurnOutV::Done) ==> a.0.closed && (all_agreed(
                d.members,
            ) || a.0.round > MAX_ROUNDS)
        }),
{
}

/// A member is reminded at most as often as it may be; the next time it is passed
/// over.
pub proof fn reminders_are_counted(d: DiscV, i: int, cap: u32)
    requires
        0 <= i < d.members.len(),
        table::ascending(d.reminded),
    ensures
        ({
            let a = after(d, i, false, false, cap);
            &&& a.1 == AfterTurn::Remind <==> reminders(d, d.members[i].id) < cap
            &&& a.1 == AfterTurn::Remind ==> reminders(a.0, d.members[i].id) == reminders(
                d,
                d.members[i].id,
            ) + 1
            &&& a.1 == AfterTurn::Unanswered ==> reminders(a.0, d.members[i].id) == 0
        }),
{
    let live = live_reminders(d);
    table::inserting(live, d.members[i].id, (reminders(d, d.members[i].id) + 1) as u32);
    table::removing(live, d.members[i].id);
}

/// What is handed out is what was not handed out before, and nothing twice.
pub proof fn lines_are_handed_out_once(
    p: Prompts,
    d: DiscV,
    i: int,
    t: MemberTurnV,
    turn_id: u64,
)
    requires
        0 <= i < d.members.len(),
        d.handed <= d.transcript.len() < usize::MAX,
        t.verb is Some,
    ensures
        ({
            let f = fed(p, d, i, t, turn_id);
            &&& f.0.handed <= f.0.transcript.len()
            &&& f.0.transcript.take(d.handed as int) + f.2 == f.0.transcript.take(
                f.0.handed as int,
            )
        }),
{
    let f = fed(p, d, i, t, turn_id);
    assert(f.0.transcript.take(d.handed as int) + f.2 =~= f.0.transcript.take(
        f.0.handed as int,
    ));
}

/// A stand counts for the member that took it and for no other: who leaves is no
/// longer there, who agrees has agreed, and whatever else is said changes nobody.
pub proof fn stands_count(p: Prompts, d: DiscV, i: int, t: MemberTurnV, turn_id: u64)
    requires
        0 <= i < d.members.len(),
    ensures
        ({
            let now = fed(p, d, i, t, turn_id).0.members;
            let m = d.members[i];
            &&& now.len() == d.members.len()
            &&& t.verb == Some(Verb::Leave) ==> !now[i].present && now[i].agreed == m.agreed
            &&& t.verb == Some(Verb::Agree) ==> now[i].agreed && now[i].present == m.present
            &&& t.verb != Some(Verb::Leave) && t.verb != Some(Verb::Agree) ==> now == d.members
            &&& now[i].id == m.id && now[i].params == m.params && now[i].mode == m.mode
            &&& forall|k: int| 0 <= k < now.len() && k != i ==> #[trigger] now[k] == d.members[k]
        }),
{
}

/// A question goes to the user where the team may not decide for itself, in a round;
/// nothing else a member says stops the discussion.
pub proof fn questions_go_to_the_user(p: Prompts, d: DiscV, i: int, t: MemberTurnV, turn_id: u64)
    requires
        0 <= i < d.members.len(),
    ensures
        ({
            let out = fed(p, d, i, t, turn_id).1;
            let asks = t.verb == Some(Verb::Ask) && !d.autonomy && !(d.cursor is Opener);
            &&& out is Some <==> asks
            &&& asks ==> out == Some(TurnOutV::AskUser { member: d.members[i].id, question: t.text })
        }),
{
}

/// What a member says stands in the transcript under its name, behind what was there;
/// one that takes no stand leaves nothing. Then it is the next one's turn.
pub proof fn what_is_said_is_written_down(p: Prompts, d: DiscV, i: int, t: MemberTurnV, turn_id: u64)
    requires
        0 <= i < d.members.len() < usize::MAX,
    ensures
        ({
            let now = fed(p, d, i, t, turn_id).0;
            let n = d.transcript.len();
            &&& t.verb is None ==> now.transcript == d.transcript
            &&& t.verb is Some ==> {
                &&& now.transcript.len() > n
                &&& now.transcript.take(n as int) == d.transcript
                &&& now.transcript[n as int].speaker == d.members[i].id
                &&& now.transcript[n as int].verb == converse::verb_text(t.verb->0)
                &&& now.transcript[n as int].kind == "msg"@
                &&& now.transcript[n as int].turn == turn_id
                &&& now.transcript[n as int].degraded == t.degraded
                &&& now.transcript[n as int].line.len() >= t.text.len()
                &&& now.transcript[n as int].line.take(t.text.len() as int) == t.text
                &&& !t.degraded && !t.truncated ==> now.transcript[n as int].line == t.text
            }
            &&& d.cursor is Opener ==> now.cursor == Cursor::Opener((i + 1) as usize)
            &&& !(d.cursor is Opener) ==> now.cursor == Cursor::At((i + 1) as usize)
            &&& now.round == d.round && now.closed == d.closed && now.answers == d.answers
        }),
{
    let now = fed(p, d, i, t, turn_id).0;
    let n = d.transcript.len();
    if t.verb is Some {
        assert(now.transcript.take(n as int) =~= d.transcript);
        let l = now.transcript[n as int];
        assert(l == stand_line(p, d.members[i].id, t.verb->0, t, turn_id));
        assert(l.line.take(t.text.len() as int) =~= t.text);
        if !t.degraded && !t.truncated {
            assert(l.line =~= t.text);
        }
    }
}

proof fn lemma_first_to_ask(v: Seq<MemberV>, i: int)
    requires
        0 <= i,
    ensures
        i <= next_to_ask(v, i),
        forall|k: int| i <= k < next_to_ask(v, i) && k < v.len() ==> !((#[trigger] v[k]).present && !v[k].agreed),
        next_to_ask(v, i) < v.len() ==> v[next_to_ask(v, i)].present && !v[next_to_ask(v, i)].agreed,
        next_to_ask(v, i) <= v.len() || next_to_ask(v, i) == i,
    decreases v.len() - i,
{
    if i < v.len() && !(v[i].present && !v[i].agreed) {
        lemma_first_to_ask(v, i + 1);
    }
}

/// In a round the members are asked in order: the next one that is there and has not
/// agreed. Where there is none left the round is over, and the discussion with it where
/// everybody that is still there agreed, or the rounds ran out.
pub proof fn a_round_asks_everybody_left(p: Prompts, d: DiscV, from: usize)
    requires
        !d.closed,
        d.cursor == Cursor::At(from),
        d.members.len() <= usize::MAX,
        d.round < usize::MAX,
    ensures
        ({
            let a = advanced(p, d, false);
            let left = exists|k: int|
                from <= k < d.members.len() && (#[trigger] d.members[k]).present && !d.members[k].agreed;
            let agreed = forall|k: int|
                0 <= k < d.members.len() && (#[trigger] d.members[k]).present ==> d.members[k].agreed;
            &&& left <==> a.1 is Ask
            &&& a.1 matches AdvV::Ask { i, .. } ==> from <= i < d.members.len()
                && d.members[i as int].present && !d.members[i as int].agreed && forall|k: int|
                from <= k < i ==> !((#[trigger] d.members[k]).present && !d.members[k].agreed)
            &&& !left && (agreed || d.round + 1 > MAX_ROUNDS) ==> a.1 == AdvV::Out(TurnOutV::Done)
                && a.0.closed
            &&& !left && !agreed && d.round + 1 <= MAX_ROUNDS ==> a.1 == AdvV::Out(TurnOutV::Round)
                && !a.0.closed && a.0.round == d.round + 1
            &&& a.0.members == d.members && a.0.transcript == d.transcript
        }),
{
    lemma_first_to_ask(d.members, from as int);
    let n = next_to_ask(d.members, from as int);
    if n < d.members.len() {
        assert(d.members[n].present && !d.members[n].agreed);
    }
}

/// Who left is not waited for: where all others that are there agreed, the discussion
/// is over once nobody is left to ask.
pub proof fn leavers_are_not_waited_for(p: Prompts, d: DiscV, i: int, t: MemberTurnV, turn_id: u64)
    requires
        !d.closed,
        0 <= i < d.members.len() <= usize::MAX,
        i + 1 == d.members.len(),
        d.cursor is At,
        d.round < usize::MAX,
        t.verb == Some(Verb::Leave) || t.verb == Some(Verb::Agree),
        forall|k: int|
            0 <= k < d.members.len() && k != i && (#[trigger] d.members[k]).present ==> d.members[k].agreed,
    ensures
        ({
            let now = fed(p, d, i, t, turn_id).0;
            let a = advanced(p, now, false);
            a.1 == AdvV::Out(TurnOutV::Done) && a.0.closed
        }),
{
    let now = fed(p, d, i, t, turn_id).0;
    assert(now.cursor == Cursor::At((i + 1) as usize));
    a_round_asks_everybody_left(p, now, (i + 1) as usize);
}

/// Who left or agreed is not asked in any round that follows.
pub proof fn leavers_are_not_asked_again(
    p: Prompts,
    d: DiscV,
    i: int,
    t: MemberTurnV,
    turn_id: u64,
    later: DiscV,
)
    requires
        0 <= i < d.members.len() <= usize::MAX,
        t.verb == Some(Verb::Leave) || t.verb == Some(Verb::Agree),
        later.members == fed(p, d, i, t, turn_id).0.members,
        !(later.cursor is Opener),
    ensures
        advanced(p, later, false).1 matches AdvV::Ask { i: k, .. } ==> k != i,
{
    the_agreed_are_left_alone(p, later, false);
}

/// For the opening everybody is asked in order, whoever they are; then the first round
/// begins.
pub proof fn the_opening_asks_everybody(p: Prompts, d: DiscV, i: usize)
    requires
        !d.closed,
        d.cursor == Cursor::Opener(i),
    ensures
        ({
            let a = advanced(p, d, false);
            &&& i < d.members.len() ==> a.0 == d && a.1 == (AdvV::Ask {
                i,
                identity: d.members[i as int].identity(p),
                turn: seq![ports::plain_msg("user"@, d.opener)],
            })
            &&& i >= d.members.len() ==> a.1 is Opened && a.0.round == 1 && a.0.cursor is Fresh
                && a.0.members == d.members && a.0.transcript == d.transcript && !a.0.closed
        }),
{
}

/// A round begins with its number and, where the user answered, the first answer; each
/// answer is told once and in order.
pub proof fn answers_are_told_in_order(d: DiscV)
    ensures
        ({
            let b = begun(d);
            let n = d.transcript.len() as int;
            &&& b.transcript.take(n) == d.transcript
            &&& d.answers.len() == 0 ==> b.answers == d.answers && b.transcript.len() == n + 1
            &&& d.answers.len() > 0 ==> b.answers == d.answers.skip(1) && b.transcript.len() == n + 2
                && b.transcript[n + 1].line == d.answers[0]
            &&& b.members == d.members && b.round == d.round && b.closed == d.closed
            &&& b.cursor == Cursor::At(0)
        }),
{
    assert(begun(d).transcript.take(d.transcript.len() as int) =~= d.transcript);
}

/// A stand clears the reminders of the member that took it; where the user stopped the
/// turn nobody is reminded.
pub proof fn stands_end_the_reminding(d: DiscV, i: int, stopped: bool, cap: u32)
    requires
        0 <= i < d.members.len(),
        table::ascending(d.reminded),
    ensures
        after(d, i, true, stopped, cap).1 == AfterTurn::Done,
        reminders(after(d, i, true, stopped, cap).0, d.members[i].id) == 0,
        after(d, i, false, true, cap).1 == AfterTurn::Done,
        after(d, i, false, true, cap).0.members == d.members,
        reminders(after(d, i, false, true, cap).0, d.members[i].id) == reminders(d, d.members[i].id),
        after(d, i, false, false, cap).1 != AfterTurn::Done,
        after(d, i, false, false, cap).0.transcript == d.transcript,
{
    let live = live_reminders(d);
    table::removing(live, d.members[i].id);
}

/// Those the plan is asked for are the members that are there, in their order.
pub proof fn plans_are_for_those_present(v: Seq<MemberV>, n: int)
    requires
        0 <= n <= v.len(),
    ensures
        forall|id: Seq<char>| #[trigger]
            present_names(v, n).contains(id) <==> exists|k: int|
                0 <= k < n && (#[trigger] v[k]).present && v[k].id == id,
        present_names(v, n).len() <= n,
    decreases n,
{
    if n > 0 {
        plans_are_for_those_present(v, n - 1);
        let prev = present_names(v, n - 1);
        let now = present_names(v, n);
        assert forall|id: Seq<char>| #[trigger] now.contains(id) <==> exists|k: int|
            0 <= k < n && (#[trigger] v[k]).present && v[k].id == id by {
            if now.contains(id) {
                let j = choose|j: int| 0 <= j < now.len() && now[j] == id;
                if j < prev.len() {
                    assert(prev[j] == id);
                    assert(prev.contains(id));
                    let k = choose|k: int| 0 <= k < n - 1 && (#[trigger] v[k]).present && v[k].id == id;
                    assert(v[k].present);
                } else {
                    assert(v[n - 1].present && v[n - 1].id == id);
                }
            }
            if exists|k: int| 0 <= k < n && (#[trigger] v[k]).present && v[k].id == id {
                let k = choose|k: int| 0 <= k < n && (#[trigger] v[k]).present && v[k].id == id;
                if k == n - 1 {
                    assert(now[prev.len() as int] == id);
                } else {
                    assert(prev.contains(id));
                    let j = choose|j: int| 0 <= j < prev.len() && prev[j] == id;
                    assert(now[j] == id);
                }
            }
        }
    }
}

/// A member's turn is what its last round came to: the stand, the words and what was
/// wrong with them; a turn that was stopped or failed is none.
pub proof fn the_last_round_is_the_turn(v: Seq<RoundV>, cancelled: bool)
    ensures
        turn_of(v, cancelled) is Ok <==> !cancelled && v.len() > 0 && v.last().error is None,
        turn_of(v, cancelled) matches Ok(t) ==> t.verb == v.last().verb && t.text == v.last().text
            && t.degraded == v.last().degraded,
        !cancelled && v.len() > 0 && v.last().error is Some ==> turn_of(v, cancelled) == Err::<
            MemberTurnV,
            Seq<char>,
        >(v.last().error->0),
{
}

/// A node of a plan begins as it was planned, with nothing done.
pub proof fn planned_nodes_begin_afresh(n: SynthNode, k: int)
    ensures
        fresh_node(n).id == n.id@ && fresh_node(n).title == n.title@ && fresh_node(n).objective == n.objective@
            && fresh_node(n).assignee == n.assignee@,
        fresh_node(n).deps.len() == n.deps@.len(),
        0 <= k < n.deps@.len() ==> fresh_node(n).deps[k] == n.deps@[k]@,
        fresh_node(n).status is Pending && fresh_node(n).report is None && fresh_node(n).acceptance is None
            && fresh_node(n).sub_session is None && !fresh_node(n).reported,
{
}

/// A member is asked with all that was said, in its order.
pub proof fn members_are_asked_with_all_that_was_said(p: Prompts, transcript: Seq<LineV>, a: Seq<char>, b: Seq<char>)
    requires
        p.core.discuss.step@ == a + "{{"@ + "transcript"@ + "}}"@ + b,
        !a.contains('{'),
        !b.contains('{'),
    ensures
        step_prompt(p, transcript) == a + text::joined(
            transcript.map_values(|l: LineV| events::line_text(l)),
            "\n"@,
        ) + b,
{
    reveal_strlit("transcript");
    let vars = seq![("transcript"@, text::joined(events::line_texts(transcript), "\n"@))];
    text::white_space_cannot_be_seen('t');
    assert("transcript"@.len() == 10);
    assert("transcript"@[0] == 't' && "transcript"@[9] == 't');
    assert(!"transcript"@.contains('}'));
    prompt::one_place_is_filled(a, "transcript"@, b, vars, 0);
    assert(events::line_texts(transcript) =~= transcript.map_values(|l: LineV| events::line_text(l)));
}

} // verus!
