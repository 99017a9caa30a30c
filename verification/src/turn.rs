//! A turn of a seat: the model is called, its reply is settled and its calls are
//! run, until a reply asks for nothing more. What calls the model stands outside;
//! each call is asked for here, and what came back is taken here.
use crate::converse::{self, FaceV, Heard, Round, RoundV, SetV, Settled, SettledV, ToolDecls, assemble, finish_calls, is_mended, settle, tool_decls, understand, wants_mending};
use crate::engine::{self, MemberTools, note_unauthorized, run_batch};
use crate::envelope::{self, ReplyV};
use crate::events::{self, EventV, SessionEvent};
use crate::ports::{self, Completion, Msg, MsgV, RepairOutcome, SysIo, ToolRunner};
use crate::prompt;
use crate::providers::ToolMode;
use crate::systool::{PATCH, SeenV};
use crate::text::{self, cat3, cat5, dec_usize, join};
use vstd::prelude::*;

verus! {

/// Whether a reply is to be mended: its call cannot be read, the user did not break
/// it off, and no text stands behind the envelope that mending would spoil.
pub open spec fn mendable(r: ReplyV, aborted: bool) -> bool {
    !aborted && match r.tool {
        Some(t) => t.malformed && t.name != PATCH@,
        None => false,
    }
}

/// What a reply says.
pub open spec fn said_by(raw: Seq<char>) -> ReplyV {
    envelope::reply_of(raw, envelope::first_value(raw))
}

/// The text that is taken for a reply: the mended one, where mending was called for
/// and gave a call that can be read, else the reply itself.
pub open spec fn taken_text(raw: Seq<char>, aborted: bool, repair: Option<RepairOutcome>) -> (
    Seq<char>,
    Seq<char>,
) {
    match repair {
        Some(o) => match o.repaired {
            Some(text) => if mendable(said_by(raw), aborted) && said_by(text@).tool is Some && !(
            said_by(text@).tool->0).malformed {
                (text@, text::joined(text::texts(o.what@), "；"@))
            } else {
                (raw, Seq::empty())
            },
            None => (raw, Seq::empty()),
        },
        None => (raw, Seq::empty()),
    }
}

/// Takes in what a call of the model gave. `repair` is what the repairer made of
/// the reply, if it was asked.
pub fn hear(
    done: Completion,
    streamed: String,
    aborted: bool,
    repair: Option<RepairOutcome>,
) -> (r: Heard)
    ensures
        r.done == done,
        r.streamed == streamed,
        r.repaired@ == taken_text(done.raw@, aborted, repair).1,
        converse::reads_as(
            taken_text(done.raw@, aborted, repair).0,
            said_by(taken_text(done.raw@, aborted, repair).0),
            r.reply@,
        ),
{
    let reply = understand(done.raw.as_str());
    let wants = wants_mending(&reply, aborted).is_some();
    proof {
        let u = reply@;
        if u.tools.len() == 1 {
            assert(converse::asks_freeform(u) == (u.tools[0].name == PATCH@));
        }
        assert(wants == mendable(said_by(done.raw@), aborted));
    }
    match repair {
        Some(o) => match o.repaired {
            Some(text) => {
                if wants {
                    let again = understand(text.as_str());
                    let fine = is_mended(&again);
                    assert(fine == (said_by(text@).tool is Some && !(said_by(
                        text@,
                    ).tool->0).malformed));
                    if fine {
                        return Heard {
                            done,
                            streamed,
                            reply: again,
                            repaired: join(&o.what, "；"),
                        };
                    }
                }
            },
            None => {},
        },
        None => {},
    }
    Heard { done, streamed, reply, repaired: String::new() }
}

/// A turn so far: what the model was told, the rounds that came of it, and whether
/// it is over.
#[derive(Debug)]
pub struct Talk {
    pub msgs: Vec<Msg>,
    pub rounds: Vec<Round>,
    /// The number of the last reply, where the seat has no tools to number it.
    pub local_reply: u64,
    pub over: bool,
}

#[verifier::ext_equal]
pub struct TalkV {
    pub msgs: Seq<MsgV>,
    pub rounds: Seq<RoundV>,
    pub local_reply: u64,
    pub over: bool,
}

impl View for Talk {
    type V = TalkV;

    open spec fn view(&self) -> TalkV {
        TalkV {
            msgs: ports::msgs_v(self.msgs@),
            rounds: converse::rounds_v(self.rounds@),
            local_reply: self.local_reply,
            over: self.over,
        }
    }
}

/// A call of the model that is due.
#[derive(Debug)]
pub struct Asked {
    /// The number its reply gets.
    pub reply: u64,
    pub mode: ToolMode,
    /// The tools that are declared to it.
    pub decls: ToolDecls,
}

/// The tools declared to a model: those of the seat on a native channel, else none.
pub open spec fn declared_face(t: MemberTools) -> FaceV {
    if t.mode == ToolMode::Native {
        converse::whole_face(t)
    } else {
        FaceV { list: Seq::empty(), wire: Seq::empty() }
    }
}

/// The turn after a reply that ends it.
pub open spec fn ended(t: TalkV, r: RoundV) -> TalkV {
    TalkV { rounds: t.rounds.push(r), over: true, ..t }
}

/// The turn after a reply that leaves messages and rounds. It is over where the user
/// broke it off.
pub open spec fn went_on(t: TalkV, rounds: Seq<RoundV>, msgs: Seq<MsgV>, aborted: bool) -> TalkV {
    TalkV { msgs: t.msgs + msgs, rounds: t.rounds + rounds, over: aborted, ..t }
}

/// What the calls of a reply make of the turn.
pub open spec fn after_calls(
    seat: MemberTools,
    mode: ToolMode,
    speaker: Seq<char>,
    reply: u64,
    s: SetV,
    h: Heard,
    aborted: bool,
    before: TalkV,
    outs: Seq<(Seq<char>, (bool, Seq<char>))>,
) -> TalkV {
    let views = converse::run_views(seat.sandbox.texts, speaker, reply, s, outs);
    let msgs = converse::reply_messages(mode, s.raw, views, seat.sandbox.texts);
    went_on(
        before,
        converse::call_rounds(reply, s.text, converse::reasoning_of(h), h.done.finish@, views, msgs),
        msgs,
        aborted,
    )
}

/// Whether a turn goes this way from here: the calls, made in turn, gave some results
/// and left this ledger, and the rest follows from them.
pub open spec fn goes_on_with_calls<I: SysIo, R: ToolRunner>(
    io: I,
    runner: R,
    seat: MemberTools,
    mode: ToolMode,
    speaker: Seq<char>,
    reply: u64,
    s: SetV,
    h: Heard,
    aborted: bool,
    before: TalkV,
    after: TalkV,
    seen: Seq<(Seq<char>, SeenV)>,
) -> bool {
    exists|outs: Seq<(Seq<char>, (bool, Seq<char>))>|
        #[trigger] engine::ran_all(io, runner, seat, s.plan, outs, seen) && after == after_calls(
            seat,
            mode,
            speaker,
            reply,
            s,
            h,
            aborted,
            before,
            outs,
        )
}

/// What a reply makes of a turn and of what is known of files, and what the user is
/// told of calls that the seat may not make.
pub open spec fn turn_goes<I: SysIo, R: ToolRunner>(
    io: I,
    runner: R,
    seat: MemberTools,
    asked: Asked,
    speaker: Seq<char>,
    verbs: bool,
    h: Heard,
    aborted: bool,
    before: TalkV,
    after: TalkV,
    seen: Seq<(Seq<char>, SeenV)>,
    events: Seq<EventV>,
) -> bool {
    match converse::reply_settled(
        Some(&seat),
        asked.mode,
        converse::wires_v(asked.decls.wire@),
        asked.reply,
        speaker,
        verbs,
        h,
    ) {
        SettledV::End(r) => after == ended(before, r) && seen == seat.observations@ && events.len()
            == 0,
        SettledV::Noted(r, m) => after == went_on(before, seq![r], m, aborted) && seen
            == seat.observations@ && events.len() == 0,
        SettledV::Calls(s) => {
            &&& goes_on_with_calls(
                io,
                runner,
                seat,
                asked.mode,
                speaker,
                asked.reply,
                s,
                h,
                aborted,
                before,
                after,
                seen,
            )
            &&& events == engine::unauthorized(seat, s.plan, s.plan.len() as int)
        },
    }
}

impl Talk {
    /// Starts a turn: who the seat is, its tools, what was said, and what the turn
    /// asks.
    pub fn start(
        identity: &str,
        tools: Option<&MemberTools>,
        dialogue: &Vec<Msg>,
        turn: &Vec<Msg>,
    ) -> (r: Talk)
        requires
            tools matches Some(t) ==> prompt::texts_sound(t.sandbox.texts),
        ensures
            r@ == (TalkV {
                msgs: converse::assembled(
                    identity@,
                    match tools {
                        Some(t) => engine::block_text(*t, text::texts(t.allowed@), t.with_modules),
                        None => Seq::empty(),
                    },
                    ports::msgs_v(dialogue@),
                    ports::msgs_v(turn@),
                ),
                rounds: Seq::empty(),
                local_reply: 0,
                over: false,
            }),
    {
        let msgs = match tools {
            Some(t) => assemble(identity, tools, &t.allowed, t.with_modules, dialogue, turn),
            None => assemble(identity, None, &Vec::new(), false, dialogue, turn),
        };
        let r = Talk { msgs, rounds: Vec::new(), local_reply: 0, over: false };
        assert(converse::rounds_v(r.rounds@) =~= Seq::empty());
        r
    }

    /// Asks for the next call of the model, on a seat with tools.
    pub fn ask(&self, t: &mut MemberTools) -> (r: Asked)
        requires
            old(t).reply_seq < u64::MAX,
        ensures
            *final(t) == (MemberTools { reply_seq: r.reply, ..*old(t) }),
            r.reply == old(t).reply_seq + 1,
            r.mode == old(t).mode,
            r.decls.face() == declared_face(*old(t)),
    {
        let reply = t.next_reply();
        let ghost seat = *t;
        let decls = if t.mode == ToolMode::Native {
            tool_decls(t)
        } else {
            ToolDecls::none()
        };
        proof {
            lemma_face_ignores_reply(*old(t), seat);
        }
        Asked { reply, mode: t.mode, decls }
    }

    /// Asks for the next call of the model, on a seat without tools.
    pub fn ask_alone(&mut self) -> (r: Asked)
        requires
            old(self).local_reply < u64::MAX,
        ensures
            final(self)@ == (TalkV { local_reply: r.reply, ..old(self)@ }),
            r.reply == old(self).local_reply + 1,
            r.mode == ToolMode::Envelope,
            r.decls.face() == (FaceV { list: Seq::empty(), wire: Seq::empty() }),
    {
        self.local_reply = self.local_reply + 1;
        Asked { reply: self.local_reply, mode: ToolMode::Envelope, decls: ToolDecls::none() }
    }

    fn end(&mut self, r: Round)
        ensures
            final(self)@ == ended(old(self)@, r@),
    {
        let ghost before = self.rounds@;
        self.rounds.push(r);
        self.over = true;
        assert(converse::rounds_v(self.rounds@) =~= converse::rounds_v(before).push(r@));
    }

    fn go_on(&mut self, rounds: Vec<Round>, msgs: Vec<Msg>, aborted: bool)
        ensures
            final(self)@ == went_on(old(self)@, converse::rounds_v(rounds@), ports::msgs_v(msgs@), aborted),
    {
        let ghost before = *self;
        let mut rounds = rounds;
        let mut msgs = msgs;
        let ghost rv = rounds@;
        let ghost mv = msgs@;
        self.rounds.append(&mut rounds);
        self.msgs.append(&mut msgs);
        self.over = aborted;
        assert(converse::rounds_v(self.rounds@) =~= converse::rounds_v(before.rounds@) + converse::rounds_v(rv));
        assert(ports::msgs_v(self.msgs@) =~= ports::msgs_v(before.msgs@) + ports::msgs_v(mv));
    }

    /// Takes a reply on a seat with tools: settles it and runs its calls. What the
    /// user is told comes back.
    pub fn take<I: SysIo, R: ToolRunner>(
        &mut self,
        t: &mut MemberTools,
        io: &I,
        runner: &R,
        asked: &Asked,
        speaker: &str,
        verbs: bool,
        h: &Heard,
        aborted: bool,
    ) -> (r: Vec<SessionEvent>)
        requires
            prompt::texts_sound(old(t).sandbox.texts),
        ensures
            turn_goes(
                *io,
                *runner,
                *old(t),
                *asked,
                speaker@,
                verbs,
                *h,
                aborted,
                old(self)@,
                final(self)@,
                final(t).observations@,
                events::events_v(r@),
            ),
            *final(t) == (MemberTools { observations: final(t).observations, ..*old(t) }),
    {
        let ghost seat = *t;
        let ghost before = self@;
        let mut events: Vec<SessionEvent> = Vec::new();
        assert(events::events_v(events@).len() == 0);
        match settle(Some(&*t), asked.mode, &asked.decls, asked.reply, speaker, verbs, h) {
            Settled::End(r) => {
                self.end(r);
            },
            Settled::Noted(r, m) => {
                let mut one: Vec<Round> = Vec::new();
                one.push(r);
                assert(converse::rounds_v(one@) =~= seq![r@]);
                self.go_on(one, m, aborted);
            },
            Settled::Calls(s) => {
                let ghost sv = s@;
                assert(s.plan@.len() == sv.plan.len() && s.shown@.len() == sv.shown.len()
                    && s.ids@.len() == sv.ids.len());
                assert(sv.shown.len() == sv.plan.len() && sv.ids.len() == sv.plan.len());
                events = note_unauthorized(t, &s.plan);
                let outs = run_batch(t, io, runner, &s.plan);
                let ghost ov = converse::outs_v(outs@);
                assert(engine::ran_all(*io, *runner, seat, sv.plan, ov, t.observations@));
                let (rounds, msgs) = finish_calls(
                    &t.sandbox.texts,
                    asked.mode,
                    speaker,
                    asked.reply,
                    &s,
                    &outs,
                    h,
                );
                self.go_on(rounds, msgs, aborted);
                assert(self@ == after_calls(
                    seat,
                    asked.mode,
                    speaker@,
                    asked.reply,
                    sv,
                    *h,
                    aborted,
                    before,
                    ov,
                ));
                assert(goes_on_with_calls(
                    *io,
                    *runner,
                    seat,
                    asked.mode,
                    speaker@,
                    asked.reply,
                    sv,
                    *h,
                    aborted,
                    before,
                    self@,
                    t.observations@,
                ));
            },
        }
        events
    }

    /// Takes a reply on a seat without tools: it ends the turn whatever it says.
    pub fn take_alone(&mut self, asked: &Asked, speaker: &str, verbs: bool, h: &Heard)
        ensures
            converse::reply_settled(
                None,
                asked.mode,
                converse::wires_v(asked.decls.wire@),
                asked.reply,
                speaker@,
                verbs,
                *h,
            ) is End,
            final(self)@ == ended(
                old(self)@,
                converse::reply_settled(
                    None,
                    asked.mode,
                    converse::wires_v(asked.decls.wire@),
                    asked.reply,
                    speaker@,
                    verbs,
                    *h,
                )->End_0,
            ),
    {
        match settle(None, asked.mode, &asked.decls, asked.reply, speaker, verbs, h) {
            Settled::End(r) => {
                self.end(r);
            },
            _ => {
                assert(false);
            },
        }
    }
}

/// The number of the last reply has no part in what tools a seat declares.
proof fn lemma_face_ignores_reply(a: MemberTools, b: MemberTools)
    requires
        b == (MemberTools { reply_seq: b.reply_seq, ..a }),
    ensures
        converse::whole_face(a) == converse::whole_face(b),
{
    lemma_builtin_ignores_reply(a, b, a.sandbox.builtin_tools@.len() as int);
    assert(converse::patch_face(a) == converse::patch_face(b));
}

proof fn lemma_builtin_ignores_reply(a: MemberTools, b: MemberTools, n: int)
    requires
        b == (MemberTools { reply_seq: b.reply_seq, ..a }),
    ensures
        converse::builtin_face(a, n) == converse::builtin_face(b, n),
    decreases n,
{
    if n > 0 {
        lemma_builtin_ignores_reply(a, b, n - 1);
    }
}

/// A reply that was broken off is the last of its turn, and a call that failed, or
/// a reply that asks for nothing, is too.
pub proof fn a_broken_turn_is_over<I: SysIo, R: ToolRunner>(
    io: I,
    runner: R,
    seat: MemberTools,
    asked: Asked,
    speaker: Seq<char>,
    verbs: bool,
    h: Heard,
    before: TalkV,
    after: TalkV,
    seen: Seq<(Seq<char>, SeenV)>,
    events: Seq<EventV>,
)
    requires
        turn_goes(io, runner, seat, asked, speaker, verbs, h, true, before, after, seen, events),
    ensures
        after.over,
{
}

/// A reply that could not be had leaves nothing in the history, and ends the turn.
pub proof fn a_failed_call_leaves_no_trace<I: SysIo, R: ToolRunner>(
    io: I,
    runner: R,
    seat: MemberTools,
    asked: Asked,
    speaker: Seq<char>,
    verbs: bool,
    h: Heard,
    aborted: bool,
    before: TalkV,
    after: TalkV,
    seen: Seq<(Seq<char>, SeenV)>,
    events: Seq<EventV>,
)
    requires
        h.done.error is Some,
        turn_goes(io, runner, seat, asked, speaker, verbs, h, aborted, before, after, seen, events),
    ensures
        after.over,
        seen == seat.observations@,
        after.msgs == before.msgs,
        after.rounds == before.rounds.push(converse::failed_round(asked.reply, h.done.error->0@)),
        events.len() == 0,
{
}

/// What is noted of a reply that was cut at its greatest length.
pub open spec fn cut_text(finish: Seq<char>, round: nat, chars: nat) -> Seq<char> {
    "模型输出被长度截断（finish_reason="@ + finish + "）：第 "@ + text::decimal(round) + " 轮，正文 "@
        + text::decimal(chars) + " 字"@
}

/// What is to be noted of a reply that came after `rounds` rounds, if anything is.
pub fn cut_note(done: &Completion, rounds: usize) -> (r: Option<String>)
    requires
        rounds < usize::MAX,
    ensures
        text::opt_text(r) == if done.error is None && ports::cut_short(done.finish@) {
            Some(cut_text(done.finish@, (rounds + 1) as nat, done.raw@.len()))
        } else {
            None
        },
{
    if done.error.is_some() || !done.truncated() {
        return None;
    }
    let head = cat5(
        "模型输出被长度截断（finish_reason=",
        done.finish.as_str(),
        "）：第 ",
        dec_usize(rounds + 1).as_str(),
        " 轮，正文 ",
    );
    let n = done.raw.as_str().unicode_len();
    let r = cat3(head.as_str(), dec_usize(n).as_str(), " 字");
    assert(r@ =~= cut_text(done.finish@, (rounds + 1) as nat, done.raw@.len()));
    Some(r)
}

/// A reply is taken as it came, unless its call was broken and could be mended into one
/// that is not; what was mended is then said. A reply that was cut off by the user, and
/// a broken patch, are not mended.
pub proof fn only_broken_calls_are_mended(raw: Seq<char>, aborted: bool, repair: Option<RepairOutcome>)
    ensures
        ({
            let a = taken_text(raw, aborted, repair);
            &&& repair is None ==> a.0 == raw && a.1.len() == 0
            &&& aborted || said_by(raw).tool is None || !(said_by(raw).tool->0).malformed || (said_by(
                raw,
            ).tool->0).name == PATCH@ ==> a.0 == raw && a.1.len() == 0
            &&& a.0 != raw ==> repair is Some && (repair->0).repaired is Some && a.0 == ((
            repair->0).repaired->0)@ && said_by(a.0).tool is Some && !(said_by(a.0).tool->0).malformed
            &&& !aborted && said_by(raw).tool is Some && (said_by(raw).tool->0).malformed && (said_by(
                raw,
            ).tool->0).name != PATCH@ && (repair matches Some(o) && (o.repaired matches Some(t) && said_by(
                t@,
            ).tool is Some && !(said_by(t@).tool->0).malformed)) ==> a.0 == ((repair->0).repaired->0)@
        }),
{
}

} // verus!
