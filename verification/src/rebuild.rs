//! A session from its transcript: the dialogue that was had is made again from the
//! lines that were kept, as the model would have it now.
use crate::converse::{self, RoundV, extend_msgs, reply_msgs};
use crate::events::{self, CallV, LineV, LineView, ToolCallView};
use crate::ports::{self, Msg, MsgV};
use crate::prompt::{self, ToolTexts};
use crate::providers::ToolMode;
use crate::session;
use crate::text::{self, find_in, slice, starts_with, to_chars};
use vstd::prelude::*;

verus! {

/// A session's dialogue and what its lines stand for.
#[derive(Debug)]
pub struct Rebuilt {
    pub dialogue: Vec<Msg>,
    pub marks: Vec<usize>,
    pub line_reply: Vec<u64>,
}

#[verifier::ext_equal]
pub struct RebuiltV {
    pub dialogue: Seq<MsgV>,
    pub marks: Seq<usize>,
    pub line_reply: Seq<u64>,
}

impl View for Rebuilt {
    type V = RebuiltV;

    open spec fn view(&self) -> RebuiltV {
        RebuiltV {
            dialogue: ports::msgs_v(self.dialogue@),
            marks: self.marks@,
            line_reply: self.line_reply@,
        }
    }
}

/// What marks keep: each line has one and a reply, later lines are marked no earlier,
/// and no mark is past what was said.
pub open spec fn well_marked(s: RebuiltV) -> bool {
    &&& s.line_reply.len() == s.marks.len()
    &&& forall|i: int, j: int| 0 <= i <= j < s.marks.len() ==> s.marks[i] <= s.marks[j]
    &&& forall|i: int| 0 <= i < s.marks.len() ==> (#[trigger] s.marks[i]) <= s.dialogue.len()
    &&& s.dialogue.len() <= usize::MAX
}

/// The reply a line's call belongs to; 0 for a line without a call.
pub open spec fn call_reply(l: LineV) -> u64 {
    match l.tool {
        Some(c) => c.reply,
        None => 0,
    }
}

/// Where the run of lines of a reply's calls ends that goes through `i`.
pub open spec fn calls_end(lines: Seq<LineV>, reply: u64, i: int) -> int
    decreases lines.len() - i,
{
    if i < 0 || i >= lines.len() || call_reply(lines[i]) != reply {
        i
    } else {
        calls_end(lines, reply, i + 1)
    }
}

/// The calls of the lines from `i` to `j`.
pub open spec fn calls_between(lines: Seq<LineV>, i: int, j: int) -> Seq<CallV>
    decreases j - i,
{
    if i >= j {
        Seq::empty()
    } else {
        calls_between(lines, i, j - 1) + match lines[j - 1].tool {
            Some(c) => seq![c],
            None => Seq::empty(),
        }
    }
}

/// The text of a reply: the first that one of its calls kept.
pub open spec fn kept_raw(calls: Seq<CallV>, k: int) -> Seq<char>
    decreases calls.len() - k,
{
    if k < 0 || k >= calls.len() {
        Seq::empty()
    } else if calls[k].raw.len() > 0 {
        calls[k].raw
    } else {
        kept_raw(calls, k + 1)
    }
}

/// What was said in a line, without who said it.
pub open spec fn said_in(line: Seq<char>) -> Seq<char> {
    match text::find_from(line, "] "@, 0) {
        Some(i) => line.skip(i + 2),
        None => line,
    }
}

/// With `n` lines more, all of one reply.
pub open spec fn with_marks(s: RebuiltV, reply: u64, n: int) -> RebuiltV
    decreases n,
{
    if n <= 0 {
        s
    } else {
        let p = with_marks(s, reply, n - 1);
        RebuiltV {
            marks: p.marks.push(s.dialogue.len() as usize),
            line_reply: p.line_reply.push(reply),
            ..p
        }
    }
}

/// The line at `i`, and those that belong with it; and where the next one is.
pub open spec fn one_more(
    lines: Seq<LineV>,
    mode: ToolMode,
    t: ToolTexts,
    s: RebuiltV,
    i: int,
) -> (RebuiltV, int) {
    let l = lines[i];
    if text::starts(l.line, "[用户] "@) {
        (
            with_marks(
                RebuiltV {
                    dialogue: s.dialogue.push(
                        ports::plain_msg("user"@, l.line.skip("[用户] "@.len() as int)),
                    ),
                    ..s
                },
                l.id,
                1,
            ),
            i + 1,
        )
    } else if l.tool is Some {
        let reply = call_reply(l);
        let j = calls_end(lines, reply, i);
        let calls = calls_between(lines, i, j);
        (
            with_marks(
                RebuiltV {
                    dialogue: s.dialogue + converse::reply_messages(mode, kept_raw(calls, 0), calls, t),
                    ..s
                },
                reply,
                j - i,
            ),
            j,
        )
    } else {
        let before_call = i + 1 < lines.len() && lines[i + 1].tool is Some;
        (
            with_marks(
                if before_call {
                    s
                } else {
                    RebuiltV {
                        dialogue: s.dialogue.push(ports::plain_msg("assistant"@, said_in(l.line))),
                        ..s
                    }
                },
                l.reply,
                1,
            ),
            i + 1,
        )
    }
}

proof fn lemma_calls_end(lines: Seq<LineV>, reply: u64, i: int)
    requires
        0 <= i <= lines.len(),
    ensures
        i <= calls_end(lines, reply, i) <= lines.len(),
        i < lines.len() && call_reply(lines[i]) == reply ==> i < calls_end(lines, reply, i),
    decreases lines.len() - i,
{
    if i < lines.len() && call_reply(lines[i]) == reply {
        lemma_calls_end(lines, reply, i + 1);
    }
}

/// The session that the lines from `i` on make of a state.
pub open spec fn rebuilt_from(
    lines: Seq<LineV>,
    mode: ToolMode,
    t: ToolTexts,
    s: RebuiltV,
    i: int,
) -> RebuiltV
    decreases lines.len() - i,
    via rebuilt_decreases
{
    if i < 0 || i >= lines.len() {
        s
    } else {
        let n = one_more(lines, mode, t, s, i);
        rebuilt_from(lines, mode, t, n.0, n.1)
    }
}

#[via_fn]
proof fn rebuilt_decreases(
    lines: Seq<LineV>,
    mode: ToolMode,
    t: ToolTexts,
    s: RebuiltV,
    i: int,
) {
    if 0 <= i < lines.len() {
        lemma_calls_end(lines, call_reply(lines[i]), i);
    }
}

pub open spec fn nothing() -> RebuiltV {
    RebuiltV { dialogue: Seq::empty(), marks: Seq::empty(), line_reply: Seq::empty() }
}

fn reply_of_call(l: &LineView) -> (r: u64)
    ensures
        r == call_reply(l@),
{
    match &l.tool {
        Some(c) => c.reply,
        None => 0,
    }
}

fn push_marks(s: &mut Rebuilt, reply: u64, n: usize)
    ensures
        final(s)@ == with_marks(old(s)@, reply, n as int),
        final(s).dialogue == old(s).dialogue,
        well_marked(old(s)@) ==> well_marked(final(s)@),
{
    let ghost start = s@;
    let len = s.dialogue.len();
    assert(ports::msgs_v(s.dialogue@).len() == len);
    let mut k: usize = 0;
    while k < n
        invariant
            k <= n,
            start.dialogue.len() == len,
            start == old(s)@,
            s.dialogue == old(s).dialogue,
            s@ == with_marks(start, reply, k as int),
            well_marked(start) ==> well_marked(s@),
        decreases n - k,
    {
        s.marks.push(len);
        s.line_reply.push(reply);
        k = k + 1;
        assert(s@ =~= with_marks(start, reply, k as int));
    }
}

fn push_said(s: &mut Rebuilt, m: Msg)
    ensures
        final(s)@ == (RebuiltV { dialogue: old(s)@.dialogue.push(m@), ..old(s)@ }),
        well_marked(old(s)@) ==> well_marked(final(s)@),
{
    let ghost before = s.dialogue@;
    s.dialogue.push(m);
    assert(s.dialogue.len() <= usize::MAX);
    assert(ports::msgs_v(s.dialogue@) =~= ports::msgs_v(before).push(m@));
}

fn take_calls(lines: &Vec<LineView>, i: usize, reply: u64) -> (r: (Vec<ToolCallView>, usize))
    requires
        i < lines@.len(),
        call_reply(lines@[i as int]@) == reply,
    ensures
        r.1 == calls_end(events::line_views(lines@), reply, i as int),
        i < r.1 <= lines@.len(),
        converse::call_views(r.0@) == calls_between(events::line_views(lines@), i as int, r.1 as int),
{
    let ghost lv = events::line_views(lines@);
    let mut calls: Vec<ToolCallView> = Vec::new();
    let mut j: usize = i;
    proof {
        assert(lv[i as int] == lines@[i as int]@);
        lemma_calls_end(lv, reply, i as int);
        assert(converse::call_views(calls@) =~= Seq::empty());
    }
    while j < lines.len() && reply_of_call(&lines[j]) == reply
        invariant
            i <= j <= lines@.len(),
            lv == events::line_views(lines@),
            calls_end(lv, reply, i as int) == calls_end(lv, reply, j as int),
            converse::call_views(calls@) == calls_between(lv, i as int, j as int),
        decreases lines@.len() - j,
    {
        assert(lv[j as int] == lines@[j as int]@);
        let ghost prev = calls@;
        match &lines[j].tool {
            Some(c) => {
                calls.push(c.copy());
                assert(converse::call_views(calls@) =~= converse::call_views(prev).push(c@));
            },
            None => {},
        }
        j = j + 1;
        assert(converse::call_views(calls@) =~= calls_between(lv, i as int, j as int));
    }
    if j < lines.len() {
        assert(lv[j as int] == lines@[j as int]@);
    }
    (calls, j)
}

fn find_raw(calls: &Vec<ToolCallView>) -> (r: String)
    ensures
        r@ == kept_raw(converse::call_views(calls@), 0),
{
    let ghost cv = converse::call_views(calls@);
    let mut k: usize = 0;
    while k < calls.len()
        invariant
            k <= calls@.len(),
            cv == converse::call_views(calls@),
            kept_raw(cv, 0) == kept_raw(cv, k as int),
        decreases calls@.len() - k,
    {
        assert(cv[k as int] == calls@[k as int]@);
        if calls[k].raw.as_str().unicode_len() > 0 {
            return calls[k].raw.clone();
        }
        k = k + 1;
    }
    String::new()
}

/// What was said in a line.
pub fn line_said(line: &str) -> (r: String)
    ensures
        r@ == said_in(line@),
{
    let v = to_chars(line);
    let p = to_chars("] ");
    proof {
        reveal_strlit("] ");
    }
    match find_in(&v, &p, 0) {
        Some(i) => {
            let n = v.len();
            assert(i + 2 <= n);
            let s = slice(&v, i + 2, n);
            assert(s@ =~= line@.skip(i + 2));
            s
        },
        None => line.to_owned(),
    }
}

/// Makes a session's dialogue again from its lines.
pub fn rebuild(lines: &Vec<LineView>, mode: ToolMode, texts: &ToolTexts) -> (r: Rebuilt)
    requires
        prompt::texts_sound(*texts),
    ensures
        r@ == rebuilt_from(events::line_views(lines@), mode, *texts, nothing(), 0),
        well_marked(r@),
        r@.marks.len() == lines@.len(),
{
    let ghost lv = events::line_views(lines@);
    let ghost all = rebuilt_from(lv, mode, *texts, nothing(), 0);
    let mut s = Rebuilt { dialogue: Vec::new(), marks: Vec::new(), line_reply: Vec::new() };
    assert(s@ =~= nothing());
    let mut i: usize = 0;
    while i < lines.len()
        invariant
            i <= lines@.len(),
            prompt::texts_sound(*texts),
            lv == events::line_views(lines@),
            rebuilt_from(lv, mode, *texts, s@, i as int) == all,
            well_marked(s@),
        decreases lines@.len() - i,
    {
        let l = &lines[i];
        let ghost before = s@;
        let ghost at = i as int;
        assert(lv[at] == l@);
        if starts_with(l.line.as_str(), "[用户] ") {
            proof {
                reveal_strlit("[用户] ");
            }
            let v = to_chars(l.line.as_str());
            let t = slice(&v, 5, v.len());
            assert(t@ =~= l@.line.skip(5));
            push_said(&mut s, Msg::user(t));
            push_marks(&mut s, l.id, 1);
            i = i + 1;
        } else if l.tool.is_some() {
            let reply = reply_of_call(l);
            let (calls, j) = take_calls(lines, i, reply);
            let raw = find_raw(&calls);
            let msgs = reply_msgs(mode, raw.as_str(), &calls, texts);
            extend_msgs(&mut s.dialogue, &msgs);
            assert(s.dialogue.len() <= usize::MAX);
            assert(well_marked(s@));
            push_marks(&mut s, reply, j - i);
            i = j;
        } else {
            let before_call = i + 1 < lines.len() && lines[i + 1].tool.is_some();
            assert(before_call == (i + 1 < lv.len() && lv[i + 1].tool is Some)) by {
                if i + 1 < lv.len() {
                    assert(lv[i + 1] == lines@[i + 1]@);
                }
            }
            if !before_call {
                push_said(&mut s, Msg::assistant(line_said(l.line.as_str())));
            }
            push_marks(&mut s, l.reply, 1);
            i = i + 1;
        }
        assert((s@, i as int) == one_more(lv, mode, *texts, before, at));
    }
    proof {
        every_line_is_marked(lv, mode, *texts, nothing(), 0);
    }
    s
}


proof fn lemma_calls_between(lines: Seq<LineV>, views: Seq<CallV>, i: int, n: int)
    requires
        0 <= i,
        0 <= n <= views.len(),
        i + views.len() <= lines.len(),
        forall|k: int| 0 <= k < views.len() ==> (#[trigger] lines[i + k]).tool == Some(views[k]),
    ensures
        calls_between(lines, i, i + n) == views.take(n),
    decreases n,
{
    if n > 0 {
        lemma_calls_between(lines, views, i, n - 1);
        assert(lines[i + (n - 1)].tool == Some(views[n - 1]));
        assert(calls_between(lines, i, i + n) =~= views.take(n));
    } else {
        assert(calls_between(lines, i, i) =~= views.take(0));
    }
}

proof fn lemma_calls_end_is(lines: Seq<LineV>, views: Seq<CallV>, reply: u64, i: int, n: int)
    requires
        0 <= i,
        0 <= n <= views.len(),
        i + views.len() <= lines.len(),
        forall|k: int|
            0 <= k < views.len() ==> (#[trigger] lines[i + k]).tool == Some(views[k])
                && views[k].reply == reply,
        i + views.len() == lines.len() || call_reply(lines[i + views.len()]) != reply,
    ensures
        calls_end(lines, reply, i + n) == i + views.len(),
    decreases views.len() - n,
{
    if n < views.len() {
        assert(lines[i + n].tool == Some(views[n]));
        lemma_calls_end_is(lines, views, reply, i, n + 1);
    }
}

proof fn lemma_kept_raw(calls: Seq<CallV>, raw: Seq<char>, k: int)
    requires
        0 <= k <= calls.len(),
        forall|j: int| 0 <= j < calls.len() ==> (#[trigger] calls[j]).raw == raw,
    ensures
        kept_raw(calls, k) == if k < calls.len() {
            raw
        } else {
            Seq::empty()
        },
    decreases calls.len() - k,
{
    if k < calls.len() {
        lemma_kept_raw(calls, raw, k + 1);
        if raw.len() == 0 {
            assert(raw =~= Seq::empty());
        }
    }
}

/// The lines of a reply's calls make the messages again that the reply left when it
/// came: what the model reads after a restart is what it read before.
pub proof fn rebuilding_repeats_the_reply(
    lines: Seq<LineV>,
    mode: ToolMode,
    t: ToolTexts,
    s: RebuiltV,
    i: int,
    views: Seq<CallV>,
    raw: Seq<char>,
)
    requires
        0 <= i,
        views.len() > 0,
        i + views.len() <= lines.len(),
        forall|k: int|
            0 <= k < views.len() ==> (#[trigger] lines[i + k]).tool == Some(views[k])
                && views[k].reply == views[0].reply && views[k].raw == raw,
        i + views.len() == lines.len() || call_reply(lines[i + views.len()]) != views[0].reply,
        !text::starts(lines[i].line, "[用户] "@),
    ensures
        ({
            let n = one_more(lines, mode, t, s, i);
            &&& n.1 == i + views.len()
            &&& n.0.dialogue == s.dialogue + converse::reply_messages(mode, raw, views, t)
        }),
{
    let reply = views[0].reply;
    assert(lines[i + 0].tool == Some(views[0]));
    lemma_calls_end_is(lines, views, reply, i, 0);
    lemma_calls_between(lines, views, i, views.len() as int);
    assert(views.take(views.len() as int) =~= views);
    assert forall|j: int| 0 <= j < views.len() implies (#[trigger] views[j]).raw == raw by {
        assert(lines[i + j].tool == Some(views[j]));
    }
    lemma_kept_raw(views, raw, 0);
    lemma_marks_keep_dialogue(
        RebuiltV { dialogue: s.dialogue + converse::reply_messages(mode, raw, views, t), ..s },
        reply,
        views.len() as int,
    );
}

proof fn lemma_marks_keep_dialogue(s: RebuiltV, reply: u64, n: int)
    ensures
        with_marks(s, reply, n).dialogue == s.dialogue,
    decreases n,
{
    if n > 0 {
        lemma_marks_keep_dialogue(s, reply, n - 1);
    }
}

/// The line of what an agent said makes the message again that it left, where the
/// reply was neither stopped nor cut and says something.
pub proof fn rebuilding_repeats_what_was_said(id: Seq<char>, t: ToolTexts, r: RoundV)
    requires
        !id.contains(']'),
        text::trimmed(r.text).len() > 0,
        !ports::cut_short(r.finish),
    ensures
        ports::plain_msg("assistant"@, said_in(session::said_line(id, t, r, false))) == ports::plain_msg(
            "assistant"@,
            text::trimmed(r.text),
        ),
{
    let text = text::trimmed(r.text);
    let line = session::said_line(id, t, r, false);
    reveal_strlit("[");
    reveal_strlit("]");
    reveal_strlit(" ");
    reveal_strlit("] ");
    let plain = "["@ + id + "]"@ + " "@ + text;
    assert(line =~= plain);
    let at = 1 + id.len() as int;
    assert(text::stands_at(line, "] "@, at)) by {
        assert(line.subrange(at, at + 2) =~= "] "@);
    }
    assert forall|k: int| 0 <= k < at implies !#[trigger] text::stands_at(line, "] "@, k) by {
        if text::stands_at(line, "] "@, k) {
            assert(line.subrange(k, k + 2)[0] == ']');
            assert(line[k] == ']');
            if k > 0 {
                assert(line[k] == id[k - 1]);
                assert(id.contains(']'));
            }
        }
    }
    lemma_first_at(line, "] "@, 0, at);
    assert(line.skip(at + 2) =~= text);
}

proof fn lemma_first_at(s: Seq<char>, p: Seq<char>, from: int, at: int)
    requires
        0 <= from <= at,
        text::stands_at(s, p, at),
        forall|k: int| from <= k < at ==> !#[trigger] text::stands_at(s, p, k),
    ensures
        text::find_from(s, p, from) == Some(at),
    decreases at - from,
{
    if from < at {
        lemma_first_at(s, p, from + 1, at);
    }
}

/// Every line gets a mark and a reply: the session that is made again can be gone
/// back in line by line.
pub proof fn every_line_is_marked(
    lines: Seq<LineV>,
    mode: ToolMode,
    t: ToolTexts,
    s: RebuiltV,
    i: int,
)
    requires
        0 <= i <= lines.len(),
        s.marks.len() == i,
        s.line_reply.len() == i,
    ensures
        rebuilt_from(lines, mode, t, s, i).marks.len() == lines.len(),
        rebuilt_from(lines, mode, t, s, i).line_reply.len() == lines.len(),
    decreases lines.len() - i,
{
    if i < lines.len() {
        let n = one_more(lines, mode, t, s, i);
        lemma_calls_end(lines, call_reply(lines[i]), i);
        lemma_marks_len(lines, mode, t, s, i);
        every_line_is_marked(lines, mode, t, n.0, n.1);
    }
}

proof fn lemma_marks_len(lines: Seq<LineV>, mode: ToolMode, t: ToolTexts, s: RebuiltV, i: int)
    requires
        0 <= i < lines.len(),
        s.marks.len() == i,
        s.line_reply.len() == i,
    ensures
        one_more(lines, mode, t, s, i).0.marks.len() == one_more(lines, mode, t, s, i).1,
        one_more(lines, mode, t, s, i).0.line_reply.len() == one_more(lines, mode, t, s, i).1,
{
    lemma_calls_end(lines, call_reply(lines[i]), i);
    let n = one_more(lines, mode, t, s, i).1 - i;
    lemma_with_marks_len(
        RebuiltV {
            dialogue: s.dialogue.push(
                ports::plain_msg("user"@, lines[i].line.skip("[用户] "@.len() as int)),
            ),
            ..s
        },
        lines[i].id,
        1,
    );
    lemma_with_marks_len(s, lines[i].reply, 1);
    lemma_with_marks_len(
        RebuiltV {
            dialogue: s.dialogue.push(ports::plain_msg("assistant"@, said_in(lines[i].line))),
            ..s
        },
        lines[i].reply,
        1,
    );
    let j = calls_end(lines, call_reply(lines[i]), i);
    let calls = calls_between(lines, i, j);
    lemma_with_marks_len(
        RebuiltV {
            dialogue: s.dialogue + converse::reply_messages(mode, kept_raw(calls, 0), calls, t),
            ..s
        },
        call_reply(lines[i]),
        j - i,
    );
}

proof fn lemma_with_marks_len(s: RebuiltV, reply: u64, n: int)
    requires
        n >= 0,
    ensures
        with_marks(s, reply, n).marks.len() == s.marks.len() + n,
        with_marks(s, reply, n).line_reply.len() == s.line_reply.len() + n,
    decreases n,
{
    if n > 0 {
        lemma_with_marks_len(s, reply, n - 1);
    }
}

/// What was said in a line is what stands behind its speaker.
pub proof fn lines_say_what_was_said(id: Seq<char>, said: Seq<char>)
    requires
        !id.contains(']'),
    ensures
        said_in(seq!['['] + id + seq![']', ' '] + said) == said,
{
    reveal_strlit("] ");
    assert("] "@ =~= seq![']', ' ']);
    let s = seq!['['] + id + seq![']', ' '] + said;
    lemma_first_bracket(s, id, said, 0);
    assert(s.skip(id.len() as int + 3) =~= said);
}

proof fn lemma_first_bracket(s: Seq<char>, id: Seq<char>, said: Seq<char>, i: int)
    requires
        !id.contains(']'),
        s == seq!['['] + id + seq![']', ' '] + said,
        0 <= i <= id.len() + 1,
    ensures
        text::find_from(s, "] "@, i) == Some(id.len() as int + 1),
    decreases id.len() + 1 - i,
{
    reveal_strlit("] ");
    assert("] "@ =~= seq![']', ' ']);
    if i == id.len() + 1 {
        assert(s.subrange(i, i + 2) =~= "] "@);
    } else {
        if i > 0 {
            assert(id.contains(id[i - 1]));
            assert(s[i] == id[i - 1]);
        }
        if text::stands_at(s, "] "@, i) {
            assert(s.subrange(i, i + 2)[0] == s[i]);
        }
        lemma_first_bracket(s, id, said, i + 1);
    }
}

} // verus!
