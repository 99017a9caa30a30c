//! Operations of the core: steps that drive the work (a plan, a verdict, a roster)
//! and are therefore calls of a tool, never prose. The model may look at files
//! first; what it looked at is told to it, and it is asked again.
use crate::converse::{self, DeclV, reply_msgs};
use crate::engine::MemberTools;
use crate::envelope::ReplyV;
use crate::events::{self, CallV, LineV, LineView, ToolCallView};
use crate::json::{self, Json, JsonV, parse_json, print_json};
use crate::ports::{self, Completion, Msg, MsgV, SysIo, ToolCall, ToolCallV, copy_calls};
use crate::prompt;
use crate::providers::ToolMode;
use crate::roles::{self, SystemTools};
use crate::schema::ToolSchema;
use crate::systool::{self, SeenV, truncate_chars};
use crate::table;
use crate::text::{self, cat4, cat5, has_text, is_blank, str_eq, trim};
use crate::turn;
use crate::workspace::Sandbox;
use vstd::prelude::*;

verus! {

pub open spec fn core_name() -> Seq<char> {
    "核心"@
}

/// The line of what the core said, if it said anything.
pub open spec fn core_text_rows(text: Seq<char>) -> Seq<LineV> {
    if text::trimmed(text).len() == 0 {
        Seq::empty()
    } else {
        seq![LineV { speaker: core_name(), kind: "msg"@, ..events::plain_line(text::trimmed(text)) }]
    }
}

/// The line of a call the core made.
pub open spec fn core_tool_row(tool: Seq<char>, view: CallV, reasoning: Seq<char>) -> LineV {
    LineV {
        speaker: core_name(),
        verb: tool,
        kind: "tool"@,
        reasoning: if text::trimmed(reasoning).len() == 0 {
            None
        } else {
            Some(reasoning)
        },
        tool: Some(view),
        ..events::plain_line(
            "工具 "@ + view.label() + " → "@ + if view.ok {
                "成功"@
            } else {
                "失败"@
            },
        )
    }
}

/// The lines of a round of the core: what it said, and the call it made.
pub open spec fn core_lines(
    tool: Seq<char>,
    view: CallV,
    reasoning: Seq<char>,
    text: Seq<char>,
) -> Seq<LineV> {
    core_text_rows(text).push(core_tool_row(tool, view, reasoning))
}

/// The lines of a round of the core.
pub fn core_rows(tool: &str, view: ToolCallView, reasoning: &str, text: &str) -> (r: Vec<LineView>)
    ensures
        events::line_views(r@) == core_lines(tool@, view@, reasoning@, text@),
{
    let mut rows: Vec<LineView> = Vec::new();
    if !is_blank(text) {
        let l = LineView {
            speaker: "核心".to_owned(),
            kind: "msg".to_owned(),
            ..LineView::plain(trim(text))
        };
        assert(l@ =~= LineV {
            speaker: core_name(),
            kind: "msg"@,
            ..events::plain_line(text::trimmed(text@))
        });
        rows.push(l);
    }
    assert(events::line_views(rows@) =~= core_text_rows(text@));
    let ghost head = rows@;
    let label = view.label();
    let line = cat4(
        "工具 ",
        label.as_str(),
        " → ",
        if view.ok {
            "成功"
        } else {
            "失败"
        },
    );
    let ghost vv = view@;
    let thought = if is_blank(reasoning) {
        None
    } else {
        Some(reasoning.to_owned())
    };
    let l = LineView {
        speaker: "核心".to_owned(),
        verb: tool.to_owned(),
        kind: "tool".to_owned(),
        reasoning: thought,
        tool: Some(view),
        ..LineView::plain(line)
    };
    assert(l@ =~= core_tool_row(tool@, vv, reasoning@));
    rows.push(l);
    assert(events::line_views(rows@) =~= events::line_views(head).push(l@));
    rows
}

/// The first call of a name, from the `i`th on.
pub open spec fn call_named(calls: Seq<ToolCallV>, name: Seq<char>, i: int) -> Option<ToolCallV>
    decreases calls.len() - i,
{
    if i < 0 || i >= calls.len() {
        None
    } else if calls[i].name == name {
        Some(calls[i])
    } else {
        call_named(calls, name, i + 1)
    }
}

/// The calls an envelope makes.
pub open spec fn envelope_calls(r: ReplyV) -> Seq<ToolCallV> {
    match r.tool {
        Some(t) => seq![ToolCallV { id: Seq::empty(), name: t.name, args_json: t.args_json }],
        None => Seq::empty(),
    }
}

/// The call of the operation's tool in a reply: a native one, else one by envelope.
pub open spec fn operation_call(calls: Seq<ToolCallV>, r: ReplyV, tool: Seq<char>) -> Option<
    ToolCallV,
> {
    match call_named(calls, tool, 0) {
        Some(c) => Some(c),
        None => call_named(envelope_calls(r), tool, 0),
    }
}

pub open spec fn completion_reasoning(done: Completion) -> Seq<char> {
    match done.reasoning {
        Some(r) => r@,
        None => Seq::empty(),
    }
}

/// The view of the call that carries the payload.
pub open spec fn payload_view(tool: Seq<char>, c: ToolCallV, payload: JsonV, raw: Seq<char>) -> CallV {
    CallV {
        speaker: core_name(),
        module: Seq::empty(),
        name: tool,
        ok: true,
        args: c.args_json,
        output: systool::clip(json::json_text(payload), 400),
        raw,
        call_id: c.id,
        reply: 0,
    }
}

/// What a call of the operation's tool gives: its arguments, and the lines that show
/// it; or why they cannot be read.
pub open spec fn payload_of(tool: Seq<char>, c: ToolCallV, done: Completion) -> Result<
    (JsonV, Seq<LineV>),
    Seq<char>,
> {
    match json::json_of(c.args_json) {
        Ok(v) => Ok(
            (
                v,
                core_lines(
                    tool,
                    payload_view(tool, c, v, done.raw@),
                    completion_reasoning(done),
                    turn::said_by(done.raw@).text,
                ),
            ),
        ),
        Err(e) => Err(tool + " 的参数不是合法 JSON（"@ + e + "）："@ + c.args_json),
    }
}

/// Why an operation failed whose tool was not called.
pub open spec fn not_called_text(tool: Seq<char>, raw: Seq<char>) -> Seq<char> {
    "没有调用 "@ + tool + "（核心操作必须走工具调用）："@ + systool::clip(raw, 200)
}

fn not_called(tool: &str, raw: &str) -> (r: String)
    ensures
        r@ == not_called_text(tool@, raw@),
{
    let head = truncate_chars(raw, 200).0;
    cat4("没有调用 ", tool, "（核心操作必须走工具调用）：", head.as_str())
}

/// What comes of a reply to an operation.
#[derive(Debug)]
pub enum Operated {
    /// The arguments of the operation's tool, and the lines that show the call.
    Done(Json, Vec<LineView>),
    /// It looked at files: the lines that show it, and the messages that tell it
    /// what it saw. It is asked again.
    Looked(Vec<LineView>, Vec<Msg>),
    Failed(String),
}

/// The tools of a role; none where the tables do not give it a face.
pub open spec fn face_names(s: SystemTools, role: Seq<char>) -> Seq<Seq<char>> {
    if roles::face_fault(s, role) is None {
        roles::role_tools(s, role)
    } else {
        Seq::empty()
    }
}

/// How the tools of a role are declared on a native channel; elsewhere the prompt
/// tells of them, and nothing is declared.
pub open spec fn role_decls(s: SystemTools, role: Seq<char>, mode: ToolMode) -> Seq<DeclV> {
    if mode == ToolMode::Native {
        face_names(s, role).map_values(
            |id: Seq<char>| converse::schema_decl(id, table::lookup(s.tools@, id)->0@),
        )
    } else {
        Seq::empty()
    }
}

/// Declares the tools of a role.
pub fn declare_role(s: &SystemTools, role: &str, mode: ToolMode) -> (r: Vec<crate::ports::ToolDecl>)
    ensures
        converse::decls_v(r@) == role_decls(*s, role@, mode),
{
    let mut out: Vec<crate::ports::ToolDecl> = Vec::new();
    let ghost all = role_decls(*s, role@, mode);
    assert(converse::decls_v(out@) =~= Seq::empty());
    if mode != ToolMode::Native {
        return out;
    }
    match s.tool_face(role) {
        Ok(face) => {
            let mut i: usize = 0;
            while i < face.len()
                invariant
                    i <= face@.len(),
                    mode == ToolMode::Native,
                    roles::face_fault(*s, role@) is None,
                    face@.len() == roles::role_tools(*s, role@).len(),
                    forall|k: int|
                        0 <= k < face@.len() ==> (#[trigger] face@[k]).0@ == roles::role_tools(
                            *s,
                            role@,
                        )[k] && table::lookup(s.tools@, face@[k].0@) == Some(*face@[k].1),
                    all == role_decls(*s, role@, mode),
                    converse::decls_v(out@) == all.take(i as int),
                decreases face@.len() - i,
            {
                let (id, schema) = face[i];
                let ghost prev = out@;
                let d = schema.decl(id);
                out.push(d);
                proof {
                    assert(face@[i as int].0@ == id@);
                    assert(converse::decl_v(d) =~= converse::schema_decl(id@, schema@));
                    assert(converse::decls_v(out@) =~= converse::decls_v(prev).push(converse::decl_v(d)));
                    assert(all[i as int] == converse::decl_v(d));
                    assert(converse::decls_v(out@) =~= all.take(i + 1));
                }
                i = i + 1;
            }
            assert(all.take(all.len() as int) =~= all);
        },
        Err(_) => {
            assert(converse::decls_v(out@) =~= all);
        },
    }
    out
}

pub fn name_face(s: &SystemTools, role: &str) -> (r: Vec<String>)
    ensures
        text::texts(r@) == face_names(*s, role@),
{
    let mut out: Vec<String> = Vec::new();
    match s.tool_face(role) {
        Ok(face) => {
            let ghost all = face_names(*s, role@);
            let mut i: usize = 0;
            while i < face.len()
                invariant
                    i <= face@.len(),
                    all == face_names(*s, role@),
                    roles::face_fault(*s, role@) is None,
                    face@.len() == roles::role_tools(*s, role@).len(),
                    forall|k: int|
                        0 <= k < face@.len() ==> (#[trigger] face@[k]).0@ == roles::role_tools(
                            *s,
                            role@,
                        )[k],
                    text::texts(out@) == all.take(i as int),
                decreases face@.len() - i,
            {
                let ghost prev = out@;
                let id = face[i].0.to_owned();
                out.push(id);
                proof {
                    text::lemma_texts_push(prev, id);
                    assert(face@[i as int].0@ == id@);
                    assert(text::texts(out@) =~= all.take(i + 1));
                }
                i = i + 1;
            }
            assert(all.take(all.len() as int) =~= all);
        },
        Err(_) => {
            assert(text::texts(out@) =~= Seq::empty());
        },
    }
    out
}

/// The calls a reply makes: the native ones on a native channel that has some, else
/// those by envelope.
pub open spec fn calls_made(mode: ToolMode, calls: Seq<ToolCallV>, r: ReplyV) -> Seq<ToolCallV> {
    if mode == ToolMode::Native && calls.len() > 0 {
        calls
    } else {
        envelope_calls(r)
    }
}

/// Whether a call only looks: its role has the tool, and the tool only reads files.
pub open spec fn only_looks(
    book: Seq<(Seq<char>, ToolSchema)>,
    face: Seq<Seq<char>>,
    c: ToolCallV,
) -> bool {
    face.contains(c.name) && (table::lookup(book, c.name) matches Some(s) && s.capability@ == "fs-read"@)
}

/// Those of the first `n` calls that only look.
pub open spec fn looks(
    book: Seq<(Seq<char>, ToolSchema)>,
    face: Seq<Seq<char>>,
    calls: Seq<ToolCallV>,
    n: int,
) -> Seq<ToolCallV>
    decreases n,
{
    if n <= 0 {
        Seq::empty()
    } else {
        let prev = looks(book, face, calls, n - 1);
        if only_looks(book, face, calls[n - 1]) {
            prev.push(calls[n - 1])
        } else {
            prev
        }
    }
}

/// The view of a call that looked, given what it gave.
pub open spec fn look_view(c: ToolCallV, raw: Seq<char>, out: (bool, Seq<char>)) -> CallV {
    CallV {
        speaker: core_name(),
        module: Seq::empty(),
        name: c.name,
        ok: out.0,
        args: c.args_json,
        output: out.1,
        raw,
        call_id: c.id,
        reply: 0,
    }
}

/// Whether this is the view of this call, whatever the files hold, with what is known
/// of files before and after it.
pub open spec fn looked<I: SysIo>(
    io: I,
    sb: Sandbox,
    obs: Seq<(Seq<char>, SeenV)>,
    c: ToolCallV,
    raw: Seq<char>,
    v: CallV,
    after: Seq<(Seq<char>, SeenV)>,
) -> bool {
    exists|out: (bool, Seq<char>)| #[trigger]
        systool::call_ends(io, sb, obs, c.name, c.args_json, out, after) && v == look_view(
            c,
            raw,
            out,
        )
}

/// Whether these are the views of these calls, made in turn.
pub open spec fn all_looked<I: SysIo>(
    io: I,
    sb: Sandbox,
    ledgers: Seq<Seq<(Seq<char>, SeenV)>>,
    calls: Seq<ToolCallV>,
    raw: Seq<char>,
    views: Seq<CallV>,
) -> bool {
    &&& views.len() == calls.len()
    &&& ledgers.len() == calls.len() + 1
    &&& forall|k: int|
        0 <= k < calls.len() ==> looked(
            io,
            sb,
            ledgers[k],
            calls[k],
            raw,
            #[trigger] views[k],
            ledgers[k + 1],
        )
}

/// The lines of calls that looked.
pub open spec fn look_lines(views: Seq<CallV>) -> Seq<LineV> {
    views.map_values(|v: CallV| core_tool_row(v.name, v, Seq::empty()))
}

/// Whether an operation goes on after looking: the calls that only look were run,
/// and the lines and messages are those of their views.
pub open spec fn went_looking<I: SysIo>(
    io: I,
    sb: Sandbox,
    obs: Seq<(Seq<char>, SeenV)>,
    mode: ToolMode,
    calls: Seq<ToolCallV>,
    raw: Seq<char>,
    lines: Seq<LineV>,
    msgs: Seq<MsgV>,
    after: Seq<(Seq<char>, SeenV)>,
) -> bool {
    exists|ledgers: Seq<Seq<(Seq<char>, SeenV)>>, views: Seq<CallV>| #[trigger]
        all_looked(io, sb, ledgers, calls, raw, views) && ledgers[0] == obs && ledgers.last()
            == after && lines == look_lines(views) && msgs == converse::reply_messages(
            mode,
            raw,
            views,
            sb.texts,
        )
}

pub fn calls_of(mode: ToolMode, done: &Completion) -> (r: Vec<ToolCall>)
    ensures
        ports::tool_calls_v(r@) == calls_made(mode, ports::tool_calls_v(done.calls@), turn::said_by(done.raw@)),
{
    assert(ports::tool_calls_v(done.calls@).len() == done.calls@.len());
    if mode == ToolMode::Native && done.calls.len() > 0 {
        copy_calls(&done.calls)
    } else {
        let mut out: Vec<ToolCall> = Vec::new();
        let reply = crate::envelope::parse(done.raw.as_str());
        match reply.tool {
            Some(t) => {
                let c = ToolCall { id: String::new(), name: t.name, args_json: t.args_json };
                out.push(c);
                assert(c@ =~= ToolCallV {
                    id: Seq::empty(),
                    name: t.name@,
                    args_json: t.args_json@,
                });
                assert(ports::tool_calls_v(out@) =~= seq![c@]);
            },
            None => {
                assert(ports::tool_calls_v(out@) =~= Seq::empty());
            },
        }
        out
    }
}

fn take_named<'a>(calls: &'a Vec<ToolCall>, name: &str) -> (r: Option<&'a ToolCall>)
    ensures
        match r {
            Some(c) => call_named(ports::tool_calls_v(calls@), name@, 0) == Some(c@),
            None => call_named(ports::tool_calls_v(calls@), name@, 0) is None,
        },
{
    let ghost cv = ports::tool_calls_v(calls@);
    let mut i: usize = 0;
    while i < calls.len()
        invariant
            i <= calls@.len(),
            cv == ports::tool_calls_v(calls@),
            call_named(cv, name@, 0) == call_named(cv, name@, i as int),
        decreases calls@.len() - i,
    {
        assert(cv[i as int] == calls@[i as int]@);
        if str_eq(calls[i].name.as_str(), name) {
            return Some(&calls[i]);
        }
        i = i + 1;
    }
    None
}

pub open spec fn payload_v(r: Result<(Json, Vec<LineView>), String>) -> Result<
    (JsonV, Seq<LineV>),
    Seq<char>,
> {
    match r {
        Ok(x) => Ok((x.0@, events::line_views(x.1@))),
        Err(e) => Err(e@),
    }
}

/// Takes the payload of an operation out of a reply; `None` where its tool was not
/// called.
pub fn operation_payload(tool: &str, done: &Completion) -> (r: Option<
    Result<(Json, Vec<LineView>), String>,
>)
    ensures
        match r {
            Some(p) => operation_call(ports::tool_calls_v(done.calls@), turn::said_by(done.raw@), tool@)
                is Some && payload_v(p) == payload_of(
                tool@,
                operation_call(ports::tool_calls_v(done.calls@), turn::said_by(done.raw@), tool@)->0,
                *done,
            ),
            None => operation_call(ports::tool_calls_v(done.calls@), turn::said_by(done.raw@), tool@) is None,
        },
{
    let by_envelope = calls_of(ToolMode::Envelope, done);
    let c = match take_named(&done.calls, tool) {
        Some(c) => c,
        None => match take_named(&by_envelope, tool) {
            Some(c) => c,
            None => {
                return None;
            },
        },
    };
    let text = crate::envelope::parse(done.raw.as_str()).text;
    let thought = match &done.reasoning {
        Some(r) => r.as_str(),
        None => "",
    };
    proof {
        reveal_strlit("");
        assert(thought@ =~= completion_reasoning(*done));
    }
    match parse_json(c.args_json.as_str()) {
        Err(e) => Some(
            Err(
                cat5(
                    tool,
                    " 的参数不是合法 JSON（",
                    e.as_str(),
                    "）：",
                    c.args_json.as_str(),
                ),
            ),
        ),
        Ok(v) => {
            let printed = print_json(&v);
            let view = ToolCallView {
                speaker: "核心".to_owned(),
                module: String::new(),
                name: tool.to_owned(),
                ok: true,
                args: c.args_json.clone(),
                output: truncate_chars(printed.as_str(), 400).0,
                raw: done.raw.clone(),
                call_id: c.id.clone(),
                reply: 0,
            };
            assert(view@ =~= payload_view(tool@, c@, v@, done.raw@));
            let rows = core_rows(tool, view, thought, text.as_str());
            Some(Ok((v, rows)))
        },
    }
}

/// What comes of a reply to an operation by a core that may look at files.
pub open spec fn operated<I: SysIo>(
    io: I,
    seat: MemberTools,
    s: SystemTools,
    role: Seq<char>,
    tool: Seq<char>,
    mode: ToolMode,
    done: Completion,
    r: Operated,
    after: Seq<(Seq<char>, SeenV)>,
) -> bool {
    let calls = ports::tool_calls_v(done.calls@);
    let reply = turn::said_by(done.raw@);
    let all = calls_made(mode, calls, reply);
    let seen = looks(
        seat.sandbox.builtin_tools@,
        face_names(s, role),
        all,
        all.len() as int,
    );
    &&& !(r is Looked) ==> after == seat.observations@
    &&& if done.error is Some {
        r is Failed && r->Failed_0@ == done.error->0@
    } else {
        match operation_call(calls, reply, tool) {
            Some(c) => match payload_of(tool, c, done) {
                Ok(x) => r is Done && r->Done_0@ == x.0 && events::line_views(r->Done_1@) == x.1,
                Err(e) => r is Failed && r->Failed_0@ == e,
            },
            None => if seen.len() == 0 {
                r is Failed && r->Failed_0@ == not_called_text(tool, done.raw@)
            } else {
                r is Looked && went_looking(
                    io,
                    seat.sandbox,
                    seat.observations@,
                    mode,
                    seen,
                    done.raw@,
                    events::line_views(r->Looked_0@),
                    ports::msgs_v(r->Looked_1@),
                    after,
                )
            },
        }
    }
}

/// What comes of a reply to an operation by a core that may not look at files.
pub open spec fn operated_blind(tool: Seq<char>, done: Completion, r: Operated) -> bool {
    if done.error is Some {
        r is Failed && r->Failed_0@ == done.error->0@
    } else {
        match operation_call(ports::tool_calls_v(done.calls@), turn::said_by(done.raw@), tool) {
            Some(c) => match payload_of(tool, c, done) {
                Ok(x) => r is Done && r->Done_0@ == x.0 && events::line_views(r->Done_1@) == x.1,
                Err(e) => r is Failed && r->Failed_0@ == e,
            },
            None => r is Failed && r->Failed_0@ == not_called_text(tool, done.raw@),
        }
    }
}

/// Takes a reply to an operation of a core that may not look at files.
pub fn core_operation_blind(tool: &str, done: &Completion) -> (r: Operated)
    ensures
        operated_blind(tool@, *done, r),
{
    match &done.error {
        Some(e) => {
            return Operated::Failed(e.clone());
        },
        None => {},
    }
    match operation_payload(tool, done) {
        Some(Ok(x)) => Operated::Done(x.0, x.1),
        Some(Err(e)) => Operated::Failed(e),
        None => Operated::Failed(not_called(tool, done.raw.as_str())),
    }
}

/// Takes a reply to an operation: the payload where its tool was called; else the
/// calls that only look are run and told, and without any the operation failed.
pub fn core_operation<I: SysIo>(
    seat: &mut MemberTools,
    io: &I,
    s: &SystemTools,
    role: &str,
    tool: &str,
    mode: ToolMode,
    done: &Completion,
) -> (r: Operated)
    requires
        prompt::texts_sound(old(seat).sandbox.texts),
    ensures
        operated(*io, *old(seat), *s, role@, tool@, mode, *done, r, final(seat).observations@),
        *final(seat) == (MemberTools { observations: final(seat).observations, ..*old(seat) }),
{
    match &done.error {
        Some(e) => {
            return Operated::Failed(e.clone());
        },
        None => {},
    }
    match operation_payload(tool, done) {
        Some(Ok(x)) => {
            return Operated::Done(x.0, x.1);
        },
        Some(Err(e)) => {
            return Operated::Failed(e);
        },
        None => {},
    }
    let ghost was = *seat;
    let face = name_face(s, role);
    let calls = calls_of(mode, done);
    let ghost all = ports::tool_calls_v(calls@);
    let ghost book = seat.sandbox.builtin_tools@;
    let ghost names = face_names(*s, role@);
    let ghost mut ledgers: Seq<Seq<(Seq<char>, SeenV)>> = seq![seat.observations@];
    let mut views: Vec<ToolCallView> = Vec::new();
    let mut lines: Vec<LineView> = Vec::new();
    let mut i: usize = 0;
    proof {
        assert(converse::call_views(views@) =~= Seq::empty());
        assert(events::line_views(lines@) =~= look_lines(converse::call_views(views@)));
    }
    while i < calls.len()
        invariant
            i <= calls@.len(),
            all == ports::tool_calls_v(calls@),
            names == face_names(*s, role@),
            text::texts(face@) == names,
            prompt::texts_sound(was.sandbox.texts),
            book == was.sandbox.builtin_tools@,
            *seat == (MemberTools { observations: seat.observations, ..was }),
            ledgers[0] == was.observations@,
            ledgers.last() == seat.observations@,
            all_looked(
                *io,
                was.sandbox,
                ledgers,
                looks(book, names, all, i as int),
                done.raw@,
                converse::call_views(views@),
            ),
            events::line_views(lines@) == look_lines(converse::call_views(views@)),
        decreases calls@.len() - i,
    {
        let c = &calls[i];
        assert(all[i as int] == c@);
        let readonly = has_text(&face, c.name.as_str()) && match seat.sandbox.builtin_tools.get(
            c.name.as_str(),
        ) {
            Some(sch) => str_eq(sch.capability.as_str(), "fs-read"),
            None => false,
        };
        assert(readonly == only_looks(book, names, c@));
        if readonly {
            let ghost obs = seat.observations@;
            let out = crate::systool::execute(
                &seat.sandbox,
                io,
                &mut seat.observations,
                c.name.as_str(),
                c.args_json.as_str(),
            );
            let ghost ov = systool::outcome(out);
            let view = ToolCallView {
                speaker: "核心".to_owned(),
                module: String::new(),
                name: c.name.clone(),
                ok: out.ok,
                args: c.args_json.clone(),
                output: out.output,
                raw: done.raw.clone(),
                call_id: c.id.clone(),
                reply: 0,
            };
            let ghost vv = view@;
            let ghost before = views@;
            let ghost lb = lines@;
            assert(vv =~= look_view(c@, done.raw@, ov));
            assert(systool::call_ends(
                *io,
                was.sandbox,
                obs,
                c@.name,
                c@.args_json,
                ov,
                seat.observations@,
            ));
            assert(looked(*io, was.sandbox, obs, c@, done.raw@, vv, seat.observations@));
            let ghost g0 = ledgers;
            proof {
                ledgers = ledgers.push(seat.observations@);
            }
            let mut rows = core_rows(c.name.as_str(), view.copy(), "", "");
            proof {
                reveal_strlit("");
                assert(text::trimmed(""@).len() == 0);
                assert(core_text_rows(""@) =~= Seq::empty());
                assert(events::line_views(rows@) =~= seq![core_tool_row(vv.name, vv, Seq::empty())]);
            }
            let ghost rv = rows@;
            lines.append(&mut rows);
            views.push(view);
            proof {
                assert(converse::call_views(views@) =~= converse::call_views(before).push(vv));
                assert(events::line_views(lines@) =~= events::line_views(lb) + events::line_views(rv));
                assert(look_lines(converse::call_views(views@)) =~= look_lines(converse::call_views(before)).push(
                    core_tool_row(vv.name, vv, Seq::empty()),
                ));
                assert(events::line_views(lines@) =~= look_lines(converse::call_views(views@)));
                let l0 = looks(book, names, all, i as int);
                let l1 = looks(book, names, all, i + 1);
                assert(l1 =~= l0.push(c@));
                assert forall|k: int| 0 <= k < l1.len() implies looked(
                    *io,
                    was.sandbox,
                    ledgers[k],
                    l1[k],
                    done.raw@,
                    #[trigger] converse::call_views(views@)[k],
                    ledgers[k + 1],
                ) by {
                    if k < l0.len() {
                        assert(ledgers[k] == g0[k] && ledgers[k + 1] == g0[k + 1]);
                        assert(converse::call_views(views@)[k] == converse::call_views(before)[k]);
                    }
                }
            }
        }
        i = i + 1;
    }
    assert(converse::call_views(views@).len() == views@.len());
    if views.len() == 0 {
        return Operated::Failed(not_called(tool, done.raw.as_str()));
    }
    let msgs = reply_msgs(mode, done.raw.as_str(), &views, &seat.sandbox.texts);
    assert(went_looking(
        *io,
        was.sandbox,
        was.observations@,
        mode,
        looks(book, names, all, all.len() as int),
        done.raw@,
        events::line_views(lines@),
        ports::msgs_v(msgs@),
        seat.observations@,
    ));
    Operated::Looked(lines, msgs)
}

/// A reply that calls the operation's tool is never taken for looking: its arguments
/// decide the operation.
pub proof fn a_called_operation_is_decided<I: SysIo>(
    io: I,
    seat: MemberTools,
    s: SystemTools,
    role: Seq<char>,
    tool: Seq<char>,
    mode: ToolMode,
    done: Completion,
    r: Operated,
    after: Seq<(Seq<char>, SeenV)>,
)
    requires
        operated(io, seat, s, role, tool, mode, done, r, after),
        operation_call(ports::tool_calls_v(done.calls@), turn::said_by(done.raw@), tool) is Some,
    ensures
        r is Done || r is Failed,
        r is Done <==> done.error is None && json::json_of(
            operation_call(ports::tool_calls_v(done.calls@), turn::said_by(done.raw@), tool)->0.args_json,
        ) is Ok,
{
}

/// An operation is taken from the first call that names it: one the model made as a
/// call before one it wrote in its words.
pub proof fn operations_are_taken_by_name(calls: Seq<ToolCallV>, r: ReplyV, tool: Seq<char>, k: int)
    ensures
        0 <= k < calls.len() && calls[k].name == tool && (forall|j: int|
            0 <= j < k ==> (#[trigger] calls[j]).name != tool) ==> operation_call(calls, r, tool) == Some(calls[k]),
        (forall|j: int| 0 <= j < calls.len() ==> (#[trigger] calls[j]).name != tool) && r.tool is Some && (
        r.tool->0).name == tool ==> operation_call(calls, r, tool) is Some && (operation_call(
            calls,
            r,
            tool,
        )->0).args_json == (r.tool->0).args_json,
        operation_call(calls, r, tool) is Some ==> (operation_call(calls, r, tool)->0).name == tool,
{
    if 0 <= k < calls.len() && calls[k].name == tool && (forall|j: int|
        0 <= j < k ==> (#[trigger] calls[j]).name != tool) {
        lemma_named(calls, tool, 0, k);
    }
    lemma_called(calls, tool, 0);
    lemma_called(envelope_calls(r), tool, 0);
    if forall|j: int| 0 <= j < calls.len() ==> (#[trigger] calls[j]).name != tool {
        if r.tool is Some && (r.tool->0).name == tool {
            lemma_named(envelope_calls(r), tool, 0, 0);
        }
    }
}

proof fn lemma_named(calls: Seq<ToolCallV>, name: Seq<char>, i: int, k: int)
    requires
        0 <= i <= k < calls.len(),
        calls[k].name == name,
        forall|j: int| i <= j < k ==> (#[trigger] calls[j]).name != name,
    ensures
        call_named(calls, name, i) == Some(calls[k]),
    decreases k - i,
{
    if i < k {
        lemma_named(calls, name, i + 1, k);
    }
}

proof fn lemma_called(calls: Seq<ToolCallV>, name: Seq<char>, i: int)
    requires
        0 <= i,
    ensures
        match call_named(calls, name, i) {
            Some(c) => c.name == name && exists|k: int| i <= k < calls.len() && #[trigger] calls[k] == c,
            None => forall|k: int| i <= k < calls.len() ==> (#[trigger] calls[k]).name != name,
        },
    decreases calls.len() - i,
{
    if i < calls.len() && calls[i].name != name {
        lemma_called(calls, name, i + 1);
    } else if i < calls.len() {
        assert(calls[i] == calls[i]);
    }
}

/// What the core may look at is what its role has and only reads: nothing else of what
/// it calls is run.
pub proof fn the_core_only_looks(
    book: Seq<(Seq<char>, ToolSchema)>,
    face: Seq<Seq<char>>,
    calls: Seq<ToolCallV>,
    n: int,
    c: ToolCallV,
)
    requires
        0 <= n <= calls.len(),
    ensures
        looks(book, face, calls, n).contains(c) <==> face.contains(c.name) && table::lookup(book, c.name) is Some
            && (table::lookup(book, c.name)->0).capability@ == "fs-read"@ && exists|k: int|
            0 <= k < n && #[trigger] calls[k] == c,
    decreases n,
{
    if n > 0 {
        the_core_only_looks(book, face, calls, n - 1, c);
        let p = looks(book, face, calls, n - 1);
        let h = looks(book, face, calls, n);
        if h.contains(c) {
            let k = choose|k: int| 0 <= k < h.len() && h[k] == c;
            if k < p.len() {
                assert(p[k] == c);
            } else {
                assert(calls[n - 1] == c);
            }
        }
        if p.contains(c) {
            let k = choose|k: int| 0 <= k < p.len() && p[k] == c;
            assert(h[k] == c);
        }
        if only_looks(book, face, c) && calls[n - 1] == c {
            assert(h[p.len() as int] == c);
        }
    }
}

/// The core's own lines are under its name: what it said where it said something, then
/// the tool it called and how that went.
pub proof fn the_core_is_heard(tool: Seq<char>, view: CallV, reasoning: Seq<char>, text: Seq<char>)
    ensures
        ({
            let v = core_lines(tool, view, reasoning, text);
            let spoke = text::trimmed(text).len() > 0;
            &&& v.len() == if spoke {
                2nat
            } else {
                1
            }
            &&& spoke ==> v[0].line == text::trimmed(text) && v[0].speaker == "核心"@ && v[0].tool is None
            &&& v.last().tool == Some(view) && v.last().verb == tool && v.last().speaker == "核心"@
            &&& v.last().line == "工具 "@ + view.label() + (if view.ok {
                " → 成功"@
            } else {
                " → 失败"@
            })
            &&& text::trimmed(reasoning).len() > 0 ==> v.last().reasoning == Some(reasoning)
            &&& text::trimmed(reasoning).len() == 0 ==> v.last().reasoning is None
        }),
{
    reveal_strlit(" → ");
    reveal_strlit("成功");
    reveal_strlit("失败");
    reveal_strlit(" → 成功");
    reveal_strlit(" → 失败");
    let v = core_lines(tool, view, reasoning, text);
    assert(v.last().line =~= "工具 "@ + view.label() + (if view.ok {
        " → 成功"@
    } else {
        " → 失败"@
    }));
}

/// What an operation is given is what the call was given, where that can be read; and the
/// call is shown with its number, what it was given, and the reply it came in.
pub proof fn operations_get_what_was_called(tool: Seq<char>, c: ToolCallV, done: Completion)
    ensures
        json::json_of(c.args_json) matches Ok(v) ==> {
            &&& payload_of(tool, c, done) is Ok
            &&& payload_of(tool, c, done)->Ok_0.0 == v
            &&& payload_of(tool, c, done)->Ok_0.1.last().tool is Some
            &&& (payload_of(tool, c, done)->Ok_0.1.last().tool->0).name == tool
            &&& (payload_of(tool, c, done)->Ok_0.1.last().tool->0).args == c.args_json
            &&& (payload_of(tool, c, done)->Ok_0.1.last().tool->0).call_id == c.id
            &&& (payload_of(tool, c, done)->Ok_0.1.last().tool->0).ok
            &&& (payload_of(tool, c, done)->Ok_0.1.last().tool->0).raw == done.raw@
        },
        json::json_of(c.args_json) is Err ==> payload_of(tool, c, done) is Err,
{
}

} // verus!
