//! One turn with a model, round by round: what is sent, how a reply is understood,
//! which calls it makes, and what goes into the history. The channel itself is
//! driven from outside; every decision between two calls of it is made here.
use crate::agents::{self, make_free};
use crate::engine::{self, MemberTools, ModuleTools, Planned, PlannedCallV};
use crate::envelope::{self, Malformed, ReplyV, Verb, extract_json_object};
use crate::events::{CallV, ToolCallView};
use crate::json::{self, Json, JsonV, parse_json, put, text_json};
use crate::ports::{self, Completion, Msg, MsgV, ToolCall, ToolCallV, ToolOutcome, copy_msgs, truncated};
use crate::prompt::{self, ToolTexts, fill1, fill2};
use crate::providers::ToolMode;
use crate::schema::{self, SchemaV, ToolSchema};
use crate::systool::{self, PATCH, is_freeform, patch_decl};
use crate::table::{self, Table};
use crate::text::{self, cat3, cat5, clone_opt, find_in, has_text, is_blank, slice, str_eq, to_chars, trim};
use vstd::prelude::*;

verus! {

// ---- what is declared to a channel ----

/// The tool a name on the wire stands for.
#[derive(Debug)]
pub struct Wire {
    pub module: Option<String>,
    pub tool: String,
}

pub open spec fn wire_v(w: Wire) -> (Option<Seq<char>>, Seq<char>) {
    (text::opt_text(w.module), w.tool@)
}

/// The tools by their names on the wire. A channel with native calls knows no
/// modules, so that tools of the same name are told apart by it.
pub type WireTools = Table<Wire>;

pub open spec fn wires_v(t: Seq<(Seq<char>, Wire)>) -> Seq<
    (Seq<char>, (Option<Seq<char>>, Seq<char>)),
> {
    t.map_values(|e: (Seq<char>, Wire)| (e.0, wire_v(e.1)))
}

/// The tools a request declares.
pub type Decls = Vec<crate::ports::ToolDecl>;

/// What a request declares, and what the names on the wire stand for.
#[derive(Debug)]
pub struct ToolDecls {
    pub list: Decls,
    pub wire: WireTools,
}

#[verifier::ext_equal]
pub struct DeclV {
    pub name: Seq<char>,
    pub description: Seq<char>,
    pub parameters: JsonV,
}

pub open spec fn decl_v(d: crate::ports::ToolDecl) -> DeclV {
    DeclV { name: d.name@, description: d.description@, parameters: d.parameters@ }
}

pub open spec fn decls_v(v: Seq<crate::ports::ToolDecl>) -> Seq<DeclV> {
    v.map_values(|d: crate::ports::ToolDecl| decl_v(d))
}

/// The declarations and the wire as they are built up; the names taken are those declared.
#[verifier::ext_equal]
pub struct FaceV {
    pub list: Seq<DeclV>,
    pub wire: Seq<(Seq<char>, (Option<Seq<char>>, Seq<char>))>,
}

pub open spec fn declared_names(list: Seq<DeclV>) -> Seq<Seq<char>> {
    list.map_values(|d: DeclV| d.name)
}

pub open spec fn with_decl(f: FaceV, d: DeclV, module: Option<Seq<char>>, tool: Seq<char>) -> FaceV {
    FaceV { list: f.list.push(d), wire: table::inserted(f.wire, d.name, (module, tool)) }
}

pub open spec fn schema_decl(name: Seq<char>, s: SchemaV) -> DeclV {
    DeclV { name, description: s.desc, parameters: schema::json_schema(s) }
}

/// The first `n` tools of the book that the seat was given, but for `patch`, which
/// is declared in its own way.
pub open spec fn builtin_face(t: MemberTools, n: int) -> FaceV
    decreases n,
{
    if n <= 0 {
        FaceV { list: Seq::empty(), wire: Seq::empty() }
    } else {
        let prev = builtin_face(t, n - 1);
        let e = t.sandbox.builtin_tools@[n - 1];
        if text::texts(t.allowed@).contains(e.0) && e.0 != PATCH@ {
            with_decl(prev, schema_decl(e.0, e.1@), None, e.0)
        } else {
            prev
        }
    }
}

pub open spec fn patch_face(t: MemberTools) -> FaceV {
    let prev = builtin_face(t, t.sandbox.builtin_tools@.len() as int);
    if text::texts(t.allowed@).contains(PATCH@) {
        with_decl(
            prev,
            DeclV {
                name: PATCH@,
                description:
                    "用一段补丁文本改文件（*** Add File: 路径 / *** Update File: 路径 … *** End File）"@,
                parameters: systool::patch_params(),
            },
            None,
            PATCH@,
        )
    } else {
        prev
    }
}

pub open spec fn open_params() -> JsonV {
    JsonV::Obj(
        seq![("additionalProperties"@, JsonV::Bool(true)), ("type"@, JsonV::Str("object"@))],
    )
}

/// How a module's tool is declared under a name on the wire.
pub open spec fn module_decl(
    wire: Seq<char>,
    id: Seq<char>,
    tool: Seq<char>,
    book: Option<ToolSchema>,
) -> DeclV {
    match book {
        Some(s) => schema_decl(wire, s@),
        None => DeclV {
            name: wire,
            description: "模块 "@ + id + " 的外部工具 "@ + tool + "（参数由工具自己解释）"@,
            parameters: open_params(),
        },
    }
}

/// With the first `n` tools of a module: each under its module's name and its own,
/// with a number behind it where that is taken.
pub open spec fn module_face(f: FaceV, id: Seq<char>, m: ModuleTools, n: int) -> FaceV
    decreases n,
{
    if n <= 0 {
        f
    } else {
        let prev = module_face(f, id, m, n - 1);
        let tool = m.commands@[n - 1].0;
        let wire = agents::free_name(declared_names(prev.list), id + "_"@ + tool, "_"@);
        with_decl(prev, module_decl(wire, id, tool, table::lookup(m.books@, tool)), Some(id), tool)
    }
}

/// With the tools of the first `n` modules.
pub open spec fn modules_face(f: FaceV, t: Seq<(Seq<char>, ModuleTools)>, n: int) -> FaceV
    decreases n,
{
    if n <= 0 {
        f
    } else {
        let m = t[n - 1].1;
        module_face(modules_face(f, t, n - 1), t[n - 1].0, m, m.commands@.len() as int)
    }
}

/// All that a seat declares.
pub open spec fn whole_face(t: MemberTools) -> FaceV {
    if t.with_modules {
        modules_face(patch_face(t), t.modules@, t.modules@.len() as int)
    } else {
        patch_face(t)
    }
}

impl ToolDecls {
    pub open spec fn face(self) -> FaceV {
        FaceV { list: decls_v(self.list@), wire: wires_v(self.wire@) }
    }

    /// Nothing declared.
    pub fn none() -> (r: ToolDecls)
        ensures
            r.face() == (FaceV { list: Seq::empty(), wire: Seq::empty() }),
    {
        let r = ToolDecls { list: Vec::new(), wire: Table::new() };
        assert(r.face() =~= FaceV { list: Seq::empty(), wire: Seq::empty() });
        r
    }

    fn declare(
        &mut self,
        d: crate::ports::ToolDecl,
        module: Option<String>,
        tool: &str,
        taken: &mut Vec<String>,
    )
        requires
            text::texts(old(taken)@) == declared_names(old(self).face().list),
        ensures
            final(self).face() == with_decl(old(self).face(), decl_v(d), text::opt_text(module), tool@),
            text::texts(final(taken)@) == declared_names(final(self).face().list),
    {
        let ghost f = |w: Wire| wire_v(w);
        let ghost before = self.wire@;
        let ghost start = self.face();
        let ghost tk = taken@;
        let w = Wire { module, tool: tool.to_owned() };
        proof {
            assert(wires_v(before) =~= before.map_values(|e: (Seq<char>, Wire)| (e.0, f(e.1))));
            table::lemma_map_inserted(before, wires_v(before), f, d.name@, w);
        }
        let name = d.name.clone();
        self.wire.insert(d.name.clone(), w);
        assert(wires_v(self.wire@) =~= table::inserted(before, d.name@, w).map_values(
            |e: (Seq<char>, Wire)| (e.0, f(e.1)),
        ));
        let ghost ls = self.list@;
        self.list.push(d);
        taken.push(name);
        proof {
            assert(decls_v(self.list@) =~= decls_v(ls).push(decl_v(d)));
            assert(self.face() =~= with_decl(start, decl_v(d), text::opt_text(module), tool@));
            text::lemma_texts_push(tk, name);
            assert(declared_names(self.face().list) =~= declared_names(start.list).push(d.name@));
        }
    }

    /// The tool a name on the wire stands for; a name that is not declared stands
    /// for the tool of that name.
    pub fn meant(&self, name: &str) -> (r: (Option<String>, String))
        ensures
            (text::opt_text(r.0), r.1@) == meant_by(wires_v(self.wire@), name@),
    {
        let ghost f = |w: Wire| wire_v(w);
        proof {
            let before = self.wire@;
            assert(wires_v(before) =~= before.map_values(|e: (Seq<char>, Wire)| (e.0, f(e.1))));
            table::lemma_map_inserted(before, wires_v(before), f, name@, before[0].1);
        }
        match self.wire.get(name) {
            Some(w) => (clone_opt(&w.module), w.tool.clone()),
            None => (None, name.to_owned()),
        }
    }
}

pub open spec fn meant_by(
    wire: Seq<(Seq<char>, (Option<Seq<char>>, Seq<char>))>,
    name: Seq<char>,
) -> (Option<Seq<char>>, Seq<char>) {
    match table::lookup(wire, name) {
        Some(w) => w,
        None => (None, name),
    }
}

/// Declares what a seat was given, and no more.
pub fn tool_decls(t: &MemberTools) -> (r: ToolDecls)
    ensures
        r.face() == whole_face(*t),
{
    let mut d = ToolDecls::none();
    let mut taken: Vec<String> = Vec::new();
    let book = &t.sandbox.builtin_tools;
    assert(text::texts(taken@) =~= declared_names(d.face().list));
    let mut i: usize = 0;
    while i < book.len()
        invariant
            i <= book@.len(),
            *book == t.sandbox.builtin_tools,
            text::texts(taken@) == declared_names(d.face().list),
            d.face() == builtin_face(*t, i as int),
        decreases book@.len() - i,
    {
        let name = book.key_at(i);
        if has_text(&t.allowed, name) && !is_freeform(name) {
            let decl = book.value_at(i).decl(name);
            assert(decl_v(decl) =~= schema_decl(name@, book@[i as int].1@));
            d.declare(decl, None, name, &mut taken);
        }
        i = i + 1;
    }
    if has_text(&t.allowed, PATCH) {
        let p = patch_decl();
        let ghost want = DeclV {
            name: PATCH@,
            description:
                "用一段补丁文本改文件（*** Add File: 路径 / *** Update File: 路径 … *** End File）"@,
            parameters: systool::patch_params(),
        };
        assert(decl_v(p) =~= want);
        d.declare(p, None, PATCH, &mut taken);
    }
    if t.with_modules {
        declare_modules(t, &mut d, &mut taken);
    }
    d
}

fn open_decl(wire: &str, id: &str, tool: &str) -> (r: crate::ports::ToolDecl)
    ensures
        decl_v(r) == module_decl(wire@, id@, tool@, None),
{
    let mut o: Vec<(String, Json)> = Vec::new();
    put(&mut o, "additionalProperties", Json::Bool(true));
    put(&mut o, "type", text_json("object"));
    assert(json::members_v(o@) =~= open_params()->Obj_0);
    crate::ports::ToolDecl {
        name: wire.to_owned(),
        description: cat5("模块 ", id, " 的外部工具 ", tool, "（参数由工具自己解释）"),
        parameters: Json::Obj(o),
    }
}

fn declare_modules(t: &MemberTools, d: &mut ToolDecls, taken: &mut Vec<String>)
    requires
        text::texts(old(taken)@) == declared_names(old(d).face().list),
    ensures
        final(d).face() == modules_face(old(d).face(), t.modules@, t.modules@.len() as int),
{
    let ghost start = d.face();
    let mut i: usize = 0;
    while i < t.modules.len()
        invariant
            i <= t.modules@.len(),
            text::texts(taken@) == declared_names(d.face().list),
            d.face() == modules_face(start, t.modules@, i as int),
        decreases t.modules@.len() - i,
    {
        let id = t.modules.key_at(i);
        let m = t.modules.value_at(i);
        let ghost base = d.face();
        let mut k: usize = 0;
        while k < m.commands.len()
            invariant
                k <= m.commands@.len(),
                text::texts(taken@) == declared_names(d.face().list),
                d.face() == module_face(base, id@, *m, k as int),
            decreases m.commands@.len() - k,
        {
            let tool = m.commands.key_at(k);
            let stem = cat3(id, "_", tool);
            let wire = make_free(taken, stem.as_str(), "_");
            let decl = match m.books.get(tool) {
                Some(s) => {
                    let x = s.decl(wire.as_str());
                    assert(decl_v(x) =~= schema_decl(wire@, s@));
                    x
                },
                None => open_decl(wire.as_str(), id, tool),
            };
            d.declare(decl, Some(id.to_owned()), tool, taken);
            k = k + 1;
        }
        i = i + 1;
    }
}

/// Whether the declared names are those on the wire, each once.
pub open spec fn face_sound(f: FaceV) -> bool {
    &&& table::ascending(f.wire)
    &&& declared_names(f.list).no_duplicates()
    &&& forall|k: int|
        0 <= k < f.list.len() ==> table::lookup(f.wire, (#[trigger] f.list[k]).name) is Some
}

proof fn lemma_with_decl_sound(f: FaceV, d: DeclV, module: Option<Seq<char>>, tool: Seq<char>)
    requires
        face_sound(f),
        !declared_names(f.list).contains(d.name),
    ensures
        face_sound(with_decl(f, d, module, tool)),
{
    let g = with_decl(f, d, module, tool);
    table::inserting(f.wire, d.name, (module, tool));
    let a = declared_names(f.list);
    let b = declared_names(g.list);
    assert(b =~= a.push(d.name));
    assert forall|i: int, j: int| 0 <= i < b.len() && 0 <= j < b.len() && i != j implies b[i]
        != b[j] by {
        if i < a.len() {
            assert(a.contains(a[i]));
        }
        if j < a.len() {
            assert(a.contains(a[j]));
        }
    }
    assert forall|k: int| 0 <= k < g.list.len() implies table::lookup(
        g.wire,
        (#[trigger] g.list[k]).name,
    ) is Some by {
        if k < f.list.len() {
            assert(g.list[k] == f.list[k]);
        }
    }
}

proof fn lemma_builtin_names(t: MemberTools, n: int)
    requires
        0 <= n <= t.sandbox.builtin_tools@.len(),
        table::ascending(t.sandbox.builtin_tools@),
    ensures
        face_sound(builtin_face(t, n)),
        !declared_names(builtin_face(t, n).list).contains(PATCH@),
        forall|x: Seq<char>|
            #[trigger] declared_names(builtin_face(t, n).list).contains(x) ==> exists|k: int|
                0 <= k < n && x == #[trigger] t.sandbox.builtin_tools@[k].0,
    decreases n,
{
    if n > 0 {
        lemma_builtin_names(t, n - 1);
        let prev = builtin_face(t, n - 1);
        let e = t.sandbox.builtin_tools@[n - 1];
        if text::texts(t.allowed@).contains(e.0) && e.0 != PATCH@ {
            let d = schema_decl(e.0, e.1@);
            if declared_names(prev.list).contains(e.0) {
                let k = choose|k: int|
                    0 <= k < n - 1 && e.0 == #[trigger] t.sandbox.builtin_tools@[k].0;
                assert(text::before(t.sandbox.builtin_tools@[k].0, t.sandbox.builtin_tools@[n - 1].0));
                text::lemma_before_irreflexive(e.0);
            }
            lemma_with_decl_sound(prev, d, None, e.0);
            let g = builtin_face(t, n);
            assert(declared_names(g.list) =~= declared_names(prev.list).push(e.0));
            assert forall|x: Seq<char>|
                #[trigger] declared_names(g.list).contains(x) implies exists|k: int|
                0 <= k < n && x == #[trigger] t.sandbox.builtin_tools@[k].0 by {
                let j = choose|j: int|
                    0 <= j < declared_names(g.list).len() && declared_names(g.list)[j] == x;
                if j < declared_names(prev.list).len() {
                    assert(declared_names(prev.list)[j] == x);
                    assert(declared_names(prev.list).contains(x));
                } else {
                    assert(x == t.sandbox.builtin_tools@[n - 1].0);
                }
            }
        }
    }
}

proof fn lemma_module_names(f: FaceV, id: Seq<char>, m: ModuleTools, n: int)
    requires
        face_sound(f),
    ensures
        face_sound(module_face(f, id, m, n)),
    decreases n,
{
    if n > 0 {
        lemma_module_names(f, id, m, n - 1);
        let prev = module_face(f, id, m, n - 1);
        let tool = m.commands@[n - 1].0;
        let taken = declared_names(prev.list);
        let wire = agents::free_name(taken, id + "_"@ + tool, "_"@);
        agents::a_free_name_is_free(taken, id + "_"@ + tool, "_"@);
        lemma_with_decl_sound(
            prev,
            module_decl(wire, id, tool, table::lookup(m.books@, tool)),
            Some(id),
            tool,
        );
    }
}

proof fn lemma_modules_names(f: FaceV, t: Seq<(Seq<char>, ModuleTools)>, n: int)
    requires
        face_sound(f),
    ensures
        face_sound(modules_face(f, t, n)),
    decreases n,
{
    if n > 0 {
        lemma_modules_names(f, t, n - 1);
        lemma_module_names(
            modules_face(f, t, n - 1),
            t[n - 1].0,
            t[n - 1].1,
            t[n - 1].1.commands@.len() as int,
        );
    }
}

/// However many tools of the same name there are, no two are declared under one
/// name, and each name on the wire leads back to its tool.
pub proof fn wire_names_are_distinct(t: MemberTools)
    requires
        table::ascending(t.sandbox.builtin_tools@),
    ensures
        face_sound(whole_face(t)),
{
    lemma_builtin_names(t, t.sandbox.builtin_tools@.len() as int);
    let prev = builtin_face(t, t.sandbox.builtin_tools@.len() as int);
    if text::texts(t.allowed@).contains(PATCH@) {
        lemma_with_decl_sound(
            prev,
            DeclV {
                name: PATCH@,
                description:
                    "用一段补丁文本改文件（*** Add File: 路径 / *** Update File: 路径 … *** End File）"@,
                parameters: systool::patch_params(),
            },
            None,
            PATCH@,
        );
    }
    if t.with_modules {
        lemma_modules_names(patch_face(t), t.modules@, t.modules@.len() as int);
    }
}

// ---- messages ----

/// The messages of a call of the model: who it is, the tools of the turn, what was
/// said, and what the turn asks.
pub open spec fn assembled(
    identity: Seq<char>,
    block: Seq<char>,
    dialogue: Seq<MsgV>,
    turn: Seq<MsgV>,
) -> Seq<MsgV> {
    seq![ports::plain_msg("system"@, identity)] + (if block.len() == 0 {
        Seq::empty()
    } else {
        seq![ports::plain_msg("system"@, block)]
    }) + dialogue + turn
}

pub open spec fn block_of(t: Option<&MemberTools>, ids: Seq<Seq<char>>, with_modules: bool) -> Seq<
    char,
> {
    match t {
        Some(m) => engine::block_text(*m, ids, with_modules),
        None => Seq::empty(),
    }
}

pub fn extend_msgs(out: &mut Vec<Msg>, more: &Vec<Msg>)
    ensures
        ports::msgs_v(final(out)@) == ports::msgs_v(old(out)@) + ports::msgs_v(more@),
{
    let ghost before = out@;
    let mut c = copy_msgs(more);
    let ghost cv = c@;
    out.append(&mut c);
    assert(ports::msgs_v(out@) =~= ports::msgs_v(before) + ports::msgs_v(cv));
}

/// Puts the messages of a call of the model together. The identity and the tools
/// are made anew each time and have no place in the dialogue.
pub fn assemble(
    identity: &str,
    tools: Option<&MemberTools>,
    ids: &Vec<String>,
    with_modules: bool,
    dialogue: &Vec<Msg>,
    turn: &Vec<Msg>,
) -> (r: Vec<Msg>)
    requires
        tools matches Some(t) ==> prompt::texts_sound(t.sandbox.texts),
    ensures
        ports::msgs_v(r@) == assembled(
            identity@,
            block_of(tools, text::texts(ids@), with_modules),
            ports::msgs_v(dialogue@),
            ports::msgs_v(turn@),
        ),
{
    let mut out: Vec<Msg> = Vec::new();
    out.push(Msg::system(identity.to_owned()));
    let block = match tools {
        Some(t) => t.tools_block(ids, with_modules),
        None => String::new(),
    };
    if block.as_str().unicode_len() > 0 {
        out.push(Msg::system(block));
    }
    let ghost head = ports::msgs_v(out@);
    assert(head =~= seq![ports::plain_msg("system"@, identity@)] + (if block@.len() == 0 {
        Seq::empty()
    } else {
        seq![ports::plain_msg("system"@, block@)]
    }));
    extend_msgs(&mut out, dialogue);
    extend_msgs(&mut out, turn);
    out
}

/// Whether the results of calls go back natively: the channel is native and each
/// call has an id.
pub open spec fn by_protocol(mode: ToolMode, calls: Seq<CallV>) -> bool {
    mode == ToolMode::Native && calls.len() > 0 && forall|k: int|
        0 <= k < calls.len() ==> (#[trigger] calls[k]).call_id.len() > 0
}

pub open spec fn native_calls(calls: Seq<CallV>) -> Seq<ToolCallV> {
    calls.map_values(
        |c: CallV| ToolCallV { id: c.call_id, name: c.name, args_json: c.args },
    )
}

pub open spec fn result_text(t: ToolTexts, c: CallV) -> Seq<char> {
    prompt::filled(t.tool_result_wrapper@, seq![("label"@, c.label()), ("output"@, c.output)])
}

pub open spec fn result_msg(t: ToolTexts, protocol: bool, c: CallV) -> MsgV {
    if protocol {
        MsgV { role: "tool"@, content: result_text(t, c), calls: Seq::empty(), call_id: c.call_id }
    } else {
        ports::plain_msg("user"@, result_text(t, c))
    }
}

pub open spec fn reply_head(raw: Seq<char>, protocol: bool, calls: Seq<CallV>) -> MsgV {
    if protocol {
        MsgV {
            role: "assistant"@,
            content: raw,
            calls: native_calls(calls),
            call_id: Seq::empty(),
        }
    } else {
        ports::plain_msg("assistant"@, raw)
    }
}

/// The messages a reply with calls leaves in the history: what the model said, and
/// a result for each of its calls.
pub open spec fn reply_messages(
    mode: ToolMode,
    raw: Seq<char>,
    calls: Seq<CallV>,
    t: ToolTexts,
) -> Seq<MsgV> {
    let p = by_protocol(mode, calls);
    seq![reply_head(raw, p, calls)] + calls.map_values(|c: CallV| result_msg(t, p, c))
}

pub open spec fn call_views(v: Seq<ToolCallView>) -> Seq<CallV> {
    v.map_values(|c: ToolCallView| c@)
}

fn goes_by_protocol(mode: ToolMode, calls: &Vec<ToolCallView>) -> (r: bool)
    ensures
        r == by_protocol(mode, call_views(calls@)),
{
    if mode != ToolMode::Native || calls.len() == 0 {
        return false;
    }
    let ghost cv = call_views(calls@);
    let mut i: usize = 0;
    while i < calls.len()
        invariant
            i <= calls@.len(),
            cv == call_views(calls@),
            forall|k: int| 0 <= k < i ==> (#[trigger] cv[k]).call_id.len() > 0,
        decreases calls@.len() - i,
    {
        assert(cv[i as int] == calls@[i as int]@);
        if calls[i].call_id.as_str().unicode_len() == 0 {
            assert(cv[i as int].call_id.len() == 0);
            return false;
        }
        i = i + 1;
    }
    true
}

/// Turns a reply with calls into messages. The same is done whether the turn runs
/// or is rebuilt from the transcript, so that both give the same history.
pub fn reply_msgs(mode: ToolMode, raw: &str, calls: &Vec<ToolCallView>, t: &ToolTexts) -> (r: Vec<
    Msg,
>)
    requires
        prompt::texts_sound(*t),
    ensures
        ports::msgs_v(r@) == reply_messages(mode, raw@, call_views(calls@), *t),
{
    let protocol = goes_by_protocol(mode, calls);
    let ghost cv = call_views(calls@);
    let ghost results = cv.map_values(|c: CallV| result_msg(*t, protocol, c));
    let mut out: Vec<Msg> = Vec::new();
    if protocol {
        let mut nc: Vec<ToolCall> = Vec::new();
        let mut i: usize = 0;
        while i < calls.len()
            invariant
                i <= calls@.len(),
                cv == call_views(calls@),
                ports::tool_calls_v(nc@) == native_calls(cv).take(i as int),
            decreases calls@.len() - i,
        {
            let ghost prev = nc@;
            let c = ToolCall {
                id: calls[i].call_id.clone(),
                name: calls[i].name.clone(),
                args_json: calls[i].args.clone(),
            };
            nc.push(c);
            proof {
                assert(ports::tool_calls_v(nc@) =~= ports::tool_calls_v(prev).push(c@));
                assert(native_calls(cv)[i as int] == c@);
                assert(ports::tool_calls_v(nc@) =~= native_calls(cv).take(i + 1));
            }
            i = i + 1;
        }
        assert(native_calls(cv).take(cv.len() as int) =~= native_calls(cv));
        out.push(Msg::assistant_calls(raw.to_owned(), nc));
    } else {
        out.push(Msg::assistant(raw.to_owned()));
    }
    let ghost head = seq![reply_head(raw@, protocol, cv)];
    assert(ports::msgs_v(out@) =~= head + results.take(0));
    let mut i: usize = 0;
    while i < calls.len()
        invariant
            i <= calls@.len(),
            prompt::texts_sound(*t),
            cv == call_views(calls@),
            results == cv.map_values(|c: CallV| result_msg(*t, protocol, c)),
            ports::msgs_v(out@) == head + results.take(i as int),
        decreases calls@.len() - i,
    {
        let c = &calls[i];
        let body = fill2(
            t.tool_result_wrapper.as_str(),
            "label",
            c.label().as_str(),
            "output",
            c.output.as_str(),
        );
        let m = if protocol {
            Msg::tool(c.call_id.clone(), body)
        } else {
            Msg::user(body)
        };
        let ghost prev = out@;
        out.push(m);
        proof {
            assert(ports::msgs_v(out@) =~= ports::msgs_v(prev).push(m@));
            assert(results[i as int] == m@);
            assert(ports::msgs_v(out@) =~= head + results.take(i + 1));
        }
        i = i + 1;
    }
    assert(results.take(results.len() as int) =~= results);
    out
}

/// Every result answers a call of the message before it: natively there are as many
/// results as calls, each with the id of its call and in their order.
pub proof fn results_answer_their_calls(
    mode: ToolMode,
    raw: Seq<char>,
    calls: Seq<CallV>,
    t: ToolTexts,
)
    ensures
        ({
            let m = reply_messages(mode, raw, calls, t);
            &&& m.len() == calls.len() + 1
            &&& m[0].role == "assistant"@
            &&& by_protocol(mode, calls) ==> m[0].calls.len() == calls.len() && forall|k: int|
                0 <= k < calls.len() ==> (#[trigger] m[k + 1]).call_id == m[0].calls[k].id
            &&& !by_protocol(mode, calls) ==> m[0].calls.len() == 0
        }),
{
    let m = reply_messages(mode, raw, calls, t);
    let p = by_protocol(mode, calls);
    assert(m[0] == reply_head(raw, p, calls));
    if p {
        assert forall|k: int| 0 <= k < calls.len() implies (#[trigger] m[k + 1]).call_id
            == m[0].calls[k].id by {
            assert(m[k + 1] == result_msg(t, p, calls[k]));
        }
    }
}

// ---- verbs ----

pub open spec fn verb_text(v: Verb) -> Seq<char> {
    match v {
        Verb::Say => "say"@,
        Verb::Ask => "ask"@,
        Verb::Leave => "leave"@,
        Verb::Agree => "agree"@,
        Verb::Tool => "tool"@,
    }
}

/// The name of a verb.
pub fn verb_tag(v: Verb) -> (r: &'static str)
    ensures
        r@ == verb_text(v),
{
    match v {
        Verb::Say => "say",
        Verb::Ask => "ask",
        Verb::Leave => "leave",
        Verb::Agree => "agree",
        Verb::Tool => "tool",
    }
}

pub open spec fn verb_named(name: Seq<char>) -> Option<Verb> {
    if name == "say"@ {
        Some(Verb::Say)
    } else if name == "agree"@ {
        Some(Verb::Agree)
    } else if name == "leave"@ {
        Some(Verb::Leave)
    } else if name == "ask"@ {
        Some(Verb::Ask)
    } else {
        None
    }
}

/// The verb of a discussion that a native call stands for.
pub fn verb_of(name: &str) -> (r: Option<Verb>)
    ensures
        r == verb_named(name@),
{
    if str_eq(name, "say") {
        Some(Verb::Say)
    } else if str_eq(name, "agree") {
        Some(Verb::Agree)
    } else if str_eq(name, "leave") {
        Some(Verb::Leave)
    } else if str_eq(name, "ask") {
        Some(Verb::Ask)
    } else {
        None
    }
}

/// A member of the arguments that is a text; empty where there is none.
pub open spec fn arg_of(args: Seq<char>, key: Seq<char>) -> Seq<char> {
    arg_in(json::json_of(args), key)
}

pub open spec fn arg_in(parsed: Result<JsonV, Seq<char>>, key: Seq<char>) -> Seq<char> {
    match parsed {
        Ok(v) => v.text_or_empty(key),
        Err(_) => Seq::empty(),
    }
}

fn arg_at(args_json: &str, key: &str) -> (r: String)
    ensures
        r@ == arg_of(args_json@, key@),
{
    match parse_json(args_json) {
        Ok(v) => v.str_or_empty(key),
        Err(_) => String::new(),
    }
}

/// The text in the arguments of a native call.
pub fn arg_text(args_json: &str) -> (r: String)
    ensures
        r@ == arg_of(args_json@, "text"@),
{
    arg_at(args_json, "text")
}


// ---- how a reply is understood ----

/// A call a reply asks for.
#[derive(Debug)]
pub struct Invoke {
    /// Why it cannot be read, if it cannot: then nothing is run.
    pub malformed: Option<Malformed>,
    pub module: Option<String>,
    pub name: String,
    pub args_json: String,
    /// What stands behind the envelope: the input of a tool that takes a text.
    pub body: String,
    /// What stands before it.
    pub lead: String,
}

#[verifier::ext_equal]
pub struct AskV {
    pub malformed: Option<Malformed>,
    pub module: Option<Seq<char>>,
    pub name: Seq<char>,
    pub args_json: Seq<char>,
    pub body: Seq<char>,
    pub lead: Seq<char>,
}

impl View for Invoke {
    type V = AskV;

    open spec fn view(&self) -> AskV {
        AskV {
            malformed: self.malformed,
            module: text::opt_text(self.module),
            name: self.name@,
            args_json: self.args_json@,
            body: self.body@,
            lead: self.lead@,
        }
    }
}

pub open spec fn asks_v(v: Seq<Invoke>) -> Seq<AskV> {
    v.map_values(|i: Invoke| i@)
}

/// A reply with the calls it asks for.
#[derive(Debug)]
pub struct Understood {
    pub verb: Verb,
    pub text: String,
    pub degraded: bool,
    pub tools: Vec<Invoke>,
}

#[verifier::ext_equal]
pub struct UnderstoodV {
    pub verb: Verb,
    pub text: Seq<char>,
    pub degraded: bool,
    pub tools: Seq<AskV>,
}

impl View for Understood {
    type V = UnderstoodV;

    open spec fn view(&self) -> UnderstoodV {
        UnderstoodV {
            verb: self.verb,
            text: self.text@,
            degraded: self.degraded,
            tools: asks_v(self.tools@),
        }
    }
}

/// What stands before and behind the envelope of a reply.
pub open spec fn around(raw: Seq<char>) -> (Seq<char>, Seq<char>) {
    match envelope::balanced(raw, '{', '}') {
        Some(o) => match text::find_from(raw, o, 0) {
            Some(i) => (text::trimmed(raw.take(i)), raw.skip(i + o.len())),
            None => (text::trimmed(raw), Seq::empty()),
        },
        None => (text::trimmed(raw), Seq::empty()),
    }
}

/// Whether what a reply asks for is what its envelope says.
pub open spec fn reads_as(raw: Seq<char>, r: ReplyV, u: UnderstoodV) -> bool {
    &&& u.verb == r.verb
    &&& u.text == r.text
    &&& u.degraded == r.degraded
    &&& match r.tool {
        None => u.tools.len() == 0,
        Some(t) => u.tools.len() == 1 && ({
            let a = u.tools[0];
            &&& a.module == t.module
            &&& a.name == t.name
            &&& a.args_json == t.args_json
            &&& (a.lead, a.body) == around(raw)
            &&& a.malformed is Some == t.malformed
            &&& t.malformed ==> match json::json_of(t.args_json) {
                Err(e) => a.malformed->0 is Syntax && a.malformed->0->Syntax_0@ == e,
                Ok(_) => a.malformed->0 is Shape && a.malformed->0->Shape_0@ == t.args_json,
            }
        }),
    }
}

fn split_around(raw: &str) -> (r: (String, String))
    ensures
        (r.0@, r.1@) == around(raw@),
{
    match extract_json_object(raw) {
        Some(o) => {
            let v = to_chars(raw);
            let p = to_chars(o.as_str());
            match find_in(&v, &p, 0) {
                Some(i) => {
                    assert(i + p.len() <= v.len());
                    let lead = slice(&v, 0, i);
                    let body = slice(&v, i + p.len(), v.len());
                    assert(lead@ =~= raw@.take(i as int));
                    assert(body@ =~= raw@.skip(i + p@.len()));
                    (trim(lead.as_str()), body)
                },
                None => (trim(raw), String::new()),
            }
        },
        None => (trim(raw), String::new()),
    }
}

/// Understands a reply. A call whose JSON cannot be read has a fault of syntax, any
/// other call that cannot be made out a fault of shape.
pub fn understand(raw: &str) -> (r: Understood)
    ensures
        reads_as(raw@, envelope::reply_of(raw@, envelope::first_value(raw@)), r@),
{
    let reply = crate::envelope::parse(raw);
    let mut tools: Vec<Invoke> = Vec::new();
    match reply.tool {
        Some(t) => {
            let malformed = if t.malformed {
                match parse_json(t.args_json.as_str()) {
                    Err(e) => Some(Malformed::Syntax(e)),
                    Ok(_) => Some(Malformed::Shape(t.args_json.clone())),
                }
            } else {
                None
            };
            let (lead, body) = split_around(raw);
            tools.push(
                Invoke {
                    malformed,
                    module: t.module,
                    name: t.name,
                    args_json: t.args_json,
                    body,
                    lead,
                },
            );
            assert(asks_v(tools@)[0] == tools@[0]@);
        },
        None => {},
    }
    Understood { verb: reply.verb, text: reply.text, degraded: reply.degraded, tools }
}

/// Whether a reply asks for a tool that takes a text.
pub open spec fn asks_freeform(u: UnderstoodV) -> bool {
    exists|k: int| 0 <= k < u.tools.len() && (#[trigger] u.tools[k]).name == PATCH@
}

/// Whether a reply is to be mended, and why: only where its first call cannot be
/// read, the reply was not broken off by the user, and no text stands behind the
/// envelope that mending would spoil.
pub open spec fn to_mend(u: UnderstoodV, aborted: bool) -> Option<Malformed> {
    if aborted || asks_freeform(u) || u.tools.len() == 0 {
        None
    } else {
        u.tools[0].malformed
    }
}

fn has_freeform(v: &Vec<Invoke>) -> (r: bool)
    ensures
        r == exists|k: int| 0 <= k < v@.len() && (#[trigger] asks_v(v@)[k]).name == PATCH@,
{
    let ghost av = asks_v(v@);
    let mut i: usize = 0;
    while i < v.len()
        invariant
            i <= v@.len(),
            av == asks_v(v@),
            forall|k: int| 0 <= k < i ==> (#[trigger] av[k]).name != PATCH@,
        decreases v@.len() - i,
    {
        assert(av[i as int] == v@[i as int]@);
        if is_freeform(v[i].name.as_str()) {
            return true;
        }
        i = i + 1;
    }
    false
}

/// Why a reply is to be mended, if it is.
pub fn wants_mending(u: &Understood, aborted: bool) -> (r: Option<&Malformed>)
    ensures
        match r {
            Some(m) => to_mend(u@, aborted) == Some(*m),
            None => to_mend(u@, aborted) is None,
        },
{
    if aborted || has_freeform(&u.tools) || u.tools.len() == 0 {
        return None;
    }
    assert(u@.tools[0] == u.tools@[0]@);
    match &u.tools[0].malformed {
        Some(m) => Some(m),
        None => None,
    }
}

/// Whether a mended reply is taken: it asks for calls, and all of them can be read.
pub open spec fn mended(u: UnderstoodV) -> bool {
    u.tools.len() > 0 && forall|k: int|
        0 <= k < u.tools.len() ==> (#[trigger] u.tools[k]).malformed is None
}

pub fn is_mended(u: &Understood) -> (r: bool)
    ensures
        r == mended(u@),
{
    let ghost av = u@.tools;
    let mut i: usize = 0;
    while i < u.tools.len()
        invariant
            i <= u.tools@.len(),
            av == asks_v(u.tools@),
            forall|k: int| 0 <= k < i ==> (#[trigger] av[k]).malformed is None,
        decreases u.tools@.len() - i,
    {
        assert(av[i as int] == u.tools@[i as int]@);
        if u.tools[i].malformed.is_some() {
            return false;
        }
        i = i + 1;
    }
    u.tools.len() > 0
}

// ---- rounds ----

/// A call that was made, and the messages it leaves in the history.
#[derive(Debug)]
pub struct ToolRun {
    pub view: ToolCallView,
    pub msgs: Vec<Msg>,
}

/// A round of a turn: a text, with a call behind it or not.
#[derive(Debug)]
pub struct Round {
    /// The reply it belongs to.
    pub reply: u64,
    pub text: String,
    pub reasoning: String,
    /// The messages the text leaves in the history.
    pub text_msgs: Vec<Msg>,
    pub tool: Option<ToolRun>,
    /// Why the reply ended, in the provider's words.
    pub finish: String,
    /// Why there is no reply, if there is none.
    pub error: Option<String>,
    /// The verb of a discussion, if the round is one.
    pub verb: Option<Verb>,
    pub degraded: bool,
}

#[verifier::ext_equal]
pub struct RunV {
    pub view: CallV,
    pub msgs: Seq<MsgV>,
}

#[verifier::ext_equal]
pub struct RoundV {
    pub reply: u64,
    pub text: Seq<char>,
    pub reasoning: Seq<char>,
    pub text_msgs: Seq<MsgV>,
    pub tool: Option<RunV>,
    pub finish: Seq<char>,
    pub error: Option<Seq<char>>,
    pub verb: Option<Verb>,
    pub degraded: bool,
}

pub open spec fn opt_run(o: Option<ToolRun>) -> Option<RunV> {
    match o {
        Some(r) => Some(RunV { view: r.view@, msgs: ports::msgs_v(r.msgs@) }),
        None => None,
    }
}

impl View for Round {
    type V = RoundV;

    open spec fn view(&self) -> RoundV {
        RoundV {
            reply: self.reply,
            text: self.text@,
            reasoning: self.reasoning@,
            text_msgs: ports::msgs_v(self.text_msgs@),
            tool: opt_run(self.tool),
            finish: self.finish@,
            error: text::opt_text(self.error),
            verb: self.verb,
            degraded: self.degraded,
        }
    }
}

pub open spec fn rounds_v(v: Seq<Round>) -> Seq<RoundV> {
    v.map_values(|r: Round| r@)
}

impl Round {
    /// Whether the reply was cut at its greatest length.
    pub fn truncated(&self) -> (r: bool)
        ensures
            r == ports::cut_short(self.finish@),
    {
        truncated(self.finish.as_str())
    }
}

/// A round without a reply.
pub open spec fn failed_round(reply: u64, error: Seq<char>) -> RoundV {
    RoundV {
        reply,
        text: Seq::empty(),
        reasoning: Seq::empty(),
        text_msgs: Seq::empty(),
        tool: None,
        finish: Seq::empty(),
        error: Some(error),
        verb: None,
        degraded: false,
    }
}

/// Whether a round has a line of its own: a text or reasoning.
pub open spec fn has_line(text: Seq<char>, reasoning: Seq<char>) -> bool {
    text::trimmed(text).len() > 0 || text::trimmed(reasoning).len() > 0
}

/// A round that is a text. What has no line leaves nothing in the history.
pub open spec fn text_round(
    reply: u64,
    text: Seq<char>,
    reasoning: Seq<char>,
    finish: Seq<char>,
    verb: Option<Verb>,
    degraded: bool,
) -> RoundV {
    RoundV {
        reply,
        text,
        reasoning,
        text_msgs: if has_line(text, reasoning) {
            seq![ports::plain_msg("assistant"@, text::trimmed(text))]
        } else {
            Seq::empty()
        },
        tool: None,
        finish,
        error: None,
        verb,
        degraded,
    }
}

fn make_text_round(
    reply: u64,
    text: String,
    reasoning: String,
    finish: String,
    verb: Option<Verb>,
    degraded: bool,
) -> (r: Round)
    ensures
        r@ == text_round(reply, text@, reasoning@, finish@, verb, degraded),
{
    let mut text_msgs: Vec<Msg> = Vec::new();
    if !is_blank(text.as_str()) || !is_blank(reasoning.as_str()) {
        text_msgs.push(Msg::assistant(trim(text.as_str())));
    }
    let r = Round {
        reply,
        text,
        reasoning,
        text_msgs,
        tool: None,
        finish,
        error: None,
        verb,
        degraded,
    };
    assert(r@ =~= text_round(reply, text@, reasoning@, finish@, verb, degraded));
    r
}

/// A round whose one call was not run.
pub open spec fn noted_round(
    reply: u64,
    text: Seq<char>,
    reasoning: Seq<char>,
    finish: Seq<char>,
    degraded: bool,
    view: CallV,
    msgs: Seq<MsgV>,
) -> RoundV {
    RoundV {
        reply,
        text,
        reasoning,
        text_msgs: seq![msgs[0]],
        tool: Some(RunV { view, msgs: seq![msgs[1]] }),
        finish,
        error: None,
        verb: None,
        degraded,
    }
}

/// The calls of a reply, ready to be run.
#[derive(Debug)]
pub struct CallSet {
    pub plan: Vec<Planned>,
    /// The arguments as they are shown.
    pub shown: Vec<String>,
    /// The provider's ids of the calls.
    pub ids: Vec<String>,
    /// The text of the reply.
    pub text: String,
    /// What stands for the reply in the history.
    pub raw: String,
    /// What was mended, if anything was.
    pub repaired: String,
}

#[verifier::ext_equal]
pub struct SetV {
    pub plan: Seq<PlannedCallV>,
    pub shown: Seq<Seq<char>>,
    pub ids: Seq<Seq<char>>,
    pub text: Seq<char>,
    pub raw: Seq<char>,
    pub repaired: Seq<char>,
}

impl View for CallSet {
    type V = SetV;

    open spec fn view(&self) -> SetV {
        SetV {
            plan: engine::calls_v(self.plan@),
            shown: text::texts(self.shown@),
            ids: text::texts(self.ids@),
            text: self.text@,
            raw: self.raw@,
            repaired: self.repaired@,
        }
    }
}

/// What comes of a reply.
#[derive(Debug)]
pub enum Settled {
    /// The turn ends with this round.
    End(Round),
    /// A call that is not run: the round that says so, and the messages it leaves.
    Noted(Round, Vec<Msg>),
    /// Calls to run.
    Calls(CallSet),
}

#[verifier::ext_equal]
pub enum SettledV {
    End(RoundV),
    Noted(RoundV, Seq<MsgV>),
    Calls(SetV),
}

impl View for Settled {
    type V = SettledV;

    open spec fn view(&self) -> SettledV {
        match *self {
            Settled::End(r) => SettledV::End(r@),
            Settled::Noted(r, m) => SettledV::Noted(r@, ports::msgs_v(m@)),
            Settled::Calls(c) => SettledV::Calls(c@),
        }
    }
}

/// The first native call that is a verb of a discussion, from the `i`th on.
pub open spec fn spoken_call(calls: Seq<ToolCallV>, i: int) -> Option<(Verb, Seq<char>)>
    decreases calls.len() - i,
{
    if i < 0 || i >= calls.len() {
        None
    } else {
        match verb_named(calls[i].name) {
            Some(v) => Some((v, arg_of(calls[i].args_json, "text"@))),
            None => spoken_call(calls, i + 1),
        }
    }
}

pub open spec fn spoken_envelope(u: UnderstoodV) -> Option<(Verb, Seq<char>)> {
    if u.degraded || u.verb == Verb::Tool {
        None
    } else {
        Some((u.verb, u.text))
    }
}

/// What a member of a discussion says, if the reply says something.
pub open spec fn spoken(mode: ToolMode, calls: Seq<ToolCallV>, u: UnderstoodV) -> Option<
    (Verb, Seq<char>),
> {
    if mode == ToolMode::Native && spoken_call(calls, 0) is Some {
        spoken_call(calls, 0)
    } else {
        spoken_envelope(u)
    }
}

fn find_spoken(mode: ToolMode, calls: &Vec<ToolCall>, u: &Understood) -> (r: Option<(Verb, String)>)
    ensures
        match r {
            Some(x) => spoken(mode, ports::tool_calls_v(calls@), u@) == Some((x.0, x.1@)),
            None => spoken(mode, ports::tool_calls_v(calls@), u@) is None,
        },
{
    let ghost cv = ports::tool_calls_v(calls@);
    if mode == ToolMode::Native {
        let mut i: usize = 0;
        while i < calls.len()
            invariant
                i <= calls@.len(),
                mode == ToolMode::Native,
                cv == ports::tool_calls_v(calls@),
                spoken_call(cv, 0) == spoken_call(cv, i as int),
            decreases calls@.len() - i,
        {
            assert(cv[i as int] == calls@[i as int]@);
            match verb_of(calls[i].name.as_str()) {
                Some(v) => {
                    return Some((v, arg_text(calls[i].args_json.as_str())));
                },
                None => {},
            }
            i = i + 1;
        }
    }
    if u.degraded || u.verb == Verb::Tool {
        None
    } else {
        Some((u.verb, u.text.clone()))
    }
}

/// What a native call asks for: the tool its name stands for, with its arguments,
/// or its text where the tool takes one.
pub open spec fn native_plan(
    wire: Seq<(Seq<char>, (Option<Seq<char>>, Seq<char>))>,
    c: ToolCallV,
) -> PlannedCallV {
    let m = meant_by(wire, c.name);
    PlannedCallV {
        module: m.0,
        tool: m.1,
        args: if m.1 == PATCH@ {
            arg_of(c.args_json, "body"@)
        } else {
            c.args_json
        },
    }
}

pub open spec fn native_plans(
    wire: Seq<(Seq<char>, (Option<Seq<char>>, Seq<char>))>,
    calls: Seq<ToolCallV>,
) -> Seq<PlannedCallV> {
    calls.map_values(|c: ToolCallV| native_plan(wire, c))
}

pub open spec fn plan_args(v: Seq<PlannedCallV>) -> Seq<Seq<char>> {
    v.map_values(|p: PlannedCallV| p.args)
}

pub open spec fn call_ids(v: Seq<ToolCallV>) -> Seq<Seq<char>> {
    v.map_values(|c: ToolCallV| c.id)
}

pub open spec fn native_set(
    wire: Seq<(Seq<char>, (Option<Seq<char>>, Seq<char>))>,
    calls: Seq<ToolCallV>,
    text: Seq<char>,
) -> SetV {
    let plan = native_plans(wire, calls);
    SetV {
        plan,
        shown: plan_args(plan),
        ids: call_ids(calls),
        text,
        raw: text,
        repaired: Seq::empty(),
    }
}

fn make_native_set(decls: &ToolDecls, calls: &Vec<ToolCall>, text: &str) -> (r: CallSet)
    ensures
        r@ == native_set(wires_v(decls.wire@), ports::tool_calls_v(calls@), text@),
        r.plan@.len() == calls@.len(),
{
    let ghost wv = wires_v(decls.wire@);
    let ghost cv = ports::tool_calls_v(calls@);
    let ghost pv = native_plans(wv, cv);
    let mut plan: Vec<Planned> = Vec::new();
    let mut shown: Vec<String> = Vec::new();
    let mut ids: Vec<String> = Vec::new();
    let mut i: usize = 0;
    while i < calls.len()
        invariant
            i <= calls@.len(),
            wv == wires_v(decls.wire@),
            cv == ports::tool_calls_v(calls@),
            pv == native_plans(wv, cv),
            plan@.len() == i,
            engine::calls_v(plan@) == pv.take(i as int),
            text::texts(shown@) == plan_args(pv).take(i as int),
            text::texts(ids@) == call_ids(cv).take(i as int),
        decreases calls@.len() - i,
    {
        let c = &calls[i];
        assert(cv[i as int] == c@);
        let (module, tool) = decls.meant(c.name.as_str());
        let args = if is_freeform(tool.as_str()) {
            arg_at(c.args_json.as_str(), "body")
        } else {
            c.args_json.clone()
        };
        let ghost p0 = plan@;
        let ghost s0 = shown@;
        let ghost i0 = ids@;
        shown.push(args.clone());
        ids.push(c.id.clone());
        let p = Planned { module, tool, args };
        plan.push(p);
        proof {
            assert(p@ =~= native_plan(wv, cv[i as int]));
            assert(engine::calls_v(plan@) =~= engine::calls_v(p0).push(p@));
            assert(pv[i as int] == p@);
            assert(engine::calls_v(plan@) =~= pv.take(i + 1));
            text::lemma_texts_push(s0, shown@.last());
            text::lemma_texts_push(i0, ids@.last());
            assert(plan_args(pv)[i as int] == args@);
            assert(call_ids(cv)[i as int] == c.id@);
            assert(text::texts(shown@) =~= plan_args(pv).take(i + 1));
            assert(text::texts(ids@) =~= call_ids(cv).take(i + 1));
        }
        i = i + 1;
    }
    let r = CallSet {
        plan,
        shown,
        ids,
        text: text.to_owned(),
        raw: text.to_owned(),
        repaired: String::new(),
    };
    proof {
        assert(pv.take(pv.len() as int) =~= pv);
        assert(plan_args(pv).take(pv.len() as int) =~= plan_args(pv));
        assert(call_ids(cv).take(cv.len() as int) =~= call_ids(cv));
        assert(r@ =~= native_set(wv, cv, text@));
    }
    r
}

pub open spec fn envelope_plan(a: AskV) -> PlannedCallV {
    PlannedCallV {
        module: a.module,
        tool: a.name,
        args: if a.name == PATCH@ {
            a.body
        } else {
            a.args_json
        },
    }
}

pub open spec fn envelope_plans(v: Seq<AskV>) -> Seq<PlannedCallV> {
    v.map_values(|a: AskV| envelope_plan(a))
}

pub open spec fn asked_args(v: Seq<AskV>) -> Seq<Seq<char>> {
    v.map_values(|a: AskV| a.args_json)
}

pub open spec fn no_ids(v: Seq<AskV>) -> Seq<Seq<char>> {
    v.map_values(|a: AskV| Seq::<char>::empty())
}

/// The text of a reply with calls: where it makes one call of a tool that takes a
/// text, only what stands before the envelope.
pub open spec fn shown_text(u: UnderstoodV) -> Seq<char> {
    if u.tools.len() == 1 && u.tools[0].name == PATCH@ {
        u.tools[0].lead
    } else {
        u.text
    }
}

pub open spec fn envelope_set(u: UnderstoodV, raw: Seq<char>, repaired: Seq<char>) -> SetV {
    SetV {
        plan: envelope_plans(u.tools),
        shown: asked_args(u.tools),
        ids: no_ids(u.tools),
        text: shown_text(u),
        raw,
        repaired,
    }
}

fn make_envelope_set(u: &Understood, raw: &str, repaired: String) -> (r: CallSet)
    ensures
        r@ == envelope_set(u@, raw@, repaired@),
        r.plan@.len() == u.tools@.len(),
{
    let ghost av = u@.tools;
    let ghost pv = envelope_plans(av);
    let mut plan: Vec<Planned> = Vec::new();
    let mut shown: Vec<String> = Vec::new();
    let mut ids: Vec<String> = Vec::new();
    let mut i: usize = 0;
    while i < u.tools.len()
        invariant
            i <= u.tools@.len(),
            av == asks_v(u.tools@),
            pv == envelope_plans(av),
            plan@.len() == i,
            engine::calls_v(plan@) == pv.take(i as int),
            text::texts(shown@) == asked_args(av).take(i as int),
            text::texts(ids@) == no_ids(av).take(i as int),
        decreases u.tools@.len() - i,
    {
        let t = &u.tools[i];
        assert(av[i as int] == t@);
        let args = if is_freeform(t.name.as_str()) {
            t.body.clone()
        } else {
            t.args_json.clone()
        };
        let ghost p0 = plan@;
        let ghost s0 = shown@;
        let ghost i0 = ids@;
        shown.push(t.args_json.clone());
        ids.push(String::new());
        let p = Planned { module: clone_opt(&t.module), tool: t.name.clone(), args };
        plan.push(p);
        proof {
            assert(p@ =~= envelope_plan(t@));
            assert(engine::calls_v(plan@) =~= engine::calls_v(p0).push(p@));
            assert(pv[i as int] == p@);
            assert(engine::calls_v(plan@) =~= pv.take(i + 1));
            text::lemma_texts_push(s0, shown@.last());
            text::lemma_texts_push(i0, ids@.last());
            assert(asked_args(av)[i as int] == t.args_json@);
            assert(no_ids(av)[i as int] =~= ids@.last()@);
            assert(text::texts(shown@) =~= asked_args(av).take(i + 1));
            assert(text::texts(ids@) =~= no_ids(av).take(i + 1));
        }
        i = i + 1;
    }
    let text = if u.tools.len() == 1 && is_freeform(u.tools[0].name.as_str()) {
        u.tools[0].lead.clone()
    } else {
        u.text.clone()
    };
    let r = CallSet { plan, shown, ids, text, raw: raw.to_owned(), repaired };
    proof {
        if u.tools@.len() == 1 {
            assert(av[0] == u.tools@[0]@);
        }
        assert(pv.take(pv.len() as int) =~= pv);
        assert(asked_args(av).take(av.len() as int) =~= asked_args(av));
        assert(no_ids(av).take(av.len() as int) =~= no_ids(av));
        assert(r@ =~= envelope_set(u@, raw@, repaired@));
    }
    r
}

/// What is known of a call of the model once it is over.
#[derive(Debug)]
pub struct Heard {
    pub done: Completion,
    /// The reasoning as it was streamed; empty where none was.
    pub streamed: String,
    pub reply: Understood,
    /// What was mended, if the reply was.
    pub repaired: String,
}

pub open spec fn reasoning_of(h: Heard) -> Seq<char> {
    if h.streamed@.len() == 0 {
        match h.done.reasoning {
            Some(r) => r@,
            None => Seq::empty(),
        }
    } else {
        h.streamed@
    }
}

fn take_reasoning(h: &Heard) -> (r: String)
    ensures
        r@ == reasoning_of(*h),
{
    if h.streamed.as_str().unicode_len() == 0 {
        match &h.done.reasoning {
            Some(r) => r.clone(),
            None => String::new(),
        }
    } else {
        h.streamed.clone()
    }
}

/// The view of a call that is not run.
pub open spec fn unrun_view(
    speaker: Seq<char>,
    reply: u64,
    a: AskV,
    output: Seq<char>,
    raw: Seq<char>,
) -> CallV {
    CallV {
        speaker,
        module: match a.module {
            Some(m) => m,
            None => Seq::empty(),
        },
        name: a.name,
        ok: false,
        args: a.args_json,
        output,
        raw,
        call_id: Seq::empty(),
        reply,
    }
}

fn make_unrun(speaker: &str, reply: u64, a: &Invoke, output: String, raw: &str) -> (r: ToolCallView)
    ensures
        r@ == unrun_view(speaker@, reply, a@, output@, raw@),
{
    let r = ToolCallView {
        speaker: speaker.to_owned(),
        module: match &a.module {
            Some(m) => m.clone(),
            None => String::new(),
        },
        name: a.name.clone(),
        ok: false,
        args: a.args_json.clone(),
        output,
        raw: raw.to_owned(),
        call_id: String::new(),
        reply,
    };
    assert(r@ =~= unrun_view(speaker@, reply, a@, output@, raw@));
    r
}

pub open spec fn malformed_said(t: ToolTexts, kind: Malformed, truncated: bool) -> Seq<char> {
    prompt::malformed_text(t, kind) + if truncated {
        "\n"@ + t.malformed_truncated@
    } else {
        Seq::empty()
    }
}

/// What comes of a call that is not run.
pub open spec fn noted_call(
    t: ToolTexts,
    mode: ToolMode,
    reply: u64,
    speaker: Seq<char>,
    h: Heard,
    output: Seq<char>,
    degraded: bool,
) -> SettledV {
    let view = unrun_view(speaker, reply, h.reply@.tools[0], output, h.done.raw@);
    let msgs = reply_messages(mode, h.done.raw@, seq![view], t);
    SettledV::Noted(
        noted_round(
            reply,
            h.reply@.text,
            reasoning_of(h),
            h.done.finish@,
            degraded,
            view,
            msgs,
        ),
        msgs,
    )
}

/// What comes of a reply. A call that failed ends the turn; so does what a member
/// of a discussion says. On a native channel only native calls are run, and an
/// envelope in the text is answered with how to call. Elsewhere envelopes are run,
/// but none where one cannot be read. What asks for nothing is the last text.
pub open spec fn reply_settled(
    tools: Option<&MemberTools>,
    mode: ToolMode,
    wire: Seq<(Seq<char>, (Option<Seq<char>>, Seq<char>))>,
    reply: u64,
    speaker: Seq<char>,
    verbs: bool,
    h: Heard,
) -> SettledV {
    let u = h.reply@;
    let calls = ports::tool_calls_v(h.done.calls@);
    let reasoning = reasoning_of(h);
    let finish = h.done.finish@;
    let said = spoken(mode, calls, u);
    let last = SettledV::End(
        text_round(
            reply,
            u.text,
            reasoning,
            finish,
            None,
            u.degraded || u.verb == Verb::Tool,
        ),
    );
    if h.done.error is Some {
        SettledV::End(failed_round(reply, h.done.error->0@))
    } else if verbs && said is Some {
        SettledV::End(
            text_round(reply, (said->0).1, reasoning, finish, Some((said->0).0), false),
        )
    } else {
        match tools {
            None => last,
            Some(t) => {
                let x = t.sandbox.texts;
                if mode == ToolMode::Native && calls.len() > 0 {
                    SettledV::Calls(native_set(wire, calls, u.text))
                } else if u.tools.len() == 0 {
                    last
                } else if mode == ToolMode::Native {
                    noted_call(x, mode, reply, speaker, h, x.native_no_envelope@, false)
                } else {
                    match u.tools[0].malformed {
                        Some(kind) => noted_call(
                            x,
                            mode,
                            reply,
                            speaker,
                            h,
                            malformed_said(x, kind, ports::cut_short(finish)),
                            true,
                        ),
                        None => SettledV::Calls(envelope_set(u, h.done.raw@, h.repaired@)),
                    }
                }
            },
        }
    }
}

fn make_noted(
    t: &ToolTexts,
    mode: ToolMode,
    reply: u64,
    speaker: &str,
    h: &Heard,
    output: String,
    degraded: bool,
) -> (r: Settled)
    requires
        prompt::texts_sound(*t),
        h.reply.tools@.len() > 0,
    ensures
        r@ == noted_call(*t, mode, reply, speaker@, *h, output@, degraded),
{
    assert(h.reply@.tools[0] == h.reply.tools@[0]@);
    let raw = h.done.raw.as_str();
    let view = make_unrun(speaker, reply, &h.reply.tools[0], output, raw);
    let ghost vv = view@;
    let mut one: Vec<ToolCallView> = Vec::new();
    one.push(view.copy());
    assert(call_views(one@) =~= seq![vv]);
    let msgs = reply_msgs(mode, raw, &one, t);
    let ghost mv = reply_messages(mode, raw@, seq![vv], *t);
    assert(msgs@.len() == mv.len());
    let mut text_msgs: Vec<Msg> = Vec::new();
    text_msgs.push(msgs[0].copy());
    let mut run_msgs: Vec<Msg> = Vec::new();
    run_msgs.push(msgs[1].copy());
    assert(ports::msgs_v(msgs@)[0] == msgs@[0]@ && ports::msgs_v(msgs@)[1] == msgs@[1]@);
    assert(ports::msgs_v(text_msgs@) =~= seq![mv[0]]);
    assert(ports::msgs_v(run_msgs@) =~= seq![mv[1]]);
    let round = Round {
        reply,
        text: h.reply.text.clone(),
        reasoning: take_reasoning(h),
        text_msgs,
        tool: Some(ToolRun { view, msgs: run_msgs }),
        finish: h.done.finish.clone(),
        error: None,
        verb: None,
        degraded,
    };
    assert(round@ =~= noted_round(
        reply,
        h.reply@.text,
        reasoning_of(*h),
        h.done.finish@,
        degraded,
        vv,
        mv,
    ));
    Settled::Noted(round, msgs)
}

/// Decides what comes of a reply.
pub fn settle(
    tools: Option<&MemberTools>,
    mode: ToolMode,
    decls: &ToolDecls,
    reply: u64,
    speaker: &str,
    verbs: bool,
    h: &Heard,
) -> (r: Settled)
    requires
        tools matches Some(t) ==> prompt::texts_sound(t.sandbox.texts),
    ensures
        r@ == reply_settled(tools, mode, wires_v(decls.wire@), reply, speaker@, verbs, *h),
{
    let ghost calls = ports::tool_calls_v(h.done.calls@);
    assert(calls.len() == h.done.calls@.len());
    assert(h.reply@.tools.len() == h.reply.tools@.len());
    match &h.done.error {
        Some(e) => {
            let r = Round {
                reply,
                text: String::new(),
                reasoning: String::new(),
                text_msgs: Vec::new(),
                tool: None,
                finish: String::new(),
                error: Some(e.clone()),
                verb: None,
                degraded: false,
            };
            assert(r@ =~= failed_round(reply, e@));
            return Settled::End(r);
        },
        None => {},
    }
    if verbs {
        match find_spoken(mode, &h.done.calls, &h.reply) {
            Some((verb, text)) => {
                return Settled::End(
                    make_text_round(
                        reply,
                        text,
                        take_reasoning(h),
                        h.done.finish.clone(),
                        Some(verb),
                        false,
                    ),
                );
            },
            None => {},
        }
    }
    match tools {
        Some(t) => {
            let x = &t.sandbox.texts;
            if mode == ToolMode::Native && h.done.calls.len() > 0 {
                return Settled::Calls(
                    make_native_set(decls, &h.done.calls, h.reply.text.as_str()),
                );
            }
            if h.reply.tools.len() > 0 {
                assert(h.reply@.tools[0] == h.reply.tools@[0]@);
                if mode == ToolMode::Native {
                    return make_noted(
                        x,
                        mode,
                        reply,
                        speaker,
                        h,
                        x.native_no_envelope.clone(),
                        false,
                    );
                }
                match &h.reply.tools[0].malformed {
                    Some(kind) => {
                        let why = x.malformed_report(kind);
                        let said = if h.done.truncated() {
                            cat3(why.as_str(), "\n", x.malformed_truncated.as_str())
                        } else {
                            why
                        };
                        assert(said@ =~= malformed_said(*x, *kind, ports::cut_short(h.done.finish@)));
                        return make_noted(x, mode, reply, speaker, h, said, true);
                    },
                    None => {
                        return Settled::Calls(
                            make_envelope_set(
                                &h.reply,
                                h.done.raw.as_str(),
                                h.repaired.clone(),
                            ),
                        );
                    },
                }
            }
        },
        None => {},
    }
    Settled::End(
        make_text_round(
            reply,
            h.reply.text.clone(),
            take_reasoning(h),
            h.done.finish.clone(),
            None,
            h.reply.degraded || h.reply.verb == Verb::Tool,
        ),
    )
}

/// What a call says, with what was mended before it.
pub open spec fn annotated(t: ToolTexts, repaired: Seq<char>, output: Seq<char>) -> Seq<char> {
    if repaired.len() == 0 {
        output
    } else {
        prompt::filled(t.envelope_repaired@, seq![("what"@, repaired)]) + "\n"@ + output
    }
}

/// The view of the `k`th call of a reply, given what it gave.
pub open spec fn run_view(
    t: ToolTexts,
    speaker: Seq<char>,
    reply: u64,
    s: SetV,
    label: Seq<char>,
    out: (bool, Seq<char>),
    k: int,
) -> CallV {
    CallV {
        speaker,
        module: label,
        name: s.plan[k].tool,
        ok: out.0,
        args: s.shown[k],
        output: annotated(t, s.repaired, out.1),
        raw: s.raw,
        call_id: s.ids[k],
        reply,
    }
}

pub open spec fn run_views(
    t: ToolTexts,
    speaker: Seq<char>,
    reply: u64,
    s: SetV,
    outs: Seq<(Seq<char>, (bool, Seq<char>))>,
) -> Seq<CallV> {
    Seq::new(
        outs.len(),
        |k: int| run_view(t, speaker, reply, s, outs[k].0, outs[k].1, k),
    )
}

pub open spec fn outs_v(v: Seq<(String, ToolOutcome)>) -> Seq<(Seq<char>, (bool, Seq<char>))> {
    v.map_values(|e: (String, ToolOutcome)| (e.0@, systool::outcome(e.1)))
}

/// The round of the `k`th call: the text and the reasoning go with the first.
pub open spec fn call_round(
    reply: u64,
    text: Seq<char>,
    reasoning: Seq<char>,
    finish: Seq<char>,
    views: Seq<CallV>,
    msgs: Seq<MsgV>,
    k: int,
) -> RoundV {
    RoundV {
        reply,
        text: if k == 0 {
            text
        } else {
            Seq::empty()
        },
        reasoning: if k == 0 {
            reasoning
        } else {
            Seq::empty()
        },
        text_msgs: if k == 0 {
            seq![msgs[0]]
        } else {
            Seq::empty()
        },
        tool: Some(RunV { view: views[k], msgs: seq![msgs[k + 1]] }),
        finish,
        error: None,
        verb: None,
        degraded: false,
    }
}

pub open spec fn call_rounds(
    reply: u64,
    text: Seq<char>,
    reasoning: Seq<char>,
    finish: Seq<char>,
    views: Seq<CallV>,
    msgs: Seq<MsgV>,
) -> Seq<RoundV> {
    Seq::new(
        views.len(),
        |k: int| call_round(reply, text, reasoning, finish, views, msgs, k),
    )
}

fn make_views(
    t: &ToolTexts,
    speaker: &str,
    reply: u64,
    s: &CallSet,
    outs: &Vec<(String, ToolOutcome)>,
) -> (r: Vec<ToolCallView>)
    requires
        prompt::texts_sound(*t),
        s.plan@.len() == outs@.len(),
        s.shown@.len() == outs@.len(),
        s.ids@.len() == outs@.len(),
    ensures
        call_views(r@) == run_views(*t, speaker@, reply, s@, outs_v(outs@)),
{
    let ghost ov = outs_v(outs@);
    let ghost all = run_views(*t, speaker@, reply, s@, ov);
    let mut r: Vec<ToolCallView> = Vec::new();
    let mut k: usize = 0;
    while k < outs.len()
        invariant
            k <= outs@.len(),
            prompt::texts_sound(*t),
            s.plan@.len() == outs@.len(),
            s.shown@.len() == outs@.len(),
            s.ids@.len() == outs@.len(),
            ov == outs_v(outs@),
            all == run_views(*t, speaker@, reply, s@, ov),
            call_views(r@) == all.take(k as int),
        decreases outs@.len() - k,
    {
        let o = &outs[k];
        let output = if s.repaired.as_str().unicode_len() == 0 {
            o.1.output.clone()
        } else {
            cat3(
                fill1(t.envelope_repaired.as_str(), "what", s.repaired.as_str()).as_str(),
                "\n",
                o.1.output.as_str(),
            )
        };
        let v = ToolCallView {
            speaker: speaker.to_owned(),
            module: o.0.clone(),
            name: s.plan[k].tool.clone(),
            ok: o.1.ok,
            args: s.shown[k].clone(),
            output,
            raw: s.raw.clone(),
            call_id: s.ids[k].clone(),
            reply,
        };
        let ghost prev = r@;
        r.push(v);
        proof {
            assert(s@.plan[k as int] == s.plan@[k as int]@);
            assert(ov[k as int] == (o.0@, systool::outcome(o.1)));
            assert(v@ =~= run_view(
                *t,
                speaker@,
                reply,
                s@,
                ov[k as int].0,
                ov[k as int].1,
                k as int,
            ));
            assert(call_views(r@) =~= call_views(prev).push(v@));
            assert(all[k as int] == v@);
            assert(call_views(r@) =~= all.take(k + 1));
        }
        k = k + 1;
    }
    assert(all.take(all.len() as int) =~= all);
    r
}

/// The rounds of a reply's calls once they were run, and the messages the reply
/// leaves in the history: one round for each call, in the order of the calls.
pub fn finish_calls(
    t: &ToolTexts,
    mode: ToolMode,
    speaker: &str,
    reply: u64,
    s: &CallSet,
    outs: &Vec<(String, ToolOutcome)>,
    h: &Heard,
) -> (r: (Vec<Round>, Vec<Msg>))
    requires
        prompt::texts_sound(*t),
        s.plan@.len() == outs@.len(),
        s.shown@.len() == outs@.len(),
        s.ids@.len() == outs@.len(),
    ensures
        ({
            let views = run_views(*t, speaker@, reply, s@, outs_v(outs@));
            let msgs = reply_messages(mode, s@.raw, views, *t);
            &&& ports::msgs_v(r.1@) == msgs
            &&& rounds_v(r.0@) == call_rounds(
                reply,
                s@.text,
                reasoning_of(*h),
                h.done.finish@,
                views,
                msgs,
            )
        }),
{
    let views = make_views(t, speaker, reply, s, outs);
    let ghost vv = call_views(views@);
    let msgs = reply_msgs(mode, s.raw.as_str(), &views, t);
    let ghost mv = ports::msgs_v(msgs@);
    assert(mv.len() == vv.len() + 1);
    assert(msgs@.len() == views@.len() + 1);
    let ghost all = call_rounds(reply, s@.text, reasoning_of(*h), h.done.finish@, vv, mv);
    let mut rounds: Vec<Round> = Vec::new();
    let mut k: usize = 0;
    while k < views.len()
        invariant
            k <= views@.len(),
            vv == call_views(views@),
            mv == ports::msgs_v(msgs@),
            msgs@.len() == views@.len() + 1,
            all == call_rounds(reply, s@.text, reasoning_of(*h), h.done.finish@, vv, mv),
            rounds_v(rounds@) == all.take(k as int),
        decreases views@.len() - k,
    {
        let mut text_msgs: Vec<Msg> = Vec::new();
        if k == 0 {
            text_msgs.push(msgs[0].copy());
        }
        let mut run_msgs: Vec<Msg> = Vec::new();
        assert(k + 1 < msgs.len());
        run_msgs.push(msgs[k + 1].copy());
        let round = Round {
            reply,
            text: if k == 0 {
                s.text.clone()
            } else {
                String::new()
            },
            reasoning: if k == 0 {
                take_reasoning(h)
            } else {
                String::new()
            },
            text_msgs,
            tool: Some(ToolRun { view: views[k].copy(), msgs: run_msgs }),
            finish: h.done.finish.clone(),
            error: None,
            verb: None,
            degraded: false,
        };
        let ghost prev = rounds@;
        rounds.push(round);
        proof {
            assert(mv[0] == msgs@[0]@ && mv[k + 1] == msgs@[k + 1]@);
            assert(vv[k as int] == views@[k as int]@);
            assert(ports::msgs_v(run_msgs@) =~= seq![mv[k + 1]]);
            if k == 0 {
                assert(ports::msgs_v(text_msgs@) =~= seq![mv[0]]);
            } else {
                assert(ports::msgs_v(text_msgs@) =~= Seq::empty());
            }
            assert(round@ =~= call_round(
                reply,
                s@.text,
                reasoning_of(*h),
                h.done.finish@,
                vv,
                mv,
                k as int,
            ));
            assert(rounds_v(rounds@) =~= rounds_v(prev).push(round@));
            assert(all[k as int] == round@);
            assert(rounds_v(rounds@) =~= all.take(k + 1));
        }
        k = k + 1;
    }
    assert(all.take(all.len() as int) =~= all);
    (rounds, msgs)
}

/// The messages that the rounds of a reply's calls leave, one after the other, are
/// the messages of the reply: what is shown and what the model reads agree.
pub open spec fn round_msgs(v: Seq<RoundV>, n: int) -> Seq<MsgV>
    decreases n,
{
    if n <= 0 {
        Seq::empty()
    } else {
        round_msgs(v, n - 1) + v[n - 1].text_msgs + match v[n - 1].tool {
            Some(r) => r.msgs,
            None => Seq::empty(),
        }
    }
}

pub proof fn rounds_leave_the_reply(
    reply: u64,
    text: Seq<char>,
    reasoning: Seq<char>,
    finish: Seq<char>,
    views: Seq<CallV>,
    msgs: Seq<MsgV>,
    n: int,
)
    requires
        msgs.len() == views.len() + 1,
        1 <= n <= views.len(),
    ensures
        round_msgs(call_rounds(reply, text, reasoning, finish, views, msgs), n) == msgs.take(
            n + 1,
        ),
    decreases n,
{
    let v = call_rounds(reply, text, reasoning, finish, views, msgs);
    assert(v[n - 1] == call_round(reply, text, reasoning, finish, views, msgs, n - 1));
    if n == 1 {
        assert(round_msgs(v, 0) =~= Seq::empty());
        assert(round_msgs(v, 1) =~= msgs.take(2));
    } else {
        rounds_leave_the_reply(reply, text, reasoning, finish, views, msgs, n - 1);
        assert(round_msgs(v, n) =~= msgs.take(n + 1));
    }
}

/// A stand that is written by its word is read as that stand; what calls a tool is none.
pub proof fn stands_are_read_by_their_words(v: Verb)
    ensures
        v is Tool ==> verb_named(verb_text(v)) is None,
        !(v is Tool) ==> verb_named(verb_text(v)) == Some(v),
{
    reveal_strlit("say");
    assert("say"@.len() == 3);
    reveal_strlit("ask");
    assert("ask"@.len() == 3);
    reveal_strlit("leave");
    assert("leave"@.len() == 5);
    reveal_strlit("agree");
    assert("agree"@.len() == 5);
    reveal_strlit("tool");
    assert("tool"@.len() == 4);
    assert("say"@[0] != "ask"@[0]);
    assert("leave"@[0] != "agree"@[0]);
}

/// The first call that takes a stand is the stand, with the text it gives.
pub proof fn the_first_stand_counts(calls: Seq<ToolCallV>, k: int)
    ensures
        0 <= k < calls.len() && verb_named(calls[k].name) is Some && (forall|j: int|
            0 <= j < k ==> verb_named((#[trigger] calls[j]).name) is None) ==> spoken_call(calls, 0) == Some(
            (verb_named(calls[k].name)->0, arg_of(calls[k].args_json, "text"@)),
        ),
        (forall|j: int| 0 <= j < calls.len() ==> verb_named((#[trigger] calls[j]).name) is None) ==> spoken_call(
            calls,
            0,
        ) is None,
{
    if 0 <= k < calls.len() && verb_named(calls[k].name) is Some && (forall|j: int|
        0 <= j < k ==> verb_named((#[trigger] calls[j]).name) is None) {
        lemma_stand_at(calls, 0, k);
    }
    if forall|j: int| 0 <= j < calls.len() ==> verb_named((#[trigger] calls[j]).name) is None {
        lemma_no_stand(calls, 0);
    }
}

proof fn lemma_stand_at(calls: Seq<ToolCallV>, i: int, k: int)
    requires
        0 <= i <= k < calls.len(),
        verb_named(calls[k].name) is Some,
        forall|j: int| i <= j < k ==> verb_named((#[trigger] calls[j]).name) is None,
    ensures
        spoken_call(calls, i) == Some((verb_named(calls[k].name)->0, arg_of(calls[k].args_json, "text"@))),
    decreases k - i,
{
    if i < k {
        lemma_stand_at(calls, i + 1, k);
    }
}

proof fn lemma_no_stand(calls: Seq<ToolCallV>, i: int)
    requires
        0 <= i,
        forall|j: int| i <= j < calls.len() ==> verb_named((#[trigger] calls[j]).name) is None,
    ensures
        spoken_call(calls, i) is None,
    decreases calls.len() - i,
{
    if i < calls.len() {
        lemma_no_stand(calls, i + 1);
    }
}

/// What comes of a reply: one that broke off ends with the reason and leaves no message;
/// a stand ends with the stand; calls that can be run are run, each as it was asked for;
/// a call that is broken is not run but answered; and words alone end the turn.
pub proof fn replies_come_to_something(
    tools: Option<&MemberTools>,
    mode: ToolMode,
    wire: Seq<(Seq<char>, (Option<Seq<char>>, Seq<char>))>,
    reply: u64,
    speaker: Seq<char>,
    verbs: bool,
    h: Heard,
    k: int,
)
    ensures
        ({
            let r = reply_settled(tools, mode, wire, reply, speaker, verbs, h);
            let u = h.reply@;
            let calls = ports::tool_calls_v(h.done.calls@);
            let broken = h.done.error is Some;
            let stand = verbs && spoken(mode, calls, u) is Some;
            &&& broken ==> (r matches SettledV::End(x) && x.error == Some((h.done.error->0)@)
                && x.text_msgs.len() == 0 && x.tool is None && x.text.len() == 0)
            &&& !broken && stand ==> (r matches SettledV::End(x) && x.verb == Some(
                (spoken(mode, calls, u)->0).0,
            ) && x.text == (spoken(mode, calls, u)->0).1 && x.error is None && x.tool is None)
            &&& !broken && !stand && tools is None ==> (r matches SettledV::End(x) && x.text == u.text
                && x.verb is None && x.error is None && x.tool is None)
            &&& !broken && !stand && tools is Some && mode == ToolMode::Native && calls.len() > 0 ==> (
            r matches SettledV::Calls(s) && s.plan.len() == calls.len() && s.ids.len() == calls.len() && s.text
                == u.text && (0 <= k < calls.len() ==> s.ids[k] == calls[k].id && s.plan[k].tool == meant_by(
                wire,
                calls[k].name,
            ).1 && s.plan[k].module == meant_by(wire, calls[k].name).0 && (s.plan[k].tool != PATCH@
                ==> s.plan[k].args == calls[k].args_json)))
            &&& !broken && !stand && tools is Some && mode == ToolMode::Envelope && u.tools.len() > 0
                && u.tools[0].malformed is None ==> (r matches SettledV::Calls(s) && s.plan.len() == u.tools.len()
                && (0 <= k < u.tools.len() ==> s.plan[k].tool == u.tools[k].name && s.plan[k].module
                == u.tools[k].module && s.plan[k].args == (if u.tools[k].name == PATCH@ {
                u.tools[k].body
            } else {
                u.tools[k].args_json
            }) && s.shown[k] == u.tools[k].args_json))
            &&& !broken && !stand && tools is Some && mode == ToolMode::Envelope && u.tools.len() > 0
                && u.tools[0].malformed is Some ==> (r matches SettledV::Noted(x, m) && x.tool is Some && !(
            x.tool->0).view.ok && (x.tool->0).view.name == u.tools[0].name && m.len() == 2)
            &&& !broken && !stand && tools is Some && u.tools.len() == 0 && (mode == ToolMode::Envelope
                || calls.len() == 0) ==> (r matches SettledV::End(x) && x.text == u.text && x.error is None
                && x.tool is None)
        }),
{
}

/// What a call came to is shown with the call: the tool, what it was asked, whether it
/// went well, what it said and the call's own number.
pub proof fn results_are_shown_with_their_calls(
    t: ToolTexts,
    speaker: Seq<char>,
    reply: u64,
    s: SetV,
    outs: Seq<(Seq<char>, (bool, Seq<char>))>,
    k: int,
)
    requires
        0 <= k < outs.len(),
    ensures
        ({
            let v = run_views(t, speaker, reply, s, outs);
            &&& v.len() == outs.len()
            &&& v[k].ok == (outs[k].1).0
            &&& s.repaired.len() == 0 ==> v[k].output == (outs[k].1).1
            &&& s.repaired.len() > 0 ==> v[k].output.len() > (outs[k].1).1.len() && v[k].output.skip(
                v[k].output.len() - (outs[k].1).1.len(),
            ) == (outs[k].1).1
            &&& v[k].name == s.plan[k].tool && v[k].module == outs[k].0 && v[k].args == s.shown[k] && v[k].call_id
                == s.ids[k] && v[k].reply == reply && v[k].speaker == speaker
        }),
{
    reveal_strlit("\n");
    let v = run_views(t, speaker, reply, s, outs);
    let o = (outs[k].1).1;
    if s.repaired.len() > 0 {
        assert(v[k].output.skip(v[k].output.len() - o.len()) =~= o);
    }
}

/// A model is told who it is first, then what it may use, then what was said before, and
/// last what is asked of it now.
pub proof fn messages_come_in_order(
    identity: Seq<char>,
    block: Seq<char>,
    dialogue: Seq<MsgV>,
    turn: Seq<MsgV>,
    k: int,
)
    ensures
        ({
            let m = assembled(identity, block, dialogue, turn);
            let head = if block.len() == 0 {
                1int
            } else {
                2
            };
            &&& m.len() == head + dialogue.len() + turn.len()
            &&& m[0].role == "system"@ && m[0].content == identity
            &&& block.len() > 0 ==> m[1].role == "system"@ && m[1].content == block
            &&& 0 <= k < dialogue.len() ==> m[head + k] == dialogue[k]
            &&& 0 <= k < turn.len() ==> m[head + dialogue.len() + k] == turn[k]
        }),
{
}

/// Of the tools of the core a member is shown those it may use, and no others.
pub proof fn only_allowed_tools_are_shown(t: MemberTools, n: int, name: Seq<char>)
    requires
        0 <= n <= t.sandbox.builtin_tools@.len(),
    ensures
        declared_names(builtin_face(t, n).list).contains(name) <==> text::texts(t.allowed@).contains(name) && name
            != PATCH@ && exists|k: int| 0 <= k < n && (#[trigger] t.sandbox.builtin_tools@[k]).0 == name,
    decreases n,
{
    if n > 0 {
        only_allowed_tools_are_shown(t, n - 1, name);
        let p = declared_names(builtin_face(t, n - 1).list);
        let h = declared_names(builtin_face(t, n).list);
        let e = t.sandbox.builtin_tools@[n - 1];
        if h.contains(name) {
            let k = choose|k: int| 0 <= k < h.len() && h[k] == name;
            if k < p.len() {
                assert(p[k] == name);
            } else {
                assert(e.0 == name);
            }
        }
        if p.contains(name) {
            let k = choose|k: int| 0 <= k < p.len() && p[k] == name;
            assert(h[k] == name);
        }
        if text::texts(t.allowed@).contains(name) && name != PATCH@ && e.0 == name {
            assert(h[p.len() as int] == name);
        }
    } else {
        assert(declared_names(builtin_face(t, 0).list).len() == 0);
    }
}

/// A tool that is declared means what it was declared for, and what the others mean does
/// not change.
pub proof fn declared_tools_mean_what_they_are(
    f: FaceV,
    d: DeclV,
    module: Option<Seq<char>>,
    tool: Seq<char>,
    other: Seq<char>,
)
    requires
        table::ascending(f.wire),
    ensures
        meant_by(with_decl(f, d, module, tool).wire, d.name) == (module, tool),
        other != d.name ==> meant_by(with_decl(f, d, module, tool).wire, other) == meant_by(f.wire, other),
        with_decl(f, d, module, tool).list.len() == f.list.len() + 1,
        with_decl(f, d, module, tool).list.last() == d,
{
    table::inserting(f.wire, d.name, (module, tool));
}

/// Each tool of a module is declared under a name of its own, which means the tool in
/// that module.
pub proof fn tools_of_modules_mean_their_modules(f: FaceV, id: Seq<char>, m: ModuleTools, n: int)
    requires
        0 < n <= m.commands@.len(),
        table::ascending(module_face(f, id, m, n - 1).wire),
    ensures
        ({
            let prev = module_face(f, id, m, n - 1);
            let now = module_face(f, id, m, n);
            &&& now.list.len() == prev.list.len() + 1
            &&& !declared_names(prev.list).contains(now.list.last().name)
            &&& meant_by(now.wire, now.list.last().name) == (Some(id), m.commands@[n - 1].0)
            &&& forall|k: int|
                0 <= k < prev.list.len() ==> meant_by(now.wire, (#[trigger] prev.list[k]).name) == meant_by(
                    prev.wire,
                    prev.list[k].name,
                )
        }),
{
    let prev = module_face(f, id, m, n - 1);
    let now = module_face(f, id, m, n);
    let tool = m.commands@[n - 1].0;
    let wire = agents::free_name(declared_names(prev.list), id + "_"@ + tool, "_"@);
    agents::a_free_name_is_free(declared_names(prev.list), id + "_"@ + tool, "_"@);
    let d = module_decl(wire, id, tool, table::lookup(m.books@, tool));
    assert(d.name == wire);
    declared_tools_mean_what_they_are(prev, d, Some(id), tool, wire);
    assert forall|k: int| 0 <= k < prev.list.len() implies meant_by(now.wire, (#[trigger] prev.list[k]).name)
        == meant_by(prev.wire, prev.list[k].name) by {
        assert(declared_names(prev.list)[k] == prev.list[k].name);
        assert(declared_names(prev.list).contains(prev.list[k].name));
        declared_tools_mean_what_they_are(prev, d, Some(id), tool, prev.list[k].name);
    }
}

} // verus!
