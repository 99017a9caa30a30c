//! The tools a member may call: which calls its seat allows, how they are declared
//! to a channel, and how a batch of them is run. Only the order of execution may
//! change, never the order in which results go back.
use crate::converse;
use crate::events::{self, EventV, SessionEvent};
use crate::fence::{FenceSpec, FenceV};
use crate::json::{self, Json, JsonV, parse_json};
use crate::module::{self, Module};
use crate::ports::{self, SysIo, ToolOutcome, ToolRunner};
use crate::prompt::{self, fill1, fill2};
use crate::providers::ToolMode;
use crate::schema::{self, SchemaV, ToolSchema};
use crate::systool::{self, EDIT, Observations, PATCH, READ, SEARCH, SeenV, ToolNotes, WRITE, arg_fault_text, fail, is_builtin, names, refuse};
use crate::table::{self, Table};
use crate::text::{self, cat3, has_text, join, push_when, str_eq};
use crate::workspace::{PathV, RealPath, Sandbox};
use vstd::prelude::*;

verus! {

/// The tools of one module, and where they run.
#[derive(Debug)]
pub struct ModuleTools {
    pub root: RealPath,
    /// How each tool is started.
    pub commands: Table<String>,
    /// The contracts of the tools that declare their parameters.
    pub books: Table<ToolSchema>,
    /// The tools that may run side by side.
    pub parallel: Vec<String>,
}

#[verifier::ext_equal]
pub struct ModuleToolsV {
    pub root: PathV,
    pub commands: Seq<(Seq<char>, Seq<char>)>,
    pub books: Seq<(Seq<char>, SchemaV)>,
    pub parallel: Seq<Seq<char>>,
}

pub open spec fn books_v(t: Seq<(Seq<char>, ToolSchema)>) -> Seq<(Seq<char>, SchemaV)> {
    t.map_values(|e: (Seq<char>, ToolSchema)| (e.0, e.1@))
}

impl View for ModuleTools {
    type V = ModuleToolsV;

    open spec fn view(&self) -> ModuleToolsV {
        ModuleToolsV {
            root: self.root@,
            commands: table::text_entries(self.commands@),
            books: books_v(self.books@),
            parallel: text::texts(self.parallel@),
        }
    }
}

/// The contracts of the first `n` tools that declare their parameters.
pub open spec fn books_below(t: Seq<(Seq<char>, crate::module::ToolDecl)>, n: int) -> Seq<
    (Seq<char>, SchemaV),
>
    decreases n,
{
    if n <= 0 {
        Seq::empty()
    } else {
        match module::tool_schema(t[n - 1].1) {
            Some(s) => books_below(t, n - 1).push((t[n - 1].0, s)),
            None => books_below(t, n - 1),
        }
    }
}

/// Those of the first `n` tools that may run side by side.
pub open spec fn parallel_below(t: Seq<(Seq<char>, crate::module::ToolDecl)>, n: int) -> Seq<
    Seq<char>,
>
    decreases n,
{
    if n <= 0 {
        Seq::empty()
    } else if t[n - 1].1.parallel {
        parallel_below(t, n - 1).push(t[n - 1].0)
    } else {
        parallel_below(t, n - 1)
    }
}

pub open spec fn module_tools_v(m: Module) -> ModuleToolsV {
    let t = m.manifest.tools@;
    ModuleToolsV {
        root: m.root@,
        commands: t.map_values(
            |e: (Seq<char>, crate::module::ToolDecl)| (e.0, e.1.command@),
        ),
        books: books_below(t, t.len() as int),
        parallel: parallel_below(t, t.len() as int),
    }
}

fn tools_of_module(m: &Module) -> (r: ModuleTools)
    ensures
        r@ == module_tools_v(*m),
{
    let t = &m.manifest.tools;
    let ghost tv = t@;
    let ghost cv = tv.map_values(|e: (Seq<char>, crate::module::ToolDecl)| (e.0, e.1.command@));
    let mut commands: Vec<(String, String)> = Vec::new();
    let mut books: Vec<(String, ToolSchema)> = Vec::new();
    let mut parallel: Vec<String> = Vec::new();
    let mut i: usize = 0;
    proof {
        assert(text::texts(parallel@) =~= parallel_below(tv, 0));
    }
    while i < t.len()
        invariant
            i <= t@.len(),
            tv == t@,
            commands@.len() == i,
            forall|k: int|
                0 <= k < i ==> (#[trigger] commands@[k]).0@ == tv[k].0 && commands@[k].1@
                    == tv[k].1.command@,
            books@.len() == books_below(tv, i as int).len(),
            forall|k: int|
                0 <= k < books@.len() ==> (#[trigger] books@[k]).0@ == books_below(
                    tv,
                    i as int,
                )[k].0 && books@[k].1@ == books_below(tv, i as int)[k].1,
            text::texts(parallel@) == parallel_below(tv, i as int),
        decreases t@.len() - i,
    {
        let name = t.key_at(i);
        let d = t.value_at(i);
        commands.push((name.to_owned(), d.command.clone()));
        match d.schema() {
            Some(s) => {
                books.push((name.to_owned(), s));
            },
            None => {},
        }
        if d.parallel {
            let ghost prev = parallel@;
            parallel.push(name.to_owned());
            proof {
                text::lemma_texts_push(prev, parallel@.last());
            }
        }
        i = i + 1;
    }
    let r = ModuleTools {
        root: m.root.copy(),
        commands: Table { entries: commands },
        books: Table { entries: books },
        parallel,
    };
    assert(r@.commands =~= cv);
    assert(r@.books =~= books_below(tv, tv.len() as int));
    r
}

pub open spec fn mods_v(t: Seq<(Seq<char>, ModuleTools)>) -> Seq<(Seq<char>, ModuleToolsV)> {
    t.map_values(|e: (Seq<char>, ModuleTools)| (e.0, e.1@))
}

/// The tools of the first `n` modules, by module. A module without tools is there too.
pub open spec fn table_below(v: Seq<Module>, n: int) -> Seq<(Seq<char>, ModuleToolsV)>
    decreases n,
{
    if n <= 0 {
        Seq::empty()
    } else {
        table::inserted(table_below(v, n - 1), v[n - 1].manifest.id@, module_tools_v(v[n - 1]))
    }
}

/// The tools of modules, by module.
pub fn tool_table(modules: &Vec<Module>) -> (r: Table<ModuleTools>)
    ensures
        mods_v(r@) == table_below(modules@, modules@.len() as int),
{
    let ghost f = |m: ModuleTools| m@;
    let mut out: Table<ModuleTools> = Table::new();
    let mut i: usize = 0;
    assert(mods_v(out@) =~= table_below(modules@, 0));
    while i < modules.len()
        invariant
            i <= modules@.len(),
            f == (|m: ModuleTools| m@),
            mods_v(out@) == table_below(modules@, i as int),
        decreases modules@.len() - i,
    {
        let mt = tools_of_module(&modules[i]);
        let id = modules[i].manifest.id.clone();
        let ghost before = out@;
        proof {
            assert(mods_v(before) =~= before.map_values(
                |e: (Seq<char>, ModuleTools)| (e.0, f(e.1)),
            ));
            table::lemma_map_inserted(before, mods_v(before), f, id@, mt);
        }
        out.insert(id, mt);
        proof {
            assert(mods_v(out@) =~= table::inserted(before, id@, mt).map_values(
                |e: (Seq<char>, ModuleTools)| (e.0, f(e.1)),
            ));
        }
        i = i + 1;
    }
    out
}

/// The tools of a member's seat.
#[derive(Debug)]
pub struct MemberTools {
    /// How its channel calls tools: by envelopes or natively, never both.
    pub mode: ToolMode,
    /// Its modules' tools.
    pub modules: Table<ModuleTools>,
    /// What it has seen of which files.
    pub observations: Observations,
    pub sandbox: Sandbox,
    /// What the modules lack whose tools cannot run.
    pub unavailable: Table<Vec<String>>,
    pub fence: FenceSpec,
    /// The number of the last reply.
    pub reply_seq: u64,
    /// The built-in tools the seat was given.
    pub allowed: Vec<String>,
    /// Whether the seat may use its modules' tools.
    pub with_modules: bool,
    pub notes: ToolNotes,
}

impl MemberTools {
    /// Takes the number of the next reply.
    pub fn next_reply(&mut self) -> (r: u64)
        requires
            old(self).reply_seq < u64::MAX,
        ensures
            r == old(self).reply_seq + 1,
            final(self).reply_seq == r,
            *final(self) == (MemberTools { reply_seq: r, ..*old(self) }),
    {
        self.reply_seq = self.reply_seq + 1;
        self.reply_seq
    }

    /// What the model is told of the tools of this turn: those it was given, and no
    /// other. Empty where there are none.
    pub fn tools_block(&self, ids: &Vec<String>, with_modules: bool) -> (r: String)
        requires
            prompt::texts_sound(self.sandbox.texts),
        ensures
            r@ == block_text(*self, text::texts(ids@), with_modules),
    {
        let book = &self.sandbox.builtin_tools;
        let ghost iv = text::texts(ids@);
        let mut parts: Vec<String> = Vec::new();
        let mut i: usize = 0;
        assert(text::texts(parts@) =~= id_parts(book@, iv, 0));
        while i < ids.len()
            invariant
                i <= ids@.len(),
                iv == text::texts(ids@),
                text::texts(parts@) == id_parts(book@, iv, i as int),
            decreases ids@.len() - i,
        {
            let id = ids[i].as_str();
            assert(iv[i as int] == id@);
            match book.get(id) {
                Some(s) => {
                    let l = cat3(id, "\n", s.render_for_prompt().as_str());
                    let ghost prev = parts@;
                    parts.push(l);
                    proof {
                        text::lemma_texts_push(prev, l);
                    }
                },
                None => {},
            }
            i = i + 1;
        }
        push_when(&mut parts, has_text(ids, PATCH), self.notes.patch_guide.clone());
        push_when(&mut parts, with_modules, self.notes.module_tools.clone());
        push_when(&mut parts, with_modules, self.notes.module_tool_params.clone());
        assert(text::texts(parts@) == block_parts(*self, iv, with_modules));
        assert(text::texts(parts@).len() == parts@.len());
        if parts.len() == 0 {
            return String::new();
        }
        fill1(self.sandbox.texts.tools_this_turn.as_str(), "tools", join(&parts, "\n").as_str())
    }
}

/// The signatures of those of the first `n` tools that the book has.
pub open spec fn id_parts(book: Seq<(Seq<char>, ToolSchema)>, ids: Seq<Seq<char>>, n: int) -> Seq<
    Seq<char>,
>
    decreases n,
{
    if n <= 0 {
        Seq::empty()
    } else {
        let prev = id_parts(book, ids, n - 1);
        match table::lookup(book, ids[n - 1]) {
            Some(s) => prev.push(ids[n - 1] + "\n"@ + schema::rendered(s@)),
            None => prev,
        }
    }
}

pub open spec fn block_parts(t: MemberTools, ids: Seq<Seq<char>>, with_modules: bool) -> Seq<
    Seq<char>,
> {
    id_parts(t.sandbox.builtin_tools@, ids, ids.len() as int) + text::when(
        ids.contains(PATCH@),
        t.notes.patch_guide@,
    ) + text::when(with_modules, t.notes.module_tools@) + text::when(
        with_modules,
        t.notes.module_tool_params@,
    )
}

pub open spec fn block_text(t: MemberTools, ids: Seq<Seq<char>>, with_modules: bool) -> Seq<char> {
    let parts = block_parts(t, ids, with_modules);
    if parts.len() == 0 {
        Seq::empty()
    } else {
        prompt::filled(t.sandbox.texts.tools_this_turn@, seq![("tools"@, text::joined(parts, "\n"@))])
    }
}

/// The greatest of a number and the reply numbers of a line.
pub open spec fn reply_of_line(l: JsonV, m: nat) -> nat {
    let a = match l.natural_at("reply"@) {
        Some(r) => if r > m {
            r
        } else {
            m
        },
        None => m,
    };
    match l.get("tool"@) {
        Some(t) => match t.natural_at("reply"@) {
            Some(r) => if r > a {
                r
            } else {
                a
            },
            None => a,
        },
        None => a,
    }
}

pub open spec fn reply_of_lines(ls: Seq<JsonV>, m: nat, n: int) -> nat
    decreases n,
{
    if n <= 0 {
        m
    } else {
        reply_of_line(ls[n - 1], reply_of_lines(ls, m, n - 1))
    }
}

/// The greatest reply number in the first `n` events.
pub open spec fn greatest_reply(events: Seq<JsonV>, n: int) -> nat
    decreases n,
{
    if n <= 0 {
        0
    } else {
        let prev = greatest_reply(events, n - 1);
        let ev = events[n - 1];
        if ev.text_at("type"@) == Some("transcript"@) {
            match ev.array_at("lines"@) {
                Some(ls) => reply_of_lines(ls, prev, ls.len() as int),
                None => prev,
            }
        } else {
            prev
        }
    }
}

fn line_reply_max(l: &Json, m: u64) -> (r: u64)
    ensures
        r == reply_of_line(l@, m as nat),
{
    let mut a: u64 = m;
    match l.u64_at("reply") {
        Some(r) => {
            if r > a {
                a = r;
            }
        },
        None => {},
    }
    match l.get("tool") {
        Some(t) => {
            match t.u64_at("reply") {
                Some(r) => {
                    if r > a {
                        a = r;
                    }
                },
                None => {},
            }
        },
        None => {},
    }
    a
}

/// The greatest reply number in the events of a session: replies are numbered on
/// from there, so that no two are taken for one.
pub fn max_reply(events: &Vec<Json>) -> (r: u64)
    ensures
        r == greatest_reply(json::items_v(events@), events@.len() as int),
{
    let ghost ev = json::items_v(events@);
    proof {
        json::lemma_items(events@);
    }
    let mut max: u64 = 0;
    let mut i: usize = 0;
    while i < events.len()
        invariant
            i <= events@.len(),
            ev == json::items_v(events@),
            ev.len() == events@.len(),
            forall|k: int| 0 <= k < events@.len() ==> #[trigger] ev[k] == events@[k]@,
            max == greatest_reply(ev, i as int),
        decreases events@.len() - i,
    {
        assert(ev[i as int] == events@[i as int]@);
        let spoken = match events[i].str_at("type") {
            Some(s) => str_eq(s, "transcript"),
            None => false,
        };
        if spoken {
            match events[i].array_at("lines") {
                Some(ls) => {
                    let ghost lv = json::items_v(ls@);
                    let ghost start = max as nat;
                    proof {
                        json::lemma_items(ls@);
                    }
                    let mut k: usize = 0;
                    while k < ls.len()
                        invariant
                            k <= ls@.len(),
                            lv == json::items_v(ls@),
                            lv.len() == ls@.len(),
                            forall|j: int| 0 <= j < ls@.len() ==> #[trigger] lv[j] == ls@[j]@,
                            max == reply_of_lines(lv, start, k as int),
                        decreases ls@.len() - k,
                    {
                        assert(lv[k as int] == ls@[k as int]@);
                        max = line_reply_max(&ls[k], max);
                        k = k + 1;
                    }
                },
                None => {},
            }
        }
        i = i + 1;
    }
    max
}

// ---- which calls are let through ----

/// A call: the module it names, if it names one, the tool and the arguments.
#[derive(Debug)]
pub struct Planned {
    pub module: Option<String>,
    pub tool: String,
    pub args: String,
}

#[verifier::ext_equal]
pub struct PlannedCallV {
    pub module: Option<Seq<char>>,
    pub tool: Seq<char>,
    pub args: Seq<char>,
}

impl View for Planned {
    type V = PlannedCallV;

    open spec fn view(&self) -> PlannedCallV {
        PlannedCallV { module: text::opt_text(self.module), tool: self.tool@, args: self.args@ }
    }
}

pub open spec fn calls_v(v: Seq<Planned>) -> Seq<PlannedCallV> {
    v.map_values(|p: Planned| p@)
}

/// Whether a call is among those this seat was given. A call of a module's tool
/// that names no module is: which module it means is settled when it is run.
pub open spec fn in_face(t: MemberTools, c: PlannedCallV) -> bool {
    if systool::builtin(c.tool) {
        text::texts(t.allowed@).contains(c.tool)
    } else {
        t.with_modules && (c.module is None || table::lookup(t.modules@, c.module->0) is Some)
    }
}

pub fn face_has(t: &MemberTools, c: &Planned) -> (r: bool)
    ensures
        r == in_face(*t, c@),
{
    if is_builtin(c.tool.as_str()) {
        has_text(&t.allowed, c.tool.as_str())
    } else {
        t.with_modules && match &c.module {
            Some(m) => t.modules.contains_key(m.as_str()),
            None => true,
        }
    }
}

pub open spec fn unauthorized_text(tool: Seq<char>) -> Seq<char> {
    "[越权] 本席位没有工具 "@ + tool + "：本轮不执行、不当表态（如实拒绝）"@
}

/// What the user is told of the first `n` calls: of those the seat was not given.
pub open spec fn unauthorized(t: MemberTools, plan: Seq<PlannedCallV>, n: int) -> Seq<EventV>
    decreases n,
{
    if n <= 0 {
        Seq::empty()
    } else if in_face(t, plan[n - 1]) {
        unauthorized(t, plan, n - 1)
    } else {
        unauthorized(t, plan, n - 1).push(EventV::Notice(unauthorized_text(plan[n - 1].tool)))
    }
}

/// What the user is told of calls the seat was not given.
pub fn note_unauthorized(t: &MemberTools, plan: &Vec<Planned>) -> (r: Vec<SessionEvent>)
    ensures
        events::events_v(r@) == unauthorized(*t, calls_v(plan@), plan@.len() as int),
{
    let ghost pv = calls_v(plan@);
    let mut r: Vec<SessionEvent> = Vec::new();
    let mut i: usize = 0;
    assert(events::events_v(r@) =~= unauthorized(*t, pv, 0));
    while i < plan.len()
        invariant
            i <= plan@.len(),
            pv == calls_v(plan@),
            events::events_v(r@) == unauthorized(*t, pv, i as int),
        decreases plan@.len() - i,
    {
        assert(pv[i as int] == plan@[i as int]@);
        if !face_has(t, &plan[i]) {
            let ghost prev = r@;
            let e = SessionEvent::Notice(
                cat3(
                    "[越权] 本席位没有工具 ",
                    plan[i].tool.as_str(),
                    "：本轮不执行、不当表态（如实拒绝）",
                ),
            );
            r.push(e);
            assert(events::events_v(r@) =~= events::events_v(prev).push(e@));
        }
        i = i + 1;
    }
    r
}

/// Whether a call may run beside others: only where its declaration says so.
pub open spec fn runs_beside(t: MemberTools, c: PlannedCallV) -> bool {
    match c.module {
        Some(id) => match table::lookup(t.modules@, id) {
            Some(m) => m@.parallel.contains(c.tool),
            None => false,
        },
        None => systool::builtin(c.tool) && match table::lookup(t.sandbox.builtin_tools@, c.tool) {
            Some(s) => s.parallel,
            None => false,
        },
    }
}

pub fn is_parallel(t: &MemberTools, c: &Planned) -> (r: bool)
    ensures
        r == runs_beside(*t, c@),
{
    match &c.module {
        Some(id) => match t.modules.get(id.as_str()) {
            Some(m) => has_text(&m.parallel, c.tool.as_str()),
            None => false,
        },
        None => is_builtin(c.tool.as_str()) && match t.sandbox.builtin_tools.get(c.tool.as_str()) {
            Some(s) => s.parallel,
            None => false,
        },
    }
}

/// Where the run of calls ends that may run beside the one at `i`.
pub open spec fn beside_end(t: MemberTools, plan: Seq<PlannedCallV>, i: int) -> int
    decreases plan.len() - i,
{
    if i < 0 || i >= plan.len() || !runs_beside(t, plan[i]) {
        i
    } else {
        beside_end(t, plan, i + 1)
    }
}

/// Where the run of calls ends that may run beside the one at `i`; each of them can be
/// run on a branch of the ledger.
pub fn batch_end(t: &MemberTools, plan: &Vec<Planned>, i: usize) -> (r: usize)
    requires
        i <= plan@.len(),
    ensures
        r == beside_end(*t, calls_v(plan@), i as int),
        i <= r <= plan@.len(),
        i < plan@.len() && runs_beside(*t, plan@[i as int]@) ==> r > i,
{
    let ghost pv = calls_v(plan@);
    let mut j: usize = i;
    while j < plan.len() && is_parallel(t, &plan[j])
        invariant
            i <= j <= plan@.len(),
            pv == calls_v(plan@),
            beside_end(*t, pv, i as int) == beside_end(*t, pv, j as int),
        decreases plan@.len() - j,
    {
        assert(pv[j as int] == plan@[j as int]@);
        j = j + 1;
    }
    proof {
        if j < plan@.len() {
            assert(pv[j as int] == plan@[j as int]@);
        }
    }
    j
}

// ---- a module's tool ----

/// The names of the commands of a module, with the module before them.
pub open spec fn full_names(id: Seq<char>, commands: Seq<(Seq<char>, Seq<char>)>) -> Seq<Seq<char>> {
    commands.map_values(|e: (Seq<char>, Seq<char>)| id + "."@ + e.0)
}

/// The tools of the first `n` modules.
pub open spec fn external_names(t: Seq<(Seq<char>, ModuleTools)>, n: int) -> Seq<Seq<char>>
    decreases n,
{
    if n <= 0 {
        Seq::empty()
    } else {
        external_names(t, n - 1) + full_names(t[n - 1].0, t[n - 1].1@.commands)
    }
}

pub open spec fn available_text(t: MemberTools) -> Seq<char> {
    text::joined(
        external_names(t.modules@, t.modules@.len() as int) + seq![
            READ@,
            WRITE@,
            EDIT@,
            PATCH@,
            SEARCH@,
        ],
        t.sandbox.texts.tool_list_separator@,
    )
}

/// The tools there are, in a list.
pub fn available_tools(t: &MemberTools) -> (r: String)
    ensures
        r@ == available_text(*t),
{
    let mut list: Vec<String> = Vec::new();
    let mut i: usize = 0;
    assert(text::texts(list@) =~= external_names(t.modules@, 0));
    while i < t.modules.len()
        invariant
            i <= t.modules@.len(),
            text::texts(list@) == external_names(t.modules@, i as int),
        decreases t.modules@.len() - i,
    {
        let id = t.modules.key_at(i);
        let mt = t.modules.value_at(i);
        let ghost base = text::texts(list@);
        let ghost all = full_names(id@, mt@.commands);
        let mut k: usize = 0;
        assert(base + all.take(0) =~= base);
        while k < mt.commands.len()
            invariant
                k <= mt.commands@.len(),
                all == full_names(id@, mt@.commands),
                text::texts(list@) == base + all.take(k as int),
            decreases mt.commands@.len() - k,
        {
            let l = cat3(id, ".", mt.commands.key_at(k));
            let ghost prev = list@;
            list.push(l);
            proof {
                text::lemma_texts_push(prev, l);
                assert(all[k as int] == l@);
                assert(text::texts(list@) =~= base + all.take(k + 1));
            }
            k = k + 1;
        }
        assert(all.take(all.len() as int) =~= all);
        i = i + 1;
    }
    let ghost ext = list@;
    let mut more = names();
    let ghost mv = more@;
    list.append(&mut more);
    proof {
        text::lemma_texts_add(ext, mv);
    }
    join(&list, t.sandbox.texts.tool_list_separator.as_str())
}

pub open spec fn denied_text(t: MemberTools, why: Seq<char>) -> Seq<char> {
    prompt::filled(
        t.sandbox.texts.available_wrapper@,
        seq![("why"@, why), ("tools"@, available_text(t))],
    )
}

/// A refusal with the tools there are.
pub fn deny(t: &MemberTools, why: &str) -> (r: ToolOutcome)
    requires
        prompt::texts_sound(t.sandbox.texts),
    ensures
        systool::outcome(r) == (false, denied_text(*t, why@)),
{
    fail(
        fill2(
            t.sandbox.texts.available_wrapper.as_str(),
            "why",
            why,
            "tools",
            available_tools(t).as_str(),
        ),
    )
}

/// The module a call means: the one it names or, where it names none, the only one.
pub open spec fn meant_module(t: MemberTools, c: PlannedCallV) -> Option<Seq<char>> {
    match c.module {
        Some(m) => Some(m),
        None => if t.modules@.len() == 1 {
            Some(t.modules@[0].0)
        } else {
            None
        },
    }
}

/// Why the arguments of a module's tool are refused, if they are. Where the tool
/// declares no parameters they are passed on as they are.
pub open spec fn external_args_fault(
    t: MemberTools,
    module: Seq<char>,
    mt: ModuleTools,
    c: PlannedCallV,
) -> Option<Seq<char>> {
    match table::lookup(mt.books@, c.tool) {
        Some(book) => match json::json_of(c.args) {
            Ok(v) => match schema::args_fault(book@, v) {
                Some(f) => Some(
                    systool::arg_fault_said(t.sandbox.texts, module + "."@ + c.tool, book@, f),
                ),
                None => None,
            },
            Err(e) => Some(prompt::filled(t.sandbox.texts.bad_args_json@, seq![("error"@, e)])),
        },
        None => None,
    }
}

/// Where a call of a module's tool leads: to the module and the command that runs
/// it, or to a refusal.
pub open spec fn external(t: MemberTools, c: PlannedCallV) -> Result<
    (Seq<char>, Seq<char>, PathV),
    (Seq<char>, Seq<char>),
> {
    let x = t.sandbox.texts;
    match meant_module(t, c) {
        None => Err(
            (
                Seq::empty(),
                denied_text(t, prompt::filled(x.no_module_field@, seq![("tool"@, c.tool)])),
            ),
        ),
        Some(module) => match table::lookup(t.modules@, module) {
            None => Err(
                (
                    module,
                    denied_text(t, prompt::filled(x.unknown_module@, seq![("module"@, module)])),
                ),
            ),
            Some(mt) => match table::lookup(t.unavailable@, module) {
                Some(caps) => Err(
                    (
                        module,
                        denied_text(
                            t,
                            prompt::filled(
                                x.module_unavailable@,
                                seq![
                                    ("module"@, module),
                                    (
                                        "capability"@,
                                        text::joined(text::texts(caps@), x.tool_list_separator@),
                                    ),
                                ],
                            ),
                        ),
                    ),
                ),
                None => match table::lookup(mt.commands@, c.tool) {
                    None => Err(
                        (
                            module,
                            denied_text(
                                t,
                                prompt::filled(
                                    x.module_lacks_tool@,
                                    seq![("module"@, module), ("tool"@, c.tool)],
                                ),
                            ),
                        ),
                    ),
                    Some(command) => match external_args_fault(t, module, mt, c) {
                        Some(why) => Err((module, denied_text(t, why))),
                        None => Ok((module, command@, mt.root@)),
                    },
                },
            },
        },
    }
}

/// Finds where a call of a module's tool leads.
pub fn route_external<'a>(t: &'a MemberTools, c: &Planned) -> (r: Result<
    (String, &'a str, &'a RealPath),
    (String, ToolOutcome),
>)
    requires
        prompt::texts_sound(t.sandbox.texts),
    ensures
        match r {
            Ok(x) => external(*t, c@) == Ok::<_, (Seq<char>, Seq<char>)>((x.0@, x.1@, x.2@)),
            Err(e) => external(*t, c@) == Err::<(Seq<char>, Seq<char>, PathV), _>(
                (e.0@, e.1.output@),
            ) && !e.1.ok,
        },
{
    let x = &t.sandbox.texts;
    let module = match &c.module {
        Some(m) => m.clone(),
        None => if t.modules.len() == 1 {
            t.modules.key_at(0).to_owned()
        } else {
            let why = fill1(x.no_module_field.as_str(), "tool", c.tool.as_str());
            return Err((String::new(), deny(t, why.as_str())));
        },
    };
    let mt = match t.modules.get(module.as_str()) {
        Some(m) => m,
        None => {
            let why = fill1(x.unknown_module.as_str(), "module", module.as_str());
            return Err((module, deny(t, why.as_str())));
        },
    };
    match t.unavailable.get(module.as_str()) {
        Some(caps) => {
            let why = fill2(
                x.module_unavailable.as_str(),
                "module",
                module.as_str(),
                "capability",
                join(caps, x.tool_list_separator.as_str()).as_str(),
            );
            return Err((module, deny(t, why.as_str())));
        },
        None => {},
    }
    let command = match mt.commands.get(c.tool.as_str()) {
        Some(s) => s.as_str(),
        None => {
            let why = fill2(
                x.module_lacks_tool.as_str(),
                "module",
                module.as_str(),
                "tool",
                c.tool.as_str(),
            );
            return Err((module, deny(t, why.as_str())));
        },
    };
    match mt.books.get(c.tool.as_str()) {
        Some(book) => {
            match parse_json(c.args.as_str()) {
                Ok(args) => {
                    match book.check(&args) {
                        Err(fault) => {
                            let full = cat3(module.as_str(), ".", c.tool.as_str());
                            let why = arg_fault_text(x, full.as_str(), book, &fault);
                            return Err((module, deny(t, why.as_str())));
                        },
                        Ok(_) => {},
                    }
                },
                Err(e) => {
                    let why = fill1(x.bad_args_json.as_str(), "error", e.as_str());
                    return Err((module, deny(t, why.as_str())));
                },
            }
        },
        None => {},
    }
    Ok((module, command, &mt.root))
}

/// The fence a module's tool runs inside: the seat's, in the module's directory.
pub open spec fn fence_for(t: MemberTools, root: PathV) -> FenceV {
    FenceV { cwd: Some(root), ..t.fence@ }
}

/// Runs a module's tool inside its fence, or says why it is not run.
pub fn dispatch_external<R: ToolRunner>(t: &MemberTools, runner: &R, c: &Planned) -> (r: (
    String,
    ToolOutcome,
))
    requires
        prompt::texts_sound(t.sandbox.texts),
    ensures
        match external(*t, c@) {
            Ok(x) => r.0@ == x.0 && ports::has_run(
                *runner,
                fence_for(*t, x.2),
                x.1,
                c@.args,
                r.1,
            ),
            Err(e) => r.0@ == e.0 && systool::outcome(r.1) == (false, e.1),
        },
{
    match route_external(t, c) {
        Err(e) => e,
        Ok((module, command, root)) => {
            let fence = t.fence.at(root);
            let args = c.args.as_str();
            let out = runner.run(&fence, command, args);
            assert(call_ensures(R::run, (runner, &fence, command, args), out));
            assert(ports::has_run(*runner, fence@, command@, args@, out));
            (module, out)
        },
    }
}

// ---- running calls ----

/// What a call gives, whatever came from outside: the module that ran it, what it
/// says, and what is known of files after it. What the files and the runner were
/// asked follows from the call.
pub open spec fn call_ran<I: SysIo, R: ToolRunner>(
    io: I,
    runner: R,
    t: MemberTools,
    obs: Seq<(Seq<char>, SeenV)>,
    c: PlannedCallV,
    label: Seq<char>,
    out: (bool, Seq<char>),
    after: Seq<(Seq<char>, SeenV)>,
) -> bool {
    if !in_face(t, c) {
        label.len() == 0 && out == (
            false,
            prompt::filled(t.sandbox.texts.unknown_builtin@, seq![("name"@, c.tool)]),
        ) && after == obs
    } else if systool::builtin(c.tool) {
        label.len() == 0 && systool::call_ends(io, t.sandbox, obs, c.tool, c.args, out, after)
    } else {
        after == obs && match external(t, c) {
            Ok(x) => label == x.0 && exists|o: ToolOutcome|
                systool::outcome(o) == out && #[trigger] ports::has_run(
                    runner,
                    fence_for(t, x.2),
                    x.1,
                    c.args,
                    o,
                ),
            Err(e) => label == e.0 && out == (false, e.1),
        }
    }
}

/// Runs one call on a ledger of its own, which the caller takes over.
pub fn run_branch<I: SysIo, R: ToolRunner>(t: &MemberTools, io: &I, runner: &R, c: &Planned) -> (r:
    (String, ToolOutcome, Observations))
    requires
        prompt::texts_sound(t.sandbox.texts),
    ensures
        call_ran(*io, *runner, *t, t.observations@, c@, r.0@, systool::outcome(r.1), r.2@),
{
    let mut branch = t.observations.copy();
    if !face_has(t, c) {
        return (String::new(), refuse(&t.sandbox.texts, c.tool.as_str()), branch);
    }
    if is_builtin(c.tool.as_str()) {
        let out = crate::systool::execute(
            &t.sandbox,
            io,
            &mut branch,
            c.tool.as_str(),
            c.args.as_str(),
        );
        return (String::new(), out, branch);
    }
    let (label, out) = dispatch_external(t, runner, c);
    (label, out, branch)
}

/// The seat with another ledger is the same seat to a call.
proof fn lemma_same_seat(a: MemberTools, b: MemberTools)
    requires
        b == (MemberTools { observations: b.observations, ..a }),
    ensures
        forall|c: PlannedCallV| #[trigger] in_face(a, c) == in_face(b, c),
        forall|c: PlannedCallV| #[trigger] external(a, c) == external(b, c),
{
    assert(available_text(a) == available_text(b));
    assert forall|c: PlannedCallV| #[trigger] external(a, c) == external(b, c) by {
        assert(forall|w: Seq<char>| #[trigger] denied_text(a, w) == denied_text(b, w));
    }
}

/// Whether these are results of calls made in turn, with what is known of files before
/// each call and after the last.
pub open spec fn ran_in_turn<I: SysIo, R: ToolRunner>(
    io: I,
    runner: R,
    t: MemberTools,
    ledgers: Seq<Seq<(Seq<char>, SeenV)>>,
    plan: Seq<PlannedCallV>,
    outs: Seq<(Seq<char>, (bool, Seq<char>))>,
) -> bool {
    &&& outs.len() == plan.len()
    &&& ledgers.len() == plan.len() + 1
    &&& forall|k: int|
        0 <= k < plan.len() ==> call_ran(
            io,
            runner,
            t,
            ledgers[k],
            plan[k],
            (#[trigger] outs[k]).0,
            outs[k].1,
            ledgers[k + 1],
        )
}

/// Whether these are results of calls made in turn on a seat, and what is known of
/// files after them.
pub open spec fn ran_all<I: SysIo, R: ToolRunner>(
    io: I,
    runner: R,
    t: MemberTools,
    plan: Seq<PlannedCallV>,
    outs: Seq<(Seq<char>, (bool, Seq<char>))>,
    after: Seq<(Seq<char>, SeenV)>,
) -> bool {
    exists|ledgers: Seq<Seq<(Seq<char>, SeenV)>>|
        #[trigger] ran_in_turn(io, runner, t, ledgers, plan, outs) && ledgers[0]
            == t.observations@ && ledgers.last() == after
}

proof fn lemma_ran_in_any<I: SysIo, R: ToolRunner>(
    io: I,
    runner: R,
    a: MemberTools,
    b: MemberTools,
    obs: Seq<(Seq<char>, SeenV)>,
    c: PlannedCallV,
    label: Seq<char>,
    out: (bool, Seq<char>),
    after: Seq<(Seq<char>, SeenV)>,
)
    requires
        b == (MemberTools { observations: b.observations, ..a }),
        call_ran(io, runner, b, obs, c, label, out, after),
    ensures
        call_ran(io, runner, a, obs, c, label, out, after),
{
    lemma_same_seat(a, b);
    assert(in_face(a, c) == in_face(b, c));
    assert(external(a, c) == external(b, c));
    assert(forall|p: PathV| #[trigger] fence_for(a, p) == fence_for(b, p));
}

/// Runs calls; the results come back in the order of the calls. Calls that may run
/// side by side give what they give one by one, so they are made in turn, each with
/// what the ones before it have seen.
pub fn run_batch<I: SysIo, R: ToolRunner>(
    t: &mut MemberTools,
    io: &I,
    runner: &R,
    plan: &Vec<Planned>,
) -> (r: Vec<(String, ToolOutcome)>)
    requires
        prompt::texts_sound(old(t).sandbox.texts),
    ensures
        *final(t) == (MemberTools { observations: final(t).observations, ..*old(t) }),
        ran_all(
            *io,
            *runner,
            *old(t),
            calls_v(plan@),
            converse::outs_v(r@),
            final(t).observations@,
        ),
{
    let ghost seat = *t;
    let ghost pv = calls_v(plan@);
    let ghost mut ledgers: Seq<Seq<(Seq<char>, SeenV)>> = seq![t.observations@];
    let mut done: Vec<(String, ToolOutcome)> = Vec::new();
    let mut i: usize = 0;
    assert(converse::outs_v(done@).len() == 0);
    while i < plan.len()
        invariant
            i <= plan@.len(),
            pv == calls_v(plan@),
            pv.len() == plan@.len(),
            prompt::texts_sound(seat.sandbox.texts),
            *t == (MemberTools { observations: t.observations, ..seat }),
            ledgers[0] == seat.observations@,
            ledgers.last() == t.observations@,
            done@.len() == i,
            ran_in_turn(*io, *runner, seat, ledgers, pv.take(i as int), converse::outs_v(done@)),
        decreases plan@.len() - i,
    {
        let ghost before = *t;
        let ghost l0 = ledgers;
        let ghost d0 = converse::outs_v(done@);
        let (label, out) = run_one(t, io, runner, &plan[i]);
        let ghost one = (label@, systool::outcome(out));
        proof {
            lemma_ran_in_any(
                *io,
                *runner,
                seat,
                before,
                before.observations@,
                plan@[i as int]@,
                one.0,
                one.1,
                t.observations@,
            );
            ledgers = ledgers.push(t.observations@);
        }
        done.push((label, out));
        proof {
            let p1 = pv.take(i + 1);
            let d1 = converse::outs_v(done@);
            assert(d1 =~= d0.push(one));
            assert(p1[i as int] == plan@[i as int]@);
            assert forall|k: int| 0 <= k < p1.len() implies call_ran(
                *io,
                *runner,
                seat,
                ledgers[k],
                p1[k],
                (#[trigger] d1[k]).0,
                d1[k].1,
                ledgers[k + 1],
            ) by {
                if k < i {
                    assert(d1[k] == d0[k]);
                    assert(ledgers[k] == l0[k] && ledgers[k + 1] == l0[k + 1]);
                    assert(pv.take(i as int)[k] == p1[k]);
                }
            }
            assert(ran_in_turn(*io, *runner, seat, ledgers, p1, d1));
        }
        i = i + 1;
    }
    assert(pv.take(pv.len() as int) =~= pv);
    done
}

/// Runs one call and keeps what it has seen.
pub fn run_one<I: SysIo, R: ToolRunner>(t: &mut MemberTools, io: &I, runner: &R, c: &Planned) -> (r:
    (String, ToolOutcome))
    requires
        prompt::texts_sound(old(t).sandbox.texts),
    ensures
        *final(t) == (MemberTools { observations: final(t).observations, ..*old(t) }),
        call_ran(*io, *runner, *old(t), old(t).observations@, c@, r.0@, systool::outcome(r.1), final(t).observations@),
{
    let (label, out, branch) = run_branch(t, io, runner, c);
    t.observations = branch;
    (label, out)
}

/// What a seat does not have is not run: the call fails, and nothing that was seen
/// changes.
pub proof fn what_a_seat_lacks_is_not_run<I: SysIo, R: ToolRunner>(
    io: I,
    runner: R,
    t: MemberTools,
    obs: Seq<(Seq<char>, SeenV)>,
    c: PlannedCallV,
    label: Seq<char>,
    out: (bool, Seq<char>),
    after: Seq<(Seq<char>, SeenV)>,
)
    requires
        call_ran(io, runner, t, obs, c, label, out, after),
    ensures
        systool::builtin(c.tool) && !text::texts(t.allowed@).contains(c.tool) ==> !out.0 && after == obs,
        !systool::builtin(c.tool) && !t.with_modules ==> !out.0 && after == obs,
        !systool::builtin(c.tool) && c.module is Some && table::lookup(t.modules@, c.module->0) is None ==> !out.0
            && after == obs,
{
}

/// A tool of a module is run by its own command where the module is: the module that was
/// named, or the only one there is; and only where the module has the tool, has all it
/// needs, and the arguments fit.
pub proof fn modules_run_their_own_tools(t: MemberTools, c: PlannedCallV)
    ensures
        external(t, c) matches Ok(x) ==> {
            &&& c.module matches Some(m) ==> x.0 == m
            &&& c.module is None ==> t.modules@.len() == 1 && x.0 == t.modules@[0].0
            &&& table::lookup(t.unavailable@, x.0) is None
            &&& table::lookup(t.modules@, x.0) is Some
            &&& table::lookup((table::lookup(t.modules@, x.0)->0).commands@, c.tool) is Some
            &&& x.1 == (table::lookup((table::lookup(t.modules@, x.0)->0).commands@, c.tool)->0)@
            &&& x.2 == (table::lookup(t.modules@, x.0)->0).root@
            &&& external_args_fault(t, x.0, table::lookup(t.modules@, x.0)->0, c) is None
        },
        external(t, c) is Err <==> meant_module(t, c) is None || table::lookup(t.modules@, meant_module(t, c)->0)
            is None || table::lookup(t.unavailable@, meant_module(t, c)->0) is Some || table::lookup(
            (table::lookup(t.modules@, meant_module(t, c)->0)->0).commands@,
            c.tool,
        ) is None || external_args_fault(
            t,
            meant_module(t, c)->0,
            table::lookup(t.modules@, meant_module(t, c)->0)->0,
            c,
        ) is Some,
{
}

/// What a seat does not have is told, once for each call.
pub proof fn what_a_seat_lacks_is_told(t: MemberTools, plan: Seq<PlannedCallV>, n: int)
    requires
        0 < n <= plan.len(),
    ensures
        in_face(t, plan[n - 1]) ==> unauthorized(t, plan, n) == unauthorized(t, plan, n - 1),
        !in_face(t, plan[n - 1]) ==> unauthorized(t, plan, n).len() == unauthorized(t, plan, n - 1).len() + 1
            && unauthorized(t, plan, n).last() == EventV::Notice(unauthorized_text(plan[n - 1].tool)),
{
}

/// Calls run side by side as far as each of them may.
pub proof fn calls_run_beside_as_far_as_they_may(t: MemberTools, plan: Seq<PlannedCallV>, i: int)
    requires
        0 <= i <= plan.len(),
    ensures
        i <= beside_end(t, plan, i) <= plan.len(),
        forall|k: int| i <= k < beside_end(t, plan, i) ==> runs_beside(t, #[trigger] plan[k]),
        beside_end(t, plan, i) < plan.len() ==> !runs_beside(t, plan[beside_end(t, plan, i)]),
    decreases plan.len() - i,
{
    if i < plan.len() && runs_beside(t, plan[i]) {
        calls_run_beside_as_far_as_they_may(t, plan, i + 1);
    }
}

/// Replies are numbered on from the greatest there is: no line of what was said before
/// has a greater one.
pub proof fn no_reply_is_greater(events: Seq<JsonV>, n: int, k: int, j: int)
    requires
        0 <= k < n <= events.len(),
        events[k].text_at("type"@) == Some("transcript"@),
        events[k].array_at("lines"@) is Some,
        0 <= j < (events[k].array_at("lines"@)->0).len(),
    ensures
        ({
            let l = (events[k].array_at("lines"@)->0)[j];
            &&& l.natural_at("reply"@) matches Some(r) ==> r <= greatest_reply(events, n)
            &&& l.get("tool"@) matches Some(t) ==> (t.natural_at("reply"@) matches Some(r) ==> r
                <= greatest_reply(events, n))
        }),
    decreases n,
{
    let ev = events[n - 1];
    let prev = greatest_reply(events, n - 1);
    match ev.array_at("lines"@) {
        Some(ls) => {
            lemma_replies_grow(ls, prev, ls.len() as int, j);
        },
        None => {},
    }
    if k < n - 1 {
        no_reply_is_greater(events, n - 1, k, j);
    }
}

proof fn lemma_replies_grow(ls: Seq<JsonV>, m: nat, n: int, j: int)
    requires
        0 <= n <= ls.len(),
    ensures
        reply_of_lines(ls, m, n) >= m,
        0 <= j < n ==> ({
            &&& ls[j].natural_at("reply"@) matches Some(r) ==> r <= reply_of_lines(ls, m, n)
            &&& ls[j].get("tool"@) matches Some(t) ==> (t.natural_at("reply"@) matches Some(r) ==> r
                <= reply_of_lines(ls, m, n))
        }),
    decreases n,
{
    if n > 0 {
        lemma_replies_grow(ls, m, n - 1, j);
    }
}

/// The tools of a module that may run beside others are those it says so of.
pub proof fn tools_run_beside_where_they_say(t: Seq<(Seq<char>, crate::module::ToolDecl)>, n: int, name: Seq<char>)
    requires
        0 <= n <= t.len(),
    ensures
        parallel_below(t, n).contains(name) <==> exists|k: int|
            0 <= k < n && (#[trigger] t[k]).0 == name && t[k].1.parallel,
    decreases n,
{
    if n > 0 {
        tools_run_beside_where_they_say(t, n - 1, name);
        let p = parallel_below(t, n - 1);
        let h = parallel_below(t, n);
        if h.contains(name) {
            let k = choose|k: int| 0 <= k < h.len() && h[k] == name;
            if k < p.len() {
                assert(p[k] == name);
            } else {
                assert(t[n - 1].0 == name && t[n - 1].1.parallel);
            }
        }
        if p.contains(name) {
            let k = choose|k: int| 0 <= k < p.len() && p[k] == name;
            assert(h[k] == name);
        }
        if t[n - 1].0 == name && t[n - 1].1.parallel {
            assert(h[p.len() as int] == name);
        }
    }
}

/// A module is found by its id with its own tools and commands.
pub proof fn modules_are_found_with_their_tools(v: Seq<Module>, n: int, k: int, j: int)
    requires
        0 <= k < n <= v.len(),
        forall|i: int| k < i < n ==> (#[trigger] v[i]).manifest.id@ != v[k].manifest.id@,
    ensures
        table::ascending(table_below(v, n)),
        table::lookup(table_below(v, n), v[k].manifest.id@) matches Some(m) && m.root == v[k].root@ && m.commands.len()
            == v[k].manifest.tools@.len() && (0 <= j < m.commands.len() ==> m.commands[j] == (
            v[k].manifest.tools@[j].0,
            v[k].manifest.tools@[j].1.command@,
        )),
    decreases n,
{
    lemma_modules_ascend(v, n - 1);
    table::inserting(table_below(v, n - 1), v[n - 1].manifest.id@, module_tools_v(v[n - 1]));
    if k < n - 1 {
        modules_are_found_with_their_tools(v, n - 1, k, j);
        assert(v[n - 1].manifest.id@ != v[k].manifest.id@);
    }
}

proof fn lemma_modules_ascend(v: Seq<Module>, n: int)
    requires
        n <= v.len(),
    ensures
        table::ascending(table_below(v, n)),
    decreases n,
{
    if n > 0 {
        lemma_modules_ascend(v, n - 1);
        table::inserting(table_below(v, n - 1), v[n - 1].manifest.id@, module_tools_v(v[n - 1]));
    }
}

} // verus!
