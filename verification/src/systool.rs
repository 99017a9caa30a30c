//! The built-in tools: `read`, `write`, `edit`, `patch` and `search`. What is
//! decided here: which call is let through, where a path leads, whether a file may
//! be overwritten, and what the model is told. Reading and writing files is left to
//! a [`SysIo`].
use crate::json::{self, Json, JsonV, parse_json, put, text_json};
use crate::module::{self, Module, module_tool_params, module_tools};
use crate::patch::{self, Block, BlockV, EditFault, EditFaultV, Fault, FaultV, apply_edits, near_or_not_found};
use crate::ports::{self, FileRead, SysIo, ToolOutcome};
use crate::prompt::{self, Prompts, ToolTexts, fill1, fill2, fill3, fill4, fill7};
use crate::schema::{self, ArgFault, ArgFaultV, SchemaV, ToolBook, ToolSchema, render_book};
use crate::session::SessionParams;
use crate::table::{self, Table, get_text, put_text};
use crate::text::{self, cat2, cat3, dec_usize, find_in, has_sub, join, lines, slice, str_eq, to_chars};
use crate::workspace::{self, PartV, PathV, Place, PlaceV, RealPath, Sandbox, slash};
use vstd::prelude::*;

verus! {

pub const READ: &'static str = "read";

pub const WRITE: &'static str = "write";

pub const EDIT: &'static str = "edit";

pub const PATCH: &'static str = "patch";

pub const SEARCH: &'static str = "search";

/// How many characters one read gives back at most.
pub const MAX_READ_CHARS: usize = 60000;

/// How many characters of a line one read gives back at most.
pub const MAX_READ_LINE_CHARS: usize = 2000;

/// How many lines one search gives back at most.
pub const MAX_SEARCH_HITS: usize = 200;

/// How many characters of a line one search gives back at most.
pub const MAX_SEARCH_LINE_CHARS: usize = 300;

/// The mark of a write into a module's directory.
pub const MODULE_WRITE_MARK: &'static str = "[模块目录]";

pub open spec fn builtin(name: Seq<char>) -> bool {
    name == READ@ || name == WRITE@ || name == EDIT@ || name == PATCH@ || name == SEARCH@
}

/// Whether a name is one of the built-in tools'.
pub fn is_builtin(name: &str) -> (r: bool)
    ensures
        r == builtin(name@),
{
    str_eq(name, READ) || str_eq(name, WRITE) || str_eq(name, EDIT) || str_eq(name, PATCH)
        || str_eq(name, SEARCH)
}

/// The names of the built-in tools.
pub fn names() -> (r: Vec<String>)
    ensures
        text::texts(r@) == seq![READ@, WRITE@, EDIT@, PATCH@, SEARCH@],
{
    let mut r: Vec<String> = Vec::new();
    r.push(READ.to_owned());
    r.push(WRITE.to_owned());
    r.push(EDIT.to_owned());
    r.push(PATCH.to_owned());
    r.push(SEARCH.to_owned());
    assert(text::texts(r@) =~= seq![READ@, WRITE@, EDIT@, PATCH@, SEARCH@]);
    r
}

pub open spec fn patch_params() -> JsonV {
    JsonV::Obj(
        seq![
            ("additionalProperties"@, JsonV::Bool(false)),
            (
                "properties"@,
                JsonV::Obj(
                    seq![
                        (
                            "body"@,
                            JsonV::Obj(
                                seq![
                                    (
                                        "description"@,
                                        JsonV::Str("补丁正文（原样写，不用转义换行）"@),
                                    ),
                                    ("type"@, JsonV::Str("string"@)),
                                ],
                            ),
                        ),
                    ],
                ),
            ),
            ("required"@, JsonV::Arr(seq![JsonV::Str("body"@)])),
            ("type"@, JsonV::Str("object"@)),
        ],
    )
}

/// How `patch` is declared on a channel with native tool calls: its one parameter
/// is the patch text.
pub fn patch_decl() -> (r: crate::ports::ToolDecl)
    ensures
        r.name@ == PATCH@,
        r.description@
            == "用一段补丁文本改文件（*** Add File: 路径 / *** Update File: 路径 … *** End File）"@,
        r.parameters@ == patch_params(),
{
    let mut body: Vec<(String, Json)> = Vec::new();
    put(&mut body, "description", text_json("补丁正文（原样写，不用转义换行）"));
    put(&mut body, "type", text_json("string"));
    let mut props: Vec<(String, Json)> = Vec::new();
    put(&mut props, "body", Json::Obj(body));
    let mut need: Vec<Json> = Vec::new();
    need.push(text_json("body"));
    let mut root: Vec<(String, Json)> = Vec::new();
    put(&mut root, "additionalProperties", Json::Bool(false));
    put(&mut root, "properties", Json::Obj(props));
    put(&mut root, "required", Json::Arr(need));
    put(&mut root, "type", text_json("object"));
    proof {
        json::lemma_items(need@);
        assert(json::items_v(need@) =~= seq![JsonV::Str("body"@)]);
        assert(json::members_v(body@) =~= seq![
            ("description"@, JsonV::Str("补丁正文（原样写，不用转义换行）"@)),
            ("type"@, JsonV::Str("string"@)),
        ]);
        assert(json::members_v(props@) =~= seq![("body"@, JsonV::Obj(json::members_v(body@)))]);
        assert(json::members_v(root@) =~= patch_params()->Obj_0);
    }
    crate::ports::ToolDecl {
        name: PATCH.to_owned(),
        description:
            "用一段补丁文本改文件（*** Add File: 路径 / *** Update File: 路径 … *** End File）".to_owned(),
        parameters: Json::Obj(root),
    }
}

/// Whether a tool takes a text as it stands in place of JSON arguments.
pub fn is_freeform(name: &str) -> (r: bool)
    ensures
        r == (name@ == PATCH@),
{
    str_eq(name, PATCH)
}

/// A line for each directory of a module.
pub open spec fn module_root_lines(t: ToolTexts, dirs: Seq<(Seq<char>, RealPath)>) -> Seq<
    Seq<char>,
> {
    dirs.map_values(
        |e: (Seq<char>, RealPath)|
            prompt::filled(t.module_root_line@, seq![("id"@, e.0), ("root"@, workspace::slashed(e.1@.text))]),
    )
}

/// What an agent is told of the directories of its modules.
pub open spec fn module_roots_text(
    p: Prompts,
    t: ToolTexts,
    dirs: Seq<(Seq<char>, RealPath)>,
) -> Seq<char> {
    if dirs.len() == 0 {
        p.core.no_module_dirs@
    } else {
        text::joined(module_root_lines(t, dirs), "\n"@)
    }
}

fn module_roots(prompts: &Prompts, texts: &ToolTexts, dirs: &Table<RealPath>) -> (r: String)
    requires
        prompt::texts_sound(*texts),
    ensures
        r@ == module_roots_text(*prompts, *texts, dirs@),
{
    let ghost all = module_root_lines(*texts, dirs@);
    if dirs.len() == 0 {
        return prompts.core.no_module_dirs.clone();
    }
    let mut ls: Vec<String> = Vec::new();
    let mut i: usize = 0;
    while i < dirs.len()
        invariant
            i <= dirs@.len(),
            prompt::texts_sound(*texts),
            all == module_root_lines(*texts, dirs@),
            text::texts(ls@) == all.take(i as int),
        decreases dirs@.len() - i,
    {
        let l = fill2(
            texts.module_root_line.as_str(),
            "id",
            dirs.key_at(i),
            "root",
            slash(dirs.value_at(i)).as_str(),
        );
        let ghost prev = ls@;
        ls.push(l);
        proof {
            text::lemma_texts_push(prev, l);
            assert(all[i as int] == l@);
            assert(text::texts(ls@) =~= all.take(i + 1));
        }
        i = i + 1;
    }
    assert(all.take(all.len() as int) =~= all);
    join(&ls, "\n")
}

pub open spec fn guide_text(p: Prompts, sb: Sandbox) -> Seq<char> {
    let work = workspace::slashed(sb.shared@.text);
    let own = workspace::slashed(sb.private@.text);
    prompt::filled(
        p.core.sys_tools@,
        seq![
            ("work_name"@, sb.work_name@),
            ("agent"@, sb.agent@),
            ("work_root"@, work),
            ("sandbox_root"@, own),
            ("module_roots"@, module_roots_text(p, sb.texts, sb.modules@)),
            ("tool_params"@, text::joined(schema::book_lines(sb.builtin_tools@), "\n"@)),
            (
                "patch_guide"@,
                prompt::filled(
                    p.core.patch_guide@,
                    seq![("work_root"@, work), ("sandbox_root"@, own)],
                ),
            ),
        ],
    )
}

/// What the model is told of the built-in tools: the roots it may reach and the
/// tools' parameters.
pub fn guide(prompts: &Prompts, sb: &Sandbox) -> (r: String)
    requires
        prompt::book_sound(*prompts),
        prompt::texts_sound(sb.texts),
    ensures
        r@ == guide_text(*prompts, *sb),
{
    let module_roots = module_roots(prompts, &sb.texts, &sb.modules);
    let work = slash(&sb.shared);
    let own = slash(&sb.private);
    fill7(
        prompts.core.sys_tools.as_str(),
        "work_name",
        sb.work_name.as_str(),
        "agent",
        sb.agent.as_str(),
        "work_root",
        work.as_str(),
        "sandbox_root",
        own.as_str(),
        "module_roots",
        module_roots.as_str(),
        "tool_params",
        render_book(&sb.builtin_tools).as_str(),
        "patch_guide",
        fill2(
            prompts.core.patch_guide.as_str(),
            "work_root",
            work.as_str(),
            "sandbox_root",
            own.as_str(),
        ).as_str(),
    )
}

/// What an agent is told of where it works, whatever tools a turn gives it.
pub open spec fn env_text(p: Prompts, e: SessionParams) -> Seq<char> {
    prompt::filled(
        p.core.sys_tools@,
        seq![
            ("work_name"@, e.work_name@),
            ("agent"@, e.agent@),
            ("work_root"@, workspace::slashed(e.shared@.text)),
            ("sandbox_root"@, workspace::slashed(e.private@.text)),
            ("module_roots"@, module_roots_text(p, p.core.tool_texts, e.module_dirs@)),
            ("tool_params"@, ""@),
            ("patch_guide"@, ""@),
        ],
    )
}

/// What an agent is told of where it works. The tools come with each turn.
pub fn env_block(prompts: &Prompts, params: &SessionParams) -> (r: String)
    requires
        prompt::book_sound(*prompts),
    ensures
        r@ == env_text(*prompts, *params),
{
    let roots = module_roots(prompts, &prompts.core.tool_texts, &params.module_dirs);
    fill7(
        prompts.core.sys_tools.as_str(),
        "work_name",
        params.work_name.as_str(),
        "agent",
        params.agent.as_str(),
        "work_root",
        slash(&params.shared).as_str(),
        "sandbox_root",
        slash(&params.private).as_str(),
        "module_roots",
        roots.as_str(),
        "tool_params",
        "",
        "patch_guide",
        "",
    )
}

/// What an agent is told of its tools besides the built-in ones' parameters.
#[derive(Debug)]
pub struct ToolNotes {
    pub patch_guide: String,
    pub module_tools: String,
    pub module_tool_params: String,
}

pub open spec fn patch_guide_text(p: Prompts, sb: Sandbox) -> Seq<char> {
    prompt::filled(
        p.core.patch_guide@,
        seq![
            ("work_root"@, workspace::slashed(sb.shared@.text)),
            ("sandbox_root"@, workspace::slashed(sb.private@.text)),
        ],
    )
}

/// What an agent is told of its tools, made once for its sandbox and modules.
pub fn tool_notes(prompts: &Prompts, sb: &Sandbox, modules: &Vec<Module>) -> (r: ToolNotes)
    requires
        prompt::book_sound(*prompts),
    ensures
        r.patch_guide@ == patch_guide_text(*prompts, *sb),
        r.module_tools@ == module::module_tools_text(*prompts, modules@),
        r.module_tool_params@ == module::tool_params_text(*prompts, modules@),
{
    ToolNotes {
        patch_guide: fill2(
            prompts.core.patch_guide.as_str(),
            "work_root",
            slash(&sb.shared).as_str(),
            "sandbox_root",
            slash(&sb.private).as_str(),
        ),
        module_tools: module_tools(prompts, modules),
        module_tool_params: module_tool_params(prompts, modules),
    }
}

/// The answer to a call of a tool that the caller was not given.
pub fn refuse(t: &ToolTexts, name: &str) -> (r: ToolOutcome)
    requires
        prompt::texts_sound(*t),
    ensures
        outcome(r) == (false, prompt::filled(t.unknown_builtin@, seq![("name"@, name@)])),
{
    fail(fill1(t.unknown_builtin.as_str(), "name", name))
}

// ---- what was seen ----

/// What is known of a file's content.
#[derive(Debug)]
pub enum Seen {
    /// The whole content was read or written: its fingerprint.
    Known(u64),
    /// Only a part was read: why.
    Partial(String),
}

pub enum SeenV {
    Known(u64),
    Partial(Seq<char>),
}

impl View for Seen {
    type V = SeenV;

    open spec fn view(&self) -> SeenV {
        match *self {
            Seen::Known(h) => SeenV::Known(h),
            Seen::Partial(s) => SeenV::Partial(s@),
        }
    }
}

/// What a session has seen of which files. Overwriting a file whole asks that it
/// was read whole before and has not changed since.
#[derive(Debug)]
pub struct Observations {
    seen: Table<Seen>,
    /// What was noted since it was made or branched off, in order.
    news: Vec<(String, Seen)>,
}

pub open spec fn seen_v(t: Seq<(Seq<char>, Seen)>) -> Seq<(Seq<char>, SeenV)> {
    t.map_values(|e: (Seq<char>, Seen)| (e.0, e.1@))
}

pub open spec fn notes_v(v: Seq<(String, Seen)>) -> Seq<(Seq<char>, SeenV)> {
    v.map_values(|e: (String, Seen)| (e.0@, e.1@))
}

impl View for Observations {
    type V = Seq<(Seq<char>, SeenV)>;

    closed spec fn view(&self) -> Seq<(Seq<char>, SeenV)> {
        seen_v(self.seen@)
    }
}

/// What is known after a read of a file: all of it, or that a part was read where
/// nothing was known.
pub open spec fn after_read(
    t: Seq<(Seq<char>, SeenV)>,
    path: Seq<char>,
    complete: bool,
    why: Seq<char>,
    hash: u64,
) -> Seq<(Seq<char>, SeenV)> {
    if complete {
        table::inserted(t, path, SeenV::Known(hash))
    } else {
        with_part(t, path, why)
    }
}

pub open spec fn with_part(t: Seq<(Seq<char>, SeenV)>, path: Seq<char>, why: Seq<char>) -> Seq<
    (Seq<char>, SeenV),
> {
    if table::lookup(t, path) is Some {
        t
    } else {
        table::inserted(t, path, SeenV::Partial(why))
    }
}

/// What is known after one more note: a whole file is known from then on, a part only
/// where nothing was known.
pub open spec fn noting(t: Seq<(Seq<char>, SeenV)>, e: (Seq<char>, SeenV)) -> Seq<
    (Seq<char>, SeenV),
> {
    match e.1 {
        SeenV::Known(h) => table::inserted(t, e.0, SeenV::Known(h)),
        SeenV::Partial(why) => with_part(t, e.0, why),
    }
}

/// The note a read leaves.
pub open spec fn read_note(complete: bool, why: Seq<char>, hash: u64) -> SeenV {
    if complete {
        SeenV::Known(hash)
    } else {
        SeenV::Partial(why)
    }
}

/// What is known after the first `n` notes of a branch are taken over.
pub open spec fn absorbed(
    t: Seq<(Seq<char>, SeenV)>,
    b: Seq<(Seq<char>, SeenV)>,
    n: int,
) -> Seq<(Seq<char>, SeenV)>
    decreases n,
{
    if n <= 0 {
        t
    } else {
        noting(absorbed(t, b, n - 1), b[n - 1])
    }
}

impl Observations {
    /// What was noted since it was made or branched off.
    pub closed spec fn news(self) -> Seq<(Seq<char>, SeenV)> {
        notes_v(self.news@)
    }

    /// A ledger of nothing.
    pub fn new() -> (r: Observations)
        ensures
            r@ == Seq::<(Seq<char>, SeenV)>::empty(),
            r.news() == Seq::<(Seq<char>, SeenV)>::empty(),
    {
        let r = Observations { seen: Table::new(), news: Vec::new() };
        assert(r@ =~= Seq::<(Seq<char>, SeenV)>::empty());
        assert(r.news() =~= Seq::<(Seq<char>, SeenV)>::empty());
        r
    }

    /// Forgets everything.
    pub fn clear(&mut self)
        ensures
            final(self)@ == Seq::<(Seq<char>, SeenV)>::empty(),
            final(self).news() == Seq::<(Seq<char>, SeenV)>::empty(),
    {
        self.seen = Table::new();
        self.news = Vec::new();
        assert(self@ =~= Seq::<(Seq<char>, SeenV)>::empty());
        assert(self.news() =~= Seq::<(Seq<char>, SeenV)>::empty());
    }

    /// Branches off: what is known is the same, and nothing is news.
    pub fn copy(&self) -> (r: Observations)
        ensures
            r@ == self@,
            r.news() == Seq::<(Seq<char>, SeenV)>::empty(),
    {
        let mut entries: Vec<(String, Seen)> = Vec::new();
        let mut i: usize = 0;
        while i < self.seen.len()
            invariant
                i <= self.seen@.len(),
                entries@.len() == i,
                forall|k: int|
                    0 <= k < i ==> (#[trigger] entries@[k]).0@ == self.seen@[k].0 && entries@[k].1@
                        == self.seen@[k].1@,
            decreases self.seen@.len() - i,
        {
            let s = match self.seen.value_at(i) {
                Seen::Known(h) => Seen::Known(*h),
                Seen::Partial(why) => Seen::Partial(why.clone()),
            };
            entries.push((self.seen.key_at(i).to_owned(), s));
            i = i + 1;
        }
        let r = Observations { seen: Table { entries }, news: Vec::new() };
        assert(r@ =~= self@);
        assert(r.news() =~= Seq::<(Seq<char>, SeenV)>::empty());
        r
    }

    fn put_seen(&mut self, path: &str, s: Seen)
        ensures
            final(self)@ == table::inserted(old(self)@, path@, s@),
            final(self).news == old(self).news,
    {
        let ghost f = |s: Seen| s@;
        let ghost before = self.seen@;
        proof {
            assert(seen_v(before) =~= before.map_values(|e: (Seq<char>, Seen)| (e.0, f(e.1))));
            table::lemma_map_inserted(before, seen_v(before), f, path@, s);
        }
        self.seen.insert(path.to_owned(), s);
        assert(self@ =~= table::inserted(before, path@, s).map_values(
            |e: (Seq<char>, Seen)| (e.0, f(e.1)),
        ));
    }

    fn look(&self, path: &str) -> (r: Option<&Seen>)
        ensures
            match r {
                Some(s) => table::lookup(self@, path@) == Some(s@),
                None => table::lookup(self@, path@) is None,
            },
    {
        let ghost f = |s: Seen| s@;
        proof {
            let before = self.seen@;
            assert(seen_v(before) =~= before.map_values(|e: (Seq<char>, Seen)| (e.0, f(e.1))));
            table::lemma_map_inserted(before, seen_v(before), f, path@, Seen::Known(0));
        }
        self.seen.get(path)
    }

    /// Notes a read. A read of a part never makes what is known unknown.
    pub fn note_read(&mut self, path: &RealPath, complete: bool, why: &str, hash: u64)
        ensures
            final(self)@ == after_read(old(self)@, path.text@, complete, why@, hash),
            final(self).news() == old(self).news().push(
                (path.text@, read_note(complete, why@, hash)),
            ),
    {
        let s = if complete {
            Seen::Known(hash)
        } else {
            Seen::Partial(why.to_owned())
        };
        self.note(path.text.as_str(), &s);
    }

    /// Notes something of a file.
    fn note(&mut self, path: &str, s: &Seen)
        ensures
            final(self)@ == noting(old(self)@, (path@, s@)),
            final(self).news() == old(self).news().push((path@, s@)),
    {
        let ghost before = self.news@;
        let kept = match s {
            Seen::Known(h) => {
                self.put_seen(path, Seen::Known(*h));
                Seen::Known(*h)
            },
            Seen::Partial(why) => {
                self.put_part(path, why.as_str());
                Seen::Partial(why.clone())
            },
        };
        let ghost seen = self.seen;
        let ghost k = kept;
        self.news.push((path.to_owned(), kept));
        assert(self.seen == seen);
        assert(notes_v(self.news@) =~= notes_v(before).push((path@, k@)));
    }

    fn put_part(&mut self, path: &str, why: &str)
        ensures
            final(self)@ == with_part(old(self)@, path@, why@),
            final(self).news == old(self).news,
    {
        let there = match self.look(path) {
            Some(_) => true,
            None => false,
        };
        if !there {
            self.put_seen(path, Seen::Partial(why.to_owned()));
        }
    }

    /// Notes a write: the content is known.
    pub fn note_written(&mut self, path: &RealPath, hash: u64)
        ensures
            final(self)@ == table::inserted(old(self)@, path.text@, SeenV::Known(hash)),
            final(self).news() == old(self).news().push((path.text@, SeenV::Known(hash))),
    {
        self.note(path.text.as_str(), &Seen::Known(hash));
    }

    /// Takes over what a branch noted since it branched off, in the order it did; what
    /// it merely knew from before is not put back.
    pub fn absorb(&mut self, branch: &Observations)
        ensures
            final(self)@ == absorbed(old(self)@, branch.news(), branch.news().len() as int),
            final(self).news() == old(self).news() + branch.news(),
    {
        let ghost start = *self;
        let ghost bn = branch.news();
        let mut i: usize = 0;
        assert(bn.len() == branch.news@.len());
        assert(self.news() =~= start.news() + bn.take(0));
        while i < branch.news.len()
            invariant
                i <= branch.news@.len(),
                bn == notes_v(branch.news@),
                self@ == absorbed(start@, bn, i as int),
                self.news() == start.news() + bn.take(i as int),
            decreases branch.news@.len() - i,
        {
            assert(bn[i as int] == (branch.news@[i as int].0@, branch.news@[i as int].1@));
            self.note(branch.news[i].0.as_str(), &branch.news[i].1);
            assert(self.news() =~= start.news() + bn.take(i + 1));
            i = i + 1;
        }
        assert(bn.take(bn.len() as int) =~= bn);
    }

    /// The fingerprint of the content a file is known to have.
    pub fn known(&self, path: &RealPath) -> (r: Option<u64>)
        ensures
            r == known_in(self@, path.text@),
    {
        match self.look(path.text.as_str()) {
            Some(s) => match s {
                Seen::Known(h) => Some(*h),
                Seen::Partial(_) => None,
            },
            None => None,
        }
    }

    /// Why only a part of a file was read.
    pub fn partial_why(&self, path: &RealPath) -> (r: Option<String>)
        ensures
            text::opt_text(r) == part_in(self@, path.text@),
    {
        match self.look(path.text.as_str()) {
            Some(s) => match s {
                Seen::Known(_) => None,
                Seen::Partial(why) => Some(why.clone()),
            },
            None => None,
        }
    }
}

pub open spec fn known_in(t: Seq<(Seq<char>, SeenV)>, path: Seq<char>) -> Option<u64> {
    match table::lookup(t, path) {
        Some(SeenV::Known(h)) => Some(h),
        _ => None,
    }
}

pub open spec fn part_in(t: Seq<(Seq<char>, SeenV)>, path: Seq<char>) -> Option<Seq<char>> {
    match table::lookup(t, path) {
        Some(SeenV::Partial(why)) => Some(why),
        _ => None,
    }
}

/// What is known after the first `n` of some reads, each a path, whether all was read,
/// why not, and the fingerprint.
pub open spec fn read_all(
    t: Seq<(Seq<char>, SeenV)>,
    reads: Seq<(Seq<char>, bool, Seq<char>, u64)>,
    n: int,
) -> Seq<(Seq<char>, SeenV)>
    decreases n,
{
    if n <= 0 {
        t
    } else {
        let r = reads[n - 1];
        after_read(read_all(t, reads, n - 1), r.0, r.1, r.2, r.3)
    }
}

/// What is known after the first `n` branches are taken over, each by its news.
pub open spec fn absorbed_all(
    t: Seq<(Seq<char>, SeenV)>,
    branches: Seq<Seq<(Seq<char>, SeenV)>>,
    n: int,
) -> Seq<(Seq<char>, SeenV)>
    decreases n,
{
    if n <= 0 {
        t
    } else {
        absorbed(absorbed_all(t, branches, n - 1), branches[n - 1], branches[n - 1].len() as int)
    }
}

/// Reads made side by side, each on a branch of its own, leave what the same reads
/// made one by one do, when the branches are taken over in order.
pub proof fn reading_side_by_side_is_reading_in_turn(
    t: Seq<(Seq<char>, SeenV)>,
    reads: Seq<(Seq<char>, bool, Seq<char>, u64)>,
    branches: Seq<Seq<(Seq<char>, SeenV)>>,
    n: int,
)
    requires
        0 <= n <= reads.len(),
        branches.len() == reads.len(),
        forall|k: int|
            0 <= k < reads.len() ==> #[trigger] branches[k] == seq![
                (reads[k].0, read_note(reads[k].1, reads[k].2, reads[k].3)),
            ],
    ensures
        absorbed_all(t, branches, n) == read_all(t, reads, n),
    decreases n,
{
    if n > 0 {
        reading_side_by_side_is_reading_in_turn(t, reads, branches, n - 1);
        let b = branches[n - 1];
        assert(b.len() == 1);
        reveal_with_fuel(absorbed, 2);
    }
}

/// Taking over a branch in parts gives what taking it over at once does.
pub proof fn branches_can_be_taken_in_parts(
    t: Seq<(Seq<char>, SeenV)>,
    a: Seq<(Seq<char>, SeenV)>,
    b: Seq<(Seq<char>, SeenV)>,
    n: int,
)
    requires
        0 <= n <= b.len(),
    ensures
        absorbed(t, a + b, a.len() + n) == absorbed(absorbed(t, a, a.len() as int), b, n),
    decreases n,
{
    if n > 0 {
        branches_can_be_taken_in_parts(t, a, b, n - 1);
        assert((a + b)[a.len() + n - 1] == b[n - 1]);
    } else {
        lemma_absorbs_prefix(t, a, b, a.len() as int);
    }
}

proof fn lemma_absorbs_prefix(
    t: Seq<(Seq<char>, SeenV)>,
    a: Seq<(Seq<char>, SeenV)>,
    b: Seq<(Seq<char>, SeenV)>,
    n: int,
)
    requires
        0 <= n <= a.len(),
    ensures
        absorbed(t, a + b, n) == absorbed(t, a, n),
    decreases n,
{
    if n > 0 {
        lemma_absorbs_prefix(t, a, b, n - 1);
        assert((a + b)[n - 1] == a[n - 1]);
    }
}

/// A read of a part never takes away what is known of a file.
pub proof fn partial_reads_keep_knowledge(
    t: Seq<(Seq<char>, SeenV)>,
    path: Seq<char>,
    why: Seq<char>,
    hash: u64,
    other: Seq<char>,
)
    requires
        table::ascending(t),
        table::lookup(t, other) is Some,
    ensures
        table::lookup(after_read(t, path, false, why, hash), other) == table::lookup(t, other),
{
    if table::lookup(t, path) is None {
        table::inserting(t, path, SeenV::Partial(why));
    }
}

// ---- helpers ----

pub open spec fn fnv_of(b: Seq<u8>) -> u64
    decreases b.len(),
{
    if b.len() == 0 {
        0xcbf2_9ce4_8422_2325
    } else {
        vstd::wrapping::u64_specs::wrapping_mul(
            fnv_of(b.drop_last()) ^ (b.last() as u64),
            0x0000_0100_0000_01b3,
        )
    }
}

/// The fingerprint of a content: FNV-1a over its bytes.
pub open spec fn fingerprint(s: Seq<char>) -> u64 {
    fnv_of(vstd::utf8::encode_utf8(s))
}

pub fn fnv1a(s: &str) -> (h: u64)
    ensures
        h == fingerprint(s@),
{
    let b = s.as_bytes();
    let mut h: u64 = 0xcbf2_9ce4_8422_2325;
    let mut i: usize = 0;
    assert(b@.take(0) =~= Seq::<u8>::empty());
    while i < b.len()
        invariant
            i <= b@.len(),
            h == fnv_of(b@.take(i as int)),
        decreases b@.len() - i,
    {
        assert(b@.take(i + 1).drop_last() =~= b@.take(i as int));
        h = h ^ (b[i] as u64);
        h = h.wrapping_mul(0x0000_0100_0000_01b3);
        i = i + 1;
    }
    assert(b@.take(b@.len() as int) =~= b@);
    h
}

pub open spec fn newlines(s: Seq<char>) -> nat
    decreases s.len(),
{
    if s.len() == 0 {
        0
    } else {
        newlines(s.drop_last()) + if s.last() == '\n' {
            1nat
        } else {
            0
        }
    }
}

/// The number of the line, from 1, that a position lies in.
pub open spec fn line_number(s: Seq<char>, at: int) -> nat {
    newlines(s.take(at)) + 1
}

/// The number of the line, from 1, that a position lies in.
pub fn line_of(v: &Vec<char>, at: usize) -> (n: usize)
    requires
        at < v@.len(),
    ensures
        n == line_number(v@, at as int),
{
    let mut n: usize = 0;
    let mut i: usize = 0;
    assert(v@.take(0) =~= Seq::<char>::empty());
    while i < at
        invariant
            i <= at < v@.len(),
            n == newlines(v@.take(i as int)),
            n <= i,
        decreases at - i,
    {
        assert(v@.take(i + 1).drop_last() =~= v@.take(i as int));
        assert(i < v.len());
        if v[i] == '\n' {
            n = n + 1;
        }
        i = i + 1;
    }
    assert(at < v.len());
    n + 1
}

/// Every place from `from` on at which `p` stands in `s`, none overlapping the one before.
pub open spec fn places_from(s: Seq<char>, p: Seq<char>, from: int) -> Seq<int>
    decreases s.len() + 1 - from,
    via places_decrease
{
    match text::find_from(s, p, from) {
        Some(i) => if p.len() == 0 {
            Seq::empty()
        } else {
            seq![i] + places_from(s, p, i + p.len())
        },
        None => Seq::empty(),
    }
}

#[via_fn]
proof fn places_decrease(s: Seq<char>, p: Seq<char>, from: int) {
    if from >= 0 {
        text::lemma_find_from(s, p, from);
    }
}

/// The text from `from` on with every place of `p` replaced.
pub open spec fn replaced_from(s: Seq<char>, p: Seq<char>, q: Seq<char>, from: int) -> Seq<char>
    decreases s.len() + 1 - from,
    via replaced_decrease
{
    match text::find_from(s, p, from) {
        Some(i) => if p.len() == 0 {
            s.skip(from)
        } else {
            s.subrange(from, i) + q + replaced_from(s, p, q, i + p.len())
        },
        None => s.skip(from),
    }
}

#[via_fn]
proof fn replaced_decrease(s: Seq<char>, p: Seq<char>, q: Seq<char>, from: int) {
    if from >= 0 {
        text::lemma_find_from(s, p, from);
    }
}

/// Every place of a text in another, none overlapping; an empty text has none.
pub fn find_all(v: &Vec<char>, p: &Vec<char>) -> (r: Vec<usize>)
    ensures
        patch::numbers(r@) == places_from(v@, p@, 0),
        forall|k: int| 0 <= k < r@.len() ==> #[trigger] r@[k] + p@.len() <= v@.len(),
        r@.len() > 0 ==> p@.len() > 0,
{
    let mut r: Vec<usize> = Vec::new();
    if p.len() == 0 {
        assert(patch::numbers(r@) =~= places_from(v@, p@, 0));
        return r;
    }
    let mut from: usize = 0;
    let ghost all = places_from(v@, p@, 0);
    let mut more = true;
    assert(patch::numbers(r@) + places_from(v@, p@, 0) =~= all);
    while more
        invariant
            from <= v@.len(),
            p@.len() > 0,
            all == places_from(v@, p@, 0),
            more ==> patch::numbers(r@) + places_from(v@, p@, from as int) == all,
            !more ==> patch::numbers(r@) == all,
            forall|k: int| 0 <= k < r@.len() ==> #[trigger] r@[k] + p@.len() <= v@.len(),
        decreases v@.len() - from, if more { 1int } else { 0 },
    {
        match find_in(v, p, from) {
            Some(i) => {
                let ghost prev = r@;
                r.push(i);
                assert(i + p.len() <= v.len());
                proof {
                    assert(patch::numbers(r@) =~= patch::numbers(prev).push(i as int));
                    let rest = places_from(v@, p@, i + p@.len());
                    assert(patch::numbers(prev) + (seq![i as int] + rest) =~= patch::numbers(r@) + rest);
                }
                from = i + p.len();
            },
            None => {
                assert(patch::numbers(r@) + Seq::<int>::empty() =~= patch::numbers(r@));
                more = false;
            },
        }
    }
    r
}

fn replace_all(v: &Vec<char>, p: &Vec<char>, new: &str) -> (r: String)
    requires
        p@.len() > 0,
    ensures
        r@ == replaced_from(v@, p@, new@, 0),
{
    let mut out = String::new();
    let mut from: usize = 0;
    let ghost all = replaced_from(v@, p@, new@, 0);
    let mut more = true;
    assert(out@ + all =~= all);
    while more
        invariant
            from <= v@.len(),
            p@.len() > 0,
            all == replaced_from(v@, p@, new@, 0),
            more ==> out@ + replaced_from(v@, p@, new@, from as int) == all,
            !more ==> out@ == all,
        decreases v@.len() - from, if more { 1int } else { 0 },
    {
        match find_in(v, p, from) {
            Some(i) => {
                assert(i + p.len() <= v.len());
                let ghost prev = out@;
                out = cat3(out.as_str(), slice(v, from, i).as_str(), new);
                proof {
                    let rest = replaced_from(v@, p@, new@, i + p@.len());
                    assert(prev + (v@.subrange(from as int, i as int) + new@ + rest) =~= out@
                        + rest);
                }
                from = i + p.len();
            },
            None => {
                out = cat2(out.as_str(), slice(v, from, v.len()).as_str());
                assert(v@.skip(from as int) =~= v@.subrange(from as int, v@.len() as int));
                more = false;
            },
        }
    }
    out
}

/// Where the lines of a text stand in another but for white space: the number of
/// the first line, from 1, and that line.
pub fn near_match(hay: &str, old_text: &str) -> (r: Option<(usize, String)>)
    ensures
        match r {
            Some(x) => patch::miss(text::lines_of(hay@), text::lines_of(old_text@)) == (EditFaultV::NearMiss {
                line: x.0 as int,
                actual: x.1@,
            }),
            None => !(patch::miss(text::lines_of(hay@), text::lines_of(old_text@)) is NearMiss),
        },
{
    match near_or_not_found(&lines(hay), &lines(old_text)) {
        EditFault::NearMiss { line, actual } => Some((line, actual)),
        _ => None,
    }
}

pub open spec fn clip(s: Seq<char>, max: int) -> Seq<char> {
    if s.len() <= max {
        s
    } else {
        s.take(max)
    }
}

/// The first characters of a text, at most `max`; and whether some were left out.
pub fn truncate_chars(s: &str, max: usize) -> (r: (String, bool))
    ensures
        r.0@ == clip(s@, max as int),
        r.1 == (s@.len() > max),
{
    let v = to_chars(s);
    if v.len() <= max {
        (s.to_owned(), false)
    } else {
        let t = slice(&v, 0, max);
        assert(t@ =~= s@.take(max as int));
        (t, true)
    }
}

pub open spec fn outcome(o: ToolOutcome) -> (bool, Seq<char>) {
    (o.ok, o.output@)
}

/// A call that failed.
pub fn fail(msg: String) -> (r: ToolOutcome)
    ensures
        outcome(r) == (false, msg@),
{
    ToolOutcome { ok: false, output: msg }
}

fn succeed(msg: String) -> (r: ToolOutcome)
    ensures
        outcome(r) == (true, msg@),
{
    ToolOutcome { ok: true, output: msg }
}

// ---- reading ----

pub open spec fn read_row(t: ToolTexts, n: int, line: Seq<char>) -> Seq<char> {
    prompt::filled(
        t.read_line@,
        seq![("n"@, text::decimal(n as nat)), ("line"@, clip(line, MAX_READ_LINE_CHARS as int))],
    ) + if line.len() > MAX_READ_LINE_CHARS {
        prompt::filled(t.read_line_capped@, seq![("limit"@, text::decimal(MAX_READ_LINE_CHARS as nat))])
    } else {
        Seq::empty()
    }
}

/// The lines from `i` up to `end` that are given back: as many as the budget of
/// characters allows, and the first in any case.
pub open spec fn read_rows(
    t: ToolTexts,
    ls: Seq<Seq<char>>,
    i: int,
    end: int,
    used: int,
    first: bool,
) -> Seq<Seq<char>>
    decreases end - i,
{
    if i >= end {
        Seq::empty()
    } else {
        let row = read_row(t, i + 1, ls[i]);
        let cost = row.len() + 1;
        if !first && used + cost > MAX_READ_CHARS {
            Seq::empty()
        } else {
            seq![row] + read_rows(t, ls, i + 1, end, used + cost, false)
        }
    }
}

fn read_range(t: &ToolTexts, ls: &Vec<String>, start: usize, end: usize) -> (r: Vec<String>)
    requires
        prompt::texts_sound(*t),
        start <= end <= ls@.len(),
    ensures
        text::texts(r@) == read_rows(*t, text::texts(ls@), start as int, end as int, 0, true),
        r@.len() <= end - start,
{
    let ghost lv = text::texts(ls@);
    let ghost all = read_rows(*t, lv, start as int, end as int, 0, true);
    let ghost mut spent: int = 0;
    let mut rows: Vec<String> = Vec::new();
    let mut used: usize = 0;
    let mut i: usize = start;
    let mut more = true;
    assert(text::texts(rows@) + all =~= all);
    while more && i < end
        invariant
            start <= i <= end <= ls@.len(),
            prompt::texts_sound(*t),
            lv == text::texts(ls@),
            all == read_rows(*t, lv, start as int, end as int, 0, true),
            more ==> text::texts(rows@) + read_rows(
                *t,
                lv,
                i as int,
                end as int,
                spent,
                rows@.len() == 0,
            ) == all,
            !more ==> text::texts(rows@) == all,
            rows@.len() == i - start,
            spent >= 0,
            used <= MAX_READ_CHARS,
            used == spent || (used == MAX_READ_CHARS && spent >= MAX_READ_CHARS),
        decreases end - i, if more { 1int } else { 0 },
    {
        assert(lv[i as int] == ls@[i as int]@);
        let (text, cut) = truncate_chars(ls[i].as_str(), MAX_READ_LINE_CHARS);
        assert(i < ls.len());
        let head = fill2(
            t.read_line.as_str(),
            "n",
            dec_usize(i + 1).as_str(),
            "line",
            text.as_str(),
        );
        let row = if cut {
            cat2(
                head.as_str(),
                fill1(
                    t.read_line_capped.as_str(),
                    "limit",
                    dec_usize(MAX_READ_LINE_CHARS).as_str(),
                ).as_str(),
            )
        } else {
            head
        };
        assert(row@ =~= read_row(*t, i + 1, lv[i as int]));
        let len = row.as_str().unicode_len();
        if rows.len() > 0 && (used >= MAX_READ_CHARS || len >= MAX_READ_CHARS - used) {
            assert(text::texts(rows@) + Seq::<Seq<char>>::empty() =~= text::texts(rows@));
            more = false;
        } else {
            let ghost prev = rows@;
            used = if len < MAX_READ_CHARS && used < MAX_READ_CHARS - len {
                used + len + 1
            } else {
                MAX_READ_CHARS
            };
            proof {
                spent = spent + len + 1;
            }
            rows.push(row);
            proof {
                text::lemma_texts_push(prev, row);
                let rest = read_rows(*t, lv, i + 1, end as int, spent, false);
                assert(text::texts(prev) + (seq![row@] + rest) =~= text::texts(rows@) + rest);
            }
            i = i + 1;
        }
    }
    assert(text::texts(rows@) + Seq::<Seq<char>>::empty() =~= text::texts(rows@));
    rows
}

pub open spec fn offset_of(args: JsonV) -> nat {
    match args.natural_at("offset"@) {
        Some(n) => if n == 0 {
            1
        } else {
            n
        },
        None => 1,
    }
}

pub open spec fn limit_of(args: JsonV, total: nat) -> nat {
    let n = match args.natural_at("limit"@) {
        Some(n) => n,
        None => total,
    };
    if n == 0 {
        1
    } else {
        n
    }
}

/// What a read says and what is known after it.
pub open spec fn read_result(
    t: ToolTexts,
    obs: Seq<(Seq<char>, SeenV)>,
    args: JsonV,
    name: Seq<char>,
    path: Seq<char>,
    got: FileRead,
) -> (Seq<char>, Seq<(Seq<char>, SeenV)>) {
    let ls = text::lines_of(got.text@);
    let total = ls.len();
    let offset = offset_of(args);
    let hash = fingerprint(got.text@);
    if offset > total {
        (
            read_head(
                t,
                name,
                got,
                prompt::filled(t.read_past_end@, seq![("total"@, text::decimal(total))]),
            ),
            after_read(obs, path, false, t.read_partial_none@, hash),
        )
    } else {
        let start = offset - 1;
        let limit = limit_of(args, total);
        let end = if start + limit < total {
            start + limit
        } else {
            total as int
        };
        let rows = read_rows(t, ls, start, end, 0, true);
        let to = (start + rows.len()) as nat;
        let complete = !got.cut && !got.lossy && offset == 1 && to == total;
        let why = if got.lossy {
            t.read_partial_lossy@
        } else if got.cut {
            t.read_partial_cut@
        } else {
            prompt::filled(
                t.read_partial_range@,
                seq![
                    ("from"@, text::decimal(offset)),
                    ("to"@, text::decimal(to)),
                    ("total"@, text::decimal(total)),
                ],
            )
        };
        let tail = if got.cut {
            prompt::filled(t.read_more_cut@, seq![("from"@, text::decimal(offset)), ("to"@, text::decimal(to))])
        } else if to < total {
            prompt::filled(
                t.read_more@,
                seq![
                    ("from"@, text::decimal(offset)),
                    ("to"@, text::decimal(to)),
                    ("total"@, text::decimal(total)),
                    ("next"@, text::decimal(to + 1)),
                ],
            )
        } else {
            prompt::filled(t.read_end@, seq![("total"@, text::decimal(total))])
        };
        let out = read_head(t, name, got, text::joined(rows, "\n"@)) + "\n"@ + tail;
        (
            if got.lossy {
                out + "\n"@ + t.lossy_note@
            } else {
                out
            },
            after_read(obs, path, complete, why, hash),
        )
    }
}

pub open spec fn read_head(t: ToolTexts, name: Seq<char>, got: FileRead, body: Seq<char>) -> Seq<
    char,
> {
    prompt::filled(
        t.read_header@,
        seq![("path"@, name), ("bytes"@, text::decimal(got.bytes as nat)), ("text"@, body)],
    )
}

fn head_of_read(t: &ToolTexts, name: &str, got: &FileRead, body: &str) -> (r: String)
    requires
        prompt::texts_sound(*t),
    ensures
        r@ == read_head(*t, name@, *got, body@),
{
    fill3(
        t.read_header.as_str(),
        "path",
        name,
        "bytes",
        dec_usize(got.bytes).as_str(),
        "text",
        body,
    )
}

/// `read` on a file that was read: the lines asked for, numbered, and where to go on.
/// What is seen of the file is noted.
pub fn read(
    t: &ToolTexts,
    obs: &mut Observations,
    args: &Json,
    name: &str,
    path: &RealPath,
    got: &FileRead,
) -> (r: ToolOutcome)
    requires
        prompt::texts_sound(*t),
    ensures
        ({
            let want = read_result(*t, old(obs)@, args@, name@, path.text@, *got);
            outcome(r) == (true, want.0) && final(obs)@ == want.1
        }),
{
    let ls = lines(got.text.as_str());
    let total = ls.len();
    assert(text::lines_of(got.text@).len() == total);
    let offset: u64 = match args.u64_at("offset") {
        Some(n) => if n == 0 {
            1
        } else {
            n
        },
        None => 1,
    };
    let hash = fnv1a(got.text.as_str());
    if offset > total as u64 {
        obs.note_read(path, false, t.read_partial_none.as_str(), hash);
        let note = fill1(t.read_past_end.as_str(), "total", dec_usize(total).as_str());
        return succeed(head_of_read(t, name, got, note.as_str()));
    }
    let limit: u64 = match args.u64_at("limit") {
        Some(n) => n,
        None => total as u64,
    };
    let limit: u64 = if limit == 0 {
        1
    } else {
        limit
    };
    let start: usize = offset as usize - 1;
    let end: usize = if limit < (total - start) as u64 {
        start + limit as usize
    } else {
        total
    };
    let rows = read_range(t, &ls, start, end);
    assert(text::texts(rows@).len() == rows@.len());
    let to: usize = start + rows.len();
    let offset: usize = start + 1;
    let complete = !got.cut && !got.lossy && offset == 1 && to == total;
    let why = if got.lossy {
        t.read_partial_lossy.clone()
    } else if got.cut {
        t.read_partial_cut.clone()
    } else {
        fill3(
            t.read_partial_range.as_str(),
            "from",
            dec_usize(offset).as_str(),
            "to",
            dec_usize(to).as_str(),
            "total",
            dec_usize(total).as_str(),
        )
    };
    obs.note_read(path, complete, why.as_str(), hash);
    let head = head_of_read(t, name, got, join(&rows, "\n").as_str());
    let tail = if got.cut {
        fill2(
            t.read_more_cut.as_str(),
            "from",
            dec_usize(offset).as_str(),
            "to",
            dec_usize(to).as_str(),
        )
    } else if to < total {
        fill4(
            t.read_more.as_str(),
            "from",
            dec_usize(offset).as_str(),
            "to",
            dec_usize(to).as_str(),
            "total",
            dec_usize(total).as_str(),
            "next",
            dec_usize(to + 1).as_str(),
        )
    } else {
        fill1(t.read_end.as_str(), "total", dec_usize(total).as_str())
    };
    let out = cat3(head.as_str(), "\n", tail.as_str());
    if got.lossy {
        return succeed(cat3(out.as_str(), "\n", t.lossy_note.as_str()));
    }
    succeed(out)
}


// ---- writing a file whole ----

/// Why a file may not be overwritten whole, if it may not: it was not read whole,
/// or has changed since.
pub open spec fn overwrite_fault(
    t: ToolTexts,
    obs: Seq<(Seq<char>, SeenV)>,
    name: Seq<char>,
    path: Seq<char>,
    current: Seq<char>,
) -> Option<Seq<char>> {
    match known_in(obs, path) {
        Some(h) => if h == fingerprint(current) {
            None
        } else {
            Some(prompt::filled(t.write_stale@, seq![("path"@, name)]))
        },
        None => Some(
            match part_in(obs, path) {
                Some(why) => prompt::filled(t.write_partial@, seq![("path"@, name), ("why"@, why)]),
                None => prompt::filled(t.write_need_read@, seq![("path"@, name)]),
            },
        ),
    }
}

/// Whether a file may be overwritten whole.
pub fn overwrite_check(
    t: &ToolTexts,
    obs: &Observations,
    name: &str,
    path: &RealPath,
    current: &str,
) -> (r: Result<(), String>)
    requires
        prompt::texts_sound(*t),
    ensures
        match r {
            Ok(_) => overwrite_fault(*t, obs@, name@, path.text@, current@) is None,
            Err(e) => overwrite_fault(*t, obs@, name@, path.text@, current@) == Some(e@),
        },
{
    match obs.known(path) {
        Some(h) => if h == fnv1a(current) {
            Ok(())
        } else {
            Err(fill1(t.write_stale.as_str(), "path", name))
        },
        None => match obs.partial_why(path) {
            Some(why) => Err(
                fill2(t.write_partial.as_str(), "path", name, "why", why.as_str()),
            ),
            None => Err(fill1(t.write_need_read.as_str(), "path", name)),
        },
    }
}

/// Why a write is refused, if it is, given what reading the file gave. Where it
/// cannot be read there is nothing to lose.
pub open spec fn write_fault(
    t: ToolTexts,
    obs: Seq<(Seq<char>, SeenV)>,
    name: Seq<char>,
    path: Seq<char>,
    got: Result<FileRead, String>,
) -> Option<Seq<char>> {
    match got {
        Ok(g) => overwrite_fault(t, obs, name, path, g.text@),
        Err(_) => None,
    }
}

pub fn write_check(
    t: &ToolTexts,
    obs: &Observations,
    name: &str,
    path: &RealPath,
    got: &Result<FileRead, String>,
) -> (r: Result<(), String>)
    requires
        prompt::texts_sound(*t),
    ensures
        match r {
            Ok(_) => write_fault(*t, obs@, name@, path.text@, *got) is None,
            Err(e) => write_fault(*t, obs@, name@, path.text@, *got) == Some(e@),
        },
{
    match got {
        Ok(g) => overwrite_check(t, obs, name, path, g.text.as_str()),
        Err(_) => Ok(()),
    }
}

pub open spec fn module_note(t: ToolTexts, place: PlaceV) -> Seq<char> {
    match place {
        PlaceV::Module(id) => "\n"@ + prompt::filled(
            t.write_module_note@,
            seq![("mark"@, MODULE_WRITE_MARK@), ("id"@, id)],
        ),
        _ => Seq::empty(),
    }
}

fn note_of_module(t: &ToolTexts, place: &Place) -> (r: String)
    requires
        prompt::texts_sound(*t),
    ensures
        r@ == module_note(*t, place@),
{
    match place {
        Place::Module(id) => cat2(
            "\n",
            fill2(
                t.write_module_note.as_str(),
                "mark",
                MODULE_WRITE_MARK,
                "id",
                id.as_str(),
            ).as_str(),
        ),
        _ => String::new(),
    }
}

/// What a write that was let through says, and what is known after it.
pub open spec fn write_result(
    t: ToolTexts,
    obs: Seq<(Seq<char>, SeenV)>,
    content: Seq<char>,
    name: Seq<char>,
    path: Seq<char>,
    place: PlaceV,
    wrote: Result<(), String>,
) -> ((bool, Seq<char>), Seq<(Seq<char>, SeenV)>) {
    match wrote {
        Err(e) => ((false, e@), obs),
        Ok(_) => (
            (
                true,
                prompt::filled(
                    t.write_header@,
                    seq![("path"@, name), ("chars"@, text::decimal(content.len()))],
                ) + module_note(t, place),
            ),
            table::inserted(obs, path, SeenV::Known(fingerprint(content))),
        ),
    }
}

/// The end of a `write`, given what writing the file gave.
pub fn write(
    t: &ToolTexts,
    obs: &mut Observations,
    content: &str,
    name: &str,
    path: &RealPath,
    place: &Place,
    wrote: Result<(), String>,
) -> (r: ToolOutcome)
    requires
        prompt::texts_sound(*t),
    ensures
        (outcome(r), final(obs)@) == write_result(
            *t,
            old(obs)@,
            content@,
            name@,
            path.text@,
            place@,
            wrote,
        ),
{
    match wrote {
        Err(e) => fail(e),
        Ok(_) => {
            obs.note_written(path, fnv1a(content));
            let head = fill2(
                t.write_header.as_str(),
                "path",
                name,
                "chars",
                dec_usize(content.unicode_len()).as_str(),
            );
            succeed(cat2(head.as_str(), note_of_module(t, place).as_str()))
        },
    }
}

// ---- editing ----

pub open spec fn number_texts(v: Seq<char>, at: Seq<int>) -> Seq<Seq<char>> {
    at.map_values(|i: int| text::decimal(line_number(v, i)))
}

/// What an edit makes of a file, with how many places it replaced, or why it does not.
pub open spec fn edit_result(t: ToolTexts, args: JsonV, name: Seq<char>, got: FileRead) -> Result<
    (Seq<char>, nat),
    Seq<char>,
> {
    let old_text = args.text_or_empty("old_string"@);
    let new_text = args.text_or_empty("new_string"@);
    let all = args.flag_at("replace_all"@);
    let hay = got.text@;
    let at = places_from(hay, old_text, 0);
    if old_text == new_text {
        Err(t.edit_same@)
    } else if got.cut {
        Err(prompt::filled(t.edit_file_cut@, seq![("path"@, name)]))
    } else if got.lossy {
        Err(prompt::filled(t.edit_file_lossy@, seq![("path"@, name)]))
    } else if at.len() == 0 {
        let why = prompt::filled(t.edit_no_match@, seq![("total"@, text::decimal(text::lines_of(hay).len()))]);
        Err(
            match patch::miss(text::lines_of(hay), text::lines_of(old_text)) {
                EditFaultV::NearMiss { line, actual } => why + "\n"@ + prompt::filled(
                    t.edit_no_match_near@,
                    seq![("line"@, text::decimal(line as nat)), ("actual"@, actual)],
                ),
                _ => why,
            },
        )
    } else if at.len() > 1 && !all {
        Err(
            prompt::filled(
                t.edit_multi@,
                seq![
                    ("n"@, text::decimal(at.len())),
                    ("lines"@, text::joined(number_texts(hay, at), "、"@)),
                ],
            ),
        )
    } else if all {
        Ok((replaced_from(hay, old_text, new_text, 0), at.len()))
    } else {
        Ok((hay.take(at[0]) + new_text + hay.skip(at[0] + old_text.len()), 1))
    }
}

fn line_numbers(v: &Vec<char>, at: &Vec<usize>) -> (r: Vec<String>)
    requires
        forall|k: int| 0 <= k < at@.len() ==> #[trigger] at@[k] < v@.len(),
    ensures
        text::texts(r@) == number_texts(v@, patch::numbers(at@)),
{
    let ghost all = number_texts(v@, patch::numbers(at@));
    let mut r: Vec<String> = Vec::new();
    let mut i: usize = 0;
    while i < at.len()
        invariant
            i <= at@.len(),
            forall|k: int| 0 <= k < at@.len() ==> #[trigger] at@[k] < v@.len(),
            all == number_texts(v@, patch::numbers(at@)),
            text::texts(r@) == all.take(i as int),
        decreases at@.len() - i,
    {
        let l = dec_usize(line_of(v, at[i]));
        let ghost prev = r@;
        r.push(l);
        proof {
            text::lemma_texts_push(prev, l);
            assert(all[i as int] == l@);
            assert(text::texts(r@) =~= all.take(i + 1));
        }
        i = i + 1;
    }
    assert(all.take(all.len() as int) =~= all);
    r
}

/// What an `edit` makes of a file that was read: the new content and how many
/// places were replaced, or why nothing is changed.
pub fn edit(t: &ToolTexts, args: &Json, name: &str, got: &FileRead) -> (r: Result<
    (String, usize),
    String,
>)
    requires
        prompt::texts_sound(*t),
    ensures
        match r {
            Ok(x) => edit_result(*t, args@, name@, *got) == Ok::<_, Seq<char>>((x.0@, x.1 as nat)),
            Err(e) => edit_result(*t, args@, name@, *got) == Err::<(Seq<char>, nat), _>(e@),
        },
{
    let old_text = args.str_or_empty("old_string");
    let new_text = args.str_or_empty("new_string");
    let all = args.bool_at("replace_all");
    if str_eq(old_text.as_str(), new_text.as_str()) {
        return Err(t.edit_same.clone());
    }
    if got.cut {
        return Err(fill1(t.edit_file_cut.as_str(), "path", name));
    }
    if got.lossy {
        return Err(fill1(t.edit_file_lossy.as_str(), "path", name));
    }
    let hay = to_chars(got.text.as_str());
    let old_chars = to_chars(old_text.as_str());
    let at = find_all(&hay, &old_chars);
    assert(patch::numbers(at@).len() == at@.len());
    if at.len() == 0 {
        let ls = lines(got.text.as_str());
        assert(text::lines_of(got.text@).len() == ls@.len());
        let why = fill1(t.edit_no_match.as_str(), "total", dec_usize(ls.len()).as_str());
        return Err(
            match near_match(got.text.as_str(), old_text.as_str()) {
                Some((line, actual)) => cat3(
                    why.as_str(),
                    "\n",
                    fill2(
                        t.edit_no_match_near.as_str(),
                        "line",
                        dec_usize(line).as_str(),
                        "actual",
                        actual.as_str(),
                    ).as_str(),
                ),
                None => why,
            },
        );
    }
    if at.len() > 1 && !all {
        let ls = line_numbers(&hay, &at);
        return Err(
            fill2(
                t.edit_multi.as_str(),
                "n",
                dec_usize(at.len()).as_str(),
                "lines",
                join(&ls, "、").as_str(),
            ),
        );
    }
    if all {
        return Ok((replace_all(&hay, &old_chars, new_text.as_str()), at.len()));
    }
    let i: usize = at[0];
    assert(patch::numbers(at@)[0] == i);
    assert(i + old_chars.len() <= hay.len());
    let head = slice(&hay, 0, i);
    let tail = slice(&hay, i + old_chars.len(), hay.len());
    assert(head@ =~= hay@.take(i as int));
    assert(tail@ =~= hay@.skip(i + old_chars@.len()));
    Ok((cat3(head.as_str(), new_text.as_str(), tail.as_str()), 1))
}

/// What an edit that was made says, and what is known after it.
pub open spec fn edited_result(
    t: ToolTexts,
    obs: Seq<(Seq<char>, SeenV)>,
    name: Seq<char>,
    path: Seq<char>,
    out: Seq<char>,
    n: nat,
    wrote: Result<(), String>,
) -> ((bool, Seq<char>), Seq<(Seq<char>, SeenV)>) {
    match wrote {
        Err(e) => ((false, e@), obs),
        Ok(_) => (
            (
                true,
                prompt::filled(
                    t.edit_header@,
                    seq![
                        ("path"@, name),
                        ("n"@, text::decimal(n)),
                        ("lines"@, text::decimal(text::lines_of(out).len())),
                    ],
                ),
            ),
            table::inserted(obs, path, SeenV::Known(fingerprint(out))),
        ),
    }
}

/// The end of an `edit`, given what writing the file gave.
pub fn edit_done(
    t: &ToolTexts,
    obs: &mut Observations,
    name: &str,
    path: &RealPath,
    out: &str,
    n: usize,
    wrote: Result<(), String>,
) -> (r: ToolOutcome)
    requires
        prompt::texts_sound(*t),
    ensures
        (outcome(r), final(obs)@) == edited_result(
            *t,
            old(obs)@,
            name@,
            path.text@,
            out@,
            n as nat,
            wrote,
        ),
{
    match wrote {
        Err(e) => fail(e),
        Ok(_) => {
            obs.note_written(path, fnv1a(out));
            let ls = lines(out);
            assert(text::lines_of(out@).len() == ls@.len());
            succeed(
                fill3(
                    t.edit_header.as_str(),
                    "path",
                    name,
                    "n",
                    dec_usize(n).as_str(),
                    "lines",
                    dec_usize(ls.len()).as_str(),
                ),
            )
        },
    }
}

// ---- searching ----

/// What `str::to_lowercase` makes of a text.
pub uninterp spec fn lowercase_of(s: Seq<char>) -> Seq<char>;

/// `str::to_lowercase`: the text in lower case, by Unicode's tables; it depends on
/// the text alone.
#[verifier::external_body]
fn lowercase(s: &str) -> (r: String)
    ensures
        r@ == lowercase_of(s@),
{
    s.to_lowercase()
}

pub open spec fn folded(s: Seq<char>, fold: bool) -> Seq<char> {
    if fold {
        lowercase_of(s)
    } else {
        s
    }
}

fn fold_case(s: &str, fold: bool) -> (r: String)
    ensures
        r@ == folded(s@, fold),
{
    if fold {
        lowercase(s)
    } else {
        s.to_owned()
    }
}

/// The first `n` lines' positions at which the keyword stands in a line.
pub open spec fn matching(ls: Seq<Seq<char>>, keyword: Seq<char>, fold: bool, n: int) -> Seq<int>
    decreases n,
{
    if n <= 0 {
        Seq::empty()
    } else if text::contains_text(folded(ls[n - 1], fold), folded(keyword, fold)) {
        matching(ls, keyword, fold, n - 1).push(n - 1)
    } else {
        matching(ls, keyword, fold, n - 1)
    }
}

proof fn lemma_matching(ls: Seq<Seq<char>>, keyword: Seq<char>, fold: bool, n: int)
    requires
        0 <= n <= ls.len(),
    ensures
        matching(ls, keyword, fold, n).len() <= n,
        forall|k: int|
            0 <= k < matching(ls, keyword, fold, n).len() ==> 0 <= #[trigger] matching(
                ls,
                keyword,
                fold,
                n,
            )[k] < n,
    decreases n,
{
    if n > 0 {
        lemma_matching(ls, keyword, fold, n - 1);
    }
}

/// The lines of the first `n` hits, each on a line of its own.
pub open spec fn hit_text(t: ToolTexts, ls: Seq<Seq<char>>, at: Seq<int>, n: int) -> Seq<char>
    decreases n,
{
    if n <= 0 {
        Seq::empty()
    } else {
        hit_text(t, ls, at, n - 1) + "\n"@ + prompt::filled(
            t.search_hit_line@,
            seq![
                ("n"@, text::decimal((at[n - 1] + 1) as nat)),
                ("line"@, clip(ls[at[n - 1]], MAX_SEARCH_LINE_CHARS as int)),
            ],
        )
    }
}

pub open spec fn below(b: bool, s: Seq<char>) -> Seq<char> {
    if b {
        "\n"@ + s
    } else {
        Seq::empty()
    }
}

/// What a search says.
pub open spec fn search_text(t: ToolTexts, args: JsonV, name: Seq<char>, got: FileRead) -> Seq<
    char,
> {
    let keyword = args.text_or_empty("keyword"@);
    let fold = args.flag_at("ignore_case"@);
    let ls = text::lines_of(got.text@);
    let at = matching(ls, keyword, fold, ls.len() as int);
    let kept: int = if at.len() < MAX_SEARCH_HITS {
        at.len() as int
    } else {
        MAX_SEARCH_HITS as int
    };
    prompt::filled(
        t.search_header@,
        seq![
            ("path"@, name),
            ("keyword"@, keyword),
            (
                "mode"@,
                if fold {
                    t.search_mode_insensitive@
                } else {
                    t.search_mode_sensitive@
                },
            ),
        ],
    ) + below(at.len() == 0, t.search_no_hits@) + hit_text(t, ls, at, kept) + below(
        true,
        prompt::filled(
            t.search_summary@,
            seq![("hits"@, text::decimal(at.len())), ("total"@, text::decimal(ls.len()))],
        ),
    ) + below(
        at.len() > MAX_SEARCH_HITS,
        prompt::filled(t.search_truncated@, seq![("limit"@, text::decimal(MAX_SEARCH_HITS as nat))]),
    ) + below(got.lossy, t.lossy_note@) + below(got.cut, t.search_truncated_bytes@)
}

fn add_below(out: String, b: bool, s: &str) -> (r: String)
    ensures
        r@ == out@ + below(b, s@),
{
    if b {
        let r = cat3(out.as_str(), "\n", s);
        assert(r@ =~= out@ + ("\n"@ + s@));
        r
    } else {
        assert(out@ + Seq::<char>::empty() =~= out@);
        out
    }
}

/// `search` on a file that was read: the lines with the keyword, numbered, how many
/// there are, and what was left out.
pub fn search(t: &ToolTexts, args: &Json, name: &str, got: &FileRead) -> (r: String)
    requires
        prompt::texts_sound(*t),
    ensures
        r@ == search_text(*t, args@, name@, *got),
{
    let keyword = args.str_or_empty("keyword");
    let fold = args.bool_at("ignore_case");
    let ls = lines(got.text.as_str());
    let ghost lv = text::lines_of(got.text@);
    assert(lv.len() == ls@.len());
    let needle = fold_case(keyword.as_str(), fold);
    let mut hits: Vec<usize> = Vec::new();
    let mut i: usize = 0;
    assert(patch::numbers(hits@) =~= matching(lv, keyword@, fold, 0));
    while i < ls.len()
        invariant
            i <= ls@.len(),
            lv == text::texts(ls@),
            needle@ == folded(keyword@, fold),
            patch::numbers(hits@) == matching(lv, keyword@, fold, i as int),
        decreases ls@.len() - i,
    {
        assert(lv[i as int] == ls@[i as int]@);
        let hay = fold_case(ls[i].as_str(), fold);
        if has_sub(hay.as_str(), needle.as_str()) {
            let ghost prev = hits@;
            hits.push(i);
            assert(patch::numbers(hits@) =~= patch::numbers(prev).push(i as int));
        }
        i = i + 1;
    }
    let ghost at = matching(lv, keyword@, fold, lv.len() as int);
    proof {
        lemma_matching(lv, keyword@, fold, lv.len() as int);
        assert(patch::numbers(hits@).len() == hits@.len());
    }
    let kept: usize = if hits.len() < MAX_SEARCH_HITS {
        hits.len()
    } else {
        MAX_SEARCH_HITS
    };
    let mut listed = String::new();
    let mut k: usize = 0;
    assert(listed@ =~= hit_text(*t, lv, at, 0));
    while k < kept
        invariant
            k <= kept <= hits@.len(),
            prompt::texts_sound(*t),
            lv == text::texts(ls@),
            at == patch::numbers(hits@),
            forall|j: int| 0 <= j < at.len() ==> 0 <= #[trigger] at[j] < lv.len(),
            listed@ == hit_text(*t, lv, at, k as int),
        decreases kept - k,
    {
        let n = hits[k];
        assert(at[k as int] == n);
        assert(n < ls.len());
        assert(lv[n as int] == ls@[n as int]@);
        let l = fill2(
            t.search_hit_line.as_str(),
            "n",
            dec_usize(n + 1).as_str(),
            "line",
            truncate_chars(ls[n].as_str(), MAX_SEARCH_LINE_CHARS).0.as_str(),
        );
        listed = cat3(listed.as_str(), "\n", l.as_str());
        k = k + 1;
    }
    let head = fill3(
        t.search_header.as_str(),
        "path",
        name,
        "keyword",
        keyword.as_str(),
        "mode",
        if fold {
            t.search_mode_insensitive.as_str()
        } else {
            t.search_mode_sensitive.as_str()
        },
    );
    let out = add_below(head, hits.len() == 0, t.search_no_hits.as_str());
    let out = cat2(out.as_str(), listed.as_str());
    let summary = fill2(
        t.search_summary.as_str(),
        "hits",
        dec_usize(hits.len()).as_str(),
        "total",
        dec_usize(ls.len()).as_str(),
    );
    let out = add_below(out, true, summary.as_str());
    let more = fill1(
        t.search_truncated.as_str(),
        "limit",
        dec_usize(MAX_SEARCH_HITS).as_str(),
    );
    let out = add_below(out, hits.len() > MAX_SEARCH_HITS, more.as_str());
    let out = add_below(out, got.lossy, t.lossy_note.as_str());
    add_below(out, got.cut, t.search_truncated_bytes.as_str())
}


// ---- patching ----

pub open spec fn patch_fault_text(t: ToolTexts, f: FaultV) -> Seq<char> {
    match f {
        FaultV::NoBlocks => t.patch_no_blocks@,
        FaultV::UnknownMarker { line, text } => prompt::filled(
            t.patch_unknown_marker@,
            seq![("line"@, text::decimal(line as nat)), ("text"@, text)],
        ),
        FaultV::MissingPath { line, marker } => prompt::filled(
            t.patch_missing_path@,
            seq![("line"@, text::decimal(line as nat)), ("marker"@, marker)],
        ),
        FaultV::EmptyAdd { line } => prompt::filled(
            t.patch_empty_add@,
            seq![("line"@, text::decimal(line as nat))],
        ),
        FaultV::EmptyUpdate { line } => prompt::filled(
            t.patch_empty_update@,
            seq![("line"@, text::decimal(line as nat))],
        ),
        FaultV::EmptySearch { line } => prompt::filled(
            t.patch_empty_search@,
            seq![("line"@, text::decimal(line as nat))],
        ),
        FaultV::MissingEnd { line } => prompt::filled(
            t.patch_missing_end@,
            seq![("line"@, text::decimal(line as nat))],
        ),
        FaultV::SearchWithoutReplace { line } => prompt::filled(
            t.patch_search_no_replace@,
            seq![("line"@, text::decimal(line as nat))],
        ),
        FaultV::ReplaceWithoutSearch { line } => prompt::filled(
            t.patch_replace_no_search@,
            seq![("line"@, text::decimal(line as nat))],
        ),
    }
}

/// What the model is told of a patch text that cannot be parsed.
pub fn patch_fault(t: &ToolTexts, f: &Fault) -> (r: String)
    requires
        prompt::texts_sound(*t),
    ensures
        r@ == patch_fault_text(*t, f@),
{
    match f {
        Fault::NoBlocks => t.patch_no_blocks.clone(),
        Fault::UnknownMarker { line, text } => fill2(
            t.patch_unknown_marker.as_str(),
            "line",
            dec_usize(*line).as_str(),
            "text",
            text.as_str(),
        ),
        Fault::MissingPath { line, marker } => fill2(
            t.patch_missing_path.as_str(),
            "line",
            dec_usize(*line).as_str(),
            "marker",
            marker.as_str(),
        ),
        Fault::EmptyAdd { line } => fill1(
            t.patch_empty_add.as_str(),
            "line",
            dec_usize(*line).as_str(),
        ),
        Fault::EmptyUpdate { line } => fill1(
            t.patch_empty_update.as_str(),
            "line",
            dec_usize(*line).as_str(),
        ),
        Fault::EmptySearch { line } => fill1(
            t.patch_empty_search.as_str(),
            "line",
            dec_usize(*line).as_str(),
        ),
        Fault::MissingEnd { line } => fill1(
            t.patch_missing_end.as_str(),
            "line",
            dec_usize(*line).as_str(),
        ),
        Fault::SearchWithoutReplace { line } => fill1(
            t.patch_search_no_replace.as_str(),
            "line",
            dec_usize(*line).as_str(),
        ),
        Fault::ReplaceWithoutSearch { line } => fill1(
            t.patch_replace_no_search.as_str(),
            "line",
            dec_usize(*line).as_str(),
        ),
    }
}

pub open spec fn decimals(v: Seq<int>) -> Seq<Seq<char>> {
    v.map_values(|n: int| text::decimal(n as nat))
}

pub open spec fn edit_fault_text(t: ToolTexts, f: EditFaultV) -> Seq<char> {
    match f {
        EditFaultV::NotFound { total } => prompt::filled(
            t.patch_not_found@,
            seq![("total"@, text::decimal(total as nat))],
        ),
        EditFaultV::Multiple { lines } => prompt::filled(
            t.patch_multiple@,
            seq![("n"@, text::decimal(lines.len())), ("lines"@, text::joined(decimals(lines), "、"@))],
        ),
        EditFaultV::NearMiss { line, actual } => prompt::filled(
            t.patch_near@,
            seq![("line"@, text::decimal(line as nat)), ("actual"@, actual)],
        ),
    }
}

/// Why one edit of a patch fails.
pub fn edit_fault_reason(t: &ToolTexts, f: &EditFault) -> (r: String)
    requires
        prompt::texts_sound(*t),
    ensures
        r@ == edit_fault_text(*t, f@),
{
    match f {
        EditFault::NotFound { total } => fill1(
            t.patch_not_found.as_str(),
            "total",
            dec_usize(*total).as_str(),
        ),
        EditFault::Multiple { lines } => {
            let ghost all = decimals(patch::numbers(lines@));
            let mut ls: Vec<String> = Vec::new();
            let mut i: usize = 0;
            while i < lines.len()
                invariant
                    i <= lines@.len(),
                    all == decimals(patch::numbers(lines@)),
                    text::texts(ls@) == all.take(i as int),
                decreases lines@.len() - i,
            {
                let l = dec_usize(lines[i]);
                let ghost prev = ls@;
                ls.push(l);
                proof {
                    text::lemma_texts_push(prev, l);
                    assert(all[i as int] == l@);
                    assert(text::texts(ls@) =~= all.take(i + 1));
                }
                i = i + 1;
            }
            assert(all.take(all.len() as int) =~= all);
            fill2(
                t.patch_multiple.as_str(),
                "n",
                dec_usize(lines.len()).as_str(),
                "lines",
                join(&ls, "、").as_str(),
            )
        },
        EditFault::NearMiss { line, actual } => fill2(
            t.patch_near.as_str(),
            "line",
            dec_usize(*line).as_str(),
            "actual",
            actual.as_str(),
        ),
    }
}

pub open spec fn block_fault_text(t: ToolTexts, n: nat, why: Seq<char>) -> Seq<char> {
    prompt::filled(t.patch_block_fault@, seq![("n"@, text::decimal(n)), ("why"@, why)])
}

/// What the model is told of a block that does not hold.
pub fn block_fault(t: &ToolTexts, n: usize, why: &str) -> (r: String)
    requires
        prompt::texts_sound(*t),
    ensures
        r@ == block_fault_text(*t, n as nat, why@),
{
    fill2(t.patch_block_fault.as_str(), "n", dec_usize(n).as_str(), "why", why)
}

/// A content with the line ending of the file it replaces.
pub open spec fn aligned(content: Seq<char>, current: Seq<char>) -> Seq<char> {
    if text::contains_text(current, "\r\n"@) {
        replaced_from(content, "\n"@, "\r\n"@, 0)
    } else {
        content
    }
}

pub fn align_eol(content: &str, current: &str) -> (r: String)
    ensures
        r@ == aligned(content@, current@),
{
    if has_sub(current, "\r\n") {
        proof {
            reveal_strlit("\n");
        }
        replace_all(&to_chars(content), &to_chars("\n"), "\r\n")
    } else {
        content.to_owned()
    }
}

/// What the blocks of a patch that were gone through come to. Nothing is written
/// before all of them hold.
#[derive(Debug)]
pub struct PatchRun {
    /// The files that change, in the order they first came up.
    pub order: Vec<RealPath>,
    /// Where they lie.
    pub places: Vec<Place>,
    /// Their new contents, by path.
    pub pending: Table<String>,
    /// A line for each block.
    pub lines: Vec<String>,
}

#[verifier::ext_equal]
pub struct PatchV {
    pub order: Seq<Seq<char>>,
    /// The same files as paths.
    pub at: Seq<PathV>,
    pub places: Seq<PlaceV>,
    pub pending: Seq<(Seq<char>, Seq<char>)>,
    pub lines: Seq<Seq<char>>,
}

pub open spec fn path_texts(v: Seq<RealPath>) -> Seq<Seq<char>> {
    v.map_values(|p: RealPath| p.text@)
}

pub open spec fn places_v(v: Seq<Place>) -> Seq<PlaceV> {
    v.map_values(|p: Place| p@)
}

impl View for PatchRun {
    type V = PatchV;

    open spec fn view(&self) -> PatchV {
        PatchV {
            order: path_texts(self.order@),
            at: workspace::paths_v(self.order@),
            places: places_v(self.places@),
            pending: table::text_entries(self.pending@),
            lines: text::texts(self.lines@),
        }
    }
}

pub open spec fn patch_start() -> PatchV {
    PatchV {
        order: Seq::empty(),
        at: Seq::empty(),
        places: Seq::empty(),
        pending: Seq::empty(),
        lines: Seq::empty(),
    }
}

/// What a block sees of its file: what an earlier block made of it, or what was read.
pub open spec fn block_source(st: PatchV, path: Seq<char>, read: Option<FileRead>) -> Option<
    (Seq<char>, bool, bool),
> {
    match table::lookup(st.pending, path) {
        Some(s) => Some((s, false, false)),
        None => match read {
            Some(g) => Some((g.text@, g.cut, g.lossy)),
            None => None,
        },
    }
}

/// A block's new content and line, or what the model is told of why it does not hold.
pub open spec fn block_result(
    t: ToolTexts,
    obs: Seq<(Seq<char>, SeenV)>,
    n: nat,
    b: BlockV,
    path: Seq<char>,
    source: Option<(Seq<char>, bool, bool)>,
) -> Result<(Seq<char>, Seq<char>), Seq<char>> {
    let name = b.path();
    match b {
        BlockV::Add { content, .. } => {
            let vars = seq![("path"@, name), ("chars"@, text::decimal(content.len()))];
            match source {
                Some(s) => match overwrite_fault(t, obs, name, path, s.0) {
                    Some(why) => Err(block_fault_text(t, n, why)),
                    None => Ok((aligned(content, s.0), prompt::filled(t.patch_block_overwrite@, vars))),
                },
                None => Ok((content, prompt::filled(t.patch_block_add@, vars))),
            }
        },
        BlockV::Update { edits, .. } => match source {
            None => Err(
                block_fault_text(t, n, prompt::filled(t.patch_file_missing@, seq![("path"@, name)])),
            ),
            Some(s) => if s.1 {
                Err(block_fault_text(t, n, prompt::filled(t.edit_file_cut@, seq![("path"@, name)])))
            } else if s.2 {
                Err(block_fault_text(t, n, prompt::filled(t.edit_file_lossy@, seq![("path"@, name)])))
            } else {
                match patch::edited(s.0, edits) {
                    Ok(new_text) => Ok(
                        (
                            new_text,
                            prompt::filled(
                                t.patch_block_update@,
                                seq![("path"@, name), ("n"@, text::decimal(edits.len()))],
                            ),
                        ),
                    ),
                    Err(e) => Err(
                        prompt::filled(
                            t.patch_edit_fault@,
                            seq![
                                ("n"@, text::decimal(n)),
                                ("k"@, text::decimal(e.0 as nat)),
                                ("path"@, name),
                                ("why"@, edit_fault_text(t, e.1)),
                            ],
                        ),
                    ),
                }
            },
        },
    }
}

/// What the blocks come to with one more, the `n`th.
pub open spec fn patch_step(
    t: ToolTexts,
    obs: Seq<(Seq<char>, SeenV)>,
    st: PatchV,
    n: nat,
    b: BlockV,
    place: PlaceV,
    at: PathV,
    read: Option<FileRead>,
) -> Result<PatchV, Seq<char>> {
    let path = at.text;
    match block_result(t, obs, n, b, path, block_source(st, path, read)) {
        Err(e) => Err(e),
        Ok(x) => {
            let known = st.order.contains(path);
            Ok(
                PatchV {
                    order: if known {
                        st.order
                    } else {
                        st.order.push(path)
                    },
                    at: if known {
                        st.at
                    } else {
                        st.at.push(at)
                    },
                    places: if known {
                        st.places
                    } else {
                        st.places.push(place)
                    },
                    pending: table::inserted(st.pending, path, x.0),
                    lines: st.lines.push(x.1),
                },
            )
        },
    }
}

/// What holds of a patch at every step: each file that changes has a place and a
/// new content, and comes up once.
pub open spec fn patch_wf(st: PatchV) -> bool {
    &&& table::ascending(st.pending)
    &&& st.order.len() == st.places.len()
    &&& st.at.len() == st.order.len()
    &&& forall|k: int| 0 <= k < st.at.len() ==> (#[trigger] st.at[k]).text == st.order[k]
    &&& st.order.no_duplicates()
    &&& forall|k: int| 0 <= k < st.order.len() ==> table::lookup(st.pending, #[trigger] st.order[k]) is Some
}

/// A block that holds keeps the patch well formed.
pub proof fn blocks_keep_the_patch_sound(
    t: ToolTexts,
    obs: Seq<(Seq<char>, SeenV)>,
    st: PatchV,
    n: nat,
    b: BlockV,
    place: PlaceV,
    at: PathV,
    read: Option<FileRead>,
)
    requires
        patch_wf(st),
    ensures
        match patch_step(t, obs, st, n, b, place, at, read) {
            Ok(s) => patch_wf(s),
            Err(_) => true,
        },
{
    let path = at.text;
    match patch_step(t, obs, st, n, b, place, at, read) {
        Ok(s) => {
            let x = block_result(t, obs, n, b, path, block_source(st, path, read))->Ok_0;
            table::inserting(st.pending, path, x.0);
            assert forall|k: int| 0 <= k < s.order.len() implies table::lookup(
                s.pending,
                #[trigger] s.order[k],
            ) is Some by {
                if s.order[k] != path {
                    assert(st.order[k] == s.order[k]);
                }
            }
            if !st.order.contains(path) {
                assert forall|i: int, j: int|
                    0 <= i < s.order.len() && 0 <= j < s.order.len() && i != j implies s.order[i]
                    != s.order[j] by {
                    if i < st.order.len() && j < st.order.len() {
                        assert(st.order[i] == s.order[i] && st.order[j] == s.order[j]);
                    } else if i < st.order.len() {
                        assert(st.order[i] == s.order[i]);
                        assert(st.order.contains(st.order[i]));
                    } else {
                        assert(st.order[j] == s.order[j]);
                        assert(st.order.contains(st.order[j]));
                    }
                }
            }
        },
        Err(_) => {},
    }
}

impl PatchRun {
    pub fn new() -> (r: PatchRun)
        ensures
            r@ == patch_start(),
    {
        let r = PatchRun {
            order: Vec::new(),
            places: Vec::new(),
            pending: Table::new(),
            lines: Vec::new(),
        };
        assert(r@ =~= patch_start());
        r
    }

    /// The new content of a file an earlier block changed.
    pub fn content(&self, path: &str) -> (r: Option<&str>)
        ensures
            match r {
                Some(s) => table::lookup(self@.pending, path@) == Some(s@),
                None => table::lookup(self@.pending, path@) is None,
            },
    {
        get_text(&self.pending, path)
    }

    fn has(&self, path: &str) -> (r: bool)
        ensures
            r == self@.order.contains(path@),
    {
        let mut i: usize = 0;
        while i < self.order.len()
            invariant
                i <= self.order@.len(),
                forall|k: int| 0 <= k < i ==> (#[trigger] self.order@[k]).text@ != path@,
            decreases self.order@.len() - i,
        {
            if str_eq(self.order[i].text.as_str(), path) {
                assert(self@.order[i as int] == path@);
                return true;
            }
            i = i + 1;
        }
        proof {
            if self@.order.contains(path@) {
                let k = choose|k: int| 0 <= k < self@.order.len() && self@.order[k] == path@;
                assert(self.order@[k].text@ == path@);
            }
        }
        false
    }

    fn evaluate(
        &self,
        t: &ToolTexts,
        obs: &Observations,
        n: usize,
        b: &Block,
        path: &RealPath,
        read: &Option<FileRead>,
    ) -> (r: Result<(String, String), String>)
        requires
            prompt::texts_sound(*t),
        ensures
            match r {
                Ok(x) => block_result(
                    *t,
                    obs@,
                    n as nat,
                    b@,
                    path.text@,
                    block_source(self@, path.text@, *read),
                ) == Ok::<_, Seq<char>>((x.0@, x.1@)),
                Err(e) => block_result(
                    *t,
                    obs@,
                    n as nat,
                    b@,
                    path.text@,
                    block_source(self@, path.text@, *read),
                ) == Err::<(Seq<char>, Seq<char>), _>(e@),
            },
    {
        let source: Option<(String, bool, bool)> = match self.content(path.text.as_str()) {
            Some(s) => Some((s.to_owned(), false, false)),
            None => match read {
                Some(g) => Some((g.text.clone(), g.cut, g.lossy)),
                None => None,
            },
        };
        match b {
            Block::Add { path: name, content } => {
                let chars = dec_usize(content.as_str().unicode_len());
                match source {
                    Some((cur, _, _)) => {
                        match overwrite_check(t, obs, name.as_str(), path, cur.as_str()) {
                            Err(why) => {
                                return Err(block_fault(t, n, why.as_str()));
                            },
                            Ok(_) => {},
                        }
                        Ok(
                            (
                                align_eol(content.as_str(), cur.as_str()),
                                fill2(
                                    t.patch_block_overwrite.as_str(),
                                    "path",
                                    name.as_str(),
                                    "chars",
                                    chars.as_str(),
                                ),
                            ),
                        )
                    },
                    None => Ok(
                        (
                            content.clone(),
                            fill2(
                                t.patch_block_add.as_str(),
                                "path",
                                name.as_str(),
                                "chars",
                                chars.as_str(),
                            ),
                        ),
                    ),
                }
            },
            Block::Update { path: name, edits } => {
                let (cur, cut, lossy) = match source {
                    Some(s) => s,
                    None => {
                        let why = fill1(t.patch_file_missing.as_str(), "path", name.as_str());
                        return Err(block_fault(t, n, why.as_str()));
                    },
                };
                if cut {
                    let why = fill1(t.edit_file_cut.as_str(), "path", name.as_str());
                    return Err(block_fault(t, n, why.as_str()));
                }
                if lossy {
                    let why = fill1(t.edit_file_lossy.as_str(), "path", name.as_str());
                    return Err(block_fault(t, n, why.as_str()));
                }
                assert(patch::edits_v(edits@).len() == edits@.len());
                match apply_edits(cur.as_str(), edits.as_slice()) {
                    Ok(new_text) => Ok(
                        (
                            new_text,
                            fill2(
                                t.patch_block_update.as_str(),
                                "path",
                                name.as_str(),
                                "n",
                                dec_usize(edits.len()).as_str(),
                            ),
                        ),
                    ),
                    Err((k, f)) => Err(
                        fill4(
                            t.patch_edit_fault.as_str(),
                            "n",
                            dec_usize(n).as_str(),
                            "k",
                            dec_usize(k).as_str(),
                            "path",
                            name.as_str(),
                            "why",
                            edit_fault_reason(t, &f).as_str(),
                        ),
                    ),
                }
            },
        }
    }

    /// Takes one more block, the `n`th from 1, given where its path leads and what
    /// reading the file gave. Where the block does not hold the patch stays as it
    /// was and what the model is told comes back.
    pub fn take_block(
        &mut self,
        t: &ToolTexts,
        obs: &Observations,
        n: usize,
        b: &Block,
        place: Place,
        path: RealPath,
        read: &Option<FileRead>,
    ) -> (r: Result<(), String>)
        requires
            prompt::texts_sound(*t),
        ensures
            match r {
                Ok(_) => patch_step(
                    *t,
                    obs@,
                    old(self)@,
                    n as nat,
                    b@,
                    place@,
                    path@,
                    *read,
                ) == Ok::<_, Seq<char>>(final(self)@),
                Err(e) => final(self)@ == old(self)@ && patch_step(
                    *t,
                    obs@,
                    old(self)@,
                    n as nat,
                    b@,
                    place@,
                    path@,
                    *read,
                ) == Err::<PatchV, _>(e@),
            },
    {
        let ghost start = self@;
        let (content, line) = match self.evaluate(t, obs, n, b, &path, read) {
            Ok(x) => x,
            Err(e) => {
                return Err(e);
            },
        };
        let known = self.has(path.text.as_str());
        put_text(&mut self.pending, path.text.as_str(), content);
        let ghost prev = self.lines@;
        self.lines.push(line);
        proof {
            text::lemma_texts_push(prev, line);
        }
        if !known {
            let ghost o = self.order@;
            let ghost p = self.places@;
            self.order.push(path);
            self.places.push(place);
            proof {
                assert(workspace::paths_v(self.order@) =~= workspace::paths_v(o).push(path@));
                assert(path_texts(self.order@) =~= path_texts(o).push(path.text@));
                assert(places_v(self.places@) =~= places_v(p).push(place@));
            }
        }
        assert(patch_step(*t, obs@, start, n as nat, b@, place@, path@, *read)->Ok_0 =~= self@);
        Ok(())
    }

    /// What the model is told when every file was written.
    pub fn receipt(&self, t: &ToolTexts, blocks: usize) -> (r: String)
        requires
            prompt::texts_sound(*t),
            self.order@.len() == self.places@.len(),
        ensures
            r@ == patch_receipt(*t, self@, blocks as nat),
    {
        let out = fill3(
            t.patch_header.as_str(),
            "blocks",
            dec_usize(blocks).as_str(),
            "files",
            dec_usize(self.order.len()).as_str(),
            "lines",
            join(&self.lines, "\n").as_str(),
        );
        let mut notes = String::new();
        let mut i: usize = 0;
        assert(notes@ =~= module_notes(*t, self@.places, 0));
        while i < self.places.len()
            invariant
                i <= self.places@.len(),
                prompt::texts_sound(*t),
                notes@ == module_notes(*t, self@.places, i as int),
            decreases self.places@.len() - i,
        {
            assert(self@.places[i as int] == self.places@[i as int]@);
            notes = cat2(notes.as_str(), note_of_module(t, &self.places[i]).as_str());
            i = i + 1;
        }
        cat2(out.as_str(), notes.as_str())
    }
}

/// The notes on the first `n` files that lie in a module's directory.
pub open spec fn module_notes(t: ToolTexts, places: Seq<PlaceV>, n: int) -> Seq<char>
    decreases n,
{
    if n <= 0 {
        Seq::empty()
    } else {
        module_notes(t, places, n - 1) + module_note(t, places[n - 1])
    }
}

pub open spec fn patch_receipt(t: ToolTexts, st: PatchV, blocks: nat) -> Seq<char> {
    prompt::filled(
        t.patch_header@,
        seq![
            ("blocks"@, text::decimal(blocks)),
            ("files"@, text::decimal(st.order.len())),
            ("lines"@, text::joined(st.lines, "\n"@)),
        ],
    ) + module_notes(t, st.places, st.places.len() as int)
}

/// What is known after the first `n` files of a patch were written.
pub open spec fn noted(obs: Seq<(Seq<char>, SeenV)>, st: PatchV, n: int) -> Seq<
    (Seq<char>, SeenV),
>
    decreases n,
{
    if n <= 0 {
        obs
    } else {
        table::inserted(
            noted(obs, st, n - 1),
            st.order[n - 1],
            SeenV::Known(fingerprint(table::lookup(st.pending, st.order[n - 1])->0)),
        )
    }
}

/// What the first `n` blocks come to, given where their paths lead and what
/// reading their files gave.
pub open spec fn run_blocks(
    t: ToolTexts,
    obs: Seq<(Seq<char>, SeenV)>,
    blocks: Seq<BlockV>,
    found: Seq<Result<(PlaceV, PathV), Seq<char>>>,
    reads: Seq<Option<FileRead>>,
    n: int,
) -> Result<PatchV, Seq<char>>
    decreases n,
{
    if n <= 0 {
        Ok(patch_start())
    } else {
        match run_blocks(t, obs, blocks, found, reads, n - 1) {
            Err(e) => Err(e),
            Ok(st) => match found[n - 1] {
                Err(e) => Err(block_fault_text(t, n as nat, e)),
                Ok(p) => patch_step(
                    t,
                    obs,
                    st,
                    n as nat,
                    blocks[n - 1],
                    p.0,
                    p.1,
                    reads[n - 1],
                ),
            },
        }
    }
}

/// How writing the files of a patch ends: at the first that cannot be written, or
/// with the receipt.
pub open spec fn patch_ending(
    t: ToolTexts,
    obs: Seq<(Seq<char>, SeenV)>,
    st: PatchV,
    blocks: nat,
    failed: Option<(int, Seq<char>)>,
) -> ((bool, Seq<char>), Seq<(Seq<char>, SeenV)>) {
    match failed {
        Some(f) => (
            (
                false,
                prompt::filled(
                    t.patch_write_failed@,
                    seq![("n"@, text::decimal((f.0 + 1) as nat)), ("error"@, f.1)],
                ),
            ),
            noted(obs, st, f.0),
        ),
        None => ((true, patch_receipt(t, st, blocks)), noted(obs, st, st.order.len() as int)),
    }
}

proof fn lemma_run_stops(
    t: ToolTexts,
    obs: Seq<(Seq<char>, SeenV)>,
    blocks: Seq<BlockV>,
    found: Seq<Result<(PlaceV, PathV), Seq<char>>>,
    reads: Seq<Option<FileRead>>,
    n: int,
    m: int,
)
    requires
        n <= m,
        run_blocks(t, obs, blocks, found, reads, n) is Err,
    ensures
        run_blocks(t, obs, blocks, found, reads, m) == run_blocks(t, obs, blocks, found, reads, n),
    decreases m - n,
{
    if n < m {
        lemma_run_stops(t, obs, blocks, found, reads, n, m - 1);
    }
}

proof fn lemma_run_same(
    t: ToolTexts,
    obs: Seq<(Seq<char>, SeenV)>,
    blocks: Seq<BlockV>,
    found: Seq<Result<(PlaceV, PathV), Seq<char>>>,
    reads: Seq<Option<FileRead>>,
    f: Result<(PlaceV, PathV), Seq<char>>,
    g: Option<FileRead>,
    n: int,
)
    requires
        n <= found.len(),
        found.len() == reads.len(),
    ensures
        run_blocks(t, obs, blocks, found.push(f), reads.push(g), n) == run_blocks(
            t,
            obs,
            blocks,
            found,
            reads,
            n,
        ),
    decreases n,
{
    if n > 0 {
        lemma_run_same(t, obs, blocks, found, reads, f, g, n - 1);
        assert(found.push(f)[n - 1] == found[n - 1]);
        assert(reads.push(g)[n - 1] == reads[n - 1]);
    }
}

/// What reading a block's file gave: nothing is read where an earlier block changed the
/// file; a file that cannot be read gives nothing.
pub open spec fn block_read<I: SysIo>(
    io: I,
    before: PatchV,
    found: Result<(PlaceV, PathV), Seq<char>>,
    read: Option<FileRead>,
) -> bool {
    match found {
        Err(_) => true,
        Ok(p) => if table::lookup(before.pending, p.1.text) is Some {
            read is None
        } else {
            match read {
                Some(g) => ports::has_read(io, p.1, Ok(g)),
                None => exists|e: String| #[trigger] ports::has_read(io, p.1, Err(e)),
            }
        },
    }
}

/// Whether the blocks so far hold, their paths lead where `found` says, and reading
/// their files gave this.
#[verifier::opaque]
pub open spec fn each_read<I: SysIo>(
    io: I,
    sb: Sandbox,
    obs: Seq<(Seq<char>, SeenV)>,
    blocks: Seq<BlockV>,
    found: Seq<Result<(PlaceV, PathV), Seq<char>>>,
    reads: Seq<Option<FileRead>>,
) -> bool {
    &&& found.len() == reads.len() <= blocks.len()
    &&& forall|k: int|
        0 <= k < found.len() ==> {
            let st = run_blocks(sb.texts, obs, blocks, found, reads, k);
            &&& workspace::leads_to(sb, blocks[k].path(), #[trigger] found[k])
            &&& st is Ok
            &&& block_read(io, st->Ok_0, found[k], reads[k])
        }
}

/// Whether the blocks were gone through up to the first that does not hold.
pub open spec fn gone_through<I: SysIo>(
    io: I,
    sb: Sandbox,
    obs: Seq<(Seq<char>, SeenV)>,
    blocks: Seq<BlockV>,
    found: Seq<Result<(PlaceV, PathV), Seq<char>>>,
    reads: Seq<Option<FileRead>>,
) -> bool {
    &&& found.len() == blocks.len() || run_blocks(
        sb.texts,
        obs,
        blocks,
        found,
        reads,
        found.len() as int,
    ) is Err
    &&& each_read(io, sb, obs, blocks, found, reads)
}

/// Whether this is what a patch comes to before anything is written: the new contents
/// of files and how many blocks there are, or what the model is told.
#[verifier::opaque]
pub open spec fn patch_comes_to<I: SysIo>(
    io: I,
    sb: Sandbox,
    obs: Seq<(Seq<char>, SeenV)>,
    body: Seq<char>,
    r: Result<(PatchV, nat), Seq<char>>,
) -> bool {
    match patch::parse_lines(text::lines_of(body)) {
        Err(f) => r == Err::<(PatchV, nat), _>(patch_fault_text(sb.texts, f)),
        Ok(blocks) => exists|
            found: Seq<Result<(PlaceV, PathV), Seq<char>>>,
            reads: Seq<Option<FileRead>>,
        | #[trigger]
            gone_through(io, sb, obs, blocks, found, reads) && match run_blocks(
                sb.texts,
                obs,
                blocks,
                found,
                reads,
                blocks.len() as int,
            ) {
                Ok(st) => r == Ok::<_, Seq<char>>((st, blocks.len())),
                Err(e) => r == Err::<(PatchV, nat), _>(e),
            },
    }
}

/// Whether writing the `k`th file of a patch can have given this.
pub open spec fn file_written<I: SysIo>(io: I, st: PatchV, k: int, r: Result<(), String>) -> bool {
    ports::wrote(io, st.at[k], table::lookup(st.pending, st.order[k])->0, r)
}

/// Whether the first `n` files of a patch were written.
pub open spec fn files_written<I: SysIo>(io: I, st: PatchV, n: int) -> bool {
    forall|k: int| 0 <= k < n ==> #[trigger] file_written(io, st, k, Ok(()))
}

/// Whether the files of a patch were written in order, up to the one that failed.
pub open spec fn patch_written<I: SysIo>(io: I, st: PatchV, failed: Option<(int, Seq<char>)>) -> bool {
    match failed {
        Some(f) => 0 <= f.0 < st.at.len() && files_written(io, st, f.0) && exists|e: String|
            e@ == f.1 && #[trigger] file_written(io, st, f.0, Err(e)),
        None => files_written(io, st, st.at.len() as int),
    }
}

/// How a patch ends: what it comes to is written, each file once and in order, until
/// one cannot be.
pub open spec fn patch_ends<I: SysIo>(
    io: I,
    sb: Sandbox,
    obs: Seq<(Seq<char>, SeenV)>,
    body: Seq<char>,
    r: (bool, Seq<char>),
    after: Seq<(Seq<char>, SeenV)>,
) -> bool {
    exists|p: Result<(PatchV, nat), Seq<char>>| #[trigger]
        patch_comes_to(io, sb, obs, body, p) && match p {
            Err(e) => r == (false, e) && after == obs,
            Ok(x) => writing_ends(io, sb.texts, obs, x.0, x.1, r, after),
        }
}

/// How writing the files of a patch ends, whatever the writes gave.
pub open spec fn writing_ends<I: SysIo>(
    io: I,
    t: ToolTexts,
    obs: Seq<(Seq<char>, SeenV)>,
    st: PatchV,
    blocks: nat,
    r: (bool, Seq<char>),
    after: Seq<(Seq<char>, SeenV)>,
) -> bool {
    exists|failed: Option<(int, Seq<char>)>| #[trigger]
        patch_written(io, st, failed) && patch_ending(t, obs, st, blocks, failed) == (r, after)
}

pub open spec fn patch_v(r: Result<(PatchRun, usize), String>) -> Result<(PatchV, nat), Seq<char>> {
    match r {
        Ok(x) => Ok((x.0@, x.1 as nat)),
        Err(e) => Err(e@),
    }
}

/// Goes through the blocks of a patch: what is to be written where, and how many
/// blocks there are. Files are only read.
pub fn patch_writes<I: SysIo>(sb: &Sandbox, io: &I, obs: &Observations, body: &str) -> (r: Result<
    (PatchRun, usize),
    String,
>)
    requires
        prompt::texts_sound(sb.texts),
    ensures
        patch_comes_to(*io, *sb, obs@, body@, patch_v(r)),
        r matches Ok(x) ==> patch_wf(x.0@),
{
    let t = &sb.texts;
    let ghost start = obs@;
    let blocks = match crate::patch::parse(body) {
        Ok(b) => b,
        Err(f) => {
            proof {
                reveal(patch_comes_to);
            }
            return Err(patch_fault(t, &f));
        },
    };
    let ghost bv = patch::blocks_v(blocks@);
    let ghost mut found: Seq<Result<(PlaceV, PathV), Seq<char>>> = Seq::empty();
    let ghost mut reads: Seq<Option<FileRead>> = Seq::empty();
    let mut run = PatchRun::new();
    let mut i: usize = 0;
    assert(each_read(*io, *sb, start, bv, found, reads)) by {
        reveal(each_read);
    }
    while i < blocks.len()
        invariant
            i <= blocks@.len(),
            *t == sb.texts,
            prompt::texts_sound(*t),
            obs@ == start,
            bv == patch::blocks_v(blocks@),
            bv.len() == blocks@.len(),
            patch::parse_lines(text::lines_of(body@)) == Ok::<_, FaultV>(bv),
            found.len() == i,
            reads.len() == i,
            each_read(*io, *sb, start, bv, found, reads),
            run_blocks(*t, start, bv, found, reads, i as int) == Ok::<_, Seq<char>>(run@),
            patch_wf(run@),
        decreases blocks@.len() - i,
    {
        let b = &blocks[i];
        assert(bv[i as int] == b@);
        assert(i < blocks.len());
        let n: usize = i + 1;
        let ghost before = run@;
        let ghost f0 = found;
        let ghost r0 = reads;
        match sb.resolve(b.path()) {
            Err(e) => {
                proof {
                    let f = Err::<(PlaceV, PathV), Seq<char>>(e@);
                    assert(workspace::leads_to(*sb, bv[i as int].path(), f));
                    lemma_one_block_more(*io, *sb, start, bv, f0, r0, f, None);
                    found = found.push(f);
                    reads = reads.push(None);
                    assert(found[i as int] == f);
                    lemma_patch_stops(*io, *sb, start, body@, bv, found, reads);
                }
                return Err(block_fault(t, n, e.as_str()));
            },
            Ok((place, path)) => {
                let got = read_block(io, &run, &path);
                proof {
                    let f = Ok::<(PlaceV, PathV), Seq<char>>((place@, path@));
                    assert(workspace::leads_to(*sb, bv[i as int].path(), f));
                    assert(block_read(*io, before, f, got));
                    lemma_one_block_more(*io, *sb, start, bv, f0, r0, f, got);
                    found = found.push(f);
                    reads = reads.push(got);
                    assert(found[i as int] == f);
                    assert(reads[i as int] == got);
                    blocks_keep_the_patch_sound(*t, start, before, n as nat, b@, place@, path@, got);
                }
                match run.take_block(t, obs, n, b, place, path, &got) {
                    Err(e) => {
                        proof {
                            lemma_patch_stops(*io, *sb, start, body@, bv, found, reads);
                        }
                        return Err(e);
                    },
                    Ok(_) => {},
                }
            },
        }
        i = i + 1;
    }
    proof {
        reveal(patch_comes_to);
        assert(gone_through(*io, *sb, start, bv, found, reads));
    }
    Ok((run, blocks.len()))
}

/// Reads the file of a block, where no earlier block changed it.
fn read_block<I: SysIo>(io: &I, run: &PatchRun, path: &RealPath) -> (r: Option<FileRead>)
    ensures
        forall|place: PlaceV| #[trigger] block_read(*io, run@, Ok((place, path@)), r),
{
    match run.content(path.text.as_str()) {
        Some(_) => None,
        None => {
            let ans = io.read(path);
            assert(call_ensures(I::read, (io, path), ans));
            assert(ports::has_read(*io, path@, ans));
            match ans {
                Ok(g) => Some(g),
                Err(_) => None,
            }
        },
    }
}

proof fn lemma_patch_stops<I: SysIo>(
    io: I,
    sb: Sandbox,
    obs: Seq<(Seq<char>, SeenV)>,
    body: Seq<char>,
    blocks: Seq<BlockV>,
    found: Seq<Result<(PlaceV, PathV), Seq<char>>>,
    reads: Seq<Option<FileRead>>,
)
    requires
        patch::parse_lines(text::lines_of(body)) == Ok::<_, FaultV>(blocks),
        found.len() <= blocks.len(),
        each_read(io, sb, obs, blocks, found, reads),
        run_blocks(sb.texts, obs, blocks, found, reads, found.len() as int) is Err,
    ensures
        patch_comes_to(
            io,
            sb,
            obs,
            body,
            Err(run_blocks(sb.texts, obs, blocks, found, reads, found.len() as int)->Err_0),
        ),
{
    reveal(patch_comes_to);
    lemma_run_stops(
        sb.texts,
        obs,
        blocks,
        found,
        reads,
        found.len() as int,
        blocks.len() as int,
    );
    assert(gone_through(io, sb, obs, blocks, found, reads));
}

proof fn lemma_one_block_more<I: SysIo>(
    io: I,
    sb: Sandbox,
    obs: Seq<(Seq<char>, SeenV)>,
    blocks: Seq<BlockV>,
    found: Seq<Result<(PlaceV, PathV), Seq<char>>>,
    reads: Seq<Option<FileRead>>,
    f: Result<(PlaceV, PathV), Seq<char>>,
    g: Option<FileRead>,
)
    requires
        found.len() == reads.len() < blocks.len(),
        each_read(io, sb, obs, blocks, found, reads),
        run_blocks(sb.texts, obs, blocks, found, reads, found.len() as int) is Ok,
        workspace::leads_to(sb, blocks[found.len() as int].path(), f),
        block_read(
            io,
            run_blocks(sb.texts, obs, blocks, found, reads, found.len() as int)->Ok_0,
            f,
            g,
        ),
    ensures
        each_read(io, sb, obs, blocks, found.push(f), reads.push(g)),
        run_blocks(sb.texts, obs, blocks, found.push(f), reads.push(g), found.len() as int)
            == run_blocks(sb.texts, obs, blocks, found, reads, found.len() as int),
{
    reveal(each_read);
    lemma_run_same(sb.texts, obs, blocks, found, reads, f, g, found.len() as int);
    assert forall|k: int| 0 <= k < found.len() + 1 implies {
        let st = run_blocks(sb.texts, obs, blocks, found.push(f), reads.push(g), k);
        &&& workspace::leads_to(sb, blocks[k].path(), #[trigger] found.push(f)[k])
        &&& st is Ok
        &&& block_read(io, st->Ok_0, found.push(f)[k], reads.push(g)[k])
    } by {
        lemma_run_same(sb.texts, obs, blocks, found, reads, f, g, k);
        if k < found.len() {
            assert(found.push(f)[k] == found[k]);
            assert(reads.push(g)[k] == reads[k]);
        }
    }
}

/// Writes the files of a patch in order, until one cannot be written, and notes what
/// was written.
fn write_files<I: SysIo>(io: &I, obs: &mut Observations, run: &PatchRun) -> (r: Option<
    (usize, String),
>)
    requires
        patch_wf(run@),
    ensures
        ({
            let failed = match r {
                Some(f) => Some((f.0 as int, f.1@)),
                None => None,
            };
            &&& patch_written(*io, run@, failed)
            &&& final(obs)@ == noted(
                old(obs)@,
                run@,
                match r {
                    Some(f) => f.0 as int,
                    None => run@.order.len() as int,
                },
            )
            &&& r matches Some(f) ==> f.0 < run@.order.len()
        }),
{
    let ghost start = obs@;
    let ghost st = run@;
    let mut k: usize = 0;
    assert(st.order.len() == run.order@.len());
    while k < run.order.len()
        invariant
            k <= run.order@.len(),
            start == old(obs)@,
            st == run@,
            patch_wf(st),
            st.order.len() == run.order@.len(),
            files_written(*io, st, k as int),
            obs@ == noted(start, st, k as int),
        decreases run.order@.len() - k,
    {
        let path = &run.order[k];
        assert(st.order[k as int] == path.text@);
        assert(st.at[k as int] == path@);
        let content = match run.content(path.text.as_str()) {
            Some(c) => c,
            None => "",
        };
        let ans = io.write(path, content);
        assert(call_ensures(I::write, (io, path, content), ans));
        assert(ports::wrote(*io, path@, content@, ans));
        assert(file_written(*io, st, k as int, ans));
        match ans {
            Err(e) => {
                assert(patch_written(*io, st, Some((k as int, e@))));
                return Some((k, e));
            },
            Ok(u) => {
                assert(u == ());
                assert(file_written(*io, st, k as int, Ok(())));
            },
        }
        obs.note_written(path, fnv1a(content));
        k = k + 1;
    }
    None
}

/// `patch`: all blocks are gone through first, and nothing is written unless all
/// hold; then each file is written once.
pub fn apply_patch<I: SysIo>(sb: &Sandbox, io: &I, obs: &mut Observations, body: &str) -> (r:
    ToolOutcome)
    requires
        prompt::texts_sound(sb.texts),
    ensures
        patch_ends(*io, *sb, old(obs)@, body@, outcome(r), final(obs)@),
{
    let t = &sb.texts;
    let ghost start = obs@;
    let made = patch_writes(sb, io, obs, body);
    let ghost p = patch_v(made);
    let (run, blocks) = match made {
        Ok(x) => x,
        Err(e) => {
            return fail(e);
        },
    };
    assert(run.order@.len() == run@.order.len());
    assert(run.places@.len() == run@.places.len());
    let ghost st = run@;
    assert(patch_comes_to(*io, *sb, start, body@, Ok((st, blocks as nat))));
    match write_files(io, obs, &run) {
        Some(f) => {
            assert(patch_written(*io, st, Some((f.0 as int, f.1@))));
            assert(f.0 < run.order.len());
            let r = fail(
                fill2(
                    t.patch_write_failed.as_str(),
                    "n",
                    dec_usize(f.0 + 1).as_str(),
                    "error",
                    f.1.as_str(),
                ),
            );
            assert(patch_ending(*t, start, run@, blocks as nat, Some((f.0 as int, f.1@))) == (
                outcome(r),
                obs@,
            ));
            assert(writing_ends(*io, *t, start, st, blocks as nat, outcome(r), obs@));
            r
        },
        None => {
            assert(patch_written(*io, st, None));
            let r = succeed(run.receipt(t, blocks));
            assert(patch_ending(*t, start, run@, blocks as nat, None) == (outcome(r), obs@));
            assert(writing_ends(*io, *t, start, st, blocks as nat, outcome(r), obs@));
            r
        },
    }
}

proof fn lemma_paths_were_found(
    t: ToolTexts,
    obs: Seq<(Seq<char>, SeenV)>,
    blocks: Seq<BlockV>,
    found: Seq<Result<(PlaceV, PathV), Seq<char>>>,
    reads: Seq<Option<FileRead>>,
    n: int,
    k: int,
)
    requires
        0 <= n <= found.len(),
        run_blocks(t, obs, blocks, found, reads, n) is Ok,
        0 <= k < (run_blocks(t, obs, blocks, found, reads, n)->Ok_0).at.len(),
    ensures
        exists|j: int|
            0 <= j < n && (#[trigger] found[j]) is Ok && (found[j]->Ok_0).1 == (run_blocks(
                t,
                obs,
                blocks,
                found,
                reads,
                n,
            )->Ok_0).at[k],
    decreases n,
{
    if n > 0 {
        let prev = run_blocks(t, obs, blocks, found, reads, n - 1)->Ok_0;
        let st = run_blocks(t, obs, blocks, found, reads, n)->Ok_0;
        if k < prev.at.len() {
            lemma_paths_were_found(t, obs, blocks, found, reads, n - 1, k);
            assert(st.at[k] == prev.at[k]);
        } else {
            assert(found[n - 1] is Ok);
            assert(st.at[k] == (found[n - 1]->Ok_0).1);
        }
    }
}

/// Whatever a patch says, each file it writes is in one of the agent's roots: its path
/// reads as components that lie there, without `.` or `..`.
pub proof fn patches_stay_inside<I: SysIo>(
    io: I,
    sb: Sandbox,
    obs: Seq<(Seq<char>, SeenV)>,
    body: Seq<char>,
    st: PatchV,
    n: nat,
    k: int,
)
    requires
        patch_comes_to(io, sb, obs, body, Ok((st, n))),
        0 <= k < st.at.len(),
    ensures
        exists|back: Seq<PartV>, place: PlaceV, i: int| #[trigger]
            workspace::reads_as(st.at[k].text, back) && workspace::part_texts(back)
                == st.at[k].parts && workspace::lies_clean(back) && #[trigger]
                workspace::is_root_of(sb, place, st.at[k].parts, i),
{
    reveal(patch_comes_to);
    reveal(each_read);
    let blocks = patch::parse_lines(text::lines_of(body))->Ok_0;
    let (found, reads) = choose|
        found: Seq<Result<(PlaceV, PathV), Seq<char>>>,
        reads: Seq<Option<FileRead>>,
    | #[trigger]
        gone_through(io, sb, obs, blocks, found, reads) && run_blocks(
            sb.texts,
            obs,
            blocks,
            found,
            reads,
            blocks.len() as int,
        ) == Ok::<_, Seq<char>>(st);
    if found.len() < blocks.len() {
        lemma_run_stops(
            sb.texts,
            obs,
            blocks,
            found,
            reads,
            found.len() as int,
            blocks.len() as int,
        );
    }
    lemma_paths_were_found(sb.texts, obs, blocks, found, reads, blocks.len() as int, k);
    let j = choose|j: int|
        0 <= j < blocks.len() && (#[trigger] found[j]) is Ok && (found[j]->Ok_0).1 == st.at[k];
    assert(workspace::leads_to(sb, blocks[j].path(), found[j]));
    let f = found[j]->Ok_0;
    workspace::resolved_paths_stay_inside(sb, blocks[j].path(), f);
    let (back, i) = choose|back: Seq<PartV>, i: int| #[trigger]
        workspace::reads_as(f.1.text, back) && workspace::part_texts(back) == f.1.parts
            && workspace::lies_clean(back) && #[trigger] workspace::is_root_of(sb, f.0, f.1.parts, i);
    assert(workspace::reads_as(st.at[k].text, back) && workspace::is_root_of(
        sb,
        f.0,
        st.at[k].parts,
        i,
    ));
}

// ---- a call ----

pub open spec fn arg_why(t: ToolTexts, f: ArgFaultV) -> Seq<char> {
    match f {
        ArgFaultV::NotObject => t.arg_not_object@,
        ArgFaultV::Missing(n) => prompt::filled(t.arg_missing@, seq![("name"@, n)]),
        ArgFaultV::WrongType { name, want } => prompt::filled(
            t.arg_wrong_type@,
            seq![("name"@, name), ("want"@, want)],
        ),
        ArgFaultV::Empty(n) => prompt::filled(t.arg_empty@, seq![("name"@, n)]),
        ArgFaultV::TooSmall { name, min } => prompt::filled(
            t.arg_too_small@,
            seq![("name"@, name), ("min"@, min)],
        ),
        ArgFaultV::TooBig { name, max } => prompt::filled(
            t.arg_too_big@,
            seq![("name"@, name), ("max"@, max)],
        ),
        ArgFaultV::Unknown(n) => prompt::filled(t.arg_unknown@, seq![("name"@, n)]),
    }
}

pub open spec fn arg_fault_said(
    t: ToolTexts,
    name: Seq<char>,
    schema: SchemaV,
    f: ArgFaultV,
) -> Seq<char> {
    prompt::filled(
        t.arg_fault@,
        seq![("why"@, arg_why(t, f)), ("signature"@, name + "\n"@ + schema::rendered(schema))],
    )
}

/// What the model is told of arguments that do not fit: why, and the tool's signature.
pub fn arg_fault_text(t: &ToolTexts, name: &str, schema: &ToolSchema, fault: &ArgFault) -> (r:
    String)
    requires
        prompt::texts_sound(*t),
    ensures
        r@ == arg_fault_said(*t, name@, schema@, fault@),
{
    let why = match fault {
        ArgFault::NotObject => t.arg_not_object.clone(),
        ArgFault::Missing(n) => fill1(t.arg_missing.as_str(), "name", n.as_str()),
        ArgFault::WrongType { name, want } => fill2(
            t.arg_wrong_type.as_str(),
            "name",
            name.as_str(),
            "want",
            want,
        ),
        ArgFault::Empty(n) => fill1(t.arg_empty.as_str(), "name", n.as_str()),
        ArgFault::TooSmall { name, min } => fill2(
            t.arg_too_small.as_str(),
            "name",
            name.as_str(),
            "min",
            min.as_str(),
        ),
        ArgFault::TooBig { name, max } => fill2(
            t.arg_too_big.as_str(),
            "name",
            name.as_str(),
            "max",
            max.as_str(),
        ),
        ArgFault::Unknown(n) => fill1(t.arg_unknown.as_str(), "name", n.as_str()),
    };
    fill2(
        t.arg_fault.as_str(),
        "why",
        why.as_str(),
        "signature",
        cat3(name, "\n", schema.render_for_prompt().as_str()).as_str(),
    )
}

/// The arguments of a call with the defaults added and the path it names, or what
/// the model is told of why the call is not let through.
pub open spec fn read_args(
    t: ToolTexts,
    book: Seq<(Seq<char>, ToolSchema)>,
    name: Seq<char>,
    parsed: Result<JsonV, Seq<char>>,
) -> Result<(JsonV, Seq<char>), Seq<char>> {
    match parsed {
        Err(e) => Err(prompt::filled(t.bad_args_json@, seq![("error"@, e)])),
        Ok(args) => match table::lookup(book, name) {
            None => Err(prompt::filled(t.unknown_builtin@, seq![("name"@, name)])),
            Some(schema) => match schema::args_fault(schema@, args) {
                Some(f) => Err(arg_fault_said(t, name, schema@, f)),
                None => {
                    let full = schema::defaulted(schema@, args);
                    match full.text_at("path"@) {
                        Some(p) => Ok((full, p)),
                        None => Err(prompt::filled(t.arg_missing@, seq![("name"@, "path"@)])),
                    }
                },
            },
        },
    }
}

pub open spec fn parsed_v(r: Result<Json, String>) -> Result<JsonV, Seq<char>> {
    match r {
        Ok(v) => Ok(v@),
        Err(e) => Err(e@),
    }
}

/// Checks a call's arguments, given what parsing them gave.
pub fn check_call(
    t: &ToolTexts,
    book: &ToolBook,
    name: &str,
    parsed: Result<Json, String>,
) -> (r: Result<(Json, String), String>)
    requires
        prompt::texts_sound(*t),
    ensures
        match r {
            Ok(x) => read_args(*t, book@, name@, parsed_v(parsed)) == Ok::<_, Seq<char>>(
                (x.0@, x.1@),
            ),
            Err(e) => read_args(*t, book@, name@, parsed_v(parsed)) == Err::<
                (JsonV, Seq<char>),
                _,
            >(e@),
        },
{
    let mut args = match parsed {
        Ok(v) => v,
        Err(e) => {
            return Err(fill1(t.bad_args_json.as_str(), "error", e.as_str()));
        },
    };
    let schema = match book.get(name) {
        Some(s) => s,
        None => {
            return Err(fill1(t.unknown_builtin.as_str(), "name", name));
        },
    };
    match schema.check(&args) {
        Err(fault) => {
            return Err(arg_fault_text(t, name, schema, &fault));
        },
        Ok(_) => {},
    }
    schema.apply_defaults(&mut args);
    let path = match args.str_at("path") {
        Some(p) => p.to_owned(),
        None => {
            return Err(fill1(t.arg_missing.as_str(), "name", "path"));
        },
    };
    Ok((args, path))
}

/// How a call with a path ends, given what reading and writing the file gave.
pub open spec fn call_outcome(
    t: ToolTexts,
    obs: Seq<(Seq<char>, SeenV)>,
    tool: Seq<char>,
    args: JsonV,
    name: Seq<char>,
    place: PlaceV,
    path: Seq<char>,
    got: Result<FileRead, String>,
    wrote: Result<(), String>,
) -> ((bool, Seq<char>), Seq<(Seq<char>, SeenV)>) {
    if tool == READ@ {
        match got {
            Err(e) => ((false, e@), obs),
            Ok(g) => {
                let x = read_result(t, obs, args, name, path, g);
                ((true, x.0), x.1)
            },
        }
    } else if tool == WRITE@ {
        match write_fault(t, obs, name, path, got) {
            Some(why) => ((false, why), obs),
            None => write_result(
                t,
                obs,
                args.text_or_empty("content"@),
                name,
                path,
                place,
                wrote,
            ),
        }
    } else if tool == EDIT@ {
        if args.text_or_empty("old_string"@) == args.text_or_empty("new_string"@) {
            ((false, t.edit_same@), obs)
        } else {
            match got {
                Err(e) => ((false, e@), obs),
                Ok(g) => match edit_result(t, args, name, g) {
                    Err(why) => ((false, why), obs),
                    Ok(x) => edited_result(t, obs, name, path, x.0, x.1, wrote),
                },
            }
        }
    } else if tool == SEARCH@ {
        match got {
            Err(e) => ((false, e@), obs),
            Ok(g) => ((true, search_text(t, args, name, g)), obs),
        }
    } else {
        ((false, prompt::filled(t.unknown_builtin@, seq![("name"@, tool)])), obs)
    }
}

/// Whether a call with a path reads its file.
pub open spec fn reads_file(tool: Seq<char>, args: JsonV) -> bool {
    tool == READ@ || tool == WRITE@ || tool == SEARCH@ || (tool == EDIT@ && args.text_or_empty(
        "old_string"@,
    ) != args.text_or_empty("new_string"@))
}

/// What a call with a path writes to its file, if it writes: only once the file may be
/// overwritten, or the text that is to be replaced was found.
pub open spec fn written_text(
    t: ToolTexts,
    obs: Seq<(Seq<char>, SeenV)>,
    tool: Seq<char>,
    args: JsonV,
    name: Seq<char>,
    path: Seq<char>,
    got: Result<FileRead, String>,
) -> Option<Seq<char>> {
    if tool == WRITE@ {
        if write_fault(t, obs, name, path, got) is None {
            Some(args.text_or_empty("content"@))
        } else {
            None
        }
    } else if tool == EDIT@ && reads_file(tool, args) {
        match got {
            Err(_) => None,
            Ok(g) => match edit_result(t, args, name, g) {
                Err(_) => None,
                Ok(x) => Some(x.0),
            },
        }
    } else {
        None
    }
}

/// Whether the file of a call was read and written as the call asks.
pub open spec fn touched<I: SysIo>(
    io: I,
    t: ToolTexts,
    obs: Seq<(Seq<char>, SeenV)>,
    tool: Seq<char>,
    args: JsonV,
    name: Seq<char>,
    path: PathV,
    got: Result<FileRead, String>,
    wrote: Result<(), String>,
) -> bool {
    &&& reads_file(tool, args) ==> ports::has_read(io, path, got)
    &&& written_text(t, obs, tool, args, name, path.text, got) matches Some(c) ==> ports::wrote(
        io,
        path,
        c,
        wrote,
    )
}

/// How a call ends whatever came from outside.
pub open spec fn call_ends<I: SysIo>(
    io: I,
    sb: Sandbox,
    obs: Seq<(Seq<char>, SeenV)>,
    tool: Seq<char>,
    args_json: Seq<char>,
    r: (bool, Seq<char>),
    after: Seq<(Seq<char>, SeenV)>,
) -> bool {
    let t = sb.texts;
    if tool == PATCH@ {
        if table::lookup(sb.builtin_tools@, tool) is None {
            r == (false, prompt::filled(t.unknown_builtin@, seq![("name"@, tool)])) && after == obs
        } else {
            patch_ends(io, sb, obs, args_json, r, after)
        }
    } else {
        match read_args(t, sb.builtin_tools@, tool, json::json_of(args_json)) {
            Err(why) => r == (false, why) && after == obs,
            Ok(x) => path_ends(io, sb, obs, tool, x.0, x.1, r, after),
        }
    }
}

/// How a call whose arguments hold ends, wherever its path leads and whatever
/// reading and writing the file gave.
pub open spec fn path_ends<I: SysIo>(
    io: I,
    sb: Sandbox,
    obs: Seq<(Seq<char>, SeenV)>,
    tool: Seq<char>,
    args: JsonV,
    name: Seq<char>,
    r: (bool, Seq<char>),
    after: Seq<(Seq<char>, SeenV)>,
) -> bool {
    exists|found: Result<(PlaceV, PathV), Seq<char>>| #[trigger]
        workspace::leads_to(sb, name, found) && file_ends(io, sb, obs, tool, args, name, found, r, after)
}

pub open spec fn file_ends<I: SysIo>(
    io: I,
    sb: Sandbox,
    obs: Seq<(Seq<char>, SeenV)>,
    tool: Seq<char>,
    args: JsonV,
    name: Seq<char>,
    found: Result<(PlaceV, PathV), Seq<char>>,
    r: (bool, Seq<char>),
    after: Seq<(Seq<char>, SeenV)>,
) -> bool {
    match found {
        Err(e) => r == (false, e) && after == obs,
        Ok(p) => comes_of(io, sb.texts, obs, tool, args, name, p.0, p.1, r, after),
    }
}

/// How a call on a file ends: the file was read and written as the call asks, and the
/// rest follows from what that gave.
pub open spec fn comes_of<I: SysIo>(
    io: I,
    t: ToolTexts,
    obs: Seq<(Seq<char>, SeenV)>,
    tool: Seq<char>,
    args: JsonV,
    name: Seq<char>,
    place: PlaceV,
    path: PathV,
    r: (bool, Seq<char>),
    after: Seq<(Seq<char>, SeenV)>,
) -> bool {
    exists|got: Result<FileRead, String>, wrote: Result<(), String>| #[trigger]
        touched(io, t, obs, tool, args, name, path, got, wrote) && call_outcome(
            t,
            obs,
            tool,
            args,
            name,
            place,
            path.text,
            got,
            wrote,
        ) == (r, after)
}

/// Runs a call of a built-in tool. The arguments are checked first; a file is only
/// touched under one of the agent's roots.
pub fn execute<I: SysIo>(
    sb: &Sandbox,
    io: &I,
    obs: &mut Observations,
    name: &str,
    args_json: &str,
) -> (r: ToolOutcome)
    requires
        prompt::texts_sound(sb.texts),
    ensures
        call_ends(*io, *sb, old(obs)@, name@, args_json@, outcome(r), final(obs)@),
{
    let t = &sb.texts;
    let ghost start = obs@;
    if is_freeform(name) {
        if !sb.builtin_tools.contains_key(name) {
            return fail(fill1(t.unknown_builtin.as_str(), "name", name));
        }
        return apply_patch(sb, io, obs, args_json);
    }
    let parsed = parse_json(args_json);
    assert(parsed_v(parsed) == json::json_of(args_json@));
    let (args, spec_) = match check_call(t, &sb.builtin_tools, name, parsed) {
        Ok(x) => x,
        Err(why) => {
            return fail(why);
        },
    };
    let ghost want = (args@, spec_@);
    assert(read_args(*t, sb.builtin_tools@, name@, json::json_of(args_json@)) == Ok::<_, Seq<char>>(
        want,
    ));
    let (place, path) = match sb.resolve(spec_.as_str()) {
        Ok(x) => x,
        Err(e) => {
            let r = fail(e);
            assert(workspace::leads_to(*sb, want.1, Err::<(PlaceV, PathV), Seq<char>>(e@)));
            assert(path_ends(*io, *sb, start, name@, want.0, want.1, outcome(r), obs@));
            return r;
        },
    };
    assert(workspace::leads_to(*sb, spec_@, Ok::<(PlaceV, PathV), Seq<char>>((place@, path@))));
    let r = run_call(t, io, obs, name, &args, spec_.as_str(), &place, &path);
    assert(path_ends(*io, *sb, start, name@, want.0, want.1, outcome(r), obs@));
    r
}

/// Runs a call whose arguments hold and whose path leads to a file.
fn run_call<I: SysIo>(
    t: &ToolTexts,
    io: &I,
    obs: &mut Observations,
    name: &str,
    args: &Json,
    spec_: &str,
    place: &Place,
    path: &RealPath,
) -> (r: ToolOutcome)
    requires
        prompt::texts_sound(*t),
    ensures
        comes_of(
            *io,
            *t,
            old(obs)@,
            name@,
            args@,
            spec_@,
            place@,
            path@,
            outcome(r),
            final(obs)@,
        ),
{
    if str_eq(name, READ) || str_eq(name, SEARCH) {
        return run_look(t, io, obs, name, args, spec_, place, path);
    }
    if str_eq(name, WRITE) {
        return run_write(t, io, obs, name, args, spec_, place, path);
    }
    if str_eq(name, EDIT) {
        return run_edit(t, io, obs, name, args, spec_, place, path);
    }
    let r = fail(fill1(t.unknown_builtin.as_str(), "name", name));
    let ghost unread = Err::<FileRead, String>(t.edit_same);
    assert(touched(*io, *t, obs@, name@, args@, spec_@, path@, unread, Ok(())));
    r
}

/// Runs `read` or `search` on a file.
fn run_look<I: SysIo>(
    t: &ToolTexts,
    io: &I,
    obs: &mut Observations,
    name: &str,
    args: &Json,
    spec_: &str,
    place: &Place,
    path: &RealPath,
) -> (r: ToolOutcome)
    requires
        prompt::texts_sound(*t),
        name@ == READ@ || name@ == SEARCH@,
    ensures
        comes_of(
            *io,
            *t,
            old(obs)@,
            name@,
            args@,
            spec_@,
            place@,
            path@,
            outcome(r),
            final(obs)@,
        ),
{
    proof {
        lemma_names_differ();
    }
    let ghost start = obs@;
    let got = io.read(path);
    assert(call_ensures(I::read, (io, path), got));
    assert(ports::has_read(*io, path@, got));
    assert(touched(*io, *t, start, name@, args@, spec_@, path@, got, Ok(())));
    match &got {
        Ok(g) => if str_eq(name, READ) {
            read(t, obs, args, spec_, path, g)
        } else {
            succeed(search(t, args, spec_, g))
        },
        Err(e) => fail(e.clone()),
    }
}

/// Runs `write` on a file.
fn run_write<I: SysIo>(
    t: &ToolTexts,
    io: &I,
    obs: &mut Observations,
    name: &str,
    args: &Json,
    spec_: &str,
    place: &Place,
    path: &RealPath,
) -> (r: ToolOutcome)
    requires
        prompt::texts_sound(*t),
        name@ == WRITE@,
    ensures
        comes_of(
            *io,
            *t,
            old(obs)@,
            name@,
            args@,
            spec_@,
            place@,
            path@,
            outcome(r),
            final(obs)@,
        ),
{
    proof {
        lemma_names_differ();
    }
    let ghost start = obs@;
    let got = io.read(path);
    assert(call_ensures(I::read, (io, path), got));
    assert(ports::has_read(*io, path@, got));
    match write_check(t, obs, spec_, path, &got) {
        Err(why) => {
            assert(touched(*io, *t, start, name@, args@, spec_@, path@, got, Ok(())));
            return fail(why);
        },
        Ok(_) => {},
    }
    let content = args.str_or_empty("content");
    let text = content.as_str();
    let wrote = io.write(path, text);
    assert(call_ensures(I::write, (io, path, text), wrote));
    assert(ports::wrote(*io, path@, text@, wrote));
    assert(touched(*io, *t, start, name@, args@, spec_@, path@, got, wrote));
    write(t, obs, text, spec_, path, place, wrote)
}

/// Runs `edit` on a file.
fn run_edit<I: SysIo>(
    t: &ToolTexts,
    io: &I,
    obs: &mut Observations,
    name: &str,
    args: &Json,
    spec_: &str,
    place: &Place,
    path: &RealPath,
) -> (r: ToolOutcome)
    requires
        prompt::texts_sound(*t),
        name@ == EDIT@,
    ensures
        comes_of(
            *io,
            *t,
            old(obs)@,
            name@,
            args@,
            spec_@,
            place@,
            path@,
            outcome(r),
            final(obs)@,
        ),
{
    proof {
        lemma_names_differ();
    }
    let ghost start = obs@;
    if str_eq(
        args.str_or_empty("old_string").as_str(),
        args.str_or_empty("new_string").as_str(),
    ) {
        let ghost unread = Err::<FileRead, String>(t.edit_same);
        assert(touched(*io, *t, start, name@, args@, spec_@, path@, unread, Ok(())));
        return fail(t.edit_same.clone());
    }
    let got = io.read(path);
    assert(call_ensures(I::read, (io, path), got));
    assert(ports::has_read(*io, path@, got));
    let (out, n) = match &got {
        Ok(g) => match edit(t, args, spec_, g) {
            Ok(x) => x,
            Err(why) => {
                assert(touched(*io, *t, start, name@, args@, spec_@, path@, got, Ok(())));
                return fail(why);
            },
        },
        Err(e) => {
            assert(touched(*io, *t, start, name@, args@, spec_@, path@, got, Ok(())));
            return fail(e.clone());
        },
    };
    let text = out.as_str();
    let wrote = io.write(path, text);
    assert(call_ensures(I::write, (io, path, text), wrote));
    assert(ports::wrote(*io, path@, text@, wrote));
    assert(touched(*io, *t, start, name@, args@, spec_@, path@, got, wrote));
    edit_done(t, obs, spec_, path, text, n, wrote)
}

proof fn lemma_names_differ()
    ensures
        READ@ != WRITE@,
        READ@ != EDIT@,
        READ@ != SEARCH@,
        WRITE@ != EDIT@,
        WRITE@ != SEARCH@,
        EDIT@ != SEARCH@,
{
    reveal_strlit("read");
    reveal_strlit("write");
    reveal_strlit("edit");
    reveal_strlit("search");
    assert(READ@[0] == 'r' && WRITE@[0] == 'w' && EDIT@[0] == 'e' && SEARCH@[0] == 's');
}

// ---- what the tools are for ----

/// Whether a text stands in another between these two parts, and nowhere it would not
/// overlap that place.
pub open spec fn stands_once(hay: Seq<char>, old_text: Seq<char>, a: Seq<char>, b: Seq<char>) -> bool {
    &&& old_text.len() > 0
    &&& hay == a + old_text + b
    &&& forall|j: int|
        0 <= j && j + old_text.len() <= hay.len() && #[trigger] hay.subrange(j, j + old_text.len())
            == old_text ==> a.len() <= j < a.len() + old_text.len()
}

/// An edit puts the new text in the place of the old one: it is made exactly where the
/// old text stands once in a file that was read whole, and nothing around it changes.
pub proof fn an_edit_changes_one_place(t: ToolTexts, args: JsonV, name: Seq<char>, got: FileRead)
    requires
        !args.flag_at("replace_all"@),
    ensures
        ({
            let old_text = args.text_or_empty("old_string"@);
            let new_text = args.text_or_empty("new_string"@);
            let hay = got.text@;
            let r = edit_result(t, args, name, got);
            &&& r matches Ok(x) ==> old_text != new_text && !got.cut && !got.lossy && x.1 == 1 && x.0.len()
                == hay.len() - old_text.len() + new_text.len() && exists|a: Seq<char>, b: Seq<char>| #[trigger]
                stands_once(hay, old_text, a, b) && x.0 == a + new_text + b
            &&& old_text != new_text && !got.cut && !got.lossy && (exists|a: Seq<char>, b: Seq<char>| #[trigger]
                stands_once(hay, old_text, a, b)) ==> r is Ok
        }),
{
    let old_text = args.text_or_empty("old_string"@);
    let new_text = args.text_or_empty("new_string"@);
    let hay = got.text@;
    let r = edit_result(t, args, name, got);
    let at = places_from(hay, old_text, 0);
    text::lemma_find_from(hay, old_text, 0);
    if r is Ok {
        let i = text::find_from(hay, old_text, 0)->0;
        text::lemma_find_from(hay, old_text, i + old_text.len());
        let rest = places_from(hay, old_text, i + old_text.len());
        assert(at =~= seq![i] + rest);
        assert(rest.len() == 0);
        let a = hay.take(i);
        let b = hay.skip(i + old_text.len());
        assert(hay =~= a + old_text + b);
        assert forall|j: int|
            0 <= j && j + old_text.len() <= hay.len() && #[trigger] hay.subrange(j, j + old_text.len())
                == old_text implies a.len() <= j < a.len() + old_text.len() by {
            assert(text::stands_at(hay, old_text, j));
        }
        assert(stands_once(hay, old_text, a, b));
    }
    if old_text != new_text && !got.cut && !got.lossy && exists|a: Seq<char>, b: Seq<char>| #[trigger]
        stands_once(hay, old_text, a, b) {
        let (a, b) = choose|a: Seq<char>, b: Seq<char>| #[trigger] stands_once(hay, old_text, a, b);
        let i = a.len() as int;
        assert(hay.subrange(i, i + old_text.len()) =~= old_text);
        assert(text::stands_at(hay, old_text, i));
        let k = text::find_from(hay, old_text, 0)->0;
        assert(hay.subrange(k, k + old_text.len()) == old_text);
        assert(k == i);
        text::lemma_find_from(hay, old_text, i + old_text.len());
        match text::find_from(hay, old_text, i + old_text.len()) {
            Some(m) => {
                assert(hay.subrange(m, m + old_text.len()) == old_text);
            },
            None => {},
        }
        let rest = places_from(hay, old_text, i + old_text.len());
        assert(rest.len() == 0);
        assert(at =~= seq![i] + rest);
    }
}

/// Whether a text is cut into these pieces at another, each time at the first place it
/// stands at, until it stands nowhere any more.
pub open spec fn cut_at(pieces: Seq<Seq<char>>, p: Seq<char>) -> bool {
    &&& pieces.len() > 0
    &&& forall|k: int|
        0 <= k < pieces.len() - 1 ==> forall|j: int|
            0 <= j < (#[trigger] pieces[k]).len() ==> #[trigger] (pieces[k] + p).subrange(j, j + p.len()) != p
    &&& forall|j: int|
        0 <= j && j + p.len() <= pieces.last().len() ==> #[trigger] pieces.last().subrange(j, j + p.len())
            != p
}

proof fn lemma_replaced(s: Seq<char>, p: Seq<char>, q: Seq<char>, from: int) -> (pieces: Seq<Seq<char>>)
    requires
        0 <= from <= s.len(),
        p.len() > 0,
    ensures
        cut_at(pieces, p),
        text::joined(pieces, p) == s.skip(from),
        text::joined(pieces, q) == replaced_from(s, p, q, from),
        pieces.len() == places_from(s, p, from).len() + 1,
    decreases s.len() - from,
{
    text::lemma_find_from(s, p, from);
    match text::find_from(s, p, from) {
        Some(i) => {
            let rest = lemma_replaced(s, p, q, i + p.len());
            let first = s.subrange(from, i);
            let pieces = seq![first] + rest;
            text::joining_can_be_done_in_parts(seq![first], rest, p);
            text::joining_can_be_done_in_parts(seq![first], rest, q);
            assert(s.skip(from) =~= first + p + s.skip(i + p.len()));
            assert forall|k: int| 0 <= k < pieces.len() - 1 implies forall|j: int|
                0 <= j < (#[trigger] pieces[k]).len() ==> #[trigger] (pieces[k] + p).subrange(
                    j,
                    j + p.len(),
                ) != p by {
                if k > 0 {
                    assert(pieces[k] == rest[k - 1]);
                } else {
                    assert forall|j: int| 0 <= j < pieces[0].len() implies #[trigger] (pieces[0] + p).subrange(
                        j,
                        j + p.len(),
                    ) != p by {
                        assert(!text::stands_at(s, p, from + j));
                        assert((first + p).subrange(j, j + p.len()) =~= s.subrange(
                            from + j,
                            from + j + p.len(),
                        ));
                    }
                }
            }
            assert(pieces.last() == rest.last());
            pieces
        },
        None => {
            let pieces = seq![s.skip(from)];
            assert forall|j: int|
                0 <= j && j + p.len() <= pieces.last().len() implies #[trigger] pieces.last().subrange(
                j,
                j + p.len(),
            ) != p by {
                assert(!text::stands_at(s, p, from + j));
                assert(pieces.last().subrange(j, j + p.len()) =~= s.subrange(from + j, from + j + p.len()));
            }
            pieces
        },
    }
}

/// An edit of every place cuts the file at the old text and joins the pieces with the
/// new one: all places change, and nothing else. It is made where there is a place.
pub proof fn an_edit_of_all_changes_every_place(t: ToolTexts, args: JsonV, name: Seq<char>, got: FileRead)
    requires
        args.flag_at("replace_all"@),
    ensures
        ({
            let old_text = args.text_or_empty("old_string"@);
            let new_text = args.text_or_empty("new_string"@);
            let hay = got.text@;
            let r = edit_result(t, args, name, got);
            &&& r matches Ok(x) ==> exists|pieces: Seq<Seq<char>>| #[trigger]
                cut_at(pieces, old_text) && hay == text::joined(pieces, old_text) && x.0 == text::joined(
                    pieces,
                    new_text,
                ) && x.1 == pieces.len() - 1 && x.1 >= 1
            &&& r is Ok <==> old_text != new_text && !got.cut && !got.lossy && old_text.len() > 0 && exists|
                i: int,
            |
                0 <= i && i + old_text.len() <= hay.len() && #[trigger] hay.subrange(i, i + old_text.len())
                    == old_text
        }),
{
    let old_text = args.text_or_empty("old_string"@);
    let new_text = args.text_or_empty("new_string"@);
    let hay = got.text@;
    text::lemma_find_from(hay, old_text, 0);
    if old_text.len() > 0 {
        let pieces = lemma_replaced(hay, old_text, new_text, 0);
        assert(hay.skip(0) =~= hay);
        assert(cut_at(pieces, old_text));
        match text::find_from(hay, old_text, 0) {
            Some(i) => {
                assert(hay.subrange(i, i + old_text.len()) == old_text);
            },
            None => {
                assert forall|i: int| 0 <= i && i + old_text.len() <= hay.len() implies #[trigger] hay.subrange(
                    i,
                    i + old_text.len(),
                ) != old_text by {
                    assert(!text::stands_at(hay, old_text, i));
                }
            },
        }
    }
}

/// Whether these are the places, in ascending order, of the lines that hold the keyword;
/// where case is ignored, of those that do in lower case.
pub open spec fn lines_with(ls: Seq<Seq<char>>, keyword: Seq<char>, fold: bool, at: Seq<int>) -> bool {
    &&& forall|i: int| #[trigger]
        at.contains(i) <==> 0 <= i < ls.len() && if fold {
            exists|a: Seq<char>, b: Seq<char>|
                lowercase_of(ls[i]) == #[trigger] (a + lowercase_of(keyword) + b)
        } else {
            exists|a: Seq<char>, b: Seq<char>| ls[i] == #[trigger] (a + keyword + b)
        }
    &&& forall|k: int, m: int| 0 <= k < m < at.len() ==> #[trigger] at[k] < #[trigger] at[m]
}

/// A search finds exactly the lines that hold the keyword, in order.
pub proof fn a_search_finds_the_lines_with_the_keyword(ls: Seq<Seq<char>>, keyword: Seq<char>, fold: bool)
    ensures
        lines_with(ls, keyword, fold, matching(ls, keyword, fold, ls.len() as int)),
{
    lemma_matches(ls, keyword, fold, ls.len() as int);
    let at = matching(ls, keyword, fold, ls.len() as int);
    assert forall|i: int| #[trigger] at.contains(i) <==> 0 <= i < ls.len() && if fold {
        exists|a: Seq<char>, b: Seq<char>| lowercase_of(ls[i]) == #[trigger] (a + lowercase_of(keyword) + b)
    } else {
        exists|a: Seq<char>, b: Seq<char>| ls[i] == #[trigger] (a + keyword + b)
    } by {
        if 0 <= i < ls.len() {
            text::standing_in_is_standing_between(folded(ls[i], fold), folded(keyword, fold));
        }
    }
}

proof fn lemma_matches(ls: Seq<Seq<char>>, keyword: Seq<char>, fold: bool, n: int)
    requires
        0 <= n <= ls.len(),
    ensures
        forall|i: int| #[trigger]
            matching(ls, keyword, fold, n).contains(i) <==> 0 <= i < n && text::contains_text(
                folded(ls[i], fold),
                folded(keyword, fold),
            ),
        forall|k: int, m: int|
            0 <= k < m < matching(ls, keyword, fold, n).len() ==> #[trigger] matching(ls, keyword, fold, n)[k]
                < #[trigger] matching(ls, keyword, fold, n)[m],
    decreases n,
{
    if n > 0 {
        lemma_matches(ls, keyword, fold, n - 1);
        lemma_matching(ls, keyword, fold, n - 1);
        let p = matching(ls, keyword, fold, n - 1);
        let h = matching(ls, keyword, fold, n);
        assert forall|i: int| #[trigger] h.contains(i) <==> 0 <= i < n && text::contains_text(
            folded(ls[i], fold),
            folded(keyword, fold),
        ) by {
            if h.contains(i) {
                let k = choose|k: int| 0 <= k < h.len() && h[k] == i;
                if k < p.len() {
                    assert(p[k] == i);
                    assert(p.contains(i));
                }
            }
            if 0 <= i < n && text::contains_text(folded(ls[i], fold), folded(keyword, fold)) {
                if i == n - 1 {
                    assert(h[p.len() as int] == i);
                } else {
                    assert(p.contains(i));
                    let k = choose|k: int| 0 <= k < p.len() && p[k] == i;
                    assert(h[k] == i);
                }
            }
        }
    }
}

/// How a hit is shown: the number of its line, from one, and the line, or its beginning.
pub open spec fn hit_row(t: ToolTexts, ls: Seq<Seq<char>>, i: int) -> Seq<char> {
    prompt::filled(
        t.search_hit_line@,
        seq![
            ("n"@, text::decimal((i + 1) as nat)),
            (
                "line"@,
                if ls[i].len() <= MAX_SEARCH_LINE_CHARS {
                    ls[i]
                } else {
                    ls[i].take(MAX_SEARCH_LINE_CHARS as int)
                },
            ),
        ],
    )
}

proof fn lemma_hit_text(t: ToolTexts, ls: Seq<Seq<char>>, at: Seq<int>, n: int, k: int)
    requires
        0 <= k < n <= at.len(),
    ensures
        exists|a: Seq<char>, b: Seq<char>|
            hit_text(t, ls, at, n) == #[trigger] (a + ("\n"@ + hit_row(t, ls, at[k])) + b),
    decreases n,
{
    let row = "\n"@ + hit_row(t, ls, at[k]);
    let prev = hit_text(t, ls, at, n - 1);
    if k == n - 1 {
        assert(hit_text(t, ls, at, n) =~= prev + row + Seq::<char>::empty());
    } else {
        lemma_hit_text(t, ls, at, n - 1, k);
        let (a, b) = choose|a: Seq<char>, b: Seq<char>| prev == #[trigger] (a + row + b);
        let last = "\n"@ + hit_row(t, ls, at[n - 1]);
        assert(hit_text(t, ls, at, n) =~= a + row + (b + last));
    }
}

proof fn lemma_part_of(said: Seq<char>, pre: Seq<char>, mid: Seq<char>, post: Seq<char>, p: Seq<char>)
    requires
        said == pre + mid + post,
        exists|a: Seq<char>, b: Seq<char>| mid == #[trigger] (a + p + b),
    ensures
        text::contains_text(said, p),
{
    let (a, b) = choose|a: Seq<char>, b: Seq<char>| mid == #[trigger] (a + p + b);
    assert(said =~= (pre + a) + p + (b + post));
    text::standing_in_is_standing_between(said, p);
}

/// Whether a text shows a line with the keyword, with its number, for each of the
/// places, up to as many as are shown, and says how many there are of how many lines.
pub open spec fn shows_hits(t: ToolTexts, ls: Seq<Seq<char>>, at: Seq<int>, said: Seq<char>) -> bool {
    &&& forall|k: int|
        0 <= k < at.len() && k < MAX_SEARCH_HITS ==> text::contains_text(
            said,
            "\n"@ + hit_row(t, ls, #[trigger] at[k]),
        )
    &&& text::contains_text(
        said,
        "\n"@ + prompt::filled(
            t.search_summary@,
            seq![("hits"@, text::decimal(at.len())), ("total"@, text::decimal(ls.len()))],
        ),
    )
    &&& at.len() == 0 ==> text::contains_text(said, "\n"@ + t.search_no_hits@)
}

/// What a search says: each line with the keyword is shown with its number, up to as
/// many as are shown; how many there are, of how many lines, stands below.
pub proof fn a_search_shows_what_it_found(t: ToolTexts, args: JsonV, name: Seq<char>, got: FileRead)
    ensures
        exists|at: Seq<int>| #[trigger]
            lines_with(
                text::lines_of(got.text@),
                args.text_or_empty("keyword"@),
                args.flag_at("ignore_case"@),
                at,
            ) && shows_hits(t, text::lines_of(got.text@), at, search_text(t, args, name, got)),
{
    let ls = text::lines_of(got.text@);
    let keyword = args.text_or_empty("keyword"@);
    let fold = args.flag_at("ignore_case"@);
    let said = search_text(t, args, name, got);
    let at = matching(ls, keyword, fold, ls.len() as int);
    a_search_finds_the_lines_with_the_keyword(ls, keyword, fold);
    let kept: int = if at.len() < MAX_SEARCH_HITS {
        at.len() as int
    } else {
        MAX_SEARCH_HITS as int
    };
    let head = prompt::filled(
        t.search_header@,
        seq![
            ("path"@, name),
            ("keyword"@, keyword),
            (
                "mode"@,
                if fold {
                    t.search_mode_insensitive@
                } else {
                    t.search_mode_sensitive@
                },
            ),
        ],
    );
    let none = below(at.len() == 0, t.search_no_hits@);
    let hits = hit_text(t, ls, at, kept);
    let sum = "\n"@ + prompt::filled(
        t.search_summary@,
        seq![("hits"@, text::decimal(at.len())), ("total"@, text::decimal(ls.len()))],
    );
    let more = below(
        at.len() > MAX_SEARCH_HITS,
        prompt::filled(t.search_truncated@, seq![("limit"@, text::decimal(MAX_SEARCH_HITS as nat))]),
    );
    let x = below(got.lossy, t.lossy_note@);
    let y = below(got.cut, t.search_truncated_bytes@);
    assert(said == head + none + hits + sum + more + x + y);
    lemma_search_parts(t, ls, at, kept, head, none, hits, sum, more + x + y, said);
}

proof fn lemma_search_parts(
    t: ToolTexts,
    ls: Seq<Seq<char>>,
    at: Seq<int>,
    kept: int,
    head: Seq<char>,
    none: Seq<char>,
    hits: Seq<char>,
    sum: Seq<char>,
    rest: Seq<char>,
    said: Seq<char>,
)
    requires
        kept == if at.len() < MAX_SEARCH_HITS {
            at.len() as int
        } else {
            MAX_SEARCH_HITS as int
        },
        none == below(at.len() == 0, t.search_no_hits@),
        hits == hit_text(t, ls, at, kept),
        sum == "\n"@ + prompt::filled(
            t.search_summary@,
            seq![("hits"@, text::decimal(at.len())), ("total"@, text::decimal(ls.len()))],
        ),
        said =~= head + none + hits + sum + rest,
    ensures
        shows_hits(t, ls, at, said),
{
    let e = Seq::<char>::empty();
    assert forall|k: int| 0 <= k < at.len() && k < MAX_SEARCH_HITS implies text::contains_text(
        said,
        "\n"@ + hit_row(t, ls, #[trigger] at[k]),
    ) by {
        lemma_hit_text(t, ls, at, kept, k);
        assert(said =~= (head + none) + hits + (sum + rest));
        lemma_part_of(said, head + none, hits, sum + rest, "\n"@ + hit_row(t, ls, at[k]));
    }
    assert(sum =~= e + sum + e);
    assert(said =~= (head + none + hits) + sum + rest);
    lemma_part_of(said, head + none + hits, sum, rest, sum);
    if at.len() == 0 {
        assert(none =~= e + none + e);
        assert(said =~= head + none + (hits + sum + rest));
        lemma_part_of(said, head, none, hits + sum + rest, none);
    }
}

/// How many characters rows take, each with the end of its line.
pub open spec fn rows_size(rows: Seq<Seq<char>>, n: int) -> int
    decreases n,
{
    if n <= 0 {
        0
    } else {
        rows_size(rows, n - 1) + rows[n - 1].len() + 1
    }
}

/// A row of a read: the number of the line, from one, and the line, or its beginning.
pub open spec fn is_row(t: ToolTexts, row: Seq<char>, n: int, line: Seq<char>) -> bool {
    if line.len() <= MAX_READ_LINE_CHARS {
        row == prompt::filled(t.read_line@, seq![("n"@, text::decimal(n as nat)), ("line"@, line)])
    } else {
        row == prompt::filled(
            t.read_line@,
            seq![
                ("n"@, text::decimal(n as nat)),
                ("line"@, line.take(MAX_READ_LINE_CHARS as int)),
            ],
        ) + prompt::filled(t.read_line_capped@, seq![("limit"@, text::decimal(MAX_READ_LINE_CHARS as nat))])
    }
}

proof fn lemma_read_rows(
    t: ToolTexts,
    ls: Seq<Seq<char>>,
    i: int,
    end: int,
    used: int,
    first: bool,
)
    requires
        0 <= i <= end <= ls.len(),
    ensures
        ({
            let rows = read_rows(t, ls, i, end, used, first);
            &&& rows.len() <= end - i
            &&& first && i < end ==> rows.len() >= 1
            &&& forall|k: int| 0 <= k < rows.len() ==> is_row(t, #[trigger] rows[k], i + k + 1, ls[i + k])
            &&& rows.len() < end - i ==> used + rows_size(rows, rows.len() as int) + read_row(
                t,
                i + rows.len() + 1,
                ls[i + rows.len()],
            ).len() + 1 > MAX_READ_CHARS
        }),
    decreases end - i,
{
    if i < end {
        let row = read_row(t, i + 1, ls[i]);
        let cost = row.len() + 1;
        lemma_read_rows(t, ls, i + 1, end, used + cost, false);
        let rest = read_rows(t, ls, i + 1, end, used + cost, false);
        let rows = read_rows(t, ls, i, end, used, first);
        assert(is_row(t, row, i + 1, ls[i])) by {
            if ls[i].len() <= MAX_READ_LINE_CHARS {
                assert(row =~= prompt::filled(
                    t.read_line@,
                    seq![("n"@, text::decimal((i + 1) as nat)), ("line"@, ls[i])],
                ));
            }
        }
        if first || used + cost <= MAX_READ_CHARS {
            assert(rows =~= seq![row] + rest);
            assert forall|k: int| 0 <= k < rows.len() implies is_row(
                t,
                #[trigger] rows[k],
                i + k + 1,
                ls[i + k],
            ) by {
                if k > 0 {
                    assert(rows[k] == rest[k - 1]);
                }
            }
            lemma_rows_size(row, rest, rest.len() as int);
        }
    }
}

proof fn lemma_rows_size(row: Seq<char>, rest: Seq<Seq<char>>, n: int)
    requires
        0 <= n <= rest.len(),
    ensures
        rows_size(seq![row] + rest, n + 1) == row.len() + 1 + rows_size(rest, n),
    decreases n,
{
    let all = seq![row] + rest;
    if n > 0 {
        lemma_rows_size(row, rest, n - 1);
        assert(all[n] == rest[n - 1]);
    } else {
        assert(rows_size(all, 1) == rows_size(all, 0) + all[0].len() + 1);
    }
}

/// A read shows the lines from where it was asked to begin, numbered and in order, at
/// least one, and no more than it was asked for or there are; fewer only where the next
/// would be too much.
pub proof fn a_read_shows_lines_in_order(
    t: ToolTexts,
    obs: Seq<(Seq<char>, SeenV)>,
    args: JsonV,
    name: Seq<char>,
    path: Seq<char>,
    got: FileRead,
)
    requires
        offset_of(args) <= text::lines_of(got.text@).len(),
    ensures
        ({
            let ls = text::lines_of(got.text@);
            let from = offset_of(args) - 1;
            let most = match args.natural_at("limit"@) {
                Some(n) => if n == 0 {
                    1
                } else {
                    n as int
                },
                None => ls.len() as int,
            };
            exists|rows: Seq<Seq<char>>| #[trigger]
                begins_with_rows(t, name, got, rows, read_result(t, obs, args, name, path, got).0) && 1
                    <= rows.len() <= most && from + rows.len() <= ls.len() && (forall|k: int|
                    0 <= k < rows.len() ==> is_row(t, #[trigger] rows[k], from + k + 1, ls[from + k])) && (
                rows.len() < most && from + rows.len() < ls.len() ==> rows_size(rows, rows.len() as int)
                    + read_row(t, from + rows.len() + 1, ls[from + rows.len()]).len() + 1 > MAX_READ_CHARS)
        }),
{
    let ls = text::lines_of(got.text@);
    let from = offset_of(args) - 1;
    let limit = limit_of(args, ls.len());
    let end = if from + limit < ls.len() {
        from + limit
    } else {
        ls.len() as int
    };
    let rows = read_rows(t, ls, from, end, 0, true);
    lemma_read_rows(t, ls, from, end, 0, true);
    let said = read_result(t, obs, args, name, path, got).0;
    let head = prompt::filled(
        t.read_header@,
        seq![
            ("path"@, name),
            ("bytes"@, text::decimal(got.bytes as nat)),
            ("text"@, text::joined(rows, "\n"@)),
        ],
    );
    assert(said.take(head.len() as int) =~= head);
    assert(begins_with_rows(t, name, got, rows, said));
}

/// Whether what a read says begins with these rows under its header.
pub open spec fn begins_with_rows(
    t: ToolTexts,
    name: Seq<char>,
    got: FileRead,
    rows: Seq<Seq<char>>,
    said: Seq<char>,
) -> bool {
    let head = prompt::filled(
        t.read_header@,
        seq![
            ("path"@, name),
            ("bytes"@, text::decimal(got.bytes as nat)),
            ("text"@, text::joined(rows, "\n"@)),
        ],
    );
    said.len() >= head.len() && said.take(head.len() as int) == head
}

/// A file is known after a read exactly where all of it was shown, or it was known
/// before; what is known is what was in it.
pub proof fn a_whole_read_is_remembered(
    t: ToolTexts,
    obs: Seq<(Seq<char>, SeenV)>,
    args: JsonV,
    name: Seq<char>,
    path: Seq<char>,
    got: FileRead,
)
    requires
        table::ascending(obs),
    ensures
        ({
            let ls = text::lines_of(got.text@);
            let now = read_result(t, obs, args, name, path, got).1;
            &&& got.cut || got.lossy || offset_of(args) > 1 || ls.len() == 0 ==> known_in(now, path) == known_in(
                obs,
                path,
            )
            &&& known_in(now, path) matches Some(h) ==> h == fingerprint(got.text@) || known_in(obs, path)
                == Some(h)
            &&& known_in(obs, path) is Some ==> known_in(now, path) is Some
            &&& forall|other: Seq<char>| other != path ==> #[trigger] known_in(now, other) == known_in(
                obs,
                other,
            )
        }),
{
    let ls = text::lines_of(got.text@);
    let hash = fingerprint(got.text@);
    table::inserting(obs, path, SeenV::Known(hash));
    let now = read_result(t, obs, args, name, path, got).1;
    assert forall|why: Seq<char>| table::ascending(#[trigger] with_part(obs, path, why)) && (forall|
        other: Seq<char>,
    |
        #[trigger] known_in(with_part(obs, path, why), other) == known_in(obs, other)) by {
        table::inserting(obs, path, SeenV::Partial(why));
        assert forall|other: Seq<char>| #[trigger] known_in(with_part(obs, path, why), other) == known_in(
            obs,
            other,
        ) by {
            if other != path {
                assert(table::lookup(table::inserted(obs, path, SeenV::Partial(why)), other)
                    == table::lookup(obs, other));
            }
        }
    }
    assert forall|other: Seq<char>| other != path implies #[trigger] known_in(now, other) == known_in(
        obs,
        other,
    ) by {
        assert(table::lookup(table::inserted(obs, path, SeenV::Known(hash)), other) == table::lookup(
            obs,
            other,
        ));
    }
}

/// A file that is there is overwritten whole only where it was read whole and is still
/// what was read; where nothing can be read there is nothing to lose.
pub proof fn only_what_is_known_is_overwritten(
    t: ToolTexts,
    obs: Seq<(Seq<char>, SeenV)>,
    args: JsonV,
    name: Seq<char>,
    path: Seq<char>,
    got: Result<FileRead, String>,
)
    ensures
        ({
            let w = written_text(t, obs, "write"@, args, name, path, got);
            &&& w is Some <==> (got matches Ok(g) ==> table::lookup(obs, path) == Some(
                SeenV::Known(fingerprint(g.text@)),
            ))
            &&& w is Some ==> w->0 == args.text_or_empty("content"@)
        }),
{
}

/// Looking changes no file: nothing is written but by `write` and `edit`, and what a
/// search or a refused call says is all that comes of it.
pub proof fn looking_writes_nothing(
    t: ToolTexts,
    obs: Seq<(Seq<char>, SeenV)>,
    tool: Seq<char>,
    args: JsonV,
    name: Seq<char>,
    place: PlaceV,
    path: Seq<char>,
    got: Result<FileRead, String>,
    wrote: Result<(), String>,
)
    ensures
        written_text(t, obs, tool, args, name, path, got) is Some ==> tool == "write"@ || tool == "edit"@,
        tool == "search"@ ==> call_outcome(t, obs, tool, args, name, place, path, got, wrote).1 == obs,
        !call_outcome(t, obs, tool, args, name, place, path, got, wrote).0.0 ==> call_outcome(
            t,
            obs,
            tool,
            args,
            name,
            place,
            path,
            got,
            wrote,
        ).1 == obs,
        tool == "edit"@ && written_text(t, obs, tool, args, name, path, got) is Some ==> (got matches Ok(g)
            && edit_result(t, args, name, g) matches Ok(x) && x.0 == written_text(
            t,
            obs,
            tool,
            args,
            name,
            path,
            got,
        )->0),
        (got is Err && (tool == "read"@ || tool == "search"@ || tool == "edit"@)) ==> !call_outcome(
            t,
            obs,
            tool,
            args,
            name,
            place,
            path,
            got,
            wrote,
        ).0.0,
        (got is Ok && (tool == "read"@ || tool == "search"@)) ==> call_outcome(
            t,
            obs,
            tool,
            args,
            name,
            place,
            path,
            got,
            wrote,
        ).0.0,
{
    lemma_names_differ();
}

/// What was written is known from then on; a write that failed leaves everything as it
/// was, and says why.
pub proof fn what_was_written_is_known(
    t: ToolTexts,
    obs: Seq<(Seq<char>, SeenV)>,
    content: Seq<char>,
    name: Seq<char>,
    path: Seq<char>,
    place: PlaceV,
    wrote: Result<(), String>,
    n: nat,
)
    requires
        table::ascending(obs),
    ensures
        ({
            let w = write_result(t, obs, content, name, path, place, wrote);
            let e = edited_result(t, obs, name, path, content, n, wrote);
            &&& wrote is Ok ==> w.0.0 && e.0.0 && known_in(w.1, path) == Some(fingerprint(content))
                && known_in(e.1, path) == Some(fingerprint(content))
            &&& wrote matches Err(why) ==> w == ((false, why@), obs) && e == ((false, why@), obs)
        }),
{
    table::inserting(obs, path, SeenV::Known(fingerprint(content)));
}

/// A content that takes the place of a file has the ends of lines the file had, and
/// else stays as it is.
pub proof fn contents_take_on_the_ends_of_lines(content: Seq<char>, current: Seq<char>)
    ensures
        text::contains_text(current, seq!['\r', '\n']) ==> aligned(content, current) == text::joined(
            text::split_at_char(content, '\n'),
            seq!['\r', '\n'],
        ),
        !text::contains_text(current, seq!['\r', '\n']) ==> aligned(content, current) == content,
{
    reveal_strlit("\n");
    reveal_strlit("\r\n");
    assert("\n"@ =~= seq!['\n']);
    assert("\r\n"@ =~= seq!['\r', '\n']);
    let p = "\n"@;
    let pieces = lemma_replaced(content, p, "\r\n"@, 0);
    assert(content.skip(0) =~= content);
    assert forall|k: int| 0 <= k < pieces.len() implies !(#[trigger] pieces[k]).contains('\n') by {
        if pieces[k].contains('\n') {
            let j = choose|j: int| 0 <= j < pieces[k].len() && pieces[k][j] == '\n';
            if k < pieces.len() - 1 {
                assert((pieces[k] + p).subrange(j, j + p.len()) =~= p);
            } else {
                assert(pieces.last().subrange(j, j + p.len()) =~= p);
            }
        }
    }
    text::joining_can_be_undone(pieces, '\n');
}

/// A block that adds a file writes its content; one that changes a file makes its edits
/// in what an earlier block made of it, or else in what was read. A file that is not
/// there, or was not read whole, is not changed.
pub proof fn blocks_do_what_they_say(
    t: ToolTexts,
    obs: Seq<(Seq<char>, SeenV)>,
    st: PatchV,
    n: nat,
    b: BlockV,
    place: PlaceV,
    at: PathV,
    read: Option<FileRead>,
)
    requires
        table::ascending(st.pending),
    ensures
        ({
            let r = patch_step(t, obs, st, n, b, place, at, read);
            let before = table::lookup(st.pending, at.text);
            let old_text = match before {
                Some(s) => Some(s),
                None => match read {
                    Some(g) => Some(g.text@),
                    None => None,
                },
            };
            &&& r matches Ok(now) ==> {
                &&& table::lookup(now.pending, at.text) is Some
                &&& forall|p: Seq<char>|
                    p != at.text ==> #[trigger] table::lookup(now.pending, p) == table::lookup(st.pending, p)
                &&& now.order.contains(at.text)
                &&& now.lines.len() == st.lines.len() + 1
                &&& match b {
                    BlockV::Add { content, .. } => match old_text {
                        None => table::lookup(now.pending, at.text) == Some(content),
                        Some(s) => table::lookup(now.pending, at.text) == Some(aligned(content, s)) && table::lookup(
                            obs,
                            at.text,
                        ) == Some(SeenV::Known(fingerprint(s))),
                    },
                    BlockV::Update { edits, .. } => old_text is Some && patch::edited(old_text->0, edits) == Ok::<
                        _,
                        (int, patch::EditFaultV),
                    >(table::lookup(now.pending, at.text)->0) && (before is None ==> !(read->0).cut && !(
                    read->0).lossy),
                }
            }
            &&& (b is Add && old_text is None) ==> r is Ok
            &&& (b is Update && old_text is None) ==> r is Err
        }),
{
    let r = patch_step(t, obs, st, n, b, place, at, read);
    match r {
        Ok(now) => {
            let x = block_result(t, obs, n, b, at.text, block_source(st, at.text, read))->Ok_0;
            table::inserting(st.pending, at.text, x.0);
            if !st.order.contains(at.text) {
                assert(now.order[st.order.len() as int] == at.text);
            }
        },
        Err(_) => {},
    }
}

/// A block that cannot be done stops the whole patch, whatever comes behind it.
pub proof fn one_bad_block_stops_the_patch(
    t: ToolTexts,
    obs: Seq<(Seq<char>, SeenV)>,
    blocks: Seq<BlockV>,
    found: Seq<Result<(PlaceV, PathV), Seq<char>>>,
    reads: Seq<Option<FileRead>>,
    n: int,
    m: int,
)
    requires
        0 <= n <= m,
        run_blocks(t, obs, blocks, found, reads, n) is Err,
    ensures
        run_blocks(t, obs, blocks, found, reads, m) == run_blocks(t, obs, blocks, found, reads, n),
        n > 0 && found[n - 1] is Err ==> run_blocks(t, obs, blocks, found, reads, m) is Err,
    decreases m - n,
{
    if n < m {
        one_bad_block_stops_the_patch(t, obs, blocks, found, reads, n, m - 1);
    }
}

/// A patch that was written has each of its files known as it was written; one whose
/// writing failed says so, and only what was written before is known.
pub proof fn written_patches_are_known(
    t: ToolTexts,
    obs: Seq<(Seq<char>, SeenV)>,
    st: PatchV,
    blocks: nat,
    failed: Option<(int, Seq<char>)>,
    k: int,
)
    requires
        table::ascending(obs),
        st.order.no_duplicates(),
        0 <= k < st.order.len(),
        failed matches Some(f) ==> 0 <= f.0 <= st.order.len(),
    ensures
        ({
            let a = patch_ending(t, obs, st, blocks, failed);
            let done = match failed {
                Some(f) => f.0,
                None => st.order.len() as int,
            };
            &&& (a.0).0 <==> failed is None
            &&& k < done ==> table::lookup(a.1, st.order[k]) == Some(
                SeenV::Known(fingerprint(table::lookup(st.pending, st.order[k])->0)),
            )
            &&& k >= done ==> table::lookup(a.1, st.order[k]) == table::lookup(obs, st.order[k])
        }),
{
    let done = match failed {
        Some(f) => f.0,
        None => st.order.len() as int,
    };
    lemma_noted_known(obs, st, done, k);
}

proof fn lemma_noted_known(obs: Seq<(Seq<char>, SeenV)>, st: PatchV, n: int, k: int)
    requires
        table::ascending(obs),
        st.order.no_duplicates(),
        0 <= n <= st.order.len(),
        0 <= k < st.order.len(),
    ensures
        table::ascending(noted(obs, st, n)),
        k < n ==> table::lookup(noted(obs, st, n), st.order[k]) == Some(
            SeenV::Known(fingerprint(table::lookup(st.pending, st.order[k])->0)),
        ),
        k >= n ==> table::lookup(noted(obs, st, n), st.order[k]) == table::lookup(obs, st.order[k]),
    decreases n,
{
    if n > 0 {
        lemma_noted_known(obs, st, n - 1, k);
        table::inserting(
            noted(obs, st, n - 1),
            st.order[n - 1],
            SeenV::Known(fingerprint(table::lookup(st.pending, st.order[n - 1])->0)),
        );
    }
}

/// Arguments are read where the tool is in the book and they fit it: what is not given
/// has its default, and the path is the one they name. Else the call is refused.
pub proof fn arguments_are_read_by_the_book(
    t: ToolTexts,
    book: Seq<(Seq<char>, ToolSchema)>,
    name: Seq<char>,
    parsed: Result<JsonV, Seq<char>>,
)
    ensures
        read_args(t, book, name, parsed) matches Ok(x) ==> {
            &&& parsed is Ok && table::lookup(book, name) is Some
            &&& schema::args_fault((table::lookup(book, name)->0)@, parsed->Ok_0) is None
            &&& x.0 == schema::defaulted((table::lookup(book, name)->0)@, parsed->Ok_0)
            &&& x.0.text_at("path"@) == Some(x.1)
        },
        parsed is Err || table::lookup(book, name) is None ==> read_args(t, book, name, parsed) is Err,
        parsed is Ok && table::lookup(book, name) is Some && schema::args_fault(
            (table::lookup(book, name)->0)@,
            parsed->Ok_0,
        ) is Some ==> read_args(t, book, name, parsed) is Err,
        parsed is Ok && table::lookup(book, name) is Some && schema::args_fault(
            (table::lookup(book, name)->0)@,
            parsed->Ok_0,
        ) is None && schema::defaulted((table::lookup(book, name)->0)@, parsed->Ok_0).text_at("path"@) is Some
            ==> read_args(t, book, name, parsed) is Ok,
{
}

/// The ends of lines in a text are those of its parts.
pub proof fn ends_of_lines_add_up(a: Seq<char>, b: Seq<char>)
    ensures
        newlines(a + b) == newlines(a) + newlines(b),
        a.len() == 1 ==> newlines(a) == if a[0] == '\n' {
            1nat
        } else {
            0
        },
    decreases b.len(),
{
    if a.len() == 1 {
        assert(newlines(a.drop_last()) == 0);
    }
    if b.len() > 0 {
        assert((a + b).drop_last() =~= a + b.drop_last());
        ends_of_lines_add_up(a, b.drop_last());
    } else {
        assert(a + b =~= a);
    }
}

} // verus!
