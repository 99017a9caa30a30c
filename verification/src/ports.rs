//! What the library exchanges with the channels, stores and tools around it. The
//! traits are for those who build on the library to implement; it promises
//! nothing of what they do.
use crate::envelope::Malformed;
use crate::fence::{FenceSpec, FenceV};
use crate::json::Json;
use crate::module::Roster;
use crate::packages::Library;
use crate::prompt::Prompts;
use crate::providers::{Provider, Settings};
use crate::text::str_eq;
use crate::workspace::{PathV, RealPath, WorkFiles, WorkRoots};
use vstd::prelude::*;

verus! {

/// A piece of a streamed reply.
#[derive(Debug, PartialEq)]
pub enum Chunk {
    /// A call begins: what was gathered of the last one is dropped.
    Start,
    Text(String),
    Reasoning(String),
}

/// A tool as a channel with native tool calls declares it.
#[derive(Debug)]
pub struct ToolDecl {
    pub name: String,
    pub description: String,
    pub parameters: Json,
}

/// How a completion is asked for: streamed or not, and with which tools declared.
pub struct CompleteOpts<'a> {
    pub stream: bool,
    pub tools: Option<&'a Vec<ToolDecl>>,
}

impl<'a> CompleteOpts<'a> {
    /// A request that declares no tool.
    pub fn plain(stream: bool) -> (r: CompleteOpts<'a>)
        ensures
            r.stream == stream,
            r.tools is None,
    {
        CompleteOpts { stream, tools: None }
    }
}

/// How calls to a model are made: streamed or not, and with what patience.
#[derive(Debug, Clone, Copy, PartialEq, Eq, Structural)]
pub struct LlmOpts {
    pub stream: bool,
    pub timeout_secs: u64,
}

/// A native tool call as a channel returns it.
#[derive(Debug, PartialEq)]
pub struct ToolCall {
    /// Must come back unchanged with the result.
    pub id: String,
    pub name: String,
    pub args_json: String,
}

#[verifier::ext_equal]
pub struct ToolCallV {
    pub id: Seq<char>,
    pub name: Seq<char>,
    pub args_json: Seq<char>,
}

impl View for ToolCall {
    type V = ToolCallV;

    open spec fn view(&self) -> ToolCallV {
        ToolCallV { id: self.id@, name: self.name@, args_json: self.args_json@ }
    }
}

pub open spec fn tool_calls_v(v: Seq<ToolCall>) -> Seq<ToolCallV> {
    v.map_values(|c: ToolCall| c@)
}

impl ToolCall {
    pub fn copy(&self) -> (r: ToolCall)
        ensures
            r == *self,
    {
        ToolCall {
            id: self.id.clone(),
            name: self.name.clone(),
            args_json: self.args_json.clone(),
        }
    }
}

/// One message of a conversation with a model.
#[derive(Debug, PartialEq)]
pub struct Msg {
    /// `system`, `user`, `assistant` or `tool`.
    pub role: String,
    pub content: String,
    /// The native calls an assistant message makes.
    pub calls: Vec<ToolCall>,
    /// The call a tool message answers; empty otherwise.
    pub call_id: String,
}

#[verifier::ext_equal]
pub struct MsgV {
    pub role: Seq<char>,
    pub content: Seq<char>,
    pub calls: Seq<ToolCallV>,
    pub call_id: Seq<char>,
}

impl View for Msg {
    type V = MsgV;

    open spec fn view(&self) -> MsgV {
        MsgV {
            role: self.role@,
            content: self.content@,
            calls: tool_calls_v(self.calls@),
            call_id: self.call_id@,
        }
    }
}

pub open spec fn msgs_v(v: Seq<Msg>) -> Seq<MsgV> {
    v.map_values(|m: Msg| m@)
}

/// A message without calls.
pub open spec fn plain_msg(role: Seq<char>, content: Seq<char>) -> MsgV {
    MsgV { role, content, calls: Seq::empty(), call_id: Seq::empty() }
}

pub fn copy_calls(v: &Vec<ToolCall>) -> (r: Vec<ToolCall>)
    ensures
        r@ == v@,
{
    let mut r: Vec<ToolCall> = Vec::new();
    let mut i: usize = 0;
    while i < v.len()
        invariant
            i <= v@.len(),
            r@ == v@.take(i as int),
        decreases v@.len() - i,
    {
        r.push(v[i].copy());
        i = i + 1;
        assert(r@ =~= v@.take(i as int));
    }
    assert(r@ =~= v@);
    r
}

impl Msg {
    fn plain(role: &str, content: String) -> (r: Msg)
        ensures
            r@ == plain_msg(role@, content@),
    {
        let r = Msg { role: role.to_owned(), content, calls: Vec::new(), call_id: String::new() };
        assert(r@.calls =~= Seq::<ToolCallV>::empty());
        r
    }

    pub fn system(content: String) -> (r: Msg)
        ensures
            r@ == plain_msg("system"@, content@),
    {
        Msg::plain("system", content)
    }

    pub fn user(content: String) -> (r: Msg)
        ensures
            r@ == plain_msg("user"@, content@),
    {
        Msg::plain("user", content)
    }

    pub fn assistant(content: String) -> (r: Msg)
        ensures
            r@ == plain_msg("assistant"@, content@),
    {
        Msg::plain("assistant", content)
    }

    /// An assistant message that makes native calls.
    pub fn assistant_calls(content: String, calls: Vec<ToolCall>) -> (r: Msg)
        ensures
            r@ == (MsgV {
                role: "assistant"@,
                content: content@,
                calls: tool_calls_v(calls@),
                call_id: Seq::empty(),
            }),
    {
        Msg { role: "assistant".to_owned(), content, calls, call_id: String::new() }
    }

    /// The answer to a native call.
    pub fn tool(call_id: String, content: String) -> (r: Msg)
        ensures
            r@ == (MsgV {
                role: "tool"@,
                content: content@,
                calls: Seq::empty(),
                call_id: call_id@,
            }),
    {
        let r = Msg { role: "tool".to_owned(), content, calls: Vec::new(), call_id };
        assert(r@.calls =~= Seq::<ToolCallV>::empty());
        r
    }

    pub fn copy(&self) -> (r: Msg)
        ensures
            r@ == self@,
    {
        Msg {
            role: self.role.clone(),
            content: self.content.clone(),
            calls: copy_calls(&self.calls),
            call_id: self.call_id.clone(),
        }
    }
}

pub fn copy_msgs(v: &Vec<Msg>) -> (r: Vec<Msg>)
    ensures
        msgs_v(r@) == msgs_v(v@),
{
    let mut r: Vec<Msg> = Vec::new();
    let mut i: usize = 0;
    while i < v.len()
        invariant
            i <= v@.len(),
            r@.len() == i,
            forall|k: int| 0 <= k < i ==> (#[trigger] r@[k])@ == v@[k]@,
        decreases v@.len() - i,
    {
        r.push(v[i].copy());
        i = i + 1;
    }
    assert(msgs_v(r@) =~= msgs_v(v@));
    r
}

/// What a completion gives: the text, why it ended (in the channel's own words)
/// and the native calls.
#[derive(Debug)]
pub struct Completion {
    pub raw: String,
    pub finish: String,
    pub calls: Vec<ToolCall>,
    pub reasoning: Option<String>,
    /// Why the call failed, if it did.
    pub error: Option<String>,
}

/// The reasons that mean the output was cut at its greatest length.
pub open spec fn cut_short(finish: Seq<char>) -> bool {
    finish == "length"@ || finish == "max_tokens"@ || finish == "max_output_tokens"@
}

/// Whether a reason means the output was cut at its greatest length.
pub fn truncated(finish: &str) -> (r: bool)
    ensures
        r == cut_short(finish@),
{
    str_eq(finish, "length") || str_eq(finish, "max_tokens") || str_eq(finish, "max_output_tokens")
}

impl Completion {
    /// A completion of which there is only the text.
    pub fn text(raw: String) -> (r: Completion)
        ensures
            r.raw@ == raw@,
            r.finish@ == Seq::<char>::empty(),
            r.calls@ == Seq::<ToolCall>::empty(),
            r.reasoning is None,
            r.error is None,
    {
        Completion {
            raw,
            finish: String::new(),
            calls: Vec::new(),
            reasoning: None,
            error: None,
        }
    }

    /// Whether the output was cut at its greatest length.
    pub fn truncated(&self) -> (r: bool)
        ensures
            r == cut_short(self.finish@),
    {
        truncated(self.finish.as_str())
    }
}

/// A file as it was read.
#[derive(Debug)]
pub struct FileRead {
    pub text: String,
    /// How many bytes the file has.
    pub bytes: usize,
    /// Bytes that are not UTF-8 were replaced.
    pub lossy: bool,
    /// Only the beginning was read.
    pub cut: bool,
}

/// What a test of a channel's native tool calls found.
#[derive(Debug, PartialEq)]
pub enum ProbeOutcome {
    Supported { detail: String },
    Unsupported { detail: String },
    Unknown { detail: String },
}

/// What running a tool gave.
#[derive(Debug, PartialEq)]
pub struct ToolOutcome {
    pub ok: bool,
    pub output: String,
}

/// What the repair of an envelope gave: the repaired text, if any, and what was done.
#[derive(Debug)]
pub struct RepairOutcome {
    pub repaired: Option<String>,
    pub what: Vec<String>,
}

/// Keeps the registry.
pub trait SettingsStore {
    fn load(&self) -> Result<Settings, String>;

    fn save(&self, settings: &Settings) -> Result<(), String>;
}

/// Lists the models a provider offers.
pub trait ModelCatalog {
    fn list_models(&self, provider: &Provider) -> Result<Vec<String>, String>;
}

/// Finds the modules there are.
pub trait ModuleSource {
    fn scan(&self) -> Roster;
}

/// Takes back what a fence granted.
pub trait FenceHost {
    fn release(&self, spec: &FenceSpec) -> Result<(), String>;
}

/// Finds the runtime packages there are.
pub trait PackageSource {
    fn scan(&self) -> Library;

    fn dir(&self) -> String;
}

/// Lays out the directories of a piece of work.
pub trait Workspace {
    fn prepare(&self, session: &str, agents: &Vec<String>) -> Result<(), String>;

    fn write_work(&self, session: &str, name: &str, bytes: &Vec<u8>) -> Result<(), String>;

    fn work_has(&self, session: &str, name: &str) -> bool;

    fn roots(&self, session: &str, agents: &Vec<String>) -> Result<WorkRoots, String>;

    fn list(&self, session: &str, agents: &Vec<String>) -> Result<WorkFiles, String>;
}

/// Reads and writes files for the built-in tools.
pub trait SysIo {
    fn read(&self, path: &RealPath) -> Result<FileRead, String>;

    fn write(&self, path: &RealPath, content: &str) -> Result<(), String>;
}

/// Loads the prompt book.
pub trait PromptSource {
    fn load(&self) -> Result<Prompts, String>;
}

/// Runs a module's tool inside a fence.
pub trait ToolRunner {
    fn run(&self, fence: &FenceSpec, command: &str, args_json: &str) -> ToolOutcome;
}

/// Mends an envelope where that leaves no doubt of what was meant.
pub trait EnvelopeRepair {
    fn repair(&self, raw: &str, kind: &Malformed) -> RepairOutcome;
}

/// Writes the log.
pub trait Log {
    fn info(&self, at: &str, msg: &str);

    fn warn(&self, at: &str, msg: &str);

    fn error(&self, at: &str, msg: &str);
}

/// A log that keeps nothing.
pub struct NoopLog;

impl Log for NoopLog {
    fn info(&self, at: &str, msg: &str) {
    }

    fn warn(&self, at: &str, msg: &str) {
    }

    fn error(&self, at: &str, msg: &str) {
    }
}

// ---- what a port was asked, and what it gave ----

/// Whether reading the file at a path can have given this.
pub open spec fn has_read<I: SysIo>(io: I, path: PathV, r: Result<FileRead, String>) -> bool {
    exists|p: &RealPath| p@ == path && #[trigger] call_ensures(I::read, (&io, p), r)
}

/// Whether writing a content to the file at a path can have given this.
pub open spec fn wrote<I: SysIo>(io: I, path: PathV, content: Seq<char>, r: Result<(), String>) -> bool {
    exists|p: &RealPath, c: &str|
        p@ == path && c@ == content && #[trigger] call_ensures(I::write, (&io, p, c), r)
}

/// Whether running a command inside a fence can have given this.
pub open spec fn has_run<R: ToolRunner>(
    runner: R,
    fence: FenceV,
    command: Seq<char>,
    args: Seq<char>,
    r: ToolOutcome,
) -> bool {
    exists|f: &FenceSpec, c: &str, a: &str|
        f@ == fence && c@ == command && a@ == args && #[trigger] call_ensures(
            R::run,
            (&runner, f, c, a),
            r,
        )
}

} // verus!
