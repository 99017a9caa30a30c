//! Sessions, tools, discussions and works from end to end, with files and models
//! played by the tests.
use solomni::assembly::{agent_modules, build_single, rebuild_session, Around, Record};
use solomni::chain::{NodeStatus, TaskChain};
use solomni::collab::{
    Assembled, Clarity, CollabSession, PlanMade, StageVerdicts, Step,
};
use solomni::desk::{mode_change_note, Core, Prepared, Session};
use solomni::discussion::{plan_chain, turn_with, Member, MemberTurn, SynthNode};
use solomni::drive::{
    child_name, child_record, compact_note, end_turn, node_report, ready_nodes, stand_tag, start_work,
    CollabWork,
};
use solomni::engine::{batch_end, is_parallel, MemberTools, ModuleTools, Planned};
use solomni::envelope::Verb;
use solomni::events::{LineView, Pending, SessionEvent};
use solomni::execution::{ExecSpec, Platform, Tier};
use solomni::fence::FenceSpec;
use solomni::history::{AgentMeta, HistoryView, SessionMeta};
use solomni::journal::record_events;
use solomni::json::{int_json, Json};
use solomni::module::{Module, ModuleManifest, Roster};
use solomni::operation::{core_operation, core_operation_blind, Operated};
use solomni::ports::{
    Completion, FileRead, Msg, RepairOutcome, SysIo, ToolCall, ToolOutcome, ToolRunner,
};
use solomni::prompt::{
    AgentPrompts, CorePrompts, DiscussPrompts, ExecutePrompts, NodeReviewPrompts, Prompts,
    RefsPrompts, RerunPrompts, ReviewPrompts, SlatePrompts, SuggestPrompts, SynthPrompts,
    ToolTexts, VerdictPrompts,
};
use solomni::providers::{AppSettings, Settings, ToolMode};
use solomni::rebuild::{line_said, rebuild};
use solomni::refs::{full_path, rewrite, RefRoots};
use solomni::review::{verdict_problems, CheckItem, Checklist, Execution, NodeVerdict};
use solomni::roles::{RoleDecl, SystemTools};
use solomni::schema::{Param, ParamType, ToolSchema};
use solomni::session::{take_summary, tool_lines, AgentSession, DiscLine, SessionParams};
use solomni::suggest::ask_suggestions;
use solomni::systool::{execute, near_match, patch_writes, Observations, ToolNotes};
use solomni::table::Table;
use solomni::team::{assemble_members, core_verify_tools, gather_packs, read_only_roots};
use solomni::turn::{cut_note, hear, Talk};
use solomni::packages::{Library, PackageManifest};
use solomni::work::{
    AgentInstance, CollabStep, ConfigAgent, Machine, SessionEdit, WorkMode, WorkSpec,
};
use solomni::workspace::{Part, Place, RealPath, Sandbox, Sandboxes};
use std::cell::RefCell;
use std::collections::BTreeMap;

fn s(v: &str) -> String {
    v.to_string()
}

fn tool_texts() -> ToolTexts {
    ToolTexts {
        path_empty: s("path_empty"),
        path_need_absolute: s("path_need_absolute {{path}}"),
        path_empty_segment: s("path_empty_segment {{path}}"),
        path_cur_dir: s("path_cur_dir {{path}}"),
        path_parent_dir: s("path_parent_dir {{path}}"),
        path_outside_roots: s("path_outside_roots {{path}}"),
        roots_wrapper: s("roots_wrapper {{why}} {{roots}}"),
        roots_shared: s("roots_shared {{root}}"),
        roots_private: s("roots_private {{root}}"),
        roots_module: s("roots_module {{id}} {{root}}"),
        bad_args_json: s("bad_args_json {{error}}"),
        arg_fault: s("arg_fault {{why}} {{signature}}"),
        arg_not_object: s("arg_not_object"),
        arg_missing: s("arg_missing {{name}}"),
        arg_wrong_type: s("arg_wrong_type {{name}} {{want}}"),
        arg_empty: s("arg_empty {{name}}"),
        arg_too_small: s("arg_too_small {{name}} {{min}}"),
        arg_too_big: s("arg_too_big {{name}} {{max}}"),
        arg_unknown: s("arg_unknown {{name}}"),
        unknown_builtin: s("unknown_builtin {{name}}"),
        read_header: s("read_header {{path}} {{bytes}} {{text}}"),
        write_header: s("write_header {{path}} {{chars}}"),
        edit_header: s("edit_header {{path}} {{n}} {{lines}}"),
        edit_same: s("edit_same"),
        edit_no_match: s("edit_no_match {{total}}"),
        edit_no_match_near: s("edit_no_match_near {{line}} {{actual}}"),
        edit_multi: s("edit_multi {{n}} {{lines}}"),
        edit_file_cut: s("edit_file_cut {{path}}"),
        edit_file_lossy: s("edit_file_lossy {{path}}"),
        patch_header: s("patch_header {{blocks}} {{files}} {{lines}}"),
        patch_block_add: s("patch_block_add {{path}} {{chars}}"),
        patch_block_overwrite: s("patch_block_overwrite {{path}} {{chars}}"),
        patch_block_update: s("patch_block_update {{path}} {{n}}"),
        patch_block_fault: s("patch_block_fault {{n}} {{why}}"),
        patch_edit_fault: s("patch_edit_fault {{n}} {{k}} {{path}} {{why}}"),
        patch_write_failed: s("patch_write_failed {{n}} {{error}}"),
        patch_not_found: s("patch_not_found {{total}}"),
        patch_multiple: s("patch_multiple {{n}} {{lines}}"),
        patch_near: s("patch_near {{line}} {{actual}}"),
        patch_file_missing: s("patch_file_missing {{path}}"),
        patch_no_blocks: s("patch_no_blocks"),
        patch_unknown_marker: s("patch_unknown_marker {{line}} {{text}}"),
        patch_missing_path: s("patch_missing_path {{line}} {{marker}}"),
        patch_empty_add: s("patch_empty_add {{line}}"),
        patch_empty_update: s("patch_empty_update {{line}}"),
        patch_empty_search: s("patch_empty_search {{line}}"),
        patch_missing_end: s("patch_missing_end {{line}}"),
        patch_search_no_replace: s("patch_search_no_replace {{line}}"),
        patch_replace_no_search: s("patch_replace_no_search {{line}}"),
        write_need_read: s("write_need_read {{path}}"),
        write_stale: s("write_stale {{path}}"),
        write_partial: s("write_partial {{path}} {{why}}"),
        read_partial_range: s("read_partial_range {{from}} {{to}} {{total}}"),
        read_partial_cut: s("read_partial_cut"),
        read_partial_lossy: s("read_partial_lossy"),
        read_partial_none: s("read_partial_none"),
        write_module_note: s("write_module_note {{mark}} {{id}}"),
        search_header: s("search_header {{path}} {{keyword}} {{mode}}"),
        search_mode_sensitive: s("search_mode_sensitive"),
        search_mode_insensitive: s("search_mode_insensitive"),
        search_no_hits: s("search_no_hits"),
        search_summary: s("search_summary {{hits}} {{total}}"),
        search_hit_line: s("search_hit_line {{n}} {{line}}"),
        search_truncated: s("search_truncated {{limit}}"),
        read_line: s("read_line {{n}} {{line}}"),
        read_line_capped: s("read_line_capped {{limit}}"),
        read_more: s("read_more {{from}} {{to}} {{total}} {{next}}"),
        read_more_cut: s("read_more_cut {{from}} {{to}}"),
        read_end: s("read_end {{total}}"),
        read_past_end: s("read_past_end {{total}}"),
        search_truncated_bytes: s("search_truncated_bytes"),
        lossy_note: s("lossy_note"),
        no_module_field: s("no_module_field {{tool}}"),
        unknown_module: s("unknown_module {{module}}"),
        module_lacks_tool: s("module_lacks_tool {{module}} {{tool}}"),
        module_unavailable: s("module_unavailable {{module}} {{capability}}"),
        available_wrapper: s("available_wrapper {{why}} {{tools}}"),
        tool_result_wrapper: s("tool_result_wrapper {{label}} {{output}}"),
        tool_cap: s("tool_cap {{n}}"),
        envelope_repaired: s("envelope_repaired {{what}}"),
        malformed_unclosed_brace: s("malformed_unclosed_brace {{missing}}"),
        native_no_envelope: s("native_no_envelope"),
        malformed_multi: s("malformed_multi {{n}} {{missing}}"),
        malformed_unclosed_string: s("malformed_unclosed_string"),
        malformed_missing_tail: s("malformed_missing_tail {{missing}}"),
        malformed_cut_string: s("malformed_cut_string"),
        malformed_truncated: s("malformed_truncated"),
        malformed_control: s("malformed_control {{what}} {{line}}"),
        malformed_syntax: s("malformed_syntax {{why}}"),
        malformed_shape: s("malformed_shape {{why}}"),
        control_lf: s("control_lf"),
        control_cr: s("control_cr"),
        control_tab: s("control_tab"),
        control_other: s("control_other {{code}}"),
        discuss_degraded: s("discuss_degraded"),
        stopped_suffix: s("stopped_suffix"),
        truncated_suffix: s("truncated_suffix"),
        tool_stderr_header: s("tool_stderr_header"),
        tool_timeout: s("tool_timeout"),
        tool_fence_failed: s("tool_fence_failed"),
        tool_truncated: s("tool_truncated {{chars}} {{limit}}"),
        module_listing_line: s("module_listing_line {{id}} {{brief}}"),
        module_tools_line: s("module_tools_line {{id}} {{tools}}"),
        module_tool_params_line: s("module_tool_params_line {{module}} {{tool}} {{signature}}"),
        module_root_line: s("module_root_line {{id}} {{root}}"),
        agent_listing_line: s("agent_listing_line {{name}} {{modules}} {{model}} {{note}}"),
        model_listing_line: s("model_listing_line {{id}} {{name}} {{api_model}} {{note}}"),
        tool_list_separator: s("tool_list_separator"),
        discuss_reminder: s("discuss_reminder"),
        tools_this_turn: s("tools_this_turn {{tools}}"),
        compact_prompt: s("compact_prompt"),
    }
}

fn prompts() -> Prompts {
    Prompts {
        core: CorePrompts {
            chat_protocol: s("chat_protocol"),
            mechanism: s("mechanism"),
            discuss: DiscussPrompts {
                opener: s("opener {{protocol}} {{task}}"),
                step: s("step {{transcript}}"),
                autonomy_note: s("autonomy_note"),
            },
            synthesize: SynthPrompts {
                system: s("system"),
                user: s("user {{roster}} {{transcript}}"),
            },
            execute: ExecutePrompts {
                user: s("user {{tasks}}"),
            },
            review: ReviewPrompts {
                system: s("system"),
                user: s("user {{plan}} {{reports}} {{nodes}}"),
            },
            rerun: RerunPrompts {
                user: s("user {{tasks}} {{review}} {{report}}"),
            },
            verdict: VerdictPrompts {
                system: s("system"),
                user: s("user {{kind}} {{payload}} {{text}}"),
            },
            node_review: NodeReviewPrompts {
                system: s("system"),
                user: s("user {{nodes}}"),
            },
            slate: SlatePrompts {
                system: s("system"),
                user: s("user {{agents}} {{modules}} {{models}} {{task}}"),
            },
            suggest_models: SuggestPrompts {
                system: s("system"),
                user: s("user {{mode}} {{agents}} {{modules}} {{models}} {{task}}"),
                mode_single: s("mode_single"),
                mode_collab: s("mode_collab"),
            },
            agent: AgentPrompts {
                system: s("system {{agent}} {{modules}} {{sys_tools}} {{module_tools}} {{module_tool_params}} {{tool_calling}}"),
            },
            refs: RefsPrompts {
                foreign_sandbox: s("foreign_sandbox {{agent}} {{path}}"),
                collab_sandbox: s("collab_sandbox {{agent}} {{path}}"),
            },
            tool_calling_envelope: s("tool_calling_envelope"),
            tool_calling_native: s("tool_calling_native"),
            tool_texts: tool_texts(),
            sys_tools: s("sys_tools {{work_name}} {{agent}} {{work_root}} {{sandbox_root}} {{module_roots}} {{tool_params}} {{patch_guide}}"),
            patch_guide: s("patch_guide {{work_root}} {{sandbox_root}}"),
            builtin_tools: Table::new(),
            no_agents: s("no_agents"),
            no_model: s("no_model"),
            no_module_dirs: s("no_module_dirs"),
            no_module_tools: s("no_module_tools"),
            module_tool_params_header: s("module_tool_params_header"),
            no_module_tool_params: s("no_module_tool_params"),
        },
    }
}

// ---- files and tools ----

struct Files {
    at: RefCell<BTreeMap<String, String>>,
}

impl Files {
    fn with(v: Vec<(&str, &str)>) -> Files {
        Files {
            at: RefCell::new(v.into_iter().map(|(k, t)| (s(k), s(t))).collect()),
        }
    }

    fn text(&self, p: &str) -> Option<String> {
        self.at.borrow().get(p).cloned()
    }
}

impl SysIo for Files {
    fn read(&self, path: &RealPath) -> Result<FileRead, String> {
        match self.at.borrow().get(&path.text) {
            Some(t) => Ok(FileRead {
                text: t.clone(),
                bytes: t.len(),
                lossy: false,
                cut: false,
            }),
            None => Err(s("没有这个文件")),
        }
    }

    fn write(&self, path: &RealPath, content: &str) -> Result<(), String> {
        self.at.borrow_mut().insert(path.text.clone(), s(content));
        Ok(())
    }
}

struct Runner;

impl ToolRunner for Runner {
    fn run(&self, _fence: &FenceSpec, command: &str, args_json: &str) -> ToolOutcome {
        ToolOutcome {
            ok: true,
            output: format!("{} {}", command, args_json),
        }
    }
}

fn path(t: &str) -> RealPath {
    let mut parts = vec![s("/")];
    for p in t.split('/').filter(|p| !p.is_empty()) {
        parts.push(s(p));
    }
    RealPath { text: s(t), parts }
}

fn param(ty: ParamType, required: bool) -> Param {
    Param {
        ty,
        required,
        non_empty: false,
        desc: s(""),
        default: None,
        min: None,
        max: None,
    }
}

fn tool(capability: &str, params: Vec<(&str, ParamType, bool)>) -> ToolSchema {
    let mut t = Table::new();
    for (k, ty, req) in params {
        t.insert(s(k), param(ty, req));
    }
    ToolSchema {
        desc: s("工具"),
        params: Some(t),
        parallel: false,
        capability: s(capability),
    }
}

fn book() -> Table<ToolSchema> {
    let mut b = Table::new();
    b.insert(
        s("read"),
        tool(
            "fs-read",
            vec![
                ("path", ParamType::String, true),
                ("offset", ParamType::Integer, false),
                ("limit", ParamType::Integer, false),
            ],
        ),
    );
    b.insert(
        s("write"),
        tool(
            "fs-write",
            vec![
                ("path", ParamType::String, true),
                ("content", ParamType::String, true),
            ],
        ),
    );
    b.insert(
        s("edit"),
        tool(
            "fs-write",
            vec![
                ("path", ParamType::String, true),
                ("old_text", ParamType::String, true),
                ("new_text", ParamType::String, true),
            ],
        ),
    );
    b.insert(
        s("patch"),
        ToolSchema {
            desc: s("补丁"),
            params: None,
            parallel: false,
            capability: s("fs-write"),
        },
    );
    b
}

fn sandbox(agent: &str) -> Sandbox {
    let mut modules = Table::new();
    modules.insert(s("模"), path("/m"));
    Sandbox {
        work_name: s("工作"),
        agent: s(agent),
        shared: path("/w"),
        private: path("/p"),
        modules,
        texts: tool_texts(),
        builtin_tools: book(),
    }
}

fn seat(mode: ToolMode) -> MemberTools {
    let sb = sandbox("甲");
    let mut commands = Table::new();
    commands.insert(s("跑"), s("run.sh"));
    let mut modules = Table::new();
    modules.insert(
        s("模"),
        ModuleTools {
            root: path("/m"),
            commands,
            books: Table::new(),
            parallel: vec![],
        },
    );
    let fence = FenceSpec::from_sandbox(&sb, false);
    MemberTools {
        mode,
        modules,
        observations: Observations::new(),
        sandbox: sb,
        unavailable: Table::new(),
        fence,
        reply_seq: 0,
        allowed: vec![s("read"), s("write"), s("edit"), s("patch")],
        with_modules: true,
        notes: ToolNotes {
            patch_guide: s(""),
            module_tools: s(""),
            module_tool_params: s(""),
        },
    }
}

#[test]
fn the_book_of_these_tests_is_sound() {
    assert!(prompts().sound());
    assert!(tool_texts().sound());
    let mut broken = prompts();
    broken.core.discuss.step = s("{{nobody}}");
    assert!(!broken.sound());
}

#[test]
fn paths_are_kept_to_the_roots() {
    let sb = sandbox("甲");
    let (place, p) = sb.resolve("/w/a/b.md").unwrap();
    assert!(matches!(place, Place::Shared));
    assert_eq!(p.text, "/w/a/b.md");
    assert!(matches!(sb.resolve("/p/x").unwrap().0, Place::Private));
    match sb.resolve("/m/x").unwrap().0 {
        Place::Module(id) => assert_eq!(id, "模"),
        other => panic!("{:?}", other),
    }
    for bad in ["", "a/b", "/w/../p", "/etc/x", "/wx/a", "/w/./a", "/w/a/.", "/w//a"] {
        assert!(sb.resolve(bad).is_err(), "{}", bad);
    }
    let odd = "/w/a\\.\\b";
    if std::path::MAIN_SEPARATOR == '/' {
        assert_eq!(sb.resolve(odd).unwrap().1.text, odd);
    }
}

#[test]
fn a_path_is_used_only_where_it_reads_back_as_it_was_read() {
    let sb = sandbox("甲");
    let norm = || vec![s("/"), s("w"), s("a")];
    let back = |dir: &str| {
        vec![
            Part::Anchor(s("/")),
            Part::Normal(s(dir)),
            Part::Normal(s("a")),
        ]
    };
    let (place, p) = sb
        .settle("/w/a", Place::Shared, norm(), s("/w/a"), &back("w"))
        .unwrap();
    assert!(matches!(place, Place::Shared));
    assert_eq!(p.text, "/w/a");
    assert_eq!(p.parts, norm());
    assert!(sb
        .settle("/w/a", Place::Shared, norm(), s("d:a"), &back("d"))
        .is_err());
    assert!(sb
        .settle("/w/a", Place::Shared, norm(), s("/w"), &vec![Part::Anchor(s("/"))])
        .is_err());
}

#[test]
fn a_file_is_not_overwritten_unread() {
    let sb = sandbox("甲");
    let io = Files::with(vec![("/w/a.md", "一\n二\n")]);
    let mut obs = Observations::new();
    let write = "{\"path\":\"/w/a.md\",\"content\":\"新\"}";
    assert!(!execute(&sb, &io, &mut obs, "write", write).ok);
    assert_eq!(io.text("/w/a.md"), Some(s("一\n二\n")));
    let seen = execute(&sb, &io, &mut obs, "read", "{\"path\":\"/w/a.md\"}");
    assert!(seen.ok);
    assert!(seen.output.contains("一"), "{}", seen.output);
    io.at.borrow_mut().insert(s("/w/a.md"), s("别人改的\n"));
    assert!(
        !execute(&sb, &io, &mut obs, "write", write).ok,
        "读过之后又变了"
    );
    execute(&sb, &io, &mut obs, "read", "{\"path\":\"/w/a.md\"}");
    assert!(execute(&sb, &io, &mut obs, "write", write).ok);
    assert_eq!(io.text("/w/a.md"), Some(s("新")));
    let new = "{\"path\":\"/w/新.md\",\"content\":\"x\"}";
    assert!(execute(&sb, &io, &mut obs, "write", new).ok, "新文件不必先读");
    assert!(!execute(&sb, &io, &mut obs, "write", "不是 JSON").ok);
    assert!(!execute(&sb, &io, &mut obs, "write", "{\"path\":\"/w/x\"}").ok);
    assert!(!execute(&sb, &io, &mut obs, "nope", "{}").ok);
    assert!(
        !execute(&sb, &io, &mut obs, "read", "{\"path\":\"/etc/passwd\"}").ok,
        "不在任何根里"
    );
}

#[test]
fn a_patch_is_applied_as_a_whole_or_not_at_all() {
    let sb = sandbox("甲");
    let io = Files::with(vec![("/w/a.md", "一\n二\n")]);
    let mut obs = Observations::new();
    execute(&sb, &io, &mut obs, "read", "{\"path\":\"/w/a.md\"}");
    let bad = "*** Update File: /w/a.md\n*** SEARCH\n一\n*** REPLACE\n改\n*** End File\n*** Update File: /w/a.md\n*** SEARCH\n没有\n*** REPLACE\n改\n*** End File\n";
    assert!(!execute(&sb, &io, &mut obs, "patch", bad).ok);
    assert_eq!(io.text("/w/a.md"), Some(s("一\n二\n")), "没有半套");
    let good = "*** Update File: /w/a.md\n*** SEARCH\n一\n*** REPLACE\n改\n*** End File\n*** Add File: /w/b.md\n新\n*** End File\n";
    let r = execute(&sb, &io, &mut obs, "patch", good);
    assert!(r.ok, "{}", r.output);
    assert_eq!(io.text("/w/a.md"), Some(s("改\n二\n")));
    assert_eq!(io.text("/w/b.md"), Some(s("新")));
    assert_eq!(near_match("甲\n    乙\n", "乙").map(|x| x.0), Some(2));
}

#[test]
fn references_become_paths() {
    let p = prompts();
    let roots = RefRoots {
        work: path("/w"),
        private: Some(path("/p")),
    };
    assert_eq!(full_path(&path("/w"), "a.md"), Some(s("/w/a.md")));
    assert_eq!(full_path(&path("/w"), "a\\\\b//c.md"), Some(s("/w/a/b/c.md")));
    let empty = RealPath {
        text: s(""),
        parts: vec![],
    };
    assert_eq!(full_path(&empty, "a.md"), None);
    let go = |t: &str, who: Option<&str>| rewrite(t, who, &roots, &p.core.refs);
    assert_eq!(go("没有引用 @x", Some("甲")), "没有引用 @x");
    assert_eq!(go("看 @work:a.md，好", Some("甲")), "看 /w/a.md，好");
    assert_eq!(go("@work:\"a b.md\"!", Some("甲")), "/w/a b.md!");
    assert_eq!(go("@sandbox:甲/b.md", Some("甲")), "/p/b.md");
    assert_eq!(
        go("@sandbox:乙/b.md", Some("甲")),
        "foreign_sandbox 乙 b.md"
    );
    assert_eq!(go("@sandbox:甲/b.md", None), "collab_sandbox 甲 b.md");
}

// ---- talking ----

fn done(raw: &str) -> Completion {
    Completion::text(s(raw))
}

fn talk(mode: ToolMode, replies: Vec<Completion>, verbs: bool, io: &Files) -> (Talk, MemberTools) {
    let mut t = seat(mode);
    let mut k = Talk::start("身份", Some(&t), &vec![Msg::user(s("做"))], &vec![]);
    for r in replies {
        assert!(!k.over);
        let asked = k.ask(&mut t);
        let heard = hear(r, String::new(), false, None);
        k.take(&mut t, io, &Runner, &asked, "甲", verbs, &heard, false);
    }
    (k, t)
}

#[test]
fn a_talk_goes_on_until_no_tool_is_called() {
    let io = Files::with(vec![("/w/a.md", "内容")]);
    let call = "{\"type\":\"tool\",\"name\":\"read\",\"args\":{\"path\":\"/w/a.md\"}}";
    let (k, _) = talk(
        ToolMode::Envelope,
        vec![done(call), done("{\"type\":\"say\",\"text\":\"好了\"}")],
        false,
        &io,
    );
    assert!(k.over);
    assert_eq!(k.rounds.len(), 2);
    let run = k.rounds[0].tool.as_ref().unwrap();
    assert_eq!(run.view.name, "read");
    assert!(run.view.ok, "{}", run.view.output);
    assert_eq!(k.rounds[1].text, "好了");
    let turn = turn_with(&k.rounds, false).unwrap();
    assert_eq!(turn.text, "好了");
    let calls = tool_lines(&k.rounds);
    assert_eq!(calls.len(), 1);
    assert_eq!(calls[0].text, "read");
    assert_eq!(calls[0].tool.as_ref().unwrap().name, "read");
    let mut cut = done("半截话");
    assert_eq!(cut_note(&cut, 1), None);
    cut.finish = s("length");
    assert_eq!(
        cut_note(&cut, 1),
        Some(s("模型输出被长度截断（finish_reason=length）：第 2 轮，正文 3 字"))
    );
    assert_eq!(turn_with(&k.rounds, true).err(), Some(s("已停止")));
}

#[test]
fn native_calls_are_run_and_answered() {
    let io = Files::with(vec![("/w/a.md", "内容")]);
    let mut c = done("");
    c.calls = vec![ToolCall {
        id: s("c1"),
        name: s("read"),
        args_json: s("{\"path\":\"/w/a.md\"}"),
    }];
    let (k, _) = talk(ToolMode::Native, vec![c, done("看过了")], false, &io);
    assert!(k.over);
    let run = k.rounds[0].tool.as_ref().unwrap();
    assert!(run.view.ok);
    assert_eq!(run.view.call_id, "c1");
    assert!(k.msgs.iter().any(|m| m.role == "tool" && m.call_id == "c1"));
}

#[test]
fn a_failed_call_ends_the_turn() {
    let io = Files::with(vec![]);
    let mut c = done("半截");
    c.error = Some(s("断网"));
    let (k, _) = talk(ToolMode::Envelope, vec![c], false, &io);
    assert!(k.over);
    assert_eq!(turn_with(&k.rounds, false).err(), Some(s("断网")));
    let mended = hear(
        done("{\"type\":\"say\",\"text\":\"x\""),
        String::new(),
        false,
        Some(RepairOutcome {
            repaired: Some(s("{\"type\":\"say\",\"text\":\"x\"}")),
            what: vec![s("补括号")],
        }),
    );
    assert_eq!(mended.reply.verb, Verb::Say);
}

// ---- an agent's session ----

fn params(agent: &str) -> SessionParams {
    SessionParams::from_packs(agent, &sandbox(agent), vec![(s("模"), s("职责"))])
}

fn session() -> AgentSession {
    AgentSession::new(
        "甲",
        params("甲"),
        Some(s("演示通道")),
        Some(seat(ToolMode::Envelope)),
        prompts().core.refs,
        tool_texts(),
    )
}

fn lines_of(events: &[SessionEvent]) -> Vec<LineView> {
    let mut v = vec![];
    for e in events {
        if let SessionEvent::Transcript(ls) = e {
            v.extend(ls.iter().map(|l| l.copy()));
        }
    }
    v
}

#[test]
fn going_back_undoes_what_was_said() {
    let mut a = session();
    assert_eq!(a.open().len(), 1);
    let said = a.say("第一句");
    assert_eq!(lines_of(&said).len(), 1);
    assert!(a.last_is_user());
    let io = Files::with(vec![]);
    let (k, _) = talk(
        ToolMode::Envelope,
        vec![done("{\"type\":\"say\",\"text\":\"答\"}")],
        false,
        &io,
    );
    let before = a.dialogue().len();
    let at = a.next_line_id();
    let out = a.rounds_events(&k.rounds, false);
    assert!(!lines_of(&out).is_empty());
    assert!(!a.last_is_user());
    assert!(a.dialogue().len() > before);
    a.say("第二句");
    a.rewind(at);
    assert_eq!(a.dialogue().len(), before);
    assert!(a.last_is_user());
    assert_eq!(a.next_line_id(), at);
    a.rewind(0);
    assert_eq!(a.dialogue().len(), 0);
    assert_eq!(a.next_line_id(), 0);
}

#[test]
fn a_summary_takes_the_place_of_what_it_sums_up() {
    let mut a = session();
    a.say("一");
    a.say("二");
    a.set_compact_budget(1);
    assert!(a.wants_compact());
    let ev = a.take_compaction(Ok(s("要点")));
    match &ev[0] {
        SessionEvent::Compacted { up_to, summary } => {
            assert_eq!((*up_to, summary.as_str()), (2, "要点"));
        }
        other => panic!("{:?}", other),
    }
    assert_eq!(a.dialogue().len(), 1);
    assert_eq!(a.dialogue()[0].content, "[此前内容摘要]\n要点");
    let ev = a.take_compaction(Err(s("没给")));
    match &ev[0] {
        SessionEvent::Notice(n) => assert!(n.contains("没给")),
        other => panic!("{:?}", other),
    }
    assert_eq!(a.dialogue().len(), 1);
    assert!(take_summary(&done("没有调用")).is_err());
    assert_eq!(
        compact_note("x"),
        "[中断] 压缩没成功：x；本轮已中断，会话保留——点「继续」可重试。"
    );
}

#[test]
fn a_session_is_built_anew_from_its_lines() {
    let mut a = session();
    let mut lines = lines_of(&a.say("你好"));
    let io = Files::with(vec![("/w/a.md", "内容")]);
    let call = "{\"type\":\"tool\",\"name\":\"read\",\"args\":{\"path\":\"/w/a.md\"}}";
    let (k, _) = talk(
        ToolMode::Envelope,
        vec![done(call), done("{\"type\":\"say\",\"text\":\"好了\"}")],
        false,
        &io,
    );
    lines.extend(lines_of(&a.rounds_events(&k.rounds, false)));
    let r = rebuild(&lines, ToolMode::Envelope, &tool_texts());
    assert_eq!(r.dialogue.len(), a.dialogue().len());
    for (x, y) in r.dialogue.iter().zip(a.dialogue().iter()) {
        assert_eq!(x.role, y.role);
        assert_eq!(x.content, y.content);
    }
    assert_eq!(r.line_reply.len(), lines.len());
    assert_eq!(line_said("[甲] 你好"), "你好");
}

#[test]
fn a_turn_is_noted_in_the_session_of_its_member() {
    let mut a = session();
    let ev = a.note_turn(
        2,
        7,
        stand_tag(None),
        "想了想",
        &vec![DiscLine {
            text: s("看了文件"),
            tool: None,
        }],
    );
    assert_eq!(lines_of(&ev).len(), 3);
    assert_eq!(stand_tag(Some(Verb::Agree)), "agree");
    assert_eq!(stand_tag(None), "未表态");
    assert_eq!(child_name("工作", "甲"), "工作--甲");
}

// ---- the core's own operations ----

fn systools() -> SystemTools {
    let mut tools = book();
    tools.insert(s("plan"), tool("verdict", vec![]));
    let mut roles = Table::new();
    roles.insert(
        s("planner"),
        RoleDecl {
            prompt: s(""),
            tools: vec![s("plan"), s("read"), s("write")],
            module_tools: false,
        },
    );
    SystemTools { tools, roles }
}

#[test]
fn the_core_decides_by_its_tool() {
    let sys = systools();
    assert!(sys.allows("planner", "plan"));
    assert!(!sys.allows("planner", "edit"));
    assert!(sys.tool_face("nobody").is_err());
    let mut t = core_verify_tools(sandbox("甲"), ToolMode::Native, &sys, "planner");
    assert_eq!(t.sandbox.agent, "核心");
    assert_eq!(t.sandbox.modules.len(), 0);
    let io = Files::with(vec![("/w/a.md", "内容")]);
    let mut c = done("");
    c.calls = vec![ToolCall {
        id: s("1"),
        name: s("read"),
        args_json: s("{\"path\":\"/w/a.md\"}"),
    }];
    match core_operation(&mut t, &io, &sys, "planner", "plan", ToolMode::Native, &c) {
        Operated::Looked(lines, msgs) => {
            assert!(!lines.is_empty());
            assert!(!msgs.is_empty());
        }
        other => panic!("{:?}", other),
    }
    c.calls = vec![ToolCall {
        id: s("2"),
        name: s("plan"),
        args_json: s("{\"a\":1}"),
    }];
    match core_operation(&mut t, &io, &sys, "planner", "plan", ToolMode::Native, &c) {
        Operated::Done(v, _) => assert_eq!(v.u64_at("a"), Some(1)),
        other => panic!("{:?}", other),
    }
    match core_operation_blind("plan", &done("只是说说")) {
        Operated::Failed(why) => assert!(why.starts_with("没有调用 plan")),
        other => panic!("{:?}", other),
    }
}

// ---- a team's work ----

fn module(id: &str) -> Module {
    Module {
        manifest: ModuleManifest {
            id: s(id),
            brief: s("简述"),
            system: s("职责"),
            runtimes: vec![],
            tools: Table::new(),
        },
        root: path("/m"),
    }
}

fn roster() -> Roster {
    Roster {
        modules: vec![module("a"), module("b")],
        rejected: vec![],
    }
}

fn settings() -> Settings {
    Settings {
        providers: Table::new(),
        models: Table::new(),
        core: None,
        app: AppSettings::default(),
        agents: Table::new(),
    }
}

fn agent(name: &str, m: &str) -> AgentMeta {
    AgentMeta {
        name: s(name),
        transient: true,
        modules: vec![s(m)],
        model: None,
    }
}

fn team() -> Assembled {
    Assembled {
        members: vec![
            Member::plain("甲", params("甲"), ToolMode::Envelope),
            Member::plain("乙", params("乙"), ToolMode::Envelope),
        ],
        notes: vec![s("乙 用演示通道")],
    }
}

fn stand(verb: Option<Verb>, text: &str) -> MemberTurn {
    MemberTurn::verdict(verb, s(text), false, false)
}

fn synth(id: &str, who: &str, deps: Vec<&str>) -> SynthNode {
    SynthNode {
        id: s(id),
        title: s(id),
        objective: s("做"),
        assignee: s(who),
        deps: deps.into_iter().map(s).collect(),
    }
}

fn chain() -> TaskChain {
    plan_chain(vec![synth("n1", "甲", vec![]), synth("n2", "乙", vec!["n1"])])
}

/// Whether the last two events say that nobody is at work, and what waits for the user.
fn announced(ev: &[SessionEvent], what_for: &str) -> bool {
    ev.len() >= 2
        && matches!(ev[ev.len() - 2], SessionEvent::Idle)
        && matches!(&ev[ev.len() - 1], SessionEvent::Decision { advice, .. } if advice == what_for)
}

fn core_works(ev: &[SessionEvent]) -> bool {
    matches!(ev.last(), Some(SessionEvent::Working(who)) if who == "核心")
}

fn begun() -> CollabSession {
    let (p, st, r) = (prompts(), settings(), roster());
    let mut c = CollabSession::start(vec![agent("甲", "a"), agent("乙", "b")], false, path("/w"));
    let (step, ev) = c.set_task(&p, &st, &r, "写文档");
    assert!(matches!(step, Step::Wait));
    assert_eq!(ev.len(), 4);
    assert!(announced(&ev, ""));
    assert!(matches!(c.waiting_for(), Some(Pending::ConfirmBegin)));
    let (step, ev) = start_work(
        &mut c,
        &p,
        &st,
        &r,
        CollabWork::Step(CollabStep::Begin),
        "yes",
        Ok(team()),
        false,
    );
    assert!(matches!(step, Step::Again));
    assert_eq!(ev.len(), 2);
    c
}

fn drive(c: &mut CollabSession, turns: &mut dyn FnMut(usize) -> MemberTurn) -> Step {
    let p = prompts();
    for n in 0..60 {
        let (step, _) = c.pump_with(&p, false);
        match step {
            Step::Ask { i, .. } => {
                let id = c.next_turn_id();
                end_turn(c, &p, i, turns(i), id, false, 3, n);
            }
            other => return other,
        }
    }
    panic!("讨论没有结束");
}

#[test]
fn a_work_goes_from_its_task_to_its_delivery() {
    let (p, st, r) = (prompts(), settings(), roster());
    let mut c = begun();
    let step = drive(&mut c, &mut |_| stand(Some(Verb::Agree), "同意"));
    assert!(matches!(step, Step::Plan(_)), "{:?}", step);
    let (step, ev) = c.planned(
        Ok(PlanMade {
            plan: s("方案"),
            chain: chain(),
            advice: s("看好"),
        }),
        false,
    );
    assert!(matches!(step, Step::Again));
    assert!(matches!(ev[0], SessionEvent::Idle));
    assert!(matches!(ev[1], SessionEvent::Plan(_)));
    let (step, ev) = c.pump_with(&p, false);
    assert!(matches!(step, Step::Wait));
    assert_eq!(ev.len(), 3);
    assert!(matches!(ev[0], SessionEvent::PlanReview { .. }));
    assert!(announced(&ev, "看好"));
    assert!(matches!(c.waiting_for(), Some(Pending::PlanReview)));
    assert!(!c.plan_approved(), "没批准就不开工");
    assert_eq!(c.gate_advice(), "看好");
    let (_, ev) = start_work(
        &mut c,
        &p,
        &st,
        &r,
        CollabWork::Step(CollabStep::ApprovePlan),
        "",
        Err(s("")),
        false,
    );
    assert!(!ev.is_empty());
    assert!(c.plan_approved());
    let (first, second) = {
        let nodes = &c.chain().unwrap().nodes;
        (nodes[0].id.clone(), nodes[1].id.clone())
    };
    c.mark_node_started(&first, "工作--甲");
    assert_eq!(c.running_node_of("工作--甲"), Some(first.clone()));
    c.mark_node_done(&first, "做完了");
    let (step, ev) = c.pump_with(&p, false);
    assert!(core_works(&ev));
    let stage = match step {
        Step::ReviewStage { stage, .. } => stage,
        other => panic!("{:?}", other),
    };
    let verdict = |id: &str, ok: bool| NodeVerdict {
        node: s(id),
        ok,
        note: s("看过"),
    };
    let (_, ev) = c.stage_reviewed(
        &p,
        stage,
        Ok(StageVerdicts {
            verdicts: vec![verdict(&first, false)],
            advice: s("返工"),
        }),
        false,
    );
    assert!(matches!(ev[0], SessionEvent::Idle));
    assert!(announced(&ev, "返工"));
    match c.waiting_for() {
        Some(Pending::NodeBlocked { nodes }) => assert_eq!(nodes, &vec![first.clone()]),
        other => panic!("{:?}", other),
    }
    c.resume(&p, &st, &r);
    assert!(c.waiting_for().is_none());
    assert_eq!(c.chain().unwrap().nodes[0].status, NodeStatus::Pending);
    c.mark_node_started(&first, "工作--甲");
    c.mark_node_done(&first, "又做完了");
    c.pump_with(&p, false);
    c.stage_reviewed(
        &p,
        stage,
        Ok(StageVerdicts {
            verdicts: vec![verdict(&first, true)],
            advice: s(""),
        }),
        false,
    );
    c.mark_node_started(&second, "工作--乙");
    c.mark_node_done(&second, "也做完了");
    let stage = match c.pump_with(&p, false).0 {
        Step::ReviewStage { stage, .. } => stage,
        other => panic!("{:?}", other),
    };
    c.stage_reviewed(
        &p,
        stage,
        Ok(StageVerdicts {
            verdicts: vec![verdict(&second, true)],
            advice: s(""),
        }),
        false,
    );
    assert!(matches!(c.pump_with(&p, false).0, Step::ReviewAll(_)));
    let mut ex = Execution::new();
    ex.reviewed(
        Ok(Checklist {
            items: vec![CheckItem {
                item: s("齐全"),
                status: s("pass"),
                evidence: None,
                reason: None,
                rework: None,
            }],
            raw: s(""),
        }),
        false,
    );
    assert!(ex.all_pass());
    let (_, ev) = c.all_reviewed(&p, &ex, false);
    assert!(ev
        .iter()
        .any(|e| matches!(e, SessionEvent::Delivery { ok: true, .. })));
    assert!(c.is_done());
}

#[test]
fn whoever_takes_no_stand_is_reminded_then_passed_over() {
    let p = prompts();
    let mut c = begun();
    let (step, _) = c.pump_with(&p, false);
    let i = match step {
        Step::Ask { i, .. } => i,
        other => panic!("{:?}", other),
    };
    for n in 0..3 {
        let e = end_turn(&mut c, &p, i, stand(None, "嗯"), 1, false, 3, n);
        assert_eq!(e.reminder, Some(s("discuss_reminder")));
        assert!(matches!(c.pump_with(&p, false).0, Step::Ask { i: k, .. } if k == i));
    }
    let e = end_turn(&mut c, &p, i, stand(None, "嗯"), 1, false, 3, 3);
    assert_eq!(e.reminder, None);
    let said: Vec<String> = lines_of(&e.events).iter().map(|l| l.render()).collect();
    assert!(said.iter().any(|l| l.contains("本轮未回应")), "{:?}", said);
    let e = end_turn(&mut c, &p, 1, stand(Some(Verb::Say), "话"), 2, false, 3, 500);
    assert!(matches!(e.step, Step::Wait), "推进次数到了上限就停下");
    assert!(matches!(e.events.last(), Some(SessionEvent::Notice(_))));
}

#[test]
fn a_question_waits_for_the_user() {
    let (p, st, r) = (prompts(), settings(), roster());
    let mut c = begun();
    let step = drive(&mut c, &mut |i| {
        if i == 0 {
            stand(Some(Verb::Ask), "要几页")
        } else {
            stand(Some(Verb::Say), "好")
        }
    });
    assert!(matches!(step, Step::Wait));
    assert!(c.awaiting_user());
    match c.waiting_for() {
        Some(Pending::Ask { question, .. }) => assert_eq!(question, "要几页"),
        other => panic!("{:?}", other),
    }
    assert!(matches!(c.pump_with(&p, false).0, Step::Wait), "等用户时不往下走");
    start_work(
        &mut c,
        &p,
        &st,
        &r,
        CollabWork::Step(CollabStep::Answer),
        "两页",
        Err(s("")),
        false,
    );
    assert!(!c.awaiting_user());
    let step = drive(&mut c, &mut |_| stand(Some(Verb::Agree), "同意"));
    assert!(matches!(step, Step::Plan(_)));
    let (_, ev) = c.planned(Err(s("断网")), false);
    assert!(matches!(ev[0], SessionEvent::Idle));
    assert!(matches!(ev[1], SessionEvent::Notice(_)));
    c.planned(
        Ok(PlanMade {
            plan: s("方案"),
            chain: chain(),
            advice: s(""),
        }),
        false,
    );
    c.pump_with(&p, false);
    let (step, ev) = c.decide(&p, "先改一下");
    assert!(matches!(step, Step::Judge(_)));
    assert!(core_works(&ev));
    let (_, ev) = c.judged(
        &p,
        &st,
        &r,
        Ok(Clarity {
            clear: false,
            why: s("没说清"),
        }),
        "先改一下",
    );
    assert!(!ev.is_empty());
    assert!(c.awaiting_user());
}

#[test]
fn a_node_reports_the_last_line_of_its_session() {
    let told = vec![
        SessionEvent::Transcript(vec![
            LineView::user("需求", s("做")),
            LineView::system("注", s("第二行")),
        ]),
        SessionEvent::Transcript(vec![]),
        SessionEvent::Idle,
    ];
    assert_eq!(node_report(&told), LineView::system("注", s("第二行")).render());
    assert_eq!(node_report(&vec![SessionEvent::Ended]), "");
}

#[test]
fn a_drafted_roster_waits_for_the_user() {
    let (p, st, r) = (prompts(), settings(), roster());
    let mut c = CollabSession::start(vec![], true, path("/w"));
    let (step, ev) = c.set_task(&p, &st, &r, "写文档");
    assert!(matches!(step, Step::Draft(_)));
    assert!(core_works(&ev));
    let (_, ev) = c.drafted(None, &st, &r);
    assert!(matches!(ev[0], SessionEvent::Idle));
    assert!(matches!(ev.last(), Some(SessionEvent::Ended)));
    assert!(c.is_done());
}

#[test]
fn an_empty_task_ends_a_work() {
    let (p, st, r) = (prompts(), settings(), roster());
    let mut c = CollabSession::start(vec![], true, path("/w"));
    let (_, ev) = c.set_task(&p, &st, &r, "  ");
    assert!(matches!(ev.last(), Some(SessionEvent::Ended)));
    assert!(c.is_done());
}

#[test]
fn a_work_is_told_from_its_journal() {
    let c = begun();
    let mut d = begun();
    let (p, st, r) = (prompts(), settings(), roster());
    let mut fresh =
        CollabSession::start(vec![agent("甲", "a"), agent("乙", "b")], false, path("/w"));
    let (_, mut ev) = fresh.set_task(&p, &st, &r, "写文档");
    let (_, more) = fresh.begin(&p, true, Ok(team()), false);
    ev.extend(more);
    let journal = record_events(&ev);
    let none: Vec<Option<TaskChain>> = journal.iter().map(|_| None).collect();
    let state = solomni::collab_state::derive(&journal, &none, &vec![s("甲"), s("乙")]);
    assert_eq!(state.task, Some(s("写文档")));
    assert!(state.begun && state.allow && !state.ended);
    assert_eq!(c.round(), d.round());
    assert_eq!(c.roster().len(), 2);
    assert_eq!(d.next_turn_id(), 1);
    let bad = vec![NodeVerdict {
        node: s("n9"),
        ok: true,
        note: s(""),
    }];
    assert!(!verdict_problems(&bad, &vec![s("n1")]).is_empty());
}

#[test]
fn a_team_is_put_together_from_sandboxes() {
    let boxes = Sandboxes {
        shared: path("/w"),
        list: vec![sandbox("甲"), sandbox("乙")],
    };
    let team = assemble_members(
        &vec![agent("甲", "a"), agent("乙", "b")],
        &roster(),
        &settings(),
        &boxes,
    )
    .unwrap();
    assert_eq!(team.len(), 2);
    assert_eq!(team[1].id, "乙");
    assert!(assemble_members(&vec![agent("丙", "a")], &roster(), &settings(), &boxes).is_err());
    let (packs, missing) = gather_packs(&roster().modules, &vec![s("a"), s("z")]);
    assert_eq!((packs.len(), missing), (1, vec![s("z")]));
    let mut st = settings();
    st.app.fence_read = vec![s(" /x "), s(" ")];
    assert_eq!(read_only_roots(&st.app), vec!["/x"]);
}

// ---- the desk ----

fn history(name: &str, tier: Tier) -> HistoryView {
    HistoryView {
        name: s(name),
        mode: s("single"),
        ts: 0,
        done: false,
        exec_spec: ExecSpec {
            tier,
            base: None,
            pins: Table::new(),
            net: false,
        },
        parent: None,
    }
}

#[test]
fn a_session_at_work_is_left_alone() {
    let mut core = Core::new(settings(), prompts());
    let busy = "会话 一 正在生成中：先「停止」或等它结束，再做这一步";
    assert_eq!(core.take_single("一").err(), Some(s("无此会话")));
    assert_eq!(core.needs_session("一"), Ok(true));
    core.place("一", Session::Single(session()));
    core.place("队", Session::Collab(begun()));
    assert_eq!(core.needs_session("一"), Ok(false));
    assert_eq!(
        core.take_single("队").err(),
        Some(s("该会话不是单 agent 模式"))
    );
    assert_eq!(core.take_collab("一").err(), Some(s("该会话不是协作模式")));
    let a = core.take_single("一").unwrap();
    assert!(!core.session_exists("一"));
    assert_eq!(core.take_single("一").err(), Some(s(busy)));
    assert_eq!(core.needs_session("一").err(), Some(s(busy)));
    assert_eq!(core.forget("一").err(), Some(s(busy)));
    assert_eq!(core.rewind("一", 0).err(), Some(s(busy)));
    assert!(core.session_exists("队"), "别的会话照常");
    let views = core.session_views(
        &vec![history("一", Tier::Vm)],
        &vec![false],
        false,
        Platform::Linux,
    );
    assert_eq!(views.len(), 2);
    assert_eq!((views[1].sid.as_str(), views[1].tier.as_str()), ("一", "vm"));
    assert!(!views[1].tier_ready);
    assert_eq!(views[0].mode, "");
    core.put_single("一", a);
    assert_eq!(core.rewind("一", 0), Ok(true));
    assert_eq!(core.rewind("队", 0), Ok(false));
    let c = core.take_collab("队").unwrap();
    core.put_collab("队", c);
    core.take_single("一").unwrap();
    core.abort_running("一");
    assert_eq!(core.needs_session("一"), Ok(true), "丢了就按记录重建");
    assert_eq!(core.forget("队"), Ok(true));
    assert_eq!(core.forget("队"), Ok(false));
}

#[test]
fn an_agent_with_the_last_word_does_not_go_on() {
    let mut core = Core::new(settings(), prompts());
    core.place("一", Session::Single(session()));
    core.place("队", Session::Collab(begun()));
    match core.prepare_single("一", None, Some(mode_change_note(ToolMode::Native)), true) {
        Ok(Prepared::Immediate(ev)) => assert_eq!(ev.len(), 2),
        other => panic!("{:?}", other),
    }
    assert!(matches!(
        core.prepare_single("队", None, None, true),
        Ok(Prepared::NotSingle)
    ));
    match core.prepare_single("一", Some("说"), None, true) {
        Ok(Prepared::Run { prefix, llm, .. }) => {
            assert!(prefix.is_empty());
            assert!(llm.stream);
        }
        other => panic!("{:?}", other),
    }
    assert!(core.prepare_single("一", Some("说"), None, true).is_err());
    let mut app = core.app_settings();
    app.streaming = false;
    app.qemu_path = s(" /q ");
    core.set_app_settings(app);
    assert!(!core.llm_opts(true).stream);
    assert_eq!(core.qemu_path(), Some(s("/q")));
    assert!(core.channel_of(None).is_none());
}

#[test]
fn short_steps_are_done_on_the_desk() {
    let mut core = Core::new(settings(), prompts());
    let r = roster();
    assert_eq!(
        core.collab_continue("队", CollabStep::SetTask, "做", &r).err(),
        Some(s("无此会话"))
    );
    core.place("一", Session::Single(session()));
    assert_eq!(
        core.collab_continue("一", CollabStep::SetTask, "做", &r).err(),
        Some(s("该会话不是协作模式"))
    );
    core.place(
        "队",
        Session::Collab(CollabSession::start(vec![agent("甲", "a")], false, path("/w"))),
    );
    let (step, ev, team) = core
        .collab_continue("队", CollabStep::SetTask, "做", &r)
        .unwrap();
    assert!(matches!(step, Step::Wait));
    assert_eq!(ev.len(), 4);
    assert!(team.is_none());
    assert!(matches!(
        core.collab_pending("队"),
        Ok(Some(Pending::ConfirmBegin))
    ));
    assert_eq!(core.collab_slate("队").unwrap().len(), 0);
    assert!(core.withdraw_agree("队", "甲").is_ok());
    assert_eq!(
        core.withdraw_agree("一", "甲").err(),
        Some(s("只有协作会话有「同意」可撤回"))
    );
    core.collab_continue("队", CollabStep::ConfirmSlate, "no", &r)
        .unwrap();
    assert!(!core.session_exists("队"), "取消的工作收走");
}

#[test]
fn how_tools_are_called_follows_the_registry() {
    let mut st = settings();
    st.provider_upsert("p", "u", "k").unwrap();
    st.model_upsert("m", "m", "m", "p", "").unwrap();
    let mut core = Core::new(st, prompts());
    core.place("一", Session::Single(session()));
    assert_eq!(core.tool_mode_change("一", &Some(s("m"))), None);
    core.settings.models.entries[0].1.tools = ToolMode::Native;
    assert_eq!(
        core.tool_mode_change("一", &Some(s("m"))),
        Some(ToolMode::Native)
    );
}

#[test]
fn suggestions_are_asked_of_the_core() {
    let p = prompts();
    let mut st = settings();
    assert_eq!(
        ask_suggestions(&p, &st, &roster(), "做", WorkMode::Single).err(),
        Some(s("登记处还没有任何模型，请先到「模型登记」添加"))
    );
    st.provider_upsert("p", "u", "k").unwrap();
    st.model_upsert("m", "模型", "m", "p", "").unwrap();
    assert_eq!(
        ask_suggestions(&p, &st, &roster(), "做", WorkMode::Single).err(),
        Some(s("核心未设定默认模型（或它引用的供应商不存在），请先到「核心 AI 默认模型」设定"))
    );
    st.core_set_model("m");
    let (ch, msgs) = ask_suggestions(&p, &st, &roster(), "做", WorkMode::Single).unwrap();
    assert_eq!(ch.model, "m");
    assert_eq!(
        msgs[1].content,
        "user mode_single no_agents module_listing_line a 简述\nmodule_listing_line b 简述 model_listing_line m 模型 m  做"
    );
}

#[test]
fn a_record_tells_its_work() {
    let m = SessionMeta {
        name: s("工作--甲"),
        mode: s("single"),
        delegate: false,
        modules: vec![],
        task: None,
        ts: 0,
        agents: vec![],
        exec_spec: history("x", Tier::Host).exec_spec,
        parent: Some(s("工作")),
        node: None,
    };
    assert_eq!(m.work(), "工作");
    assert_eq!(int_json(3), Json::copy(&int_json(3)));
}

#[test]
fn a_session_built_anew_can_go_back() {
    let mut a = session();
    let mut lines = lines_of(&a.say("第一句"));
    let io = Files::with(vec![]);
    let (k, _) = talk(
        ToolMode::Envelope,
        vec![done("{\"type\":\"say\",\"text\":\"答\"}")],
        false,
        &io,
    );
    lines.extend(lines_of(&a.rounds_events(&k.rounds, false)));
    lines.extend(lines_of(&a.say("第二句")));
    let r = rebuild(&lines, ToolMode::Envelope, &tool_texts());
    assert_eq!(r.marks.len(), lines.len());
    assert!(r.marks.windows(2).all(|w| w[0] <= w[1]));
    let mut b = AgentSession::restore(
        "甲",
        params("甲"),
        r.dialogue,
        r.marks,
        r.line_reply,
        None,
        Some(seat(ToolMode::Envelope)),
        prompts().core.refs,
        tool_texts(),
    );
    assert_eq!(b.next_line_id(), 3);
    assert!(b.last_is_user());
    b.rewind(1);
    assert_eq!(b.next_line_id(), 1);
    assert_eq!(b.dialogue().len(), 1);
    assert_eq!(b.dialogue()[0].content, "第一句");
}

#[test]
fn rounds_taken_in_parts_leave_the_same_session() {
    let io = Files::with(vec![("/w/a.md", "一")]);
    let replies = || {
        vec![
            done("{\"type\":\"tool\",\"name\":\"read\",\"args\":{\"path\":\"/w/a.md\"}}"),
            done("{\"type\":\"say\",\"text\":\"读完了\"}"),
        ]
    };
    let (k, _) = talk(ToolMode::Envelope, replies(), false, &io);
    assert!(k.rounds.len() > 1);
    let mut whole = session();
    let at_once = lines_of(&whole.rounds_events(&k.rounds, false));
    let mut parts = session();
    let mut as_it_comes = vec![];
    for r in k.rounds {
        as_it_comes.extend(lines_of(&parts.rounds_events(&vec![r], false)));
    }
    assert_eq!(whole.next_line_id(), parts.next_line_id());
    assert_eq!(whole.dialogue().len(), parts.dialogue().len());
    let text = |v: &[LineView]| v.iter().map(|l| (l.id, l.render())).collect::<Vec<_>>();
    assert_eq!(text(&at_once), text(&as_it_comes));
}

#[test]
fn a_fresh_work_can_go_on() {
    let c = begun();
    assert!(c.can_go_on());
}

fn machine() -> Machine {
    Machine {
        base_there: true,
        hypervisor: false,
        platform: Platform::Linux,
    }
}

fn empty() -> Library {
    Library {
        packages: vec![],
        rejected: vec![],
    }
}

fn single(name: &str, module: &str) -> WorkSpec {
    WorkSpec {
        name: s(name),
        mode: WorkMode::Single,
        agents: vec![AgentInstance {
            name: s("甲"),
            transient: true,
            modules: vec![s(module)],
            model: None,
        }],
        task: None,
        delegate: false,
    }
}

#[test]
fn a_work_is_made_once_and_of_known_modules() {
    let core = Core::new(settings(), prompts());
    let known = roster().modules[0].manifest.id.clone();
    let (m, _) = core
        .create_work(&single("w", &known), false, roster(), &empty(), machine(), 7)
        .unwrap();
    assert_eq!(m.name, "w");
    assert_eq!(m.mode, "single");
    assert_eq!(m.agents.len(), 1);
    assert_eq!(m.modules, vec![known.clone()]);
    assert!(core
        .create_work(&single("w", &known), true, roster(), &empty(), machine(), 7)
        .is_err());
    assert!(core
        .create_work(&single("w", "没有"), false, roster(), &empty(), machine(), 7)
        .is_err());
}

#[test]
fn a_changed_work_is_built_anew() {
    let mut core = Core::new(settings(), prompts());
    let known = roster().modules[0].manifest.id.clone();
    let (m, _) = core
        .create_work(&single("w", &known), false, roster(), &empty(), machine(), 7)
        .unwrap();
    core.place("w", Session::Single(session()));
    let edit = |net: bool| SessionEdit {
        agents: vec![ConfigAgent {
            name: s("甲"),
            modules: vec![known.clone()],
            model: s(""),
        }],
        tier: s("host"),
        base: None,
        pins: Table::new(),
        net,
    };
    let lib = Library {
        packages: vec![],
        rejected: vec![],
    };
    let taken = core.take_single("w").unwrap();
    assert!(core
        .edit_session("w", &m, false, edit(true), roster(), &lib, machine())
        .is_err());
    core.put_single("w", taken);
    let (next, _) = core
        .edit_session("w", &m, false, edit(true), roster(), &lib, machine())
        .unwrap();
    assert!(next.exec_spec.net);
    assert!(core.needs_session("w").unwrap());
}

fn around() -> Around {
    Around {
        roster: roster(),
        boxes: Sandboxes {
            shared: path("/w"),
            list: vec![sandbox("甲")],
        },
        lib: Library {
            packages: vec![],
            rejected: vec![],
        },
        read_only: vec![path("/doc")],
    }
}

fn record(spec: &WorkSpec, lines: Vec<LineView>) -> Record {
    let core = Core::new(settings(), prompts());
    let (meta, _) = core
        .create_work(spec, false, roster(), &empty(), machine(), 7)
        .unwrap();
    Record {
        meta,
        events: vec![],
        chains: vec![],
        lines,
    }
}

#[test]
fn modules_come_in_the_order_of_their_agent() {
    let ids = |v: &[Module]| v.iter().map(|m| m.manifest.id.clone()).collect::<Vec<_>>();
    let got = agent_modules(roster().modules, &vec![s("b"), s("a")]).unwrap();
    assert_eq!(ids(&got), vec![s("b"), s("a")]);
    let got = agent_modules(roster().modules, &vec![s("b"), s("b")]).unwrap();
    assert_eq!(ids(&got), vec![s("b")]);
    assert!(agent_modules(roster().modules, &vec![s("a"), s("没有")]).is_none());
}

#[test]
fn a_new_session_has_its_seat() {
    let k = record(&single("w", "a"), vec![]);
    let mut a = build_single(prompts(), &settings(), &k.meta, around(), Some(s("演示"))).unwrap();
    assert_eq!(a.next_line_id(), 0);
    assert_eq!(a.open().len(), 1);
    let t = a.take_tools().unwrap();
    assert_eq!(t.reply_seq, 0);
    assert!(t.with_modules);
    assert!(t.modules.get("a").is_some());
    assert!(t.modules.get("b").is_none());
    assert_eq!(t.fence.ro.len(), 1);
    assert_eq!(t.fence.ro[0].text, "/doc");
    assert!(t.unavailable.get("a").is_none());
}

#[test]
fn a_record_brings_back_its_session() {
    let mut a = session();
    let mut lines = lines_of(&a.say("你好"));
    let io = Files::with(vec![]);
    let (k, _) = talk(
        ToolMode::Envelope,
        vec![done("{\"type\":\"say\",\"text\":\"答\"}")],
        false,
        &io,
    );
    lines.extend(lines_of(&a.rounds_events(&k.rounds, false)));
    let kept = record(&single("w", "a"), lines);
    match rebuild_session(prompts(), &settings(), &kept, around(), vec![]).unwrap() {
        Session::Single(mut b) => {
            assert_eq!(b.next_line_id(), a.next_line_id());
            assert_eq!(b.dialogue().len(), a.dialogue().len());
            b.rewind(1);
            assert_eq!(b.dialogue().len(), 1);
        }
        Session::Collab(_) => panic!("a team"),
    }
}

#[test]
fn what_a_record_asks_for_has_to_be_there() {
    let why = |kept: &Record, w: Around| {
        rebuild_session(prompts(), &settings(), kept, w, vec![])
            .err()
            .unwrap()
    };
    let mut kept = record(&single("w", "a"), vec![]);
    let mut w = around();
    w.roster.modules.clear();
    assert_eq!(why(&kept, w), "agent 甲 的模块已不在清单");
    let mut w = around();
    w.boxes.list.clear();
    assert_eq!(why(&kept, w), "会话 w 缺少 agent 甲 的沙箱信息");
    kept.meta.mode = s("三人");
    assert_eq!(
        why(&kept, around()),
        "未知会话形态：三人（只认 single / collab）"
    );
    kept.meta.mode = s("single");
    kept.meta.agents.clear();
    assert_eq!(why(&kept, around()), "会话 w 缺少 agent 名单");
    kept.meta.mode = s("collab");
    match rebuild_session(prompts(), &settings(), &kept, around(), vec![]).unwrap() {
        Session::Collab(c) => assert!(c.can_go_on()),
        Session::Single(_) => panic!("no team"),
    }
}

#[test]
fn a_drive_has_no_case() {
    let mut sb = sandbox("甲");
    sb.shared = RealPath {
        text: s("C:/w"),
        parts: vec![s("C:"), s("/"), s("w")],
    };
    let parts = |drive: &str, dir: &str| {
        vec![
            Part::Anchor(s(drive)),
            Part::Anchor(s("/")),
            Part::Normal(s(dir)),
            Part::Normal(s("a")),
        ]
    };
    let (place, _) = sb
        .resolve_parts("c:/w/a", true, &parts("c:", "w"))
        .unwrap();
    assert!(matches!(place, Place::Shared));
    assert!(sb.resolve_parts("d:/w/a", true, &parts("d:", "w")).is_err());
    assert!(sb.resolve_parts("C:/W/a", true, &parts("C:", "W")).is_err());
}

#[test]
fn branches_bring_back_only_their_news() {
    let mut main = Observations::new();
    main.note_read(&path("/w/p"), true, "", 1);
    let mut a = main.copy();
    a.note_read(&path("/w/p"), true, "", 2);
    let mut b = main.copy();
    b.note_read(&path("/w/q"), true, "", 3);
    let mut c = main.copy();
    c.note_read(&path("/w/p"), false, "一部分", 0);
    main.absorb(&a);
    main.absorb(&b);
    main.absorb(&c);
    assert_eq!(main.known(&path("/w/p")), Some(2));
    assert_eq!(main.known(&path("/w/q")), Some(3));
    assert_eq!(main.partial_why(&path("/w/p")), None);
}

#[test]
fn a_patch_says_what_it_writes_before_it_does() {
    let sb = sandbox("甲");
    let io = Files::with(vec![("/w/a.md", "一\n二\n")]);
    let body = "*** Update File: /w/a.md\n*** SEARCH\n一\n*** REPLACE\n壹\n*** End File\n*** Add File: /w/b.md\n新\n*** End File\n";
    let (run, blocks) = patch_writes(&sb, &io, &Observations::new(), body).unwrap();
    assert_eq!(blocks, 2);
    let at: Vec<_> = run.order.iter().map(|p| p.text.clone()).collect();
    assert_eq!(at, vec![s("/w/a.md"), s("/w/b.md")]);
    assert_eq!(run.content("/w/a.md"), Some("壹\n二\n"));
    assert_eq!(io.text("/w/a.md"), Some(s("一\n二\n")));
    assert_eq!(io.text("/w/b.md"), None);
    let mut obs = Observations::new();
    let out = execute(&sb, &io, &mut obs, "patch", body);
    assert!(out.ok, "{}", out.output);
    assert_eq!(io.text("/w/a.md"), Some(s("壹\n二\n")));
    assert_eq!(io.text("/w/b.md"), run.content("/w/b.md").map(s));
}

#[test]
fn each_member_is_asked_as_itself() {
    let mut c = begun();
    let p = prompts();
    let (step, _) = c.pump_with(&p, false);
    match step {
        Step::Ask { i, identity, .. } => {
            assert_eq!(c.member_id(i), Some(s("甲")));
            assert_eq!(identity, params("甲").identity(&p, ToolMode::Envelope));
            assert!(identity != params("乙").identity(&p, ToolMode::Envelope));
        }
        other => panic!("{:?}", other),
    }
    assert!(ready_nodes(&c).is_empty());
}

#[test]
fn an_agent_of_a_work_has_a_session_of_its_own() {
    let k = record(&single("w", "a"), vec![]);
    let own = child_record(&k.meta, "甲");
    assert_eq!(own.name, child_name("w", "甲"));
    assert_eq!(own.mode, "single");
    assert_eq!(own.agents.len(), 1);
    assert_eq!(own.modules, vec![s("a")]);
    assert_eq!(own.parent, Some(s("w")));
    assert!(child_record(&k.meta, "别人").agents.is_empty());
}

#[test]
fn a_choice_of_packages_that_does_not_hold_is_refused() {
    let package = |version: &str| PackageManifest {
        id: s("py"),
        version: s(version),
        kind: s("prefix"),
        prefix: s("opt/py"),
        provides_paths: vec![],
        needs: vec![],
        license: vec![],
        note: s(""),
        files: vec![],
    };
    let mut st = settings();
    st.app.tier = Tier::Vm;
    let core = Core::new(st, prompts());
    let mut m = machine();
    m.hypervisor = true;
    let mut r = roster();
    r.modules[0].manifest.runtimes.push(s("py"));
    let lib = Library {
        packages: vec![package("1"), package("2")],
        rejected: vec![],
    };
    let why = core
        .create_work(&single("w", "a"), false, r, &lib, m, 7)
        .err()
        .unwrap();
    assert!(why.contains("有多个版本，需用户定版"), "{}", why);
    let mut r = roster();
    r.modules[0].manifest.runtimes.push(s("py"));
    let lib = Library {
        packages: vec![package("1")],
        rejected: vec![],
    };
    let (_, plan) = core
        .create_work(&single("w", "a"), false, r, &lib, m, 7)
        .unwrap();
    assert_eq!(plan.packages.len(), 1);
}

#[test]
fn calls_run_side_by_side_only_where_that_is_declared() {
    let mut t = seat(ToolMode::Envelope);
    let mut read = tool("fs-read", vec![("path", ParamType::String, true)]);
    read.parallel = true;
    t.sandbox.builtin_tools.insert(s("read"), read);
    let call = |tool: &str| Planned {
        module: None,
        tool: s(tool),
        args: s("{}"),
    };
    let plan = vec![call("read"), call("read"), call("write"), call("read")];
    assert!(is_parallel(&t, &plan[0]));
    assert!(!is_parallel(&t, &plan[2]));
    assert_eq!(batch_end(&t, &plan, 0), 2);
    assert_eq!(batch_end(&t, &plan, 2), 2);
    assert_eq!(batch_end(&t, &plan, 3), 4);
}
