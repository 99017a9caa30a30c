//! Texts, tables, the registry, works, the board and the journal on concrete values.
use solomni::agents::{resolve_picks, unique_instance_name, validate_name, RosterPick};
use solomni::bus::{EventBus, JobRegistry};
use solomni::chain::{Acceptance, NodeStatus, TaskChain, TaskNode};
use solomni::crew::{CrewEvent, CrewOut, CrewSession, CrewStep, Pick};
use solomni::desk::update_task;
use solomni::envelope::{extract_json_array, extract_json_object, parse, Verb};
use solomni::events::{interrupted_note, LineView, Pending, SessionEvent};
use solomni::execution::{
    absent_notes, diagnose_text, plan, plan_summary, tier_readiness, tier_refusal, vm_diagnoses, Diagnosis,
    ExecSpec, Platform, Tier,
};
use solomni::history::AgentMeta;
use solomni::journal::{
    align_keep, cut_before_line, dropped_note, find_line_id, line_reply_of, record_events,
    session_started, truncate_events,
};
use solomni::json::{int_json, less, Json};
use solomni::kernel::{
    after_review, fail_text, named_in, parse_plain, pick_borrowed, pick_owned, start_omni,
    AfterReview, DirectSession, Registry,
};
use solomni::module::{check_runtimes, Module, ModuleManifest, Roster};
use solomni::packages::{
    check_manifest, conflicts, valid_capability, valid_rel_path, Library, PackageManifest,
};
use solomni::ports::{truncated, Chunk, ProbeOutcome};
use solomni::prompt::render;
use solomni::providers::{AppSettings, Settings, ToolMode};
use solomni::review::{CheckItem, Checklist, Execution};
use solomni::session::{keep_whole_replies, stream_piece, Incoming};
use solomni::suggest::{merged_suggestion, take_suggestions, AgentSuggestion};
use solomni::systool::fnv1a;
use solomni::table::{sort_unique, Table};
use solomni::text::{
    dec, eq_ignore_case, is_control, is_white, lines, parse_usize, split, str_before, trim, words,
};
use solomni::views::{
    files_view, record_config, runtime_report, sandboxes, session_config, session_modules,
    work_upload,
};
use solomni::work::{
    edit_session, mode_str, name_agents, new_record, validate_work_name, AgentInstance,
    ConfigAgent, Machine, SessionEdit, WorkMode, WorkSpec,
};
use solomni::workspace::{safe_file_name, slash_text, RealPath, WorkFiles, WorkRoots};

fn s(v: &str) -> String {
    v.to_string()
}

fn obj(members: Vec<(&str, Json)>) -> Json {
    let mut m: Vec<(String, Json)> = members.into_iter().map(|(k, v)| (s(k), v)).collect();
    m.sort_by(|a, b| a.0.cmp(&b.0));
    Json::Obj(m)
}

fn text(v: &str) -> Json {
    Json::Str(s(v))
}

fn module(id: &str, runtimes: Vec<&str>) -> Module {
    Module {
        manifest: ModuleManifest {
            id: s(id),
            brief: format!("{} 简述", id),
            system: format!("{} 职责", id),
            runtimes: runtimes.into_iter().map(s).collect(),
            tools: Table::new(),
        },
        root: path(&format!("/modules/{}", id)),
    }
}

fn path(t: &str) -> RealPath {
    let mut parts = vec![s("/")];
    for p in t.split('/').filter(|p| !p.is_empty()) {
        parts.push(s(p));
    }
    RealPath { text: s(t), parts }
}

fn roster(ids: Vec<&str>) -> Roster {
    Roster {
        modules: ids.into_iter().map(|i| module(i, vec![])).collect(),
        rejected: vec![],
    }
}

fn settings() -> Settings {
    let mut st = Settings {
        providers: Table::new(),
        models: Table::new(),
        core: None,
        app: AppSettings::default(),
        agents: Table::new(),
    };
    st.provider_upsert("p", "http://p", "k").unwrap();
    st.model_upsert("m", "模型", "api-m", "p", "").unwrap();
    assert!(st.core_set_model("m"));
    st
}

fn agent(name: &str, modules: Vec<&str>, model: Option<&str>) -> AgentMeta {
    AgentMeta {
        name: s(name),
        transient: true,
        modules: modules.into_iter().map(s).collect(),
        model: model.map(s),
    }
}

fn instance(name: &str, modules: Vec<&str>, model: Option<&str>) -> AgentInstance {
    AgentInstance {
        name: s(name),
        transient: true,
        modules: modules.into_iter().map(s).collect(),
        model: model.map(s),
    }
}

fn machine(base_there: bool, hypervisor: bool) -> Machine {
    Machine {
        base_there,
        hypervisor,
        platform: Platform::Linux,
    }
}

fn host() -> ExecSpec {
    ExecSpec {
        tier: Tier::Host,
        base: None,
        pins: Table::new(),
        net: false,
    }
}

// ---- texts ----

#[test]
fn white_space_and_control_characters_are_those_of_unicode() {
    for n in 0u32..=0x10FFFF {
        if let Some(c) = char::from_u32(n) {
            assert_eq!(is_white(c), c.is_whitespace(), "{:?}", c);
            assert_eq!(is_control(c), c.is_control(), "{:?}", c);
        }
    }
}

#[test]
fn texts_are_taken_apart() {
    assert_eq!(trim(" \u{3000}a b\n"), "a b");
    assert_eq!(lines("一\r\n二\n\n三"), vec!["一", "二", "", "三"]);
    assert_eq!(lines("一\n"), vec!["一"]);
    assert_eq!(lines(""), Vec::<String>::new());
    assert_eq!(words(" a  b\tc "), vec!["a", "b", "c"]);
    assert_eq!(split("a,,b", ','), vec!["a", "", "b"]);
    assert_eq!(parse_usize("042"), Some(42));
    assert_eq!(parse_usize("4x"), None);
    assert_eq!(parse_usize(""), None);
    assert_eq!(dec(18446744073709551615), "18446744073709551615");
    assert!(eq_ignore_case("PaSs", "pass"));
    assert!(!eq_ignore_case("Ä", "ä"));
}

#[test]
fn texts_come_in_the_order_of_std() {
    for (a, b) in [("a", "b"), ("", "a"), ("a", "aa"), ("中", "\u{10000}"), ("b", "a"), ("a", "a")] {
        assert_eq!(str_before(a, b), a < b, "{} {}", a, b);
    }
}

#[test]
fn templates_are_filled_or_refused() {
    assert_eq!(
        render("你好 {{ name }}，{{who}}", &[("name", s("甲")), ("who", s("乙"))]),
        Ok(s("你好 甲，乙"))
    );
    assert!(render("{{x}}", &[("y", s("1"))]).is_err());
    assert_eq!(render("没有占位 {x}", &[]), Ok(s("没有占位 {x}")));
}

// ---- tables ----

#[test]
fn tables_list_their_keys_in_order() {
    let mut t: Table<u32> = Table::new();
    t.insert(s("b"), 1);
    t.insert(s("a"), 2);
    t.insert(s("b"), 3);
    assert_eq!(t.len(), 2);
    assert_eq!((t.key_at(0), t.key_at(1)), ("a", "b"));
    assert_eq!(t.get("b"), Some(&3));
    assert_eq!(t.take("a"), Some(2));
    assert_eq!(t.take("a"), None);
    assert!(t.remove("b"));
    assert!(!t.remove("b"));
    assert_eq!(sort_unique(&vec![s("c"), s("a"), s("c")]), vec!["a", "c"]);
}

// ---- numbers ----

#[test]
fn doubles_are_compared_by_their_encoding() {
    let v = [f64::MIN, -1.5, -0.0, 0.0, 1.0, 2000.0, 2000.5, f64::MAX];
    for a in v {
        for b in v {
            assert_eq!(less(a.to_bits(), b.to_bits()), a < b, "{} {}", a, b);
        }
    }
    match int_json(7) {
        Json::Num(n) => {
            assert_eq!(n.whole, Some(7));
            assert_eq!(f64::from_bits(n.bits), 7.0);
            assert_eq!(n.text, "7");
        }
        other => panic!("{:?}", other),
    }
}

// ---- envelopes ----

#[test]
fn an_envelope_is_found_in_prose() {
    assert_eq!(
        extract_json_object("好的：{\"a\":\"}\"} 完"),
        Some(s("{\"a\":\"}\"}"))
    );
    assert_eq!(extract_json_object("{\"a\":1"), None);
    assert_eq!(extract_json_array("x [1,[2]] y"), Some(s("[1,[2]]")));
    let r = parse("说一下 {\"type\":\"agree\",\"text\":\"可以\"}");
    assert_eq!(r.verb, Verb::Agree);
    assert_eq!(r.text, "可以");
    assert!(!r.degraded);
    let d = parse("  没有信封  ");
    assert_eq!(d.verb, Verb::Say);
    assert_eq!(d.text, "没有信封");
    assert!(d.degraded);
}

#[test]
fn an_envelope_writes_each_key_once() {
    let twice = "{\"type\":\"tool\",\"name\":\"read\",\"n\\u0061me\":\"write\",\"args\":{}}";
    let r = parse(twice);
    assert!(r.tool.unwrap().malformed);
    let inner = "{\"type\":\"tool\",\"name\":\"read\",\"args\":{\"name\":1,\"type\":2},\"x\":1,\"x\":2}";
    let r = parse(inner).tool.unwrap();
    assert!(!r.malformed);
    assert_eq!(r.args_json, "{\"name\":1,\"type\":2}");
    let r = parse("{\"type\":\"say\",\"text\":\"a\",\"text\":\"b\"}");
    assert!(r.degraded);
    let r = parse("{\"type\":\"tool\",\"name\":\"t\",\"args\":{\"x\":0.1,\"y\":-3,\"z\":12345.678}}");
    assert_eq!(
        r.tool.unwrap().args_json,
        "{\"x\":0.1,\"y\":-3,\"z\":12345.678}"
    );
    assert!(parse_plain("{\"type\":\"ask\",\"type\":\"say\",\"text\":\"a\"}").2);
}

#[test]
fn a_plain_envelope_needs_a_stand_and_a_text() {
    let (v, t, d) = parse_plain("{\"type\":\"leave\",\"text\":\"走\"}");
    assert_eq!((v, t.as_str(), d), (Verb::Leave, "走", false));
    let (v, t, d) = parse_plain("{\"type\":\"其它\",\"text\":\"说\"}");
    assert_eq!((v, t.as_str(), d), (Verb::Say, "说", false));
    let (v, t, d) = parse_plain(" {\"type\":\"ask\"} ");
    assert_eq!((v, t.as_str(), d), (Verb::Say, "{\"type\":\"ask\"}", true));
}

#[test]
fn a_reply_is_cut_where_its_end_says_so() {
    assert!(truncated("length"));
    assert!(!truncated("stop"));
}

// ---- names ----

#[test]
fn names_that_cannot_be_directories_are_refused() {
    assert_eq!(validate_work_name("周报"), Ok(()));
    assert_eq!(validate_work_name(" "), Err(s("工作名不能为空")));
    assert_eq!(validate_work_name("a "), Err(s("工作名首尾不能有空白")));
    assert_eq!(validate_work_name(".."), Err(s("工作名非法")));
    assert_eq!(
        validate_work_name("a/b"),
        Err(s("工作名不能包含 \\ / : * ? \" < > | 或控制字符"))
    );
    assert_eq!(validate_work_name("com3"), Err(s("工作名是系统保留名")));
    assert_eq!(validate_work_name("comx"), Ok(()));
    assert_eq!(validate_name("甲"), Ok(()));
    assert!(validate_name("nul").is_err());
    assert_eq!(unique_instance_name("甲", &vec![s("甲"), s("甲-2")]), "甲-3");
    assert_eq!(unique_instance_name("乙", &vec![s("甲")]), "乙");
    assert_eq!(safe_file_name(" a.md "), Ok(s("a.md")));
    assert!(safe_file_name("../a").is_err());
    assert!(safe_file_name("").is_err());
    assert_eq!(slash_text("C:\\a\\b"), "C:/a/b");
}

// ---- the registry ----

#[test]
fn the_registry_refuses_what_would_lead_nowhere() {
    let mut st = settings();
    assert_eq!(
        st.provider_upsert("", "u", "k"),
        Err(s("id / base_url 不能为空"))
    );
    assert_eq!(st.provider_upsert("q", "u", ""), Err(s("api_key 不能为空")));
    st.provider_upsert("p", "http://new", "").unwrap();
    assert_eq!(st.providers.get("p").unwrap().api_key, "k");
    assert_eq!(st.providers.get("p").unwrap().base_url, "http://new");
    assert_eq!(
        st.provider_remove("p"),
        Err(s("供应商 p 仍被模型引用：m；请先删除这些模型"))
    );
    assert_eq!(
        st.model_upsert("n", "", "a", "p", ""),
        Err(s("id / name / api_model / provider 均不能为空"))
    );
    assert_eq!(
        st.model_upsert("n", "n", "a", "zz", ""),
        Err(s("无此供应商：zz"))
    );
    assert_eq!(
        st.model_remove("m"),
        Err(s("m 是核心默认模型；请先把核心默认模型改成别的再删"))
    );
    assert!(!st.core_set_model("zz"));
    st.model_upsert("n", "n", "a", "p", "").unwrap();
    assert!(st.core_set_model("n"));
    assert_eq!(st.model_remove("m"), Ok(true));
    assert_eq!(st.model_remove("m"), Ok(false));
    assert_eq!(st.resolve("m").err(), Some(s("无此模型：m")));
    assert_eq!(st.resolve("n").unwrap().model, "a");
}

#[test]
fn a_test_of_a_model_changes_only_what_it_found() {
    let mut st = settings();
    assert!(st.take_probe("m", &ProbeOutcome::Supported { detail: s("") }));
    assert_eq!(st.tool_mode_for(Some("m")), ToolMode::Native);
    assert!(!st.take_probe("m", &ProbeOutcome::Unknown { detail: s("") }));
    assert_eq!(st.tool_mode_for(None), ToolMode::Native);
    st.model_upsert("m", "改名", "api-m", "p", "").unwrap();
    assert_eq!(st.tool_mode_for(Some("m")), ToolMode::Native, "改名不改形态");
    assert!(st.take_probe("m", &ProbeOutcome::Unsupported { detail: s("") }));
    assert!(!st.take_probe("m", &ProbeOutcome::Unsupported { detail: s("") }));
    assert!(!st.take_probe("zz", &ProbeOutcome::Supported { detail: s("") }));
}

#[test]
fn agents_are_registered_with_what_there_is() {
    let mut st = settings();
    let r = roster(vec!["a"]);
    assert_eq!(
        st.agent_upsert(&r, "甲", &vec![], "", ""),
        Err(s("agent 至少要有一个模块"))
    );
    assert_eq!(
        st.agent_upsert(&r, "甲", &vec![s("z")], "", ""),
        Err(s("无此模块：z"))
    );
    assert_eq!(
        st.agent_upsert(&r, "甲", &vec![s("a")], "z", ""),
        Err(s("无此模型：z"))
    );
    assert!(st.agent_upsert(&r, "a/b", &vec![s("a")], "", "").is_err());
    st.agent_upsert(&r, "甲", &vec![s("a")], "", "注").unwrap();
    let v = st.agent_views();
    assert_eq!(v.len(), 1);
    assert_eq!((v[0].name.as_str(), v[0].model.clone()), ("甲", None));
    assert!(st.agent_remove("甲"));
    assert!(!st.agent_remove("甲"));
}

// ---- works ----

fn spec(mode: WorkMode, agents: Vec<AgentInstance>, task: Option<&str>, delegate: bool) -> WorkSpec {
    WorkSpec {
        name: s("工作"),
        mode,
        agents,
        task: task.map(s),
        delegate,
    }
}

#[test]
fn a_work_is_made_of_choices_that_hold_together() {
    let st = settings();
    let r = roster(vec!["a", "b"]);
    let m = machine(true, false);
    let ok = new_record(
        &spec(
            WorkMode::Collab,
            vec![
                instance("甲", vec!["a"], Some("m")),
                instance("甲", vec!["b"], None),
            ],
            Some("做事"),
            true,
        ),
        false,
        &r,
        &st,
        m,
        5,
    )
    .unwrap();
    assert_eq!(ok.mode, mode_str(WorkMode::Collab));
    assert_eq!(ok.agents[0].name, "甲");
    assert_eq!(ok.agents[1].name, "甲-2");
    assert_eq!(ok.modules, vec!["a", "b"]);
    assert!(!ok.delegate, "给了名单就不代拟");
    assert_eq!(ok.ts, 5);

    let fault = |w: &WorkSpec, there: bool| new_record(w, there, &r, &st, m, 0).err().unwrap();
    let one = || instance("甲", vec!["a"], None);
    assert_eq!(
        fault(&spec(WorkMode::Single, vec![one()], None, false), true),
        "工作名已存在：工作"
    );
    assert_eq!(
        fault(&spec(WorkMode::Single, vec![], None, false), false),
        "至少要有一个 agent"
    );
    assert_eq!(
        fault(
            &spec(WorkMode::Single, vec![instance("甲", vec![], None)], None, false),
            false
        ),
        "agent 甲 至少要有一个模块"
    );
    assert_eq!(
        fault(
            &spec(WorkMode::Single, vec![instance("甲", vec!["z"], None)], None, false),
            false
        ),
        "无此模块：z"
    );
    assert_eq!(
        fault(
            &spec(
                WorkMode::Collab,
                vec![one(), instance("乙", vec!["a"], None)],
                Some("t"),
                false
            ),
            false
        ),
        "模块 a 被多个 agent 同时使用；同一模块只能属于一个 agent"
    );
    assert_eq!(
        fault(
            &spec(WorkMode::Single, vec![instance("甲", vec!["a"], Some("z"))], None, false),
            false
        ),
        "无此模型：z"
    );
    assert_eq!(
        fault(
            &spec(
                WorkMode::Single,
                vec![one(), instance("乙", vec!["b"], None)],
                None,
                false
            ),
            false
        ),
        "单 agent 形态只接受一个 agent（模块数不限）"
    );
    assert_eq!(
        fault(&spec(WorkMode::Collab, vec![one()], Some(" "), false), false),
        "协作模式必须填写本次需求"
    );
    let mut vm = settings();
    vm.app.tier = Tier::Vm;
    assert!(new_record(
        &spec(WorkMode::Single, vec![one()], None, false),
        false,
        &r,
        &vm,
        m,
        0
    )
    .is_err());
    let named = name_agents(&vec![
        agent("x", vec!["a"], None),
        agent("x", vec!["b"], None),
        agent("x-2", vec![], None),
    ]);
    let names: Vec<&str> = named.iter().map(|a| a.name.as_str()).collect();
    assert_eq!(names, vec!["x", "x-2", "x-2-2"]);
}

fn edit(agents: Vec<(&str, Vec<&str>, &str)>, tier: &str, base: Option<&str>) -> SessionEdit {
    SessionEdit {
        agents: agents
            .into_iter()
            .map(|(n, m, x)| ConfigAgent {
                name: s(n),
                modules: m.into_iter().map(s).collect(),
                model: s(x),
            })
            .collect(),
        tier: s(tier),
        base: base.map(s),
        pins: Table::new(),
        net: true,
    }
}

#[test]
fn a_begun_work_keeps_its_agents_and_may_change_the_rest() {
    let st = settings();
    let r = roster(vec!["a", "b"]);
    let meta = new_record(
        &spec(WorkMode::Single, vec![instance("甲", vec!["a"], None)], None, false),
        false,
        &r,
        &st,
        machine(true, true),
        1,
    )
    .unwrap();
    let m = machine(false, false);
    let go = |e: SessionEdit, started: bool| edit_session(&meta, started, e, &r, &st, m);
    let done = go(edit(vec![("甲", vec!["b"], "m")], "host", None), true).unwrap();
    assert_eq!(done.modules, vec!["b"]);
    assert_eq!(done.agents[0].model, Some(s("m")));
    assert!(done.exec_spec.net);
    assert_eq!((done.name.as_str(), done.ts), ("工作", 1));
    assert_eq!(
        go(edit(vec![("乙", vec!["a"], "")], "host", None), true).err(),
        Some(s("这轮会话已经开过：agent 名单与形态冻结（要换人请新建会话）"))
    );
    assert!(go(edit(vec![("乙", vec!["a"], "")], "host", None), false).is_ok());
    assert_eq!(
        go(edit(vec![], "host", None), false).err(),
        Some(s("至少要有一个 agent"))
    );
    assert_eq!(
        go(
            edit(vec![("甲", vec!["a"], ""), ("乙", vec!["b"], "")], "host", None),
            false
        )
        .err(),
        Some(s("单 agent 形态只接受一个 agent（模块数不限）"))
    );
    assert_eq!(
        go(edit(vec![("甲", vec!["a"], "")], "云", None), false).err(),
        Some(s("未知执行档位：云（只认 host / vm）"))
    );
    assert!(go(edit(vec![("甲", vec!["a"], "")], "vm", None), false).is_err());
    let mut odd = meta.copy();
    odd.mode = s("其它");
    assert_eq!(
        edit_session(
            &odd,
            false,
            edit(vec![("甲", vec!["a"], "")], "host", None),
            &r,
            &st,
            m
        )
        .err(),
        Some(s("未知会话形态：其它（只认 single / collab）"))
    );
    let mut in_vm = meta.copy();
    in_vm.exec_spec.tier = Tier::Vm;
    assert!(
        edit_session(
            &in_vm,
            false,
            edit(vec![("甲", vec!["a"], "")], "vm", None),
            &r,
            &st,
            m
        )
        .is_ok(),
        "留在虚拟机档不查承载"
    );
    assert_eq!(
        edit_session(
            &in_vm,
            false,
            edit(vec![("甲", vec!["a"], "")], "vm", Some("/没有")),
            &r,
            &st,
            m
        )
        .err(),
        Some(s("基础根不存在"))
    );
}

// ---- suggestions ----

#[test]
fn suggestions_for_one_agent_are_put_together() {
    let mut st = settings();
    let r = roster(vec!["a", "b", "c"]);
    st.agent_upsert(&r, "老手", &vec![s("a")], "", "").unwrap();
    let picks = || {
        Some(vec![
            RosterPick::Reuse {
                agent: s("老手"),
                why: s("熟"),
            },
            RosterPick::Build {
                name: s("新"),
                modules: vec![s("b"), s("c")],
                model: s("m"),
                why: s(" "),
            },
            RosterPick::Build {
                name: s("错"),
                modules: vec![s("zz")],
                model: s("m"),
                why: s("x"),
            },
        ])
    };
    let team = take_suggestions(&picks(), "", &st, &r, WorkMode::Collab).unwrap();
    assert_eq!(team.len(), 2);
    assert!(team[0].reuse);
    assert_eq!(team[0].model, "m", "没有模型就用核心的");
    assert!(!team[1].reuse);
    let one = take_suggestions(&picks(), "", &st, &r, WorkMode::Single).unwrap();
    assert_eq!(one.len(), 1);
    assert_eq!(one[0].name, "组合");
    assert_eq!(one[0].modules, vec!["a", "b", "c"]);
    assert_eq!(one[0].why, "熟");
    assert_eq!(
        take_suggestions(&None, &"字".repeat(300), &st, &r, WorkMode::Single).err(),
        Some(format!(
            "核心推荐失败（响应不是约定的 JSON）：{}",
            "字".repeat(200)
        ))
    );
    assert_eq!(
        take_suggestions(&Some(vec![]), "", &st, &r, WorkMode::Collab).err(),
        Some(s("核心推荐没有可用结果"))
    );
    let (picked, refused) = resolve_picks(&picks().unwrap(), &st.agents, &r, &st.models);
    assert_eq!((picked.len(), refused.len()), (2, 1));
    let draft = |name: &str, modules: Vec<&str>, model: &str, why: &str| AgentSuggestion {
        name: s(name),
        modules: modules.into_iter().map(s).collect(),
        model: s(model),
        why: s(why),
        reuse: true,
    };
    let m = merged_suggestion(&vec![
        draft("x", vec!["a", "b"], "", "一"),
        draft("y", vec!["b", "c"], "m", "二"),
    ]);
    assert_eq!(m.modules, vec!["a", "b", "c"]);
    assert_eq!((m.model.as_str(), m.why.as_str()), ("m", "一；二"));
}

// ---- the board ----

#[test]
fn readers_of_the_board_miss_nothing() {
    let mut b = EventBus::new();
    assert_eq!(b.push("x", vec![SessionEvent::Ended]), 1);
    assert_eq!(b.push("y", vec![]), 2);
    let (all, head) = b.snapshot(None, 0);
    assert_eq!((all.len(), head), (2, 2));
    let (mine, _) = b.snapshot(Some("y"), 0);
    assert_eq!(mine.len(), 1);
    assert_eq!(mine[0].seq, 2);
    assert_eq!(b.snapshot(None, 2).0.len(), 0);
    b.push("x", vec![]);
    assert_eq!(b.snapshot(None, 2).0[0].seq, 3);
    for _ in 3..10_001 {
        b.push("x", vec![]);
    }
    let (left, head) = b.snapshot(None, 0);
    assert_eq!((left.len(), head), (5_000, 10_001));
    assert_eq!(left[0].seq, 5_002);
}

#[test]
fn a_stop_is_for_one_job() {
    let mut j = JobRegistry::new();
    assert!(!j.stop("x"));
    j.register("x");
    j.register("y");
    assert!(j.is_running("x"));
    assert!(!j.cancelled("x"));
    assert!(j.stop("x"));
    assert!(j.cancelled("x"));
    assert!(!j.cancelled("y"));
    j.unregister("x");
    assert!(!j.is_running("x"));
    assert!(!j.cancelled("x"));
}

// ---- the journal ----

fn row(id: u64, reply: u64, line: &str) -> Json {
    obj(vec![
        ("id", int_json(id)),
        ("reply", int_json(reply)),
        ("line", text(line)),
    ])
}

fn transcript(rows: Vec<Json>) -> Json {
    obj(vec![("type", text("transcript")), ("lines", Json::Arr(rows))])
}

#[test]
fn going_back_cuts_before_the_whole_reply() {
    let events = vec![
        transcript(vec![row(0, 0, "[用户:需求] 做")]),
        transcript(vec![row(1, 9, "一"), row(2, 9, "二"), row(3, 3, "三")]),
        obj(vec![("type", text("ended"))]),
    ];
    assert_eq!(align_keep(&events, 2), 1, "退到回复的第一行");
    assert_eq!(align_keep(&events, 3), 3);
    assert_eq!(align_keep(&events, 9), u64::MAX);
    let cut = cut_before_line(&events, 2);
    assert_eq!(cut.len(), 1);
    assert_eq!(cut[0], events[0]);
    let mut journal: Vec<Json> = events.iter().map(|e| e.copy()).collect();
    journal.push(obj(vec![("type", text("rewind")), ("keep", int_json(2))]));
    assert_eq!(truncate_events(&journal), cut);
    journal.push(obj(vec![("type", text("rewind"))]));
    assert_eq!(truncate_events(&journal), cut, "没写到哪里就不截");
    assert_eq!(find_line_id(&events, "[用户:需求]"), Some(0));
    assert_eq!(find_line_id(&events, "没有"), None);
    assert_eq!(line_reply_of(&row(4, 0, "x")), 4);
    assert_eq!(
        line_reply_of(&obj(vec![
            ("id", int_json(4)),
            ("tool", obj(vec![("reply", int_json(7))]))
        ])),
        7
    );
    assert_eq!(keep_whole_replies(&vec![0, 9, 9, 3], 2), 1);
    assert_eq!(keep_whole_replies(&vec![0, 9, 9, 3], 3), 3);
}

#[test]
fn a_changed_task_goes_back_behind_the_old_one() {
    let events = vec![transcript(vec![row(0, 0, "x"), row(4, 4, "[用户:需求] 旧")])];
    assert_eq!(update_task(" 新 ", &events), Ok((s("新"), 5)));
    assert_eq!(update_task(" ", &events), Err(s("需求不能为空")));
    assert_eq!(update_task("新", &vec![]), Err(s("该会话没有需求行")));
}

#[test]
fn what_passes_is_not_recorded() {
    let kept = record_events(&vec![
        SessionEvent::Notice(s("注")),
        SessionEvent::Delta {
            speaker: s("甲"),
            kind: s("text"),
            text: s("…"),
        },
        SessionEvent::Working(s("核心")),
        SessionEvent::Idle,
        SessionEvent::Decision {
            what: Pending::ConfirmBegin,
            advice: s("可以"),
        },
        SessionEvent::Transcript(vec![LineView::user("需求", s("做"))]),
    ]);
    assert_eq!(kept.len(), 2);
    assert_eq!(kept[0].str_at("type"), Some("notice"));
    assert_eq!(kept[0].str_at("text"), Some("注"));
    assert!(session_started(&kept));
    assert!(!session_started(&vec![obj(vec![("type", text("config"))])]));
    assert!(!session_started(&vec![transcript(vec![])]));
    let run = transcript(vec![obj(vec![
        ("id", int_json(0)),
        ("tool", obj(vec![("name", text("read"))])),
    ])]);
    assert_eq!(
        dropped_note(&vec![run.copy()], &vec![]),
        Some(s("[提示] 回档删掉了其后 1 次工具执行——那些副作用不会回滚，继续可能会重新执行。"))
    );
    assert_eq!(dropped_note(&vec![run.copy()], &vec![run]), None);
    assert_eq!(
        interrupted_note("断网"),
        "[中断] 断网；本轮已中断，会话保留——点「继续」可重试。"
    );
}

// ---- streams ----

#[test]
fn a_stream_shows_no_envelope() {
    let (shown, acc) = stream_piece("", "你好");
    assert_eq!((shown.as_str(), acc.as_str()), ("你好", "你好"));
    let (shown, acc) = stream_piece(&acc, "。{\"a\"");
    assert_eq!((shown.as_str(), acc.as_str()), ("。", "你好。{\"a\""));
    let (shown, acc) = stream_piece(&acc, ":1} 之后");
    assert_eq!((shown.as_str(), acc.as_str()), ("", "你好。{\"a\":1} 之后"));
}

#[test]
fn every_piece_of_a_reply_is_told() {
    let mut r = Incoming::new();
    let told = |e: SessionEvent| match e {
        SessionEvent::Delta {
            speaker,
            kind,
            text,
        } => (speaker, kind, text),
        other => panic!("{:?}", other),
    };
    assert_eq!(
        told(r.take(Chunk::Reasoning(s("想")), "甲")),
        (s("甲"), s("reasoning"), s("想"))
    );
    assert_eq!(
        told(r.take(Chunk::Text(s("好{")), "甲")),
        (s("甲"), s("text"), s("好"))
    );
    assert_eq!(
        told(r.take(Chunk::Text(s("a}")), "甲")),
        (s("甲"), s("text"), s(""))
    );
    assert_eq!((r.acc.as_str(), r.thought.as_str()), ("好{a}", "想"));
    assert_eq!(
        told(r.take(Chunk::Start, "甲")),
        (s("甲"), s("start"), s(""))
    );
    assert_eq!((r.acc.as_str(), r.thought.as_str()), ("", ""));
}

#[test]
fn what_waits_is_told_on_the_wire() {
    let e = SessionEvent::Decision {
        what: Pending::Ask {
            member: s("甲"),
            question: s("几页"),
        },
        advice: s("两页"),
    };
    let j = e.to_json();
    assert_eq!(j.str_at("type"), Some("decision"));
    assert_eq!(j.str_at("advice"), Some("两页"));
    let what = j.get("pending").unwrap();
    assert_eq!(what.str_at("type"), Some("ask"));
    assert_eq!(what.str_at("member"), Some("甲"));
    assert_eq!(what.str_at("question"), Some("几页"));
    let j = SessionEvent::Working(s("核心")).to_json();
    assert_eq!(j.str_at("type"), Some("working"));
    assert_eq!(j.str_at("speaker"), Some("核心"));
    assert_eq!(SessionEvent::Idle.to_json().str_at("type"), Some("idle"));
}

// ---- chains ----

fn node(id: &str, assignee: &str, deps: Vec<&str>) -> TaskNode {
    TaskNode {
        id: s(id),
        title: s(id),
        objective: s("做"),
        assignee: s(assignee),
        deps: deps.into_iter().map(s).collect(),
        status: NodeStatus::Pending,
        sub_session: None,
        report: None,
        acceptance: None,
        reported: false,
    }
}

#[test]
fn stages_follow_from_what_nodes_wait_for() {
    let mut c = TaskChain {
        nodes: vec![
            node("a", "甲", vec![]),
            node("b", "乙", vec!["a"]),
            node("c", "甲", vec![]),
        ],
    };
    assert_eq!(c.stages(), vec![1, 2, 1]);
    assert_eq!(c.current_stage(), Some(1));
    assert_eq!(c.stage_ready(1).len(), 2);
    assert_eq!(c.stage_ready(2).len(), 1);
    assert_eq!(c.stage_ready(3).len(), 0);
    assert!(c.problems(&vec![s("甲"), s("乙")]).is_empty());
    assert!(!c.problems(&vec![s("甲")]).is_empty());
    for i in [0, 2] {
        c.nodes[i].status = NodeStatus::Done;
    }
    assert!(c.stage_settled(1));
    assert!(!c.stage_passed(1));
    for i in [0, 2] {
        c.nodes[i].acceptance = Some(Acceptance {
            ok: true,
            note: s(""),
        });
    }
    assert!(c.stage_passed(1));
    assert_eq!(c.current_stage(), Some(2));
    assert!(!c.finished());
}

// ---- tiers and packages ----

fn package(id: &str, version: &str, needs: Vec<&str>, paths: Vec<&str>) -> PackageManifest {
    PackageManifest {
        id: s(id),
        version: s(version),
        kind: s("prefix"),
        prefix: format!("opt/{}", id),
        provides_paths: paths.into_iter().map(s).collect(),
        needs: needs.into_iter().map(s).collect(),
        license: vec![],
        note: s(""),
        files: vec![],
    }
}

#[test]
fn a_guest_is_planned_from_packages() {
    let lib = Library::build(
        vec![
            package("python", "3.12", vec!["libc"], vec![]),
            package("libc", "2", vec![], vec![]),
            package("node", "20", vec![], vec![]),
            package("node", "22", vec![], vec![]),
        ],
        vec![],
    );
    let mut vm = host();
    vm.tier = Tier::Vm;
    let mods = vec![module("a", vec!["python"])];
    let p = plan(&vm, &mods, &lib).unwrap();
    let ids: Vec<&str> = p.packages.iter().map(|x| x.id.as_str()).collect();
    assert_eq!(ids.len(), 2);
    assert!(ids.contains(&"python") && ids.contains(&"libc"));
    assert!(plan_summary(&p).contains("python"));
    let two = vec![module("b", vec!["node"])];
    let why = plan(&vm, &two, &lib).err().unwrap();
    assert_eq!(
        why,
        vec![Diagnosis::Ambiguous {
            capability: s("node"),
            versions: vec![s("20"), s("22")]
        }]
    );
    assert!(diagnose_text(&why).contains("node"));
    vm.pins.insert(s("node"), s("22"));
    assert!(plan(&vm, &two, &lib).is_ok());
    vm.pins.insert(s("node"), s("9"));
    assert_eq!(
        vm_diagnoses(&two, &lib, &vm),
        vec![Diagnosis::UnknownPin {
            capability: s("node"),
            version: s("9")
        }]
    );
    assert!(plan(&host(), &two, &lib).is_ok(), "本机档不装载运行包");
    let missing = vm_diagnoses(&vec![module("c", vec!["ruby"])], &lib, &vm);
    assert_eq!(
        missing,
        vec![Diagnosis::Missing {
            module: s("c"),
            capability: s("ruby")
        }]
    );
    let r = runtime_report(
        Tier::Host,
        &Roster {
            modules: vec![module("c", vec!["ruby"])],
            rejected: vec![s("坏")],
        },
        &lib,
        false,
        Platform::Linux,
    );
    assert_eq!(r.missing.get("c"), Some(&vec![s("ruby")]));
    assert_eq!(r.available.get("node"), Some(&vec![s("20"), s("22")]));
    assert!(r.tier_ready && r.diagnoses.is_empty());
    assert_eq!(r.rejected, vec!["坏"]);
}

#[test]
fn a_tier_needs_its_machine() {
    let mut vm = host();
    assert!(tier_readiness(&vm, false, false).ready());
    assert_eq!(tier_refusal(&vm, false, false, Platform::Linux), None);
    vm.tier = Tier::Vm;
    assert!(tier_readiness(&vm, false, true).ready(), "没填基础根就不查它");
    vm.base = Some(s("/b"));
    let t = tier_readiness(&vm, false, true);
    assert!(!t.ready());
    assert_eq!(t.missing(Platform::Linux).len(), 1);
    assert!(tier_refusal(&vm, false, true, Platform::Linux)
        .unwrap()
        .starts_with("本机不具备虚拟机档的前置条件（"));
}

#[test]
fn packages_say_where_they_go() {
    assert!(valid_capability("python-3"));
    assert!(!valid_capability("Py thon"));
    assert!(valid_rel_path("opt/a"));
    assert!(!valid_rel_path("../a"));
    assert!(!valid_rel_path("/a"));
    let mut p = package("", "1", vec![], vec![]);
    assert!(check_manifest(&p).is_err());
    p.kind = s("其它");
    assert!(check_manifest(&p).is_err());
    let mut m = module("a", vec!["Py thon"]);
    assert!(check_runtimes(&m.manifest).is_err());
    m.manifest.runtimes = vec![s("python")];
    assert!(check_runtimes(&m.manifest).is_ok());
    let mut a = package("a", "1", vec![], vec!["bin/x"]);
    let mut b = package("b", "1", vec![], vec!["bin/x"]);
    a.prefix = s("opt");
    b.prefix = s("opt");
    assert_eq!(conflicts(&vec![&a]).len(), 0);
    assert!(!conflicts(&vec![&a, &b]).is_empty());
}

// ---- views ----

#[test]
fn each_agent_has_its_own_sandbox() {
    let st = settings();
    let r = roster(vec!["a", "b"]);
    let meta = new_record(
        &spec(
            WorkMode::Collab,
            vec![
                instance("甲", vec!["a"], None),
                instance("乙", vec!["b"], None),
            ],
            Some("做"),
            false,
        ),
        false,
        &r,
        &st,
        machine(true, true),
        -3,
    )
    .unwrap();
    let mut roots = WorkRoots {
        shared: path("/w"),
        agents: Table::new(),
    };
    roots.agents.insert(s("甲"), path("/w/甲"));
    assert_eq!(
        sandboxes(&meta, &r, &roots).err(),
        Some(s("工作区没有给出 agent 乙 的沙箱路径"))
    );
    roots.agents.insert(s("乙"), path("/w/乙"));
    let plans = sandboxes(&meta, &r, &roots).unwrap();
    assert_eq!(plans.len(), 2);
    assert_eq!(plans[0].modules.len(), 1);
    assert!(plans[0].modules.contains_key("a"));
    assert!(!plans[0].modules.contains_key("b"));
    let mut files = WorkFiles {
        work: vec![s("x.md")],
        agents: Table::new(),
    };
    files.agents.insert(s("乙"), vec![s("y.md")]);
    let v = files_view(&meta, files, &roots);
    assert_eq!(v.work, vec!["x.md"]);
    assert!(v.agents[0].files.is_empty());
    assert_eq!(v.agents[1].files, vec!["y.md"]);
    assert_eq!(v.roots.agents[1].root, "/w/乙");
    let rec = record_config(&meta, -3);
    assert_eq!(rec.str_at("type"), Some("config"));
    assert_eq!(rec.str_at("tier"), Some("host"));
    match rec.get("ts") {
        Some(Json::Num(n)) => assert_eq!(n.text, "-3"),
        other => panic!("{:?}", other),
    }
    let lib = Library::build(vec![], vec![]);
    let c = session_config(
        &meta,
        true,
        false,
        false,
        Platform::Linux,
        runtime_report(Tier::Host, &r, &lib, false, Platform::Linux),
        &path("/runtimes"),
    );
    assert!(c.started && c.tier_ready && !c.vm_available);
    assert!(!c.vm_unavailable_reason.is_empty());
    assert_eq!(c.runtimes_dir, "/runtimes");
    let used = session_modules(r.modules, &vec![s("b")]);
    assert_eq!(used.len(), 1);
    assert_eq!(used[0].manifest.id, "b");
    assert_eq!(work_upload("x", " a.md", true), Ok(s("a.md")));
    assert_eq!(work_upload("x", "a.md", false), Err(s("无此会话：x")));
    assert!(work_upload("x", "a/b", true).is_err());
}

// ---- the small kernel ----

#[test]
fn the_default_endpoint_is_always_there() {
    let mut r = Registry {
        providers: Table::new(),
        default: None,
    };
    assert_eq!(
        r.provider_upsert("", "u", "k", &vec![]),
        Err(s("id / base_url / api_key 均不能为空"))
    );
    r.provider_upsert("b", "u", "k", &vec![s("m")]).unwrap();
    r.provider_upsert("a", "u", "k", &vec![]).unwrap();
    assert_eq!(r.provider_default(), Some(s("b")));
    assert!(!r.provider_set_default("z"));
    assert!(r.provider_remove("b"));
    assert_eq!(r.provider_default(), Some(s("a")));
    assert!(!r.provider_remove("b"));
    assert!(r.provider_remove("a"));
    assert_eq!(r.provider_default(), None);
}

#[test]
fn modules_are_picked_by_a_list() {
    let r = roster(vec!["a", "b", "c"]);
    assert_eq!(named_in(" a ，b,, c"), vec!["a", "b", "c"]);
    assert_eq!(pick_owned(&r, "c，z,a"), vec![2, 0]);
    assert_eq!(pick_owned(&r, " "), Vec::<usize>::new());
    assert_eq!(pick_borrowed(&r, " "), vec![0, 1, 2]);
    let o = start_omni(&r, "b", None).unwrap();
    assert_eq!(
        o.history[0].content,
        "你是全能助手，能力由以下模块职责拼装：\n\n== b ==\nb 职责"
    );
    assert_eq!(start_omni(&r, "z", None).err(), Some(s("无可拼装模块")));
    let mut d = DirectSession::start("a", s("职责"), Some(s("演示")));
    assert_eq!(d.open().len(), 1);
    d.say("你好");
    assert_eq!(d.hear("{\"type\":\"say\",\"text\":\"在\"}"), "[a] 在");
    assert_eq!(d.history.len(), 3);
    assert_eq!(d.history[2].content, "在");
}

#[test]
fn what_failed_is_done_again_until_the_limit() {
    assert_eq!(after_review(true, 9, 2), AfterReview::Deliver { ok: true });
    assert_eq!(after_review(false, 1, 2), AfterReview::Rework);
    assert_eq!(after_review(false, 2, 2), AfterReview::Deliver { ok: false });
    let item = |i: &str, st: &str, why: Option<&str>| CheckItem {
        item: s(i),
        status: s(st),
        evidence: None,
        reason: why.map(s),
        rework: None,
    };
    assert_eq!(
        fail_text(&vec![
            item("一", "PASS", None),
            item("二", "fail", Some("缺")),
            item("三", "fail", None)
        ]),
        "- 二：缺\n- 三："
    );
}

fn check(status: &str) -> Execution {
    let mut ex = Execution::new();
    ex.reviewed(
        Ok(Checklist {
            items: vec![CheckItem {
                item: s("齐全"),
                status: s(status),
                evidence: None,
                reason: Some(s("缺页")),
                rework: None,
            }],
            raw: s("原文"),
        }),
        false,
    );
    ex
}

fn notices(v: &[CrewEvent]) -> Vec<String> {
    v.iter()
        .filter_map(|e| match e {
            CrewEvent::Told(SessionEvent::Notice(t)) => Some(t.clone()),
            _ => None,
        })
        .collect()
}

#[test]
fn a_small_team_goes_from_its_task_to_its_delivery() {
    let r = roster(vec!["a", "b"]);
    assert_eq!(
        CrewSession::start(&r, "z", 1).err(),
        Some(s("名单为空或无有效模块"))
    );
    let mut c = CrewSession::start(&r, "b，a", 1).unwrap();
    assert_eq!(c.team(), &vec![s("b"), s("a")]);
    let (step, ev) = c.set_task(&r, "写文档");
    assert!(matches!(step, CrewStep::Wait));
    assert_eq!(notices(&ev), vec!["[建组] b + a"]);
    assert!(matches!(c.pending, Some(Pending::ConfirmBegin)));
    assert_eq!(c.task(), "写文档");
    let (step, ev) = c.begin(false, &vec![s("演示通道")], true);
    assert!(matches!(step, CrewStep::Open));
    assert_eq!(notices(&ev).len(), 2);
    assert!(c.begin(false, &vec![], false).1.is_empty());
    let (step, ev) = c.opened(&vec![s("一")]);
    assert!(matches!(step, CrewStep::Talk));
    assert!(matches!(&ev[0], CrewEvent::Lines(v) if v == &vec![s("一")]));
    let asks = CrewOut::AskUser {
        member: s("a"),
        question: s("几页"),
    };
    let (step, ev) = c.pump(&vec![s("一"), s("二")], asks);
    assert!(matches!(step, CrewStep::Wait));
    assert!(matches!(&ev[0], CrewEvent::Lines(v) if v == &vec![s("二")]));
    assert!(matches!(c.answer("两页"), CrewStep::Answer(t) if t == "两页"));
    assert!(matches!(c.answer("两页"), CrewStep::Wait));
    let (step, ev) = c.pump(&vec![s("一"), s("二")], CrewOut::Round);
    assert!(matches!(step, CrewStep::Talk));
    assert!(ev.is_empty());
    let (step, ev) = c.pump(&vec![s("一"), s("二")], CrewOut::Done { round: 7 });
    assert!(matches!(step, CrewStep::Plan));
    assert_eq!(notices(&ev), vec!["[上限] 讨论轮次超限，交用户裁决。"]);
    assert!(matches!(
        ev.last(),
        Some(CrewEvent::Told(SessionEvent::DiscussionDone { round: 7, over_cap: true }))
    ));
    let (step, _) = c.planned(s("方案"));
    assert!(matches!(step, CrewStep::Run));
    assert_eq!(c.plan(), "方案");
    let mut ex = check("fail");
    ex.reports.insert(s("a"), s("做了"));
    let (step, ev) = c.ran(&ex);
    assert!(matches!(step, CrewStep::Review));
    assert!(matches!(
        &ev[0],
        CrewEvent::Told(SessionEvent::Report { id, text, rework: 0 }) if id == "a" && text == "做了"
    ));
    let (step, ev) = c.reviewed(&ex);
    assert!(matches!(step, CrewStep::Rerun(t) if t == "- 齐全：缺页"));
    assert_eq!(notices(&ev), vec!["[返工] 第 1 次（上限 1）"]);
    let (_, ev) = c.ran(&ex);
    assert!(matches!(
        ev[0],
        CrewEvent::Told(SessionEvent::Report { rework: 1, .. })
    ));
    let (step, ev) = c.reviewed(&ex);
    assert!(matches!(step, CrewStep::Wait));
    assert_eq!(ev.len(), 3);
    assert!(matches!(
        ev[1],
        CrewEvent::Told(SessionEvent::Delivery { ok: false, over_rework: true })
    ));
    assert!(matches!(ev[2], CrewEvent::Told(SessionEvent::Ended)));
    assert!(matches!(c.pump(&vec![], CrewOut::Round).0, CrewStep::Wait));
}

#[test]
fn a_small_team_may_be_drafted() {
    let r = roster(vec!["a", "b"]);
    let mut c = CrewSession::start(&r, " ? ", 2).unwrap();
    assert!(c.set_task(&r, " ").1.len() == 2);
    let mut c = CrewSession::start(&r, "?", 2).unwrap();
    let msgs = match c.set_task(&r, "写").0 {
        CrewStep::Draft(m) => m,
        other => panic!("{:?}", other),
    };
    assert_eq!(
        msgs[1].content,
        "== 模块简述 ==\n- a：a 简述\n- b：b 简述\n\n== 需求 ==\n写"
    );
    let pick = |id: &str| Pick {
        id: s(id),
        why: s("会"),
    };
    let (_, ev) = c.drafted(&r, Some(vec![pick("z"), pick("b")]));
    assert_eq!(notices(&ev), vec!["[代拟] z 不存在，拒收"]);
    assert!(matches!(&ev[1], CrewEvent::Lines(v) if v == &vec![s("[代拟] b（会）")]));
    assert!(matches!(c.pending, Some(Pending::ConfirmSlate)));
    let (_, ev) = c.confirm_slate(&r, true);
    assert!(matches!(&ev[0], CrewEvent::Lines(v) if v == &vec![s("[用户:名单] 确认")]));
    assert_eq!(notices(&ev), vec!["[建组] b"]);
    let mut gone = CrewSession::start(&r, "?", 2).unwrap();
    assert_eq!(
        notices(&gone.drafted(&r, None).1),
        vec!["[错误] 代拟失败（模型无响应格式）。请直接点名模块。"]
    );
    let mut none = CrewSession::start(&r, "?", 2).unwrap();
    assert_eq!(none.drafted(&r, Some(vec![pick("z")])).1.len(), 3);
    let mut off = CrewSession::start(&r, "?", 2).unwrap();
    assert_eq!(
        notices(&off.confirm_slate(&r, false).1),
        vec!["[取消] 已按用户意愿取消"]
    );
    let mut passed = CrewSession::start(&r, "a", 0).unwrap();
    let (_, ev) = passed.reviewed(&check("PASS"));
    assert!(matches!(
        ev[1],
        CrewEvent::Told(SessionEvent::Delivery { ok: true, over_rework: false })
    ));
}

#[test]
fn what_no_package_provides_is_noted() {
    let lib = Library::build(vec![], vec![]);
    assert_eq!(
        absent_notes(&vec![module("a", vec!["py", "js"]), module("b", vec![])], &lib),
        vec!["模块 a 声明的运行包不在包库：py、js"]
    );
}

#[test]
fn contents_are_told_apart_by_their_hash() {
    assert_eq!(fnv1a(""), 0xcbf29ce484222325);
    assert_eq!(fnv1a("a"), 0xaf63dc4c8601ec8c);
}
