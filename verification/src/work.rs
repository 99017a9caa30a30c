//! What a work is made of: the user's choices, whether they hold together, and the
//! record that is made of them.
use crate::agents::{self, Agent, Agents, has_bad, is_reserved, unique_instance_name, validate_name};
use crate::execution::{self, ExecSpec, ExecSpecV, Platform, Tier, TierReadiness, tier_readiness, tier_refusal};
use crate::history::{self, AgentMeta, AgentMetaV, SessionMeta, SessionMetaV, modules_of_agents, names_of_agents};
use crate::module::{Module, Roster};
use crate::providers::{self, Settings};
use crate::review;
use crate::table::{self, Table};
use crate::text::{self, cat2, cat3, clone_opt, clone_strings, has_text, is_blank, str_eq, to_chars, trim};
use vstd::prelude::*;

verus! {

/// One agent, or a team.
#[derive(Debug, Clone, Copy, PartialEq, Eq, Structural)]
pub enum WorkMode {
    Single,
    Collab,
}

/// Where a team's work stands, as the one who drives it says.
#[derive(Debug, Clone, Copy, PartialEq, Eq, Structural)]
pub enum CollabStep {
    SetTask,
    ConfirmSlate,
    Begin,
    Answer,
    ApprovePlan,
}

pub open spec fn mode_text(m: WorkMode) -> Seq<char> {
    match m {
        WorkMode::Single => "single"@,
        WorkMode::Collab => "collab"@,
    }
}

/// How a mode is recorded.
pub fn mode_str(mode: WorkMode) -> (r: &'static str)
    ensures
        r@ == mode_text(mode),
{
    match mode {
        WorkMode::Single => "single",
        WorkMode::Collab => "collab",
    }
}

// ---- names ----

/// What is wrong with the name of a work, if anything is: it becomes the name of a
/// directory.
pub open spec fn work_name_fault(name: Seq<char>) -> Option<Seq<char>> {
    let n = text::trimmed(name);
    if n.len() == 0 {
        Some("工作名不能为空"@)
    } else if name != n {
        Some("工作名首尾不能有空白"@)
    } else if n == "."@ || n == ".."@ {
        Some("工作名非法"@)
    } else if exists|k: int| 0 <= k < n.len() && agents::bad_in_name(#[trigger] n[k]) {
        Some("工作名不能包含 \\ / : * ? \" < > | 或控制字符"@)
    } else if agents::reserved(n) {
        Some("工作名是系统保留名"@)
    } else {
        None
    }
}

/// Checks the name of a work.
pub fn validate_work_name(name: &str) -> (r: Result<(), String>)
    ensures
        match r {
            Ok(_) => work_name_fault(name@) is None,
            Err(e) => work_name_fault(name@) == Some(e@),
        },
{
    let n = trim(name);
    let v = to_chars(n.as_str());
    if v.len() == 0 {
        return Err("工作名不能为空".to_owned());
    }
    if !str_eq(name, n.as_str()) {
        return Err("工作名首尾不能有空白".to_owned());
    }
    if str_eq(n.as_str(), ".") || str_eq(n.as_str(), "..") {
        return Err("工作名非法".to_owned());
    }
    if has_bad(&v) {
        return Err("工作名不能包含 \\ / : * ? \" < > | 或控制字符".to_owned());
    }
    if is_reserved(&v) {
        return Err("工作名是系统保留名".to_owned());
    }
    Ok(())
}

// ---- agents ----

/// An agent that takes part, as it was chosen.
#[derive(Debug)]
pub struct AgentInstance {
    pub name: String,
    /// Whether it comes from no registry.
    pub transient: bool,
    pub modules: Vec<String>,
    pub model: Option<String>,
}

impl View for AgentInstance {
    type V = AgentMetaV;

    open spec fn view(&self) -> AgentMetaV {
        AgentMetaV {
            name: self.name@,
            transient: self.transient,
            modules: text::texts(self.modules@),
            model: text::opt_text(self.model),
        }
    }
}

pub open spec fn instances_v(v: Seq<AgentInstance>) -> Seq<AgentMetaV> {
    v.map_values(|a: AgentInstance| a@)
}

/// What is used after the modules from the `i`th on are taken, or which of them
/// cannot be: one there is not, or one that is used already.
pub open spec fn modules_taken(
    ms: Seq<Seq<char>>,
    used: Seq<Seq<char>>,
    ids: Seq<Seq<char>>,
    i: int,
) -> Result<Seq<Seq<char>>, Seq<char>>
    decreases ms.len() - i,
{
    if i < 0 || i >= ms.len() {
        Ok(used)
    } else if !ids.contains(ms[i]) {
        Err("无此模块："@ + ms[i])
    } else if used.contains(ms[i]) {
        Err("模块 "@ + ms[i] + " 被多个 agent 同时使用；同一模块只能属于一个 agent"@)
    } else {
        modules_taken(ms, used.push(ms[i]), ids, i + 1)
    }
}

/// What is wrong with an agent's model, if anything is.
pub open spec fn model_fault(s: Settings, model: Option<Seq<char>>) -> Option<Seq<char>> {
    match model {
        None => None,
        Some(m) => match providers::resolved(s, m) {
            Ok(_) => None,
            Err(e) => Some(e),
        },
    }
}

/// The modules in use after an agent, or what is wrong with it.
pub open spec fn agent_checked(
    a: AgentMetaV,
    used: Seq<Seq<char>>,
    ids: Seq<Seq<char>>,
    s: Settings,
) -> Result<Seq<Seq<char>>, Seq<char>> {
    match agents::name_fault(a.name) {
        Some(e) => Err(e),
        None => if a.modules.len() == 0 {
            Err("agent "@ + a.name + " 至少要有一个模块"@)
        } else {
            match modules_taken(a.modules, used, ids, 0) {
                Err(e) => Err(e),
                Ok(u) => match model_fault(s, a.model) {
                    Some(e) => Err(e),
                    None => Ok(u),
                },
            }
        },
    }
}

/// The modules in use after the first `n` agents, or what is wrong with the first of
/// them with which something is.
pub open spec fn agents_checked(
    v: Seq<AgentMetaV>,
    ids: Seq<Seq<char>>,
    s: Settings,
    n: int,
) -> Result<Seq<Seq<char>>, Seq<char>>
    decreases n,
{
    if n <= 0 {
        Ok(Seq::empty())
    } else {
        match agents_checked(v, ids, s, n - 1) {
            Err(e) => Err(e),
            Ok(u) => agent_checked(v[n - 1], u, ids, s),
        }
    }
}

fn take_modules(ms: &Vec<String>, used: Vec<String>, modules: &Vec<Module>) -> (r: Result<
    Vec<String>,
    String,
>)
    ensures
        match r {
            Ok(u) => modules_taken(text::texts(ms@), text::texts(used@), agents::module_ids(modules@), 0) == Ok::<
                _,
                Seq<char>,
            >(text::texts(u@)),
            Err(e) => modules_taken(text::texts(ms@), text::texts(used@), agents::module_ids(modules@), 0) == Err::<
                Seq<Seq<char>>,
                _,
            >(e@),
        },
{
    let ghost mv = text::texts(ms@);
    let ghost ids = agents::module_ids(modules@);
    let ghost first = text::texts(used@);
    let mut taken = used;
    let mut i: usize = 0;
    while i < ms.len()
        invariant
            i <= ms@.len(),
            mv == text::texts(ms@),
            ids == agents::module_ids(modules@),
            first == text::texts(used@),
            modules_taken(mv, first, ids, 0) == modules_taken(
                mv,
                text::texts(taken@),
                ids,
                i as int,
            ),
        decreases ms@.len() - i,
    {
        assert(mv[i as int] == ms@[i as int]@);
        if !has_module(modules, ms[i].as_str()) {
            return Err(cat2("无此模块：", ms[i].as_str()));
        }
        if has_text(&taken, ms[i].as_str()) {
            return Err(
                cat3(
                    "模块 ",
                    ms[i].as_str(),
                    " 被多个 agent 同时使用；同一模块只能属于一个 agent",
                ),
            );
        }
        let ghost prev = taken@;
        let m = ms[i].clone();
        taken.push(m);
        proof {
            text::lemma_texts_push(prev, m);
        }
        i = i + 1;
    }
    Ok(taken)
}

/// Whether there is a module of this id.
pub fn has_module(modules: &Vec<Module>, id: &str) -> (r: bool)
    ensures
        r == agents::module_ids(modules@).contains(id@),
{
    let ghost ids = agents::module_ids(modules@);
    let mut i: usize = 0;
    while i < modules.len()
        invariant
            i <= modules@.len(),
            ids == agents::module_ids(modules@),
            forall|k: int| 0 <= k < i ==> #[trigger] ids[k] != id@,
        decreases modules@.len() - i,
    {
        assert(ids[i as int] == modules@[i as int].manifest.id@);
        if str_eq(modules[i].manifest.id.as_str(), id) {
            return true;
        }
        i = i + 1;
    }
    false
}

/// Checks the agents of a work: their names, that their modules exist and none is
/// used twice, and that their models lead to a provider. The modules in use come
/// back.
pub fn check_agents(v: &Vec<AgentMeta>, modules: &Roster, settings: &Settings) -> (r: Result<
    Vec<String>,
    String,
>)
    ensures
        match r {
            Ok(u) => agents_checked(
                history::agents_v(v@),
                agents::module_ids(modules.modules@),
                *settings,
                v@.len() as int,
            ) == Ok::<_, Seq<char>>(text::texts(u@)),
            Err(e) => agents_checked(
                history::agents_v(v@),
                agents::module_ids(modules.modules@),
                *settings,
                v@.len() as int,
            ) == Err::<Seq<Seq<char>>, _>(e@),
        },
{
    let ghost av = history::agents_v(v@);
    let ghost ids = agents::module_ids(modules.modules@);
    let mut used: Vec<String> = Vec::new();
    let mut i: usize = 0;
    assert(text::texts(used@) =~= Seq::empty());
    while i < v.len()
        invariant
            i <= v@.len(),
            av == history::agents_v(v@),
            ids == agents::module_ids(modules.modules@),
            agents_checked(av, ids, *settings, i as int) == Ok::<_, Seq<char>>(text::texts(used@)),
        decreases v@.len() - i,
    {
        let a = &v[i];
        assert(av[i as int] == a@);
        assert(text::texts(a.modules@).len() == a.modules@.len());
        let ghost so_far = text::texts(used@);
        let checked = check_agent(a, used, modules, settings);
        assert(agents_checked(av, ids, *settings, i + 1) == agent_checked(
            a@,
            so_far,
            ids,
            *settings,
        ));
        match checked {
            Ok(u) => {
                used = u;
            },
            Err(e) => {
                proof {
                    lemma_checked_stays(av, ids, *settings, i + 1, v@.len() as int);
                }
                return Err(e);
            },
        }
        i = i + 1;
    }
    Ok(used)
}

fn check_agent(a: &AgentMeta, used: Vec<String>, modules: &Roster, settings: &Settings) -> (r:
    Result<Vec<String>, String>)
    ensures
        match r {
            Ok(u) => agent_checked(
                a@,
                text::texts(used@),
                agents::module_ids(modules.modules@),
                *settings,
            ) == Ok::<_, Seq<char>>(text::texts(u@)),
            Err(e) => agent_checked(
                a@,
                text::texts(used@),
                agents::module_ids(modules.modules@),
                *settings,
            ) == Err::<Seq<Seq<char>>, _>(e@),
        },
{
    match validate_name(a.name.as_str()) {
        Ok(_) => {},
        Err(e) => {
            return Err(e);
        },
    }
    assert(text::texts(a.modules@).len() == a.modules@.len());
    if a.modules.len() == 0 {
        return Err(cat3("agent ", a.name.as_str(), " 至少要有一个模块"));
    }
    let used = match take_modules(&a.modules, used, &modules.modules) {
        Ok(u) => u,
        Err(e) => {
            return Err(e);
        },
    };
    match &a.model {
        Some(m) => match settings.resolve(m.as_str()) {
            Ok(_) => {},
            Err(e) => {
                return Err(e);
            },
        },
        None => {},
    }
    Ok(used)
}

proof fn lemma_checked_stays(
    v: Seq<AgentMetaV>,
    ids: Seq<Seq<char>>,
    s: Settings,
    n: int,
    m: int,
)
    requires
        0 <= n <= m,
        agents_checked(v, ids, s, n) is Err,
    ensures
        agents_checked(v, ids, s, m) == agents_checked(v, ids, s, n),
    decreases m - n,
{
    if n < m {
        lemma_checked_stays(v, ids, s, n, m - 1);
    }
}

/// The first `n` agents under names that no two share.
pub open spec fn named_below(v: Seq<AgentMetaV>, n: int) -> Seq<AgentMetaV>
    decreases n,
{
    if n <= 0 {
        Seq::empty()
    } else {
        let prev = named_below(v, n - 1);
        prev.push(
            AgentMetaV { name: agents::free_name(history::agent_names(prev), v[n - 1].name, "-"@), ..v[n - 1] },
        )
    }
}

/// Gives agents names that no two share.
pub fn name_agents(v: &Vec<AgentMeta>) -> (r: Vec<AgentMeta>)
    ensures
        history::agents_v(r@) == named_below(history::agents_v(v@), v@.len() as int),
{
    let ghost av = history::agents_v(v@);
    let mut out: Vec<AgentMeta> = Vec::new();
    let mut taken: Vec<String> = Vec::new();
    let mut i: usize = 0;
    assert(history::agents_v(out@) =~= Seq::empty());
    assert(text::texts(taken@) =~= history::agent_names(history::agents_v(out@)));
    while i < v.len()
        invariant
            i <= v@.len(),
            av == history::agents_v(v@),
            history::agents_v(out@) == named_below(av, i as int),
            text::texts(taken@) == history::agent_names(history::agents_v(out@)),
        decreases v@.len() - i,
    {
        assert(av[i as int] == v@[i as int]@);
        let name = unique_instance_name(v[i].name.as_str(), &taken);
        let ghost tk = taken@;
        let ghost prev = out@;
        let n = name.clone();
        taken.push(n);
        let mut a = v[i].copy();
        a.name = name;
        out.push(a);
        proof {
            text::lemma_texts_push(tk, n);
            assert(a@ == (AgentMetaV { name: name@, ..av[i as int] }));
            assert(history::agents_v(out@) =~= history::agents_v(prev).push(a@));
            assert(history::agent_names(history::agents_v(out@)) =~= history::agent_names(history::agents_v(prev)).push(name@));
        }
        i = i + 1;
    }
    out
}

// ---- a new work ----

/// What the user chose for a new work.
#[derive(Debug)]
pub struct WorkSpec {
    pub name: String,
    pub mode: WorkMode,
    pub agents: Vec<AgentInstance>,
    pub task: Option<String>,
    /// Whether the core drafts the roster.
    pub delegate: bool,
}

/// What is known of the machine when a tier is chosen.
#[derive(Debug, Clone, Copy)]
pub struct Machine {
    /// Whether the base that has to be there is there.
    pub base_there: bool,
    /// Whether guests can be run.
    pub hypervisor: bool,
    pub platform: Platform,
}

/// What is wrong with the mode and the agents of a work, if anything is.
pub open spec fn mode_fault(mode: WorkMode, agents: nat, task: Option<Seq<char>>) -> Option<Seq<char>> {
    match mode {
        WorkMode::Single => if agents != 1 {
            Some("单 agent 形态只接受一个 agent（模块数不限）"@)
        } else {
            None
        },
        WorkMode::Collab => if text::trimmed(review::or_nothing(task)).len() == 0 {
            Some("协作模式必须填写本次需求"@)
        } else {
            None
        },
    }
}

pub open spec fn tier_fault(tier: Tier, m: Machine) -> Option<Seq<char>> {
    if tier == Tier::Vm && !m.hypervisor {
        Some(
            execution::refusal_text(
                TierReadiness { base: true, hypervisor: false },
                m.platform,
            ),
        )
    } else {
        None
    }
}

/// What is wrong with a new work, if anything is.
pub open spec fn work_fault(
    w: WorkSpec,
    exists_already: bool,
    ids: Seq<Seq<char>>,
    s: Settings,
    m: Machine,
) -> Option<Seq<char>> {
    let v = instances_v(w.agents@);
    match work_name_fault(w.name@) {
        Some(e) => Some(e),
        None => if exists_already {
            Some("工作名已存在："@ + w.name@)
        } else if v.len() == 0 && !w.delegate {
            Some("至少要有一个 agent"@)
        } else {
            match agents_checked(v, ids, s, v.len() as int) {
                Err(e) => Some(e),
                Ok(_) => match mode_fault(w.mode, v.len(), text::opt_text(w.task)) {
                    Some(e) => Some(e),
                    None => tier_fault(s.app.tier, m),
                },
            }
        },
    }
}

/// The record of a new work.
pub open spec fn work_record(w: WorkSpec, s: Settings, ts: i64) -> SessionMetaV {
    let v = instances_v(w.agents@);
    let agents = named_below(v, v.len() as int);
    SessionMetaV {
        name: w.name@,
        mode: mode_text(w.mode),
        delegate: w.delegate && v.len() == 0,
        modules: history::flat_modules(agents),
        task: text::opt_text(w.task),
        ts,
        agents,
        exec_spec: ExecSpecV { tier: s.app.tier, base: None, pins: Seq::empty(), net: false },
        parent: None,
        node: None,
    }
}

fn metas_of(v: &Vec<AgentInstance>) -> (r: Vec<AgentMeta>)
    ensures
        history::agents_v(r@) == instances_v(v@),
        r@.len() == v@.len(),
{
    let mut r: Vec<AgentMeta> = Vec::new();
    let mut i: usize = 0;
    while i < v.len()
        invariant
            i <= v@.len(),
            r@.len() == i,
            forall|k: int| 0 <= k < i ==> (#[trigger] r@[k])@ == v@[k]@,
        decreases v@.len() - i,
    {
        r.push(
            AgentMeta {
                name: v[i].name.clone(),
                transient: v[i].transient,
                modules: clone_strings(&v[i].modules),
                model: clone_opt(&v[i].model),
            },
        );
        i = i + 1;
    }
    assert(history::agents_v(r@) =~= instances_v(v@));
    r
}

/// Makes the record of a new work, or says what is wrong with it. Nothing is made
/// of a work with which something is wrong. Whether its packages fit is left open.
pub fn new_record(
    w: &WorkSpec,
    exists_already: bool,
    modules: &Roster,
    settings: &Settings,
    machine: Machine,
    ts: i64,
) -> (r: Result<SessionMeta, String>)
    ensures
        match r {
            Ok(m) => work_fault(
                *w,
                exists_already,
                agents::module_ids(modules.modules@),
                *settings,
                machine,
            ) is None && m@ == work_record(*w, *settings, ts),
            Err(e) => work_fault(
                *w,
                exists_already,
                agents::module_ids(modules.modules@),
                *settings,
                machine,
            ) == Some(e@),
        },
{
    match validate_work_name(w.name.as_str()) {
        Ok(_) => {},
        Err(e) => {
            return Err(e);
        },
    }
    if exists_already {
        return Err(cat2("工作名已存在：", w.name.as_str()));
    }
    let chosen = metas_of(&w.agents);
    let ghost v = instances_v(w.agents@);
    assert(v.len() == w.agents@.len());
    if chosen.len() == 0 && !w.delegate {
        return Err("至少要有一个 agent".to_owned());
    }
    match check_agents(&chosen, modules, settings) {
        Ok(_) => {},
        Err(e) => {
            return Err(e);
        },
    }
    match w.mode {
        WorkMode::Single => {
            if chosen.len() != 1 {
                return Err("单 agent 形态只接受一个 agent（模块数不限）".to_owned());
            }
        },
        WorkMode::Collab => {
            let task = match &w.task {
                Some(t) => t.clone(),
                None => String::new(),
            };
            assert(task@ =~= review::or_nothing(text::opt_text(w.task)));
            if is_blank(task.as_str()) {
                return Err("协作模式必须填写本次需求".to_owned());
            }
        },
    }
    let exec_spec = ExecSpec {
        tier: settings.app.tier,
        base: None,
        pins: Table::new(),
        net: false,
    };
    match tier_refusal(
        &exec_spec,
        machine.base_there,
        machine.hypervisor,
        machine.platform,
    ) {
        Some(why) => {
            return Err(why);
        },
        None => {},
    }
    let agents = name_agents(&chosen);
    let none = chosen.len() == 0;
    let m = SessionMeta {
        name: w.name.clone(),
        mode: mode_str(w.mode).to_owned(),
        delegate: w.delegate && none,
        modules: modules_of_agents(&agents),
        task: clone_opt(&w.task),
        ts,
        agents,
        exec_spec,
        parent: None,
        node: None,
    };
    assert(execution::pins_v(exec_spec.pins@) =~= Seq::empty());
    Ok(m)
}

// ---- a changed work ----

/// An agent as the user set it.
#[derive(Debug)]
pub struct ConfigAgent {
    pub name: String,
    pub modules: Vec<String>,
    /// Empty for the core's own.
    pub model: String,
}

/// What the user changed.
#[derive(Debug)]
pub struct SessionEdit {
    pub agents: Vec<ConfigAgent>,
    pub tier: String,
    pub base: Option<String>,
    pub pins: Table<String>,
    pub net: bool,
}

/// The agent it becomes.
pub open spec fn edited_agent(a: ConfigAgent, known: Seq<(Seq<char>, Agent)>) -> AgentMetaV {
    AgentMetaV {
        name: a.name@,
        transient: table::lookup(known, a.name@) is None,
        modules: text::texts(a.modules@),
        model: if a.model@.len() == 0 {
            None
        } else {
            Some(a.model@)
        },
    }
}

pub open spec fn edited_agents(v: Seq<ConfigAgent>, known: Seq<(Seq<char>, Agent)>) -> Seq<AgentMetaV> {
    v.map_values(|a: ConfigAgent| edited_agent(a, known))
}

/// The tier a word stands for.
pub open spec fn tier_named(t: Seq<char>) -> Option<Tier> {
    if t == "host"@ {
        Some(Tier::Host)
    } else if t == "vm"@ {
        Some(Tier::Vm)
    } else {
        None
    }
}

/// Whether a tier can be carried with this base.
pub open spec fn ready_with(tier: Tier, base: Option<Seq<char>>, m: Machine) -> TierReadiness {
    if tier != Tier::Vm {
        TierReadiness { base: true, hypervisor: true }
    } else {
        TierReadiness {
            base: text::trimmed(review::or_nothing(base)).len() == 0 || m.base_there,
            hypervisor: m.hypervisor,
        }
    }
}

/// What is wrong with a change of the tier. A work that stays in the guest's tier is
/// asked only for the base; one that would enter it, for all it needs.
pub open spec fn tier_change_fault(
    was: Tier,
    tier: Tier,
    base: Option<Seq<char>>,
    m: Machine,
) -> Option<Seq<char>> {
    let r = ready_with(tier, base, m);
    if was == Tier::Vm && tier == Tier::Vm {
        if r.base {
            None
        } else {
            Some("基础根不存在"@)
        }
    } else if r.base && r.hypervisor {
        None
    } else {
        Some(execution::refusal_text(r, m.platform))
    }
}

/// What is wrong with a change, if anything is.
pub open spec fn edit_fault(
    meta: SessionMetaV,
    started: bool,
    e: SessionEdit,
    ids: Seq<Seq<char>>,
    s: Settings,
    m: Machine,
) -> Option<Seq<char>> {
    let v = edited_agents(e.agents@, s.agents@);
    if meta.mode != "single"@ && meta.mode != "collab"@ {
        Some("未知会话形态："@ + meta.mode + "（只认 single / collab）"@)
    } else if started && history::agent_names(meta.agents) != history::agent_names(v) {
        Some("这轮会话已经开过：agent 名单与形态冻结（要换人请新建会话）"@)
    } else {
        match agents_checked(v, ids, s, v.len() as int) {
            Err(x) => Some(x),
            Ok(_) => if v.len() == 0 {
                Some("至少要有一个 agent"@)
            } else if meta.mode == "single"@ && v.len() != 1 {
                Some("单 agent 形态只接受一个 agent（模块数不限）"@)
            } else {
                match tier_named(e.tier@) {
                    None => Some("未知执行档位："@ + e.tier@ + "（只认 host / vm）"@),
                    Some(t) => tier_change_fault(meta.exec_spec.tier, t, text::opt_text(e.base), m),
                }
            },
        }
    }
}

/// The record of a changed work: its name, its mode and its task are as before.
pub open spec fn edited_record(meta: SessionMetaV, e: SessionEdit, s: Settings) -> SessionMetaV {
    let v = edited_agents(e.agents@, s.agents@);
    SessionMetaV {
        modules: history::flat_modules(v),
        agents: v,
        exec_spec: ExecSpecV {
            tier: tier_named(e.tier@)->0,
            base: text::opt_text(e.base),
            pins: execution::pins_v(e.pins@),
            net: e.net,
        },
        ..meta
    }
}

fn edit_agents(v: &Vec<ConfigAgent>, known: &Agents) -> (r: Vec<AgentMeta>)
    ensures
        history::agents_v(r@) == edited_agents(v@, known@),
        r@.len() == v@.len(),
{
    let mut r: Vec<AgentMeta> = Vec::new();
    let mut i: usize = 0;
    while i < v.len()
        invariant
            i <= v@.len(),
            r@.len() == i,
            forall|k: int| 0 <= k < i ==> (#[trigger] r@[k])@ == edited_agent(v@[k], known@),
        decreases v@.len() - i,
    {
        let a = &v[i];
        let m = AgentMeta {
            name: a.name.clone(),
            transient: !known.contains_key(a.name.as_str()),
            modules: clone_strings(&a.modules),
            model: if a.model.as_str().unicode_len() == 0 {
                None
            } else {
                Some(a.model.clone())
            },
        };
        assert(m@ == edited_agent(v@[i as int], known@));
        r.push(m);
        i = i + 1;
    }
    assert(history::agents_v(r@) =~= edited_agents(v@, known@));
    r
}

fn same_names(a: &Vec<String>, b: &Vec<String>) -> (r: bool)
    ensures
        r == (text::texts(a@) == text::texts(b@)),
{
    let ghost av = text::texts(a@);
    let ghost bv = text::texts(b@);
    assert(av.len() == a@.len() && bv.len() == b@.len());
    if a.len() != b.len() {
        return false;
    }
    let mut i: usize = 0;
    while i < a.len()
        invariant
            i <= a@.len(),
            a@.len() == b@.len(),
            av == text::texts(a@),
            bv == text::texts(b@),
            forall|k: int| 0 <= k < i ==> #[trigger] av[k] == bv[k],
        decreases a@.len() - i,
    {
        if !str_eq(a[i].as_str(), b[i].as_str()) {
            assert(av[i as int] != bv[i as int]);
            return false;
        }
        i = i + 1;
    }
    assert(av =~= bv);
    true
}

/// Makes the record of a changed work, or says what is wrong with the change.
pub fn edit_session(
    meta: &SessionMeta,
    started: bool,
    edit: SessionEdit,
    modules: &Roster,
    settings: &Settings,
    machine: Machine,
) -> (r: Result<SessionMeta, String>)
    ensures
        match r {
            Ok(m) => edit_fault(
                meta@,
                started,
                edit,
                agents::module_ids(modules.modules@),
                *settings,
                machine,
            ) is None && m@ == edited_record(meta@, edit, *settings),
            Err(e) => edit_fault(
                meta@,
                started,
                edit,
                agents::module_ids(modules.modules@),
                *settings,
                machine,
            ) == Some(e@),
        },
{
    let single = str_eq(meta.mode.as_str(), "single");
    if !single && !str_eq(meta.mode.as_str(), "collab") {
        return Err(cat3("未知会话形态：", meta.mode.as_str(), "（只认 single / collab）"));
    }
    let agents = edit_agents(&edit.agents, &settings.agents);
    let ghost v = edited_agents(edit.agents@, settings.agents@);
    if started {
        let was = names_of_agents(&meta.agents);
        let now = names_of_agents(&agents);
        if !same_names(&was, &now) {
            return Err("这轮会话已经开过：agent 名单与形态冻结（要换人请新建会话）".to_owned());
        }
    }
    match check_agents(&agents, modules, settings) {
        Ok(_) => {},
        Err(e) => {
            return Err(e);
        },
    }
    assert(v.len() == agents@.len());
    if agents.len() == 0 {
        return Err("至少要有一个 agent".to_owned());
    }
    if single && agents.len() != 1 {
        return Err("单 agent 形态只接受一个 agent（模块数不限）".to_owned());
    }
    let tier = if str_eq(edit.tier.as_str(), "host") {
        Tier::Host
    } else if str_eq(edit.tier.as_str(), "vm") {
        Tier::Vm
    } else {
        return Err(cat3("未知执行档位：", edit.tier.as_str(), "（只认 host / vm）"));
    };
    let exec_spec = ExecSpec { tier, base: edit.base, pins: edit.pins, net: edit.net };
    let ready = tier_readiness(&exec_spec, machine.base_there, machine.hypervisor);
    proof {
        if exec_spec.base is None {
            assert(text::trimmed(Seq::<char>::empty()).len() == 0);
        }
        assert(ready == ready_with(tier, text::opt_text(edit.base), machine));
    }
    if meta.exec_spec.tier == Tier::Vm && tier == Tier::Vm {
        if !ready.base {
            return Err("基础根不存在".to_owned());
        }
    } else {
        match tier_refusal(
            &exec_spec,
            machine.base_there,
            machine.hypervisor,
            machine.platform,
        ) {
            Some(why) => {
                return Err(why);
            },
            None => {},
        }
    }
    let mut m = meta.copy();
    m.modules = modules_of_agents(&agents);
    m.agents = agents;
    m.exec_spec = exec_spec;
    Ok(m)
}

// ---- what holds of every work ----

proof fn lemma_taken_grows(
    ms: Seq<Seq<char>>,
    used: Seq<Seq<char>>,
    ids: Seq<Seq<char>>,
    i: int,
)
    requires
        0 <= i <= ms.len(),
        used.no_duplicates(),
    ensures
        match modules_taken(ms, used, ids, i) {
            Ok(u) => u == used + ms.skip(i) && u.no_duplicates(),
            Err(_) => true,
        },
    decreases ms.len() - i,
{
    if i < ms.len() {
        if ids.contains(ms[i]) && !used.contains(ms[i]) {
            lemma_taken_grows(ms, used.push(ms[i]), ids, i + 1);
            assert(used.push(ms[i]) + ms.skip(i + 1) =~= used + ms.skip(i));
        }
    } else {
        assert(used + ms.skip(i) =~= used);
    }
}

/// No module belongs to two agents of a work, nor twice to one: what the agents use
/// is each used once.
pub proof fn modules_have_one_owner(
    v: Seq<AgentMetaV>,
    ids: Seq<Seq<char>>,
    s: Settings,
    n: int,
)
    requires
        0 <= n <= v.len(),
        agents_checked(v, ids, s, n) is Ok,
    ensures
        agents_checked(v, ids, s, n)->Ok_0 == history::flat_modules(v.take(n)),
        history::flat_modules(v.take(n)).no_duplicates(),
    decreases n,
{
    if n > 0 {
        modules_have_one_owner(v, ids, s, n - 1);
        let u = agents_checked(v, ids, s, n - 1)->Ok_0;
        lemma_taken_grows(v[n - 1].modules, u, ids, 0);
        assert(v[n - 1].modules.skip(0) =~= v[n - 1].modules);
        assert(v.take(n).drop_last() =~= v.take(n - 1));
    } else {
        assert(v.take(0) =~= Seq::empty());
    }
}

/// No two agents of a work have one name.
pub proof fn names_are_distinct(v: Seq<AgentMetaV>, n: int)
    requires
        0 <= n <= v.len(),
    ensures
        history::agent_names(named_below(v, n)).no_duplicates(),
        named_below(v, n).len() == n,
    decreases n,
{
    if n > 0 {
        names_are_distinct(v, n - 1);
        let prev = named_below(v, n - 1);
        let name = agents::free_name(history::agent_names(prev), v[n - 1].name, "-"@);
        agents::a_free_name_is_free(history::agent_names(prev), v[n - 1].name, "-"@);
        assert(history::agent_names(named_below(v, n)) =~= history::agent_names(prev).push(name));
    }
}

/// A work that has begun keeps its agents: a change that would give it others is
/// refused.
pub proof fn a_begun_work_keeps_its_agents(
    meta: SessionMetaV,
    e: SessionEdit,
    ids: Seq<Seq<char>>,
    s: Settings,
    m: Machine,
)
    requires
        edit_fault(meta, true, e, ids, s, m) is None,
    ensures
        history::agent_names(edited_record(meta, e, s).agents) == history::agent_names(meta.agents),
        edited_record(meta, e, s).mode == meta.mode,
        edited_record(meta, e, s).name == meta.name,
{
}

proof fn lemma_taken_iff(ms: Seq<Seq<char>>, used: Seq<Seq<char>>, ids: Seq<Seq<char>>, i: int)
    requires
        0 <= i <= ms.len(),
        used.no_duplicates(),
        forall|k: int| i <= k < ms.len() ==> ids.contains(#[trigger] ms[k]),
        (used + ms.skip(i)).no_duplicates(),
    ensures
        modules_taken(ms, used, ids, i) is Ok,
    decreases ms.len() - i,
{
    if i < ms.len() {
        let all = used + ms.skip(i);
        assert(all[used.len() as int] == ms[i]);
        if used.contains(ms[i]) {
            let k = choose|k: int| 0 <= k < used.len() && used[k] == ms[i];
            assert(all[k] == ms[i]);
        }
        assert(used.push(ms[i]) + ms.skip(i + 1) =~= all);
        assert forall|a: int, b: int|
            0 <= a < used.len() + 1 && 0 <= b < used.len() + 1 && a != b implies used.push(ms[i])[a] != used.push(
            ms[i],
        )[b] by {
            assert(all[a] == used.push(ms[i])[a]);
            assert(all[b] == used.push(ms[i])[b]);
        }
        lemma_taken_iff(ms, used.push(ms[i]), ids, i + 1);
    }
}

/// An agent that has a name of its own, modules that there are and nobody has, and a
/// model that can be had, is taken.
pub proof fn sound_agents_are_taken(a: AgentMetaV, used: Seq<Seq<char>>, ids: Seq<Seq<char>>, s: Settings)
    requires
        used.no_duplicates(),
        agents::name_fault(a.name) is None,
        a.modules.len() > 0,
        forall|k: int| 0 <= k < a.modules.len() ==> ids.contains(#[trigger] a.modules[k]),
        (used + a.modules).no_duplicates(),
        a.model matches Some(m) ==> providers::resolved(s, m) is Ok,
    ensures
        agent_checked(a, used, ids, s) is Ok,
{
    assert(a.modules.skip(0) =~= a.modules);
    lemma_taken_iff(a.modules, used, ids, 0);
}

/// An agent without modules, with a module that there is not or that somebody has, or
/// with a model that cannot be had, is not taken.
pub proof fn unsound_agents_are_refused(
    a: AgentMetaV,
    used: Seq<Seq<char>>,
    ids: Seq<Seq<char>>,
    s: Settings,
    k: int,
)
    requires
        used.no_duplicates(),
        a.modules.len() == 0 || (0 <= k < a.modules.len() && (!ids.contains(a.modules[k]) || used.contains(
            a.modules[k],
        ))) || (a.model matches Some(m) && providers::resolved(s, m) is Err),
    ensures
        agent_checked(a, used, ids, s) is Err,
{
    if 0 <= k < a.modules.len() && (!ids.contains(a.modules[k]) || used.contains(a.modules[k])) {
        lemma_not_taken(a.modules, used, ids, 0, k);
    }
}

proof fn lemma_not_taken(ms: Seq<Seq<char>>, used: Seq<Seq<char>>, ids: Seq<Seq<char>>, i: int, k: int)
    requires
        0 <= i <= k < ms.len(),
        !ids.contains(ms[k]) || used.contains(ms[k]),
    ensures
        modules_taken(ms, used, ids, i) is Err,
    decreases k - i,
{
    if i < k && ids.contains(ms[i]) && !used.contains(ms[i]) {
        if used.contains(ms[k]) {
            let j = choose|j: int| 0 <= j < used.len() && used[j] == ms[k];
            assert(used.push(ms[i])[j] == ms[k]);
        }
        lemma_not_taken(ms, used.push(ms[i]), ids, i + 1, k);
    }
}

/// A work can be made with one agent, or with a team that has a task; not without a name
/// or with a name that is there, and not without agents unless the core finds them.
pub proof fn works_have_what_they_need(
    w: WorkSpec,
    exists_already: bool,
    ids: Seq<Seq<char>>,
    s: Settings,
    m: Machine,
)
    requires
        work_fault(w, exists_already, ids, s, m) is None,
    ensures
        !exists_already,
        w.name@.len() > 0 && text::trimmed(w.name@) == w.name@,
        w.agents@.len() > 0 || w.delegate,
        w.mode is Single ==> w.agents@.len() == 1,
        w.mode is Collab ==> w.task is Some && text::trimmed((w.task->0)@).len() > 0,
        s.app.tier == Tier::Vm ==> m.hypervisor,
{
    if w.task is None {
        text::trimming_takes_off_the_white_ends(Seq::empty());
    }
}

/// What is written of a work is what was asked for: its name, its way of working, its
/// task and its agents, in their order.
pub proof fn records_say_what_was_asked(w: WorkSpec, s: Settings, ts: i64, k: int)
    ensures
        ({
            let r = work_record(w, s, ts);
            &&& r.name == w.name@ && r.ts == ts && r.parent is None && r.node is None
            &&& w.task matches Some(t) ==> r.task == Some(t@)
            &&& w.task is None ==> r.task is None
            &&& w.mode is Single <==> r.mode == "single"@
            &&& r.agents.len() == w.agents@.len()
            &&& r.exec_spec.tier == s.app.tier && !r.exec_spec.net
            &&& 0 <= k < w.agents@.len() ==> r.agents[k].modules == text::texts(w.agents@[k].modules@)
                && r.agents[k].model == text::opt_text(w.agents@[k].model) && r.agents[k].transient
                == w.agents@[k].transient
        }),
{
    reveal_strlit("single");
    reveal_strlit("collab");
    assert("single"@[0] != "collab"@[0]);
    let v = instances_v(w.agents@);
    lemma_named_keep(v, v.len() as int, k);
}

proof fn lemma_named_keep(v: Seq<AgentMetaV>, n: int, k: int)
    requires
        0 <= n <= v.len(),
    ensures
        named_below(v, n).len() == n,
        0 <= k < n ==> named_below(v, n)[k].modules == v[k].modules && named_below(v, n)[k].model == v[k].model
            && named_below(v, n)[k].transient == v[k].transient,
    decreases n,
{
    if n > 0 {
        lemma_named_keep(v, n - 1, k);
    }
}

/// What is changed of a session is its agents and where it runs; its name, its way of
/// working and its task stay.
pub proof fn edits_keep_the_session(meta: SessionMetaV, e: SessionEdit, s: Settings, k: int)
    ensures
        ({
            let r = edited_record(meta, e, s);
            &&& r.name == meta.name && r.mode == meta.mode && r.task == meta.task && r.ts == meta.ts && r.parent
                == meta.parent && r.node == meta.node && r.delegate == meta.delegate
            &&& r.agents.len() == e.agents@.len()
            &&& r.exec_spec.net == e.net && r.exec_spec.base == text::opt_text(e.base)
            &&& e.tier@ == "host"@ ==> r.exec_spec.tier == Tier::Host
            &&& e.tier@ == "vm"@ ==> r.exec_spec.tier == Tier::Vm
            &&& 0 <= k < e.agents@.len() ==> r.agents[k].name == e.agents@[k].name@ && r.agents[k].modules
                == text::texts(e.agents@[k].modules@) && (r.agents[k].model is None <==> e.agents@[k].model@.len()
                == 0) && (r.agents[k].model is Some ==> r.agents[k].model->0 == e.agents@[k].model@) && (
            r.agents[k].transient <==> table::lookup(s.agents@, e.agents@[k].name@) is None)
        }),
{
    reveal_strlit("host");
    assert("host"@.len() == 4);
    reveal_strlit("vm");
    assert("vm"@.len() == 2);
}

/// A session can be changed where it is of a known kind, keeps its agents once it has
/// begun, has agents that can work, one of them where it is for one, and can run where it
/// is to run.
pub proof fn only_sound_changes_are_made(
    meta: SessionMetaV,
    started: bool,
    e: SessionEdit,
    ids: Seq<Seq<char>>,
    s: Settings,
    m: Machine,
)
    requires
        edit_fault(meta, started, e, ids, s, m) is None,
    ensures
        meta.mode == "single"@ || meta.mode == "collab"@,
        started ==> history::agent_names(meta.agents) == history::agent_names(edited_agents(e.agents@, s.agents@)),
        e.agents@.len() > 0,
        meta.mode == "single"@ ==> e.agents@.len() == 1,
        e.tier@ == "host"@ || e.tier@ == "vm"@,
        agents_checked(edited_agents(e.agents@, s.agents@), ids, s, e.agents@.len() as int) is Ok,
        e.tier@ == "vm"@ && meta.exec_spec.tier == Tier::Host ==> m.hypervisor,
{
    reveal_strlit("host");
    reveal_strlit("vm");
    assert("host"@.len() == 4);
    assert("vm"@.len() == 2);
}

} // verus!
