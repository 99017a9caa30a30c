//! What is shown of a work: what its modules need, how it is set up, where its files
//! are; and the record of a change.
use crate::events::SessionEvent;
use crate::execution::{self, Diagnosis, ExecSpec, Platform, Tier, TierReadiness, absent, copy_pins, declared, tier_readiness, tier_refusal, vm_diagnoses};
use crate::history::{AgentMeta, AgentMetaV, SessionMeta, SessionMetaV};
use crate::json::{self, Json, JsonV, number, opt_text_json, put, text_json, texts_json};
use crate::module::{Module, Roster};
use crate::packages::{self, Library};
use crate::review;
use crate::table::{self, Table};
use crate::text::{self, cat2, cat3, clone_opt, clone_strings, has_text, str_eq};
use crate::work::{self, ConfigAgent, Machine};
use crate::workspace::{self, PathV, RealPath, WorkFiles, WorkRoots, safe_file_name, slash};
use vstd::prelude::*;

verus! {

/// A work that was opened: the names its agents got, and what was said.
#[derive(Debug)]
pub struct WorkOpened {
    pub sid: String,
    pub agents: Vec<String>,
    pub events: Vec<SessionEvent>,
}

/// What the modules need and what there is of it.
#[derive(Debug)]
pub struct RuntimeReport {
    pub tier: String,
    /// What each module declares.
    pub declared: Table<Vec<String>>,
    /// The versions there are of each capability.
    pub available: Table<Vec<String>>,
    /// What each module declares and nothing provides.
    pub missing: Table<Vec<String>>,
    /// What keeps the guest's tier from being had; nothing in another tier.
    pub diagnoses: Vec<Diagnosis>,
    pub tier_ready: bool,
    pub tier_missing: Vec<String>,
    pub rejected: Vec<String>,
    pub rejected_packages: Vec<String>,
}

/// The choice of a tier and nothing else.
pub open spec fn bare(s: ExecSpec, tier: Tier) -> bool {
    s.tier == tier && s.base is None && s.pins@.len() == 0 && !s.net
}

/// Whether a report tells what there is.
pub open spec fn reports(
    r: RuntimeReport,
    tier: Tier,
    modules: Roster,
    lib: Library,
    hypervisor: bool,
    platform: Platform,
) -> bool {
    let t = TierReadiness { base: true, hypervisor: tier != Tier::Vm || hypervisor };
    &&& r.tier@ == tier.text()
    &&& execution::lists_v(r.declared@) == execution::declared_below(modules.modules@, modules.modules@.len() as int)
    &&& table::ascending(r.available@)
    &&& forall|cap: Seq<char>|
        match #[trigger] table::lookup(r.available@, cap) {
            Some(v) => text::texts(v@) == packages::version_texts(lib.versions_v(cap)) && v@.len() > 0,
            None => lib.versions_v(cap).len() == 0,
        }
    &&& execution::lists_v(r.missing@) == execution::absent_below(
        modules.modules@,
        lib,
        modules.modules@.len() as int,
    )
    &&& if tier == Tier::Vm {
        exists|s: ExecSpec|
            bare(s, tier) && #[trigger] execution::are_diagnoses(modules.modules@, lib, s, r.diagnoses@)
    } else {
        r.diagnoses@.len() == 0
    }
    &&& r.tier_ready == t.hypervisor
    &&& text::texts(r.tier_missing@) == execution::missing_texts(t, platform)
    &&& text::texts(r.rejected@) == text::texts(modules.rejected@)
    &&& text::texts(r.rejected_packages@) == text::texts(lib.rejected@)
}

/// Tells what the modules need and what there is of it.
pub fn runtime_report(
    tier: Tier,
    modules: &Roster,
    lib: &Library,
    hypervisor: bool,
    platform: Platform,
) -> (r: RuntimeReport)
    ensures
        reports(r, tier, *modules, *lib, hypervisor, platform),
{
    let exec_spec = ExecSpec { tier, base: None, pins: Table::new(), net: false };
    assert(bare(exec_spec, tier));
    let diagnoses = if tier == Tier::Vm {
        let d = vm_diagnoses(&modules.modules, lib, &exec_spec);
        assert(execution::are_diagnoses(modules.modules@, *lib, exec_spec, d@));
        d
    } else {
        Vec::new()
    };
    let ready = tier_readiness(&exec_spec, true, hypervisor);
    let r = RuntimeReport {
        tier: tier.as_str().to_owned(),
        declared: declared(&modules.modules),
        available: lib.capability_versions(),
        missing: absent(&modules.modules, lib),
        diagnoses,
        tier_ready: ready.ready(),
        tier_missing: ready.missing(platform),
        rejected: clone_strings(&modules.rejected),
        rejected_packages: clone_strings(&lib.rejected),
    };
    assert(ready == TierReadiness { base: true, hypervisor: tier != Tier::Vm || hypervisor });
    assert(r.tier_ready == ready.hypervisor);
    assert(text::texts(r.rejected@) == text::texts(modules.rejected@));
    if tier == Tier::Vm {
        assert(execution::are_diagnoses(modules.modules@, *lib, exec_spec, r.diagnoses@));
    }
    r
}

/// How a work is set up, for the user to look at and to change.
#[derive(Debug)]
pub struct SessionConfig {
    pub sid: String,
    pub mode: String,
    /// Whether it has begun: then its agents and its mode stay.
    pub started: bool,
    pub agents: Vec<ConfigAgent>,
    pub tier: String,
    pub base: Option<String>,
    pub net: bool,
    pub pins: Table<String>,
    pub tier_ready: bool,
    pub tier_missing: Vec<String>,
    /// Whether the guest's tier could be chosen, whatever the tier is now.
    pub vm_available: bool,
    /// Why not, where it could not.
    pub vm_unavailable_reason: String,
    pub runtime: RuntimeReport,
    /// Where packages are put.
    pub runtimes_dir: String,
}

/// Whether an agent is set as it is recorded.
pub open spec fn config_of(c: ConfigAgent, a: AgentMetaV) -> bool {
    c.name@ == a.name && text::texts(c.modules@) == a.modules && c.model@ == review::or_nothing(a.model)
}

/// Whether a set-up is that of a record.
pub open spec fn configures(
    c: SessionConfig,
    m: SessionMetaV,
    started: bool,
    base_there: bool,
    hypervisor: bool,
    platform: Platform,
) -> bool {
    let now = ready_as(m.exec_spec.tier, m.exec_spec.base, base_there, hypervisor);
    let vm = ready_as(Tier::Vm, m.exec_spec.base, base_there, hypervisor);
    &&& c.sid@ == m.name
    &&& c.mode@ == m.mode
    &&& c.started == started
    &&& c.agents@.len() == m.agents.len()
    &&& forall|i: int| 0 <= i < c.agents@.len() ==> config_of(#[trigger] c.agents@[i], m.agents[i])
    &&& c.tier@ == m.exec_spec.tier.text()
    &&& text::opt_text(c.base) == m.exec_spec.base
    &&& c.net == m.exec_spec.net
    &&& execution::pins_v(c.pins@) == m.exec_spec.pins
    &&& c.tier_ready == (now.base && now.hypervisor)
    &&& text::texts(c.tier_missing@) == execution::missing_texts(now, platform)
    &&& c.vm_available == (vm.base && vm.hypervisor)
    &&& c.vm_unavailable_reason@ == if c.vm_available {
        Seq::empty()
    } else {
        execution::refusal_text(vm, platform)
    }
}

/// Whether a tier can be carried with this base.
pub open spec fn ready_as(tier: Tier, base: Option<Seq<char>>, base_there: bool, hypervisor: bool) -> TierReadiness {
    work::ready_with(
        tier,
        base,
        Machine { base_there, hypervisor, platform: Platform::Other },
    )
}

/// Shows how a work is set up.
pub fn session_config(
    meta: &SessionMeta,
    started: bool,
    base_there: bool,
    hypervisor: bool,
    platform: Platform,
    runtime: RuntimeReport,
    runtimes_dir: &RealPath,
) -> (r: SessionConfig)
    ensures
        configures(r, meta@, started, base_there, hypervisor, platform),
        r.runtime == runtime,
        r.runtimes_dir@ == workspace::slashed(runtimes_dir@.text),
{
    let ghost mv = meta@;
    let mut agents: Vec<ConfigAgent> = Vec::new();
    let mut i: usize = 0;
    assert(mv.agents.len() == meta.agents@.len());
    while i < meta.agents.len()
        invariant
            i <= meta.agents@.len(),
            mv == meta@,
            mv.agents.len() == meta.agents@.len(),
            agents@.len() == i,
            forall|k: int| 0 <= k < i ==> config_of(#[trigger] agents@[k], mv.agents[k]),
        decreases meta.agents@.len() - i,
    {
        let a = &meta.agents[i];
        assert(mv.agents[i as int] == a@);
        let c = ConfigAgent {
            name: a.name.clone(),
            modules: clone_strings(&a.modules),
            model: match &a.model {
                Some(m) => m.clone(),
                None => String::new(),
            },
        };
        assert(c.model@ =~= review::or_nothing(text::opt_text(a.model)));
        agents.push(c);
        i = i + 1;
    }
    let ready = tier_readiness(&meta.exec_spec, base_there, hypervisor);
    let probe = ExecSpec {
        tier: Tier::Vm,
        base: clone_opt(&meta.exec_spec.base),
        pins: Table::new(),
        net: false,
    };
    let vm = tier_readiness(&probe, base_there, hypervisor);
    proof {
        assert(text::trimmed(Seq::<char>::empty()).len() == 0);
        assert(ready == ready_as(
            mv.exec_spec.tier,
            mv.exec_spec.base,
            base_there,
            hypervisor,
        ));
        assert(vm == ready_as(Tier::Vm, mv.exec_spec.base, base_there, hypervisor));
    }
    let why = match tier_refusal(&probe, base_there, hypervisor, platform) {
        Some(w) => w,
        None => String::new(),
    };
    assert(vm.base && vm.hypervisor ==> why@ =~= Seq::empty());
    SessionConfig {
        sid: meta.name.clone(),
        mode: meta.mode.clone(),
        started,
        agents,
        tier: meta.exec_spec.tier.as_str().to_owned(),
        base: clone_opt(&meta.exec_spec.base),
        net: meta.exec_spec.net,
        pins: copy_pins(&meta.exec_spec.pins),
        tier_ready: ready.ready(),
        tier_missing: ready.missing(platform),
        vm_available: vm.ready(),
        vm_unavailable_reason: why,
        runtime,
        runtimes_dir: slash(runtimes_dir),
    }
}

// ---- the record of a change ----

/// An agent as it is recorded with a change.
pub open spec fn agent_config_json(a: AgentMetaV) -> JsonV {
    JsonV::Obj(
        seq![
            ("model"@, json::opt_text_v(a.model)),
            ("modules"@, json::texts_json_v(a.modules)),
            ("name"@, JsonV::Str(a.name)),
        ],
    )
}

pub open spec fn pins_json(pins: Seq<(Seq<char>, Seq<char>)>) -> JsonV {
    JsonV::Obj(pins.map_values(|e: (Seq<char>, Seq<char>)| (e.0, JsonV::Str(e.1))))
}

/// The record of a change: what the work is set up with from now on.
pub open spec fn config_json(m: SessionMetaV, ts: i64) -> JsonV {
    JsonV::Obj(
        seq![
            ("agents"@, JsonV::Arr(m.agents.map_values(|a: AgentMetaV| agent_config_json(a)))),
            ("base"@, json::opt_text_v(m.exec_spec.base)),
            ("mode"@, JsonV::Str(m.mode)),
            ("net"@, JsonV::Bool(m.exec_spec.net)),
            ("pins"@, pins_json(m.exec_spec.pins)),
            ("tier"@, JsonV::Str(m.exec_spec.tier.text())),
            ("ts"@, json::int_v(ts as int)),
            ("type"@, JsonV::Str("config"@)),
        ],
    )
}

fn agent_config(a: &AgentMeta) -> (r: Json)
    ensures
        r@ == agent_config_json(a@),
{
    let mut o: Vec<(String, Json)> = Vec::new();
    assert(crate::json::members_v(o@) =~= Seq::empty());
    put(&mut o, "model", opt_text_json(&a.model));
    put(&mut o, "modules", texts_json(&a.modules));
    put(&mut o, "name", text_json(a.name.as_str()));
    assert(crate::json::members_v(o@) =~= seq![
        ("model"@, json::opt_text_v(text::opt_text(a.model))),
        ("modules"@, json::texts_json_v(text::texts(a.modules@))),
        ("name"@, JsonV::Str(a.name@)),
    ]);
    Json::Obj(o)
}

fn pins_of(pins: &Table<String>) -> (r: Json)
    ensures
        r@ == pins_json(execution::pins_v(pins@)),
{
    let ghost want = execution::pins_v(pins@).map_values(
        |e: (Seq<char>, Seq<char>)| (e.0, JsonV::Str(e.1)),
    );
    let mut o: Vec<(String, Json)> = Vec::new();
    let mut i: usize = 0;
    assert(crate::json::members_v(o@) =~= want.take(0));
    while i < pins.len()
        invariant
            i <= pins@.len(),
            want == execution::pins_v(pins@).map_values(|e: (Seq<char>, Seq<char>)| (e.0, JsonV::Str(e.1))),
            crate::json::members_v(o@) == want.take(i as int),
        decreases pins@.len() - i,
    {
        put(&mut o, pins.key_at(i), text_json(pins.value_at(i).as_str()));
        proof {
            assert(want[i as int] == (pins@[i as int].0, JsonV::Str(pins@[i as int].1@)));
            assert(crate::json::members_v(o@) =~= want.take(i + 1));
        }
        i = i + 1;
    }
    assert(want.len() == pins@.len());
    assert(want.take(want.len() as int) =~= want);
    Json::Obj(o)
}

/// Records a change of a work.
pub fn record_config(meta: &SessionMeta, ts: i64) -> (r: Json)
    ensures
        r@ == config_json(meta@, ts),
{
    let ghost mv = meta@;
    let ghost want = mv.agents.map_values(|a: AgentMetaV| agent_config_json(a));
    let mut agents: Vec<Json> = Vec::new();
    let mut i: usize = 0;
    assert(json::items_v(agents@) =~= want.take(0));
    while i < meta.agents.len()
        invariant
            i <= meta.agents@.len(),
            mv == meta@,
            want == mv.agents.map_values(|a: AgentMetaV| agent_config_json(a)),
            json::items_v(agents@) == want.take(i as int),
        decreases meta.agents@.len() - i,
    {
        let a = agent_config(&meta.agents[i]);
        let ghost prev = agents@;
        agents.push(a);
        proof {
            assert(mv.agents[i as int] == meta.agents@[i as int]@);
            assert(agents@.drop_last() =~= prev);
            assert(want[i as int] == a@);
            assert(json::items_v(agents@) =~= want.take(i + 1));
        }
        i = i + 1;
    }
    assert(want.len() == meta.agents@.len());
    assert(want.take(want.len() as int) =~= want);
    let mut o: Vec<(String, Json)> = Vec::new();
    assert(crate::json::members_v(o@) =~= Seq::empty());
    put(&mut o, "agents", Json::Arr(agents));
    put(&mut o, "base", opt_text_json(&meta.exec_spec.base));
    put(&mut o, "mode", text_json(meta.mode.as_str()));
    put(&mut o, "net", Json::Bool(meta.exec_spec.net));
    put(&mut o, "pins", pins_of(&meta.exec_spec.pins));
    put(&mut o, "tier", text_json(meta.exec_spec.tier.as_str()));
    put(&mut o, "ts", Json::Num(number(ts as i128)));
    put(&mut o, "type", text_json("config"));
    assert(crate::json::members_v(o@) =~= seq![
        ("agents"@, JsonV::Arr(want)),
        ("base"@, json::opt_text_v(mv.exec_spec.base)),
        ("mode"@, JsonV::Str(mv.mode)),
        ("net"@, JsonV::Bool(mv.exec_spec.net)),
        ("pins"@, pins_json(mv.exec_spec.pins)),
        ("tier"@, JsonV::Str(mv.exec_spec.tier.text())),
        ("ts"@, json::int_v(ts as int)),
        ("type"@, JsonV::Str("config"@)),
    ]);
    Json::Obj(o)
}

// ---- sandboxes ----

/// Where an agent of a work has its own directory and those of its modules.
#[derive(Debug)]
pub struct SandboxPlan {
    pub agent: String,
    pub private: RealPath,
    pub modules: Table<RealPath>,
}

#[verifier::ext_equal]
pub struct SandboxPlanV {
    pub agent: Seq<char>,
    pub private: PathV,
    pub modules: Seq<(Seq<char>, PathV)>,
}

impl View for SandboxPlan {
    type V = SandboxPlanV;

    open spec fn view(&self) -> SandboxPlanV {
        SandboxPlanV {
            agent: self.agent@,
            private: self.private@,
            modules: workspace::paths_table(self.modules@),
        }
    }
}

pub open spec fn plans_v(v: Seq<SandboxPlan>) -> Seq<SandboxPlanV> {
    v.map_values(|p: SandboxPlan| p@)
}

/// The first module from the `i`th on of an id.
pub open spec fn module_at(v: Seq<Module>, id: Seq<char>, i: int) -> Option<PathV>
    decreases v.len() - i,
{
    if i < 0 || i >= v.len() {
        None
    } else if v[i].manifest.id@ == id {
        Some(v[i].root@)
    } else {
        module_at(v, id, i + 1)
    }
}

/// The directories of the first `n` of the modules that there are.
pub open spec fn dirs_below(ids: Seq<Seq<char>>, v: Seq<Module>, n: int) -> Seq<(Seq<char>, PathV)>
    decreases n,
{
    if n <= 0 {
        Seq::empty()
    } else {
        match module_at(v, ids[n - 1], 0) {
            Some(p) => table::inserted(dirs_below(ids, v, n - 1), ids[n - 1], p),
            None => dirs_below(ids, v, n - 1),
        }
    }
}

/// The sandboxes of the first `n` agents, or which of them was given no directory.
pub open spec fn planned_below(
    agents: Seq<AgentMetaV>,
    roots: Seq<(Seq<char>, PathV)>,
    v: Seq<Module>,
    n: int,
) -> Result<Seq<SandboxPlanV>, Seq<char>>
    decreases n,
{
    if n <= 0 {
        Ok(Seq::empty())
    } else {
        match planned_below(agents, roots, v, n - 1) {
            Err(e) => Err(e),
            Ok(prev) => match table::lookup(roots, agents[n - 1].name) {
                None => Err("工作区没有给出 agent "@ + agents[n - 1].name + " 的沙箱路径"@),
                Some(p) => Ok(
                    prev.push(
                        SandboxPlanV {
                            agent: agents[n - 1].name,
                            private: p,
                            modules: dirs_below(
                                agents[n - 1].modules,
                                v,
                                agents[n - 1].modules.len() as int,
                            ),
                        },
                    ),
                ),
            },
        }
    }
}

proof fn lemma_paths(t: Seq<(Seq<char>, RealPath)>, key: Seq<char>, p: RealPath)
    ensures
        workspace::paths_table(table::inserted(t, key, p)) == table::inserted(workspace::paths_table(t), key, p@),
        table::lookup(workspace::paths_table(t), key) == (match table::lookup(t, key) {
            Some(x) => Some(x@),
            None => None,
        }),
{
    let f = |x: RealPath| x@;
    assert(workspace::paths_table(t) =~= t.map_values(|e: (Seq<char>, RealPath)| (e.0, f(e.1))));
    table::lemma_map_inserted(t, workspace::paths_table(t), f, key, p);
    assert(workspace::paths_table(table::inserted(t, key, p)) =~= table::inserted(t, key, p).map_values(
        |e: (Seq<char>, RealPath)| (e.0, f(e.1)),
    ));
}

fn find_module(v: &Vec<Module>, id: &str) -> (r: Option<RealPath>)
    ensures
        match r {
            Some(p) => module_at(v@, id@, 0) == Some(p@),
            None => module_at(v@, id@, 0) is None,
        },
{
    let mut i: usize = 0;
    while i < v.len()
        invariant
            i <= v@.len(),
            module_at(v@, id@, 0) == module_at(v@, id@, i as int),
        decreases v@.len() - i,
    {
        if str_eq(v[i].manifest.id.as_str(), id) {
            return Some(v[i].root.copy());
        }
        i = i + 1;
    }
    None
}

fn module_dirs(ids: &Vec<String>, v: &Vec<Module>) -> (r: Table<RealPath>)
    ensures
        workspace::paths_table(r@) == dirs_below(text::texts(ids@), v@, ids@.len() as int),
{
    let ghost iv = text::texts(ids@);
    let mut t: Table<RealPath> = Table::new();
    let mut i: usize = 0;
    assert(workspace::paths_table(t@) =~= Seq::empty());
    while i < ids.len()
        invariant
            i <= ids@.len(),
            iv == text::texts(ids@),
            workspace::paths_table(t@) == dirs_below(iv, v@, i as int),
        decreases ids@.len() - i,
    {
        assert(iv[i as int] == ids@[i as int]@);
        match find_module(v, ids[i].as_str()) {
            Some(p) => {
                proof {
                    lemma_paths(t@, ids@[i as int]@, p);
                }
                t.insert(ids[i].clone(), p);
            },
            None => {},
        }
        i = i + 1;
    }
    t
}

proof fn lemma_planned_stays(
    agents: Seq<AgentMetaV>,
    roots: Seq<(Seq<char>, PathV)>,
    v: Seq<Module>,
    n: int,
    m: int,
)
    requires
        0 <= n <= m,
        planned_below(agents, roots, v, n) is Err,
    ensures
        planned_below(agents, roots, v, m) == planned_below(agents, roots, v, n),
    decreases m - n,
{
    if n < m {
        lemma_planned_stays(agents, roots, v, n, m - 1);
    }
}

/// Plans the sandboxes of a work: each agent has its own directory and those of its
/// own modules.
pub fn sandboxes(meta: &SessionMeta, modules: &Roster, roots: &WorkRoots) -> (r: Result<
    Vec<SandboxPlan>,
    String,
>)
    ensures
        ({
            let p = planned_below(
                meta@.agents,
                workspace::paths_table(roots.agents@),
                modules.modules@,
                meta@.agents.len() as int,
            );
            match r {
                Ok(v) => p == Ok::<_, Seq<char>>(plans_v(v@)),
                Err(e) => p == Err::<Seq<SandboxPlanV>, _>(e@),
            }
        }),
{
    let ghost av = meta@.agents;
    let ghost rv = workspace::paths_table(roots.agents@);
    let ghost mv = modules.modules@;
    let mut out: Vec<SandboxPlan> = Vec::new();
    let mut i: usize = 0;
    assert(plans_v(out@) =~= Seq::empty());
    assert(av.len() == meta.agents@.len());
    while i < meta.agents.len()
        invariant
            i <= meta.agents@.len(),
            av == meta@.agents,
            av.len() == meta.agents@.len(),
            rv == workspace::paths_table(roots.agents@),
            mv == modules.modules@,
            planned_below(av, rv, mv, i as int) == Ok::<_, Seq<char>>(plans_v(out@)),
        decreases meta.agents@.len() - i,
    {
        let a = &meta.agents[i];
        assert(av[i as int] == a@);
        assert(text::texts(a.modules@).len() == a.modules@.len());
        proof {
            lemma_paths(roots.agents@, a.name@, roots.shared);
        }
        match roots.agents.get(a.name.as_str()) {
            Some(p) => {
                let plan = SandboxPlan {
                    agent: a.name.clone(),
                    private: p.copy(),
                    modules: module_dirs(&a.modules, &modules.modules),
                };
                let ghost prev = out@;
                out.push(plan);
                assert(plans_v(out@) =~= plans_v(prev).push(plan@));
            },
            None => {
                proof {
                    lemma_planned_stays(av, rv, mv, i + 1, av.len() as int);
                }
                return Err(
                    cat3("工作区没有给出 agent ", a.name.as_str(), " 的沙箱路径"),
                );
            },
        }
        i = i + 1;
    }
    Ok(out)
}

/// The modules of the first `n` that are among the ids.
pub open spec fn among(v: Seq<Module>, ids: Seq<Seq<char>>, n: int) -> Seq<Module>
    decreases n,
{
    if n <= 0 {
        Seq::empty()
    } else if ids.contains(v[n - 1].manifest.id@) {
        among(v, ids, n - 1).push(v[n - 1])
    } else {
        among(v, ids, n - 1)
    }
}

/// The modules a work uses, in the order they are listed in.
pub fn session_modules(all: Vec<Module>, ids: &Vec<String>) -> (r: Vec<Module>)
    ensures
        r@ == among(all@, text::texts(ids@), all@.len() as int),
{
    let ghost v = all@;
    let ghost iv = text::texts(ids@);
    let n = all.len();
    let mut rest = all;
    let mut out: Vec<Module> = Vec::new();
    let mut i: usize = 0;
    while i < n
        invariant
            i <= n,
            n == v.len(),
            rest@ == v.skip(i as int),
            iv == text::texts(ids@),
            out@ == among(v, iv, i as int),
        decreases n - i,
    {
        let m = rest.remove(0);
        assert(m == v[i as int]);
        if has_text(ids, m.manifest.id.as_str()) {
            out.push(m);
        }
        assert(rest@ =~= v.skip(i + 1));
        i = i + 1;
    }
    out
}

// ---- files ----

/// The files of a work that can be referred to, and where they are.
#[derive(Debug)]
pub struct FilesView {
    pub work: Vec<String>,
    pub agents: Vec<FilesAgentView>,
    pub roots: FilesRootsView,
}

#[derive(Debug)]
pub struct FilesAgentView {
    pub name: String,
    pub files: Vec<String>,
}

#[derive(Debug)]
pub struct FilesRootsView {
    pub work: String,
    pub agents: Vec<FilesAgentRootView>,
}

#[derive(Debug)]
pub struct FilesAgentRootView {
    pub name: String,
    pub root: String,
}

/// The directory of an agent as it is written; nothing where it has none.
pub open spec fn root_text(roots: Seq<(Seq<char>, RealPath)>, agent: Seq<char>) -> Seq<char> {
    match table::lookup(roots, agent) {
        Some(p) => workspace::slashed(p@.text),
        None => Seq::empty(),
    }
}

/// The files of an agent; none where none are listed.
pub open spec fn files_of(files: Seq<(Seq<char>, Vec<String>)>, agent: Seq<char>) -> Seq<Seq<char>> {
    match table::lookup(files, agent) {
        Some(v) => text::texts(v@),
        None => Seq::empty(),
    }
}

/// Shows the files of a work, agent by agent as the record lists them.
pub fn files_view(meta: &SessionMeta, files: WorkFiles, roots: &WorkRoots) -> (r: FilesView)
    ensures
        r.work@ == files.work@,
        r.roots.work@ == workspace::slashed(roots.shared@.text),
        r.agents@.len() == meta@.agents.len(),
        r.roots.agents@.len() == meta@.agents.len(),
        forall|i: int|
            0 <= i < r.agents@.len() ==> (#[trigger] r.agents@[i]).name@ == meta@.agents[i].name
                && text::texts(r.agents@[i].files@) == files_of(files.agents@, meta@.agents[i].name),
        forall|i: int|
            0 <= i < r.roots.agents@.len() ==> (#[trigger] r.roots.agents@[i]).name@
                == meta@.agents[i].name && r.roots.agents@[i].root@ == root_text(
                roots.agents@,
                meta@.agents[i].name,
            ),
{
    let ghost av = meta@.agents;
    let mut agents: Vec<FilesAgentView> = Vec::new();
    let mut dirs: Vec<FilesAgentRootView> = Vec::new();
    let mut i: usize = 0;
    assert(av.len() == meta.agents@.len());
    while i < meta.agents.len()
        invariant
            i <= meta.agents@.len(),
            av == meta@.agents,
            av.len() == meta.agents@.len(),
            agents@.len() == i,
            dirs@.len() == i,
            forall|k: int|
                0 <= k < i ==> (#[trigger] agents@[k]).name@ == av[k].name && text::texts(
                    agents@[k].files@,
                ) == files_of(files.agents@, av[k].name),
            forall|k: int|
                0 <= k < i ==> (#[trigger] dirs@[k]).name@ == av[k].name && dirs@[k].root@
                    == root_text(roots.agents@, av[k].name),
        decreases meta.agents@.len() - i,
    {
        let a = &meta.agents[i];
        assert(av[i as int] == a@);
        let fs: Vec<String> = match files.agents.get(a.name.as_str()) {
            Some(v) => clone_strings(v),
            None => Vec::new(),
        };
        assert(text::texts(fs@) =~= files_of(files.agents@, a.name@));
        agents.push(FilesAgentView { name: a.name.clone(), files: fs });
        let root = match roots.agents.get(a.name.as_str()) {
            Some(p) => slash(p),
            None => String::new(),
        };
        assert(root@ =~= root_text(roots.agents@, a.name@));
        dirs.push(FilesAgentRootView { name: a.name.clone(), root });
        i = i + 1;
    }
    FilesView {
        work: files.work,
        agents,
        roots: FilesRootsView { work: slash(&roots.shared), agents: dirs },
    }
}

/// The name under which a file is put into a work, or why it is not: its name is no
/// plain name, or there is no such work.
pub fn work_upload(sid: &str, name: &str, known: bool) -> (r: Result<String, String>)
    ensures
        match r {
            Ok(n) => workspace::file_name_fault(name@) is None && known && n@ == text::trimmed(name@),
            Err(e) => match workspace::file_name_fault(name@) {
                Some(w) => e@ == w,
                None => !known && e@ == "无此会话："@ + sid@,
            },
        },
{
    match safe_file_name(name) {
        Ok(n) => {
            if known {
                Ok(n)
            } else {
                Err(cat2("无此会话：", sid))
            }
        },
        Err(e) => Err(e),
    }
}

// ---- what holds of every sandbox ----

proof fn lemma_dirs(ids: Seq<Seq<char>>, v: Seq<Module>, n: int, id: Seq<char>)
    requires
        0 <= n <= ids.len(),
    ensures
        table::ascending(dirs_below(ids, v, n)),
        table::lookup(dirs_below(ids, v, n), id) is Some ==> ids.contains(id),
    decreases n,
{
    if n > 0 {
        lemma_dirs(ids, v, n - 1, id);
        match module_at(v, ids[n - 1], 0) {
            Some(p) => {
                table::inserting(dirs_below(ids, v, n - 1), ids[n - 1], p);
                if id == ids[n - 1] {
                    assert(ids.contains(ids[n - 1]));
                } else {
                    assert(table::lookup(dirs_below(ids, v, n), id) == table::lookup(
                        dirs_below(ids, v, n - 1),
                        id,
                    ));
                }
            },
            None => {},
        }
    }
}

/// The directory of a module is in the sandbox of the agent that has the module, and
/// in no other's.
pub proof fn module_directories_are_private(a: AgentMetaV, v: Seq<Module>, id: Seq<char>)
    requires
        table::lookup(dirs_below(a.modules, v, a.modules.len() as int), id) is Some,
    ensures
        a.modules.contains(id),
{
    lemma_dirs(a.modules, v, a.modules.len() as int, id);
}

} // verus!
