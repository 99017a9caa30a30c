//! The seats of a team: each agent of the roster with its modules, its sandbox and
//! the way its channel calls tools.
use crate::discussion::{Member, MemberV};
use crate::engine::{self, MemberTools, PlannedCallV};
use crate::fence::{self, FenceSpec};
use crate::history::{self, AgentMeta, AgentMetaV};
use crate::module::{self, Module, Roster};
use crate::operation::{self, name_face};
use crate::providers::{self, AppSettings, Settings, ToolMode};
use crate::roles::{self, SystemTools};
use crate::session::SessionParams;
use crate::systool::{Observations, ToolNotes};
use crate::table::Table;
use crate::text::{self, cat3, cat4, join, push_when, str_eq, trim};
use crate::workspace::{self, Sandbox, Sandboxes};
use vstd::prelude::*;

verus! {

/// The module of an id, from the `i`th on.
pub open spec fn module_named(v: Seq<Module>, id: Seq<char>, i: int) -> Option<int>
    decreases v.len() - i,
{
    if i < 0 || i >= v.len() {
        None
    } else if v[i].manifest.id@ == id {
        Some(i)
    } else {
        module_named(v, id, i + 1)
    }
}

/// What the first `n` modules of an agent bring, of those that there are.
pub open spec fn packs_named(v: Seq<Module>, ids: Seq<Seq<char>>, n: int) -> Seq<(Seq<char>, Seq<char>)>
    decreases n,
{
    if n <= 0 {
        Seq::empty()
    } else {
        match module_named(v, ids[n - 1], 0) {
            Some(k) => packs_named(v, ids, n - 1).push(
                (v[k].manifest.id@, v[k].manifest.system@),
            ),
            None => packs_named(v, ids, n - 1),
        }
    }
}

/// Those of the first `n` modules of an agent that there are not.
pub open spec fn missing_modules(v: Seq<Module>, ids: Seq<Seq<char>>, n: int) -> Seq<Seq<char>>
    decreases n,
{
    if n <= 0 {
        Seq::empty()
    } else {
        missing_modules(v, ids, n - 1) + text::when(
            module_named(v, ids[n - 1], 0) is None,
            ids[n - 1],
        )
    }
}

/// The sandbox of an agent, from the `i`th on.
pub open spec fn sandbox_named(v: Seq<Sandbox>, agent: Seq<char>, i: int) -> Option<int>
    decreases v.len() - i,
{
    if i < 0 || i >= v.len() {
        None
    } else if v[i].agent@ == agent {
        Some(i)
    } else {
        sandbox_named(v, agent, i + 1)
    }
}

/// Why an agent cannot take a seat.
pub open spec fn seat_fault(a: AgentMetaV, modules: Seq<Module>, boxes: Seq<Sandbox>) -> Option<
    Seq<char>,
> {
    let missing = missing_modules(modules, a.modules, a.modules.len() as int);
    if missing.len() > 0 {
        Some("agent "@ + a.name + " 的模块已不在清单："@ + text::joined(missing, "、"@))
    } else if sandbox_named(boxes, a.name, 0) is None {
        Some("agent "@ + a.name + " 没有被分配沙箱（工作区未记录该 agent）"@)
    } else {
        None
    }
}

/// Why the first agent from the `i`th on that cannot take a seat cannot.
pub open spec fn team_fault(
    v: Seq<AgentMetaV>,
    modules: Seq<Module>,
    boxes: Seq<Sandbox>,
    i: int,
) -> Option<Seq<char>>
    decreases v.len() - i,
{
    if i < 0 || i >= v.len() {
        None
    } else {
        match seat_fault(v[i], modules, boxes) {
            Some(e) => Some(e),
            None => team_fault(v, modules, boxes, i + 1),
        }
    }
}

/// Whether a model, or else the core's, leads to a provider.
pub open spec fn has_channel(s: Settings, model: Option<Seq<char>>) -> bool {
    (model is Some && providers::resolved(s, model->0) is Ok) || (s.core is Some && providers::resolved(
        s,
        s.core->0@,
    ) is Ok)
}

/// How an agent's channel calls tools; without one, by envelopes.
pub open spec fn seat_mode(s: Settings, model: Option<Seq<char>>) -> ToolMode {
    if has_channel(s, model) {
        providers::mode_for(s, model)
    } else {
        ToolMode::Envelope
    }
}

/// How an agent's channel calls tools.
pub fn mode_of_seat(settings: &Settings, model: &Option<String>) -> (r: ToolMode)
    ensures
        r == seat_mode(*settings, text::opt_text(*model)),
{
    let own = match model {
        Some(m) => settings.resolve(m.as_str()).is_ok(),
        None => false,
    };
    if own || settings.core_channel().is_some() {
        match model {
            Some(m) => settings.tool_mode_for(Some(m.as_str())),
            None => settings.tool_mode_for(None),
        }
    } else {
        ToolMode::Envelope
    }
}

/// Whether a member is the seat of an agent.
pub open spec fn is_seat(
    m: Member,
    a: AgentMetaV,
    s: Settings,
    modules: Seq<Module>,
    boxes: Seq<Sandbox>,
) -> bool {
    let k = sandbox_named(boxes, a.name, 0);
    &&& m@ == (MemberV {
        id: a.name,
        params: m.params,
        mode: seat_mode(s, a.model),
        present: true,
        agreed: false,
    })
    &&& m.params.agent@ == a.name
    &&& module::packs_v(m.params.modules@) == packs_named(modules, a.modules, a.modules.len() as int)
    &&& k is Some
    &&& m.params.work_name@ == boxes[k->0].work_name@
    &&& m.params.shared@ == boxes[k->0].shared@
    &&& m.params.private@ == boxes[k->0].private@
    &&& workspace::paths_table(m.params.module_dirs@) == workspace::paths_table(boxes[k->0].modules@)
}

fn find_module<'a>(v: &'a Vec<Module>, id: &str) -> (r: Option<&'a Module>)
    ensures
        match r {
            Some(m) => module_named(v@, id@, 0) is Some && *m == v@[module_named(v@, id@, 0)->0],
            None => module_named(v@, id@, 0) is None,
        },
{
    let mut i: usize = 0;
    while i < v.len()
        invariant
            i <= v@.len(),
            module_named(v@, id@, 0) == module_named(v@, id@, i as int),
        decreases v@.len() - i,
    {
        if str_eq(v[i].manifest.id.as_str(), id) {
            return Some(&v[i]);
        }
        i = i + 1;
    }
    None
}

fn find_sandbox<'a>(v: &'a Vec<Sandbox>, agent: &str) -> (r: Option<&'a Sandbox>)
    ensures
        match r {
            Some(s) => sandbox_named(v@, agent@, 0) is Some && *s == v@[sandbox_named(
                v@,
                agent@,
                0,
            )->0],
            None => sandbox_named(v@, agent@, 0) is None,
        },
{
    let mut i: usize = 0;
    while i < v.len()
        invariant
            i <= v@.len(),
            sandbox_named(v@, agent@, 0) == sandbox_named(v@, agent@, i as int),
        decreases v@.len() - i,
    {
        if str_eq(v[i].agent.as_str(), agent) {
            return Some(&v[i]);
        }
        i = i + 1;
    }
    None
}

/// What an agent's modules bring, and which of them there are not.
pub fn gather_packs(modules: &Vec<Module>, ids: &Vec<String>) -> (r: (
    Vec<(String, String)>,
    Vec<String>,
))
    ensures
        module::packs_v(r.0@) == packs_named(modules@, text::texts(ids@), ids@.len() as int),
        text::texts(r.1@) == missing_modules(modules@, text::texts(ids@), ids@.len() as int),
{
    let ghost iv = text::texts(ids@);
    let mut packs: Vec<(String, String)> = Vec::new();
    let mut missing: Vec<String> = Vec::new();
    let mut i: usize = 0;
    assert(module::packs_v(packs@) =~= Seq::empty());
    assert(text::texts(missing@) =~= Seq::empty());
    while i < ids.len()
        invariant
            i <= ids@.len(),
            iv == text::texts(ids@),
            module::packs_v(packs@) == packs_named(modules@, iv, i as int),
            text::texts(missing@) == missing_modules(modules@, iv, i as int),
        decreases ids@.len() - i,
    {
        let ghost prev = packs@;
        let found = match find_module(modules, ids[i].as_str()) {
            Some(m) => {
                let e = (m.manifest.id.clone(), m.manifest.system.clone());
                packs.push(e);
                assert(module::packs_v(packs@) =~= module::packs_v(prev).push((e.0@, e.1@)));
                true
            },
            None => false,
        };
        push_when(&mut missing, !found, ids[i].clone());
        i = i + 1;
    }
    (packs, missing)
}

/// Gives every agent of the roster a seat, or says why the first that cannot have
/// one cannot.
pub fn assemble_members(
    roster: &Vec<AgentMeta>,
    modules: &Roster,
    settings: &Settings,
    boxes: &Sandboxes,
) -> (r: Result<Vec<Member>, String>)
    ensures
        match r {
            Ok(v) => team_fault(history::agents_v(roster@), modules.modules@, boxes.list@, 0) is None
                && v@.len() == roster@.len() && forall|k: int|
                0 <= k < v@.len() ==> is_seat(
                    #[trigger] v@[k],
                    roster@[k]@,
                    *settings,
                    modules.modules@,
                    boxes.list@,
                ),
            Err(e) => team_fault(history::agents_v(roster@), modules.modules@, boxes.list@, 0) == Some(e@),
        },
{
    let ghost rv = history::agents_v(roster@);
    let ghost mv = modules.modules@;
    let mut out: Vec<Member> = Vec::new();
    let mut i: usize = 0;
    while i < roster.len()
        invariant
            i <= roster@.len(),
            out@.len() == i,
            rv == history::agents_v(roster@),
            mv == modules.modules@,
            team_fault(rv, mv, boxes.list@, 0) == team_fault(rv, mv, boxes.list@, i as int),
            forall|k: int|
                0 <= k < i ==> is_seat(
                    #[trigger] out@[k],
                    roster@[k]@,
                    *settings,
                    mv,
                    boxes.list@,
                ),
        decreases roster@.len() - i,
    {
        let a = &roster[i];
        assert(rv[i as int] == a@);
        let (packs, missing) = gather_packs(&modules.modules, &a.modules);
        assert(text::texts(missing@).len() == missing@.len());
        assert(text::texts(a.modules@).len() == a.modules@.len());
        if missing.len() > 0 {
            return Err(
                cat4(
                    "agent ",
                    a.name.as_str(),
                    " 的模块已不在清单：",
                    join(&missing, "、").as_str(),
                ),
            );
        }
        let sb = match find_sandbox(&boxes.list, a.name.as_str()) {
            Some(s) => s,
            None => {
                return Err(
                    cat3(
                        "agent ",
                        a.name.as_str(),
                        " 没有被分配沙箱（工作区未记录该 agent）",
                    ),
                );
            },
        };
        let params = SessionParams::from_packs(a.name.as_str(), sb, packs);
        let m = Member::plain(a.name.as_str(), params, mode_of_seat(settings, &a.model));
        assert(is_seat(m, a@, *settings, mv, boxes.list@));
        out.push(m);
        i = i + 1;
    }
    Ok(out)
}

/// The directories the user lets fences read.
pub open spec fn read_roots_below(v: Seq<Seq<char>>, n: int) -> Seq<Seq<char>>
    decreases n,
{
    if n <= 0 {
        Seq::empty()
    } else {
        read_roots_below(v, n - 1) + text::when(text::trimmed(v[n - 1]).len() > 0, text::trimmed(v[n - 1]))
    }
}

/// The directories the user lets fences read: none unless they say so.
pub fn read_only_roots(app: &AppSettings) -> (r: Vec<String>)
    ensures
        text::texts(r@) == read_roots_below(text::texts(app.fence_read@), app.fence_read@.len() as int),
{
    let ghost fv = text::texts(app.fence_read@);
    let mut out: Vec<String> = Vec::new();
    let mut i: usize = 0;
    assert(text::texts(out@) =~= Seq::empty());
    while i < app.fence_read.len()
        invariant
            i <= app.fence_read@.len(),
            fv == text::texts(app.fence_read@),
            text::texts(out@) == read_roots_below(fv, i as int),
        decreases app.fence_read@.len() - i,
    {
        let t = trim(app.fence_read[i].as_str());
        push_when(&mut out, t.as_str().unicode_len() > 0, t.clone());
        i = i + 1;
    }
    out
}

/// The seat from which the core looks at files: it reads what the team shares, with
/// the tools its role has, and no modules.
pub fn core_verify_tools(sb: Sandbox, mode: ToolMode, systools: &SystemTools, role: &str) -> (r:
    MemberTools)
    ensures
        r.mode == mode,
        r.sandbox.agent@ == "核心"@,
        r.sandbox.work_name == sb.work_name,
        r.sandbox.shared@ == sb.shared@,
        r.sandbox.private@ == sb.shared@,
        r.sandbox.modules@.len() == 0,
        r.sandbox.texts == sb.texts,
        r.sandbox.builtin_tools == sb.builtin_tools,
        r.fence@ == fence::fence_of(r.sandbox, false),
        text::texts(r.allowed@) == operation::face_names(*systools, role@),
        !r.with_modules,
        r.modules@.len() == 0,
        r.unavailable@.len() == 0,
        r.observations@.len() == 0,
        r.reply_seq == 0,
        r.notes.patch_guide@.len() == 0,
        r.notes.module_tools@.len() == 0,
        r.notes.module_tool_params@.len() == 0,
{
    let private = sb.shared.copy();
    let own = Sandbox {
        work_name: sb.work_name,
        agent: "核心".to_owned(),
        shared: sb.shared,
        private,
        modules: Table::new(),
        texts: sb.texts,
        builtin_tools: sb.builtin_tools,
    };
    let fence = FenceSpec::from_sandbox(&own, false);
    MemberTools {
        mode,
        modules: Table::new(),
        observations: Observations::new(),
        sandbox: own,
        unavailable: Table::new(),
        fence,
        reply_seq: 0,
        allowed: name_face(systools, role),
        with_modules: false,
        notes: ToolNotes {
            patch_guide: String::new(),
            module_tools: String::new(),
            module_tool_params: String::new(),
        },
    }
}

/// The seat's own face is what its role has: the core's cannot write what its role
/// does not let it write.
pub proof fn the_core_keeps_to_its_role(t: MemberTools, s: SystemTools, role: Seq<char>, c: PlannedCallV)
    requires
        text::texts(t.allowed@) == operation::face_names(s, role),
        !t.with_modules,
        t.modules@.len() == 0,
        engine::in_face(t, c),
    ensures
        roles::role_tools(s, role).contains(c.tool),
{
}

proof fn lemma_no_module_missing(v: Seq<Module>, ids: Seq<Seq<char>>, n: int)
    requires
        0 <= n <= ids.len(),
    ensures
        missing_modules(v, ids, n).len() == 0 <==> forall|k: int|
            0 <= k < n ==> module_named(v, #[trigger] ids[k], 0) is Some,
    decreases n,
{
    if n > 0 {
        lemma_no_module_missing(v, ids, n - 1);
    }
}

proof fn lemma_named_module(v: Seq<Module>, id: Seq<char>, i: int)
    requires
        0 <= i,
    ensures
        module_named(v, id, i) matches Some(k) ==> i <= k < v.len() && v[k].manifest.id@ == id,
        module_named(v, id, i) is None ==> forall|k: int| i <= k < v.len() ==> (#[trigger] v[k]).manifest.id@ != id,
    decreases v.len() - i,
{
    if i < v.len() && v[i].manifest.id@ != id {
        lemma_named_module(v, id, i + 1);
    }
}

proof fn lemma_named_sandbox(v: Seq<Sandbox>, agent: Seq<char>, i: int)
    requires
        0 <= i,
    ensures
        sandbox_named(v, agent, i) matches Some(k) ==> i <= k < v.len() && v[k].agent@ == agent,
        sandbox_named(v, agent, i) is None ==> forall|k: int| i <= k < v.len() ==> (#[trigger] v[k]).agent@ != agent,
    decreases v.len() - i,
{
    if i < v.len() && v[i].agent@ != agent {
        lemma_named_sandbox(v, agent, i + 1);
    }
}

/// An agent can take its seat exactly where each of its modules is there and it has a
/// room of its own.
pub proof fn seats_need_modules_and_a_room(a: AgentMetaV, modules: Seq<Module>, boxes: Seq<Sandbox>)
    ensures
        seat_fault(a, modules, boxes) is None <==> (forall|k: int|
            0 <= k < a.modules.len() ==> module_there(modules, #[trigger] a.modules[k])) && exists|j: int|
            0 <= j < boxes.len() && (#[trigger] boxes[j]).agent@ == a.name,
{
    lemma_no_module_missing(modules, a.modules, a.modules.len() as int);
    lemma_named_sandbox(boxes, a.name, 0);
    assert forall|k: int| 0 <= k < a.modules.len() implies (module_named(modules, #[trigger] a.modules[k], 0) is Some
        <==> module_there(modules, a.modules[k])) by {
        lemma_named_module(modules, a.modules[k], 0);
    }
}

/// Whether there is a module of an id.
pub open spec fn module_there(modules: Seq<Module>, id: Seq<char>) -> bool {
    exists|j: int| 0 <= j < modules.len() && (#[trigger] modules[j]).manifest.id@ == id
}

/// A team can sit down exactly where each of its agents can.
pub proof fn teams_sit_down_together(v: Seq<AgentMetaV>, modules: Seq<Module>, boxes: Seq<Sandbox>, i: int)
    requires
        0 <= i,
    ensures
        team_fault(v, modules, boxes, i) is None <==> forall|k: int|
            i <= k < v.len() ==> seat_fault(#[trigger] v[k], modules, boxes) is None,
    decreases v.len() - i,
{
    if i < v.len() {
        teams_sit_down_together(v, modules, boxes, i + 1);
    }
}

} // verus!
