//! Sessions are built here: from the record of a work alone, or with what was said
//! in it. What the record asks for has to be there still.
use crate::chain::TaskChain;
use crate::collab::{self, Assembled, CollabSession, WorkV};
use crate::collab_state;
use crate::desk::Session;
use crate::engine::{self, MemberTools, max_reply, tool_table};
use crate::events::{self, LineView};
use crate::execution::{self, Diagnosis, ExecSpec, Tier, unavailable};
use crate::fence::{self, FenceSpec, FenceV};
use crate::history::{self, AgentMetaV, SessionMeta, SessionMetaV, names_of_agents};
use crate::json::{self, Json};
use crate::module::{self, Module, Roster};
use crate::packages::Library;
use crate::prompt::{self, Prompts};
use crate::providers::{Settings, ToolMode};
use crate::rebuild::{self, rebuild};
use crate::session::{AgentSession, SessionParams};
use crate::systool::{self, Observations, names, tool_notes};
use crate::table::Table;
use crate::team::{self, assemble_members, mode_of_seat};
use crate::text::{self, cat3, cat5, has_text, str_eq};
use crate::workspace::{self, PathV, RealPath, Sandbox, Sandboxes};
use vstd::prelude::*;

verus! {

/// What a work's record holds: its head, its events, the chain each event brings if
/// it brings one, and the lines of its transcript.
#[derive(Debug)]
pub struct Record {
    pub meta: SessionMeta,
    pub events: Vec<Json>,
    pub chains: Vec<Option<TaskChain>>,
    pub lines: Vec<LineView>,
}

/// What there is for a work: modules, sandboxes, packages, and the directories that
/// may be read besides.
#[derive(Debug)]
pub struct Around {
    pub roster: Roster,
    pub boxes: Sandboxes,
    pub lib: Library,
    pub read_only: Vec<RealPath>,
}

// ---- the modules of an agent ----

/// The first module of an id, from the `i`th on.
pub open spec fn first_from(v: Seq<Module>, id: Seq<char>, i: int) -> Option<Module>
    decreases v.len() - i,
{
    if i < 0 || i >= v.len() {
        None
    } else if v[i].manifest.id@ == id {
        Some(v[i])
    } else {
        first_from(v, id, i + 1)
    }
}

/// The modules of the first `n` ids, in the order of the ids, each once.
pub open spec fn picked(v: Seq<Module>, ids: Seq<Seq<char>>, n: int) -> Seq<Module>
    decreases n,
{
    if n <= 0 {
        Seq::empty()
    } else if ids.take(n - 1).contains(ids[n - 1]) {
        picked(v, ids, n - 1)
    } else {
        match first_from(v, ids[n - 1], 0) {
            Some(m) => picked(v, ids, n - 1).push(m),
            None => picked(v, ids, n - 1),
        }
    }
}

/// Whether there is a module for each of the ids.
pub open spec fn all_there(v: Seq<Module>, ids: Seq<Seq<char>>) -> bool {
    forall|k: int| 0 <= k < ids.len() ==> first_from(v, #[trigger] ids[k], 0) is Some
}

proof fn lemma_others_stay(v: Seq<Module>, k: int, id: Seq<char>, i: int)
    requires
        0 <= k < v.len(),
        v[k].manifest.id@ != id,
        0 <= i < v.len(),
    ensures
        i <= k ==> first_from(v.remove(k), id, i) == first_from(v, id, i),
        i >= k ==> first_from(v.remove(k), id, i) == first_from(v, id, i + 1),
    decreases v.len() - i,
{
    if i + 1 < v.len() {
        lemma_others_stay(v, k, id, i + 1);
    }
}

fn find_id(v: &Vec<Module>, id: &str) -> (r: Option<usize>)
    ensures
        match r {
            Some(k) => k < v@.len() && first_from(v@, id@, 0) == Some(v@[k as int]) && v@[k as int].manifest.id@
                == id@,
            None => first_from(v@, id@, 0) is None,
        },
{
    let mut i: usize = 0;
    while i < v.len()
        invariant
            i <= v@.len(),
            first_from(v@, id@, 0) == first_from(v@, id@, i as int),
        decreases v@.len() - i,
    {
        if str_eq(v[i].manifest.id.as_str(), id) {
            return Some(i);
        }
        i = i + 1;
    }
    None
}

/// The modules of an agent, in the order it lists them in; `None` where one of them
/// is no longer there.
pub fn agent_modules(all: Vec<Module>, ids: &Vec<String>) -> (r: Option<Vec<Module>>)
    ensures
        match r {
            Some(v) => all_there(all@, text::texts(ids@)) && v@ == picked(
                all@,
                text::texts(ids@),
                ids@.len() as int,
            ),
            None => !all_there(all@, text::texts(ids@)),
        },
{
    let ghost av = all@;
    let ghost iv = text::texts(ids@);
    let mut rest = all;
    let mut out: Vec<Module> = Vec::new();
    let mut seen: Vec<String> = Vec::new();
    let mut i: usize = 0;
    assert(text::texts(seen@) =~= iv.take(0));
    while i < ids.len()
        invariant
            i <= ids@.len(),
            av == all@,
            iv == text::texts(ids@),
            text::texts(seen@) == iv.take(i as int),
            out@ == picked(av, iv, i as int),
            forall|k: int| 0 <= k < i ==> first_from(av, #[trigger] iv[k], 0) is Some,
            forall|id: Seq<char>|
                !iv.take(i as int).contains(id) ==> #[trigger] first_from(rest@, id, 0) == first_from(
                    av,
                    id,
                    0,
                ),
        decreases ids@.len() - i,
    {
        let id = &ids[i];
        assert(iv[i as int] == id@);
        let ghost before = rest@;
        let ghost done = iv.take(i as int);
        let known = has_text(&seen, id.as_str());
        if known {
            proof {
                let k = choose|k: int| 0 <= k < done.len() && done[k] == id@;
                assert(iv[k] == id@);
            }
        } else {
            match find_id(&rest, id.as_str()) {
                Some(k) => {
                    let m = rest.remove(k);
                    out.push(m);
                    assert forall|y: Seq<char>| !iv.take(i + 1).contains(y) implies
                        #[trigger] first_from(rest@, y, 0) == first_from(av, y, 0) by {
                        assert(iv.take(i + 1)[i as int] == id@);
                        assert(!done.contains(y)) by {
                            if done.contains(y) {
                                let j = choose|j: int| 0 <= j < done.len() && done[j] == y;
                                assert(iv.take(i + 1)[j] == y);
                            }
                        }
                        lemma_others_stay(before, k as int, y, 0);
                    }
                },
                None => {
                    assert(first_from(av, iv[i as int], 0) is None);
                    return None;
                },
            }
        }
        let ghost s0 = seen@;
        seen.push(id.clone());
        proof {
            text::lemma_texts_push(s0, seen@.last());
            assert(text::texts(seen@) =~= iv.take(i + 1));
            assert forall|y: Seq<char>| !iv.take(i + 1).contains(y) implies #[trigger] first_from(
                rest@,
                y,
                0,
            ) == first_from(av, y, 0) by {
                if done.contains(y) {
                    let j = choose|j: int| 0 <= j < done.len() && done[j] == y;
                    assert(iv.take(i + 1)[j] == y);
                }
            }
        }
        i = i + 1;
    }
    Some(out)
}

// ---- the seat of an agent ----

/// Whether these are the modules whose tools cannot run, and what they lack.
pub open spec fn lacks(spec_: ExecSpec, modules: Seq<Module>, lib: Library, t: Table<Vec<String>>) -> bool {
    match spec_.tier {
        Tier::Host => t@.len() == 0,
        Tier::Vm => exists|v: Seq<Diagnosis>|
            #[trigger] execution::are_diagnoses(modules, lib, spec_, v) && execution::lists_v(t@)
                == execution::unavailable_of(execution::diags_v(v), modules),
    }
}

/// Whether a seat is the one an agent with these modules has in a sandbox.
pub open spec fn is_place(
    t: MemberTools,
    p: Prompts,
    mode: ToolMode,
    modules: Seq<Module>,
    sb: Sandbox,
    spec_: ExecSpec,
    lib: Library,
    read_only: Seq<PathV>,
) -> bool {
    &&& t.mode == mode
    &&& engine::mods_v(t.modules@) == engine::table_below(modules, modules.len() as int)
    &&& t.observations@.len() == 0
    &&& t.sandbox == sb
    &&& lacks(spec_, modules, lib, t.unavailable)
    &&& t.fence@ == (FenceV { ro: read_only, ..fence::fence_of(sb, spec_.net) })
    &&& text::texts(t.allowed@) == seq![
        systool::READ@,
        systool::WRITE@,
        systool::EDIT@,
        systool::PATCH@,
        systool::SEARCH@,
    ]
    &&& t.with_modules
    &&& t.notes.patch_guide@ == systool::patch_guide_text(p, sb)
    &&& t.notes.module_tools@ == module::module_tools_text(p, modules)
    &&& t.notes.module_tool_params@ == module::tool_params_text(p, modules)
}

/// The seat of an agent: what its modules and its sandbox give it. Nothing has been
/// seen from it and no reply numbered.
pub fn tools_env(
    prompts: &Prompts,
    mode: ToolMode,
    modules: &Vec<Module>,
    sb: Sandbox,
    spec_: &ExecSpec,
    lib: &Library,
    read_only: Vec<RealPath>,
) -> (r: MemberTools)
    requires
        prompt::book_sound(*prompts),
    ensures
        is_place(
            r,
            *prompts,
            mode,
            modules@,
            sb,
            *spec_,
            *lib,
            workspace::paths_v(read_only@),
        ),
        r.reply_seq == 0,
{
    let notes = tool_notes(prompts, &sb, modules);
    let fence = FenceSpec::from_sandbox(&sb, spec_.net).with_read_only(read_only);
    MemberTools {
        mode,
        modules: tool_table(modules),
        observations: Observations::new(),
        unavailable: unavailable(spec_, modules, lib),
        fence,
        reply_seq: 0,
        allowed: names(),
        with_modules: true,
        notes,
        sandbox: sb,
    }
}

// ---- an agent's session ----

/// Why an agent's session cannot be built, if it cannot.
pub open spec fn single_fault(m: SessionMetaV, modules: Seq<Module>, boxes: Seq<Sandbox>) -> Option<Seq<char>> {
    if m.agents.len() == 0 {
        Some("会话 "@ + m.name + " 缺少 agent 名单"@)
    } else {
        let a = m.agents[0];
        if !all_there(modules, a.modules) {
            Some("agent "@ + a.name + " 的模块已不在清单"@)
        } else if team::sandbox_named(boxes, a.name, 0) is None {
            Some("会话 "@ + m.name + " 缺少 agent "@ + a.name + " 的沙箱信息"@)
        } else {
            None
        }
    }
}

/// Whether a session is set up for the agent of a record.
pub open spec fn is_set_up(
    s: AgentSession,
    p: Prompts,
    settings: Settings,
    m: SessionMeta,
    w: Around,
    note: Option<String>,
    reply: nat,
) -> bool {
    let a = m@.agents[0];
    let modules = picked(w.roster.modules@, a.modules, a.modules.len() as int);
    let sb = w.boxes.list@[team::sandbox_named(w.boxes.list@, a.name, 0)->0];
    &&& s.name() == a.name
    &&& s.settings().agent@ == a.name
    &&& s.settings().work_name@ == sb.work_name@
    &&& s.settings().shared@ == sb.shared@
    &&& s.settings().private@ == sb.private@
    &&& workspace::paths_table(s.settings().module_dirs@) == workspace::paths_table(sb.modules@)
    &&& module::packs_v(s.settings().modules@) == module::packs_of(modules)
    &&& s.seat() is Some
    &&& is_place(
        s.seat()->0,
        p,
        team::seat_mode(settings, a.model),
        modules,
        sb,
        m.exec_spec,
        w.lib,
        workspace::paths_v(w.read_only@),
    )
    &&& (s.seat()->0).reply_seq == reply
    &&& s.texts() == p.core.tool_texts
    &&& s.ref_texts() == p.core.refs
    &&& s.opening() == text::opt_text(note)
}

fn find_box(v: &Vec<Sandbox>, agent: &str) -> (r: Option<usize>)
    ensures
        match r {
            Some(k) => k < v@.len() && team::sandbox_named(v@, agent@, 0) == Some(k as int),
            None => team::sandbox_named(v@, agent@, 0) is None,
        },
{
    let mut i: usize = 0;
    while i < v.len()
        invariant
            i <= v@.len(),
            team::sandbox_named(v@, agent@, 0) == team::sandbox_named(v@, agent@, i as int),
        decreases v@.len() - i,
    {
        if str_eq(v[i].agent.as_str(), agent) {
            return Some(i);
        }
        i = i + 1;
    }
    None
}

fn single_parts(
    prompts: &Prompts,
    settings: &Settings,
    meta: &SessionMeta,
    around: Around,
) -> (r: Result<(SessionParams, MemberTools), String>)
    requires
        prompt::book_sound(*prompts),
    ensures
        match r {
            Ok(x) => {
                let a = meta@.agents[0];
                let modules = picked(around.roster.modules@, a.modules, a.modules.len() as int);
                let sb = around.boxes.list@[team::sandbox_named(around.boxes.list@, a.name, 0)->0];
                &&& single_fault(meta@, around.roster.modules@, around.boxes.list@) is None
                &&& x.0.agent@ == a.name
                &&& x.0.work_name@ == sb.work_name@
                &&& x.0.shared@ == sb.shared@
                &&& x.0.private@ == sb.private@
                &&& workspace::paths_table(x.0.module_dirs@) == workspace::paths_table(sb.modules@)
                &&& module::packs_v(x.0.modules@) == module::packs_of(modules)
                &&& is_place(
                    x.1,
                    *prompts,
                    team::seat_mode(*settings, a.model),
                    modules,
                    sb,
                    meta.exec_spec,
                    around.lib,
                    workspace::paths_v(around.read_only@),
                )
                &&& x.1.reply_seq == 0
            },
            Err(e) => single_fault(meta@, around.roster.modules@, around.boxes.list@) == Some(e@),
        },
{
    assert(meta@.agents.len() == meta.agents@.len());
    if meta.agents.len() == 0 {
        return Err(cat3("会话 ", meta.name.as_str(), " 缺少 agent 名单"));
    }
    let a = &meta.agents[0];
    assert(meta@.agents[0] == a@);
    assert(a@.modules.len() == a.modules@.len());
    let modules = match agent_modules(around.roster.modules, &a.modules) {
        Some(v) => v,
        None => {
            return Err(cat3("agent ", a.name.as_str(), " 的模块已不在清单"));
        },
    };
    let mut list = around.boxes.list;
    let sb = match find_box(&list, a.name.as_str()) {
        Some(k) => list.swap_remove(k),
        None => {
            return Err(
                cat5("会话 ", meta.name.as_str(), " 缺少 agent ", a.name.as_str(), " 的沙箱信息"),
            );
        },
    };
    let params = SessionParams::from_workspace(a.name.as_str(), &sb, &modules);
    let mode = mode_of_seat(settings, &a.model);
    let tools = tools_env(prompts, mode, &modules, sb, &meta.exec_spec, &around.lib, around.read_only);
    Ok((params, tools))
}

/// Builds the session of an agent, in which nothing was said yet.
pub fn build_single(
    prompts: Prompts,
    settings: &Settings,
    meta: &SessionMeta,
    around: Around,
    note: Option<String>,
) -> (r: Result<AgentSession, String>)
    requires
        prompt::book_sound(prompts),
    ensures
        match r {
            Ok(s) => single_fault(meta@, around.roster.modules@, around.boxes.list@) is None
                && is_set_up(s, prompts, *settings, *meta, around, note, 0) && s@.wf()
                && s@.next_line == 0 && s@.dialogue.len() == 0,
            Err(e) => single_fault(meta@, around.roster.modules@, around.boxes.list@) == Some(e@),
        },
{
    match single_parts(&prompts, settings, meta, around) {
        Ok(x) => Ok(
            AgentSession::new(
                meta.agents[0].name.as_str(),
                x.0,
                note,
                Some(x.1),
                prompts.core.refs,
                prompts.core.tool_texts,
            ),
        ),
        Err(e) => Err(e),
    }
}

/// Whether a session holds what the lines of a record say, and numbers its replies on
/// from the last.
pub open spec fn is_brought_back(
    s: AgentSession,
    p: Prompts,
    settings: Settings,
    k: Record,
    w: Around,
    note: Option<String>,
) -> bool {
    let d = rebuild::rebuilt_from(
        events::line_views(k.lines@),
        team::seat_mode(settings, k.meta@.agents[0].model),
        p.core.tool_texts,
        rebuild::nothing(),
        0,
    );
    &&& is_set_up(
        s,
        p,
        settings,
        k.meta,
        w,
        note,
        engine::greatest_reply(json::items_v(k.events@), k.events@.len() as int),
    )
    &&& s@.wf()
    &&& s@.dialogue == d.dialogue
    &&& s@.marks == d.marks
    &&& s@.line_reply == d.line_reply
    &&& s@.next_line == k.lines@.len()
}

// ---- a team's session ----

/// Whether this is what comes of seating the team: the members, or why one cannot sit.
pub open spec fn is_seated(
    made: Result<Assembled, String>,
    v: Seq<AgentMetaV>,
    settings: Settings,
    modules: Seq<Module>,
    boxes: Seq<Sandbox>,
    notes: Vec<String>,
) -> bool {
    match made {
        Ok(t) => team::team_fault(v, modules, boxes, 0) is None && t.notes == notes && t.members@.len()
            == v.len() && forall|k: int|
            0 <= k < v.len() ==> team::is_seat(#[trigger] t.members@[k], v[k], settings, modules, boxes),
        Err(e) => team::team_fault(v, modules, boxes, 0) == Some(e@),
    }
}

/// Whether a team's work is the one its record tells, or why it cannot be.
pub open spec fn is_work_of(
    r: Result<Session, String>,
    p: Prompts,
    settings: Settings,
    k: Record,
    w: Around,
    notes: Vec<String>,
) -> bool {
    let st = collab_state::derived(
        json::items_v(k.events@),
        collab_state::chains_v(k.chains@),
        history::agent_names(k.meta@.agents),
    );
    exists|made: Result<Assembled, String>| #[trigger]
        is_seated(made, k.meta@.agents, settings, w.roster.modules@, w.boxes.list@, notes) && {
            let kept = collab::kept_work(
                p,
                k.meta@,
                st,
                events::line_views(k.lines@),
                made,
                w.boxes.shared@,
            );
            match r {
                Ok(Session::Collab(c)) => kept == Ok::<_, Seq<char>>(c@) && collab::handed_kept(c@),
                Ok(Session::Single(s)) => false,
                Err(e) => kept == Err::<WorkV, _>(e@),
            }
        }
}

/// Builds a session as its record tells it. `notes` say on which channels members
/// are; an agent alone is told the first.
pub fn rebuild_session(
    prompts: Prompts,
    settings: &Settings,
    kept: &Record,
    around: Around,
    notes: Vec<String>,
) -> (r: Result<Session, String>)
    requires
        prompt::book_sound(prompts),
        kept.chains@.len() == kept.events@.len(),
    ensures
        kept.meta.mode@ == "collab"@ ==> is_work_of(r, prompts, *settings, *kept, around, notes),
        kept.meta.mode@ == "single"@ ==> match r {
            Ok(Session::Single(s)) => single_fault(
                kept.meta@,
                around.roster.modules@,
                around.boxes.list@,
            ) is None && is_brought_back(
                s,
                prompts,
                *settings,
                *kept,
                around,
                if notes@.len() > 0 {
                    Some(notes@[0])
                } else {
                    None
                },
            ),
            Ok(Session::Collab(c)) => false,
            Err(e) => single_fault(kept.meta@, around.roster.modules@, around.boxes.list@) == Some(e@),
        },
        kept.meta.mode@ != "collab"@ && kept.meta.mode@ != "single"@ ==> (r matches Err(e) && e@
            == "未知会话形态："@ + kept.meta.mode@ + "（只认 single / collab）"@),
{
    proof {
        reveal_strlit("collab");
        reveal_strlit("single");
        assert("collab"@[0] != "single"@[0]);
    }
    let meta = &kept.meta;
    if str_eq(meta.mode.as_str(), "collab") {
        let agents = names_of_agents(&meta.agents);
        let st = collab_state::derive(&kept.events, &kept.chains, &agents);
        let made = match assemble_members(&meta.agents, &around.roster, settings, &around.boxes) {
            Ok(members) => Ok(Assembled { members, notes }),
            Err(e) => Err(e),
        };
        let ghost g = made;
        assert(meta@.agents == history::agents_v(meta.agents@));
        assert(is_seated(
            g,
            meta@.agents,
            *settings,
            around.roster.modules@,
            around.boxes.list@,
            notes,
        ));
        return match CollabSession::restore(&prompts, meta, &st, &kept.lines, made, around.boxes.shared) {
            Ok(c) => Ok(Session::Collab(c)),
            Err(e) => Err(e),
        };
    }
    if !str_eq(meta.mode.as_str(), "single") {
        return Err(cat3("未知会话形态：", meta.mode.as_str(), "（只认 single / collab）"));
    }
    let (params, mut tools) = match single_parts(&prompts, settings, meta, around) {
        Ok(x) => x,
        Err(e) => {
            return Err(e);
        },
    };
    let d = rebuild(&kept.lines, tools.mode, &prompts.core.tool_texts);
    tools.reply_seq = max_reply(&kept.events);
    let mut notes = notes;
    let note = if notes.len() > 0 {
        Some(notes.swap_remove(0))
    } else {
        None
    };
    Ok(
        Session::Single(
            AgentSession::restore(
                meta.agents[0].name.as_str(),
                params,
                d.dialogue,
                d.marks,
                d.line_reply,
                note,
                Some(tools),
                prompts.core.refs,
                prompts.core.tool_texts,
            ),
        ),
    )
}

/// Of the modules an agent names, those that there are are put together, each once.
pub proof fn modules_are_put_together_once(v: Seq<Module>, ids: Seq<Seq<char>>, n: int)
    requires
        0 < n <= ids.len(),
    ensures
        ids.take(n - 1).contains(ids[n - 1]) || first_from(v, ids[n - 1], 0) is None ==> picked(v, ids, n)
            == picked(v, ids, n - 1),
        !ids.take(n - 1).contains(ids[n - 1]) && first_from(v, ids[n - 1], 0) is Some ==> picked(v, ids, n).len()
            == picked(v, ids, n - 1).len() + 1 && picked(v, ids, n).last().manifest.id@ == ids[n - 1],
{
    lemma_first_from(v, ids[n - 1], 0);
}

proof fn lemma_first_from(v: Seq<Module>, id: Seq<char>, i: int)
    requires
        0 <= i,
    ensures
        first_from(v, id, i) matches Some(m) ==> m.manifest.id@ == id && v.contains(m),
    decreases v.len() - i,
{
    if i < v.len() {
        assert(v.contains(v[i]));
        lemma_first_from(v, id, i + 1);
    }
}

} // verus!
