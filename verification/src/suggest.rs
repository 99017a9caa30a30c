//! What the core suggests for a task: which agents to take. It only suggests; the
//! user chooses.
use crate::agents::{self, RosterPick, model_listing, resolve_picks};
use crate::collab;
use crate::history::AgentMetaV;
use crate::module::{self, Module, Roster};
use crate::ports::{self, Msg, MsgV};
use crate::prompt::{self, Prompts, fill5};
use crate::providers::{self, Channel, Settings};
use crate::review;
use crate::text::{self, cat2, clone_strings, has_text, is_blank, join, slice, to_chars};
use crate::work::WorkMode;
use vstd::prelude::*;

verus! {

/// A suggested agent.
#[derive(Debug)]
pub struct AgentSuggestion {
    pub name: String,
    pub modules: Vec<String>,
    pub model: String,
    pub why: String,
    /// Whether it is a registered agent as it stands.
    pub reuse: bool,
}

#[verifier::ext_equal]
pub struct SuggestionV {
    pub name: Seq<char>,
    pub modules: Seq<Seq<char>>,
    pub model: Seq<char>,
    pub why: Seq<char>,
    pub reuse: bool,
}

impl View for AgentSuggestion {
    type V = SuggestionV;

    open spec fn view(&self) -> SuggestionV {
        SuggestionV {
            name: self.name@,
            modules: text::texts(self.modules@),
            model: self.model@,
            why: self.why@,
            reuse: self.reuse,
        }
    }
}

pub open spec fn suggestions_v(v: Seq<AgentSuggestion>) -> Seq<SuggestionV> {
    v.map_values(|a: AgentSuggestion| a@)
}

// ---- asking ----

/// How a mode is described to the model.
pub open spec fn mode_words(p: Prompts, mode: WorkMode) -> Seq<char> {
    match mode {
        WorkMode::Single => p.core.suggest_models.mode_single@,
        WorkMode::Collab => p.core.suggest_models.mode_collab@,
    }
}

/// The request for suggestions: the mode, who and what there is, and the task.
pub open spec fn suggest_request(
    p: Prompts,
    s: Settings,
    modules: Seq<Module>,
    task: Seq<char>,
    mode: WorkMode,
) -> Seq<MsgV> {
    seq![
        ports::plain_msg("system"@, p.core.suggest_models.system@),
        ports::plain_msg(
            "user"@,
            prompt::filled(
                p.core.suggest_models.user@,
                seq![
                    ("mode"@, mode_words(p, mode)),
                    ("agents"@, collab::agents_text(p, s.agents@)),
                    ("modules"@, text::joined(module::listing_lines(p.core.tool_texts, modules), "\n"@)),
                    ("models"@, text::joined(agents::model_lines(p.core.tool_texts, s.models@), "\n"@)),
                    ("task"@, task),
                ],
            ),
        ),
    ]
}

/// Why nothing can be suggested, if that is so: there is no model, or none for the
/// core.
pub open spec fn suggest_fault(s: Settings) -> Option<Seq<char>> {
    if s.models@.len() == 0 {
        Some("登记处还没有任何模型，请先到「模型登记」添加"@)
    } else if s.core is None || providers::resolved(s, s.core->0@) is Err {
        Some(
            "核心未设定默认模型（或它引用的供应商不存在），请先到「核心 AI 默认模型」设定"@,
        )
    } else {
        None
    }
}

/// Asks for suggestions: the channel to ask on, and what to ask.
pub fn ask_suggestions(
    prompts: &Prompts,
    settings: &Settings,
    modules: &Roster,
    task: &str,
    mode: WorkMode,
) -> (r: Result<(Channel, Vec<Msg>), String>)
    requires
        prompt::book_sound(*prompts),
    ensures
        match r {
            Ok(a) => suggest_fault(*settings) is None && providers::resolved(*settings, settings.core->0@)
                == Ok::<_, Seq<char>>((a.0.provider, a.0.model@)) && ports::msgs_v(a.1@)
                == suggest_request(*prompts, *settings, modules.modules@, task@, mode),
            Err(e) => suggest_fault(*settings) == Some(e@),
        },
{
    if settings.models.len() == 0 {
        return Err("登记处还没有任何模型，请先到「模型登记」添加".to_owned());
    }
    let channel = match settings.core_channel() {
        Some(c) => c,
        None => {
            return Err(
                "核心未设定默认模型（或它引用的供应商不存在），请先到「核心 AI 默认模型」设定".to_owned(),
            );
        },
    };
    let words = match mode {
        WorkMode::Single => prompts.core.suggest_models.mode_single.as_str(),
        WorkMode::Collab => prompts.core.suggest_models.mode_collab.as_str(),
    };
    let user = fill5(
        prompts.core.suggest_models.user.as_str(),
        "mode",
        words,
        "agents",
        crate::agents::listing(prompts, &settings.agents).as_str(),
        "modules",
        crate::module::listing(modules, &prompts.core.tool_texts).as_str(),
        "models",
        model_listing(&settings.models, &prompts.core.tool_texts).as_str(),
        "task",
        task,
    );
    let ghost uv = user@;
    let mut msgs: Vec<Msg> = Vec::new();
    msgs.push(Msg::system(prompts.core.suggest_models.system.clone()));
    msgs.push(Msg::user(user));
    assert(ports::msgs_v(msgs@) =~= seq![
        ports::plain_msg("system"@, prompts.core.suggest_models.system@),
        ports::plain_msg("user"@, uv),
    ]);
    Ok((channel, msgs))
}

// ---- taking ----

/// An agent of the team as a suggestion. One without a model gets the core's.
pub open spec fn suggestion_of(a: (AgentMetaV, Seq<char>), core: Option<Seq<char>>) -> SuggestionV {
    SuggestionV {
        name: a.0.name,
        modules: a.0.modules,
        model: match a.0.model {
            Some(m) => m,
            None => review::or_nothing(core),
        },
        why: a.1,
        reuse: !a.0.transient,
    }
}

pub open spec fn drafts_of(v: Seq<(AgentMetaV, Seq<char>)>, core: Option<Seq<char>>) -> Seq<
    SuggestionV,
> {
    v.map_values(|a: (AgentMetaV, Seq<char>)| suggestion_of(a, core))
}

/// Texts added to texts, those that are there already left out.
pub open spec fn joined_once(a: Seq<Seq<char>>, b: Seq<Seq<char>>, n: int) -> Seq<Seq<char>>
    decreases n,
{
    if n <= 0 {
        a
    } else {
        let prev = joined_once(a, b, n - 1);
        if prev.contains(b[n - 1]) {
            prev
        } else {
            prev.push(b[n - 1])
        }
    }
}

/// The modules of the first `n`, each once, as they first come.
pub open spec fn all_modules(v: Seq<SuggestionV>, n: int) -> Seq<Seq<char>>
    decreases n,
{
    if n <= 0 {
        Seq::empty()
    } else {
        joined_once(all_modules(v, n - 1), v[n - 1].modules, v[n - 1].modules.len() as int)
    }
}

/// The first model of the first `n` that is not empty.
pub open spec fn first_model(v: Seq<SuggestionV>, n: int) -> Seq<char>
    decreases n,
{
    if n <= 0 {
        Seq::empty()
    } else if first_model(v, n - 1).len() > 0 {
        first_model(v, n - 1)
    } else {
        v[n - 1].model
    }
}

/// The reasons of the first `n` that are not blank.
pub open spec fn all_reasons(v: Seq<SuggestionV>, n: int) -> Seq<Seq<char>>
    decreases n,
{
    if n <= 0 {
        Seq::empty()
    } else {
        all_reasons(v, n - 1) + text::when(text::trimmed(v[n - 1].why).len() > 0, v[n - 1].why)
    }
}

/// Suggestions as one agent: what it was put together of is no registered one.
pub open spec fn merged(v: Seq<SuggestionV>) -> SuggestionV {
    SuggestionV {
        name: "组合"@,
        modules: all_modules(v, v.len() as int),
        model: first_model(v, v.len() as int),
        why: text::joined(all_reasons(v, v.len() as int), "；"@),
        reuse: false,
    }
}

fn add_once(a: &mut Vec<String>, b: &Vec<String>)
    ensures
        text::texts(final(a)@) == joined_once(text::texts(old(a)@), text::texts(b@), b@.len() as int),
{
    let ghost start = text::texts(a@);
    let ghost bv = text::texts(b@);
    let mut i: usize = 0;
    while i < b.len()
        invariant
            i <= b@.len(),
            bv == text::texts(b@),
            text::texts(a@) == joined_once(start, bv, i as int),
        decreases b@.len() - i,
    {
        assert(bv[i as int] == b@[i as int]@);
        if !has_text(a, b[i].as_str()) {
            let ghost prev = a@;
            let m = b[i].clone();
            a.push(m);
            proof {
                text::lemma_texts_push(prev, m);
            }
        }
        i = i + 1;
    }
}

/// Puts suggestions together as one agent: its modules each once, in order, the
/// first model there is, and all reasons.
pub fn merged_suggestion(drafts: &Vec<AgentSuggestion>) -> (r: AgentSuggestion)
    ensures
        r@ == merged(suggestions_v(drafts@)),
{
    let ghost v = suggestions_v(drafts@);
    let mut modules: Vec<String> = Vec::new();
    let mut model = String::new();
    let mut why: Vec<String> = Vec::new();
    let mut i: usize = 0;
    assert(text::texts(modules@) =~= all_modules(v, 0));
    assert(text::texts(why@) =~= all_reasons(v, 0));
    assert(model@ =~= first_model(v, 0));
    while i < drafts.len()
        invariant
            i <= drafts@.len(),
            v == suggestions_v(drafts@),
            text::texts(modules@) == all_modules(v, i as int),
            model@ == first_model(v, i as int),
            text::texts(why@) == all_reasons(v, i as int),
        decreases drafts@.len() - i,
    {
        let a = &drafts[i];
        assert(v[i as int] == a@);
        assert(text::texts(a.modules@).len() == a.modules@.len());
        if model.as_str().unicode_len() == 0 {
            model = a.model.clone();
        }
        add_once(&mut modules, &a.modules);
        let ghost prev = why@;
        if !is_blank(a.why.as_str()) {
            let w = a.why.clone();
            why.push(w);
            proof {
                text::lemma_texts_push(prev, w);
            }
        }
        assert(text::texts(why@) =~= all_reasons(v, i + 1));
        i = i + 1;
    }
    AgentSuggestion {
        name: "组合".to_owned(),
        modules,
        model,
        why: join(&why, "；"),
        reuse: false,
    }
}

/// What is suggested of a drafted team: in the mode of one agent, one.
pub open spec fn suggested(drafts: Seq<SuggestionV>, mode: WorkMode) -> Seq<SuggestionV> {
    if mode == WorkMode::Single && drafts.len() > 1 {
        seq![merged(drafts)]
    } else {
        drafts
    }
}

/// What is made of a reply.
pub open spec fn suggestions_taken(
    picks: Option<Seq<RosterPick>>,
    raw: Seq<char>,
    s: Settings,
    ids: Seq<Seq<char>>,
    mode: WorkMode,
) -> Result<Seq<SuggestionV>, Seq<char>> {
    match picks {
        None => Err("核心推荐失败（响应不是约定的 JSON）："@ + head(raw, 200)),
        Some(p) => {
            let out = suggested(
                drafts_of(
                    agents::team_of(p, s.agents@, ids, s.models@, p.len() as int).picked,
                    text::opt_text(s.core),
                ),
                mode,
            );
            if out.len() == 0 {
                Err("核心推荐没有可用结果"@)
            } else {
                Ok(out)
            }
        },
    }
}

pub open spec fn head(s: Seq<char>, n: int) -> Seq<char> {
    if s.len() <= n {
        s
    } else {
        s.take(n)
    }
}

fn head_of(s: &str, n: usize) -> (r: String)
    ensures
        r@ == head(s@, n as int),
{
    let v = to_chars(s);
    if v.len() <= n {
        s.to_owned()
    } else {
        let r = slice(&v, 0, n);
        assert(r@ =~= s@.take(n as int));
        r
    }
}

/// Takes the reply of the core: the items it names, none where it names them in no
/// form that was agreed on. An item that names what there is not is left out.
pub fn take_suggestions(
    picks: &Option<Vec<RosterPick>>,
    raw: &str,
    settings: &Settings,
    modules: &Roster,
    mode: WorkMode,
) -> (r: Result<Vec<AgentSuggestion>, String>)
    ensures
        ({
            let t = suggestions_taken(
                match *picks {
                    Some(p) => Some(p@),
                    None => None,
                },
                raw@,
                *settings,
                agents::module_ids(modules.modules@),
                mode,
            );
            match r {
                Ok(v) => t == Ok::<_, Seq<char>>(suggestions_v(v@)),
                Err(e) => t == Err::<Seq<SuggestionV>, _>(e@),
            }
        }),
{
    let p = match picks {
        Some(p) => p,
        None => {
            return Err(
                cat2(
                    "核心推荐失败（响应不是约定的 JSON）：",
                    head_of(raw, 200).as_str(),
                ),
            );
        },
    };
    let (picked, _) = resolve_picks(p, &settings.agents, modules, &settings.models);
    let ghost pv = agents::picked_v(picked@);
    let ghost core = text::opt_text(settings.core);
    let mut drafts: Vec<AgentSuggestion> = Vec::new();
    let mut i: usize = 0;
    while i < picked.len()
        invariant
            i <= picked@.len(),
            pv == agents::picked_v(picked@),
            core == text::opt_text(settings.core),
            drafts@.len() == i,
            forall|k: int| 0 <= k < i ==> (#[trigger] drafts@[k])@ == suggestion_of(pv[k], core),
        decreases picked@.len() - i,
    {
        let a = &picked[i].0;
        assert(pv[i as int] == (a@, picked@[i as int].1@));
        let model = match &a.model {
            Some(m) => m.clone(),
            None => match &settings.core {
                Some(c) => c.clone(),
                None => String::new(),
            },
        };
        let d = AgentSuggestion {
            name: a.name.clone(),
            modules: clone_strings(&a.modules),
            model,
            why: picked[i].1.clone(),
            reuse: !a.transient,
        };
        assert(d@ =~= suggestion_of(pv[i as int], core));
        drafts.push(d);
        i = i + 1;
    }
    assert(suggestions_v(drafts@) =~= drafts_of(pv, core));
    let ghost dv = drafts_of(pv, core);
    assert(dv.len() == drafts@.len());
    let single = match mode {
        WorkMode::Single => true,
        WorkMode::Collab => false,
    };
    if single && drafts.len() > 1 {
        let m = merged_suggestion(&drafts);
        let mut out: Vec<AgentSuggestion> = Vec::new();
        out.push(m);
        assert(suggestions_v(out@) =~= suggested(dv, mode));
        return Ok(out);
    }
    if drafts.len() == 0 {
        return Err("核心推荐没有可用结果".to_owned());
    }
    Ok(drafts)
}

// ---- what holds of every suggestion ----

proof fn lemma_joined_once(a: Seq<Seq<char>>, b: Seq<Seq<char>>, n: int)
    requires
        0 <= n <= b.len(),
        a.no_duplicates(),
    ensures
        joined_once(a, b, n).no_duplicates(),
        forall|x: Seq<char>| a.contains(x) ==> joined_once(a, b, n).contains(x),
        forall|k: int| 0 <= k < n ==> joined_once(a, b, n).contains(#[trigger] b[k]),
        forall|x: Seq<char>| #[trigger]
            joined_once(a, b, n).contains(x) ==> a.contains(x) || b.contains(x),
    decreases n,
{
    if n > 0 {
        lemma_joined_once(a, b, n - 1);
        let prev = joined_once(a, b, n - 1);
        let now = joined_once(a, b, n);
        if !prev.contains(b[n - 1]) {
            assert forall|x: Seq<char>| prev.contains(x) implies now.contains(x) by {
                let k = choose|k: int| 0 <= k < prev.len() && prev[k] == x;
                assert(now[k] == x);
            }
            assert(now[now.len() - 1] == b[n - 1]);
            assert forall|x: Seq<char>| #[trigger] now.contains(x) implies a.contains(x)
                || b.contains(x) by {
                let k = choose|k: int| 0 <= k < now.len() && now[k] == x;
                if k < prev.len() {
                    assert(prev[k] == x);
                    assert(prev.contains(x));
                }
            }
        }
    }
}

/// Of agents put together as one, no module is lost, none comes twice, and none is
/// added.
pub proof fn merging_keeps_the_modules(v: Seq<SuggestionV>, n: int)
    requires
        0 <= n <= v.len(),
    ensures
        all_modules(v, n).no_duplicates(),
        forall|i: int, k: int|
            0 <= i < n && 0 <= k < v[i].modules.len() ==> all_modules(v, n).contains(
                #[trigger] v[i].modules[k],
            ),
        forall|x: Seq<char>| #[trigger]
            all_modules(v, n).contains(x) ==> exists|i: int|
                0 <= i < n && (#[trigger] v[i]).modules.contains(x),
    decreases n,
{
    if n > 0 {
        merging_keeps_the_modules(v, n - 1);
        let prev = all_modules(v, n - 1);
        let b = v[n - 1].modules;
        lemma_joined_once(prev, b, b.len() as int);
        assert forall|x: Seq<char>| #[trigger] all_modules(v, n).contains(x) implies exists|i: int|
            0 <= i < n && (#[trigger] v[i]).modules.contains(x) by {
            if prev.contains(x) {
                let i = choose|i: int| 0 <= i < n - 1 && (#[trigger] v[i]).modules.contains(x);
                assert(v[i].modules.contains(x));
            } else {
                assert(v[n - 1].modules.contains(x));
            }
        }
        assert forall|i: int, k: int| 0 <= i < n && 0 <= k < v[i].modules.len() implies all_modules(
            v,
            n,
        ).contains(#[trigger] v[i].modules[k]) by {
            if i < n - 1 {
                assert(prev.contains(v[i].modules[k]));
            } else {
                assert(b[k] == v[i].modules[k]);
            }
        }
    }
}

/// The model of a merged suggestion is the first that one of them names.
pub proof fn the_first_model_counts(v: Seq<SuggestionV>, n: int, k: int)
    requires
        0 <= k < n <= v.len(),
        v[k].model.len() > 0,
        forall|j: int| 0 <= j < k ==> (#[trigger] v[j]).model.len() == 0,
    ensures
        first_model(v, n) == v[k].model,
    decreases n,
{
    if k < n - 1 {
        the_first_model_counts(v, n - 1, k);
    } else {
        lemma_no_model(v, n - 1);
    }
}

proof fn lemma_no_model(v: Seq<SuggestionV>, n: int)
    requires
        0 <= n <= v.len(),
        forall|j: int| 0 <= j < n ==> (#[trigger] v[j]).model.len() == 0,
    ensures
        first_model(v, n).len() == 0,
    decreases n,
{
    if n > 0 {
        lemma_no_model(v, n - 1);
        assert(v[n - 1].model.len() == 0);
    }
}

/// Where one agent is to work alone, what was suggested becomes one; a team stays as it
/// was suggested.
pub proof fn one_agent_is_suggested_alone(drafts: Seq<SuggestionV>, mode: WorkMode)
    ensures
        mode is Single ==> suggested(drafts, mode).len() <= 1,
        mode is Single && drafts.len() > 0 ==> suggested(drafts, mode).len() == 1,
        mode is Collab || drafts.len() <= 1 ==> suggested(drafts, mode) == drafts,
{
}

/// A suggestion names the agent, its modules and why; the model is the agent's own, or
/// the core's where it has none.
pub proof fn suggestions_name_their_agents(a: (AgentMetaV, Seq<char>), core: Option<Seq<char>>)
    ensures
        suggestion_of(a, core).name == a.0.name,
        suggestion_of(a, core).modules == a.0.modules,
        suggestion_of(a, core).why == a.1,
        suggestion_of(a, core).reuse <==> !a.0.transient,
        a.0.model is Some ==> suggestion_of(a, core).model == a.0.model->0,
        a.0.model is None && core is Some ==> suggestion_of(a, core).model == core->0,
{
}

/// A suggestion can be asked for exactly where there are models and the core has one that
/// leads to its provider.
pub proof fn suggestions_need_a_model(s: Settings)
    ensures
        suggest_fault(s) is None <==> s.models@.len() > 0 && s.core is Some && providers::resolved(
            s,
            (s.core->0)@,
        ) is Ok,
{
}

} // verus!
