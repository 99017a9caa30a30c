//! The registry as the user changes it: providers, models, the core's model and the
//! agents. What something else refers to cannot be taken out.
use crate::agents::{self, Agent, AgentV, AgentView, validate_name};
use crate::module::Roster;
use crate::ports::ProbeOutcome;
use crate::providers::{self, ModelEntry, ModelV, Provider, ProviderV, Settings, ToolMode};
use crate::table::{self, Table};
use crate::text::{self, cat2, cat5, clone_opt, clone_strings, join, push_when, str_eq};
use crate::work::has_module;
use vstd::prelude::*;

verus! {

/// What is registered.
#[verifier::ext_equal]
pub struct RegistryV {
    pub providers: Seq<(Seq<char>, ProviderV)>,
    pub models: Seq<(Seq<char>, ModelV)>,
    pub core: Option<Seq<char>>,
    pub agents: Seq<(Seq<char>, AgentV)>,
}

pub open spec fn registry_v(s: Settings) -> RegistryV {
    RegistryV {
        providers: table::entries_v(s.providers@),
        models: table::entries_v(s.models@),
        core: text::opt_text(s.core),
        agents: table::entries_v(s.agents@),
    }
}

// ---- providers ----

/// The registry with a provider. No key keeps the one there was.
pub open spec fn with_provider(
    r: RegistryV,
    id: Seq<char>,
    base_url: Seq<char>,
    api_key: Seq<char>,
) -> Result<RegistryV, Seq<char>> {
    if id.len() == 0 || base_url.len() == 0 {
        Err("id / base_url 不能为空"@)
    } else if api_key.len() == 0 {
        match table::lookup(r.providers, id) {
            None => Err("api_key 不能为空"@),
            Some(p) => Ok(
                RegistryV {
                    providers: table::inserted(
                        r.providers,
                        id,
                        ProviderV { base_url, api_key: p.api_key },
                    ),
                    ..r
                },
            ),
        }
    } else {
        Ok(
            RegistryV {
                providers: table::inserted(r.providers, id, ProviderV { base_url, api_key }),
                ..r
            },
        )
    }
}

/// The models of the first `n` that belong to a provider.
pub open spec fn models_of(models: Seq<(Seq<char>, ModelV)>, provider: Seq<char>, n: int) -> Seq<
    Seq<char>,
>
    decreases n,
{
    if n <= 0 {
        Seq::empty()
    } else {
        models_of(models, provider, n - 1) + text::when(
            models[n - 1].1.provider == provider,
            models[n - 1].0,
        )
    }
}

/// The registry without a provider, and whether it was there. One that a model
/// belongs to stays.
pub open spec fn without_provider(r: RegistryV, id: Seq<char>) -> Result<
    (RegistryV, bool),
    Seq<char>,
> {
    let used = models_of(r.models, id, r.models.len() as int);
    if used.len() > 0 {
        Err(
            "供应商 "@ + id + " 仍被模型引用："@ + text::joined(used, "、"@) + "；请先删除这些模型"@,
        )
    } else {
        Ok(
            (
                RegistryV { providers: table::removed(r.providers, id), ..r },
                table::lookup(r.providers, id) is Some,
            ),
        )
    }
}

// ---- models ----

/// The registry with a model. How it calls tools stays as it was.
pub open spec fn with_model(
    r: RegistryV,
    id: Seq<char>,
    name: Seq<char>,
    api_model: Seq<char>,
    provider: Seq<char>,
    note: Seq<char>,
) -> Result<RegistryV, Seq<char>> {
    if id.len() == 0 || name.len() == 0 || api_model.len() == 0 || provider.len() == 0 {
        Err("id / name / api_model / provider 均不能为空"@)
    } else if table::lookup(r.providers, provider) is None {
        Err("无此供应商："@ + provider)
    } else {
        let tools = match table::lookup(r.models, id) {
            Some(m) => m.tools,
            None => ToolMode::Envelope,
        };
        Ok(
            RegistryV {
                models: table::inserted(
                    r.models,
                    id,
                    ModelV { name, api_model, provider, note, tools },
                ),
                ..r
            },
        )
    }
}

/// The registry without a model, and whether it was there. The core's own stays.
pub open spec fn without_model(r: RegistryV, id: Seq<char>) -> Result<
    (RegistryV, bool),
    Seq<char>,
> {
    if r.core == Some(id) {
        Err(id + " 是核心默认模型；请先把核心默认模型改成别的再删"@)
    } else {
        Ok(
            (
                RegistryV { models: table::removed(r.models, id), ..r },
                table::lookup(r.models, id) is Some,
            ),
        )
    }
}

/// The registry with the core's model; nothing changes where there is none such.
pub open spec fn with_core(r: RegistryV, id: Seq<char>) -> RegistryV {
    if table::lookup(r.models, id) is Some {
        RegistryV { core: Some(id), ..r }
    } else {
        r
    }
}

/// How a model calls tools after a test, where the test told.
pub open spec fn mode_found(o: ProbeOutcome) -> Option<ToolMode> {
    match o {
        ProbeOutcome::Supported { .. } => Some(ToolMode::Native),
        ProbeOutcome::Unsupported { .. } => Some(ToolMode::Envelope),
        ProbeOutcome::Unknown { .. } => None,
    }
}

/// The registry after a test of a model. What the test could not tell changes
/// nothing.
pub open spec fn with_probe(r: RegistryV, id: Seq<char>, o: ProbeOutcome) -> RegistryV {
    match (mode_found(o), table::lookup(r.models, id)) {
        (Some(tools), Some(m)) => RegistryV {
            models: table::inserted(r.models, id, ModelV { tools, ..m }),
            ..r
        },
        _ => r,
    }
}

// ---- agents ----

/// The first of the modules from the `i`th on that there is not.
pub open spec fn first_unknown(ms: Seq<Seq<char>>, ids: Seq<Seq<char>>, i: int) -> Option<Seq<char>>
    decreases ms.len() - i,
{
    if i < 0 || i >= ms.len() {
        None
    } else if !ids.contains(ms[i]) {
        Some(ms[i])
    } else {
        first_unknown(ms, ids, i + 1)
    }
}

/// The registry with an agent.
pub open spec fn with_agent(
    r: RegistryV,
    ids: Seq<Seq<char>>,
    name: Seq<char>,
    modules: Seq<Seq<char>>,
    model: Seq<char>,
    note: Seq<char>,
) -> Result<RegistryV, Seq<char>> {
    match agents::name_fault(name) {
        Some(e) => Err(e),
        None => if modules.len() == 0 {
            Err("agent 至少要有一个模块"@)
        } else {
            match first_unknown(modules, ids, 0) {
                Some(m) => Err("无此模块："@ + m),
                None => if model.len() > 0 && table::lookup(r.models, model) is None {
                    Err("无此模型："@ + model)
                } else {
                    Ok(
                        RegistryV {
                            agents: table::inserted(
                                r.agents,
                                name,
                                AgentV {
                                    modules,
                                    model: if model.len() == 0 {
                                        None
                                    } else {
                                        Some(model)
                                    },
                                    note,
                                },
                            ),
                            ..r
                        },
                    )
                },
            }
        },
    }
}

/// Whether two settings are alike but for the registry.
pub open spec fn same_app(a: Settings, b: Settings) -> bool {
    a.app == b.app
}

fn empty(s: &str) -> (r: bool)
    ensures
        r == (s@.len() == 0),
{
    s.unicode_len() == 0
}

fn used_by(models: &Table<ModelEntry>, provider: &str) -> (r: Vec<String>)
    ensures
        text::texts(r@) == models_of(table::entries_v(models@), provider@, models@.len() as int),
{
    let ghost mv = table::entries_v(models@);
    let mut out: Vec<String> = Vec::new();
    let mut i: usize = 0;
    assert(text::texts(out@) =~= Seq::empty());
    while i < models.len()
        invariant
            i <= models@.len(),
            mv == table::entries_v(models@),
            text::texts(out@) == models_of(mv, provider@, i as int),
        decreases models@.len() - i,
    {
        let m = models.value_at(i);
        assert(mv[i as int] == (models@[i as int].0, m@));
        let b = str_eq(m.provider.as_str(), provider);
        push_when(&mut out, b, models.key_at(i).to_owned());
        i = i + 1;
    }
    out
}

impl Settings {
    /// Registers a provider, or changes one. No key keeps the one there was: keys
    /// are never shown.
    pub fn provider_upsert(&mut self, id: &str, base_url: &str, api_key: &str) -> (r: Result<
        (),
        String,
    >)
        ensures
            match r {
                Ok(_) => with_provider(registry_v(*old(self)), id@, base_url@, api_key@) == Ok::<
                    _,
                    Seq<char>,
                >(registry_v(*final(self))),
                Err(e) => with_provider(registry_v(*old(self)), id@, base_url@, api_key@) == Err::<
                    RegistryV,
                    _,
                >(e@) && *final(self) == *old(self),
            },
            same_app(*old(self), *final(self)),
    {
        if empty(id) || empty(base_url) {
            return Err("id / base_url 不能为空".to_owned());
        }
        let ghost before = self.providers@;
        let key = if empty(api_key) {
            match self.providers.get(id) {
                Some(p) => {
                    proof {
                        table::lemma_entries(before, id@, *p);
                    }
                    p.api_key.clone()
                },
                None => {
                    proof {
                        table::lemma_entries(before, id@, before[0].1);
                    }
                    return Err("api_key 不能为空".to_owned());
                },
            }
        } else {
            api_key.to_owned()
        };
        let p = Provider { base_url: base_url.to_owned(), api_key: key };
        proof {
            table::lemma_entries(before, id@, p);
        }
        self.providers.insert(id.to_owned(), p);
        Ok(())
    }

    /// Takes a provider out, unless a model belongs to it; whether it was there.
    pub fn provider_remove(&mut self, id: &str) -> (r: Result<bool, String>)
        ensures
            match r {
                Ok(b) => without_provider(registry_v(*old(self)), id@) == Ok::<_, Seq<char>>(
                    (registry_v(*final(self)), b),
                ),
                Err(e) => without_provider(registry_v(*old(self)), id@) == Err::<
                    (RegistryV, bool),
                    _,
                >(e@) && *final(self) == *old(self),
            },
            same_app(*old(self), *final(self)),
    {
        let used = used_by(&self.models, id);
        assert(text::texts(used@).len() == used@.len());
        assert(table::entries_v(self.models@).len() == self.models@.len());
        if used.len() > 0 {
            return Err(
                cat5(
                    "供应商 ",
                    id,
                    " 仍被模型引用：",
                    join(&used, "、").as_str(),
                    "；请先删除这些模型",
                ),
            );
        }
        proof {
            table::lemma_entries(self.providers@, id@, self.providers@[0].1);
        }
        Ok(self.providers.remove(id))
    }

    /// Registers a model, or changes one.
    pub fn model_upsert(
        &mut self,
        id: &str,
        name: &str,
        api_model: &str,
        provider: &str,
        note: &str,
    ) -> (r: Result<(), String>)
        ensures
            match r {
                Ok(_) => with_model(
                    registry_v(*old(self)),
                    id@,
                    name@,
                    api_model@,
                    provider@,
                    note@,
                ) == Ok::<_, Seq<char>>(registry_v(*final(self))),
                Err(e) => with_model(
                    registry_v(*old(self)),
                    id@,
                    name@,
                    api_model@,
                    provider@,
                    note@,
                ) == Err::<RegistryV, _>(e@) && *final(self) == *old(self),
            },
            same_app(*old(self), *final(self)),
    {
        if empty(id) || empty(name) || empty(api_model) || empty(provider) {
            return Err("id / name / api_model / provider 均不能为空".to_owned());
        }
        proof {
            table::lemma_entries(self.providers@, provider@, self.providers@[0].1);
        }
        if !self.providers.contains_key(provider) {
            return Err(cat2("无此供应商：", provider));
        }
        let ghost before = self.models@;
        let tools = match self.models.get(id) {
            Some(m) => m.tools,
            None => ToolMode::Envelope,
        };
        let m = ModelEntry {
            name: name.to_owned(),
            api_model: api_model.to_owned(),
            provider: provider.to_owned(),
            note: note.to_owned(),
            tools,
        };
        proof {
            table::lemma_entries(before, id@, m);
        }
        self.models.insert(id.to_owned(), m);
        Ok(())
    }

    /// Takes a model out, unless it is the core's; whether it was there.
    pub fn model_remove(&mut self, id: &str) -> (r: Result<bool, String>)
        ensures
            match r {
                Ok(b) => without_model(registry_v(*old(self)), id@) == Ok::<_, Seq<char>>(
                    (registry_v(*final(self)), b),
                ),
                Err(e) => without_model(registry_v(*old(self)), id@) == Err::<
                    (RegistryV, bool),
                    _,
                >(e@) && *final(self) == *old(self),
            },
            same_app(*old(self), *final(self)),
    {
        let own = match &self.core {
            Some(c) => str_eq(c.as_str(), id),
            None => false,
        };
        if own {
            return Err(cat2(id, " 是核心默认模型；请先把核心默认模型改成别的再删"));
        }
        proof {
            table::lemma_entries(self.models@, id@, self.models@[0].1);
        }
        Ok(self.models.remove(id))
    }

    /// Sets the core's model; whether there is one such.
    pub fn core_set_model(&mut self, id: &str) -> (r: bool)
        ensures
            registry_v(*final(self)) == with_core(registry_v(*old(self)), id@),
            r == (table::lookup(registry_v(*old(self)).models, id@) is Some),
            same_app(*old(self), *final(self)),
    {
        proof {
            table::lemma_entries(self.models@, id@, self.models@[0].1);
        }
        if !self.models.contains_key(id) {
            return false;
        }
        self.core = Some(id.to_owned());
        true
    }

    /// Takes what a test of a model found; whether anything changed.
    pub fn take_probe(&mut self, id: &str, found: &ProbeOutcome) -> (r: bool)
        ensures
            registry_v(*final(self)) == with_probe(registry_v(*old(self)), id@, *found),
            r == match (mode_found(*found), table::lookup(registry_v(*old(self)).models, id@)) {
                (Some(tools), Some(m)) => m.tools != tools,
                _ => false,
            },
            !r ==> *final(self) == *old(self),
            same_app(*old(self), *final(self)),
    {
        let ghost before = self.models@;
        proof {
            table::lemma_entries(before, id@, before[0].1);
        }
        let tools = match found {
            ProbeOutcome::Supported { .. } => ToolMode::Native,
            ProbeOutcome::Unsupported { .. } => ToolMode::Envelope,
            ProbeOutcome::Unknown { .. } => {
                return false;
            },
        };
        match self.models.get(id) {
            Some(m) => {
                if m.tools == tools {
                    proof {
                        let r = registry_v(*self);
                        table::lemma_slot(r.models, id@, 0);
                        assert(table::inserted(r.models, id@, m@) =~= r.models);
                    }
                    return false;
                }
                let n = ModelEntry {
                    name: m.name.clone(),
                    api_model: m.api_model.clone(),
                    provider: m.provider.clone(),
                    note: m.note.clone(),
                    tools,
                };
                proof {
                    table::lemma_entries(before, id@, n);
                }
                self.models.insert(id.to_owned(), n);
                true
            },
            None => false,
        }
    }

    /// Registers an agent, or changes one: its modules and its model have to exist.
    pub fn agent_upsert(
        &mut self,
        modules: &Roster,
        name: &str,
        ids: &Vec<String>,
        model: &str,
        note: &str,
    ) -> (r: Result<(), String>)
        ensures
            match r {
                Ok(_) => with_agent(
                    registry_v(*old(self)),
                    agents::module_ids(modules.modules@),
                    name@,
                    text::texts(ids@),
                    model@,
                    note@,
                ) == Ok::<_, Seq<char>>(registry_v(*final(self))),
                Err(e) => with_agent(
                    registry_v(*old(self)),
                    agents::module_ids(modules.modules@),
                    name@,
                    text::texts(ids@),
                    model@,
                    note@,
                ) == Err::<RegistryV, _>(e@) && *final(self) == *old(self),
            },
            same_app(*old(self), *final(self)),
    {
        match validate_name(name) {
            Ok(_) => {},
            Err(e) => {
                return Err(e);
            },
        }
        let ghost iv = text::texts(ids@);
        let ghost all = agents::module_ids(modules.modules@);
        assert(iv.len() == ids@.len());
        if ids.len() == 0 {
            return Err("agent 至少要有一个模块".to_owned());
        }
        let ghost start = *self;
        let mut i: usize = 0;
        while i < ids.len()
            invariant
                i <= ids@.len(),
                iv == text::texts(ids@),
                iv.len() > 0,
                all == agents::module_ids(modules.modules@),
                first_unknown(iv, all, 0) == first_unknown(iv, all, i as int),
                *self == start,
                start == *old(self),
                agents::name_fault(name@) is None,
            decreases ids@.len() - i,
        {
            assert(iv[i as int] == ids@[i as int]@);
            if !has_module(&modules.modules, ids[i].as_str()) {
                return Err(cat2("无此模块：", ids[i].as_str()));
            }
            i = i + 1;
        }
        proof {
            table::lemma_entries(self.models@, model@, self.models@[0].1);
        }
        if !empty(model) && !self.models.contains_key(model) {
            return Err(cat2("无此模型：", model));
        }
        let a = Agent {
            modules: clone_strings(ids),
            model: if empty(model) {
                None
            } else {
                Some(model.to_owned())
            },
            note: note.to_owned(),
        };
        proof {
            table::lemma_entries(self.agents@, name@, a);
        }
        self.agents.insert(name.to_owned(), a);
        Ok(())
    }

    /// Takes an agent out; whether it was there.
    pub fn agent_remove(&mut self, name: &str) -> (r: bool)
        ensures
            registry_v(*final(self)) == (RegistryV {
                agents: table::removed(registry_v(*old(self)).agents, name@),
                ..registry_v(*old(self))
            }),
            r == (table::lookup(registry_v(*old(self)).agents, name@) is Some),
            same_app(*old(self), *final(self)),
    {
        proof {
            table::lemma_entries(self.agents@, name@, self.agents@[0].1);
        }
        self.agents.remove(name)
    }

    /// The agents as they are shown.
    pub fn agent_views(&self) -> (r: Vec<AgentView>)
        ensures
            r@.len() == self.agents@.len(),
            forall|i: int|
                0 <= i < r@.len() ==> (#[trigger] r@[i]).name@ == self.agents@[i].0 && (AgentV {
                    modules: text::texts(r@[i].modules@),
                    model: text::opt_text(r@[i].model),
                    note: r@[i].note@,
                }) == self.agents@[i].1@,
    {
        let mut r: Vec<AgentView> = Vec::new();
        let mut i: usize = 0;
        while i < self.agents.len()
            invariant
                i <= self.agents@.len(),
                r@.len() == i,
                forall|k: int|
                    0 <= k < i ==> (#[trigger] r@[k]).name@ == self.agents@[k].0 && (AgentV {
                        modules: text::texts(r@[k].modules@),
                        model: text::opt_text(r@[k].model),
                        note: r@[k].note@,
                    }) == self.agents@[k].1@,
            decreases self.agents@.len() - i,
        {
            let a = self.agents.value_at(i);
            r.push(
                AgentView {
                    name: self.agents.key_at(i).to_owned(),
                    modules: clone_strings(&a.modules),
                    model: clone_opt(&a.model),
                    note: a.note.clone(),
                },
            );
            i = i + 1;
        }
        r
    }
}

// ---- what holds of every registry ----

/// Whether every reference leads somewhere: each model to its provider, the core to
/// its model.
pub open spec fn whole(r: RegistryV) -> bool {
    &&& table::ascending(r.providers)
    &&& table::ascending(r.models)
    &&& table::ascending(r.agents)
    &&& forall|i: int|
        0 <= i < r.models.len() ==> table::lookup(r.providers, (#[trigger] r.models[i]).1.provider) is Some
    &&& r.core is Some ==> table::lookup(r.models, r.core->0) is Some
}

proof fn lemma_in_inserted<V>(t: Seq<(Seq<char>, V)>, key: Seq<char>, v: V, i: int)
    requires
        0 <= i < table::inserted(t, key, v).len(),
    ensures
        table::inserted(t, key, v)[i] == (key, v) || exists|k: int|
            0 <= k < t.len() && #[trigger] t[k] == table::inserted(t, key, v)[i],
{
    table::lemma_slot(t, key, 0);
    table::lemma_gap(t, key, 0);
    let r = table::inserted(t, key, v);
    match table::slot(t, key) {
        Some(s) => {
            if i != s {
                assert(t[i] == r[i]);
            }
        },
        None => {
            let g = table::gap_from(t, key, 0);
            if i < g {
                assert(t[i] == r[i]);
            } else if i > g {
                assert(t[i - 1] == r[i]);
            }
        },
    }
}

proof fn lemma_used(models: Seq<(Seq<char>, ModelV)>, provider: Seq<char>, n: int)
    requires
        0 <= n <= models.len(),
        models_of(models, provider, n).len() == 0,
    ensures
        forall|i: int| 0 <= i < n ==> (#[trigger] models[i]).1.provider != provider,
    decreases n,
{
    if n > 0 {
        assert(models_of(models, provider, n).len() >= models_of(models, provider, n - 1).len());
        lemma_used(models, provider, n - 1);
    }
}

/// Registering a provider or a model leaves no reference that leads nowhere.
pub proof fn registering_keeps_references(
    r: RegistryV,
    id: Seq<char>,
    name: Seq<char>,
    api_model: Seq<char>,
    provider: Seq<char>,
    note: Seq<char>,
    base_url: Seq<char>,
    api_key: Seq<char>,
)
    requires
        whole(r),
    ensures
        with_provider(r, id, base_url, api_key) matches Ok(n) ==> whole(n),
        with_model(r, id, name, api_model, provider, note) matches Ok(n) ==> whole(n),
        whole(with_core(r, id)),
{
    let a = with_provider(r, id, base_url, api_key);
    if a is Ok {
        let n = a->Ok_0;
        let key = if api_key.len() == 0 {
            table::lookup(r.providers, id)->0.api_key
        } else {
            api_key
        };
        table::inserting(r.providers, id, ProviderV { base_url, api_key: key });
        assert forall|i: int| 0 <= i < n.models.len() implies table::lookup(
            n.providers,
            (#[trigger] n.models[i]).1.provider,
        ) is Some by {
            let p = r.models[i].1.provider;
            if p != id {
                assert(table::lookup(n.providers, p) == table::lookup(r.providers, p));
            }
        }
    }
    let b = with_model(r, id, name, api_model, provider, note);
    if b is Ok {
        let n = b->Ok_0;
        let tools = match table::lookup(r.models, id) {
            Some(m) => m.tools,
            None => ToolMode::Envelope,
        };
        let m = ModelV { name, api_model, provider, note, tools };
        table::inserting(r.models, id, m);
        assert forall|i: int| 0 <= i < n.models.len() implies table::lookup(
            n.providers,
            (#[trigger] n.models[i]).1.provider,
        ) is Some by {
            lemma_in_inserted(r.models, id, m, i);
            if n.models[i] != (id, m) {
                let k = choose|k: int| 0 <= k < r.models.len() && #[trigger] r.models[k]
                    == n.models[i];
                assert(table::lookup(r.providers, r.models[k].1.provider) is Some);
            }
        }
        if r.core is Some && r.core->0 != id {
            assert(table::lookup(n.models, r.core->0) == table::lookup(r.models, r.core->0));
        }
    }
}

/// Taking a provider or a model out leaves no reference that leads nowhere: where
/// one would, it is refused.
pub proof fn removing_keeps_references(r: RegistryV, id: Seq<char>)
    requires
        whole(r),
    ensures
        without_provider(r, id) matches Ok(n) ==> whole(n.0),
        without_model(r, id) matches Ok(n) ==> whole(n.0),
{
    let a = without_provider(r, id);
    if a is Ok {
        let n = (a->Ok_0).0;
        table::removing(r.providers, id);
        lemma_used(r.models, id, r.models.len() as int);
        assert forall|i: int| 0 <= i < n.models.len() implies table::lookup(
            n.providers,
            (#[trigger] n.models[i]).1.provider,
        ) is Some by {
            let p = r.models[i].1.provider;
            assert(p != id);
            assert(table::lookup(n.providers, p) == table::lookup(r.providers, p));
        }
    }
    let b = without_model(r, id);
    if b is Ok {
        let n = (b->Ok_0).0;
        table::removing(r.models, id);
        table::lemma_slot(r.models, id, 0);
        assert forall|i: int| 0 <= i < n.models.len() implies table::lookup(
            n.providers,
            (#[trigger] n.models[i]).1.provider,
        ) is Some by {
            let k = match table::slot(r.models, id) {
                Some(s) => if i < s {
                    i
                } else {
                    i + 1
                },
                None => i,
            };
            assert(n.models[i] == r.models[k]);
        }
        if r.core is Some {
            assert(table::lookup(n.models, r.core->0) == table::lookup(r.models, r.core->0));
        }
    }
}

/// In a whole registry every registered model leads to a channel.
pub proof fn registered_models_resolve(s: Settings, id: Seq<char>)
    requires
        whole(registry_v(s)),
        table::lookup(s.models@, id) is Some,
    ensures
        providers::resolved(s, id) is Ok,
{
    let r = registry_v(s);
    table::lemma_slot(s.models@, id, 0);
    let i = table::slot(s.models@, id)->0;
    assert(r.models[i] == (s.models@[i].0, s.models@[i].1@));
    table::lemma_entries(s.providers@, s.models@[i].1.provider@, s.providers@[0].1);
    assert(table::lookup(r.providers, r.models[i].1.provider) is Some);
}

/// What is registered is found again as it was given, a key that is not given stays what
/// it was, and everything else stays; nothing is registered that lacks a part.
pub proof fn what_is_registered_is_found(
    r: RegistryV,
    id: Seq<char>,
    base_url: Seq<char>,
    api_key: Seq<char>,
    other: Seq<char>,
)
    requires
        table::ascending(r.providers),
    ensures
        with_provider(r, id, base_url, api_key) is Ok <==> id.len() > 0 && base_url.len() > 0 && (api_key.len()
            > 0 || table::lookup(r.providers, id) is Some),
        with_provider(r, id, base_url, api_key) matches Ok(n) ==> {
            &&& table::lookup(n.providers, id) is Some
            &&& (table::lookup(n.providers, id)->0).base_url == base_url
            &&& api_key.len() > 0 ==> (table::lookup(n.providers, id)->0).api_key == api_key
            &&& api_key.len() == 0 ==> (table::lookup(n.providers, id)->0).api_key == (table::lookup(
                r.providers,
                id,
            )->0).api_key
            &&& other != id ==> table::lookup(n.providers, other) == table::lookup(r.providers, other)
            &&& n.models == r.models && n.core == r.core && n.agents == r.agents
        },
{
    match with_provider(r, id, base_url, api_key) {
        Ok(n) => {
            let key = if api_key.len() > 0 {
                api_key
            } else {
                (table::lookup(r.providers, id)->0).api_key
            };
            table::inserting(r.providers, id, ProviderV { base_url, api_key: key });
        },
        Err(_) => {},
    }
}

/// A model is found again as it was given, with what was found out of its tools before.
pub proof fn registered_models_are_found(
    r: RegistryV,
    id: Seq<char>,
    name: Seq<char>,
    api_model: Seq<char>,
    provider: Seq<char>,
    note: Seq<char>,
    other: Seq<char>,
)
    requires
        table::ascending(r.models),
    ensures
        with_model(r, id, name, api_model, provider, note) is Ok <==> id.len() > 0 && name.len() > 0
            && api_model.len() > 0 && provider.len() > 0 && table::lookup(r.providers, provider) is Some,
        with_model(r, id, name, api_model, provider, note) matches Ok(n) ==> {
            &&& table::lookup(n.models, id) is Some
            &&& (table::lookup(n.models, id)->0).name == name
            &&& (table::lookup(n.models, id)->0).api_model == api_model
            &&& (table::lookup(n.models, id)->0).provider == provider
            &&& (table::lookup(n.models, id)->0).note == note
            &&& table::lookup(r.models, id) matches Some(m) ==> (table::lookup(n.models, id)->0).tools == m.tools
            &&& table::lookup(r.models, id) is None ==> (table::lookup(n.models, id)->0).tools
                == ToolMode::Envelope
            &&& other != id ==> table::lookup(n.models, other) == table::lookup(r.models, other)
            &&& n.providers == r.providers && n.core == r.core && n.agents == r.agents
        },
{
    let tools = match table::lookup(r.models, id) {
        Some(m) => m.tools,
        None => ToolMode::Envelope,
    };
    table::inserting(r.models, id, ModelV { name, api_model, provider, note, tools });
}

/// What is taken out is no longer found, and the rest is; what others need, and the
/// model of the core, stay.
pub proof fn only_what_nobody_needs_is_taken_out(r: RegistryV, id: Seq<char>, other: Seq<char>)
    requires
        table::ascending(r.providers),
        table::ascending(r.models),
    ensures
        without_provider(r, id) is Ok <==> forall|i: int|
            0 <= i < r.models.len() ==> (#[trigger] r.models[i]).1.provider != id,
        without_provider(r, id) matches Ok(n) ==> table::lookup(n.0.providers, id) is None && (n.1
            <==> table::lookup(r.providers, id) is Some) && (other != id ==> table::lookup(n.0.providers, other)
            == table::lookup(r.providers, other)) && n.0.models == r.models,
        without_model(r, id) is Ok <==> r.core != Some(id),
        without_model(r, id) matches Ok(n) ==> table::lookup(n.0.models, id) is None && (n.1 <==> table::lookup(
            r.models,
            id,
        ) is Some) && (other != id ==> table::lookup(n.0.models, other) == table::lookup(r.models, other))
            && n.0.providers == r.providers,
{
    table::removing(r.providers, id);
    table::removing(r.models, id);
    lemma_users(r.models, id, r.models.len() as int);
}

proof fn lemma_users(models: Seq<(Seq<char>, ModelV)>, provider: Seq<char>, n: int)
    requires
        0 <= n <= models.len(),
    ensures
        models_of(models, provider, n).len() == 0 <==> forall|i: int|
            0 <= i < n ==> (#[trigger] models[i]).1.provider != provider,
    decreases n,
{
    if n > 0 {
        lemma_users(models, provider, n - 1);
    }
}

/// An agent is found again with the modules, the model and the note it was given; it is
/// registered exactly where its name can stand, and its modules and its model are there.
pub proof fn registered_agents_are_found(
    r: RegistryV,
    ids: Seq<Seq<char>>,
    name: Seq<char>,
    modules: Seq<Seq<char>>,
    model: Seq<char>,
    note: Seq<char>,
    other: Seq<char>,
)
    requires
        table::ascending(r.agents),
    ensures
        with_agent(r, ids, name, modules, model, note) is Ok <==> agents::name_fault(name) is None
            && modules.len() > 0 && (forall|k: int| 0 <= k < modules.len() ==> ids.contains(#[trigger] modules[k]))
            && (model.len() > 0 ==> table::lookup(r.models, model) is Some),
        with_agent(r, ids, name, modules, model, note) matches Ok(n) ==> {
            &&& table::lookup(n.agents, name) is Some
            &&& (table::lookup(n.agents, name)->0).modules == modules
            &&& (table::lookup(n.agents, name)->0).note == note
            &&& model.len() == 0 ==> (table::lookup(n.agents, name)->0).model is None
            &&& model.len() > 0 ==> (table::lookup(n.agents, name)->0).model == Some(model)
            &&& other != name ==> table::lookup(n.agents, other) == table::lookup(r.agents, other)
            &&& n.models == r.models && n.providers == r.providers && n.core == r.core
        },
{
    let m = if model.len() == 0 {
        None
    } else {
        Some(model)
    };
    table::inserting(r.agents, name, AgentV { modules, model: m, note });
    lemma_all_known(modules, ids, 0);
}

proof fn lemma_all_known(ms: Seq<Seq<char>>, ids: Seq<Seq<char>>, i: int)
    requires
        0 <= i,
    ensures
        first_unknown(ms, ids, i) is None <==> forall|k: int| i <= k < ms.len() ==> ids.contains(#[trigger] ms[k]),
    decreases ms.len() - i,
{
    if i < ms.len() {
        lemma_all_known(ms, ids, i + 1);
    }
}

/// The core gets a model that is registered, and no other; a probe changes only what is
/// known of the tools of the model it was for.
pub proof fn probes_change_one_model(r: RegistryV, id: Seq<char>, o: ProbeOutcome, other: Seq<char>)
    requires
        table::ascending(r.models),
    ensures
        table::lookup(r.models, id) is Some ==> with_core(r, id).core == Some(id),
        table::lookup(r.models, id) is None ==> with_core(r, id) == r,
        o is Unknown || table::lookup(r.models, id) is None ==> with_probe(r, id, o) == r,
        table::lookup(r.models, id) matches Some(m) ==> ({
            let n = with_probe(r, id, o);
            &&& o is Supported ==> table::lookup(n.models, id) == Some(ModelV { tools: ToolMode::Native, ..m })
            &&& o is Unsupported ==> table::lookup(n.models, id) == Some(
                ModelV { tools: ToolMode::Envelope, ..m },
            )
            &&& other != id ==> table::lookup(n.models, other) == table::lookup(r.models, other)
            &&& n.core == r.core && n.providers == r.providers && n.agents == r.agents
        }),
{
    if table::lookup(r.models, id) is Some && mode_found(o) is Some {
        let m = table::lookup(r.models, id)->0;
        table::inserting(r.models, id, ModelV { tools: mode_found(o)->0, ..m });
    }
}

} // verus!
