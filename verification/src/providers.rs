//! The registry of providers and models, and how a model is resolved to a channel.
//! A provider is an endpoint with its key; a model belongs to a provider. Keys
//! leave the registry only inside a channel.
use crate::agents::Agents;
use crate::execution::Tier;
use crate::table::{self, Table};
use crate::text::{self, cat2, cat4, clone_strings, str_eq};
use vstd::prelude::*;

verus! {

/// What a test found of one way to send tool history back.
#[derive(Debug)]
pub struct ReplayShape {
    pub name: String,
    pub accepted: bool,
    pub understood: bool,
    pub detail: String,
}

/// The ways that were tested, in order; the first is the one in use.
#[derive(Debug)]
pub struct ReplayReport {
    pub shapes: Vec<ReplayShape>,
}

/// An endpoint with its key.
#[derive(Debug)]
pub struct Provider {
    pub base_url: String,
    pub api_key: String,
}

#[verifier::ext_equal]
pub struct ProviderV {
    pub base_url: Seq<char>,
    pub api_key: Seq<char>,
}

impl View for Provider {
    type V = ProviderV;

    open spec fn view(&self) -> ProviderV {
        ProviderV { base_url: self.base_url@, api_key: self.api_key@ }
    }
}

impl Provider {
    pub fn copy(&self) -> (r: Provider)
        ensures
            r == *self,
    {
        Provider { base_url: self.base_url.clone(), api_key: self.api_key.clone() }
    }
}

/// How a channel calls tools: by an envelope in the text, which any provider
/// can do, or natively.
#[derive(Debug, Clone, Copy, PartialEq, Eq, Structural)]
pub enum ToolMode {
    Envelope,
    Native,
}

impl Default for ToolMode {
    fn default() -> (r: ToolMode)
        ensures
            r == ToolMode::Envelope,
    {
        ToolMode::Envelope
    }
}

/// A model that can be used.
#[derive(Debug)]
pub struct ModelEntry {
    pub name: String,
    pub api_model: String,
    pub provider: String,
    pub note: String,
    pub tools: ToolMode,
}

#[verifier::ext_equal]
pub struct ModelV {
    pub name: Seq<char>,
    pub api_model: Seq<char>,
    pub provider: Seq<char>,
    pub note: Seq<char>,
    pub tools: ToolMode,
}

impl View for ModelEntry {
    type V = ModelV;

    open spec fn view(&self) -> ModelV {
        ModelV {
            name: self.name@,
            api_model: self.api_model@,
            provider: self.provider@,
            note: self.note@,
            tools: self.tools,
        }
    }
}

/// The basic settings.
#[derive(Debug)]
pub struct AppSettings {
    pub streaming: bool,
    pub show_reasoning: bool,
    /// The tier of a new session for which none was chosen.
    pub tier: Tier,
    /// Whether fences may change permissions on this machine.
    pub fence_write: bool,
    /// Directories that fences may read besides their own.
    pub fence_read: Vec<String>,
    pub llm_timeout_secs: u64,
    pub qemu_path: String,
}

impl Default for AppSettings {
    fn default() -> (r: AppSettings)
        ensures
            r.streaming,
            r.show_reasoning,
            r.tier == Tier::Host,
            !r.fence_write,
            r.fence_read@.len() == 0,
            r.llm_timeout_secs == 0,
            r.qemu_path@.len() == 0,
    {
        AppSettings {
            streaming: true,
            show_reasoning: true,
            tier: Tier::Host,
            fence_write: false,
            fence_read: Vec::new(),
            llm_timeout_secs: 0,
            qemu_path: String::new(),
        }
    }
}

impl AppSettings {
    pub fn copy(&self) -> (r: AppSettings)
        ensures
            r.streaming == self.streaming,
            r.show_reasoning == self.show_reasoning,
            r.tier == self.tier,
            r.fence_write == self.fence_write,
            r.fence_read@ == self.fence_read@,
            r.llm_timeout_secs == self.llm_timeout_secs,
            r.qemu_path == self.qemu_path,
    {
        AppSettings {
            streaming: self.streaming,
            show_reasoning: self.show_reasoning,
            tier: self.tier,
            fence_write: self.fence_write,
            fence_read: clone_strings(&self.fence_read),
            llm_timeout_secs: self.llm_timeout_secs,
            qemu_path: self.qemu_path.clone(),
        }
    }
}

/// The whole registry.
#[derive(Debug)]
pub struct Settings {
    pub providers: Table<Provider>,
    pub models: Table<ModelEntry>,
    /// The model the core uses by default.
    pub core: Option<String>,
    pub app: AppSettings,
    pub agents: Agents,
}

/// A channel ready to use.
#[derive(Debug)]
pub struct Channel {
    pub provider: Provider,
    pub model: String,
}

/// A provider as it is shown: without its key.
#[derive(Debug)]
pub struct ProviderView {
    pub id: String,
    pub base_url: String,
}

/// A model as it is shown.
#[derive(Debug)]
pub struct ModelView {
    pub id: String,
    pub name: String,
    pub api_model: String,
    pub provider: String,
    pub note: String,
    pub tools: ToolMode,
    pub is_core: bool,
}

/// The provider and the model's own name that a model id stands for, or which of
/// the two is missing.
pub open spec fn resolved(s: Settings, id: Seq<char>) -> Result<(Provider, Seq<char>), Seq<char>> {
    match table::lookup(s.models@, id) {
        None => Err("无此模型："@ + id),
        Some(m) => match table::lookup(s.providers@, m.provider@) {
            None => Err("模型 "@ + id + " 引用的供应商不存在："@ + m.provider@),
            Some(p) => Ok((p, m.api_model@)),
        },
    }
}

/// How an agent calls tools: by its own model, else by the core's, else by envelope.
pub open spec fn mode_for(s: Settings, model: Option<Seq<char>>) -> ToolMode {
    let id = match model {
        Some(m) => Some(m),
        None => text::opt_text(s.core),
    };
    match id {
        Some(i) => match table::lookup(s.models@, i) {
            Some(m) => m.tools,
            None => ToolMode::Envelope,
        },
        None => ToolMode::Envelope,
    }
}

impl Settings {
    /// The channel a model id stands for; nothing is guessed where one is missing.
    pub fn resolve(&self, model_id: &str) -> (r: Result<Channel, String>)
        ensures
            match r {
                Ok(c) => resolved(*self, model_id@) == Ok::<_, Seq<char>>((c.provider, c.model@)),
                Err(e) => resolved(*self, model_id@) == Err::<(Provider, Seq<char>), _>(e@),
            },
    {
        match self.models.get(model_id) {
            None => Err(cat2("无此模型：", model_id)),
            Some(m) => match self.providers.get(m.provider.as_str()) {
                None => Err(
                    cat4("模型 ", model_id, " 引用的供应商不存在：", m.provider.as_str()),
                ),
                Some(p) => Ok(Channel { provider: p.copy(), model: m.api_model.clone() }),
            },
        }
    }

    /// How an agent with this model calls tools.
    pub fn tool_mode_for(&self, model: Option<&str>) -> (r: ToolMode)
        ensures
            r == mode_for(
                *self,
                match model {
                    Some(m) => Some(m@),
                    None => None,
                },
            ),
    {
        let found = match model {
            Some(m) => self.models.get(m),
            None => match &self.core {
                Some(c) => self.models.get(c.as_str()),
                None => None,
            },
        };
        match found {
            Some(m) => m.tools,
            None => ToolMode::Envelope,
        }
    }

    /// The core's own channel, if its model is set and can be resolved.
    pub fn core_channel(&self) -> (r: Option<Channel>)
        ensures
            match r {
                Some(c) => self.core is Some && resolved(*self, self.core->0@) == Ok::<
                    _,
                    Seq<char>,
                >((c.provider, c.model@)),
                None => self.core is Some ==> resolved(*self, self.core->0@) is Err,
            },
    {
        match &self.core {
            Some(id) => match self.resolve(id.as_str()) {
                Ok(c) => Some(c),
                Err(_) => None,
            },
            None => None,
        }
    }

    /// The providers as they are shown.
    pub fn provider_views(&self) -> (r: Vec<ProviderView>)
        ensures
            r@.len() == self.providers@.len(),
            forall|i: int|
                0 <= i < r@.len() ==> (#[trigger] r@[i]).id@ == self.providers@[i].0
                    && r@[i].base_url@ == self.providers@[i].1.base_url@,
    {
        let mut r: Vec<ProviderView> = Vec::new();
        let mut i: usize = 0;
        while i < self.providers.len()
            invariant
                i <= self.providers@.len(),
                r@.len() == i,
                forall|k: int|
                    0 <= k < i ==> (#[trigger] r@[k]).id@ == self.providers@[k].0
                        && r@[k].base_url@ == self.providers@[k].1.base_url@,
            decreases self.providers@.len() - i,
        {
            r.push(
                ProviderView {
                    id: self.providers.key_at(i).to_owned(),
                    base_url: self.providers.value_at(i).base_url.clone(),
                },
            );
            i = i + 1;
        }
        r
    }

    /// The models as they are shown.
    pub fn model_views(&self) -> (r: Vec<ModelView>)
        ensures
            r@.len() == self.models@.len(),
            forall|i: int| 0 <= i < r@.len() ==> shows(*self, i, #[trigger] r@[i]),
    {
        let mut r: Vec<ModelView> = Vec::new();
        let mut i: usize = 0;
        while i < self.models.len()
            invariant
                i <= self.models@.len(),
                r@.len() == i,
                forall|k: int| 0 <= k < i ==> shows(*self, k, #[trigger] r@[k]),
            decreases self.models@.len() - i,
        {
            let id = self.models.key_at(i);
            let m = self.models.value_at(i);
            let is_core = match &self.core {
                Some(c) => str_eq(c.as_str(), id),
                None => false,
            };
            r.push(
                ModelView {
                    id: id.to_owned(),
                    name: m.name.clone(),
                    api_model: m.api_model.clone(),
                    provider: m.provider.clone(),
                    note: m.note.clone(),
                    tools: m.tools,
                    is_core,
                },
            );
            i = i + 1;
        }
        r
    }
}

/// Whether a view shows the model at `i`.
pub open spec fn shows(s: Settings, i: int, v: ModelView) -> bool {
    let m = s.models@[i].1;
    &&& v.id@ == s.models@[i].0
    &&& v.name@ == m.name@
    &&& v.api_model@ == m.api_model@
    &&& v.provider@ == m.provider@
    &&& v.note@ == m.note@
    &&& v.tools == m.tools
    &&& v.is_core == (text::opt_text(s.core) == Some(s.models@[i].0))
}

/// A model is asked in the way that was found for it, or for the core's model where none
/// is named; one that is not known is asked in words.
pub proof fn models_are_asked_as_they_can(s: Settings, model: Option<Seq<char>>)
    ensures
        model matches Some(m) ==> (table::lookup(s.models@, m) matches Some(e) ==> mode_for(s, model) == e.tools),
        model matches Some(m) ==> (table::lookup(s.models@, m) is None ==> mode_for(s, model)
            == ToolMode::Envelope),
        model is None && s.core is None ==> mode_for(s, model) == ToolMode::Envelope,
        model is None && s.core is Some ==> mode_for(s, model) == mode_for(s, Some((s.core->0)@)),
{
}

/// A model leads to its provider and to the name it has there.
pub proof fn models_lead_to_their_providers(s: Settings, id: Seq<char>)
    ensures
        resolved(s, id) matches Ok(x) ==> table::lookup(s.models@, id) is Some && x.1 == (table::lookup(
            s.models@,
            id,
        )->0).api_model@ && table::lookup(s.providers@, (table::lookup(s.models@, id)->0).provider@) == Some(x.0),
        resolved(s, id) is Err <==> table::lookup(s.models@, id) is None || table::lookup(
            s.providers@,
            (table::lookup(s.models@, id)->0).provider@,
        ) is None,
{
}

} // verus!
