//! The record of a session and how it is listed.
use crate::execution::{ExecSpec, ExecSpecV};
use crate::text::{self, clone_opt, clone_strings};
use vstd::prelude::*;

verus! {

/// An agent of a session.
#[derive(Debug)]
pub struct AgentMeta {
    pub name: String,
    /// Whether it comes from no registry.
    pub transient: bool,
    pub modules: Vec<String>,
    pub model: Option<String>,
}

pub struct AgentMetaV {
    pub name: Seq<char>,
    pub transient: bool,
    pub modules: Seq<Seq<char>>,
    pub model: Option<Seq<char>>,
}

impl View for AgentMeta {
    type V = AgentMetaV;

    open spec fn view(&self) -> AgentMetaV {
        AgentMetaV {
            name: self.name@,
            transient: self.transient,
            modules: text::texts(self.modules@),
            model: text::opt_text(self.model),
        }
    }
}

pub open spec fn agents_v(v: Seq<AgentMeta>) -> Seq<AgentMetaV> {
    v.map_values(|a: AgentMeta| a@)
}

impl AgentMeta {
    pub fn copy(&self) -> (r: AgentMeta)
        ensures
            r@ == self@,
    {
        AgentMeta {
            name: self.name.clone(),
            transient: self.transient,
            modules: clone_strings(&self.modules),
            model: clone_opt(&self.model),
        }
    }
}

pub fn copy_agents(v: &Vec<AgentMeta>) -> (r: Vec<AgentMeta>)
    ensures
        agents_v(r@) == agents_v(v@),
{
    let mut r: Vec<AgentMeta> = Vec::new();
    let mut i: usize = 0;
    while i < v.len()
        invariant
            i <= v@.len(),
            r@.len() == i,
            forall|k: int| 0 <= k < i ==> (#[trigger] r@[k])@ == v@[k]@,
        decreases v@.len() - i,
    {
        r.push(v[i].copy());
        i = i + 1;
    }
    assert(agents_v(r@) =~= agents_v(v@));
    r
}

/// The names of the agents.
pub open spec fn agent_names(v: Seq<AgentMetaV>) -> Seq<Seq<char>> {
    v.map_values(|a: AgentMetaV| a.name)
}

/// The modules of all agents, agent by agent.
pub open spec fn flat_modules(v: Seq<AgentMetaV>) -> Seq<Seq<char>>
    decreases v.len(),
{
    if v.len() == 0 {
        Seq::empty()
    } else {
        flat_modules(v.drop_last()) + v.last().modules
    }
}

pub fn names_of_agents(v: &Vec<AgentMeta>) -> (r: Vec<String>)
    ensures
        text::texts(r@) == agent_names(agents_v(v@)),
{
    let mut r: Vec<String> = Vec::new();
    let mut i: usize = 0;
    while i < v.len()
        invariant
            i <= v@.len(),
            r@.len() == i,
            forall|k: int| 0 <= k < i ==> (#[trigger] r@[k])@ == v@[k].name@,
        decreases v@.len() - i,
    {
        r.push(v[i].name.clone());
        i = i + 1;
    }
    assert(text::texts(r@) =~= agent_names(agents_v(v@)));
    r
}

pub fn modules_of_agents(v: &Vec<AgentMeta>) -> (r: Vec<String>)
    ensures
        text::texts(r@) == flat_modules(agents_v(v@)),
{
    let mut r: Vec<String> = Vec::new();
    let mut i: usize = 0;
    let ghost av = agents_v(v@);
    assert(text::texts(r@) =~= flat_modules(av.take(0)));
    while i < v.len()
        invariant
            i <= v@.len(),
            av == agents_v(v@),
            text::texts(r@) == flat_modules(av.take(i as int)),
        decreases v@.len() - i,
    {
        let mut m = clone_strings(&v[i].modules);
        let ghost prev = r@;
        let ghost mv = m@;
        r.append(&mut m);
        proof {
            text::lemma_texts_add(prev, mv);
            assert(av.take(i + 1).drop_last() =~= av.take(i as int));
            assert(av.take(i + 1).last() == v@[i as int]@);
        }
        i = i + 1;
    }
    assert(av.take(av.len() as int) =~= av);
    r
}

/// What is recorded of a session when it is created.
#[derive(Debug)]
pub struct SessionMeta {
    pub name: String,
    pub mode: String,
    /// Whether the team was left to the core to draft.
    pub delegate: bool,
    pub modules: Vec<String>,
    pub task: Option<String>,
    pub ts: i64,
    pub agents: Vec<AgentMeta>,
    pub exec_spec: ExecSpec,
    /// The session that arranged this one, whose directories it shares.
    pub parent: Option<String>,
    /// The task node it serves.
    pub node: Option<String>,
}

pub struct SessionMetaV {
    pub name: Seq<char>,
    pub mode: Seq<char>,
    pub delegate: bool,
    pub modules: Seq<Seq<char>>,
    pub task: Option<Seq<char>>,
    pub ts: i64,
    pub agents: Seq<AgentMetaV>,
    pub exec_spec: ExecSpecV,
    pub parent: Option<Seq<char>>,
    pub node: Option<Seq<char>>,
}

impl View for SessionMeta {
    type V = SessionMetaV;

    open spec fn view(&self) -> SessionMetaV {
        SessionMetaV {
            name: self.name@,
            mode: self.mode@,
            delegate: self.delegate,
            modules: text::texts(self.modules@),
            task: text::opt_text(self.task),
            ts: self.ts,
            agents: agents_v(self.agents@),
            exec_spec: self.exec_spec@,
            parent: text::opt_text(self.parent),
            node: text::opt_text(self.node),
        }
    }
}

impl SessionMeta {
    /// The session whose directories this one works in.
    pub fn work(&self) -> (r: &str)
        ensures
            r@ == match self@.parent {
                Some(p) => p,
                None => self@.name,
            },
    {
        match &self.parent {
            Some(p) => p.as_str(),
            None => self.name.as_str(),
        }
    }

    pub fn copy(&self) -> (r: SessionMeta)
        ensures
            r@ == self@,
    {
        SessionMeta {
            name: self.name.clone(),
            mode: self.mode.clone(),
            delegate: self.delegate,
            modules: clone_strings(&self.modules),
            task: clone_opt(&self.task),
            ts: self.ts,
            agents: copy_agents(&self.agents),
            exec_spec: self.exec_spec.copy(),
            parent: clone_opt(&self.parent),
            node: clone_opt(&self.node),
        }
    }
}

/// A session in the list of past ones.
#[derive(Debug)]
pub struct HistoryView {
    pub name: String,
    pub mode: String,
    pub ts: i64,
    pub done: bool,
    pub exec_spec: ExecSpec,
    pub parent: Option<String>,
}

} // verus!
