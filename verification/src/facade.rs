//! What the core is asked for from outside: works are made and changed, the registry
//! is kept. What is read and written for it is handed in and comes back.
use crate::agents::{self, AgentV, AgentView};
use crate::desk::{self, Core, DeskV};
use crate::execution::{self, Diagnosis, ExecPlan, ExecSpec, diagnose_text, plan};
use crate::history::{SessionMeta, SessionMetaV};
use crate::module::{Module, Roster};
use crate::packages::Library;
use crate::ports::{self, Msg, ProbeOutcome};
use crate::prompt;
use crate::providers::{self, Channel, ModelView, ProviderView};
use crate::registry::{self, RegistryV};
use crate::suggest::{self, ask_suggestions};
use crate::table;
use crate::text;
use crate::views::{self, session_modules};
use crate::work::{self, Machine, SessionEdit, WorkMode, WorkSpec, new_record};
use vstd::prelude::*;

verus! {

/// Whether a change comes to this: a record and the plan of its tier, or why the
/// tier cannot be had as chosen.
pub open spec fn planned_for(
    m: SessionMetaV,
    modules: Seq<Module>,
    lib: Library,
    r: Result<(SessionMeta, ExecPlan), String>,
) -> bool {
    exists|s: ExecSpec, p: Result<ExecPlan, Vec<Diagnosis>>|
        s@ == m.exec_spec && #[trigger] execution::plans_to(
            s,
            views::among(modules, m.modules, modules.len() as int),
            lib,
            p,
        ) && match r {
            Ok(x) => x.0@ == m && p == Ok::<ExecPlan, Vec<Diagnosis>>(x.1),
            Err(e) => p is Err && e@ == text::joined(execution::diagnosis_texts(execution::diags_v((p->Err_0)@)), "；"@),
        }
}

impl Core {
    // ---- works ----

    /// Makes the record of a new work and the plan of its tier, or says what is wrong
    /// with it. Its name must belong to no session on the desk and to none that was
    /// recorded; a choice of packages that does not hold is refused before anything
    /// is made.
    pub fn create_work(
        &self,
        w: &WorkSpec,
        recorded: bool,
        modules: Roster,
        lib: &Library,
        machine: Machine,
        ts: i64,
    ) -> (r: Result<(SessionMeta, ExecPlan), String>)
        ensures
            ({
                let fault = work::work_fault(
                    *w,
                    desk::held(self.desk(), w.name@) is Some || recorded,
                    agents::module_ids(modules.modules@),
                    self.settings,
                    machine,
                );
                if fault is Some {
                    r matches Err(e) && fault == Some(e@)
                } else {
                    planned_for(work::work_record(*w, self.settings, ts), modules.modules@, *lib, r)
                }
            }),
    {
        let there = self.session_exists(w.name.as_str()) || recorded;
        let ghost mv = modules.modules@;
        let ghost want = work::work_record(*w, self.settings, ts);
        let m = match new_record(w, there, &modules, &self.settings, machine, ts) {
            Ok(m) => m,
            Err(e) => {
                return Err(e);
            },
        };
        assert(m@ == want);
        let used = session_modules(modules.modules, &m.modules);
        let p = plan(&m.exec_spec, &used, lib);
        assert(m.exec_spec@ == want.exec_spec);
        assert(execution::plans_to(m.exec_spec, views::among(mv, want.modules, mv.len() as int), *lib, p));
        match p {
            Ok(x) => {
                let r = Ok::<(SessionMeta, ExecPlan), String>((m, x));
                assert(planned_for(want, mv, *lib, r));
                r
            },
            Err(d) => {
                let r = Err::<(SessionMeta, ExecPlan), String>(diagnose_text(&d));
                assert(planned_for(want, mv, *lib, r));
                r
            },
        }
    }

    /// Changes a work: the new record, and the plan of its tier. One at work is not
    /// changed. What was on the desk was built from the old record, so it is taken
    /// off; it is built anew when next asked for.
    pub fn edit_session(
        &mut self,
        sid: &str,
        meta: &SessionMeta,
        started: bool,
        edit: SessionEdit,
        modules: Roster,
        lib: &Library,
        machine: Machine,
    ) -> (r: Result<(SessionMeta, ExecPlan), String>)
        ensures
            ({
                let fault = work::edit_fault(
                    meta@,
                    started,
                    edit,
                    agents::module_ids(modules.modules@),
                    old(self).settings,
                    machine,
                );
                if desk::busy(old(self).desk(), sid@) {
                    r matches Err(e) && e@ == desk::busy_text(sid@)
                } else if fault is Some {
                    r matches Err(e) && fault == Some(e@)
                } else {
                    planned_for(
                        work::edited_record(meta@, edit, old(self).settings),
                        modules.modules@,
                        *lib,
                        r,
                    )
                }
            }),
            final(self).desk() == if r is Ok {
                DeskV { sessions: table::removed(old(self).desk().sessions, sid@), ..old(self).desk() }
            } else {
                old(self).desk()
            },
            final(self).same_books(*old(self)),
    {
        match self.refuse_busy(sid) {
            Some(e) => {
                return Err(e);
            },
            None => {},
        }
        let ghost mv = modules.modules@;
        let ghost want = work::edited_record(meta@, edit, self.settings);
        let m = match crate::work::edit_session(
            meta,
            started,
            edit,
            &modules,
            &self.settings,
            machine,
        ) {
            Ok(m) => m,
            Err(e) => {
                return Err(e);
            },
        };
        assert(m@ == want);
        let used = session_modules(modules.modules, &m.modules);
        let p = plan(&m.exec_spec, &used, lib);
        assert(m.exec_spec@ == want.exec_spec);
        assert(execution::plans_to(m.exec_spec, views::among(mv, want.modules, mv.len() as int), *lib, p));
        match p {
            Ok(x) => {
                self.sessions.remove(sid);
                let r = Ok::<(SessionMeta, ExecPlan), String>((m, x));
                assert(planned_for(want, mv, *lib, r));
                r
            },
            Err(d) => {
                let r = Err::<(SessionMeta, ExecPlan), String>(diagnose_text(&d));
                assert(planned_for(want, mv, *lib, r));
                r
            },
        }
    }

    /// Asks the core which agents to take for a task.
    pub fn suggest_models(&self, modules: &Roster, task: &str, mode: WorkMode) -> (r: Result<
        (Channel, Vec<Msg>),
        String,
    >)
        requires
            prompt::book_sound(self.prompts),
        ensures
            match r {
                Ok(a) => suggest::suggest_fault(self.settings) is None && providers::resolved(
                    self.settings,
                    self.settings.core->0@,
                ) == Ok::<_, Seq<char>>((a.0.provider, a.0.model@)) && ports::msgs_v(a.1@)
                    == suggest::suggest_request(self.prompts, self.settings, modules.modules@, task@, mode),
                Err(e) => suggest::suggest_fault(self.settings) == Some(e@),
            },
    {
        ask_suggestions(&self.prompts, &self.settings, modules, task, mode)
    }

    // ---- the registry ----

    pub fn provider_views(&self) -> (r: Vec<ProviderView>)
        ensures
            r@.len() == self.settings.providers@.len(),
            forall|i: int|
                0 <= i < r@.len() ==> (#[trigger] r@[i]).id@ == self.settings.providers@[i].0
                    && r@[i].base_url@ == self.settings.providers@[i].1.base_url@,
    {
        self.settings.provider_views()
    }

    pub fn model_views(&self) -> (r: Vec<ModelView>)
        ensures
            r@.len() == self.settings.models@.len(),
            forall|i: int| 0 <= i < r@.len() ==> providers::shows(self.settings, i, #[trigger] r@[i]),
    {
        self.settings.model_views()
    }

    pub fn agent_views(&self) -> (r: Vec<AgentView>)
        ensures
            r@.len() == self.settings.agents@.len(),
            forall|i: int|
                0 <= i < r@.len() ==> (#[trigger] r@[i]).name@ == self.settings.agents@[i].0 && (
                AgentV {
                    modules: text::texts(r@[i].modules@),
                    model: text::opt_text(r@[i].model),
                    note: r@[i].note@,
                }) == self.settings.agents@[i].1@,
    {
        self.settings.agent_views()
    }

    /// Registers a provider, or changes one.
    pub fn provider_upsert(&mut self, id: &str, base_url: &str, api_key: &str) -> (r: Result<
        (),
        String,
    >)
        ensures
            registry::with_provider(registry::registry_v(old(self).settings), id@, base_url@, api_key@) == (match r {
                Ok(_) => Ok::<RegistryV, Seq<char>>(registry::registry_v(final(self).settings)),
                Err(e) => Err::<RegistryV, Seq<char>>(e@),
            }),
            r is Err ==> *final(self) == *old(self),
            only_registry(*old(self), *final(self)),
    {
        self.settings.provider_upsert(id, base_url, api_key)
    }

    /// Takes a provider out, unless a model belongs to it; whether it was there.
    pub fn provider_remove(&mut self, id: &str) -> (r: Result<bool, String>)
        ensures
            registry::without_provider(registry::registry_v(old(self).settings), id@) == (match r {
                Ok(b) => Ok::<(RegistryV, bool), Seq<char>>((registry::registry_v(final(self).settings), b)),
                Err(e) => Err::<(RegistryV, bool), Seq<char>>(e@),
            }),
            r is Err ==> *final(self) == *old(self),
            only_registry(*old(self), *final(self)),
    {
        self.settings.provider_remove(id)
    }

    /// Registers a model, or changes one.
    pub fn model_upsert(
        &mut self,
        id: &str,
        name: &str,
        api_model: &str,
        provider: &str,
        note: &str,
    ) -> (r: Result<(), String>)
        ensures
            registry::with_model(
                registry::registry_v(old(self).settings),
                id@,
                name@,
                api_model@,
                provider@,
                note@,
            ) == (match r {
                Ok(_) => Ok::<RegistryV, Seq<char>>(registry::registry_v(final(self).settings)),
                Err(e) => Err::<RegistryV, Seq<char>>(e@),
            }),
            r is Err ==> *final(self) == *old(self),
            only_registry(*old(self), *final(self)),
    {
        self.settings.model_upsert(id, name, api_model, provider, note)
    }

    /// Takes a model out, unless it is the core's; whether it was there.
    pub fn model_remove(&mut self, id: &str) -> (r: Result<bool, String>)
        ensures
            registry::without_model(registry::registry_v(old(self).settings), id@) == (match r {
                Ok(b) => Ok::<(RegistryV, bool), Seq<char>>((registry::registry_v(final(self).settings), b)),
                Err(e) => Err::<(RegistryV, bool), Seq<char>>(e@),
            }),
            r is Err ==> *final(self) == *old(self),
            only_registry(*old(self), *final(self)),
    {
        self.settings.model_remove(id)
    }

    /// Sets the core's model; whether there is one such.
    pub fn core_set_model(&mut self, id: &str) -> (r: bool)
        ensures
            registry::registry_v(final(self).settings) == registry::with_core(registry::registry_v(old(self).settings), id@),
            r == (table::lookup(registry::registry_v(old(self).settings).models, id@) is Some),
            only_registry(*old(self), *final(self)),
    {
        self.settings.core_set_model(id)
    }

    /// Takes what a test of a model found; whether the registry changed.
    pub fn probe_model_tools(&mut self, id: &str, found: &ProbeOutcome) -> (r: bool)
        ensures
            registry::registry_v(final(self).settings) == registry::with_probe(
                registry::registry_v(old(self).settings),
                id@,
                *found,
            ),
            r == match (registry::mode_found(*found), table::lookup(registry::registry_v(old(self).settings).models, id@)) {
                (Some(tools), Some(m)) => m.tools != tools,
                _ => false,
            },
            only_registry(*old(self), *final(self)),
    {
        self.settings.take_probe(id, found)
    }

    /// Registers an agent, or changes one.
    pub fn agent_upsert(
        &mut self,
        modules: &Roster,
        name: &str,
        module_ids: &Vec<String>,
        model: &str,
        note: &str,
    ) -> (r: Result<(), String>)
        ensures
            registry::with_agent(
                registry::registry_v(old(self).settings),
                agents::module_ids(modules.modules@),
                name@,
                text::texts(module_ids@),
                model@,
                note@,
            ) == (match r {
                Ok(_) => Ok::<RegistryV, Seq<char>>(registry::registry_v(final(self).settings)),
                Err(e) => Err::<RegistryV, Seq<char>>(e@),
            }),
            r is Err ==> *final(self) == *old(self),
            only_registry(*old(self), *final(self)),
    {
        self.settings.agent_upsert(modules, name, module_ids, model, note)
    }

    /// Takes an agent out; whether it was there.
    pub fn agent_remove(&mut self, name: &str) -> (r: bool)
        ensures
            registry::registry_v(final(self).settings) == (RegistryV {
                agents: table::removed(registry::registry_v(old(self).settings).agents, name@),
                ..registry::registry_v(old(self).settings)
            }),
            r == (table::lookup(registry::registry_v(old(self).settings).agents, name@) is Some),
            only_registry(*old(self), *final(self)),
    {
        self.settings.agent_remove(name)
    }
}

/// Whether a core differs from another in its registry alone.
pub open spec fn only_registry(a: Core, b: Core) -> bool {
    &&& a.settings.app == b.settings.app
    &&& a.prompts == b.prompts
    &&& a.desk() == b.desk()
}

} // verus!
