//! Modules: what a module says of itself, and how an agent is told of its modules.
use crate::packages::{self, valid_capability};
use crate::prompt::{self, Prompts, ToolTexts, fill2, fill3, fill6};
use crate::providers::ToolMode;
use crate::schema::{self, Param, SchemaV, ToolSchema, copy_params};
use crate::systool::{self, is_builtin};
use crate::table::Table;
use crate::text::{self, cat2, cat3, cat4, has_text, is_blank, join, trim};
use crate::workspace::RealPath;
use vstd::prelude::*;

verus! {

/// A tool of a module: how it is started, and what it takes (if it says so).
#[derive(Debug)]
pub struct ToolDecl {
    pub command: String,
    pub desc: String,
    pub params: Option<Table<Param>>,
    /// Whether calls may run side by side.
    pub parallel: bool,
}

/// What a module says of itself.
#[derive(Debug)]
pub struct ModuleManifest {
    pub id: String,
    pub brief: String,
    pub system: String,
    /// The capabilities its tools need to run.
    pub runtimes: Vec<String>,
    pub tools: Table<ToolDecl>,
}

/// A module: where it is and what it says of itself.
#[derive(Debug)]
pub struct Module {
    pub manifest: ModuleManifest,
    pub root: RealPath,
}

/// The modules there are, and why others were refused.
#[derive(Debug)]
pub struct Roster {
    pub modules: Vec<Module>,
    pub rejected: Vec<String>,
}

/// The contract of a tool that declares its parameters.
pub open spec fn tool_schema(d: ToolDecl) -> Option<SchemaV> {
    match d.params {
        Some(p) => Some(
            SchemaV {
                desc: d.desc@,
                params: Some(schema::table_v(p@)),
                parallel: d.parallel,
                capability: Seq::empty(),
            },
        ),
        None => None,
    }
}

impl ToolDecl {
    /// The contract of the tool; none where it declares no parameters, and then
    /// nothing is checked.
    pub fn schema(&self) -> (r: Option<ToolSchema>)
        ensures
            match r {
                Some(s) => tool_schema(*self) == Some(s@),
                None => tool_schema(*self) is None,
            },
    {
        match &self.params {
            Some(p) => Some(
                ToolSchema {
                    desc: self.desc.clone(),
                    params: Some(copy_params(p)),
                    parallel: self.parallel,
                    capability: String::new(),
                },
            ),
            None => None,
        }
    }
}


// ---- checks ----

/// The first fault of the capabilities a module declares, from the `i`th on.
pub open spec fn runtimes_fault(v: Seq<Seq<char>>, i: int) -> Option<Seq<char>>
    decreases v.len() - i,
{
    if i < 0 || i >= v.len() {
        None
    } else if !packages::is_capability(v[i]) {
        Some(
            "runtimes 里的能力名不合法："@ + v[i]
                + "（只允许小写字母、数字、- _ .，且以字母或数字开头）"@,
        )
    } else if v.take(i).contains(v[i]) {
        Some("runtimes 里重复声明了："@ + v[i])
    } else {
        runtimes_fault(v, i + 1)
    }
}

/// Checks the capabilities a module declares.
pub fn check_runtimes(m: &ModuleManifest) -> (r: Result<(), String>)
    ensures
        match r {
            Ok(_) => runtimes_fault(text::texts(m.runtimes@), 0) is None,
            Err(e) => runtimes_fault(text::texts(m.runtimes@), 0) == Some(e@),
        },
{
    let ghost v = text::texts(m.runtimes@);
    let mut seen: Vec<String> = Vec::new();
    let mut i: usize = 0;
    assert(text::texts(seen@) =~= v.take(0));
    while i < m.runtimes.len()
        invariant
            i <= m.runtimes@.len(),
            v == text::texts(m.runtimes@),
            text::texts(seen@) == v.take(i as int),
            runtimes_fault(v, 0) == runtimes_fault(v, i as int),
        decreases m.runtimes@.len() - i,
    {
        let c = m.runtimes[i].as_str();
        assert(v[i as int] == c@);
        if !valid_capability(c) {
            return Err(
                cat3(
                    "runtimes 里的能力名不合法：",
                    c,
                    "（只允许小写字母、数字、- _ .，且以字母或数字开头）",
                ),
            );
        }
        if has_text(&seen, c) {
            return Err(cat2("runtimes 里重复声明了：", c));
        }
        let ghost prev = seen@;
        seen.push(m.runtimes[i].clone());
        proof {
            text::lemma_texts_push(prev, seen@.last());
            assert(text::texts(seen@) =~= v.take(i + 1));
        }
        i = i + 1;
    }
    Ok(())
}

/// The first fault of the tools a module declares, from the `i`th on.
pub open spec fn tools_fault(t: Seq<(Seq<char>, ToolDecl)>, i: int) -> Option<Seq<char>>
    decreases t.len() - i,
{
    if i < 0 || i >= t.len() {
        None
    } else if systool::builtin(t[i].0) {
        Some("tools 里的 "@ + t[i].0 + " 是核心内置工具名（保留名），模块不得占用"@)
    } else if text::trimmed(t[i].1.command@).len() == 0 {
        Some("tools 里的 "@ + t[i].0 + " 没写 command（启动命令）"@)
    } else {
        tools_fault(t, i + 1)
    }
}

/// Checks the tools a module declares: the names of the built-in tools are taken.
pub fn check_tools(m: &ModuleManifest) -> (r: Result<(), String>)
    ensures
        match r {
            Ok(_) => tools_fault(m.tools@, 0) is None,
            Err(e) => tools_fault(m.tools@, 0) == Some(e@),
        },
{
    let mut i: usize = 0;
    while i < m.tools.len()
        invariant
            i <= m.tools@.len(),
            tools_fault(m.tools@, 0) == tools_fault(m.tools@, i as int),
        decreases m.tools@.len() - i,
    {
        let name = m.tools.key_at(i);
        if is_builtin(name) {
            return Err(
                cat3("tools 里的 ", name, " 是核心内置工具名（保留名），模块不得占用"),
            );
        }
        if is_blank(m.tools.value_at(i).command.as_str()) {
            return Err(cat3("tools 里的 ", name, " 没写 command（启动命令）"));
        }
        i = i + 1;
    }
    Ok(())
}

// ---- what an agent is told of its modules ----

/// The parts the modules add to an agent's prompt.
pub open spec fn module_parts(v: Seq<(Seq<char>, Seq<char>)>) -> Seq<Seq<char>> {
    v.map_values(|m: (Seq<char>, Seq<char>)| "\n== "@ + m.0 + " ==\n"@ + text::trimmed(m.1))
}

pub open spec fn packs_v(v: Seq<(String, String)>) -> Seq<(Seq<char>, Seq<char>)> {
    v.map_values(|m: (String, String)| (m.0@, m.1@))
}

/// What the modules bring: their ids and what each has to say.
pub open spec fn packs_of(v: Seq<Module>) -> Seq<(Seq<char>, Seq<char>)> {
    v.map_values(|m: Module| (m.manifest.id@, m.manifest.system@))
}

/// The ids and the prompts of modules.
pub fn packs(modules: &Vec<Module>) -> (r: Vec<(String, String)>)
    ensures
        packs_v(r@) == packs_of(modules@),
{
    let mut r: Vec<(String, String)> = Vec::new();
    let mut i: usize = 0;
    while i < modules.len()
        invariant
            i <= modules@.len(),
            r@.len() == i,
            forall|k: int|
                0 <= k < i ==> (#[trigger] r@[k]).0@ == modules@[k].manifest.id@ && r@[k].1@
                    == modules@[k].manifest.system@,
        decreases modules@.len() - i,
    {
        r.push((modules[i].manifest.id.clone(), modules[i].manifest.system.clone()));
        i = i + 1;
    }
    assert(packs_v(r@) =~= packs_of(modules@));
    r
}

pub open spec fn calling_text(p: Prompts, mode: ToolMode) -> Seq<char> {
    match mode {
        ToolMode::Native => p.core.tool_calling_native@,
        ToolMode::Envelope => p.core.tool_calling_envelope@,
    }
}

/// The system prompt of an agent.
pub open spec fn system_text(
    p: Prompts,
    agent: Seq<char>,
    parts: Seq<(Seq<char>, Seq<char>)>,
    sys_tools: Seq<char>,
    tools: Seq<char>,
    params: Seq<char>,
    mode: ToolMode,
) -> Seq<char> {
    prompt::filled(
        p.core.agent.system@,
        seq![
            ("agent"@, agent),
            ("modules"@, text::joined(module_parts(parts), Seq::empty())),
            ("sys_tools"@, sys_tools),
            ("module_tools"@, tools),
            ("module_tool_params"@, params),
            ("tool_calling"@, calling_text(p, mode)),
        ],
    )
}

/// The system prompt of an agent, put together from what its modules bring and
/// what it is told of its tools.
pub fn system_prompt(
    prompts: &Prompts,
    agent: &str,
    parts: &Vec<(String, String)>,
    sys_tools: &str,
    tools: &str,
    params: &str,
    mode: ToolMode,
) -> (r: String)
    requires
        prompt::book_sound(*prompts),
    ensures
        r@ == system_text(*prompts, agent@, packs_v(parts@), sys_tools@, tools@, params@, mode),
{
    let ghost all = module_parts(packs_v(parts@));
    let mut ls: Vec<String> = Vec::new();
    let mut i: usize = 0;
    while i < parts.len()
        invariant
            i <= parts@.len(),
            all == module_parts(packs_v(parts@)),
            text::texts(ls@) == all.take(i as int),
        decreases parts@.len() - i,
    {
        let l = cat4("\n== ", parts[i].0.as_str(), " ==\n", trim(parts[i].1.as_str()).as_str());
        let ghost prev = ls@;
        ls.push(l);
        proof {
            text::lemma_texts_push(prev, l);
            assert(all[i as int] == l@);
            assert(text::texts(ls@) =~= all.take(i + 1));
        }
        i = i + 1;
    }
    assert(all.take(all.len() as int) =~= all);
    let modules = join(&ls, "");
    proof {
        reveal_strlit("");
        assert(""@ =~= Seq::<char>::empty());
    }
    let calling = match mode {
        ToolMode::Native => prompts.core.tool_calling_native.as_str(),
        ToolMode::Envelope => prompts.core.tool_calling_envelope.as_str(),
    };
    fill6(
        prompts.core.agent.system.as_str(),
        "agent",
        agent,
        "modules",
        modules.as_str(),
        "sys_tools",
        sys_tools,
        "module_tools",
        tools,
        "module_tool_params",
        params,
        "tool_calling",
        calling,
    )
}

/// The system prompt of an agent with its modules, and with the tools of theirs.
pub fn agent_system(
    prompts: &Prompts,
    agent: &str,
    modules: &Vec<Module>,
    sys_tools: &str,
    mode: ToolMode,
) -> (r: String)
    requires
        prompt::book_sound(*prompts),
    ensures
        r@ == system_text(
            *prompts,
            agent@,
            packs_of(modules@),
            sys_tools@,
            module_tools_text(*prompts, modules@),
            tool_params_text(*prompts, modules@),
            mode,
        ),
{
    system_prompt(
        prompts,
        agent,
        &packs(modules),
        sys_tools,
        module_tools(prompts, modules).as_str(),
        module_tool_params(prompts, modules).as_str(),
        mode,
    )
}

/// The signatures of the first `n` tools that declare their parameters.
pub open spec fn signatures_of(
    t: ToolTexts,
    id: Seq<char>,
    tools: Seq<(Seq<char>, ToolDecl)>,
    n: int,
) -> Seq<Seq<char>>
    decreases n,
{
    if n <= 0 {
        Seq::empty()
    } else {
        let prev = signatures_of(t, id, tools, n - 1);
        match tool_schema(tools[n - 1].1) {
            Some(s) => prev.push(
                prompt::filled(
                    t.module_tool_params_line@,
                    seq![
                        ("module"@, id),
                        ("tool"@, tools[n - 1].0),
                        ("signature"@, schema::rendered(s)),
                    ],
                ),
            ),
            None => prev,
        }
    }
}

/// The signatures of the tools of the first `n` modules.
pub open spec fn all_signatures(t: ToolTexts, v: Seq<Module>, n: int) -> Seq<Seq<char>>
    decreases n,
{
    if n <= 0 {
        Seq::empty()
    } else {
        let m = v[n - 1].manifest;
        all_signatures(t, v, n - 1) + signatures_of(t, m.id@, m.tools@, m.tools@.len() as int)
    }
}

pub open spec fn tool_params_text(p: Prompts, v: Seq<Module>) -> Seq<char> {
    let s = all_signatures(p.core.tool_texts, v, v.len() as int);
    if s.len() == 0 {
        p.core.no_module_tool_params@
    } else {
        p.core.module_tool_params_header@ + "\n"@ + text::joined(s, "\n"@)
    }
}

/// What the model is told of the parameters of the modules' tools: of those that
/// declare them.
pub fn module_tool_params(prompts: &Prompts, modules: &Vec<Module>) -> (r: String)
    requires
        prompt::book_sound(*prompts),
    ensures
        r@ == tool_params_text(*prompts, modules@),
{
    let t = &prompts.core.tool_texts;
    let mut ls: Vec<String> = Vec::new();
    let mut i: usize = 0;
    assert(text::texts(ls@) =~= all_signatures(*t, modules@, 0));
    while i < modules.len()
        invariant
            i <= modules@.len(),
            *t == prompts.core.tool_texts,
            prompt::texts_sound(*t),
            text::texts(ls@) == all_signatures(*t, modules@, i as int),
        decreases modules@.len() - i,
    {
        let m = &modules[i].manifest;
        let ghost base = text::texts(ls@);
        let mut k: usize = 0;
        assert(base + signatures_of(*t, m.id@, m.tools@, 0) =~= base);
        while k < m.tools.len()
            invariant
                k <= m.tools@.len(),
                prompt::texts_sound(*t),
                text::texts(ls@) == base + signatures_of(*t, m.id@, m.tools@, k as int),
            decreases m.tools@.len() - k,
        {
            match m.tools.value_at(k).schema() {
                Some(s) => {
                    let l = fill3(
                        t.module_tool_params_line.as_str(),
                        "module",
                        m.id.as_str(),
                        "tool",
                        m.tools.key_at(k),
                        "signature",
                        s.render_for_prompt().as_str(),
                    );
                    let ghost prev = ls@;
                    ls.push(l);
                    proof {
                        text::lemma_texts_push(prev, l);
                        assert(text::texts(ls@) =~= base + signatures_of(*t, m.id@, m.tools@, k + 1));
                    }
                },
                None => {},
            }
            k = k + 1;
        }
        i = i + 1;
    }
    assert(text::texts(ls@).len() == ls@.len());
    if ls.len() == 0 {
        return prompts.core.no_module_tool_params.clone();
    }
    cat3(prompts.core.module_tool_params_header.as_str(), "\n", join(&ls, "\n").as_str())
}

pub open spec fn keys_of<V>(t: Seq<(Seq<char>, V)>) -> Seq<Seq<char>> {
    t.map_values(|e: (Seq<char>, V)| e.0)
}

/// The keys of a table, in order.
pub fn table_keys<V>(t: &Table<V>) -> (r: Vec<String>)
    ensures
        text::texts(r@) == keys_of(t@),
{
    let mut r: Vec<String> = Vec::new();
    let mut i: usize = 0;
    while i < t.len()
        invariant
            i <= t@.len(),
            text::texts(r@) == keys_of(t@).take(i as int),
        decreases t@.len() - i,
    {
        let k = t.key_at(i).to_owned();
        let ghost prev = r@;
        r.push(k);
        proof {
            text::lemma_texts_push(prev, k);
            assert(text::texts(r@) =~= keys_of(t@).take(i + 1));
        }
        i = i + 1;
    }
    assert(keys_of(t@).take(t@.len() as int) =~= keys_of(t@));
    r
}

/// A line for each of the first `n` modules that has tools.
pub open spec fn tool_lines(t: ToolTexts, v: Seq<Module>, n: int) -> Seq<Seq<char>>
    decreases n,
{
    if n <= 0 {
        Seq::empty()
    } else {
        let m = v[n - 1].manifest;
        let prev = tool_lines(t, v, n - 1);
        if m.tools@.len() == 0 {
            prev
        } else {
            prev.push(
                prompt::filled(
                    t.module_tools_line@,
                    seq![
                        ("id"@, m.id@),
                        ("tools"@, text::joined(keys_of(m.tools@), t.tool_list_separator@)),
                    ],
                ),
            )
        }
    }
}

pub open spec fn module_tools_text(p: Prompts, v: Seq<Module>) -> Seq<char> {
    let ls = tool_lines(p.core.tool_texts, v, v.len() as int);
    if ls.len() == 0 {
        p.core.no_module_tools@
    } else {
        text::joined(ls, "\n"@)
    }
}

/// What the model is told of the modules' tools: a line for each module that has any.
pub fn module_tools(prompts: &Prompts, modules: &Vec<Module>) -> (r: String)
    requires
        prompt::book_sound(*prompts),
    ensures
        r@ == module_tools_text(*prompts, modules@),
{
    let t = &prompts.core.tool_texts;
    let mut ls: Vec<String> = Vec::new();
    let mut i: usize = 0;
    assert(text::texts(ls@) =~= tool_lines(*t, modules@, 0));
    while i < modules.len()
        invariant
            i <= modules@.len(),
            *t == prompts.core.tool_texts,
            prompt::texts_sound(*t),
            text::texts(ls@) == tool_lines(*t, modules@, i as int),
        decreases modules@.len() - i,
    {
        let m = &modules[i].manifest;
        if m.tools.len() > 0 {
            let names = join(&table_keys(&m.tools), t.tool_list_separator.as_str());
            let l = fill2(
                t.module_tools_line.as_str(),
                "id",
                m.id.as_str(),
                "tools",
                names.as_str(),
            );
            let ghost prev = ls@;
            ls.push(l);
            proof {
                text::lemma_texts_push(prev, l);
            }
        }
        i = i + 1;
    }
    assert(text::texts(ls@).len() == ls@.len());
    if ls.len() == 0 {
        prompts.core.no_module_tools.clone()
    } else {
        join(&ls, "\n")
    }
}

pub open spec fn listing_lines(t: ToolTexts, v: Seq<Module>) -> Seq<Seq<char>> {
    v.map_values(
        |m: Module|
            prompt::filled(
                t.module_listing_line@,
                seq![("id"@, m.manifest.id@), ("brief"@, m.manifest.brief@)],
            ),
    )
}

/// The modules there are, a line for each.
pub fn listing(roster: &Roster, t: &ToolTexts) -> (r: String)
    requires
        prompt::texts_sound(*t),
    ensures
        r@ == text::joined(listing_lines(*t, roster.modules@), "\n"@),
{
    let ghost all = listing_lines(*t, roster.modules@);
    let mut ls: Vec<String> = Vec::new();
    let mut i: usize = 0;
    while i < roster.modules.len()
        invariant
            i <= roster.modules@.len(),
            prompt::texts_sound(*t),
            all == listing_lines(*t, roster.modules@),
            text::texts(ls@) == all.take(i as int),
        decreases roster.modules@.len() - i,
    {
        let m = &roster.modules[i].manifest;
        let l = fill2(
            t.module_listing_line.as_str(),
            "id",
            m.id.as_str(),
            "brief",
            m.brief.as_str(),
        );
        let ghost prev = ls@;
        ls.push(l);
        proof {
            text::lemma_texts_push(prev, l);
            assert(all[i as int] == l@);
            assert(text::texts(ls@) =~= all.take(i + 1));
        }
        i = i + 1;
    }
    assert(all.take(all.len() as int) =~= all);
    join(&ls, "\n")
}

/// The runtimes of a module are as they should be exactly where each is the name of a
/// capability and none is named twice.
pub proof fn runtimes_are_named_once(v: Seq<Seq<char>>)
    ensures
        runtimes_fault(v, 0) is None <==> (forall|k: int|
            0 <= k < v.len() ==> packages::is_capability(#[trigger] v[k])) && v.no_duplicates(),
{
    lemma_runtimes(v, 0);
    if runtimes_fault(v, 0) is None {
        assert forall|a: int, b: int| 0 <= a < v.len() && 0 <= b < v.len() && a != b implies v[a] != v[b] by {
            if a < b {
                assert(v.take(b)[a] == v[a]);
                assert(!v.take(b).contains(v[b]));
            } else {
                assert(v.take(a)[b] == v[b]);
                assert(!v.take(a).contains(v[a]));
            }
        }
    }
    if v.no_duplicates() {
        assert forall|k: int| 0 <= k < v.len() implies !v.take(k).contains(#[trigger] v[k]) by {
            if v.take(k).contains(v[k]) {
                let j = choose|j: int| 0 <= j < k && v.take(k)[j] == v[k];
                assert(v[j] == v[k]);
            }
        }
    }
}

proof fn lemma_runtimes(v: Seq<Seq<char>>, i: int)
    requires
        0 <= i,
    ensures
        runtimes_fault(v, i) is None <==> forall|k: int|
            i <= k < v.len() ==> packages::is_capability(#[trigger] v[k]) && !v.take(k).contains(v[k]),
    decreases v.len() - i,
{
    if i < v.len() {
        lemma_runtimes(v, i + 1);
    }
}

/// The tools of a module are as they should be exactly where none has the name of a tool
/// of the core and each says how it is started.
pub proof fn tools_have_names_of_their_own(t: Seq<(Seq<char>, ToolDecl)>, i: int)
    requires
        0 <= i,
    ensures
        tools_fault(t, i) is None <==> forall|k: int|
            i <= k < t.len() ==> !systool::builtin((#[trigger] t[k]).0) && text::trimmed(t[k].1.command@).len()
                > 0,
    decreases t.len() - i,
{
    if i < t.len() {
        tools_have_names_of_their_own(t, i + 1);
    }
}

} // verus!
