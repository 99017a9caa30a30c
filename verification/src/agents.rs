//! Agents: named combinations of modules and a model, and how a drafted team is
//! turned into instances.
use crate::history::{AgentMeta, AgentMetaV};
use crate::module::{Module, Roster};
use crate::prompt::{self, Prompts, ToolTexts, fill4};
use crate::providers::ModelEntry;
use crate::table::{self, Table};
use crate::text::{self, cat2, cat3, cat4, cat5, clone_opt, clone_strings, dec_wide, eq_ignore_case, from_chars, has_text, is_blank, is_control, join, slice, str_eq, to_chars, trim};
use vstd::prelude::*;

verus! {

/// A named agent.
#[derive(Debug)]
pub struct Agent {
    pub modules: Vec<String>,
    /// Its model; none for the core's.
    pub model: Option<String>,
    pub note: String,
}

#[verifier::ext_equal]
pub struct AgentV {
    pub modules: Seq<Seq<char>>,
    pub model: Option<Seq<char>>,
    pub note: Seq<char>,
}

impl View for Agent {
    type V = AgentV;

    open spec fn view(&self) -> AgentV {
        AgentV {
            modules: text::texts(self.modules@),
            model: text::opt_text(self.model),
            note: self.note@,
        }
    }
}

/// The registered agents by name.
pub type Agents = Table<Agent>;

/// An agent as it is shown.
#[derive(Debug)]
pub struct AgentView {
    pub name: String,
    pub modules: Vec<String>,
    pub model: Option<String>,
    pub note: String,
}

// ---- names ----

pub open spec fn bad_in_name(c: char) -> bool {
    c == '\\' || c == '/' || c == ':' || c == '*' || c == '?' || c == '"' || c == '<' || c == '>' || c
        == '|' || text::control(c)
}

fn is_bad(c: char) -> (r: bool)
    ensures
        r == bad_in_name(c),
{
    c == '\\' || c == '/' || c == ':' || c == '*' || c == '?' || c == '"' || c == '<' || c == '>' || c
        == '|' || is_control(c)
}

/// Whether a name is one that the system keeps for its devices.
pub open spec fn reserved(s: Seq<char>) -> bool {
    text::same_ignoring_case(s, "CON"@) || text::same_ignoring_case(s, "PRN"@) || text::same_ignoring_case(s, "AUX"@)
        || text::same_ignoring_case(s, "NUL"@) || (s.len() == 4 && (text::same_ignoring_case(s.take(3), "COM"@)
        || text::same_ignoring_case(s.take(3), "LPT"@)) && text::is_digit(s[3]))
}

/// What is wrong with a name, if anything is: it becomes the name of a directory.
pub open spec fn name_fault(name: Seq<char>) -> Option<Seq<char>> {
    let n = text::trimmed(name);
    if n.len() == 0 {
        Some("agent 名不能为空"@)
    } else if name != n {
        Some("agent 名首尾不能有空白"@)
    } else if n == "."@ || n == ".."@ {
        Some("agent 名非法"@)
    } else if exists|k: int| 0 <= k < n.len() && bad_in_name(#[trigger] n[k]) {
        Some("agent 名不能包含 \\ / : * ? \" < > | 或控制字符"@)
    } else if reserved(n) {
        Some("agent 名是系统保留名"@)
    } else {
        None
    }
}

pub fn has_bad(v: &Vec<char>) -> (r: bool)
    ensures
        r == exists|k: int| 0 <= k < v@.len() && bad_in_name(#[trigger] v@[k]),
{
    let mut i: usize = 0;
    while i < v.len()
        invariant
            i <= v@.len(),
            forall|k: int| 0 <= k < i ==> !bad_in_name(#[trigger] v@[k]),
        decreases v@.len() - i,
    {
        if is_bad(v[i]) {
            return true;
        }
        i = i + 1;
    }
    false
}

/// Whether a name is one that the system keeps for its devices.
pub fn is_reserved(v: &Vec<char>) -> (r: bool)
    ensures
        r == reserved(v@),
{
    let n = from_chars(v);
    let device = if v.len() == 4 {
        let head = slice(v, 0, 3);
        assert(head@ =~= v@.take(3));
        (eq_ignore_case(head.as_str(), "COM") || eq_ignore_case(head.as_str(), "LPT")) && '0'
            <= v[3] && v[3] <= '9'
    } else {
        false
    };
    device || eq_ignore_case(n.as_str(), "CON") || eq_ignore_case(n.as_str(), "PRN")
        || eq_ignore_case(n.as_str(), "AUX") || eq_ignore_case(n.as_str(), "NUL")
}

/// Checks the name of an agent.
pub fn validate_name(name: &str) -> (r: Result<(), String>)
    ensures
        match r {
            Ok(_) => name_fault(name@) is None,
            Err(e) => name_fault(name@) == Some(e@),
        },
{
    let n = trim(name);
    let v = to_chars(n.as_str());
    if v.len() == 0 {
        return Err("agent 名不能为空".to_owned());
    }
    if !str_eq(name, n.as_str()) {
        return Err("agent 名首尾不能有空白".to_owned());
    }
    if str_eq(n.as_str(), ".") || str_eq(n.as_str(), "..") {
        return Err("agent 名非法".to_owned());
    }
    if has_bad(&v) {
        return Err("agent 名不能包含 \\ / : * ? \" < > | 或控制字符".to_owned());
    }
    if is_reserved(&v) {
        return Err("agent 名是系统保留名".to_owned());
    }
    Ok(())
}

// ---- listings ----

pub open spec fn note_tail(note: Seq<char>, shown: Seq<char>) -> Seq<char> {
    if text::trimmed(note).len() == 0 {
        Seq::empty()
    } else {
        "；"@ + shown
    }
}

pub open spec fn model_name(p: Prompts, model: Option<String>) -> Seq<char> {
    match model {
        Some(m) => m@,
        None => p.core.no_model@,
    }
}

pub open spec fn agent_line(p: Prompts, name: Seq<char>, a: Agent) -> Seq<char> {
    prompt::filled(
        p.core.tool_texts.agent_listing_line@,
        seq![
            ("name"@, name),
            ("modules"@, text::joined(text::texts(a.modules@), " + "@)),
            ("model"@, model_name(p, a.model)),
            ("note"@, note_tail(a.note@, text::trimmed(a.note@))),
        ],
    )
}

pub open spec fn agent_lines(p: Prompts, known: Seq<(Seq<char>, Agent)>) -> Seq<Seq<char>> {
    known.map_values(|e: (Seq<char>, Agent)| agent_line(p, e.0, e.1))
}

/// The registered agents, a line for each.
pub fn listing(prompts: &Prompts, known: &Agents) -> (r: String)
    requires
        prompt::book_sound(*prompts),
    ensures
        r@ == if known@.len() == 0 {
            prompts.core.no_agents@
        } else {
            text::joined(agent_lines(*prompts, known@), "\n"@)
        },
{
    if known.len() == 0 {
        return prompts.core.no_agents.clone();
    }
    let ghost all = agent_lines(*prompts, known@);
    let mut ls: Vec<String> = Vec::new();
    let mut i: usize = 0;
    while i < known.len()
        invariant
            i <= known@.len(),
            prompt::book_sound(*prompts),
            all == agent_lines(*prompts, known@),
            text::texts(ls@) == all.take(i as int),
        decreases known@.len() - i,
    {
        let a = known.value_at(i);
        let model = match &a.model {
            Some(m) => m.as_str(),
            None => prompts.core.no_model.as_str(),
        };
        let note = trim(a.note.as_str());
        let tail = if note.as_str().unicode_len() == 0 {
            String::new()
        } else {
            cat2("；", note.as_str())
        };
        assert(tail@ =~= note_tail(a.note@, text::trimmed(a.note@)));
        let l = fill4(
            prompts.core.tool_texts.agent_listing_line.as_str(),
            "name",
            known.key_at(i),
            "modules",
            join(&a.modules, " + ").as_str(),
            "model",
            model,
            "note",
            tail.as_str(),
        );
        let ghost prev = ls@;
        ls.push(l);
        proof {
            text::lemma_texts_push(prev, l);
            assert(l@ == agent_line(*prompts, known@[i as int].0, *a));
            assert(all[i as int] == agent_line(
                *prompts,
                known@[i as int].0,
                known@[i as int].1,
            ));
            assert(text::texts(ls@) =~= all.take(i + 1));
        }
        i = i + 1;
    }
    assert(all.take(all.len() as int) =~= all);
    join(&ls, "\n")
}

pub open spec fn model_lines(t: ToolTexts, models: Seq<(Seq<char>, ModelEntry)>) -> Seq<Seq<char>> {
    models.map_values(
        |e: (Seq<char>, ModelEntry)|
            prompt::filled(
                t.model_listing_line@,
                seq![
                    ("id"@, e.0),
                    ("name"@, e.1.name@),
                    ("api_model"@, e.1.api_model@),
                    ("note"@, note_tail(e.1.note@, e.1.note@)),
                ],
            ),
    )
}

/// The models there are, a line for each.
pub fn model_listing(models: &Table<ModelEntry>, t: &ToolTexts) -> (r: String)
    requires
        prompt::texts_sound(*t),
    ensures
        r@ == text::joined(model_lines(*t, models@), "\n"@),
{
    let ghost all = model_lines(*t, models@);
    let mut ls: Vec<String> = Vec::new();
    let mut i: usize = 0;
    while i < models.len()
        invariant
            i <= models@.len(),
            prompt::texts_sound(*t),
            all == model_lines(*t, models@),
            text::texts(ls@) == all.take(i as int),
        decreases models@.len() - i,
    {
        let m = models.value_at(i);
        let tail = if is_blank(m.note.as_str()) {
            String::new()
        } else {
            cat2("；", m.note.as_str())
        };
        let l = fill4(
            t.model_listing_line.as_str(),
            "id",
            models.key_at(i),
            "name",
            m.name.as_str(),
            "api_model",
            m.api_model.as_str(),
            "note",
            tail.as_str(),
        );
        let ghost prev = ls@;
        ls.push(l);
        proof {
            text::lemma_texts_push(prev, l);
            assert(all[i as int] == l@);
            assert(text::texts(ls@) =~= all.take(i + 1));
        }
        i = i + 1;
    }
    assert(all.take(all.len() as int) =~= all);
    join(&ls, "\n")
}

// ---- names that are not taken ----

/// A name with a number behind it.
pub open spec fn numbered(stem: Seq<char>, sep: Seq<char>, n: nat) -> Seq<char> {
    stem + sep + text::decimal(n)
}

/// Whether `n` is the least number from 2 on whose name is not taken.
pub open spec fn least_free(taken: Seq<Seq<char>>, stem: Seq<char>, sep: Seq<char>, n: nat) -> bool {
    n >= 2 && !taken.contains(numbered(stem, sep, n)) && forall|k: nat|
        2 <= k < n ==> taken.contains(#[trigger] numbered(stem, sep, k))
}

/// A name that is not taken: the name itself or, where it is taken, with the least
/// number from 2 on.
pub open spec fn free_name(taken: Seq<Seq<char>>, stem: Seq<char>, sep: Seq<char>) -> Seq<char> {
    if taken.contains(stem) {
        numbered(stem, sep, choose|n: nat| least_free(taken, stem, sep, n))
    } else {
        stem
    }
}

proof fn lemma_numbered_injective(stem: Seq<char>, sep: Seq<char>, a: nat, b: nat)
    requires
        numbered(stem, sep, a) == numbered(stem, sep, b),
    ensures
        a == b,
{
    let p = stem + sep;
    assert(numbered(stem, sep, a).skip(p.len() as int) =~= text::decimal(a));
    assert(numbered(stem, sep, b).skip(p.len() as int) =~= text::decimal(b));
    text::lemma_decimal_injective(a, b);
}

/// Where the names numbered 2 up to `n` are all taken, there are that many names taken.
proof fn lemma_taken_bounds(taken: Seq<Seq<char>>, stem: Seq<char>, sep: Seq<char>, n: nat)
    requires
        n >= 2,
        forall|k: nat| 2 <= k < n ==> taken.contains(#[trigger] numbered(stem, sep, k)),
    ensures
        n - 2 <= taken.len(),
    decreases n,
{
    if n > 2 {
        let m = (n - 1) as nat;
        let x = numbered(stem, sep, m);
        assert(taken.contains(x));
        let i = choose|i: int| 0 <= i < taken.len() && taken[i] == x;
        let rest = taken.remove(i);
        assert forall|k: nat| 2 <= k < m implies rest.contains(
            #[trigger] numbered(stem, sep, k),
        ) by {
            let y = numbered(stem, sep, k);
            assert(taken.contains(y));
            let j = choose|j: int| 0 <= j < taken.len() && taken[j] == y;
            if j == i {
                lemma_numbered_injective(stem, sep, k, m);
            }
            if j < i {
                assert(rest[j] == y);
            } else {
                assert(rest[j - 1] == y);
            }
        }
        lemma_taken_bounds(rest, stem, sep, m);
    }
}

proof fn lemma_least_free_unique(
    taken: Seq<Seq<char>>,
    stem: Seq<char>,
    sep: Seq<char>,
    a: nat,
    b: nat,
)
    requires
        least_free(taken, stem, sep, a),
        least_free(taken, stem, sep, b),
    ensures
        a == b,
{
    if a < b {
        assert(taken.contains(numbered(stem, sep, a)));
    }
    if b < a {
        assert(taken.contains(numbered(stem, sep, b)));
    }
}

/// Finds a name that is not taken.
pub fn make_free(taken: &Vec<String>, stem: &str, sep: &str) -> (r: String)
    ensures
        r@ == free_name(text::texts(taken@), stem@, sep@),
        !text::texts(taken@).contains(r@),
{
    let ghost tv = text::texts(taken@);
    if !has_text(taken, stem) {
        return stem.to_owned();
    }
    let mut n: u128 = 2;
    let mut cand = cat3(stem, sep, dec_wide(2).as_str());
    while has_text(taken, cand.as_str())
        invariant
            n >= 2,
            tv == text::texts(taken@),
            cand@ == numbered(stem@, sep@, n as nat),
            forall|k: nat| 2 <= k < n ==> tv.contains(#[trigger] numbered(stem@, sep@, k)),
        decreases taken@.len() + 3 - n,
    {
        proof {
            lemma_taken_bounds(tv, stem@, sep@, (n + 1) as nat);
            assert(tv.len() == taken.len());
        }
        n = n + 1;
        cand = cat3(stem, sep, dec_wide(n).as_str());
    }
    proof {
        let m = choose|m: nat| least_free(tv, stem@, sep@, m);
        assert(least_free(tv, stem@, sep@, n as nat));
        lemma_least_free_unique(tv, stem@, sep@, m, n as nat);
    }
    cand
}

/// The name of an instance that differs from the names there are: the name itself,
/// or with -2, -3 and so on behind it.
pub fn unique_instance_name(base: &str, taken: &Vec<String>) -> (r: String)
    ensures
        r@ == free_name(text::texts(taken@), base@, "-"@),
        !text::texts(taken@).contains(r@),
{
    make_free(taken, base, "-")
}

/// However many names are taken, one is found that is not.
pub proof fn a_free_name_is_free(taken: Seq<Seq<char>>, stem: Seq<char>, sep: Seq<char>)
    ensures
        !taken.contains(free_name(taken, stem, sep)),
{
    if taken.contains(stem) {
        let n = find_free(taken, stem, sep, 2);
        assert(least_free(taken, stem, sep, n));
    }
}

proof fn find_free(taken: Seq<Seq<char>>, stem: Seq<char>, sep: Seq<char>, n: nat) -> (r: nat)
    requires
        n >= 2,
        forall|k: nat| 2 <= k < n ==> taken.contains(#[trigger] numbered(stem, sep, k)),
    ensures
        least_free(taken, stem, sep, r),
    decreases taken.len() + 3 - n,
{
    lemma_taken_bounds(taken, stem, sep, n);
    if taken.contains(numbered(stem, sep, n)) {
        find_free(taken, stem, sep, n + 1)
    } else {
        n
    }
}

// ---- a drafted team ----

/// An item of a drafted team: a registered agent, or one put together.
#[derive(Debug)]
pub enum RosterPick {
    Reuse { agent: String, why: String },
    Build { name: String, modules: Vec<String>, model: String, why: String },
}

impl RosterPick {
    pub open spec fn why_v(self) -> Seq<char> {
        match self {
            RosterPick::Reuse { why, .. } => why@,
            RosterPick::Build { why, .. } => why@,
        }
    }

    /// Why it was picked.
    pub fn why(&self) -> (r: String)
        ensures
            r@ == self.why_v(),
    {
        match self {
            RosterPick::Reuse { why, .. } => why.clone(),
            RosterPick::Build { why, .. } => why.clone(),
        }
    }
}

/// What a pick stands for before its modules are looked at.
#[verifier::ext_equal]
pub struct PickBase {
    pub label: Seq<char>,
    pub modules: Seq<Seq<char>>,
    pub model: Option<Seq<char>>,
    pub transient: bool,
}

pub open spec fn pick_base(
    p: RosterPick,
    known: Seq<(Seq<char>, Agent)>,
    models: Seq<(Seq<char>, ModelEntry)>,
) -> Result<PickBase, Seq<char>> {
    match p {
        RosterPick::Reuse { agent, .. } => {
            let name = text::trimmed(agent@);
            match table::lookup(known, name) {
                Some(a) => Ok(
                    PickBase {
                        label: name,
                        modules: text::texts(a.modules@),
                        model: text::opt_text(a.model),
                        transient: false,
                    },
                ),
                None => Err("agent "@ + name + " 不在登记处"@),
            }
        },
        RosterPick::Build { name, modules, model, .. } => {
            let label = if text::trimmed(name@).len() == 0 {
                "组装项"@
            } else {
                text::trimmed(name@)
            };
            if table::lookup(models, model@) is None {
                Err(label + " 指定的模型 "@ + model@ + " 不存在"@)
            } else {
                Ok(
                    PickBase {
                        label,
                        modules: text::texts(modules@),
                        model: Some(model@),
                        transient: true,
                    },
                )
            }
        },
    }
}

/// The ids of the modules there are.
pub open spec fn module_ids(v: Seq<Module>) -> Seq<Seq<char>> {
    v.map_values(|m: Module| m.manifest.id@)
}

/// What is wrong with the modules of a pick from the `i`th on: one does not exist,
/// or is used already.
pub open spec fn modules_fault(
    label: Seq<char>,
    mods: Seq<Seq<char>>,
    ids: Seq<Seq<char>>,
    used: Seq<Seq<char>>,
    i: int,
) -> Option<Seq<char>>
    decreases mods.len() - i,
{
    if i < 0 || i >= mods.len() {
        None
    } else if !ids.contains(mods[i]) {
        Some(label + " 的模块 "@ + mods[i] + " 不存在"@)
    } else if used.contains(mods[i]) || mods.take(i).contains(mods[i]) {
        Some("模块 "@ + mods[i] + " 在名单里出现了两次（"@ + label + "）"@)
    } else {
        modules_fault(label, mods, ids, used, i + 1)
    }
}

/// A team as far as it is resolved: the instances with the reasons they were picked
/// for, what was refused, the modules used and the names taken.
#[verifier::ext_equal]
pub struct TeamV {
    pub picked: Seq<(AgentMetaV, Seq<char>)>,
    pub rejected: Seq<Seq<char>>,
    pub used: Seq<Seq<char>>,
    pub names: Seq<Seq<char>>,
}

pub open spec fn refused(t: TeamV, why: Seq<char>) -> TeamV {
    TeamV { rejected: t.rejected.push(why), ..t }
}

/// The team with one more pick.
pub open spec fn with_pick(
    t: TeamV,
    p: RosterPick,
    known: Seq<(Seq<char>, Agent)>,
    ids: Seq<Seq<char>>,
    models: Seq<(Seq<char>, ModelEntry)>,
) -> TeamV {
    match pick_base(p, known, models) {
        Err(e) => refused(t, e),
        Ok(b) => match modules_fault(b.label, b.modules, ids, t.used, 0) {
            Some(e) => refused(t, e),
            None => if b.modules.len() == 0 {
                refused(t, b.label + " 没有任何模块"@)
            } else {
                let stem = if name_fault(b.label) is None {
                    b.label
                } else {
                    b.modules[0]
                };
                let name = free_name(t.names, stem, "-"@);
                TeamV {
                    picked: t.picked.push(
                        (
                            AgentMetaV {
                                name,
                                transient: b.transient,
                                modules: b.modules,
                                model: b.model,
                            },
                            p.why_v(),
                        ),
                    ),
                    rejected: t.rejected,
                    used: t.used + b.modules,
                    names: t.names.push(name),
                }
            },
        },
    }
}

/// The team the first `n` picks come to.
pub open spec fn team_of(
    picks: Seq<RosterPick>,
    known: Seq<(Seq<char>, Agent)>,
    ids: Seq<Seq<char>>,
    models: Seq<(Seq<char>, ModelEntry)>,
    n: int,
) -> TeamV
    decreases n,
{
    if n <= 0 {
        TeamV {
            picked: Seq::empty(),
            rejected: Seq::empty(),
            used: Seq::empty(),
            names: Seq::empty(),
        }
    } else {
        with_pick(team_of(picks, known, ids, models, n - 1), picks[n - 1], known, ids, models)
    }
}

pub open spec fn picked_v(v: Seq<(AgentMeta, String)>) -> Seq<(AgentMetaV, Seq<char>)> {
    v.map_values(|e: (AgentMeta, String)| (e.0@, e.1@))
}

fn roster_ids(roster: &Roster) -> (r: Vec<String>)
    ensures
        text::texts(r@) == module_ids(roster.modules@),
{
    let mut r: Vec<String> = Vec::new();
    let mut i: usize = 0;
    while i < roster.modules.len()
        invariant
            i <= roster.modules@.len(),
            text::texts(r@) == module_ids(roster.modules@).take(i as int),
        decreases roster.modules@.len() - i,
    {
        let id = roster.modules[i].manifest.id.clone();
        let ghost prev = r@;
        r.push(id);
        proof {
            text::lemma_texts_push(prev, id);
            assert(text::texts(r@) =~= module_ids(roster.modules@).take(i + 1));
        }
        i = i + 1;
    }
    assert(module_ids(roster.modules@).take(roster.modules@.len() as int) =~= module_ids(
        roster.modules@,
    ));
    r
}

fn base_of(p: &RosterPick, known: &Agents, models: &Table<ModelEntry>) -> (r: Result<
    (String, Vec<String>, Option<String>, bool),
    String,
>)
    ensures
        match r {
            Ok(b) => pick_base(*p, known@, models@) == Ok::<_, Seq<char>>(
                PickBase {
                    label: b.0@,
                    modules: text::texts(b.1@),
                    model: text::opt_text(b.2),
                    transient: b.3,
                },
            ),
            Err(e) => pick_base(*p, known@, models@) == Err::<PickBase, _>(e@),
        },
{
    match p {
        RosterPick::Reuse { agent, .. } => {
            let name = trim(agent.as_str());
            match known.get(name.as_str()) {
                Some(a) => Ok((name, clone_strings(&a.modules), clone_opt(&a.model), false)),
                None => Err(cat3("agent ", name.as_str(), " 不在登记处")),
            }
        },
        RosterPick::Build { name, modules, model, .. } => {
            let label = if is_blank(name.as_str()) {
                "组装项".to_owned()
            } else {
                trim(name.as_str())
            };
            if !models.contains_key(model.as_str()) {
                return Err(cat4(label.as_str(), " 指定的模型 ", model.as_str(), " 不存在"));
            }
            Ok((label, clone_strings(modules), Some(model.clone()), true))
        },
    }
}

fn check_modules(label: &str, mods: &Vec<String>, ids: &Vec<String>, used: &Vec<String>) -> (r:
    Option<String>)
    ensures
        text::opt_text(r) == modules_fault(label@, text::texts(mods@), text::texts(ids@), text::texts(used@), 0),
{
    let ghost mv = text::texts(mods@);
    let ghost iv = text::texts(ids@);
    let ghost uv = text::texts(used@);
    let mut local: Vec<String> = Vec::new();
    let mut i: usize = 0;
    assert(text::texts(local@) =~= mv.take(0));
    while i < mods.len()
        invariant
            i <= mods@.len(),
            mv == text::texts(mods@),
            iv == text::texts(ids@),
            uv == text::texts(used@),
            text::texts(local@) == mv.take(i as int),
            modules_fault(label@, mv, iv, uv, 0) == modules_fault(label@, mv, iv, uv, i as int),
        decreases mods@.len() - i,
    {
        let id = mods[i].as_str();
        assert(mv[i as int] == id@);
        if !has_text(ids, id) {
            return Some(cat4(label, " 的模块 ", id, " 不存在"));
        }
        if has_text(used, id) || has_text(&local, id) {
            return Some(cat5("模块 ", id, " 在名单里出现了两次（", label, "）"));
        }
        let ghost prev = local@;
        local.push(mods[i].clone());
        proof {
            text::lemma_texts_push(prev, local@.last());
            assert(text::texts(local@) =~= mv.take(i + 1));
        }
        i = i + 1;
    }
    None
}

/// Turns a drafted team into instances. An item that names an agent, a model or a
/// module that does not exist, or a module that is used already, is refused with
/// the reason, and nothing of it is taken.
pub fn resolve_picks(
    picks: &Vec<RosterPick>,
    known: &Agents,
    roster: &Roster,
    models: &Table<ModelEntry>,
) -> (r: (Vec<(AgentMeta, String)>, Vec<String>))
    ensures
        ({
            let t = team_of(
                picks@,
                known@,
                module_ids(roster.modules@),
                models@,
                picks@.len() as int,
            );
            picked_v(r.0@) == t.picked && text::texts(r.1@) == t.rejected
        }),
{
    let ids = roster_ids(roster);
    let ghost iv = text::texts(ids@);
    let mut out: Vec<(AgentMeta, String)> = Vec::new();
    let mut rejected: Vec<String> = Vec::new();
    let mut used: Vec<String> = Vec::new();
    let mut names: Vec<String> = Vec::new();
    let mut i: usize = 0;
    proof {
        assert(picked_v(out@) =~= Seq::empty());
        assert(text::texts(rejected@) =~= Seq::empty());
    }
    while i < picks.len()
        invariant
            i <= picks@.len(),
            iv == text::texts(ids@),
            iv == module_ids(roster.modules@),
            names@.len() <= i,
            (TeamV {
                picked: picked_v(out@),
                rejected: text::texts(rejected@),
                used: text::texts(used@),
                names: text::texts(names@),
            }) == team_of(picks@, known@, iv, models@, i as int),
        decreases picks@.len() - i,
    {
        let p = &picks[i];
        let ghost before = team_of(picks@, known@, iv, models@, i as int);
        i = i + 1;
        match base_of(p, known, models) {
            Err(e) => {
                let ghost prev = rejected@;
                rejected.push(e);
                proof {
                    text::lemma_texts_push(prev, e);
                }
            },
            Ok((label, mods, model, transient)) => {
                match check_modules(label.as_str(), &mods, &ids, &used) {
                    Some(e) => {
                        let ghost prev = rejected@;
                        rejected.push(e);
                        proof {
                            text::lemma_texts_push(prev, e);
                        }
                    },
                    None => {
                        assert(text::texts(mods@).len() == mods@.len());
                        if mods.len() == 0 {
                            let e = cat2(label.as_str(), " 没有任何模块");
                            let ghost prev = rejected@;
                            rejected.push(e);
                            proof {
                                text::lemma_texts_push(prev, e);
                            }
                        } else {
                            let stem = match validate_name(label.as_str()) {
                                Ok(_) => label,
                                Err(_) => mods[0].clone(),
                            };
                            assert(text::texts(mods@)[0] == mods@[0]@);
                            let name = unique_instance_name(stem.as_str(), &names);
                            let mut more = clone_strings(&mods);
                            let ghost mv = more@;
                            let ghost u = used@;
                            let ghost o = out@;
                            let ghost n = names@;
                            names.push(name.clone());
                            used.append(&mut more);
                            out.push((AgentMeta { name, transient, modules: mods, model }, p.why()));
                            proof {
                                text::lemma_texts_push(n, names@.last());
                                text::lemma_texts_add(u, mv);
                                assert(picked_v(out@) =~= picked_v(o).push(
                                    (out@.last().0@, out@.last().1@),
                                ));
                            }
                        }
                    },
                }
            },
        }
        proof {
            assert((TeamV {
                picked: picked_v(out@),
                rejected: text::texts(rejected@),
                used: text::texts(used@),
                names: text::texts(names@),
            }) =~= with_pick(before, *p, known@, iv, models@));
        }
    }
    (out, rejected)
}

// ---- laws ----

/// The names of a team.
pub open spec fn team_names(v: Seq<(AgentMetaV, Seq<char>)>) -> Seq<Seq<char>> {
    v.map_values(|e: (AgentMetaV, Seq<char>)| e.0.name)
}

/// What holds of a team however it was drafted: no name comes up twice and no
/// module is used twice, and the books are kept right.
pub open spec fn team_sound(t: TeamV) -> bool {
    &&& t.names == team_names(t.picked)
    &&& t.names.no_duplicates()
    &&& t.used.no_duplicates()
}

/// In a team no two instances have a name in common, and no module is used twice.
pub proof fn teams_share_nothing(
    picks: Seq<RosterPick>,
    known: Seq<(Seq<char>, Agent)>,
    ids: Seq<Seq<char>>,
    models: Seq<(Seq<char>, ModelEntry)>,
    n: int,
)
    ensures
        team_sound(team_of(picks, known, ids, models, n)),
    decreases n,
{
    if n <= 0 {
        assert(team_names(Seq::empty()) =~= Seq::<Seq<char>>::empty());
    } else {
        teams_share_nothing(picks, known, ids, models, n - 1);
        let t = team_of(picks, known, ids, models, n - 1);
        match pick_base(picks[n - 1], known, models) {
            Err(_) => {},
            Ok(b) => {
                if modules_fault(b.label, b.modules, ids, t.used, 0) is None && b.modules.len()
                    > 0 {
                    let stem = if name_fault(b.label) is None {
                        b.label
                    } else {
                        b.modules[0]
                    };
                    let name = free_name(t.names, stem, "-"@);
                    a_free_name_is_free(t.names, stem, "-"@);
                    let next = team_of(picks, known, ids, models, n);
                    assert(next.names =~= team_names(next.picked));
                    assert forall|i: int, j: int|
                        0 <= i < next.names.len() && 0 <= j < next.names.len() && i
                            != j implies next.names[i] != next.names[j] by {
                        if i < t.names.len() {
                            assert(t.names.contains(t.names[i]));
                        }
                        if j < t.names.len() {
                            assert(t.names.contains(t.names[j]));
                        }
                    }
                    lemma_modules_new(b.label, b.modules, ids, t.used, 0);
                    assert forall|i: int, j: int|
                        0 <= i < next.used.len() && 0 <= j < next.used.len() && i
                            != j implies next.used[i] != next.used[j] by {
                        let k = t.used.len();
                        if i < k && j >= k {
                            assert(t.used.contains(t.used[i]));
                            assert(next.used[j] == b.modules[j - k]);
                        } else if j < k && i >= k {
                            assert(t.used.contains(t.used[j]));
                            assert(next.used[i] == b.modules[i - k]);
                        } else if i >= k && j >= k {
                            assert(next.used[i] == b.modules[i - k]);
                            assert(next.used[j] == b.modules[j - k]);
                            if i < j {
                                assert(b.modules.take(j - k)[i - k] == b.modules[i - k]);
                            } else {
                                assert(b.modules.take(i - k)[j - k] == b.modules[j - k]);
                            }
                        }
                    }
                }
            },
        }
    }
}

proof fn lemma_modules_new(
    label: Seq<char>,
    mods: Seq<Seq<char>>,
    ids: Seq<Seq<char>>,
    used: Seq<Seq<char>>,
    i: int,
)
    requires
        0 <= i,
        modules_fault(label, mods, ids, used, i) is None,
    ensures
        forall|k: int|
            i <= k < mods.len() ==> ids.contains(#[trigger] mods[k]) && !used.contains(mods[k])
                && !mods.take(k).contains(mods[k]),
    decreases mods.len() - i,
{
    if i < mods.len() {
        lemma_modules_new(label, mods, ids, used, i + 1);
    }
}

/// A pick is taken or refused, with a reason: one more of the two, and the others stay.
/// What is taken has the modules and the model of the agent that is known, or those that
/// were asked for.
pub proof fn picks_are_taken_as_asked(
    t: TeamV,
    p: RosterPick,
    known: Seq<(Seq<char>, Agent)>,
    ids: Seq<Seq<char>>,
    models: Seq<(Seq<char>, ModelEntry)>,
)
    ensures
        ({
            let n = with_pick(t, p, known, ids, models);
            let taken = n.picked.len() > t.picked.len();
            &&& taken ==> n.rejected == t.rejected && n.picked.len() == t.picked.len() + 1
                && n.picked.drop_last() == t.picked && n.picked.last().1 == p.why_v()
            &&& !taken ==> n.picked == t.picked && n.used == t.used && n.names == t.names && n.rejected.len()
                == t.rejected.len() + 1
            &&& taken ==> n.used == t.used + n.picked.last().0.modules && n.picked.last().0.modules.len() > 0
            &&& taken && p is Reuse ==> (table::lookup(known, text::trimmed(p->Reuse_agent@)) matches Some(a)
                && n.picked.last().0.modules == text::texts(a.modules@) && n.picked.last().0.model
                == text::opt_text(a.model) && !n.picked.last().0.transient)
            &&& taken && p is Build ==> n.picked.last().0.modules == text::texts(p->Build_modules@)
                && n.picked.last().0.model == Some(p->Build_model@) && n.picked.last().0.transient
                && table::lookup(models, p->Build_model@) is Some
        }),
{
    let n = with_pick(t, p, known, ids, models);
    if n.picked.len() > t.picked.len() {
        assert(n.picked.drop_last() =~= t.picked);
    }
}

/// Modules can be had exactly where there are such, nobody has them and none is named
/// twice.
pub proof fn modules_are_had_once(
    label: Seq<char>,
    mods: Seq<Seq<char>>,
    ids: Seq<Seq<char>>,
    used: Seq<Seq<char>>,
)
    ensures
        modules_fault(label, mods, ids, used, 0) is None <==> mods.no_duplicates() && forall|k: int|
            0 <= k < mods.len() ==> ids.contains(#[trigger] mods[k]) && !used.contains(mods[k]),
{
    lemma_had(label, mods, ids, used, 0);
    if modules_fault(label, mods, ids, used, 0) is None {
        assert forall|a: int, b: int| 0 <= a < mods.len() && 0 <= b < mods.len() && a != b implies mods[a]
            != mods[b] by {
            if a < b {
                assert(mods.take(b)[a] == mods[a]);
                assert(!mods.take(b).contains(mods[b]));
            } else {
                assert(mods.take(a)[b] == mods[b]);
                assert(!mods.take(a).contains(mods[a]));
            }
        }
    }
    if mods.no_duplicates() {
        assert forall|k: int| 0 <= k < mods.len() implies !mods.take(k).contains(#[trigger] mods[k]) by {
            if mods.take(k).contains(mods[k]) {
                let j = choose|j: int| 0 <= j < k && mods.take(k)[j] == mods[k];
                assert(mods[j] == mods[k]);
            }
        }
    }
}

proof fn lemma_had(
    label: Seq<char>,
    mods: Seq<Seq<char>>,
    ids: Seq<Seq<char>>,
    used: Seq<Seq<char>>,
    i: int,
)
    requires
        0 <= i,
    ensures
        modules_fault(label, mods, ids, used, i) is None <==> forall|k: int|
            i <= k < mods.len() ==> ids.contains(#[trigger] mods[k]) && !used.contains(mods[k]) && !mods.take(
                k,
            ).contains(mods[k]),
    decreases mods.len() - i,
{
    if i < mods.len() {
        lemma_had(label, mods, ids, used, i + 1);
    }
}

/// A name can stand exactly where it could be that of a directory: not blank, without
/// spaces round it, no dots alone, without a character that paths are made with, and not
/// one that the system keeps for itself.
pub proof fn names_could_be_directories(name: Seq<char>)
    ensures
        name_fault(name) is None <==> ({
            &&& name.len() > 0 && text::trimmed(name) == name
            &&& name != seq!['.'] && name != seq!['.', '.']
            &&& forall|k: int| 0 <= k < name.len() ==> !bad_in_name(#[trigger] name[k])
            &&& !reserved(name)
        }),
{
    reveal_strlit(".");
    reveal_strlit("..");
    assert("."@ =~= seq!['.']);
    assert(".."@ =~= seq!['.', '.']);
}

} // verus!
