//! The prompt book: templates whose `{{name}}` places are filled with variables.
//! A template that asks for a variable it is not given is an error, never silently
//! filled.
use crate::envelope::{Malformed, Tail};
use crate::schema::ToolBook;
use crate::text::{self, at, cat2, cat3, dec_usize, find_in, hex4, slice, str_eq, to_chars, trim};
use vstd::prelude::*;

verus! {

/// The variables a template is filled with.
pub type Vars<'a> = &'a [(&'a str, String)];

pub open spec fn vars_v(v: Seq<(&str, String)>) -> Seq<(Seq<char>, Seq<char>)> {
    v.map_values(|e: (&str, String)| (e.0@, e.1@))
}

/// The value of the first variable from `i` on with a name.
pub open spec fn var_from(
    vars: Seq<(Seq<char>, Seq<char>)>,
    name: Seq<char>,
    i: int,
) -> Option<Seq<char>>
    decreases vars.len() - i,
{
    if i < 0 || i >= vars.len() {
        None
    } else if vars[i].0 == name {
        Some(vars[i].1)
    } else {
        var_from(vars, name, i + 1)
    }
}

/// The end of the place that opens at `i`, if one does: two braces, and two
/// closing ones after them.
pub open spec fn place_at(t: Seq<char>, i: int) -> Option<int> {
    if text::stands_at(t, "{{"@, i) {
        text::find_from(t, "}}"@, i + 2)
    } else {
        None
    }
}

pub open spec fn behind(s: Seq<char>, r: Result<Seq<char>, Seq<char>>) -> Result<
    Seq<char>,
    Seq<char>,
> {
    match r {
        Ok(t) => Ok(s + t),
        Err(e) => Err(e),
    }
}

/// The template from `i` on with its places filled, or the first variable that is missing.
pub open spec fn render_from(
    t: Seq<char>,
    vars: Seq<(Seq<char>, Seq<char>)>,
    i: int,
) -> Result<Seq<char>, Seq<char>>
    decreases t.len() - i,
    via render_from_decreases
{
    if i < 0 || i >= t.len() {
        Ok(Seq::empty())
    } else {
        match place_at(t, i) {
            Some(e) => {
                let name = text::trimmed(t.subrange(i + 2, e));
                match var_from(vars, name, 0) {
                    Some(v) => behind(v, render_from(t, vars, e + 2)),
                    None => Err("提示词变量缺失："@ + name),
                }
            },
            None => behind(seq![t[i]], render_from(t, vars, i + 1)),
        }
    }
}

#[via_fn]
proof fn render_from_decreases(t: Seq<char>, vars: Seq<(Seq<char>, Seq<char>)>, i: int) {
    if 0 <= i < t.len() {
        reveal_strlit("}}");
        text::lemma_find_from(t, "}}"@, i + 2);
    }
}

/// The template with its places filled.
pub open spec fn render_of(t: Seq<char>, vars: Seq<(Seq<char>, Seq<char>)>) -> Result<
    Seq<char>,
    Seq<char>,
> {
    render_from(t, vars, 0)
}

/// Fills the places of a template; the first variable that is missing is named.
pub fn render(template: &str, vars: Vars) -> (r: Result<String, String>)
    ensures
        match r {
            Ok(s) => render_of(template@, vars_v(vars@)) == Ok::<_, Seq<char>>(s@),
            Err(e) => render_of(template@, vars_v(vars@)) == Err::<Seq<char>, _>(e@),
        },
{
    let t = to_chars(template);
    let open = to_chars("{{");
    let close = to_chars("}}");
    proof {
        reveal_strlit("{{");
        reveal_strlit("}}");
    }
    let ghost vv = vars_v(vars@);
    let mut out = String::new();
    let mut i: usize = 0;
    proof {
        let whole = render_from(t@, vv, 0);
        if whole is Ok {
            assert(out@ + whole->Ok_0 =~= whole->Ok_0);
        }
    }
    while i < t.len()
        invariant
            i <= t@.len(),
            t@ == template@,
            open@ == "{{"@,
            close@ == "}}"@,
            open@.len() == 2,
            close@.len() == 2,
            vv == vars_v(vars@),
            behind(out@, render_from(t@, vv, i as int)) == render_from(t@, vv, 0),
        decreases t@.len() - i,
    {
        let end: Option<usize> = if at(&t, &open, i) {
            find_in(&t, &close, i + 2)
        } else {
            None
        };
        let ghost before = out@;
        match end {
            Some(e) => {
                proof {
                    text::lemma_find_from(t@, close@, i + 2);
                }
                let name = trim(slice(&t, i + 2, e).as_str());
                let mut k: usize = 0;
                while k < vars.len() && !str_eq(vars[k].0, name.as_str())
                    invariant
                        k <= vars@.len(),
                        vv == vars_v(vars@),
                        var_from(vv, name@, 0) == var_from(vv, name@, k as int),
                    decreases vars@.len() - k,
                {
                    assert(vv[k as int].0 == vars@[k as int].0@);
                    k = k + 1;
                }
                if k >= vars.len() {
                    return Err(cat2("提示词变量缺失：", name.as_str()));
                }
                assert(vv[k as int] == (vars@[k as int].0@, vars@[k as int].1@));
                out.append(vars[k].1.as_str());
                proof {
                    let rest = render_from(t@, vv, e + 2);
                    let v = vars@[k as int].1@;
                    if rest is Ok {
                        assert(before + (v + rest->Ok_0) =~= out@ + rest->Ok_0);
                    }
                }
                i = e + 2;
            },
            None => {
                out.push(t[i]);
                proof {
                    let rest = render_from(t@, vv, i + 1);
                    if rest is Ok {
                        assert(before + (seq![t@[i as int]] + rest->Ok_0) =~= out@ + rest->Ok_0);
                    }
                }
                i = i + 1;
            },
        }
    }
    assert(out@ + Seq::<char>::empty() =~= out@);
    Ok(out)
}

// ---- templates that ask only for what they are given ----

/// Whether the places from `i` on ask only for the names given.
pub open spec fn asks_only(t: Seq<char>, names: Seq<Seq<char>>, i: int) -> bool
    decreases t.len() - i,
    via asks_only_decreases
{
    if i < 0 || i >= t.len() {
        true
    } else {
        match place_at(t, i) {
            Some(e) => names.contains(text::trimmed(t.subrange(i + 2, e))) && asks_only(t, names, e + 2),
            None => asks_only(t, names, i + 1),
        }
    }
}

#[via_fn]
proof fn asks_only_decreases(t: Seq<char>, names: Seq<Seq<char>>, i: int) {
    if 0 <= i < t.len() {
        reveal_strlit("}}");
        text::lemma_find_from(t, "}}"@, i + 2);
    }
}

/// Whether a template can be filled with variables of these names.
#[verifier::opaque]
pub open spec fn fillable(t: Seq<char>, names: Seq<Seq<char>>) -> bool {
    asks_only(t, names, 0)
}

/// A template filled with variables.
#[verifier::opaque]
pub open spec fn filled(t: Seq<char>, vars: Seq<(Seq<char>, Seq<char>)>) -> Seq<char> {
    match render_of(t, vars) {
        Ok(s) => s,
        Err(_) => Seq::empty(),
    }
}

pub open spec fn names_of(vars: Seq<(Seq<char>, Seq<char>)>) -> Seq<Seq<char>> {
    vars.map_values(|e: (Seq<char>, Seq<char>)| e.0)
}

proof fn lemma_var_from(vars: Seq<(Seq<char>, Seq<char>)>, name: Seq<char>, i: int)
    requires
        0 <= i,
    ensures
        var_from(vars, name, i) is Some <==> exists|k: int|
            i <= k < vars.len() && (#[trigger] vars[k]).0 == name,
    decreases vars.len() - i,
{
    if i < vars.len() && vars[i].0 != name {
        lemma_var_from(vars, name, i + 1);
    }
}

proof fn lemma_asks_only(t: Seq<char>, vars: Seq<(Seq<char>, Seq<char>)>, i: int)
    requires
        0 <= i,
    ensures
        render_from(t, vars, i) is Ok <==> asks_only(t, names_of(vars), i),
    decreases t.len() - i,
{
    if i < t.len() {
        reveal_strlit("}}");
        text::lemma_find_from(t, "}}"@, i + 2);
        match place_at(t, i) {
            Some(e) => {
                let name = text::trimmed(t.subrange(i + 2, e));
                lemma_var_from(vars, name, 0);
                let ns = names_of(vars);
                if ns.contains(name) {
                    let k = choose|k: int| 0 <= k < ns.len() && ns[k] == name;
                    assert(vars[k].0 == name);
                }
                if var_from(vars, name, 0) is Some {
                    let k = choose|k: int| 0 <= k < vars.len() && (#[trigger] vars[k]).0 == name;
                    assert(ns[k] == name);
                }
                lemma_asks_only(t, vars, e + 2);
            },
            None => {
                lemma_asks_only(t, vars, i + 1);
            },
        }
    }
}

/// A template renders exactly when it asks only for variables it is given;
/// what their values are does not matter.
pub proof fn rendering_depends_on_names(t: Seq<char>, vars: Seq<(Seq<char>, Seq<char>)>)
    ensures
        render_of(t, vars) is Ok <==> fillable(t, names_of(vars)),
{
    reveal(fillable);
    lemma_asks_only(t, vars, 0);
}

/// A text without places is its own filling.
pub proof fn plain_text_stays(t: Seq<char>, vars: Seq<(Seq<char>, Seq<char>)>)
    requires
        !text::contains_text(t, "{{"@),
    ensures
        render_of(t, vars) == Ok::<_, Seq<char>>(t),
{
    lemma_plain(t, vars, 0);
    assert(t.skip(0) =~= t);
}

proof fn lemma_plain(t: Seq<char>, vars: Seq<(Seq<char>, Seq<char>)>, i: int)
    requires
        0 <= i <= t.len(),
        !text::contains_text(t, "{{"@),
    ensures
        render_from(t, vars, i) == Ok::<_, Seq<char>>(t.skip(i)),
    decreases t.len() - i,
{
    if i < t.len() {
        assert(!text::stands_at(t, "{{"@, i));
        lemma_plain(t, vars, i + 1);
        assert(seq![t[i]] + t.skip(i + 1) =~= t.skip(i));
    } else {
        assert(t.skip(i) =~= Seq::<char>::empty());
    }
}

/// Whether a template can be filled with variables of these names.
pub fn can_fill(template: &str, names: &Vec<String>) -> (r: bool)
    ensures
        r == fillable(template@, text::texts(names@)),
{
    let mut vars: Vec<(&str, String)> = Vec::new();
    let mut i: usize = 0;
    while i < names.len()
        invariant
            i <= names@.len(),
            vars@.len() == i,
            forall|k: int| 0 <= k < i ==> (#[trigger] vars@[k]).0@ == names@[k]@,
        decreases names@.len() - i,
    {
        vars.push((names[i].as_str(), String::new()));
        i = i + 1;
    }
    proof {
        rendering_depends_on_names(template@, vars_v(vars@));
        assert(names_of(vars_v(vars@)) =~= text::texts(names@));
    }
    match render(template, vars.as_slice()) {
        Ok(_) => true,
        Err(_) => false,
    }
}

fn filling(template: &str, vars: &Vec<(&str, String)>) -> (r: String)
    requires
        fillable(template@, names_of(vars_v(vars@))),
    ensures
        r@ == filled(template@, vars_v(vars@)),
{
    proof {
        rendering_depends_on_names(template@, vars_v(vars@));
        reveal(filled);
    }
    match render(template, vars.as_slice()) {
        Ok(s) => s,
        Err(_) => String::new(),
    }
}

pub fn fill0(template: &str) -> (r: String)
    requires
        fillable(template@, Seq::empty()),
    ensures
        r@ == filled(template@, Seq::empty()),
{
    let vars: Vec<(&str, String)> = Vec::new();
    assert(vars_v(vars@) =~= Seq::empty());
    assert(names_of(vars_v(vars@)) =~= Seq::empty());
    filling(template, &vars)
}

pub fn fill1(template: &str, k1: &str, v1: &str) -> (r: String)
    requires
        fillable(template@, seq![k1@]),
    ensures
        r@ == filled(template@, seq![(k1@, v1@)]),
{
    let mut vars: Vec<(&str, String)> = Vec::new();
    vars.push((k1, v1.to_owned()));
    assert(vars_v(vars@) =~= seq![(k1@, v1@)]);
    assert(names_of(vars_v(vars@)) =~= seq![k1@]);
    filling(template, &vars)
}

pub fn fill2(template: &str, k1: &str, v1: &str, k2: &str, v2: &str) -> (r: String)
    requires
        fillable(template@, seq![k1@, k2@]),
    ensures
        r@ == filled(template@, seq![(k1@, v1@), (k2@, v2@)]),
{
    let mut vars: Vec<(&str, String)> = Vec::new();
    vars.push((k1, v1.to_owned()));
    vars.push((k2, v2.to_owned()));
    assert(vars_v(vars@) =~= seq![(k1@, v1@), (k2@, v2@)]);
    assert(names_of(vars_v(vars@)) =~= seq![k1@, k2@]);
    filling(template, &vars)
}

pub fn fill3(template: &str, k1: &str, v1: &str, k2: &str, v2: &str, k3: &str, v3: &str) -> (r: String)
    requires
        fillable(template@, seq![k1@, k2@, k3@]),
    ensures
        r@ == filled(template@, seq![(k1@, v1@), (k2@, v2@), (k3@, v3@)]),
{
    let mut vars: Vec<(&str, String)> = Vec::new();
    vars.push((k1, v1.to_owned()));
    vars.push((k2, v2.to_owned()));
    vars.push((k3, v3.to_owned()));
    assert(vars_v(vars@) =~= seq![(k1@, v1@), (k2@, v2@), (k3@, v3@)]);
    assert(names_of(vars_v(vars@)) =~= seq![k1@, k2@, k3@]);
    filling(template, &vars)
}

pub fn fill4(template: &str, k1: &str, v1: &str, k2: &str, v2: &str, k3: &str, v3: &str, k4: &str, v4: &str) -> (r: String)
    requires
        fillable(template@, seq![k1@, k2@, k3@, k4@]),
    ensures
        r@ == filled(template@, seq![(k1@, v1@), (k2@, v2@), (k3@, v3@), (k4@, v4@)]),
{
    let mut vars: Vec<(&str, String)> = Vec::new();
    vars.push((k1, v1.to_owned()));
    vars.push((k2, v2.to_owned()));
    vars.push((k3, v3.to_owned()));
    vars.push((k4, v4.to_owned()));
    assert(vars_v(vars@) =~= seq![(k1@, v1@), (k2@, v2@), (k3@, v3@), (k4@, v4@)]);
    assert(names_of(vars_v(vars@)) =~= seq![k1@, k2@, k3@, k4@]);
    filling(template, &vars)
}

pub fn fill5(template: &str, k1: &str, v1: &str, k2: &str, v2: &str, k3: &str, v3: &str, k4: &str, v4: &str, k5: &str, v5: &str) -> (r: String)
    requires
        fillable(template@, seq![k1@, k2@, k3@, k4@, k5@]),
    ensures
        r@ == filled(template@, seq![(k1@, v1@), (k2@, v2@), (k3@, v3@), (k4@, v4@), (k5@, v5@)]),
{
    let mut vars: Vec<(&str, String)> = Vec::new();
    vars.push((k1, v1.to_owned()));
    vars.push((k2, v2.to_owned()));
    vars.push((k3, v3.to_owned()));
    vars.push((k4, v4.to_owned()));
    vars.push((k5, v5.to_owned()));
    assert(vars_v(vars@) =~= seq![(k1@, v1@), (k2@, v2@), (k3@, v3@), (k4@, v4@), (k5@, v5@)]);
    assert(names_of(vars_v(vars@)) =~= seq![k1@, k2@, k3@, k4@, k5@]);
    filling(template, &vars)
}

pub fn fill6(template: &str, k1: &str, v1: &str, k2: &str, v2: &str, k3: &str, v3: &str, k4: &str, v4: &str, k5: &str, v5: &str, k6: &str, v6: &str) -> (r: String)
    requires
        fillable(template@, seq![k1@, k2@, k3@, k4@, k5@, k6@]),
    ensures
        r@ == filled(template@, seq![(k1@, v1@), (k2@, v2@), (k3@, v3@), (k4@, v4@), (k5@, v5@), (k6@, v6@)]),
{
    let mut vars: Vec<(&str, String)> = Vec::new();
    vars.push((k1, v1.to_owned()));
    vars.push((k2, v2.to_owned()));
    vars.push((k3, v3.to_owned()));
    vars.push((k4, v4.to_owned()));
    vars.push((k5, v5.to_owned()));
    vars.push((k6, v6.to_owned()));
    assert(vars_v(vars@) =~= seq![(k1@, v1@), (k2@, v2@), (k3@, v3@), (k4@, v4@), (k5@, v5@), (k6@, v6@)]);
    assert(names_of(vars_v(vars@)) =~= seq![k1@, k2@, k3@, k4@, k5@, k6@]);
    filling(template, &vars)
}

pub fn fill7(template: &str, k1: &str, v1: &str, k2: &str, v2: &str, k3: &str, v3: &str, k4: &str, v4: &str, k5: &str, v5: &str, k6: &str, v6: &str, k7: &str, v7: &str) -> (r: String)
    requires
        fillable(template@, seq![k1@, k2@, k3@, k4@, k5@, k6@, k7@]),
    ensures
        r@ == filled(template@, seq![(k1@, v1@), (k2@, v2@), (k3@, v3@), (k4@, v4@), (k5@, v5@), (k6@, v6@), (k7@, v7@)]),
{
    let mut vars: Vec<(&str, String)> = Vec::new();
    vars.push((k1, v1.to_owned()));
    vars.push((k2, v2.to_owned()));
    vars.push((k3, v3.to_owned()));
    vars.push((k4, v4.to_owned()));
    vars.push((k5, v5.to_owned()));
    vars.push((k6, v6.to_owned()));
    vars.push((k7, v7.to_owned()));
    assert(vars_v(vars@) =~= seq![(k1@, v1@), (k2@, v2@), (k3@, v3@), (k4@, v4@), (k5@, v5@), (k6@, v6@), (k7@, v7@)]);
    assert(names_of(vars_v(vars@)) =~= seq![k1@, k2@, k3@, k4@, k5@, k6@, k7@]);
    filling(template, &vars)
}

fn names0() -> (v: Vec<String>)
    ensures
        text::texts(v@) == Seq::<Seq<char>>::empty(),
{
    let v: Vec<String> = Vec::new();
    assert(text::texts(v@) =~= Seq::empty());
    v
}

fn names1(a1: &str) -> (v: Vec<String>)
    ensures
        text::texts(v@) == seq![a1@],
{
    let mut v: Vec<String> = Vec::new();
    v.push(a1.to_owned());
    assert(text::texts(v@) =~= seq![a1@]);
    v
}

fn names2(a1: &str, a2: &str) -> (v: Vec<String>)
    ensures
        text::texts(v@) == seq![a1@, a2@],
{
    let mut v: Vec<String> = Vec::new();
    v.push(a1.to_owned());
    v.push(a2.to_owned());
    assert(text::texts(v@) =~= seq![a1@, a2@]);
    v
}

fn names3(a1: &str, a2: &str, a3: &str) -> (v: Vec<String>)
    ensures
        text::texts(v@) == seq![a1@, a2@, a3@],
{
    let mut v: Vec<String> = Vec::new();
    v.push(a1.to_owned());
    v.push(a2.to_owned());
    v.push(a3.to_owned());
    assert(text::texts(v@) =~= seq![a1@, a2@, a3@]);
    v
}

fn names4(a1: &str, a2: &str, a3: &str, a4: &str) -> (v: Vec<String>)
    ensures
        text::texts(v@) == seq![a1@, a2@, a3@, a4@],
{
    let mut v: Vec<String> = Vec::new();
    v.push(a1.to_owned());
    v.push(a2.to_owned());
    v.push(a3.to_owned());
    v.push(a4.to_owned());
    assert(text::texts(v@) =~= seq![a1@, a2@, a3@, a4@]);
    v
}

fn names5(a1: &str, a2: &str, a3: &str, a4: &str, a5: &str) -> (v: Vec<String>)
    ensures
        text::texts(v@) == seq![a1@, a2@, a3@, a4@, a5@],
{
    let mut v: Vec<String> = Vec::new();
    v.push(a1.to_owned());
    v.push(a2.to_owned());
    v.push(a3.to_owned());
    v.push(a4.to_owned());
    v.push(a5.to_owned());
    assert(text::texts(v@) =~= seq![a1@, a2@, a3@, a4@, a5@]);
    v
}

fn names6(a1: &str, a2: &str, a3: &str, a4: &str, a5: &str, a6: &str) -> (v: Vec<String>)
    ensures
        text::texts(v@) == seq![a1@, a2@, a3@, a4@, a5@, a6@],
{
    let mut v: Vec<String> = Vec::new();
    v.push(a1.to_owned());
    v.push(a2.to_owned());
    v.push(a3.to_owned());
    v.push(a4.to_owned());
    v.push(a5.to_owned());
    v.push(a6.to_owned());
    assert(text::texts(v@) =~= seq![a1@, a2@, a3@, a4@, a5@, a6@]);
    v
}

fn names7(a1: &str, a2: &str, a3: &str, a4: &str, a5: &str, a6: &str, a7: &str) -> (v: Vec<String>)
    ensures
        text::texts(v@) == seq![a1@, a2@, a3@, a4@, a5@, a6@, a7@],
{
    let mut v: Vec<String> = Vec::new();
    v.push(a1.to_owned());
    v.push(a2.to_owned());
    v.push(a3.to_owned());
    v.push(a4.to_owned());
    v.push(a5.to_owned());
    v.push(a6.to_owned());
    v.push(a7.to_owned());
    assert(text::texts(v@) =~= seq![a1@, a2@, a3@, a4@, a5@, a6@, a7@]);
    v
}

/// The prompt book.
#[derive(Debug)]
pub struct Prompts {
    pub core: CorePrompts,
}

/// The texts of the book, by what they are for.
#[derive(Debug)]
pub struct CorePrompts {
    pub chat_protocol: String,
    pub mechanism: String,
    pub discuss: DiscussPrompts,
    pub synthesize: SynthPrompts,
    pub execute: ExecutePrompts,
    pub review: ReviewPrompts,
    pub rerun: RerunPrompts,
    pub verdict: VerdictPrompts,
    pub node_review: NodeReviewPrompts,
    pub slate: SlatePrompts,
    pub suggest_models: SuggestPrompts,
    pub agent: AgentPrompts,
    pub refs: RefsPrompts,
    pub tool_calling_envelope: String,
    pub tool_calling_native: String,
    pub tool_texts: ToolTexts,
    pub sys_tools: String,
    pub patch_guide: String,
    pub builtin_tools: ToolBook,
    pub no_agents: String,
    pub no_model: String,
    pub no_module_dirs: String,
    pub no_module_tools: String,
    pub module_tool_params_header: String,
    pub no_module_tool_params: String,
}

/// What the model is told about tools and paths: receipts, failures, listing lines.
#[derive(Debug)]
pub struct ToolTexts {
    pub path_empty: String,
    pub path_need_absolute: String,
    pub path_empty_segment: String,
    pub path_cur_dir: String,
    pub path_parent_dir: String,
    pub path_outside_roots: String,
    pub roots_wrapper: String,
    pub roots_shared: String,
    pub roots_private: String,
    pub roots_module: String,
    pub bad_args_json: String,
    pub arg_fault: String,
    pub arg_not_object: String,
    pub arg_missing: String,
    pub arg_wrong_type: String,
    pub arg_empty: String,
    pub arg_too_small: String,
    pub arg_too_big: String,
    pub arg_unknown: String,
    pub unknown_builtin: String,
    pub read_header: String,
    pub write_header: String,
    pub edit_header: String,
    pub edit_same: String,
    pub edit_no_match: String,
    pub edit_no_match_near: String,
    pub edit_multi: String,
    pub edit_file_cut: String,
    pub edit_file_lossy: String,
    pub patch_header: String,
    pub patch_block_add: String,
    pub patch_block_overwrite: String,
    pub patch_block_update: String,
    pub patch_block_fault: String,
    pub patch_edit_fault: String,
    pub patch_write_failed: String,
    pub patch_not_found: String,
    pub patch_multiple: String,
    pub patch_near: String,
    pub patch_file_missing: String,
    pub patch_no_blocks: String,
    pub patch_unknown_marker: String,
    pub patch_missing_path: String,
    pub patch_empty_add: String,
    pub patch_empty_update: String,
    pub patch_empty_search: String,
    pub patch_missing_end: String,
    pub patch_search_no_replace: String,
    pub patch_replace_no_search: String,
    pub write_need_read: String,
    pub write_stale: String,
    pub write_partial: String,
    pub read_partial_range: String,
    pub read_partial_cut: String,
    pub read_partial_lossy: String,
    pub read_partial_none: String,
    pub write_module_note: String,
    pub search_header: String,
    pub search_mode_sensitive: String,
    pub search_mode_insensitive: String,
    pub search_no_hits: String,
    pub search_summary: String,
    pub search_hit_line: String,
    pub search_truncated: String,
    pub read_line: String,
    pub read_line_capped: String,
    pub read_more: String,
    pub read_more_cut: String,
    pub read_end: String,
    pub read_past_end: String,
    pub search_truncated_bytes: String,
    pub lossy_note: String,
    pub no_module_field: String,
    pub unknown_module: String,
    pub module_lacks_tool: String,
    pub module_unavailable: String,
    pub available_wrapper: String,
    pub tool_result_wrapper: String,
    pub tool_cap: String,
    pub envelope_repaired: String,
    pub malformed_unclosed_brace: String,
    pub native_no_envelope: String,
    pub malformed_multi: String,
    pub malformed_unclosed_string: String,
    pub malformed_missing_tail: String,
    pub malformed_cut_string: String,
    pub malformed_truncated: String,
    pub malformed_control: String,
    pub malformed_syntax: String,
    pub malformed_shape: String,
    pub control_lf: String,
    pub control_cr: String,
    pub control_tab: String,
    pub control_other: String,
    pub discuss_degraded: String,
    pub stopped_suffix: String,
    pub truncated_suffix: String,
    pub tool_stderr_header: String,
    pub tool_timeout: String,
    pub tool_fence_failed: String,
    pub tool_truncated: String,
    pub module_listing_line: String,
    pub module_tools_line: String,
    pub module_tool_params_line: String,
    pub module_root_line: String,
    pub agent_listing_line: String,
    pub model_listing_line: String,
    pub tool_list_separator: String,
    pub discuss_reminder: String,
    pub tools_this_turn: String,
    pub compact_prompt: String,
}

/// How a reference to a file the reader cannot reach is explained.
#[derive(Debug)]
pub struct RefsPrompts {
    pub foreign_sandbox: String,
    pub collab_sandbox: String,
}

/// The texts of a discussion.
#[derive(Debug)]
pub struct DiscussPrompts {
    pub opener: String,
    pub step: String,
    pub autonomy_note: String,
}

/// The texts for drawing up a plan.
#[derive(Debug)]
pub struct SynthPrompts {
    pub system: String,
    pub user: String,
}

/// The texts for carrying out a task.
#[derive(Debug)]
pub struct ExecutePrompts {
    pub user: String,
}

/// The texts for reviewing reports.
#[derive(Debug)]
pub struct ReviewPrompts {
    pub system: String,
    pub user: String,
}

/// The texts for doing a task again.
#[derive(Debug)]
pub struct RerunPrompts {
    pub user: String,
}

/// The texts for drafting a team.
#[derive(Debug)]
pub struct SlatePrompts {
    pub system: String,
    pub user: String,
}

/// The texts for suggesting agents.
#[derive(Debug)]
pub struct SuggestPrompts {
    pub system: String,
    pub user: String,
    pub mode_single: String,
    pub mode_collab: String,
}

/// The text that tells an agent its duties.
#[derive(Debug)]
pub struct AgentPrompts {
    pub system: String,
}

/// The texts for judging an answer.
#[derive(Debug)]
pub struct VerdictPrompts {
    pub system: String,
    pub user: String,
}

/// The texts for accepting task results.
#[derive(Debug)]
pub struct NodeReviewPrompts {
    pub system: String,
    pub user: String,
}

/// Whether every template of the texts asks only for the variables it is given.
pub open spec fn texts_sound(t: ToolTexts) -> bool {
    &&& fillable(t.path_need_absolute@, seq!["path"@])
    &&& fillable(t.path_empty_segment@, seq!["path"@])
    &&& fillable(t.path_cur_dir@, seq!["path"@])
    &&& fillable(t.path_parent_dir@, seq!["path"@])
    &&& fillable(t.path_outside_roots@, seq!["path"@])
    &&& fillable(t.roots_wrapper@, seq!["why"@, "roots"@])
    &&& fillable(t.roots_shared@, seq!["root"@])
    &&& fillable(t.roots_private@, seq!["root"@])
    &&& fillable(t.roots_module@, seq!["id"@, "root"@])
    &&& fillable(t.bad_args_json@, seq!["error"@])
    &&& fillable(t.arg_fault@, seq!["why"@, "signature"@])
    &&& fillable(t.arg_missing@, seq!["name"@])
    &&& fillable(t.arg_wrong_type@, seq!["name"@, "want"@])
    &&& fillable(t.arg_empty@, seq!["name"@])
    &&& fillable(t.arg_too_small@, seq!["name"@, "min"@])
    &&& fillable(t.arg_too_big@, seq!["name"@, "max"@])
    &&& fillable(t.arg_unknown@, seq!["name"@])
    &&& fillable(t.unknown_builtin@, seq!["name"@])
    &&& fillable(t.read_header@, seq!["path"@, "bytes"@, "text"@])
    &&& fillable(t.write_header@, seq!["path"@, "chars"@])
    &&& fillable(t.edit_header@, seq!["path"@, "n"@, "lines"@])
    &&& fillable(t.edit_no_match@, seq!["total"@])
    &&& fillable(t.edit_no_match_near@, seq!["line"@, "actual"@])
    &&& fillable(t.edit_multi@, seq!["n"@, "lines"@])
    &&& fillable(t.edit_file_cut@, seq!["path"@])
    &&& fillable(t.edit_file_lossy@, seq!["path"@])
    &&& fillable(t.patch_header@, seq!["blocks"@, "files"@, "lines"@])
    &&& fillable(t.patch_block_add@, seq!["path"@, "chars"@])
    &&& fillable(t.patch_block_overwrite@, seq!["path"@, "chars"@])
    &&& fillable(t.patch_block_update@, seq!["path"@, "n"@])
    &&& fillable(t.patch_block_fault@, seq!["n"@, "why"@])
    &&& fillable(t.patch_edit_fault@, seq!["n"@, "k"@, "path"@, "why"@])
    &&& fillable(t.patch_write_failed@, seq!["n"@, "error"@])
    &&& fillable(t.patch_not_found@, seq!["total"@])
    &&& fillable(t.patch_multiple@, seq!["n"@, "lines"@])
    &&& fillable(t.patch_near@, seq!["line"@, "actual"@])
    &&& fillable(t.patch_file_missing@, seq!["path"@])
    &&& fillable(t.patch_unknown_marker@, seq!["line"@, "text"@])
    &&& fillable(t.patch_missing_path@, seq!["line"@, "marker"@])
    &&& fillable(t.patch_empty_add@, seq!["line"@])
    &&& fillable(t.patch_empty_update@, seq!["line"@])
    &&& fillable(t.patch_empty_search@, seq!["line"@])
    &&& fillable(t.patch_missing_end@, seq!["line"@])
    &&& fillable(t.patch_search_no_replace@, seq!["line"@])
    &&& fillable(t.patch_replace_no_search@, seq!["line"@])
    &&& fillable(t.write_need_read@, seq!["path"@])
    &&& fillable(t.write_stale@, seq!["path"@])
    &&& fillable(t.write_partial@, seq!["path"@, "why"@])
    &&& fillable(t.read_partial_range@, seq!["from"@, "to"@, "total"@])
    &&& fillable(t.write_module_note@, seq!["mark"@, "id"@])
    &&& fillable(t.search_header@, seq!["path"@, "keyword"@, "mode"@])
    &&& fillable(t.search_summary@, seq!["hits"@, "total"@])
    &&& fillable(t.search_hit_line@, seq!["n"@, "line"@])
    &&& fillable(t.search_truncated@, seq!["limit"@])
    &&& fillable(t.read_line@, seq!["n"@, "line"@])
    &&& fillable(t.read_line_capped@, seq!["limit"@])
    &&& fillable(t.read_more@, seq!["from"@, "to"@, "total"@, "next"@])
    &&& fillable(t.read_more_cut@, seq!["from"@, "to"@])
    &&& fillable(t.read_end@, seq!["total"@])
    &&& fillable(t.read_past_end@, seq!["total"@])
    &&& fillable(t.no_module_field@, seq!["tool"@])
    &&& fillable(t.unknown_module@, seq!["module"@])
    &&& fillable(t.module_lacks_tool@, seq!["module"@, "tool"@])
    &&& fillable(t.module_unavailable@, seq!["module"@, "capability"@])
    &&& fillable(t.available_wrapper@, seq!["why"@, "tools"@])
    &&& fillable(t.tool_result_wrapper@, seq!["label"@, "output"@])
    &&& fillable(t.tool_cap@, seq!["n"@])
    &&& fillable(t.envelope_repaired@, seq!["what"@])
    &&& fillable(t.malformed_unclosed_brace@, seq!["missing"@])
    &&& fillable(t.malformed_multi@, seq!["n"@, "missing"@])
    &&& fillable(t.malformed_missing_tail@, seq!["missing"@])
    &&& fillable(t.malformed_control@, seq!["what"@, "line"@])
    &&& fillable(t.malformed_syntax@, seq!["why"@])
    &&& fillable(t.malformed_shape@, seq!["why"@])
    &&& fillable(t.control_other@, seq!["code"@])
    &&& fillable(t.tool_truncated@, seq!["chars"@, "limit"@])
    &&& fillable(t.module_listing_line@, seq!["id"@, "brief"@])
    &&& fillable(t.module_tools_line@, seq!["id"@, "tools"@])
    &&& fillable(t.module_tool_params_line@, seq!["module"@, "tool"@, "signature"@])
    &&& fillable(t.module_root_line@, seq!["id"@, "root"@])
    &&& fillable(t.agent_listing_line@, seq!["name"@, "modules"@, "model"@, "note"@])
    &&& fillable(t.model_listing_line@, seq!["id"@, "name"@, "api_model"@, "note"@])
    &&& fillable(t.tools_this_turn@, seq!["tools"@])
}

/// Whether every template of the book asks only for the variables it is given.
pub open spec fn book_sound(p: Prompts) -> bool {
    &&& texts_sound(p.core.tool_texts)
    &&& fillable(p.core.sys_tools@, seq!["work_name"@, "agent"@, "work_root"@, "sandbox_root"@, "module_roots"@, "tool_params"@, "patch_guide"@])
    &&& fillable(p.core.patch_guide@, seq!["work_root"@, "sandbox_root"@])
    &&& fillable(p.core.discuss.opener@, seq!["protocol"@, "task"@])
    &&& fillable(p.core.discuss.step@, seq!["transcript"@])
    &&& fillable(p.core.synthesize.user@, seq!["roster"@, "transcript"@])
    &&& fillable(p.core.execute.user@, seq!["tasks"@])
    &&& fillable(p.core.review.user@, seq!["plan"@, "reports"@, "nodes"@])
    &&& fillable(p.core.rerun.user@, seq!["tasks"@, "review"@, "report"@])
    &&& fillable(p.core.verdict.user@, seq!["kind"@, "payload"@, "text"@])
    &&& fillable(p.core.node_review.user@, seq!["nodes"@])
    &&& fillable(p.core.slate.user@, seq!["agents"@, "modules"@, "models"@, "task"@])
    &&& fillable(p.core.suggest_models.user@, seq!["mode"@, "agents"@, "modules"@, "models"@, "task"@])
    &&& fillable(p.core.agent.system@, seq!["agent"@, "modules"@, "sys_tools"@, "module_tools"@, "module_tool_params"@, "tool_calling"@])
    &&& fillable(p.core.refs.foreign_sandbox@, seq!["agent"@, "path"@])
    &&& fillable(p.core.refs.collab_sandbox@, seq!["agent"@, "path"@])
    &&& fillable(p.core.tool_texts.discuss_degraded@, Seq::empty())
    &&& fillable(p.core.tool_texts.truncated_suffix@, Seq::empty())
}

impl ToolTexts {
    /// Whether every template asks only for the variables it is given.
    pub fn sound(&self) -> (r: bool)
        ensures
            r == texts_sound(*self),
    {
        can_fill(self.path_need_absolute.as_str(), &names1("path"))
            && can_fill(self.path_empty_segment.as_str(), &names1("path"))
            && can_fill(self.path_cur_dir.as_str(), &names1("path"))
            && can_fill(self.path_parent_dir.as_str(), &names1("path"))
            && can_fill(self.path_outside_roots.as_str(), &names1("path"))
            && can_fill(self.roots_wrapper.as_str(), &names2("why", "roots"))
            && can_fill(self.roots_shared.as_str(), &names1("root"))
            && can_fill(self.roots_private.as_str(), &names1("root"))
            && can_fill(self.roots_module.as_str(), &names2("id", "root"))
            && can_fill(self.bad_args_json.as_str(), &names1("error"))
            && can_fill(self.arg_fault.as_str(), &names2("why", "signature"))
            && can_fill(self.arg_missing.as_str(), &names1("name"))
            && can_fill(self.arg_wrong_type.as_str(), &names2("name", "want"))
            && can_fill(self.arg_empty.as_str(), &names1("name"))
            && can_fill(self.arg_too_small.as_str(), &names2("name", "min"))
            && can_fill(self.arg_too_big.as_str(), &names2("name", "max"))
            && can_fill(self.arg_unknown.as_str(), &names1("name"))
            && can_fill(self.unknown_builtin.as_str(), &names1("name"))
            && can_fill(self.read_header.as_str(), &names3("path", "bytes", "text"))
            && can_fill(self.write_header.as_str(), &names2("path", "chars"))
            && can_fill(self.edit_header.as_str(), &names3("path", "n", "lines"))
            && can_fill(self.edit_no_match.as_str(), &names1("total"))
            && can_fill(self.edit_no_match_near.as_str(), &names2("line", "actual"))
            && can_fill(self.edit_multi.as_str(), &names2("n", "lines"))
            && can_fill(self.edit_file_cut.as_str(), &names1("path"))
            && can_fill(self.edit_file_lossy.as_str(), &names1("path"))
            && can_fill(self.patch_header.as_str(), &names3("blocks", "files", "lines"))
            && can_fill(self.patch_block_add.as_str(), &names2("path", "chars"))
            && can_fill(self.patch_block_overwrite.as_str(), &names2("path", "chars"))
            && can_fill(self.patch_block_update.as_str(), &names2("path", "n"))
            && can_fill(self.patch_block_fault.as_str(), &names2("n", "why"))
            && can_fill(self.patch_edit_fault.as_str(), &names4("n", "k", "path", "why"))
            && can_fill(self.patch_write_failed.as_str(), &names2("n", "error"))
            && can_fill(self.patch_not_found.as_str(), &names1("total"))
            && can_fill(self.patch_multiple.as_str(), &names2("n", "lines"))
            && can_fill(self.patch_near.as_str(), &names2("line", "actual"))
            && can_fill(self.patch_file_missing.as_str(), &names1("path"))
            && can_fill(self.patch_unknown_marker.as_str(), &names2("line", "text"))
            && can_fill(self.patch_missing_path.as_str(), &names2("line", "marker"))
            && can_fill(self.patch_empty_add.as_str(), &names1("line"))
            && can_fill(self.patch_empty_update.as_str(), &names1("line"))
            && can_fill(self.patch_empty_search.as_str(), &names1("line"))
            && can_fill(self.patch_missing_end.as_str(), &names1("line"))
            && can_fill(self.patch_search_no_replace.as_str(), &names1("line"))
            && can_fill(self.patch_replace_no_search.as_str(), &names1("line"))
            && can_fill(self.write_need_read.as_str(), &names1("path"))
            && can_fill(self.write_stale.as_str(), &names1("path"))
            && can_fill(self.write_partial.as_str(), &names2("path", "why"))
            && can_fill(self.read_partial_range.as_str(), &names3("from", "to", "total"))
            && can_fill(self.write_module_note.as_str(), &names2("mark", "id"))
            && can_fill(self.search_header.as_str(), &names3("path", "keyword", "mode"))
            && can_fill(self.search_summary.as_str(), &names2("hits", "total"))
            && can_fill(self.search_hit_line.as_str(), &names2("n", "line"))
            && can_fill(self.search_truncated.as_str(), &names1("limit"))
            && can_fill(self.read_line.as_str(), &names2("n", "line"))
            && can_fill(self.read_line_capped.as_str(), &names1("limit"))
            && can_fill(self.read_more.as_str(), &names4("from", "to", "total", "next"))
            && can_fill(self.read_more_cut.as_str(), &names2("from", "to"))
            && can_fill(self.read_end.as_str(), &names1("total"))
            && can_fill(self.read_past_end.as_str(), &names1("total"))
            && can_fill(self.no_module_field.as_str(), &names1("tool"))
            && can_fill(self.unknown_module.as_str(), &names1("module"))
            && can_fill(self.module_lacks_tool.as_str(), &names2("module", "tool"))
            && can_fill(self.module_unavailable.as_str(), &names2("module", "capability"))
            && can_fill(self.available_wrapper.as_str(), &names2("why", "tools"))
            && can_fill(self.tool_result_wrapper.as_str(), &names2("label", "output"))
            && can_fill(self.tool_cap.as_str(), &names1("n"))
            && can_fill(self.envelope_repaired.as_str(), &names1("what"))
            && can_fill(self.malformed_unclosed_brace.as_str(), &names1("missing"))
            && can_fill(self.malformed_multi.as_str(), &names2("n", "missing"))
            && can_fill(self.malformed_missing_tail.as_str(), &names1("missing"))
            && can_fill(self.malformed_control.as_str(), &names2("what", "line"))
            && can_fill(self.malformed_syntax.as_str(), &names1("why"))
            && can_fill(self.malformed_shape.as_str(), &names1("why"))
            && can_fill(self.control_other.as_str(), &names1("code"))
            && can_fill(self.tool_truncated.as_str(), &names2("chars", "limit"))
            && can_fill(self.module_listing_line.as_str(), &names2("id", "brief"))
            && can_fill(self.module_tools_line.as_str(), &names2("id", "tools"))
            && can_fill(self.module_tool_params_line.as_str(), &names3("module", "tool", "signature"))
            && can_fill(self.module_root_line.as_str(), &names2("id", "root"))
            && can_fill(self.agent_listing_line.as_str(), &names4("name", "modules", "model", "note"))
            && can_fill(self.model_listing_line.as_str(), &names4("id", "name", "api_model", "note"))
            && can_fill(self.tools_this_turn.as_str(), &names1("tools"))
    }
}

impl Prompts {
    /// Whether every template asks only for the variables it is given.
    pub fn sound(&self) -> (r: bool)
        ensures
            r == book_sound(*self),
    {
        self.core.tool_texts.sound()
            && can_fill(self.core.sys_tools.as_str(), &names7("work_name", "agent", "work_root", "sandbox_root", "module_roots", "tool_params", "patch_guide"))
            && can_fill(self.core.patch_guide.as_str(), &names2("work_root", "sandbox_root"))
            && can_fill(self.core.discuss.opener.as_str(), &names2("protocol", "task"))
            && can_fill(self.core.discuss.step.as_str(), &names1("transcript"))
            && can_fill(self.core.synthesize.user.as_str(), &names2("roster", "transcript"))
            && can_fill(self.core.execute.user.as_str(), &names1("tasks"))
            && can_fill(self.core.review.user.as_str(), &names3("plan", "reports", "nodes"))
            && can_fill(self.core.rerun.user.as_str(), &names3("tasks", "review", "report"))
            && can_fill(self.core.verdict.user.as_str(), &names3("kind", "payload", "text"))
            && can_fill(self.core.node_review.user.as_str(), &names1("nodes"))
            && can_fill(self.core.slate.user.as_str(), &names4("agents", "modules", "models", "task"))
            && can_fill(self.core.suggest_models.user.as_str(), &names5("mode", "agents", "modules", "models", "task"))
            && can_fill(self.core.agent.system.as_str(), &names6("agent", "modules", "sys_tools", "module_tools", "module_tool_params", "tool_calling"))
            && can_fill(self.core.refs.foreign_sandbox.as_str(), &names2("agent", "path"))
            && can_fill(self.core.refs.collab_sandbox.as_str(), &names2("agent", "path"))
            && can_fill(self.core.tool_texts.discuss_degraded.as_str(), &names0())
            && can_fill(self.core.tool_texts.truncated_suffix.as_str(), &names0())
    }
}

// ---- rendering from the book ----

impl ToolTexts {
    /// Fills one of the texts. A missing variable is an assembly fault, so the
    /// template must ask only for the variables given.
    pub fn render(&self, template: &str, vars: Vars) -> (r: String)
        requires
            fillable(template@, names_of(vars_v(vars@))),
        ensures
            r@ == filled(template@, vars_v(vars@)),
    {
        proof {
            rendering_depends_on_names(template@, vars_v(vars@));
            reveal(filled);
        }
        match render(template, vars) {
            Ok(s) => s,
            Err(_) => String::new(),
        }
    }

    /// What is said of an unclosed envelope.
    fn unclosed_report(&self, tail: &Tail) -> (r: String)
        requires
            texts_sound(*self),
        ensures
            r@ == unclosed_text(*self, *tail),
    {
        if tail.envelopes > 1 {
            return fill2(
                self.malformed_multi.as_str(),
                "n",
                dec_usize(tail.envelopes).as_str(),
                "missing",
                tail.missing.as_str(),
            );
        }
        if tail.in_string {
            self.malformed_unclosed_string.clone()
        } else {
            fill1(self.malformed_unclosed_brace.as_str(), "missing", tail.missing.as_str())
        }
    }

    fn tail_note(&self, tail: &Tail) -> (r: String)
        requires
            texts_sound(*self),
        ensures
            r@ == tail_text(*self, *tail),
    {
        if tail.in_string {
            self.malformed_cut_string.clone()
        } else {
            fill1(self.malformed_missing_tail.as_str(), "missing", tail.missing.as_str())
        }
    }

    /// What the model is told of a malformed tool envelope, by its kind.
    pub fn malformed_report(&self, kind: &Malformed) -> (r: String)
        requires
            texts_sound(*self),
        ensures
            r@ == malformed_text(*self, *kind),
    {
        match kind {
            Malformed::Unclosed(tail) => self.unclosed_report(tail),
            Malformed::RawControl { ch, line, tail } => {
                let c = *ch;
                let what = if c == '\n' {
                    self.control_lf.clone()
                } else if c == '\r' {
                    self.control_cr.clone()
                } else if c == '\t' {
                    self.control_tab.clone()
                } else {
                    fill1(self.control_other.as_str(), "code", hex4(c as u32).as_str())
                };
                let out = fill2(
                    self.malformed_control.as_str(),
                    "what",
                    what.as_str(),
                    "line",
                    dec_usize(*line).as_str(),
                );
                match tail {
                    Some(t) => cat3(out.as_str(), "\n", self.tail_note(t).as_str()),
                    None => out,
                }
            },
            Malformed::Syntax(why) => fill1(self.malformed_syntax.as_str(), "why", why.as_str()),
            Malformed::Shape(why) => fill1(self.malformed_shape.as_str(), "why", why.as_str()),
        }
    }
}

pub open spec fn unclosed_text(t: ToolTexts, tail: Tail) -> Seq<char> {
    if tail.envelopes > 1 {
        filled(
            t.malformed_multi@,
            seq![("n"@, text::decimal(tail.envelopes as nat)), ("missing"@, tail.missing@)],
        )
    } else if tail.in_string {
        t.malformed_unclosed_string@
    } else {
        filled(t.malformed_unclosed_brace@, seq![("missing"@, tail.missing@)])
    }
}

pub open spec fn tail_text(t: ToolTexts, tail: Tail) -> Seq<char> {
    if tail.in_string {
        t.malformed_cut_string@
    } else {
        filled(t.malformed_missing_tail@, seq![("missing"@, tail.missing@)])
    }
}

/// What the model is told of a malformed envelope. A stray control character is
/// named, and what is left open is told along with it.
pub open spec fn malformed_text(t: ToolTexts, kind: Malformed) -> Seq<char> {
    match kind {
        Malformed::Unclosed(tail) => unclosed_text(t, tail),
        Malformed::RawControl { ch, line, tail } => {
            let what = if ch == '\n' {
                t.control_lf@
            } else if ch == '\r' {
                t.control_cr@
            } else if ch == '\t' {
                t.control_tab@
            } else {
                filled(t.control_other@, seq![("code"@, text::hex_four(ch as nat))])
            };
            let out = filled(
                t.malformed_control@,
                seq![("what"@, what), ("line"@, text::decimal(line as nat))],
            );
            match tail {
                Some(x) => out + "\n"@ + tail_text(t, x),
                None => out,
            }
        },
        Malformed::Syntax(why) => filled(t.malformed_syntax@, seq![("why"@, why@)]),
        Malformed::Shape(why) => filled(t.malformed_shape@, seq![("why"@, why@)]),
    }
}

impl Prompts {
    /// Fills one of the book's templates, which must ask only for the variables given.
    pub fn render(&self, template: &str, vars: Vars) -> (r: String)
        requires
            fillable(template@, names_of(vars_v(vars@))),
        ensures
            r@ == filled(template@, vars_v(vars@)),
    {
        self.core.tool_texts.render(template, vars)
    }
}

proof fn lemma_find_behind(a: Seq<char>, b: Seq<char>, p: Seq<char>, i: int)
    requires
        0 <= i,
    ensures
        text::find_from(a + b, p, a.len() + i) == match text::find_from(b, p, i) {
            Some(e) => Some(a.len() + e),
            None => None,
        },
    decreases b.len() + 1 - i,
{
    if i + p.len() <= b.len() {
        assert((a + b).subrange(a.len() + i, a.len() + i + p.len()) =~= b.subrange(i, i + p.len()));
        assert(text::stands_at(a + b, p, a.len() + i) == text::stands_at(b, p, i));
        lemma_find_behind(a, b, p, i + 1);
    }
}

proof fn lemma_render_behind(a: Seq<char>, b: Seq<char>, vars: Seq<(Seq<char>, Seq<char>)>, i: int)
    requires
        0 <= i,
    ensures
        render_from(a + b, vars, a.len() + i) == render_from(b, vars, i),
    decreases b.len() - i,
{
    if i < b.len() {
        reveal_strlit("{{");
        reveal_strlit("}}");
        let t = a + b;
        let k = a.len() + i;
        lemma_find_behind(a, b, "}}"@, i + 2);
        text::lemma_find_from(b, "}}"@, i + 2);
        if i + 2 <= b.len() {
            assert(t.subrange(k, k + 2) =~= b.subrange(i, i + 2));
        }
        assert(text::stands_at(t, "{{"@, k) == text::stands_at(b, "{{"@, i));
        match place_at(b, i) {
            Some(e) => {
                assert(t.subrange(k + 2, a.len() + e) =~= b.subrange(i + 2, e));
                lemma_render_behind(a, b, vars, e + 2);
            },
            None => {
                lemma_render_behind(a, b, vars, i + 1);
            },
        }
    }
}

proof fn lemma_plain_head(a: Seq<char>, rest: Seq<char>, vars: Seq<(Seq<char>, Seq<char>)>, i: int)
    requires
        0 <= i <= a.len(),
        !a.contains('{'),
    ensures
        render_from(a + rest, vars, i) == behind(a.skip(i), render_from(rest, vars, 0)),
    decreases a.len() - i,
{
    let t = a + rest;
    if i < a.len() {
        reveal_strlit("{{");
        assert(a.contains(a[i]));
        assert(t[i] == a[i]);
        if text::stands_at(t, "{{"@, i) {
            assert(t.subrange(i, i + 2)[0] == t[i]);
        }
        lemma_plain_head(a, rest, vars, i + 1);
        let r = render_from(rest, vars, 0);
        match r {
            Ok(s) => {
                assert(seq![t[i]] + (a.skip(i + 1) + s) =~= a.skip(i) + s);
            },
            Err(_) => {},
        }
    } else {
        lemma_render_behind(a, rest, vars, 0);
        match render_from(rest, vars, 0) {
            Ok(s) => {
                assert(a.skip(i) + s =~= s);
            },
            Err(_) => {},
        }
    }
}

/// A value takes the place that names it, whatever spaces stand round the name, and the
/// text round the place stays; what comes behind is filled in the same way. A place
/// whose name has no value cannot be filled.
pub proof fn values_take_their_places(
    a: Seq<char>,
    name: Seq<char>,
    b: Seq<char>,
    vars: Seq<(Seq<char>, Seq<char>)>,
    k: int,
)
    requires
        !a.contains('{'),
        !name.contains('}'),
    ensures
        ({
            let t = a + "{{"@ + name + "}}"@ + b;
            &&& 0 <= k < vars.len() && vars[k].0 == text::trimmed(name) && (forall|j: int|
                0 <= j < k ==> (#[trigger] vars[j]).0 != text::trimmed(name)) ==> render_of(t, vars) == (
            match render_of(b, vars) {
                Ok(s) => Ok::<Seq<char>, Seq<char>>(a + vars[k].1 + s),
                Err(e) => Err(e),
            })
            &&& (forall|j: int| 0 <= j < vars.len() ==> (#[trigger] vars[j]).0 != text::trimmed(name))
                ==> render_of(t, vars) is Err
        }),
{
    reveal_strlit("{{");
    reveal_strlit("}}");
    let t = a + "{{"@ + name + "}}"@ + b;
    let x = "{{"@ + name + "}}"@;
    let rest = x + b;
    assert(t =~= a + rest);
    lemma_plain_head(a, rest, vars, 0);
    assert(a.skip(0) =~= a);
    assert(rest.subrange(0, 2) =~= "{{"@);
    let e = 2 + name.len();
    lemma_first_close(name, b, 0);
    assert(text::stands_at(rest, "{{"@, 0));
    assert(rest =~= "{{"@ + (name + "}}"@ + b));
    lemma_find_behind("{{"@, name + "}}"@ + b, "}}"@, 0);
    assert(place_at(rest, 0) == Some(e as int));
    assert(rest.subrange(2, e as int) =~= name);
    lemma_render_behind(x, b, vars, 0);
    let n = text::trimmed(name);
    if 0 <= k < vars.len() && vars[k].0 == n && (forall|j: int| 0 <= j < k ==> (#[trigger] vars[j]).0 != n) {
        lemma_var_is(vars, n, 0, k);
        match render_of(b, vars) {
            Ok(s) => {
                assert(a + (vars[k].1 + s) =~= a + vars[k].1 + s);
            },
            Err(_) => {},
        }
    }
    if forall|j: int| 0 <= j < vars.len() ==> (#[trigger] vars[j]).0 != n {
        lemma_var_from(vars, n, 0);
    }
}

proof fn lemma_var_is(vars: Seq<(Seq<char>, Seq<char>)>, name: Seq<char>, i: int, k: int)
    requires
        0 <= i <= k < vars.len(),
        vars[k].0 == name,
        forall|j: int| i <= j < k ==> (#[trigger] vars[j]).0 != name,
    ensures
        var_from(vars, name, i) == Some(vars[k].1),
    decreases k - i,
{
    if i < k {
        lemma_var_is(vars, name, i + 1, k);
    }
}

proof fn lemma_first_close(name: Seq<char>, b: Seq<char>, i: int)
    requires
        0 <= i <= name.len(),
        !name.contains('}'),
    ensures
        text::find_from(name + "}}"@ + b, "}}"@, i) == Some(name.len() as int),
    decreases name.len() - i,
{
    reveal_strlit("}}");
    let t = name + "}}"@ + b;
    if i < name.len() {
        assert(name.contains(name[i]));
        assert(t[i] == name[i]);
        if text::stands_at(t, "}}"@, i) {
            assert(t.subrange(i, i + 2)[0] == t[i]);
        }
        lemma_first_close(name, b, i + 1);
    } else {
        assert(t.subrange(i, i + 2) =~= "}}"@);
    }
}

/// A text with one place is filled with the value of its name: the rest of it stays.
pub proof fn one_place_is_filled(
    a: Seq<char>,
    name: Seq<char>,
    b: Seq<char>,
    vars: Seq<(Seq<char>, Seq<char>)>,
    k: int,
)
    requires
        !a.contains('{'),
        !b.contains('{'),
        !name.contains('}'),
        name.len() > 0,
        !text::white(name[0]),
        !text::white(name.last()),
        0 <= k < vars.len(),
        vars[k].0 == name,
        forall|j: int| 0 <= j < k ==> (#[trigger] vars[j]).0 != name,
    ensures
        filled(a + "{{"@ + name + "}}"@ + b, vars) == a + vars[k].1 + b,
{
    reveal(filled);
    text::trimmed_text_stays(name);
    values_take_their_places(a, name, b, vars, k);
    assert(!text::contains_text(b, "{{"@)) by {
        reveal_strlit("{{");
        text::lemma_contains_text(b, "{{"@);
        if text::contains_text(b, "{{"@) {
            let i = choose|i: int| 0 <= i && text::stands_at(b, "{{"@, i);
            assert(b.subrange(i, i + 2)[0] == b[i]);
            assert(b.contains(b[i]));
        }
    }
    plain_text_stays(b, vars);
    assert(render_of(a + "{{"@ + name + "}}"@ + b, vars) == Ok::<Seq<char>, Seq<char>>(a + vars[k].1 + b));
}

} // verus!
