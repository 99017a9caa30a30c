//! Roles: an identity bound to a situation, with its prompt and the system tools
//! it may call. The role table is the only judge of who may call what.
use crate::schema::{ToolBook, ToolSchema};
use crate::table::{self, Table};
use crate::text::{self, cat2, cat3, cat4, has_text, is_blank, push_when};
use vstd::prelude::*;

verus! {

/// A role: where its prompt is, and which system tools it has.
#[derive(Debug)]
pub struct RoleDecl {
    pub prompt: String,
    pub tools: Vec<String>,
    /// Whether it may use the tools of its own modules.
    pub module_tools: bool,
}

/// The roles by id.
pub type RoleTable = Table<RoleDecl>;

/// The system tools and the roles.
#[derive(Debug)]
pub struct SystemTools {
    pub tools: ToolBook,
    pub roles: RoleTable,
}

/// The first of a role's tools from `i` on that the book lacks.
pub open spec fn unknown_tool(s: SystemTools, d: RoleDecl, i: int) -> Option<Seq<char>>
    decreases d.tools@.len() - i,
{
    if i < 0 || i >= d.tools@.len() {
        None
    } else if table::lookup(s.tools@, d.tools@[i]@) is None {
        Some(d.tools@[i]@)
    } else {
        unknown_tool(s, d, i + 1)
    }
}

/// What is wrong with the face a role asks for.
pub open spec fn face_fault(s: SystemTools, role: Seq<char>) -> Option<Seq<char>> {
    match table::lookup(s.roles@, role) {
        None => Some("角色表里没有这个角色："@ + role),
        Some(d) => match unknown_tool(s, d, 0) {
            Some(id) => Some("角色 "@ + role + " 引用了不存在的系统工具："@ + id),
            None => None,
        },
    }
}

/// The tools a role may call.
pub open spec fn role_tools(s: SystemTools, role: Seq<char>) -> Seq<Seq<char>> {
    match table::lookup(s.roles@, role) {
        Some(d) => text::texts(d.tools@),
        None => Seq::empty(),
    }
}

pub open spec fn bare_tools(s: SystemTools, n: int) -> Seq<Seq<char>>
    decreases n,
{
    if n <= 0 {
        Seq::empty()
    } else {
        bare_tools(s, n - 1) + text::when(
            text::trimmed(s.tools@[n - 1].1.capability@).len() == 0,
            "工具 "@ + s.tools@[n - 1].0 + " 没声明 capability（权限收口依据）"@,
        )
    }
}

pub open spec fn dangling_tools(
    s: SystemTools,
    role: Seq<char>,
    ids: Seq<Seq<char>>,
) -> Seq<Seq<char>>
    decreases ids.len(),
{
    if ids.len() == 0 {
        Seq::empty()
    } else {
        dangling_tools(s, role, ids.drop_last()) + text::when(
            table::lookup(s.tools@, ids.last()) is None,
            "角色 "@ + role + " 引用了不存在的系统工具："@ + ids.last(),
        )
    }
}

pub open spec fn role_faults(s: SystemTools, n: int) -> Seq<Seq<char>>
    decreases n,
{
    if n <= 0 {
        Seq::empty()
    } else {
        let (role, d) = s.roles@[n - 1];
        role_faults(s, n - 1) + text::when(
            text::trimmed(d.prompt@).len() == 0,
            "角色 "@ + role + " 没声明提示词"@,
        ) + dangling_tools(s, role, text::texts(d.tools@))
    }
}

impl SystemTools {
    /// The tools of a role, in the order of the role table. An unknown role or
    /// tool is an error, never skipped.
    pub fn tool_face(&self, role: &str) -> (r: Result<Vec<(&str, &ToolSchema)>, String>)
        ensures
            match r {
                Ok(f) => face_fault(*self, role@) is None && f@.len() == role_tools(
                    *self,
                    role@,
                ).len() && forall|i: int|
                    0 <= i < f@.len() ==> (#[trigger] f@[i]).0@ == role_tools(*self, role@)[i]
                        && table::lookup(self.tools@, f@[i].0@) == Some(*f@[i].1),
                Err(e) => face_fault(*self, role@) == Some(e@),
            },
    {
        let decl = match self.roles.get(role) {
            Some(d) => d,
            None => {
                return Err(cat2("角色表里没有这个角色：", role));
            },
        };
        let mut out: Vec<(&str, &ToolSchema)> = Vec::new();
        let mut i: usize = 0;
        while i < decl.tools.len()
            invariant
                i <= decl.tools@.len(),
                table::lookup(self.roles@, role@) == Some(*decl),
                unknown_tool(*self, *decl, 0) == unknown_tool(*self, *decl, i as int),
                out@.len() == i,
                forall|k: int|
                    0 <= k < i ==> (#[trigger] out@[k]).0@ == decl.tools@[k]@ && table::lookup(
                        self.tools@,
                        out@[k].0@,
                    ) == Some(*out@[k].1),
            decreases decl.tools@.len() - i,
        {
            let id = decl.tools[i].as_str();
            match self.tools.get(id) {
                Some(s) => {
                    out.push((id, s));
                },
                None => {
                    return Err(cat4("角色 ", role, " 引用了不存在的系统工具：", id));
                },
            }
            i = i + 1;
        }
        Ok(out)
    }

    /// Whether a role may use the tools of its own modules.
    pub fn allows_module_tools(&self, role: &str) -> (r: bool)
        ensures
            r == (table::lookup(self.roles@, role@) matches Some(d) && d.module_tools),
    {
        match self.roles.get(role) {
            Some(d) => d.module_tools,
            None => false,
        }
    }

    /// Whether a role may call a tool.
    pub fn allows(&self, role: &str, tool: &str) -> (r: bool)
        ensures
            r == role_tools(*self, role@).contains(tool@),
    {
        match self.roles.get(role) {
            Some(d) => has_text(&d.tools, tool),
            None => false,
        }
    }

    /// Everything wrong with the two tables; nothing when they agree.
    pub fn problems(&self) -> (r: Vec<String>)
        ensures
            text::texts(r@) == bare_tools(*self, self.tools@.len() as int) + role_faults(
                *self,
                self.roles@.len() as int,
            ),
    {
        let mut out: Vec<String> = Vec::new();
        let mut i: usize = 0;
        assert(text::texts(out@) =~= bare_tools(*self, 0));
        while i < self.tools.len()
            invariant
                i <= self.tools@.len(),
                text::texts(out@) == bare_tools(*self, i as int),
            decreases self.tools@.len() - i,
        {
            push_when(
                &mut out,
                is_blank(self.tools.value_at(i).capability.as_str()),
                cat3(
                    "工具 ",
                    self.tools.key_at(i),
                    " 没声明 capability（权限收口依据）",
                ),
            );
            i = i + 1;
        }
        let ghost head = text::texts(out@);
        let mut i: usize = 0;
        assert(head + role_faults(*self, 0) =~= head);
        while i < self.roles.len()
            invariant
                i <= self.roles@.len(),
                text::texts(out@) == head + role_faults(*self, i as int),
            decreases self.roles@.len() - i,
        {
            let ghost before = text::texts(out@);
            let role = self.roles.key_at(i);
            let d = self.roles.value_at(i);
            push_when(&mut out, is_blank(d.prompt.as_str()), cat3("角色 ", role, " 没声明提示词"));
            let ghost mid = text::texts(out@);
            let ghost ids = text::texts(d.tools@);
            let mut k: usize = 0;
            assert(ids.take(0) =~= Seq::<Seq<char>>::empty());
            assert(mid + dangling_tools(*self, role@, ids.take(0)) =~= mid);
            while k < d.tools.len()
                invariant
                    k <= d.tools@.len(),
                    ids == text::texts(d.tools@),
                    text::texts(out@) == mid + dangling_tools(*self, role@, ids.take(k as int)),
                decreases d.tools@.len() - k,
            {
                proof {
                    assert(ids.take(k + 1).drop_last() =~= ids.take(k as int));
                    assert(ids.take(k + 1).last() == d.tools@[k as int]@);
                }
                let id = d.tools[k].as_str();
                push_when(
                    &mut out,
                    !self.tools.contains_key(id),
                    cat4("角色 ", role, " 引用了不存在的系统工具：", id),
                );
                k = k + 1;
                assert(text::texts(out@) =~= mid + dangling_tools(*self, role@, ids.take(k as int)));
            }
            assert(ids.take(ids.len() as int) =~= ids);
            i = i + 1;
            assert(text::texts(out@) =~= head + role_faults(*self, i as int));
        }
        out
    }
}

/// Tables without problems hold every tool their roles refer to: each role's
/// face can be assembled.
pub proof fn sound_tables_have_faces(s: SystemTools, i: int)
    requires
        role_faults(s, s.roles@.len() as int).len() == 0,
        0 <= i < s.roles@.len(),
        table::lookup(s.roles@, s.roles@[i].0) == Some(s.roles@[i].1),
    ensures
        face_fault(s, s.roles@[i].0) is None,
{
    lemma_no_dangling(s, s.roles@.len() as int, i);
    lemma_none_unknown(s, s.roles@[i].0, s.roles@[i].1, 0);
}

proof fn lemma_no_dangling(s: SystemTools, n: int, i: int)
    requires
        role_faults(s, n).len() == 0,
        0 <= i < n,
    ensures
        dangling_tools(s, s.roles@[i].0, text::texts(s.roles@[i].1.tools@)).len() == 0,
    decreases n,
{
    if i < n - 1 {
        lemma_no_dangling(s, n - 1, i);
    }
}

proof fn lemma_known(s: SystemTools, role: Seq<char>, ids: Seq<Seq<char>>, k: int)
    requires
        dangling_tools(s, role, ids).len() == 0,
        0 <= k < ids.len(),
    ensures
        table::lookup(s.tools@, ids[k]) is Some,
    decreases ids.len(),
{
    if k < ids.len() - 1 {
        lemma_known(s, role, ids.drop_last(), k);
    }
}

proof fn lemma_none_unknown(s: SystemTools, role: Seq<char>, d: RoleDecl, i: int)
    requires
        dangling_tools(s, role, text::texts(d.tools@)).len() == 0,
        0 <= i,
    ensures
        unknown_tool(s, d, i) is None,
    decreases d.tools@.len() - i,
{
    if i < d.tools@.len() {
        lemma_known(s, role, text::texts(d.tools@), i);
        lemma_none_unknown(s, role, d, i + 1);
    }
}

/// A role has its tools exactly where it is in the table and each tool it names is.
pub proof fn roles_have_the_tools_they_name(s: SystemTools, role: Seq<char>)
    ensures
        face_fault(s, role) is None <==> (table::lookup(s.roles@, role) matches Some(d) && forall|k: int|
            0 <= k < d.tools@.len() ==> table::lookup(s.tools@, (#[trigger] d.tools@[k])@) is Some),
{
    match table::lookup(s.roles@, role) {
        Some(d) => {
            lemma_tools_known(s, d, 0);
        },
        None => {},
    }
}

proof fn lemma_tools_known(s: SystemTools, d: RoleDecl, i: int)
    requires
        0 <= i,
    ensures
        unknown_tool(s, d, i) is None <==> forall|k: int|
            i <= k < d.tools@.len() ==> table::lookup(s.tools@, (#[trigger] d.tools@[k])@) is Some,
    decreases d.tools@.len() - i,
{
    if i < d.tools@.len() {
        lemma_tools_known(s, d, i + 1);
    }
}

} // verus!
