//! The task chain: the dependency graph that leads a collaboration from its
//! plan to delivery. Pure data and pure functions.
//!
//! A node is ready when all it depends on is done. Cycles, dangling
//! dependencies, repeated ids, empty objectives and unknown assignees are
//! assembly faults, each listed and none dropped silently.
use vstd::multiset::Multiset;
use crate::events::Pending;
use crate::text::{self, cat2, cat3, cat4, clone_opt, clone_strings, dec_usize, has_text, is_blank, push_when, str_eq};
use vstd::prelude::*;

verus! {

/// Where a node stands.
#[derive(Debug, Clone, Copy, PartialEq, Eq, Structural)]
pub enum NodeStatus {
    Pending,
    Running,
    Done,
    Failed,
}

/// The verdict on a node's outcome.
#[derive(Debug, PartialEq, Eq)]
pub struct Acceptance {
    pub ok: bool,
    pub note: String,
}

pub struct AcceptanceV {
    pub ok: bool,
    pub note: Seq<char>,
}

impl View for Acceptance {
    type V = AcceptanceV;

    open spec fn view(&self) -> AcceptanceV {
        AcceptanceV { ok: self.ok, note: self.note@ }
    }
}

/// One task.
#[derive(Debug, PartialEq, Eq)]
pub struct TaskNode {
    pub id: String,
    pub title: String,
    pub objective: String,
    pub assignee: String,
    pub deps: Vec<String>,
    pub status: NodeStatus,
    pub sub_session: Option<String>,
    pub report: Option<String>,
    pub acceptance: Option<Acceptance>,
    /// Whether the user was told that it is done.
    pub reported: bool,
}

pub struct NodeV {
    pub id: Seq<char>,
    pub title: Seq<char>,
    pub objective: Seq<char>,
    pub assignee: Seq<char>,
    pub deps: Seq<Seq<char>>,
    pub status: NodeStatus,
    pub sub_session: Option<Seq<char>>,
    pub report: Option<Seq<char>>,
    pub acceptance: Option<AcceptanceV>,
    pub reported: bool,
}

impl View for TaskNode {
    type V = NodeV;

    open spec fn view(&self) -> NodeV {
        NodeV {
            id: self.id@,
            title: self.title@,
            objective: self.objective@,
            assignee: self.assignee@,
            deps: text::texts(self.deps@),
            status: self.status,
            sub_session: text::opt_text(self.sub_session),
            report: text::opt_text(self.report),
            acceptance: match self.acceptance {
                Some(a) => Some(a@),
                None => None,
            },
            reported: self.reported,
        }
    }
}

pub open spec fn nodes_v(v: Seq<TaskNode>) -> Seq<NodeV> {
    v.map_values(|n: TaskNode| n@)
}

/// The chain: a list of nodes whose dependencies name nodes by id.
#[derive(Debug, PartialEq, Eq)]
pub struct TaskChain {
    pub nodes: Vec<TaskNode>,
}

impl View for TaskChain {
    type V = Seq<NodeV>;

    open spec fn view(&self) -> Seq<NodeV> {
        nodes_v(self.nodes@)
    }
}

impl TaskNode {
    pub fn copy(&self) -> (r: TaskNode)
        ensures
            r@ == self@,
    {
        TaskNode {
            id: self.id.clone(),
            title: self.title.clone(),
            objective: self.objective.clone(),
            assignee: self.assignee.clone(),
            deps: clone_strings(&self.deps),
            status: self.status,
            sub_session: clone_opt(&self.sub_session),
            report: clone_opt(&self.report),
            acceptance: match &self.acceptance {
                Some(a) => Some(Acceptance { ok: a.ok, note: a.note.clone() }),
                None => None,
            },
            reported: self.reported,
        }
    }
}

impl TaskChain {
    /// A chain without nodes.
    pub fn empty() -> (r: TaskChain)
        ensures
            r@ == Seq::<NodeV>::empty(),
    {
        let r = TaskChain { nodes: Vec::new() };
        assert(r@ =~= Seq::<NodeV>::empty());
        r
    }

    pub fn copy(&self) -> (r: TaskChain)
        ensures
            r@ == self@,
    {
        let mut nodes: Vec<TaskNode> = Vec::new();
        let mut i: usize = 0;
        while i < self.nodes.len()
            invariant
                i <= self.nodes@.len(),
                nodes@.len() == i,
                forall|k: int| 0 <= k < i ==> (#[trigger] nodes@[k])@ == self.nodes@[k]@,
            decreases self.nodes@.len() - i,
        {
            nodes.push(self.nodes[i].copy());
            i = i + 1;
        }
        let r = TaskChain { nodes };
        assert(r@ =~= self@);
        r
    }
}

// ---- looking up ids ----

/// The first position from `i` on of a node named `id`.
pub open spec fn position_from(nodes: Seq<NodeV>, id: Seq<char>, i: int) -> Option<int>
    decreases nodes.len() - i,
{
    if i < 0 || i >= nodes.len() {
        None
    } else if nodes[i].id == id {
        Some(i)
    } else {
        position_from(nodes, id, i + 1)
    }
}

pub open spec fn position(nodes: Seq<NodeV>, id: Seq<char>) -> Option<int> {
    position_from(nodes, id, 0)
}

pub proof fn lemma_position_from(nodes: Seq<NodeV>, id: Seq<char>, i: int)
    requires
        0 <= i,
    ensures
        match position_from(nodes, id, i) {
            Some(j) => i <= j < nodes.len() && nodes[j].id == id && forall|k: int|
                i <= k < j ==> nodes[k].id != id,
            None => forall|k: int| i <= k < nodes.len() ==> nodes[k].id != id,
        },
    decreases nodes.len() - i,
{
    if i < nodes.len() && nodes[i].id != id {
        lemma_position_from(nodes, id, i + 1);
    }
}

fn find_node(nodes: &Vec<TaskNode>, id: &str) -> (r: Option<usize>)
    ensures
        match r {
            Some(j) => position(nodes_v(nodes@), id@) == Some(j as int) && j < nodes@.len(),
            None => position(nodes_v(nodes@), id@) is None,
        },
{
    let mut i: usize = 0;
    while i < nodes.len()
        invariant
            i <= nodes@.len(),
            position(nodes_v(nodes@), id@) == position_from(nodes_v(nodes@), id@, i as int),
        decreases nodes@.len() - i,
    {
        assert(nodes_v(nodes@)[i as int].id == nodes@[i as int].id@);
        if str_eq(nodes[i].id.as_str(), id) {
            return Some(i);
        }
        i = i + 1;
    }
    None
}

// ---- stages ----

/// The greatest stage among the dependencies, 0 for none; `None` where one of
/// them names no node or a node without a stage.
pub open spec fn deps_max(
    nodes: Seq<NodeV>,
    st: Seq<Option<nat>>,
    deps: Seq<Seq<char>>,
) -> Option<nat>
    decreases deps.len(),
{
    if deps.len() == 0 {
        Some(0)
    } else {
        match (deps_max(nodes, st, deps.drop_last()), position(nodes, deps.last())) {
            (Some(m), Some(j)) => match st[j] {
                Some(s) => Some(
                    if s > m {
                        s
                    } else {
                        m
                    },
                ),
                None => None,
            },
            _ => None,
        }
    }
}

pub open spec fn bump(m: Option<nat>) -> Option<nat> {
    match m {
        Some(m) => Some(m + 1),
        None => None,
    }
}

/// The layers of the graph: a node is one above the highest of what it depends
/// on, and has no layer where that has none.
pub open spec fn is_layering(nodes: Seq<NodeV>, st: Seq<Option<nat>>) -> bool {
    &&& st.len() == nodes.len()
    &&& forall|i: int|
        0 <= i < nodes.len() ==> #[trigger] st[i] == bump(deps_max(nodes, st, nodes[i].deps))
}

/// The layers of a graph; there is exactly one such assignment.
pub open spec fn layering(nodes: Seq<NodeV>) -> Seq<Option<nat>> {
    choose|st: Seq<Option<nat>>| is_layering(nodes, st)
}

/// The stage of each node, from 1; a node without a layer is given stage 1.
pub open spec fn stages_of(nodes: Seq<NodeV>) -> Seq<nat> {
    layering(nodes).map_values(
        |s: Option<nat>|
            match s {
                Some(n) => n,
                None => 1,
            },
    )
}

/// Where `st` has a layer, `more` has the same.
pub open spec fn extends(st: Seq<Option<nat>>, more: Seq<Option<nat>>) -> bool {
    &&& st.len() == more.len()
    &&& forall|i: int| 0 <= i < st.len() && #[trigger] st[i] is Some ==> more[i] == st[i]
}

proof fn lemma_deps_max_extends(
    nodes: Seq<NodeV>,
    st: Seq<Option<nat>>,
    more: Seq<Option<nat>>,
    deps: Seq<Seq<char>>,
)
    requires
        st.len() == nodes.len(),
        extends(st, more),
        deps_max(nodes, st, deps) is Some,
    ensures
        deps_max(nodes, more, deps) == deps_max(nodes, st, deps),
    decreases deps.len(),
{
    if deps.len() > 0 {
        lemma_deps_max_extends(nodes, st, more, deps.drop_last());
        lemma_position_from(nodes, deps.last(), 0);
    }
}

/// Each dependency of a node with a layer lies in a lower layer.
proof fn lemma_deps_below(
    nodes: Seq<NodeV>,
    st: Seq<Option<nat>>,
    deps: Seq<Seq<char>>,
    k: int,
)
    requires
        st.len() == nodes.len(),
        deps_max(nodes, st, deps) is Some,
        0 <= k < deps.len(),
    ensures
        position(nodes, deps[k]) is Some,
        st[position(nodes, deps[k])->0] is Some,
        st[position(nodes, deps[k])->0]->0 <= deps_max(nodes, st, deps)->0,
    decreases deps.len(),
{
    if k < deps.len() - 1 {
        lemma_deps_below(nodes, st, deps.drop_last(), k);
    }
}

proof fn lemma_deps_max_agree(
    nodes: Seq<NodeV>,
    a: Seq<Option<nat>>,
    b: Seq<Option<nat>>,
    deps: Seq<Seq<char>>,
)
    requires
        a.len() == nodes.len(),
        b.len() == nodes.len(),
        deps_max(nodes, a, deps) is Some,
        forall|k: int|
            0 <= k < deps.len() ==> position(nodes, #[trigger] deps[k]) is Some
                && b[position(nodes, deps[k])->0] == a[position(nodes, deps[k])->0],
    ensures
        deps_max(nodes, b, deps) == deps_max(nodes, a, deps),
    decreases deps.len(),
{
    if deps.len() > 0 {
        assert forall|k: int| 0 <= k < deps.drop_last().len() implies position(
            nodes,
            #[trigger] deps.drop_last()[k],
        ) is Some && b[position(nodes, deps.drop_last()[k])->0] == a[position(
            nodes,
            deps.drop_last()[k],
        )->0] by {
            assert(deps.drop_last()[k] == deps[k]);
        }
        lemma_deps_max_agree(nodes, a, b, deps.drop_last());
        assert(deps.last() == deps[deps.len() - 1]);
    }
}

proof fn lemma_layer_agrees(nodes: Seq<NodeV>, a: Seq<Option<nat>>, b: Seq<Option<nat>>, i: int)
    requires
        is_layering(nodes, a),
        is_layering(nodes, b),
        0 <= i < nodes.len(),
        a[i] is Some,
    ensures
        b[i] == a[i],
    decreases a[i]->0,
{
    let deps = nodes[i].deps;
    assert(a[i] == bump(deps_max(nodes, a, deps)));
    assert forall|k: int| 0 <= k < deps.len() implies position(nodes, #[trigger] deps[k]) is Some
        && b[position(nodes, deps[k])->0] == a[position(nodes, deps[k])->0] by {
        lemma_deps_below(nodes, a, deps, k);
        lemma_position_from(nodes, deps[k], 0);
        lemma_layer_agrees(nodes, a, b, position(nodes, deps[k])->0);
    }
    lemma_deps_max_agree(nodes, a, b, deps);
    assert(b[i] == bump(deps_max(nodes, b, deps)));
}

/// A graph has only one layering.
pub proof fn layering_is_unique(nodes: Seq<NodeV>, a: Seq<Option<nat>>, b: Seq<Option<nat>>)
    requires
        is_layering(nodes, a),
        is_layering(nodes, b),
    ensures
        a == b,
{
    assert forall|i: int| 0 <= i < nodes.len() implies #[trigger] a[i] == b[i] by {
        if a[i] is Some {
            lemma_layer_agrees(nodes, a, b, i);
        } else if b[i] is Some {
            lemma_layer_agrees(nodes, b, a, i);
        }
    }
    assert(a =~= b);
}

/// How many nodes have a layer.
pub open spec fn placed(st: Seq<Option<nat>>) -> nat
    decreases st.len(),
{
    if st.len() == 0 {
        0
    } else {
        placed(st.drop_last()) + if st.last() is Some {
            1nat
        } else {
            0
        }
    }
}

proof fn lemma_placed_update(st: Seq<Option<nat>>, i: int, s: nat)
    requires
        0 <= i < st.len(),
        st[i] is None,
    ensures
        placed(st.update(i, Some(s))) == placed(st) + 1,
        placed(st) < st.len(),
    decreases st.len(),
{
    let u = st.update(i, Some(s));
    lemma_placed_bound(st.drop_last());
    if i == st.len() - 1 {
        assert(u.drop_last() =~= st.drop_last());
    } else {
        assert(u.drop_last() =~= st.drop_last().update(i, Some(s)));
        lemma_placed_update(st.drop_last(), i, s);
    }
}

proof fn lemma_placed_bound(st: Seq<Option<nat>>)
    ensures
        placed(st) <= st.len(),
    decreases st.len(),
{
    if st.len() > 0 {
        lemma_placed_bound(st.drop_last());
    }
}

/// A partial layering: what is placed is placed where it belongs.
pub open spec fn sound(nodes: Seq<NodeV>, st: Seq<Option<nat>>) -> bool {
    &&& st.len() == nodes.len()
    &&& forall|i: int|
        0 <= i < nodes.len() && #[trigger] st[i] is Some ==> st[i] == bump(
            deps_max(nodes, st, nodes[i].deps),
        ) && st[i]->0 <= placed(st)
}

proof fn lemma_place(nodes: Seq<NodeV>, st: Seq<Option<nat>>, i: int, m: nat)
    requires
        sound(nodes, st),
        0 <= i < nodes.len(),
        st[i] is None,
        deps_max(nodes, st, nodes[i].deps) == Some(m),
        m <= placed(st),
    ensures
        sound(nodes, st.update(i, Some((m + 1) as nat))),
        placed(st.update(i, Some((m + 1) as nat))) == placed(st) + 1,
        placed(st) < st.len(),
{
    let u = st.update(i, Some((m + 1) as nat));
    lemma_placed_update(st, i, (m + 1) as nat);
    assert(extends(st, u));
    assert forall|k: int| 0 <= k < nodes.len() && #[trigger] u[k] is Some implies u[k] == bump(
        deps_max(nodes, u, nodes[k].deps),
    ) && u[k]->0 <= placed(u) by {
        if k == i {
            lemma_deps_max_extends(nodes, st, u, nodes[k].deps);
        } else {
            assert(st[k] is Some);
            lemma_deps_max_extends(nodes, st, u, nodes[k].deps);
        }
    }
}

/// Every graph has a layering.
pub proof fn layering_exists(nodes: Seq<NodeV>)
    ensures
        is_layering(nodes, layering(nodes)),
{
    let st = Seq::new(nodes.len(), |i: int| None::<nat>);
    let r = lemma_complete(nodes, st);
    assert(is_layering(nodes, r));
}

proof fn lemma_complete(nodes: Seq<NodeV>, st: Seq<Option<nat>>) -> (r: Seq<Option<nat>>)
    requires
        sound(nodes, st),
    ensures
        is_layering(nodes, r),
    decreases st.len() - placed(st),
{
    lemma_placed_bound(st);
    if is_layering(nodes, st) {
        st
    } else {
        let i = choose|i: int|
            0 <= i < nodes.len() && #[trigger] st[i] != bump(deps_max(nodes, st, nodes[i].deps));
        assert(st[i] is None);
        let m = deps_max(nodes, st, nodes[i].deps)->0;
        lemma_deps_max_bound(nodes, st, nodes[i].deps);
        lemma_place(nodes, st, i, m);
        lemma_complete(nodes, st.update(i, Some((m + 1) as nat)))
    }
}

proof fn lemma_deps_max_bound(nodes: Seq<NodeV>, st: Seq<Option<nat>>, deps: Seq<Seq<char>>)
    requires
        sound(nodes, st),
        deps_max(nodes, st, deps) is Some,
    ensures
        deps_max(nodes, st, deps)->0 <= placed(st),
    decreases deps.len(),
{
    if deps.len() > 0 {
        lemma_deps_max_bound(nodes, st, deps.drop_last());
        lemma_position_from(nodes, deps.last(), 0);
        assert(st[position(nodes, deps.last())->0] is Some);
    }
}

/// The layers as they are computed: 0 stands for none yet.
pub open spec fn placed_v(v: Seq<usize>) -> Seq<Option<nat>> {
    v.map_values(
        |n: usize|
            if n == 0 {
                None
            } else {
                Some(n as nat)
            },
    )
}

/// The layer of the node at `i`, if what it depends on is placed.
fn next_layer(nodes: &Vec<TaskNode>, st: &Vec<usize>, i: usize) -> (r: Option<usize>)
    requires
        i < nodes@.len(),
        sound(nodes_v(nodes@), placed_v(st@)),
    ensures
        match r {
            Some(m) => deps_max(nodes_v(nodes@), placed_v(st@), nodes_v(nodes@)[i as int].deps)
                == Some(m as nat) && m <= placed(placed_v(st@)),
            None => deps_max(
                nodes_v(nodes@),
                placed_v(st@),
                nodes_v(nodes@)[i as int].deps,
            ) is None,
        },
{
    let ghost nv = nodes_v(nodes@);
    let ghost sv = placed_v(st@);
    let deps = &nodes[i].deps;
    let ghost dv = text::texts(deps@);
    assert(dv == nv[i as int].deps);
    let mut max: usize = 0;
    let mut ok = true;
    let mut k: usize = 0;
    assert(dv.take(0) =~= Seq::<Seq<char>>::empty());
    while k < deps.len()
        invariant
            k <= deps@.len(),
            dv == text::texts(deps@),
            nv == nodes_v(nodes@),
            sv == placed_v(st@),
            sv.len() == nv.len(),
            ok ==> deps_max(nv, sv, dv.take(k as int)) == Some(max as nat),
            !ok ==> deps_max(nv, sv, dv.take(k as int)) is None,
        decreases deps@.len() - k,
    {
        proof {
            assert(dv.take(k + 1).drop_last() =~= dv.take(k as int));
            assert(dv.take(k + 1).last() == deps@[k as int]@);
        }
        match find_node(nodes, deps[k].as_str()) {
            Some(j) => {
                assert(sv.len() == st@.len());
                let s = st[j];
                assert(sv[j as int] == (if s == 0 {
                    None
                } else {
                    Some(s as nat)
                }));
                if s == 0 {
                    ok = false;
                } else if s > max {
                    max = s;
                }
            },
            None => {
                ok = false;
            },
        }
        k = k + 1;
    }
    assert(dv.take(dv.len() as int) =~= dv);
    if ok {
        proof {
            lemma_deps_max_bound(nv, sv, dv);
        }
        Some(max)
    } else {
        None
    }
}

impl TaskChain {
    /// The stage of each node: the length of the longest path of dependencies
    /// that leads to it. Nodes of one stage do not depend on each other.
    pub fn stages(&self) -> (r: Vec<usize>)
        ensures
            r@.len() == self@.len(),
            forall|i: int| 0 <= i < r@.len() ==> #[trigger] r@[i] == stages_of(self@)[i],
            stages_of(self@).len() == self@.len(),
            is_layering(self@, layering(self@)),
    {
        let ghost nv = self@;
        let n: usize = self.nodes.len();
        let mut st: Vec<usize> = Vec::new();
        let mut i: usize = 0;
        while i < n
            invariant
                i <= n,
                st@.len() == i,
                forall|k: int| 0 <= k < i ==> st@[k] == 0,
            decreases n - i,
        {
            st.push(0);
            i = i + 1;
        }
        assert(sound(nv, placed_v(st@)));
        let mut moved = true;
        while moved
            invariant
                n == self.nodes@.len(),
                nv == self@,
                nv.len() == n,
                st@.len() == n,
                sound(nv, placed_v(st@)),
                !moved ==> is_layering(nv, placed_v(st@)),
            decreases n - placed(placed_v(st@)),
                if moved {
                    1int
                } else {
                    0
                },
        {
            moved = false;
            let mut i: usize = 0;
            let ghost start = placed_v(st@);
            proof {
                lemma_placed_bound(start);
            }
            while i < n
                invariant
                    i <= n,
                    n == self.nodes@.len(),
                    nv == self@,
                    nv.len() == n,
                    st@.len() == n,
                    sound(nv, placed_v(st@)),
                    placed(start) <= placed(placed_v(st@)) <= n,
                    start.len() == n,
                    moved ==> placed(start) < placed(placed_v(st@)),
                    !moved ==> placed_v(st@) == start,
                    !moved ==> forall|k: int|
                        0 <= k < i ==> #[trigger] start[k] == bump(deps_max(nv, start, nv[k].deps)),
                decreases n - i,
            {
                let ghost cur = placed_v(st@);
                assert(cur[i as int] == (if st@[i as int] == 0 {
                    None
                } else {
                    Some(st@[i as int] as nat)
                }));
                if st[i] == 0 {
                    match next_layer(&self.nodes, &st, i) {
                        Some(m) => {
                            proof {
                                lemma_place(nv, cur, i as int, m as nat);
                                lemma_placed_bound(cur.update(i as int, Some((m + 1) as nat)));
                            }
                            st.set(i, m + 1);
                            assert(placed_v(st@) =~= cur.update(i as int, Some((m + 1) as nat)));
                            moved = true;
                        },
                        None => {},
                    }
                }
                i = i + 1;
            }
            proof {
                lemma_placed_bound(placed_v(st@));
            }
        }
        proof {
            layering_exists(nv);
            layering_is_unique(nv, placed_v(st@), layering(nv));
        }
        let mut r: Vec<usize> = Vec::new();
        let mut i: usize = 0;
        while i < n
            invariant
                i <= n,
                n == nv.len(),
                st@.len() == n,
                placed_v(st@) == layering(nv),
                r@.len() == i,
                forall|k: int| 0 <= k < i ==> #[trigger] r@[k] == stages_of(nv)[k],
            decreases n - i,
        {
            assert(placed_v(st@)[i as int] == (if st@[i as int] == 0 {
                None
            } else {
                Some(st@[i as int] as nat)
            }));
            if st[i] == 0 {
                r.push(1);
            } else {
                r.push(st[i]);
            }
            i = i + 1;
        }
        r
    }

    /// The nodes of a stage, in chain order.
    pub fn stage_nodes(&self, stage: usize) -> (r: Vec<&TaskNode>)
        ensures
            refs_v(r@) == in_stage(self@, stage as nat),
    {
        let st = self.stages();
        let mut r: Vec<&TaskNode> = Vec::new();
        let mut i: usize = 0;
        let ghost nv = self@;
        assert(refs_v(r@) =~= in_stage_below(nv, stage as nat, 0));
        while i < self.nodes.len()
            invariant
                i <= self.nodes@.len(),
                nv == self@,
                st@.len() == nv.len(),
                forall|k: int| 0 <= k < st@.len() ==> #[trigger] st@[k] == stages_of(nv)[k],
                refs_v(r@) == in_stage_below(nv, stage as nat, i as int),
            decreases self.nodes@.len() - i,
        {
            if st[i] == stage {
                let ghost before = r@;
                r.push(&self.nodes[i]);
                assert(refs_v(r@) =~= refs_v(before).push(nv[i as int]));
            }
            i = i + 1;
        }
        r
    }

    /// Whether a stage has nodes and all of them are done and accepted.
    pub fn stage_passed(&self, stage: usize) -> (r: bool)
        ensures
            r == passed(self@, stage as nat),
    {
        let nodes = self.stage_nodes(stage);
        let ghost sv = in_stage(self@, stage as nat);
        assert(sv.len() == nodes@.len());
        if nodes.len() == 0 {
            return false;
        }
        let mut i: usize = 0;
        while i < nodes.len()
            invariant
                i <= nodes@.len(),
                sv == refs_v(nodes@),
                sv == in_stage(self@, stage as nat),
                forall|k: int| 0 <= k < i ==> accepted(#[trigger] sv[k]),
            decreases nodes@.len() - i,
        {
            let n = nodes[i];
            assert(sv[i as int] == n@);
            let ok = match &n.acceptance {
                Some(a) => a.ok,
                None => false,
            };
            if !(n.status == NodeStatus::Done && ok) {
                assert(!accepted(sv[i as int]));
                return false;
            }
            i = i + 1;
        }
        true
    }

    /// The first stage that has not passed; `None` when every stage has.
    pub fn current_stage(&self) -> (r: Option<usize>)
        ensures
            match r {
                Some(s) => 1 <= s <= top_stage(self@) && !passed(self@, s as nat) && forall|t: nat|
                    1 <= t < s ==> #[trigger] passed(self@, t),
                None => forall|t: nat| 1 <= t <= top_stage(self@) ==> #[trigger] passed(self@, t),
            },
    {
        let st = self.stages();
        let ghost sv = stages_of(self@);
        let mut max: usize = 0;
        let mut i: usize = 0;
        while i < st.len()
            invariant
                i <= st@.len(),
                sv.len() == st@.len(),
                forall|k: int| 0 <= k < st@.len() ==> #[trigger] st@[k] == sv[k],
                max == greatest(sv.take(i as int)),
            decreases st@.len() - i,
        {
            assert(sv.take(i + 1).drop_last() =~= sv.take(i as int));
            if st[i] > max {
                max = st[i];
            }
            i = i + 1;
        }
        assert(sv.take(sv.len() as int) =~= sv);
        let mut s: usize = 1;
        while s <= max
            invariant
                1 <= s <= max + 1,
                max == top_stage(self@),
                forall|t: nat| 1 <= t < s ==> #[trigger] passed(self@, t),
            decreases max + 1 - s,
        {
            if !self.stage_passed(s) {
                return Some(s);
            }
            if s == max {
                return None;
            }
            s = s + 1;
        }
        None
    }

    /// Whether a stage has nodes and all of them have ended, well or badly.
    pub fn stage_settled(&self, stage: usize) -> (r: bool)
        ensures
            r == settled(self@, stage as nat),
    {
        let nodes = self.stage_nodes(stage);
        let ghost sv = in_stage(self@, stage as nat);
        assert(sv.len() == nodes@.len());
        if nodes.len() == 0 {
            return false;
        }
        let mut i: usize = 0;
        while i < nodes.len()
            invariant
                i <= nodes@.len(),
                sv == refs_v(nodes@),
                sv == in_stage(self@, stage as nat),
                forall|k: int| 0 <= k < i ==> ended(#[trigger] sv[k].status),
            decreases nodes@.len() - i,
        {
            assert(sv[i as int] == nodes@[i as int]@);
            if !(nodes[i].status == NodeStatus::Done || nodes[i].status == NodeStatus::Failed) {
                assert(!ended(sv[i as int].status));
                return false;
            }
            i = i + 1;
        }
        true
    }

    /// The nodes of a stage that can be handed out.
    pub fn stage_ready(&self, stage: usize) -> (r: Vec<&TaskNode>)
        ensures
            refs_v(r@) == pending_of(in_stage(self@, stage as nat)),
    {
        let nodes = self.stage_nodes(stage);
        let ghost sv = in_stage(self@, stage as nat);
        let mut r: Vec<&TaskNode> = Vec::new();
        let mut i: usize = 0;
        assert(sv.take(0) =~= Seq::<NodeV>::empty());
        assert(refs_v(r@) =~= pending_of(sv.take(0)));
        while i < nodes.len()
            invariant
                i <= nodes@.len(),
                sv == refs_v(nodes@),
                refs_v(r@) == pending_of(sv.take(i as int)),
            decreases nodes@.len() - i,
        {
            let n = nodes[i];
            assert(sv[i as int] == n@);
            assert(sv.take(i + 1).drop_last() =~= sv.take(i as int));
            if n.status == NodeStatus::Pending {
                let ghost before = r@;
                r.push(n);
                assert(refs_v(r@) =~= refs_v(before).push(n@));
            }
            i = i + 1;
        }
        assert(sv.take(sv.len() as int) =~= sv);
        r
    }

    /// Whether there are nodes and all of them have ended.
    pub fn finished(&self) -> (r: bool)
        ensures
            r == (self@.len() > 0 && forall|i: int|
                0 <= i < self@.len() ==> ended(#[trigger] self@[i].status)),
    {
        if self.nodes.len() == 0 {
            return false;
        }
        let mut i: usize = 0;
        while i < self.nodes.len()
            invariant
                i <= self.nodes@.len(),
                forall|k: int| 0 <= k < i ==> ended(#[trigger] self@[k].status),
            decreases self.nodes@.len() - i,
        {
            assert(self@[i as int].status == self.nodes@[i as int].status);
            if !(self.nodes[i].status == NodeStatus::Done || self.nodes[i].status
                == NodeStatus::Failed) {
                assert(!ended(self@[i as int].status));
                return false;
            }
            i = i + 1;
        }
        true
    }
}

pub open spec fn refs_v(v: Seq<&TaskNode>) -> Seq<NodeV> {
    v.map_values(|n: &TaskNode| n@)
}

/// The nodes of a stage among the first `n`.
pub open spec fn in_stage_below(nodes: Seq<NodeV>, stage: nat, n: int) -> Seq<NodeV>
    decreases n,
{
    if n <= 0 {
        Seq::empty()
    } else if stages_of(nodes)[n - 1] == stage {
        in_stage_below(nodes, stage, n - 1).push(nodes[n - 1])
    } else {
        in_stage_below(nodes, stage, n - 1)
    }
}

/// The nodes of a stage, in chain order.
pub open spec fn in_stage(nodes: Seq<NodeV>, stage: nat) -> Seq<NodeV> {
    in_stage_below(nodes, stage, nodes.len() as int)
}

pub open spec fn ended(s: NodeStatus) -> bool {
    s is Done || s is Failed
}

pub open spec fn accepted(n: NodeV) -> bool {
    n.status is Done && n.acceptance is Some && n.acceptance->0.ok
}

pub open spec fn passed(nodes: Seq<NodeV>, stage: nat) -> bool {
    &&& in_stage(nodes, stage).len() > 0
    &&& forall|k: int|
        0 <= k < in_stage(nodes, stage).len() ==> accepted(#[trigger] in_stage(nodes, stage)[k])
}

pub open spec fn settled(nodes: Seq<NodeV>, stage: nat) -> bool {
    &&& in_stage(nodes, stage).len() > 0
    &&& forall|k: int|
        0 <= k < in_stage(nodes, stage).len() ==> ended(
            #[trigger] in_stage(nodes, stage)[k].status,
        )
}

pub open spec fn pending_of(v: Seq<NodeV>) -> Seq<NodeV>
    decreases v.len(),
{
    if v.len() == 0 {
        Seq::empty()
    } else if v.last().status is Pending {
        pending_of(v.drop_last()).push(v.last())
    } else {
        pending_of(v.drop_last())
    }
}

/// The greatest of some numbers, 0 for none.
pub open spec fn greatest(v: Seq<nat>) -> nat
    decreases v.len(),
{
    if v.len() == 0 {
        0
    } else {
        let m = greatest(v.drop_last());
        if v.last() > m {
            v.last()
        } else {
            m
        }
    }
}

pub open spec fn top_stage(nodes: Seq<NodeV>) -> nat {
    greatest(stages_of(nodes))
}

// ---- names by stage ----

/// How many of the first `n` nodes are in a stage.
pub open spec fn count_in_stage(nodes: Seq<NodeV>, stage: nat, n: int) -> nat {
    in_stage_below(nodes, stage, n).len()
}

pub open spec fn stage_name(s: nat, k: nat) -> Seq<char> {
    "n"@ + text::decimal(s) + "-"@ + text::decimal(k)
}

/// The derived name of the node at `i`: its stage and its number in the stage, both from 1.
pub open spec fn new_id(nodes: Seq<NodeV>, i: int) -> Seq<char> {
    stage_name(stages_of(nodes)[i], count_in_stage(nodes, stages_of(nodes)[i], i + 1))
}

/// Dependencies by the derived names; those that name no node are dropped.
pub open spec fn new_deps(nodes: Seq<NodeV>, deps: Seq<Seq<char>>) -> Seq<Seq<char>>
    decreases deps.len(),
{
    if deps.len() == 0 {
        Seq::empty()
    } else {
        match position(nodes, deps.last()) {
            Some(j) => new_deps(nodes, deps.drop_last()).push(new_id(nodes, j)),
            None => new_deps(nodes, deps.drop_last()),
        }
    }
}

/// The chain with every node named by its stage, the dependencies following.
pub open spec fn renumbered(nodes: Seq<NodeV>) -> Seq<NodeV> {
    Seq::new(
        nodes.len(),
        |i: int| NodeV { id: new_id(nodes, i), deps: new_deps(nodes, nodes[i].deps), ..nodes[i] },
    )
}

fn count_stage(st: &Vec<usize>, Ghost(nodes): Ghost<Seq<NodeV>>, i: usize) -> (r: usize)
    requires
        i < st@.len(),
        st@.len() == nodes.len(),
        forall|k: int| 0 <= k < st@.len() ==> #[trigger] st@[k] == stages_of(nodes)[k],
    ensures
        r == count_in_stage(nodes, stages_of(nodes)[i as int], i + 1),
{
    let s = st[i];
    let mut n: usize = 0;
    let mut k: usize = 0;
    while k <= i
        invariant
            k <= i + 1,
            i < st@.len(),
            st@.len() == nodes.len(),
            s == stages_of(nodes)[i as int],
            forall|k: int| 0 <= k < st@.len() ==> #[trigger] st@[k] == stages_of(nodes)[k],
            n == count_in_stage(nodes, s as nat, k as int),
            n <= k,
        decreases i + 1 - k,
    {
        assert(i < st.len());
        if st[k] == s {
            n = n + 1;
        }
        if k == i {
            return n;
        }
        k = k + 1;
    }
    n
}

fn derived_ids(chain: &TaskChain) -> (r: Vec<String>)
    ensures
        r@.len() == chain@.len(),
        forall|i: int| 0 <= i < r@.len() ==> #[trigger] r@[i]@ == new_id(chain@, i),
{
    let st = chain.stages();
    let ghost nv = chain@;
    let mut r: Vec<String> = Vec::new();
    let mut i: usize = 0;
    while i < st.len()
        invariant
            i <= st@.len(),
            st@.len() == nv.len(),
            forall|k: int| 0 <= k < st@.len() ==> #[trigger] st@[k] == stages_of(nv)[k],
            r@.len() == i,
            forall|k: int| 0 <= k < i ==> #[trigger] r@[k]@ == new_id(nv, k),
        decreases st@.len() - i,
    {
        let k: usize = count_stage(&st, Ghost(nv), i);
        r.push(
            cat4("n", dec_usize(st[i]).as_str(), "-", dec_usize(k).as_str()),
        );
        i = i + 1;
    }
    r
}

fn derived_deps(nodes: &Vec<TaskNode>, ids: &Vec<String>, deps: &Vec<String>) -> (r: Vec<String>)
    requires
        ids@.len() == nodes@.len(),
        forall|i: int| 0 <= i < ids@.len() ==> #[trigger] ids@[i]@ == new_id(nodes_v(nodes@), i),
    ensures
        text::texts(r@) == new_deps(nodes_v(nodes@), text::texts(deps@)),
{
    let ghost nv = nodes_v(nodes@);
    let ghost dv = text::texts(deps@);
    let mut r: Vec<String> = Vec::new();
    let mut k: usize = 0;
    assert(dv.take(0) =~= Seq::<Seq<char>>::empty());
    assert(text::texts(r@) =~= new_deps(nv, dv.take(0)));
    while k < deps.len()
        invariant
            k <= deps@.len(),
            nv == nodes_v(nodes@),
            dv == text::texts(deps@),
            ids@.len() == nodes@.len(),
            forall|i: int| 0 <= i < ids@.len() ==> #[trigger] ids@[i]@ == new_id(nv, i),
            text::texts(r@) == new_deps(nv, dv.take(k as int)),
        decreases deps@.len() - k,
    {
        proof {
            assert(dv.take(k + 1).drop_last() =~= dv.take(k as int));
            assert(dv.take(k + 1).last() == deps@[k as int]@);
        }
        match find_node(nodes, deps[k].as_str()) {
            Some(j) => {
                let ghost before = r@;
                r.push(ids[j].clone());
                proof {
                    text::lemma_texts_push(before, ids@[j as int]);
                }
            },
            None => {},
        }
        k = k + 1;
    }
    assert(dv.take(dv.len() as int) =~= dv);
    r
}

impl TaskChain {
    /// Names every node by its stage and its place in the stage, and rewrites
    /// the dependencies accordingly: the ids are derived from the graph.
    pub fn renumber_by_stage(&mut self)
        ensures
            final(self)@ == renumbered(old(self)@),
    {
        let ghost nv = self@;
        let ids = derived_ids(self);
        let mut deps: Vec<Vec<String>> = Vec::new();
        let n: usize = self.nodes.len();
        let mut i: usize = 0;
        while i < n
            invariant
                i <= n,
                n == self.nodes@.len(),
                nv == self@,
                ids@.len() == n,
                forall|k: int| 0 <= k < ids@.len() ==> #[trigger] ids@[k]@ == new_id(nv, k),
                deps@.len() == i,
                forall|k: int|
                    0 <= k < i ==> text::texts((#[trigger] deps@[k])@) == new_deps(nv, nv[k].deps),
            decreases n - i,
        {
            let d = derived_deps(&self.nodes, &ids, &self.nodes[i].deps);
            assert(nv[i as int].deps == text::texts(self.nodes@[i as int].deps@));
            deps.push(d);
            i = i + 1;
        }
        let mut i: usize = 0;
        while i < n
            invariant
                i <= n,
                n == self.nodes@.len(),
                n == nv.len(),
                ids@.len() == n,
                deps@.len() == n,
                forall|k: int| 0 <= k < ids@.len() ==> #[trigger] ids@[k]@ == new_id(nv, k),
                forall|k: int|
                    0 <= k < n ==> text::texts((#[trigger] deps@[k])@) == new_deps(nv, nv[k].deps),
                forall|k: int|
                    i <= k < n ==> (#[trigger] self.nodes@[k])@ == nv[k],
                forall|k: int|
                    0 <= k < i ==> (#[trigger] self.nodes@[k])@ == renumbered(nv)[k],
            decreases n - i,
        {
            let d = clone_strings(&deps[i]);
            let ghost prev = self.nodes@;
            let node = &mut self.nodes[i];
            node.id = ids[i].clone();
            node.deps = d;
            assert(self.nodes@[i as int]@ == renumbered(nv)[i as int]);
            assert(forall|k: int| 0 <= k < n && k != i ==> self.nodes@[k] == prev[k]);
            i = i + 1;
        }
        assert(self@ =~= renumbered(nv));
    }
}

// ---- assembly faults ----

/// Whether a node named `id` can be finished in at most `n` rounds, each of
/// which finishes the nodes whose dependencies are finished.
pub open spec fn done_within(nodes: Seq<NodeV>, id: Seq<char>, n: nat) -> bool
    decreases n,
{
    n > 0 && exists|i: int|
        0 <= i < nodes.len() && (#[trigger] nodes[i]).id == id && forall|k: int|
            0 <= k < nodes[i].deps.len() ==> done_within(
                nodes,
                #[trigger] nodes[i].deps[k],
                (n - 1) as nat,
            )
}

/// Whether a node named `id` can be finished at all.
pub open spec fn can_finish(nodes: Seq<NodeV>, id: Seq<char>) -> bool {
    exists|n: nat| done_within(nodes, id, n)
}

/// The dependencies that name no node.
pub open spec fn dangling(nodes: Seq<NodeV>, id: Seq<char>, deps: Seq<Seq<char>>) -> Seq<Seq<char>>
    decreases deps.len(),
{
    if deps.len() == 0 {
        Seq::empty()
    } else {
        dangling(nodes, id, deps.drop_last()) + text::when(
            position(nodes, deps.last()) is None,
            "节点 "@ + id + " 依赖了不存在的节点："@ + deps.last(),
        )
    }
}

/// What is wrong with the node at `i`.
pub open spec fn node_faults(nodes: Seq<NodeV>, roster: Seq<Seq<char>>, i: int) -> Seq<Seq<char>> {
    let n = nodes[i];
    text::when(text::trimmed(n.id).len() == 0, "有节点没有 id"@) + text::when(
        position_from(nodes.take(i), n.id, 0) is Some,
        "节点 id 重复："@ + n.id,
    ) + text::when(
        text::trimmed(n.objective).len() == 0,
        "节点 "@ + n.id + " 没有目标（任务提示词为空）"@,
    ) + text::when(
        !roster.contains(n.assignee),
        "节点 "@ + n.id + " 的负责人不在名单里："@ + n.assignee,
    ) + dangling(nodes, n.id, n.deps)
}

pub open spec fn faults_below(nodes: Seq<NodeV>, roster: Seq<Seq<char>>, n: int) -> Seq<Seq<char>>
    decreases n,
{
    if n <= 0 {
        Seq::empty()
    } else {
        faults_below(nodes, roster, n - 1) + node_faults(nodes, roster, n - 1)
    }
}

pub open spec fn stuck_below(nodes: Seq<NodeV>, n: int) -> Seq<Seq<char>>
    decreases n,
{
    if n <= 0 {
        Seq::empty()
    } else {
        stuck_below(nodes, n - 1) + text::when(
            !can_finish(nodes, nodes[n - 1].id),
            "节点 "@ + nodes[n - 1].id + " 处在环里（依赖互相等待）"@,
        )
    }
}

/// Everything wrong with a chain, in the order it is reported.
pub open spec fn problems_of(nodes: Seq<NodeV>, roster: Seq<Seq<char>>) -> Seq<Seq<char>> {
    text::when(nodes.len() == 0, "任务链是空的"@) + faults_below(
        nodes,
        roster,
        nodes.len() as int,
    ) + stuck_below(nodes, nodes.len() as int)
}

proof fn lemma_done_within_grows(nodes: Seq<NodeV>, id: Seq<char>, n: nat, m: nat)
    requires
        done_within(nodes, id, n),
        n <= m,
    ensures
        done_within(nodes, id, m),
    decreases n,
{
    let i = choose|i: int|
        0 <= i < nodes.len() && (#[trigger] nodes[i]).id == id && forall|k: int|
            0 <= k < nodes[i].deps.len() ==> done_within(
                nodes,
                #[trigger] nodes[i].deps[k],
                (n - 1) as nat,
            );
    assert forall|k: int| 0 <= k < nodes[i].deps.len() implies done_within(
        nodes,
        #[trigger] nodes[i].deps[k],
        (m - 1) as nat,
    ) by {
        lemma_done_within_grows(nodes, nodes[i].deps[k], (n - 1) as nat, (m - 1) as nat);
    }
    assert(nodes[i].id == id);
}

/// Nodes whose dependencies can be finished can be finished.
proof fn lemma_can_finish(nodes: Seq<NodeV>, i: int)
    requires
        0 <= i < nodes.len(),
        forall|k: int|
            0 <= k < nodes[i].deps.len() ==> can_finish(nodes, #[trigger] nodes[i].deps[k]),
    ensures
        can_finish(nodes, nodes[i].id),
{
    let n = lemma_common_round(nodes, nodes[i].deps);
    assert(done_within(nodes, nodes[i].id, n + 1)) by {
        assert(nodes[i].id == nodes[i].id);
    }
}

proof fn lemma_common_round(nodes: Seq<NodeV>, deps: Seq<Seq<char>>) -> (n: nat)
    requires
        forall|k: int| 0 <= k < deps.len() ==> can_finish(nodes, #[trigger] deps[k]),
    ensures
        forall|k: int| 0 <= k < deps.len() ==> done_within(nodes, #[trigger] deps[k], n),
    decreases deps.len(),
{
    if deps.len() == 0 {
        0
    } else {
        assert forall|k: int| 0 <= k < deps.drop_last().len() implies can_finish(
            nodes,
            #[trigger] deps.drop_last()[k],
        ) by {
            assert(deps.drop_last()[k] == deps[k]);
        }
        let a = lemma_common_round(nodes, deps.drop_last());
        assert(can_finish(nodes, deps[deps.len() - 1]));
        let b = choose|b: nat| done_within(nodes, deps.last(), b);
        let n = if a > b {
            a
        } else {
            b
        };
        assert forall|k: int| 0 <= k < deps.len() implies done_within(
            nodes,
            #[trigger] deps[k],
            n,
        ) by {
            if k < deps.len() - 1 {
                assert(deps.drop_last()[k] == deps[k]);
                lemma_done_within_grows(nodes, deps[k], a, n);
            } else {
                lemma_done_within_grows(nodes, deps[k], b, n);
            }
        }
        n
    }
}

/// A list of ids that no round can add to holds every id that can be finished.
proof fn lemma_closed(nodes: Seq<NodeV>, done: Seq<Seq<char>>, id: Seq<char>, n: nat)
    requires
        forall|i: int|
            0 <= i < nodes.len() ==> done.contains((#[trigger] nodes[i]).id) || exists|k: int|
                0 <= k < nodes[i].deps.len() && !done.contains(#[trigger] nodes[i].deps[k]),
        done_within(nodes, id, n),
    ensures
        done.contains(id),
    decreases n,
{
    let i = choose|i: int|
        0 <= i < nodes.len() && (#[trigger] nodes[i]).id == id && forall|k: int|
            0 <= k < nodes[i].deps.len() ==> done_within(
                nodes,
                #[trigger] nodes[i].deps[k],
                (n - 1) as nat,
            );
    assert forall|k: int| 0 <= k < nodes[i].deps.len() implies done.contains(
        #[trigger] nodes[i].deps[k],
    ) by {
        lemma_closed(nodes, done, nodes[i].deps[k], (n - 1) as nat);
    }
}

fn all_in(deps: &Vec<String>, done: &Vec<String>) -> (r: bool)
    ensures
        r == forall|k: int|
            0 <= k < text::texts(deps@).len() ==> text::texts(done@).contains(#[trigger] text::texts(deps@)[k]),
{
    let mut i: usize = 0;
    while i < deps.len()
        invariant
            i <= deps@.len(),
            forall|k: int| 0 <= k < i ==> text::texts(done@).contains(#[trigger] text::texts(deps@)[k]),
        decreases deps@.len() - i,
    {
        if !has_text(done, deps[i].as_str()) {
            assert(!text::texts(done@).contains(text::texts(deps@)[i as int]));
            return false;
        }
        i = i + 1;
    }
    true
}

/// How many of the nodes are finished.
pub open spec fn finished_count(nodes: Seq<NodeV>, done: Seq<Seq<char>>) -> nat
    decreases nodes.len(),
{
    if nodes.len() == 0 {
        0
    } else {
        finished_count(nodes.drop_last(), done) + if done.contains(nodes.last().id) {
            1nat
        } else {
            0
        }
    }
}

proof fn lemma_finished_count(nodes: Seq<NodeV>, done: Seq<Seq<char>>, more: Seq<Seq<char>>)
    requires
        forall|x: Seq<char>| #[trigger] done.contains(x) ==> more.contains(x),
    ensures
        finished_count(nodes, done) <= finished_count(nodes, more) <= nodes.len(),
        (exists|i: int|
            0 <= i < nodes.len() && !done.contains((#[trigger] nodes[i]).id) && more.contains(
                nodes[i].id,
            )) ==> finished_count(nodes, done) < finished_count(nodes, more),
    decreases nodes.len(),
{
    if nodes.len() > 0 {
        lemma_finished_count(nodes.drop_last(), done, more);
        if exists|i: int|
            0 <= i < nodes.len() && !done.contains((#[trigger] nodes[i]).id) && more.contains(
                nodes[i].id,
            ) {
            let i = choose|i: int|
                0 <= i < nodes.len() && !done.contains((#[trigger] nodes[i]).id) && more.contains(
                    nodes[i].id,
                );
            if i < nodes.len() - 1 {
                assert(nodes.drop_last()[i] == nodes[i]);
            }
        }
    }
}

/// The ids of the nodes that can be finished.
fn finishable(nodes: &Vec<TaskNode>) -> (done: Vec<String>)
    ensures
        forall|id: Seq<char>|
            #[trigger] text::texts(done@).contains(id) <==> can_finish(nodes_v(nodes@), id),
{
    let ghost nv = nodes_v(nodes@);
    let mut done: Vec<String> = Vec::new();
    let mut moved = true;
    while moved
        invariant
            nv == nodes_v(nodes@),
            forall|id: Seq<char>| #[trigger] text::texts(done@).contains(id) ==> can_finish(nv, id),
            !moved ==> forall|i: int|
                0 <= i < nv.len() ==> text::texts(done@).contains((#[trigger] nv[i]).id) || exists|k: int|
                    0 <= k < nv[i].deps.len() && !text::texts(done@).contains(#[trigger] nv[i].deps[k]),
        decreases nv.len() - finished_count(nv, text::texts(done@)),
            if moved {
                1int
            } else {
                0
            },
    {
        moved = false;
        let mut i: usize = 0;
        let ghost start = text::texts(done@);
        proof {
            lemma_finished_count(nv, start, start);
        }
        while i < nodes.len()
            invariant
                i <= nodes@.len(),
                nv == nodes_v(nodes@),
                forall|id: Seq<char>| #[trigger] text::texts(done@).contains(id) ==> can_finish(nv, id),
                forall|id: Seq<char>| #[trigger] start.contains(id) ==> text::texts(done@).contains(id),
                moved ==> exists|k: int|
                    0 <= k < nv.len() && !start.contains((#[trigger] nv[k]).id) && text::texts(
                        done@,
                    ).contains(nv[k].id),
                !moved ==> text::texts(done@) == start,
                !moved ==> forall|j: int|
                    0 <= j < i ==> start.contains((#[trigger] nv[j]).id) || exists|k: int|
                        0 <= k < nv[j].deps.len() && !start.contains(#[trigger] nv[j].deps[k]),
            decreases nodes@.len() - i,
        {
            let n = &nodes[i];
            assert(nv[i as int] == n@);
            if !has_text(&done, n.id.as_str()) {
                if all_in(&n.deps, &done) {
                    let ghost prev = done@;
                    let ghost was = moved;
                    done.push(n.id.clone());
                    proof {
                        text::lemma_texts_push(prev, n.id);
                        lemma_can_finish(nv, i as int);
                        let t = text::texts(done@);
                        assert(t.last() == n.id@);
                        assert forall|id: Seq<char>| #[trigger] t.contains(
                            id,
                        ) implies can_finish(nv, id) by {
                            let k = choose|k: int| 0 <= k < t.len() && t[k] == id;
                            if k < t.len() - 1 {
                                assert(text::texts(prev)[k] == id);
                                assert(text::texts(prev).contains(id));
                            } else {
                                assert(id == nv[i as int].id);
                            }
                        }
                        assert forall|id: Seq<char>| #[trigger] text::texts(prev).contains(
                            id,
                        ) implies t.contains(id) by {
                            let k = choose|k: int| 0 <= k < text::texts(prev).len() && text::texts(prev)[k] == id;
                            assert(t[k] == id);
                        }
                        if !was {
                            assert(!start.contains(nv[i as int].id));
                            assert(t.contains(nv[i as int].id));
                        }
                    }
                    moved = true;
                }
            }
            i = i + 1;
        }
        proof {
            lemma_finished_count(nv, start, text::texts(done@));
        }
    }
    proof {
        assert forall|id: Seq<char>| can_finish(nv, id) implies #[trigger] text::texts(done@).contains(
            id,
        ) by {
            let n = choose|n: nat| done_within(nv, id, n);
            lemma_closed(nv, text::texts(done@), id, n);
        }
    }
    done
}

impl TaskChain {
    /// Everything wrong with the chain, readable; nothing when it is sound.
    pub fn problems(&self, roster: &Vec<String>) -> (r: Vec<String>)
        ensures
            text::texts(r@) == problems_of(self@, text::texts(roster@)),
    {
        let ghost nv = self@;
        let ghost rv = text::texts(roster@);
        let mut out: Vec<String> = Vec::new();
        let empty = self.nodes.len() == 0;
        assert(text::texts(out@) =~= Seq::<Seq<char>>::empty());
        push_when(&mut out, empty, "任务链是空的".to_owned());
        let ghost head = text::texts(out@);
        assert(head =~= text::when(nv.len() == 0, "任务链是空的"@));
        let mut i: usize = 0;
        assert(head + faults_below(nv, rv, 0) =~= head);
        while i < self.nodes.len()
            invariant
                i <= self.nodes@.len(),
                nv == self@,
                rv == text::texts(roster@),
                text::texts(out@) == head + faults_below(nv, rv, i as int),
            decreases self.nodes@.len() - i,
        {
            let n = &self.nodes[i];
            assert(nv[i as int] == n@);
            let ghost before = text::texts(out@);
            push_when(&mut out, is_blank(n.id.as_str()), "有节点没有 id".to_owned());
            let mut twice = false;
            let mut k: usize = 0;
            while k < i && !twice
                invariant
                    k <= i < self.nodes@.len(),
                    nv == self@,
                    n@ == nv[i as int],
                    !twice ==> position_from(nv.take(i as int), n.id@, 0) == position_from(
                        nv.take(i as int),
                        n.id@,
                        k as int,
                    ),
                    twice ==> position_from(nv.take(i as int), n.id@, 0) is Some,
                decreases i - k,
                    if twice {
                        0int
                    } else {
                        1
                    },
            {
                assert(nv.take(i as int)[k as int].id == self.nodes@[k as int].id@);
                if str_eq(self.nodes[k].id.as_str(), n.id.as_str()) {
                    twice = true;
                } else {
                    k = k + 1;
                }
            }
            push_when(&mut out, twice, cat2("节点 id 重复：", n.id.as_str()));
            push_when(
                &mut out,
                is_blank(n.objective.as_str()),
                cat3("节点 ", n.id.as_str(), " 没有目标（任务提示词为空）"),
            );
            push_when(
                &mut out,
                !has_text(roster, n.assignee.as_str()),
                cat4("节点 ", n.id.as_str(), " 的负责人不在名单里：", n.assignee.as_str()),
            );
            let ghost upto = text::texts(out@);
            let mut d: usize = 0;
            let ghost dv = text::texts(n.deps@);
            assert(dv.take(0) =~= Seq::<Seq<char>>::empty());
            assert(upto + dangling(nv, n.id@, dv.take(0)) =~= upto);
            while d < n.deps.len()
                invariant
                    d <= n.deps@.len(),
                    nv == self@,
                    dv == text::texts(n.deps@),
                    text::texts(out@) == upto + dangling(nv, n.id@, dv.take(d as int)),
                decreases n.deps@.len() - d,
            {
                proof {
                    assert(dv.take(d + 1).drop_last() =~= dv.take(d as int));
                    assert(dv.take(d + 1).last() == n.deps@[d as int]@);
                }
                let miss = match find_node(&self.nodes, n.deps[d].as_str()) {
                    Some(_) => false,
                    None => true,
                };
                push_when(
                    &mut out,
                    miss,
                    cat4("节点 ", n.id.as_str(), " 依赖了不存在的节点：", n.deps[d].as_str()),
                );
                d = d + 1;
                assert(text::texts(out@) =~= upto + dangling(nv, n.id@, dv.take(d as int)));
            }
            assert(dv.take(dv.len() as int) =~= dv);
            assert(text::texts(out@) =~= before + node_faults(nv, rv, i as int));
            i = i + 1;
            assert(text::texts(out@) =~= head + faults_below(nv, rv, i as int));
        }
        let done = finishable(&self.nodes);
        let ghost mid = text::texts(out@);
        let mut i: usize = 0;
        assert(mid + stuck_below(nv, 0) =~= mid);
        while i < self.nodes.len()
            invariant
                i <= self.nodes@.len(),
                nv == self@,
                forall|id: Seq<char>|
                    #[trigger] text::texts(done@).contains(id) <==> can_finish(nv, id),
                text::texts(out@) == mid + stuck_below(nv, i as int),
            decreases self.nodes@.len() - i,
        {
            let n = &self.nodes[i];
            assert(nv[i as int] == n@);
            push_when(
                &mut out,
                !has_text(&done, n.id.as_str()),
                cat3("节点 ", n.id.as_str(), " 处在环里（依赖互相等待）"),
            );
            i = i + 1;
            assert(text::texts(out@) =~= mid + stuck_below(nv, i as int));
        }
        out
    }
}

// ---- laws ----

proof fn lemma_no_faults(nodes: Seq<NodeV>, roster: Seq<Seq<char>>, n: int, i: int)
    requires
        faults_below(nodes, roster, n).len() == 0,
        0 <= i < n,
    ensures
        node_faults(nodes, roster, i).len() == 0,
    decreases n,
{
    if i < n - 1 {
        lemma_no_faults(nodes, roster, n - 1, i);
    }
}

proof fn lemma_none_stuck(nodes: Seq<NodeV>, n: int, i: int)
    requires
        stuck_below(nodes, n).len() == 0,
        0 <= i < n,
    ensures
        can_finish(nodes, nodes[i].id),
    decreases n,
{
    if i < n - 1 {
        lemma_none_stuck(nodes, n - 1, i);
    }
}

proof fn lemma_none_dangling(nodes: Seq<NodeV>, id: Seq<char>, deps: Seq<Seq<char>>, k: int)
    requires
        dangling(nodes, id, deps).len() == 0,
        0 <= k < deps.len(),
    ensures
        position(nodes, deps[k]) is Some,
    decreases deps.len(),
{
    if k < deps.len() - 1 {
        lemma_none_dangling(nodes, id, deps.drop_last(), k);
    }
}

/// Whether the ids are all different.
pub open spec fn distinct_ids(nodes: Seq<NodeV>) -> bool {
    forall|i: int, j: int|
        0 <= i < j < nodes.len() ==> (#[trigger] nodes[i]).id != (#[trigger] nodes[j]).id
}

/// Whether every dependency names a node.
pub open spec fn deps_resolve(nodes: Seq<NodeV>) -> bool {
    forall|i: int, k: int|
        0 <= i < nodes.len() && 0 <= k < nodes[i].deps.len() ==> position(
            nodes,
            #[trigger] nodes[i].deps[k],
        ) is Some
}

proof fn lemma_deps_max_some(nodes: Seq<NodeV>, st: Seq<Option<nat>>, deps: Seq<Seq<char>>)
    requires
        forall|k: int|
            0 <= k < deps.len() ==> position(nodes, #[trigger] deps[k]) is Some && st[position(
                nodes,
                deps[k],
            )->0] is Some,
    ensures
        deps_max(nodes, st, deps) is Some,
    decreases deps.len(),
{
    if deps.len() > 0 {
        assert forall|k: int| 0 <= k < deps.drop_last().len() implies position(
            nodes,
            #[trigger] deps.drop_last()[k],
        ) is Some && st[position(nodes, deps.drop_last()[k])->0] is Some by {
            assert(deps.drop_last()[k] == deps[k]);
        }
        lemma_deps_max_some(nodes, st, deps.drop_last());
        assert(deps.last() == deps[deps.len() - 1]);
    }
}

proof fn lemma_finishing_has_layer(nodes: Seq<NodeV>, i: int, n: nat)
    requires
        0 <= i < nodes.len(),
        distinct_ids(nodes),
        deps_resolve(nodes),
        done_within(nodes, nodes[i].id, n),
    ensures
        layering(nodes)[i] is Some,
    decreases n,
{
    let st = layering(nodes);
    layering_exists(nodes);
    let j = choose|j: int|
        0 <= j < nodes.len() && (#[trigger] nodes[j]).id == nodes[i].id && forall|k: int|
            0 <= k < nodes[j].deps.len() ==> done_within(
                nodes,
                #[trigger] nodes[j].deps[k],
                (n - 1) as nat,
            );
    assert(j == i);
    let deps = nodes[i].deps;
    assert forall|k: int| 0 <= k < deps.len() implies position(nodes, #[trigger] deps[k]) is Some
        && st[position(nodes, deps[k])->0] is Some by {
        assert(position(nodes, nodes[i].deps[k]) is Some);
        lemma_position_from(nodes, deps[k], 0);
        lemma_finishing_has_layer(nodes, position(nodes, deps[k])->0, (n - 1) as nat);
    }
    lemma_deps_max_some(nodes, st, deps);
    assert(st[i] == bump(deps_max(nodes, st, deps)));
}

/// A chain without problems is a sound graph: the ids differ, every dependency
/// names a node, every node has a stage, and what it depends on lies in an
/// earlier one.
pub proof fn no_problems_means_sound(nodes: Seq<NodeV>, roster: Seq<Seq<char>>)
    requires
        problems_of(nodes, roster).len() == 0,
    ensures
        nodes.len() > 0,
        distinct_ids(nodes),
        deps_resolve(nodes),
        forall|i: int|
            0 <= i < nodes.len() ==> roster.contains((#[trigger] nodes[i]).assignee)
                && layering(nodes)[i] == Some(stages_of(nodes)[i]),
        forall|i: int, k: int|
            0 <= i < nodes.len() && 0 <= k < nodes[i].deps.len() ==> stages_of(nodes)[position(
                nodes,
                #[trigger] nodes[i].deps[k],
            )->0] < stages_of(nodes)[i],
{
    let st = layering(nodes);
    layering_exists(nodes);
    assert forall|i: int, j: int| 0 <= i < j < nodes.len() implies (#[trigger] nodes[i]).id != (
    #[trigger] nodes[j]).id by {
        lemma_no_faults(nodes, roster, nodes.len() as int, j);
        lemma_position_from(nodes.take(j), nodes[j].id, 0);
        assert(nodes.take(j)[i] == nodes[i]);
    }
    assert forall|i: int, k: int|
        0 <= i < nodes.len() && 0 <= k < nodes[i].deps.len() implies position(
        nodes,
        #[trigger] nodes[i].deps[k],
    ) is Some by {
        lemma_no_faults(nodes, roster, nodes.len() as int, i);
        lemma_none_dangling(nodes, nodes[i].id, nodes[i].deps, k);
    }
    assert forall|i: int| 0 <= i < nodes.len() implies roster.contains(
        (#[trigger] nodes[i]).assignee,
    ) && layering(nodes)[i] == Some(stages_of(nodes)[i]) by {
        lemma_no_faults(nodes, roster, nodes.len() as int, i);
        lemma_none_stuck(nodes, nodes.len() as int, i);
        let n = choose|n: nat| done_within(nodes, nodes[i].id, n);
        lemma_finishing_has_layer(nodes, i, n);
    }
    assert forall|i: int, k: int|
        0 <= i < nodes.len() && 0 <= k < nodes[i].deps.len() implies stages_of(nodes)[position(
        nodes,
        #[trigger] nodes[i].deps[k],
    )->0] < stages_of(nodes)[i] by {
        assert(layering(nodes)[i] == Some(stages_of(nodes)[i]));
        assert(st[i] == bump(deps_max(nodes, st, nodes[i].deps)));
        lemma_deps_below(nodes, st, nodes[i].deps, k);
        lemma_position_from(nodes, nodes[i].deps[k], 0);
        let j = position(nodes, nodes[i].deps[k])->0;
        assert(nodes[j].id == nodes[j].id);
        assert(layering(nodes)[j] == Some(stages_of(nodes)[j]));
    }
}

/// Derived names of different stages or numbers differ.
pub proof fn stage_names_differ(s: nat, k: nat, t: nat, m: nat)
    requires
        stage_name(s, k) == stage_name(t, m),
    ensures
        s == t,
        k == m,
{
    reveal_strlit("n");
    reveal_strlit("-");
    text::lemma_decimal(s);
    text::lemma_decimal(t);
    let a = stage_name(s, k);
    let b = stage_name(t, m);
    let x = text::decimal(s).len() as int;
    let y = text::decimal(t).len() as int;
    assert(a[1 + x] == '-');
    assert(b[1 + y] == '-');
    if x < y {
        assert(b[1 + x] == text::decimal(t)[x as int]);
    } else if y < x {
        assert(a[1 + y] == text::decimal(s)[y as int]);
    }
    assert(a.subrange(1, 1 + x as int) =~= text::decimal(s));
    assert(b.subrange(1, 1 + y as int) =~= text::decimal(t));
    assert(a.skip(2 + x as int) =~= text::decimal(k));
    assert(b.skip(2 + y as int) =~= text::decimal(m));
    text::lemma_decimal_injective(s, t);
    text::lemma_decimal_injective(k, m);
}

proof fn lemma_count_grows(nodes: Seq<NodeV>, s: nat, i: int, j: int)
    requires
        0 <= i <= j,
    ensures
        count_in_stage(nodes, s, i) <= count_in_stage(nodes, s, j),
    decreases j,
{
    if i < j {
        lemma_count_grows(nodes, s, i, j - 1);
    }
}

proof fn lemma_new_ids_distinct(nodes: Seq<NodeV>, i: int, j: int)
    requires
        0 <= i < nodes.len(),
        0 <= j < nodes.len(),
        new_id(nodes, i) == new_id(nodes, j),
    ensures
        i == j,
{
    let s = stages_of(nodes)[i];
    let t = stages_of(nodes)[j];
    stage_names_differ(s, count_in_stage(nodes, s, i + 1), t, count_in_stage(nodes, t, j + 1));
    if i < j {
        lemma_count_grows(nodes, s, i + 1, j);
    } else if j < i {
        lemma_count_grows(nodes, s, j + 1, i);
    }
}

proof fn lemma_new_position(nodes: Seq<NodeV>, j: int)
    requires
        0 <= j < nodes.len(),
    ensures
        position(renumbered(nodes), new_id(nodes, j)) == Some(j),
{
    let r = renumbered(nodes);
    lemma_position_from(r, new_id(nodes, j), 0);
    assert(r[j].id == new_id(nodes, j));
    let p = position(r, new_id(nodes, j))->0;
    assert(r[p].id == new_id(nodes, p));
    lemma_new_ids_distinct(nodes, p, j);
}

proof fn lemma_new_deps(nodes: Seq<NodeV>, st: Seq<Option<nat>>, deps: Seq<Seq<char>>)
    requires
        forall|k: int| 0 <= k < deps.len() ==> position(nodes, #[trigger] deps[k]) is Some,
    ensures
        new_deps(nodes, deps).len() == deps.len(),
        forall|k: int|
            0 <= k < deps.len() ==> position(
                renumbered(nodes),
                #[trigger] new_deps(nodes, deps)[k],
            ) == position(nodes, deps[k]),
        deps_max(renumbered(nodes), st, new_deps(nodes, deps)) == deps_max(nodes, st, deps),
    decreases deps.len(),
{
    if deps.len() > 0 {
        assert forall|k: int| 0 <= k < deps.drop_last().len() implies position(
            nodes,
            #[trigger] deps.drop_last()[k],
        ) is Some by {
            assert(deps.drop_last()[k] == deps[k]);
        }
        lemma_new_deps(nodes, st, deps.drop_last());
        assert(position(nodes, deps[deps.len() - 1]) is Some);
        lemma_position_from(nodes, deps.last(), 0);
        let j = position(nodes, deps.last())->0;
        lemma_new_position(nodes, j);
        let nd = new_deps(nodes, deps);
        assert(nd.drop_last() =~= new_deps(nodes, deps.drop_last()));
        assert forall|k: int| 0 <= k < deps.len() implies position(
            renumbered(nodes),
            #[trigger] nd[k],
        ) == position(nodes, deps[k]) by {
            if k < deps.len() - 1 {
                assert(nd[k] == new_deps(nodes, deps.drop_last())[k]);
                assert(deps.drop_last()[k] == deps[k]);
            }
        }
    }
}

/// Naming the nodes by stage keeps the graph: each node keeps its stage and
/// depends on the same nodes, and the derived ids differ.
pub proof fn renumbering_keeps_the_graph(nodes: Seq<NodeV>)
    requires
        deps_resolve(nodes),
    ensures
        distinct_ids(renumbered(nodes)),
        deps_resolve(renumbered(nodes)),
        stages_of(renumbered(nodes)) == stages_of(nodes),
        forall|i: int, k: int|
            0 <= i < nodes.len() && 0 <= k < nodes[i].deps.len() ==> position(
                renumbered(nodes),
                renumbered(nodes)[i].deps[k],
            ) == position(nodes, #[trigger] nodes[i].deps[k]),
{
    let r = renumbered(nodes);
    let st = layering(nodes);
    layering_exists(nodes);
    layering_exists(r);
    assert forall|i: int, j: int| 0 <= i < j < r.len() implies (#[trigger] r[i]).id != (
    #[trigger] r[j]).id by {
        if r[i].id == r[j].id {
            lemma_new_ids_distinct(nodes, i, j);
        }
    }
    assert forall|i: int| 0 <= i < r.len() implies #[trigger] st[i] == bump(
        deps_max(r, st, r[i].deps),
    ) by {
        assert forall|k: int| 0 <= k < nodes[i].deps.len() implies position(
            nodes,
            #[trigger] nodes[i].deps[k],
        ) is Some by {}
        lemma_new_deps(nodes, st, nodes[i].deps);
    }
    layering_is_unique(r, st, layering(r));
    assert forall|i: int, k: int|
        0 <= i < nodes.len() && 0 <= k < nodes[i].deps.len() implies position(r, r[i].deps[k])
        == position(nodes, #[trigger] nodes[i].deps[k]) by {
        lemma_new_deps(nodes, st, nodes[i].deps);
    }
    assert forall|i: int, k: int|
        0 <= i < r.len() && 0 <= k < r[i].deps.len() implies position(
        r,
        #[trigger] r[i].deps[k],
    ) is Some by {
        lemma_new_deps(nodes, st, nodes[i].deps);
        assert(position(nodes, nodes[i].deps[k]) is Some);
    }
}

proof fn lemma_same_stages_same_ids(a: Seq<NodeV>, b: Seq<NodeV>, s: nat, n: int)
    requires
        stages_of(a) == stages_of(b),
    ensures
        count_in_stage(a, s, n) == count_in_stage(b, s, n),
    decreases n,
{
    if n > 0 {
        lemma_same_stages_same_ids(a, b, s, n - 1);
    }
}

/// Naming the nodes by stage a second time changes nothing.
pub proof fn renumbering_twice_is_once(nodes: Seq<NodeV>)
    requires
        deps_resolve(nodes),
    ensures
        renumbered(renumbered(nodes)) == renumbered(nodes),
{
    let r = renumbered(nodes);
    renumbering_keeps_the_graph(nodes);
    let rr = renumbered(r);
    assert forall|i: int| 0 <= i < r.len() implies #[trigger] new_id(r, i) == new_id(nodes, i) by {
        lemma_same_stages_same_ids(r, nodes, stages_of(nodes)[i], i + 1);
    }
    assert forall|i: int| 0 <= i < r.len() implies #[trigger] rr[i] == r[i] by {
        assert(new_id(r, i) == new_id(nodes, i));
        assert forall|k: int| 0 <= k < r[i].deps.len() implies position(
            r,
            #[trigger] r[i].deps[k],
        ) is Some by {}
        lemma_new_deps(r, Seq::empty(), r[i].deps);
        lemma_new_deps(nodes, Seq::empty(), nodes[i].deps);
        lemma_new_deps_are(r, r[i].deps);
        lemma_new_deps_are(nodes, nodes[i].deps);
        assert forall|k: int| 0 <= k < r[i].deps.len() implies #[trigger] rr[i].deps[k]
            == r[i].deps[k] by {
            let j = position(nodes, nodes[i].deps[k])->0;
            assert(position(nodes, nodes[i].deps[k]) is Some);
            lemma_position_from(nodes, nodes[i].deps[k], 0);
            assert(new_id(r, j) == new_id(nodes, j));
        }
        assert(rr[i].deps =~= r[i].deps);
    }
    assert(rr =~= r);
}

proof fn lemma_new_deps_are(nodes: Seq<NodeV>, deps: Seq<Seq<char>>)
    requires
        forall|k: int| 0 <= k < deps.len() ==> position(nodes, #[trigger] deps[k]) is Some,
    ensures
        new_deps(nodes, deps).len() == deps.len(),
        forall|k: int|
            0 <= k < deps.len() ==> #[trigger] new_deps(nodes, deps)[k] == new_id(
                nodes,
                position(nodes, deps[k])->0,
            ),
    decreases deps.len(),
{
    if deps.len() > 0 {
        assert forall|k: int| 0 <= k < deps.drop_last().len() implies position(
            nodes,
            #[trigger] deps.drop_last()[k],
        ) is Some by {
            assert(deps.drop_last()[k] == deps[k]);
        }
        lemma_new_deps_are(nodes, deps.drop_last());
        assert(position(nodes, deps[deps.len() - 1]) is Some);
        let nd = new_deps(nodes, deps);
        assert forall|k: int| 0 <= k < deps.len() implies #[trigger] nd[k] == new_id(
            nodes,
            position(nodes, deps[k])->0,
        ) by {
            if k < deps.len() - 1 {
                assert(nd[k] == new_deps(nodes, deps.drop_last())[k]);
            }
        }
    }
}

/// The nodes of the stages up to `m`, among the first `n` nodes, together.
pub open spec fn stages_together(nodes: Seq<NodeV>, m: nat, n: int) -> Multiset<NodeV>
    decreases m,
{
    if m == 0 {
        Multiset::empty()
    } else {
        stages_together(nodes, (m - 1) as nat, n).add(in_stage_below(nodes, m, n).to_multiset())
    }
}

proof fn lemma_together_step(nodes: Seq<NodeV>, m: nat, n: int)
    requires
        0 < n <= nodes.len(),
        stages_of(nodes)[n - 1] >= 1,
    ensures
        stages_together(nodes, m, n) == if stages_of(nodes)[n - 1] <= m {
            stages_together(nodes, m, n - 1).insert(nodes[n - 1])
        } else {
            stages_together(nodes, m, n - 1)
        },
    decreases m,
{
    broadcast use vstd::seq_lib::group_to_multiset_ensures;

    if m > 0 {
        lemma_together_step(nodes, (m - 1) as nat, n);
        let a = in_stage_below(nodes, m, n - 1);
        if stages_of(nodes)[n - 1] == m {
            assert(in_stage_below(nodes, m, n) == a.push(nodes[n - 1]));
            assert(a.push(nodes[n - 1]).to_multiset() =~= a.to_multiset().insert(nodes[n - 1]));
        }
        assert(stages_together(nodes, m, n) =~= if stages_of(nodes)[n - 1] <= m {
            stages_together(nodes, m, n - 1).insert(nodes[n - 1])
        } else {
            stages_together(nodes, m, n - 1)
        });
    }
}

proof fn lemma_together_none(nodes: Seq<NodeV>, m: nat)
    ensures
        stages_together(nodes, m, 0) == Multiset::<NodeV>::empty(),
    decreases m,
{
    broadcast use vstd::seq_lib::group_to_multiset_ensures;

    if m > 0 {
        lemma_together_none(nodes, (m - 1) as nat);
        assert(in_stage_below(nodes, m, 0).to_multiset().len() == 0);
        assert(in_stage_below(nodes, m, 0).to_multiset() =~= Multiset::<NodeV>::empty());
        assert(stages_together(nodes, m, 0) =~= Multiset::<NodeV>::empty());
    }
}

proof fn lemma_together(nodes: Seq<NodeV>, m: nat, n: int)
    requires
        0 <= n <= nodes.len(),
        forall|i: int| 0 <= i < nodes.len() ==> 1 <= #[trigger] stages_of(nodes)[i] <= m,
    ensures
        stages_together(nodes, m, n) == nodes.take(n).to_multiset(),
    decreases n,
{
    broadcast use vstd::seq_lib::group_to_multiset_ensures;

    if n > 0 {
        lemma_together(nodes, m, n - 1);
        lemma_together_step(nodes, m, n);
        assert(nodes.take(n) =~= nodes.take(n - 1).push(nodes[n - 1]));
        assert(1 <= stages_of(nodes)[n - 1] <= m);
    } else {
        lemma_together_none(nodes, m);
        assert(nodes.take(0).to_multiset().len() == 0);
        assert(nodes.take(0).to_multiset() =~= Multiset::<NodeV>::empty());
    }
}

/// Stages start at one, and those up to the last together hold every node exactly
/// once; no node is in stage zero.
pub proof fn stages_hold_every_node_once(nodes: Seq<NodeV>, m: nat)
    requires
        forall|i: int| 0 <= i < nodes.len() ==> #[trigger] stages_of(nodes)[i] <= m,
    ensures
        forall|i: int| 0 <= i < nodes.len() ==> 1 <= #[trigger] stages_of(nodes)[i],
        stages_together(nodes, m, nodes.len() as int) == nodes.to_multiset(),
        in_stage(nodes, 0).len() == 0,
{
    layering_exists(nodes);
    assert forall|i: int| 0 <= i < nodes.len() implies 1 <= #[trigger] stages_of(nodes)[i] by {
        let st = layering(nodes);
        assert(st[i] == bump(deps_max(nodes, st, nodes[i].deps)));
    }
    lemma_together(nodes, m, nodes.len() as int);
    assert(nodes.take(nodes.len() as int) =~= nodes);
    lemma_no_stage_zero(nodes, nodes.len() as int);
}

proof fn lemma_no_stage_zero(nodes: Seq<NodeV>, n: int)
    requires
        0 <= n <= nodes.len(),
        forall|i: int| 0 <= i < nodes.len() ==> 1 <= #[trigger] stages_of(nodes)[i],
    ensures
        in_stage_below(nodes, 0, n).len() == 0,
    decreases n,
{
    if n > 0 {
        lemma_no_stage_zero(nodes, n - 1);
        assert(1 <= stages_of(nodes)[n - 1]);
    }
}

proof fn lemma_in_stage_holds(nodes: Seq<NodeV>, s: nat, n: int)
    requires
        0 <= n <= nodes.len(),
    ensures
        forall|x: NodeV| #[trigger]
            in_stage_below(nodes, s, n).contains(x) <==> exists|i: int|
                0 <= i < n && stages_of(nodes)[i] == s && #[trigger] nodes[i] == x,
        in_stage_below(nodes, s, n).len() > 0 <==> exists|i: int|
            0 <= i < n && #[trigger] stages_of(nodes)[i] == s,
    decreases n,
{
    if n > 0 {
        lemma_in_stage_holds(nodes, s, n - 1);
        let p = in_stage_below(nodes, s, n - 1);
        let h = in_stage_below(nodes, s, n);
        assert forall|x: NodeV| #[trigger] h.contains(x) <==> exists|i: int|
            0 <= i < n && stages_of(nodes)[i] == s && #[trigger] nodes[i] == x by {
            if h.contains(x) {
                let k = choose|k: int| 0 <= k < h.len() && h[k] == x;
                if k < p.len() {
                    assert(p[k] == x);
                    assert(p.contains(x));
                } else {
                    assert(nodes[n - 1] == x);
                }
            }
            if exists|i: int| 0 <= i < n && stages_of(nodes)[i] == s && #[trigger] nodes[i] == x {
                let i = choose|i: int| 0 <= i < n && stages_of(nodes)[i] == s && #[trigger] nodes[i] == x;
                if i == n - 1 {
                    assert(h[p.len() as int] == x);
                } else {
                    assert(p.contains(x));
                    let k = choose|k: int| 0 <= k < p.len() && p[k] == x;
                    assert(h[k] == x);
                }
            }
        }
        if stages_of(nodes)[n - 1] == s {
            assert(h.len() > 0);
        }
    }
}

/// A stage is passed when there is a node in it and each of its nodes is done and was
/// found good; it has settled when each of them is done or failed.
pub proof fn a_stage_passes_with_all_its_nodes(nodes: Seq<NodeV>, s: nat)
    ensures
        passed(nodes, s) <==> (exists|i: int| 0 <= i < nodes.len() && #[trigger] stages_of(nodes)[i] == s)
            && forall|i: int|
            0 <= i < nodes.len() && #[trigger] stages_of(nodes)[i] == s ==> nodes[i].status is Done
                && nodes[i].acceptance is Some && (nodes[i].acceptance->0).ok,
        settled(nodes, s) <==> (exists|i: int| 0 <= i < nodes.len() && #[trigger] stages_of(nodes)[i] == s)
            && forall|i: int|
            0 <= i < nodes.len() && #[trigger] stages_of(nodes)[i] == s ==> nodes[i].status is Done
                || nodes[i].status is Failed,
{
    let n = nodes.len() as int;
    lemma_in_stage_holds(nodes, s, n);
    let v = in_stage(nodes, s);
    assert forall|k: int| 0 <= k < v.len() implies exists|i: int|
        0 <= i < n && stages_of(nodes)[i] == s && #[trigger] nodes[i] == #[trigger] v[k] by {
        assert(v.contains(v[k]));
    }
    assert forall|i: int| 0 <= i < n && #[trigger] stages_of(nodes)[i] == s implies v.contains(nodes[i]) by {
        assert(nodes[i] == nodes[i]);
    }
    if passed(nodes, s) {
        assert forall|i: int| 0 <= i < nodes.len() && #[trigger] stages_of(nodes)[i] == s implies nodes[i].status is Done
            && nodes[i].acceptance is Some && (nodes[i].acceptance->0).ok by {
            assert(v.contains(nodes[i]));
            let k = choose|k: int| 0 <= k < v.len() && v[k] == nodes[i];
            assert(accepted(v[k]));
        }
    }
    if settled(nodes, s) {
        assert forall|i: int| 0 <= i < nodes.len() && #[trigger] stages_of(nodes)[i] == s implies nodes[i].status is Done
            || nodes[i].status is Failed by {
            assert(v.contains(nodes[i]));
            let k = choose|k: int| 0 <= k < v.len() && v[k] == nodes[i];
            assert(ended(v[k].status));
        }
    }
    if forall|i: int|
        0 <= i < nodes.len() && #[trigger] stages_of(nodes)[i] == s ==> nodes[i].status is Done
            && nodes[i].acceptance is Some && (nodes[i].acceptance->0).ok {
        assert forall|k: int| 0 <= k < v.len() implies accepted(#[trigger] v[k]) by {
            let i = choose|i: int| 0 <= i < n && stages_of(nodes)[i] == s && #[trigger] nodes[i] == v[k];
            assert(stages_of(nodes)[i] == s);
        }
    }
    if forall|i: int|
        0 <= i < nodes.len() && #[trigger] stages_of(nodes)[i] == s ==> nodes[i].status is Done
            || nodes[i].status is Failed {
        assert forall|k: int| 0 <= k < v.len() implies ended(#[trigger] v[k].status) by {
            let i = choose|i: int| 0 <= i < n && stages_of(nodes)[i] == s && #[trigger] nodes[i] == v[k];
            assert(stages_of(nodes)[i] == s);
        }
    }
}

/// Those still to be done of some nodes are those that nobody began, in their order.
pub proof fn what_is_left_was_not_begun(v: Seq<NodeV>)
    ensures
        forall|x: NodeV| #[trigger] pending_of(v).contains(x) <==> v.contains(x) && x.status is Pending,
        pending_of(v).len() <= v.len(),
    decreases v.len(),
{
    if v.len() > 0 {
        let w = v.drop_last();
        what_is_left_was_not_begun(w);
        let p = pending_of(w);
        let h = pending_of(v);
        assert forall|x: NodeV| #[trigger] h.contains(x) <==> v.contains(x) && x.status is Pending by {
            if h.contains(x) {
                let k = choose|k: int| 0 <= k < h.len() && h[k] == x;
                if k < p.len() {
                    assert(p[k] == x);
                    assert(p.contains(x));
                    let j = choose|j: int| 0 <= j < w.len() && w[j] == x;
                    assert(v[j] == x);
                } else {
                    assert(v[v.len() - 1] == x);
                }
            }
            if v.contains(x) && x.status is Pending {
                let j = choose|j: int| 0 <= j < v.len() && v[j] == x;
                if j < w.len() {
                    assert(w[j] == x);
                    assert(w.contains(x));
                    assert(p.contains(x));
                    let k = choose|k: int| 0 <= k < p.len() && p[k] == x;
                    assert(h[k] == x);
                } else {
                    assert(h[p.len() as int] == x);
                }
            }
        }
    }
}

/// A node comes after all it needs, and no later than it has to: in the first stage
/// where it needs nothing, else in the one right behind the last of what it needs.
pub proof fn stages_follow_what_is_needed(nodes: Seq<NodeV>, i: int)
    requires
        0 <= i < nodes.len(),
        layering(nodes)[i] is Some,
    ensures
        layering(nodes).len() == nodes.len(),
        stages_of(nodes).len() == nodes.len(),
        stages_of(nodes)[i] >= 1,
        nodes[i].deps.len() == 0 ==> stages_of(nodes)[i] == 1,
        forall|k: int|
            0 <= k < nodes[i].deps.len() ==> position(nodes, #[trigger] nodes[i].deps[k]) is Some && stages_of(
                nodes,
            )[position(nodes, nodes[i].deps[k])->0] < stages_of(nodes)[i],
        nodes[i].deps.len() > 0 ==> exists|k: int|
            0 <= k < nodes[i].deps.len() && stages_of(nodes)[position(
                nodes,
                #[trigger] nodes[i].deps[k],
            )->0] + 1 == stages_of(nodes)[i],
{
    let st = layering(nodes);
    layering_exists(nodes);
    assert(st[i] == bump(deps_max(nodes, st, nodes[i].deps)));
    let deps = nodes[i].deps;
    assert forall|k: int| 0 <= k < deps.len() implies position(nodes, #[trigger] deps[k]) is Some && stages_of(
        nodes,
    )[position(nodes, deps[k])->0] < stages_of(nodes)[i] by {
        lemma_deps_below(nodes, st, deps, k);
        lemma_position_from(nodes, deps[k], 0);
    }
    if deps.len() > 0 {
        let k = lemma_deps_reached(nodes, st, deps);
        lemma_deps_below(nodes, st, deps, k);
        lemma_position_from(nodes, deps[k], 0);
        assert(stages_of(nodes)[position(nodes, deps[k])->0] + 1 == stages_of(nodes)[i]);
    }
}

proof fn lemma_deps_reached(nodes: Seq<NodeV>, st: Seq<Option<nat>>, deps: Seq<Seq<char>>) -> (k: int)
    requires
        deps.len() > 0,
        st.len() == nodes.len(),
        deps_max(nodes, st, deps) is Some,
    ensures
        0 <= k < deps.len(),
        st[position(nodes, deps[k])->0] == deps_max(nodes, st, deps),
    decreases deps.len(),
{
    let p = deps.drop_last();
    let j = position(nodes, deps.last())->0;
    if p.len() == 0 || st[j]->0 > deps_max(nodes, st, p)->0 {
        if p.len() == 0 {
            assert(deps_max(nodes, st, p) == Some(0nat));
        }
        deps.len() - 1
    } else {
        let k = lemma_deps_reached(nodes, st, p);
        assert(p[k] == deps[k]);
        k
    }
}

/// A chain has no problems exactly where there are nodes, each with an id of its own, a
/// goal and somebody on the roster to do it, and where what each needs is there and can
/// be done.
pub proof fn sound_chains_have_no_problems(nodes: Seq<NodeV>, roster: Seq<Seq<char>>)
    ensures
        problems_of(nodes, roster).len() == 0 <==> nodes.len() > 0 && forall|i: int|
            0 <= i < nodes.len() ==> #[trigger] node_holds(nodes, roster, i),
{
    let n = nodes.len() as int;
    lemma_faults_none(nodes, roster, n);
    lemma_stuck_none(nodes, n);
    if forall|i: int| 0 <= i < n ==> #[trigger] node_holds(nodes, roster, i) {
        assert forall|i: int| 0 <= i < n implies #[trigger] node_faults(nodes, roster, i).len() == 0
            && can_finish(nodes, nodes[i].id) by {
            assert(node_holds(nodes, roster, i));
            lemma_node_faults(nodes, roster, i);
        }
        assert(faults_below(nodes, roster, n).len() == 0);
        assert forall|i: int| 0 <= i < n implies can_finish(nodes, (#[trigger] nodes[i]).id) by {
            assert(node_holds(nodes, roster, i));
        }
        assert(stuck_below(nodes, n).len() == 0);
    }
    if nodes.len() > 0 && problems_of(nodes, roster).len() == 0 {
        assert forall|i: int| 0 <= i < n implies #[trigger] node_holds(nodes, roster, i) by {
            lemma_no_faults(nodes, roster, n, i);
            lemma_none_stuck(nodes, n, i);
            lemma_node_faults(nodes, roster, i);
        }
    }
}

/// Whether nothing is wrong with a node of a chain.
pub open spec fn node_holds(nodes: Seq<NodeV>, roster: Seq<Seq<char>>, i: int) -> bool {
    &&& text::trimmed(nodes[i].id).len() > 0
    &&& forall|j: int| 0 <= j < i ==> (#[trigger] nodes[j]).id != nodes[i].id
    &&& text::trimmed(nodes[i].objective).len() > 0
    &&& roster.contains(nodes[i].assignee)
    &&& forall|k: int|
        0 <= k < nodes[i].deps.len() ==> exists|j: int|
            0 <= j < nodes.len() && (#[trigger] nodes[j]).id == #[trigger] nodes[i].deps[k]
    &&& can_finish(nodes, nodes[i].id)
}

proof fn lemma_dangling_none(nodes: Seq<NodeV>, id: Seq<char>, deps: Seq<Seq<char>>)
    ensures
        dangling(nodes, id, deps).len() == 0 <==> forall|k: int|
            0 <= k < deps.len() ==> position(nodes, #[trigger] deps[k]) is Some,
    decreases deps.len(),
{
    if deps.len() > 0 {
        let p = deps.drop_last();
        lemma_dangling_none(nodes, id, p);
        if forall|k: int| 0 <= k < deps.len() ==> position(nodes, #[trigger] deps[k]) is Some {
            assert forall|k: int| 0 <= k < p.len() implies position(nodes, #[trigger] p[k]) is Some by {
                assert(p[k] == deps[k]);
            }
            assert(position(nodes, deps[deps.len() - 1]) is Some);
        }
        if dangling(nodes, id, deps).len() == 0 {
            assert forall|k: int| 0 <= k < deps.len() implies position(nodes, #[trigger] deps[k]) is Some by {
                if k < p.len() {
                    assert(p[k] == deps[k]);
                }
            }
        }
    }
}

proof fn lemma_node_faults(nodes: Seq<NodeV>, roster: Seq<Seq<char>>, i: int)
    requires
        0 <= i < nodes.len(),
    ensures
        (node_faults(nodes, roster, i).len() == 0 && can_finish(nodes, nodes[i].id)) <==> node_holds(
            nodes,
            roster,
            i,
        ),
{
    let n = nodes[i];
    lemma_position_from(nodes.take(i), n.id, 0);
    lemma_dangling_none(nodes, n.id, n.deps);
    assert forall|j: int| 0 <= j < i implies #[trigger] nodes[j] == nodes.take(i)[j] by {}
    assert forall|k: int| 0 <= k < n.deps.len() implies (position(nodes, #[trigger] n.deps[k]) is Some
        <==> exists|j: int| 0 <= j < nodes.len() && (#[trigger] nodes[j]).id == n.deps[k]) by {
        lemma_position_from(nodes, n.deps[k], 0);
    }
    if node_holds(nodes, roster, i) {
        assert forall|k: int| 0 <= k < n.deps.len() implies position(nodes, #[trigger] n.deps[k]) is Some by {
            assert(nodes[i].deps[k] == n.deps[k]);
        }
    }
}

proof fn lemma_faults_none(nodes: Seq<NodeV>, roster: Seq<Seq<char>>, n: int)
    requires
        0 <= n <= nodes.len(),
    ensures
        faults_below(nodes, roster, n).len() == 0 <==> forall|i: int|
            0 <= i < n ==> (#[trigger] node_faults(nodes, roster, i)).len() == 0,
    decreases n,
{
    if n > 0 {
        lemma_faults_none(nodes, roster, n - 1);
    }
}

proof fn lemma_stuck_none(nodes: Seq<NodeV>, n: int)
    requires
        0 <= n <= nodes.len(),
    ensures
        stuck_below(nodes, n).len() == 0 <==> forall|i: int|
            0 <= i < n ==> can_finish(nodes, (#[trigger] nodes[i]).id),
    decreases n,
{
    if n > 0 {
        lemma_stuck_none(nodes, n - 1);
    }
}

pub proof fn lemma_into_stage(nodes: Seq<NodeV>, s: nat, i: int)
    requires
        0 <= i < nodes.len(),
        stages_of(nodes)[i] == s,
    ensures
        in_stage(nodes, s).contains(nodes[i]),
{
    lemma_in_stage_holds(nodes, s, nodes.len() as int);
    let x = nodes[i];
    assert(exists|j: int| 0 <= j < nodes.len() && stages_of(nodes)[j] == s && #[trigger] nodes[j] == x);
}

pub proof fn lemma_greatest(v: Seq<nat>, i: int)
    requires
        0 <= i < v.len(),
    ensures
        v[i] <= greatest(v),
    decreases v.len(),
{
    if i < v.len() - 1 {
        lemma_greatest(v.drop_last(), i);
    }
}

pub proof fn lemma_no_stage_empty(nodes: Seq<NodeV>, i: int, t: nat) -> (j: int)
    requires
        0 <= i < nodes.len(),
        forall|k: int| 0 <= k < nodes.len() ==> #[trigger] layering(nodes)[k] is Some,
        1 <= t <= stages_of(nodes)[i],
    ensures
        0 <= j < nodes.len(),
        stages_of(nodes)[j] == t,
    decreases stages_of(nodes)[i],
{
    assert(layering(nodes)[i] is Some);
    stages_follow_what_is_needed(nodes, i);
    if t == stages_of(nodes)[i] {
        i
    } else {
        let k = choose|k: int|
            0 <= k < nodes[i].deps.len() && stages_of(nodes)[position(
                nodes,
                #[trigger] nodes[i].deps[k],
            )->0] + 1 == stages_of(nodes)[i];
        lemma_position_from(nodes, nodes[i].deps[k], 0);
        lemma_no_stage_empty(nodes, position(nodes, nodes[i].deps[k])->0, t)
    }
}

pub proof fn lemma_from_stage(nodes: Seq<NodeV>, s: nat, x: NodeV) -> (i: int)
    requires
        in_stage(nodes, s).contains(x),
    ensures
        0 <= i < nodes.len(),
        stages_of(nodes)[i] == s,
        nodes[i] == x,
{
    lemma_in_stage_holds(nodes, s, nodes.len() as int);
    choose|i: int| 0 <= i < nodes.len() && stages_of(nodes)[i] == s && #[trigger] nodes[i] == x
}

} // verus!
