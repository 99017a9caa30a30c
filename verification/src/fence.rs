//! The fence around a tool's process: what an agent may reach. It may read and
//! write the shared directory, its own and its modules'; the rest only where the
//! user said so, and only to read.
use crate::workspace::{self, PathV, RealPath, Sandbox, copy_paths};
use vstd::prelude::*;

verus! {

/// A fence.
#[derive(Debug)]
pub struct FenceSpec {
    pub agent: String,
    /// What may be read and written.
    pub rw: Vec<RealPath>,
    /// What the user allows to be read besides.
    pub ro: Vec<RealPath>,
    /// Where the tool runs; none until a module is chosen.
    pub cwd: Option<RealPath>,
    pub net: bool,
}

pub struct FenceV {
    pub agent: Seq<char>,
    pub rw: Seq<PathV>,
    pub ro: Seq<PathV>,
    pub cwd: Option<PathV>,
    pub net: bool,
}

impl View for FenceSpec {
    type V = FenceV;

    open spec fn view(&self) -> FenceV {
        FenceV {
            agent: self.agent@,
            rw: workspace::paths_v(self.rw@),
            ro: workspace::paths_v(self.ro@),
            cwd: match self.cwd {
                Some(p) => Some(p@),
                None => None,
            },
            net: self.net,
        }
    }
}

/// The modules' directories, in the order of their ids.
pub open spec fn module_paths(t: Seq<(Seq<char>, RealPath)>) -> Seq<PathV> {
    t.map_values(|e: (Seq<char>, RealPath)| e.1@)
}

/// The fence an agent's sandbox implies.
pub open spec fn fence_of(sb: Sandbox, net: bool) -> FenceV {
    FenceV {
        agent: sb.agent@,
        rw: seq![sb.shared@, sb.private@] + module_paths(sb.modules@),
        ro: Seq::empty(),
        cwd: None,
        net,
    }
}

impl FenceSpec {
    /// The fence an agent's sandbox implies.
    pub fn from_sandbox(sb: &Sandbox, net: bool) -> (r: FenceSpec)
        ensures
            r@ == fence_of(*sb, net),
    {
        let mut rw: Vec<RealPath> = Vec::new();
        rw.push(sb.shared.copy());
        rw.push(sb.private.copy());
        let mut i: usize = 0;
        let ghost head = seq![sb.shared@, sb.private@];
        let ghost mp = module_paths(sb.modules@);
        assert(workspace::paths_v(rw@) =~= head + mp.take(0));
        while i < sb.modules.len()
            invariant
                i <= sb.modules@.len(),
                mp == module_paths(sb.modules@),
                workspace::paths_v(rw@) == head + mp.take(i as int),
            decreases sb.modules@.len() - i,
        {
            let ghost prev = rw@;
            rw.push(sb.modules.value_at(i).copy());
            assert(workspace::paths_v(rw@) =~= workspace::paths_v(prev).push(mp[i as int]));
            i = i + 1;
            assert(workspace::paths_v(rw@) =~= head + mp.take(i as int));
        }
        assert(mp.take(mp.len() as int) =~= mp);
        let r = FenceSpec { agent: sb.agent.clone(), rw, ro: Vec::new(), cwd: None, net };
        assert(r@.ro =~= Seq::<PathV>::empty());
        r
    }

    /// The fence with what the user allows to be read.
    pub fn with_read_only(self, ro: Vec<RealPath>) -> (r: FenceSpec)
        ensures
            r@ == (FenceV { ro: workspace::paths_v(ro@), ..self@ }),
    {
        FenceSpec { agent: self.agent, rw: self.rw, ro, cwd: self.cwd, net: self.net }
    }

    /// The fence for a tool that runs in a module's directory.
    pub fn at(&self, module_root: &RealPath) -> (r: FenceSpec)
        ensures
            r@ == (FenceV { cwd: Some(module_root@), ..self@ }),
    {
        FenceSpec {
            agent: self.agent.clone(),
            rw: copy_paths(&self.rw),
            ro: copy_paths(&self.ro),
            cwd: Some(module_root.copy()),
            net: self.net,
        }
    }
}

/// A member's tools may write where the team works, where the member works and where its
/// modules are, and nowhere else.
pub proof fn fences_hold_the_rooms(sb: Sandbox, net: bool, p: PathV)
    ensures
        fence_of(sb, net).rw.contains(p) <==> p == sb.shared@ || p == sb.private@ || exists|k: int|
            0 <= k < sb.modules@.len() && (#[trigger] sb.modules@[k]).1@ == p,
        fence_of(sb, net).net == net,
        fence_of(sb, net).ro.len() == 0,
        fence_of(sb, net).agent == sb.agent@,
{
    let rw = fence_of(sb, net).rw;
    let m = module_paths(sb.modules@);
    assert(rw[0] == sb.shared@);
    assert(rw[1] == sb.private@);
    if rw.contains(p) {
        let k = choose|k: int| 0 <= k < rw.len() && rw[k] == p;
        if k >= 2 {
            assert(rw[k] == m[k - 2]);
            assert(sb.modules@[k - 2].1@ == p);
        }
    }
    if exists|k: int| 0 <= k < sb.modules@.len() && (#[trigger] sb.modules@[k]).1@ == p {
        let k = choose|k: int| 0 <= k < sb.modules@.len() && (#[trigger] sb.modules@[k]).1@ == p;
        assert(rw[k + 2] == m[k]);
    }
}

} // verus!
