//! Tiers and execution plans: on which tier a session runs, and which runtime
//! packages it loads.
use crate::module::Module;
use crate::packages::{self, ClashV, KIND_SYSTEM, Library, PackageManifest, conflicts};
use crate::table::{self, Ranked, Table, add_ordered, sort_unique};
use crate::text::{self, cat2, cat3, cat4, cat5, cat6, cat7, clone_opt, clone_strings, dec_usize, has_text, join, push_when, str_eq, trim};
use vstd::prelude::*;

verus! {

/// Where tools run: on this machine, or in a guest.
#[derive(Debug, Clone, Copy, PartialEq, Eq, Structural)]
pub enum Tier {
    Host,
    Vm,
}

impl Default for Tier {
    fn default() -> (r: Tier)
        ensures
            r == Tier::Host,
    {
        Tier::Host
    }
}

impl Tier {
    pub open spec fn text(self) -> Seq<char> {
        match self {
            Tier::Host => "host"@,
            Tier::Vm => "vm"@,
        }
    }

    pub fn as_str(&self) -> (r: &'static str)
        ensures
            r@ == self.text(),
    {
        match self {
            Tier::Host => "host",
            Tier::Vm => "vm",
        }
    }
}

/// What a session chose: the tier, the guest's base, a version for each
/// capability that needs one, and whether tools may reach the network.
#[derive(Debug)]
pub struct ExecSpec {
    pub tier: Tier,
    pub base: Option<String>,
    pub pins: Table<String>,
    pub net: bool,
}

pub struct ExecSpecV {
    pub tier: Tier,
    pub base: Option<Seq<char>>,
    pub pins: Seq<(Seq<char>, Seq<char>)>,
    pub net: bool,
}

pub open spec fn pins_v(t: Seq<(Seq<char>, String)>) -> Seq<(Seq<char>, Seq<char>)> {
    t.map_values(|e: (Seq<char>, String)| (e.0, e.1@))
}

impl View for ExecSpec {
    type V = ExecSpecV;

    open spec fn view(&self) -> ExecSpecV {
        ExecSpecV {
            tier: self.tier,
            base: text::opt_text(self.base),
            pins: pins_v(self.pins@),
            net: self.net,
        }
    }
}

pub fn copy_pins(t: &Table<String>) -> (r: Table<String>)
    ensures
        r@ == t@,
{
    let mut r: Table<String> = Table::new();
    let mut i: usize = 0;
    while i < t.entries.len()
        invariant
            i <= t.entries@.len(),
            r.entries@.len() == i,
            forall|k: int|
                0 <= k < i ==> (#[trigger] r.entries@[k]).0@ == t.entries@[k].0@ && r.entries@[k].1
                    == t.entries@[k].1,
        decreases t.entries@.len() - i,
    {
        r.entries.push((t.entries[i].0.clone(), t.entries[i].1.clone()));
        i = i + 1;
    }
    assert(r@ =~= t@);
    r
}

impl ExecSpec {
    pub fn copy(&self) -> (r: ExecSpec)
        ensures
            r@ == self@,
            r.pins@ == self.pins@,
    {
        ExecSpec {
            tier: self.tier,
            base: clone_opt(&self.base),
            pins: copy_pins(&self.pins),
            net: self.net,
        }
    }
}


// ---- which packages are needed ----

/// The package a capability stands for: the pinned version, or the only one.
pub open spec fn pick_for(
    lib: Library,
    pins: Seq<(Seq<char>, String)>,
    cap: Seq<char>,
) -> Option<PackageManifest> {
    if lib.versions_v(cap).len() == 0 {
        None
    } else {
        match table::lookup(pins, cap) {
            Some(v) => packages::picked_from(lib.packages@, cap, v@, 0),
            None => if lib.versions_v(cap).len() == 1 {
                Some(lib.versions_v(cap)[0])
            } else {
                None
            },
        }
    }
}

/// Whether a capability is asked for in at most `n` steps: at the start, or by
/// the package of one that is.
pub open spec fn asked_within(
    lib: Library,
    pins: Seq<(Seq<char>, String)>,
    start: Seq<Seq<char>>,
    cap: Seq<char>,
    n: nat,
) -> bool
    decreases n,
{
    n > 0 && (start.contains(cap) || exists|c: Seq<char>|
        #[trigger] asks(lib, pins, c, cap) && asked_within(lib, pins, start, c, (n - 1) as nat))
}

/// Whether the package of `c` asks for `cap`.
pub open spec fn asks(
    lib: Library,
    pins: Seq<(Seq<char>, String)>,
    c: Seq<char>,
    cap: Seq<char>,
) -> bool {
    pick_for(lib, pins, c) matches Some(p) && text::texts(p.needs@).contains(cap)
}

/// Whether a capability is needed, directly or through packages.
pub open spec fn needed(
    lib: Library,
    pins: Seq<(Seq<char>, String)>,
    start: Seq<Seq<char>>,
    cap: Seq<char>,
) -> bool {
    exists|n: nat| asked_within(lib, pins, start, cap, n)
}

fn pick_package<'a>(lib: &'a Library, pins: &Table<String>, cap: &str) -> (r: Option<
    &'a PackageManifest,
>)
    ensures
        match r {
            Some(p) => pick_for(*lib, pins@, cap@) == Some(*p),
            None => pick_for(*lib, pins@, cap@) is None,
        },
{
    let vs = lib.versions_of(cap);
    let ghost vv = lib.versions_v(cap@);
    assert(vv.len() == vs@.len());
    if vs.len() == 0 {
        return None;
    }
    match pins.get(cap) {
        Some(v) => lib.pick(cap, v.as_str()),
        None => {
            if vs.len() == 1 {
                assert(vv[0] == *vs@[0]);
                Some(vs[0])
            } else {
                None
            }
        },
    }
}

/// The needs of all packages.
pub open spec fn all_needs(v: Seq<PackageManifest>) -> Seq<Seq<char>>
    decreases v.len(),
{
    if v.len() == 0 {
        Seq::empty()
    } else {
        all_needs(v.drop_last()) + text::texts(v.last().needs@)
    }
}

proof fn lemma_all_needs(v: Seq<PackageManifest>, i: int, cap: Seq<char>)
    requires
        0 <= i < v.len(),
        text::texts(v[i].needs@).contains(cap),
    ensures
        all_needs(v).contains(cap),
    decreases v.len(),
{
    let a = all_needs(v.drop_last());
    let b = text::texts(v.last().needs@);
    if i == v.len() - 1 {
        let k = choose|k: int| 0 <= k < b.len() && b[k] == cap;
        assert((a + b)[a.len() + k] == cap);
    } else {
        lemma_all_needs(v.drop_last(), i, cap);
        let k = choose|k: int| 0 <= k < a.len() && a[k] == cap;
        assert((a + b)[k] == cap);
    }
}

proof fn lemma_picked_in(v: Seq<PackageManifest>, cap: Seq<char>, version: Seq<char>, i: int)
    requires
        0 <= i,
    ensures
        packages::picked_from(v, cap, version, i) matches Some(p) ==> v.contains(p) && p.id@ == cap,
    decreases v.len() - i,
{
    if i < v.len() {
        assert(v.contains(v[i]));
        lemma_picked_in(v, cap, version, i + 1);
    }
}

proof fn lemma_providing_in(v: Seq<PackageManifest>, cap: Seq<char>, n: int)
    requires
        n <= v.len(),
    ensures
        forall|k: int|
            0 <= k < packages::providing(v, cap, n).len() ==> v.contains(
                #[trigger] packages::providing(v, cap, n)[k],
            ) && packages::providing(v, cap, n)[k].id@ == cap,
    decreases n,
{
    if n > 0 {
        lemma_providing_in(v, cap, n - 1);
        assert(v.contains(v[n - 1]));
        let a = packages::providing(v, cap, n - 1);
        let b = packages::providing(v, cap, n);
        assert forall|k: int| 0 <= k < b.len() implies v.contains(#[trigger] b[k]) && b[k].id@
            == cap by {
            if k < a.len() {
                assert(b[k] == a[k]);
            }
        }
    }
}

/// The package a capability stands for is in the library and provides it.
pub proof fn picks_provide(lib: Library, pins: Seq<(Seq<char>, String)>, cap: Seq<char>)
    ensures
        pick_for(lib, pins, cap) matches Some(p) ==> lib.packages@.contains(p) && p.id@ == cap,
{
    lemma_providing_in(lib.packages@, cap, lib.packages@.len() as int);
    match table::lookup(pins, cap) {
        Some(v) => {
            lemma_picked_in(lib.packages@, cap, v@, 0);
        },
        None => {},
    }
}

proof fn lemma_asks_in_universe(
    lib: Library,
    pins: Seq<(Seq<char>, String)>,
    c: Seq<char>,
    cap: Seq<char>,
)
    requires
        asks(lib, pins, c, cap),
    ensures
        all_needs(lib.packages@).contains(cap),
{
    picks_provide(lib, pins, c);
    let p = pick_for(lib, pins, c)->0;
    let i = choose|i: int| 0 <= i < lib.packages@.len() && lib.packages@[i] == p;
    lemma_all_needs(lib.packages@, i, cap);
}

/// Distinct texts out of a list are no more than the list.
proof fn lemma_distinct_bound(v: Seq<Seq<char>>, u: Seq<Seq<char>>)
    requires
        v.no_duplicates(),
        forall|x: Seq<char>| v.contains(x) ==> u.contains(x),
    ensures
        v.len() <= u.len(),
{
    v.unique_seq_to_set();
    vstd::seq_lib::seq_to_set_is_finite(u);
    assert(v.to_set().subset_of(u.to_set()));
    vstd::set_lib::lemma_len_subset(v.to_set(), u.to_set());
    u.lemma_cardinality_of_set();
}

proof fn lemma_needed_start(
    lib: Library,
    pins: Seq<(Seq<char>, String)>,
    start: Seq<Seq<char>>,
    cap: Seq<char>,
)
    requires
        start.contains(cap),
    ensures
        needed(lib, pins, start, cap),
{
    assert(asked_within(lib, pins, start, cap, 1));
}

proof fn lemma_needed_step(
    lib: Library,
    pins: Seq<(Seq<char>, String)>,
    start: Seq<Seq<char>>,
    c: Seq<char>,
    cap: Seq<char>,
)
    requires
        needed(lib, pins, start, c),
        asks(lib, pins, c, cap),
    ensures
        needed(lib, pins, start, cap),
{
    let n = choose|n: nat| asked_within(lib, pins, start, c, n);
    assert(asked_within(lib, pins, start, cap, n + 1)) by {
        assert(asked_within(lib, pins, start, c, n));
    }
}

/// A list that holds the start and is closed under asking holds all that is needed.
proof fn lemma_closed_list(
    lib: Library,
    pins: Seq<(Seq<char>, String)>,
    start: Seq<Seq<char>>,
    done: Seq<Seq<char>>,
    cap: Seq<char>,
    n: nat,
)
    requires
        forall|x: Seq<char>| start.contains(x) ==> done.contains(x),
        forall|c: Seq<char>, x: Seq<char>|
            done.contains(c) && #[trigger] asks(lib, pins, c, x) ==> done.contains(x),
        asked_within(lib, pins, start, cap, n),
    ensures
        done.contains(cap),
    decreases n,
{
    if !start.contains(cap) {
        let c = choose|c: Seq<char>|
            #[trigger] asks(lib, pins, c, cap) && asked_within(
                lib,
                pins,
                start,
                c,
                (n - 1) as nat,
            );
        lemma_closed_list(lib, pins, start, done, c, (n - 1) as nat);
    }
}

/// Every capability that is needed, each once.
pub fn closure(lib: &Library, pins: &Table<String>, start: &Vec<String>) -> (r: Vec<String>)
    ensures
        forall|cap: Seq<char>|
            #[trigger] text::texts(r@).contains(cap) <==> needed(*lib, pins@, text::texts(start@), cap),
        text::texts(r@).no_duplicates(),
{
    let ghost sv = text::texts(start@);
    let ghost u = sv + all_needs(lib.packages@);
    let mut queue = clone_strings(start);
    let mut done: Vec<String> = Vec::new();
    proof {
        assert forall|x: Seq<char>| sv.contains(x) implies u.contains(x) by {
            let k = choose|k: int| 0 <= k < sv.len() && sv[k] == x;
            assert(u[k] == x);
        }
        assert forall|x: Seq<char>| sv.contains(x) implies needed(*lib, pins@, sv, x) by {
            lemma_needed_start(*lib, pins@, sv, x);
        }
    }
    while queue.len() > 0
        invariant
            sv == text::texts(start@),
            u == sv + all_needs(lib.packages@),
            forall|x: Seq<char>| #[trigger] text::texts(queue@).contains(x) ==> u.contains(x) && needed(
                *lib,
                pins@,
                sv,
                x,
            ),
            forall|x: Seq<char>| #[trigger] text::texts(done@).contains(x) ==> u.contains(x) && needed(
                *lib,
                pins@,
                sv,
                x,
            ),
            text::texts(done@).no_duplicates(),
            forall|x: Seq<char>|
                sv.contains(x) ==> text::texts(queue@).contains(x) || text::texts(done@).contains(x),
            forall|c: Seq<char>, x: Seq<char>|
                text::texts(done@).contains(c) && #[trigger] asks(*lib, pins@, c, x) ==> text::texts(
                    queue@,
                ).contains(x) || text::texts(done@).contains(x),
        decreases u.len() - done@.len(), queue@.len(),
    {
        let ghost q0 = text::texts(queue@);
        let ghost d0 = text::texts(done@);
        let cap = queue.remove(queue.len() - 1);
        let ghost q1 = text::texts(queue@);
        proof {
            assert(q0 =~= q1.push(cap@));
            assert(q0.contains(cap@)) by {
                assert(q0[q0.len() - 1] == cap@);
            }
            assert forall|x: Seq<char>| q0.contains(x) && x != cap@ implies q1.contains(x) by {
                let k = choose|k: int| 0 <= k < q0.len() && q0[k] == x;
                assert(q1[k] == x);
            }
            assert forall|x: Seq<char>| q1.contains(x) implies q0.contains(x) by {
                let k = choose|k: int| 0 <= k < q1.len() && q1[k] == x;
                assert(q0[k] == x);
            }
            lemma_distinct_bound(d0, u);
        }
        if has_text(&done, cap.as_str()) {
            continue ;
        }
        let ghost before = done@;
        done.push(cap.clone());
        proof {
            text::lemma_texts_push(before, cap);
            let d1 = text::texts(done@);
            assert(d1[d1.len() - 1] == cap@);
            assert forall|x: Seq<char>| d0.contains(x) implies d1.contains(x) by {
                let k = choose|k: int| 0 <= k < d0.len() && d0[k] == x;
                assert(d1[k] == x);
            }
            assert forall|x: Seq<char>| d1.contains(x) && x != cap@ implies d0.contains(x) by {
                let k = choose|k: int| 0 <= k < d1.len() && d1[k] == x;
                assert(d0[k] == x);
            }
            assert forall|i: int, j: int|
                0 <= i < d1.len() && 0 <= j < d1.len() && i != j implies d1[i] != d1[j] by {
                if i == d1.len() - 1 {
                    assert(d0[j] == d1[j]);
                    assert(d0.contains(d0[j]));
                } else if j == d1.len() - 1 {
                    assert(d0[i] == d1[i]);
                    assert(d0.contains(d0[i]));
                } else {
                    assert(d0[i] == d1[i]);
                    assert(d0[j] == d1[j]);
                }
            }
            lemma_distinct_bound(d1, u);
        }
        match pick_package(lib, pins, cap.as_str()) {
            Some(p) => {
                let mut more = clone_strings(&p.needs);
                let ghost q2 = queue@;
                let ghost mv = more@;
                queue.append(&mut more);
                proof {
                    text::lemma_texts_add(q2, mv);
                    let q3 = text::texts(queue@);
                    let m = text::texts(mv);
                    assert(m == text::texts(p.needs@));
                    assert forall|x: Seq<char>| q1.contains(x) || m.contains(
                        x,
                    ) implies q3.contains(x) by {
                        if q1.contains(x) {
                            let k = choose|k: int| 0 <= k < q1.len() && q1[k] == x;
                            assert(q3[k] == x);
                        } else {
                            let k = choose|k: int| 0 <= k < m.len() && m[k] == x;
                            assert(q3[q1.len() + k] == x);
                        }
                    }
                    assert forall|x: Seq<char>| #[trigger] q3.contains(x) implies u.contains(x)
                        && needed(*lib, pins@, sv, x) by {
                        let k = choose|k: int| 0 <= k < q3.len() && q3[k] == x;
                        if k < q1.len() {
                            assert(q1[k] == x);
                            assert(q1.contains(x));
                            assert(q0.contains(x));
                        } else {
                            assert(m[k - q1.len()] == x);
                            assert(m.contains(x));
                            assert(asks(*lib, pins@, cap@, x));
                            lemma_needed_step(*lib, pins@, sv, cap@, x);
                            lemma_asks_in_universe(*lib, pins@, cap@, x);
                            let a = all_needs(lib.packages@);
                            let z = choose|z: int| 0 <= z < a.len() && a[z] == x;
                            assert(u[sv.len() + z] == x);
                        }
                    }
                }
            },
            None => {},
        }
    }
    proof {
        assert(text::texts(queue@) =~= Seq::<Seq<char>>::empty());
        assert forall|cap: Seq<char>| needed(*lib, pins@, sv, cap) implies #[trigger] text::texts(
            done@,
        ).contains(cap) by {
            let n = choose|n: nat| asked_within(*lib, pins@, sv, cap, n);
            lemma_closed_list(*lib, pins@, sv, text::texts(done@), cap, n);
        }
    }
    done
}


// ---- diagnoses ----

/// Why the guest tier cannot be had as chosen.
#[derive(Debug, PartialEq, Eq)]
pub enum Diagnosis {
    /// No package provides a capability that a module needs.
    Missing { module: String, capability: String },
    /// There are several versions, and none was chosen.
    Ambiguous { capability: String, versions: Vec<String> },
    /// The chosen version does not exist.
    UnknownPin { capability: String, version: String },
    /// Two packages would write to the same place.
    Conflict { path: String, a: String, b: String },
}

pub enum DiagnosisV {
    Missing { module: Seq<char>, capability: Seq<char> },
    Ambiguous { capability: Seq<char>, versions: Seq<Seq<char>> },
    UnknownPin { capability: Seq<char>, version: Seq<char> },
    Conflict { path: Seq<char>, a: Seq<char>, b: Seq<char> },
}

impl View for Diagnosis {
    type V = DiagnosisV;

    open spec fn view(&self) -> DiagnosisV {
        match *self {
            Diagnosis::Missing { module, capability } => DiagnosisV::Missing {
                module: module@,
                capability: capability@,
            },
            Diagnosis::Ambiguous { capability, versions } => DiagnosisV::Ambiguous {
                capability: capability@,
                versions: text::texts(versions@),
            },
            Diagnosis::UnknownPin { capability, version } => DiagnosisV::UnknownPin {
                capability: capability@,
                version: version@,
            },
            Diagnosis::Conflict { path, a, b } => DiagnosisV::Conflict { path: path@, a: a@, b: b@ },
        }
    }
}

pub open spec fn diags_v(v: Seq<Diagnosis>) -> Seq<DiagnosisV> {
    v.map_values(|d: Diagnosis| d@)
}

/// What diagnoses are ordered by: their kind, then what they hold.
pub open spec fn diag_rank(d: DiagnosisV) -> Seq<Seq<char>> {
    match d {
        DiagnosisV::Missing { module, capability } => seq!["0"@, module, capability],
        DiagnosisV::Ambiguous { capability, versions } => seq!["1"@, capability] + versions,
        DiagnosisV::UnknownPin { capability, version } => seq!["2"@, capability, version],
        DiagnosisV::Conflict { path, a, b } => seq!["3"@, path, a, b],
    }
}

/// Diagnoses of the same rank say the same.
pub proof fn rank_tells_the_diagnosis(x: DiagnosisV, y: DiagnosisV)
    requires
        diag_rank(x) == diag_rank(y),
    ensures
        x == y,
{
    reveal_strlit("0");
    reveal_strlit("1");
    reveal_strlit("2");
    reveal_strlit("3");
    let a = diag_rank(x);
    let b = diag_rank(y);
    assert("0"@[0] == '0' && "1"@[0] == '1' && "2"@[0] == '2' && "3"@[0] == '3');
    assert(a[0] == b[0]);
    assert(a[1] == b[1]);
    match (x, y) {
        (
            DiagnosisV::Ambiguous { versions: v, .. },
            DiagnosisV::Ambiguous { versions: w, .. },
        ) => {
            assert(a.skip(2) =~= v);
            assert(b.skip(2) =~= w);
        },
        (DiagnosisV::Conflict { .. }, DiagnosisV::Conflict { .. }) => {
            assert(a[2] == b[2]);
            assert(a[3] == b[3]);
        },
        (DiagnosisV::Missing { .. }, DiagnosisV::Missing { .. }) => {
            assert(a[2] == b[2]);
        },
        (DiagnosisV::UnknownPin { .. }, DiagnosisV::UnknownPin { .. }) => {
            assert(a[2] == b[2]);
        },
        _ => {},
    }
}

impl Ranked for Diagnosis {
    open spec fn rank_v(&self) -> Seq<Seq<char>> {
        diag_rank(self@)
    }

    fn rank(&self) -> (r: Vec<String>) {
        let mut r: Vec<String> = Vec::new();
        match self {
            Diagnosis::Missing { module, capability } => {
                r.push("0".to_owned());
                r.push(module.clone());
                r.push(capability.clone());
            },
            Diagnosis::Ambiguous { capability, versions } => {
                r.push("1".to_owned());
                r.push(capability.clone());
                let mut vs = clone_strings(versions);
                let ghost head = r@;
                let ghost tail = vs@;
                r.append(&mut vs);
                proof {
                    text::lemma_texts_add(head, tail);
                    assert(text::texts(head) =~= seq!["1"@, capability@]);
                }
            },
            Diagnosis::UnknownPin { capability, version } => {
                r.push("2".to_owned());
                r.push(capability.clone());
                r.push(version.clone());
            },
            Diagnosis::Conflict { path, a, b } => {
                r.push("3".to_owned());
                r.push(path.clone());
                r.push(a.clone());
                r.push(b.clone());
            },
        }
        assert(text::texts(r@) =~= diag_rank(self@));
        r
    }
}

/// What is wrong with a capability that a module needs.
pub open spec fn diagnosis_of(
    lib: Library,
    pins: Seq<(Seq<char>, String)>,
    cap: Seq<char>,
    module: Seq<char>,
) -> Option<DiagnosisV> {
    let vs = lib.versions_v(cap);
    if vs.len() == 0 {
        Some(DiagnosisV::Missing { module, capability: cap })
    } else {
        match table::lookup(pins, cap) {
            Some(v) => if packages::picked_from(lib.packages@, cap, v@, 0) is None {
                Some(DiagnosisV::UnknownPin { capability: cap, version: v@ })
            } else {
                None
            },
            None => if vs.len() == 1 {
                None
            } else {
                Some(DiagnosisV::Ambiguous { capability: cap, versions: packages::version_texts(vs) })
            },
        }
    }
}

/// Whether the module at `i` needs a capability.
pub open spec fn module_needs(
    modules: Seq<Module>,
    lib: Library,
    pins: Seq<(Seq<char>, String)>,
    i: int,
    cap: Seq<char>,
) -> bool {
    0 <= i < modules.len() && needed(lib, pins, text::texts(modules[i].manifest.runtimes@), cap)
}

/// Whether a diagnosis is that of some module and some capability it needs.
pub open spec fn diagnosed(
    modules: Seq<Module>,
    lib: Library,
    pins: Seq<(Seq<char>, String)>,
    n: int,
    d: DiagnosisV,
) -> bool {
    exists|i: int, cap: Seq<char>|
        i < n && #[trigger] module_needs(modules, lib, pins, i, cap) && diagnosis_of(
            lib,
            pins,
            cap,
            modules[i].manifest.id@,
        ) == Some(d)
}

/// The chosen packages: those of the capabilities that the first `n` modules
/// need, by capability.
pub open spec fn chosen_by(
    modules: Seq<Module>,
    lib: Library,
    pins: Seq<(Seq<char>, String)>,
    n: int,
    c: Seq<(Seq<char>, &PackageManifest)>,
) -> bool {
    &&& table::ascending(c)
    &&& forall|cap: Seq<char>|
        match #[trigger] table::lookup(c, cap) {
            Some(p) => pick_for(lib, pins, cap) == Some(*p) && exists|i: int|
                i < n && #[trigger] module_needs(modules, lib, pins, i, cap),
            None => pick_for(lib, pins, cap) is None || forall|i: int|
                i < n ==> !#[trigger] module_needs(modules, lib, pins, i, cap),
        }
}

pub open spec fn chosen_packages(c: Seq<(Seq<char>, &PackageManifest)>) -> Seq<PackageManifest> {
    c.map_values(|e: (Seq<char>, &PackageManifest)| *e.1)
}

/// Whether a diagnosis is a clash among the chosen packages.
pub open spec fn clash_diagnosis(
    c: Seq<(Seq<char>, &PackageManifest)>,
    d: DiagnosisV,
) -> bool {
    exists|i: int, j: int|
        #[trigger] packages::clashes(packages::all_claims(chosen_packages(c)), i, j) && d == clash_as_diagnosis(
            packages::clash_of(packages::all_claims(chosen_packages(c))[i], packages::all_claims(chosen_packages(c))[j]),
        )
}

pub open spec fn clash_as_diagnosis(x: ClashV) -> DiagnosisV {
    DiagnosisV::Conflict { path: x.path, a: x.a, b: x.b }
}

fn diagnose(lib: &Library, pins: &Table<String>, cap: &str, module: &str) -> (r: Option<Diagnosis>)
    ensures
        match r {
            Some(d) => diagnosis_of(*lib, pins@, cap@, module@) == Some(d@),
            None => diagnosis_of(*lib, pins@, cap@, module@) is None,
        },
{
    let vs = lib.versions_of(cap);
    let ghost vv = lib.versions_v(cap@);
    assert(vv.len() == vs@.len());
    if vs.len() == 0 {
        return Some(
            Diagnosis::Missing { module: module.to_owned(), capability: cap.to_owned() },
        );
    }
    match pins.get(cap) {
        Some(v) => match lib.pick(cap, v.as_str()) {
            Some(_) => None,
            None => Some(
                Diagnosis::UnknownPin { capability: cap.to_owned(), version: v.clone() },
            ),
        },
        None => {
            if vs.len() == 1 {
                return None;
            }
            let mut versions: Vec<String> = Vec::new();
            let mut i: usize = 0;
            while i < vs.len()
                invariant
                    i <= vs@.len(),
                    vv == packages::derefs(vs@),
                    text::texts(versions@) == packages::version_texts(vv).take(i as int),
                decreases vs@.len() - i,
            {
                let ghost prev = versions@;
                assert(vv[i as int] == *vs@[i as int]);
                versions.push(vs[i].version.clone());
                proof {
                    text::lemma_texts_push(prev, vs@[i as int].version);
                    assert(text::texts(versions@) =~= packages::version_texts(vv).take(i + 1));
                }
                i = i + 1;
            }
            assert(packages::version_texts(vv).take(vv.len() as int) =~= packages::version_texts(vv));
            Some(Diagnosis::Ambiguous { capability: cap.to_owned(), versions })
        },
    }
}

proof fn lemma_ranks_tell(v: Seq<Diagnosis>, d: DiagnosisV)
    ensures
        table::ranks(v).contains(diag_rank(d)) <==> diags_v(v).contains(d),
{
    if table::ranks(v).contains(diag_rank(d)) {
        let k = choose|k: int| 0 <= k < table::ranks(v).len() && table::ranks(v)[k] == diag_rank(d);
        rank_tells_the_diagnosis(v[k]@, d);
        assert(diags_v(v)[k] == d);
    }
    if diags_v(v).contains(d) {
        let k = choose|k: int| 0 <= k < diags_v(v).len() && diags_v(v)[k] == d;
        assert(table::ranks(v)[k] == diag_rank(d));
    }
}

fn add_diagnosis(v: &mut Vec<Diagnosis>, x: Diagnosis)
    requires
        table::in_order(old(v)@),
    ensures
        table::in_order(final(v)@),
        forall|d: DiagnosisV|
            #[trigger] diags_v(final(v)@).contains(d) <==> diags_v(old(v)@).contains(d) || d == x@,
{
    let ghost before = v@;
    let ghost xv = x@;
    add_ordered(v, x);
    proof {
        assert forall|d: DiagnosisV| #[trigger] diags_v(v@).contains(d) <==> diags_v(
            before,
        ).contains(d) || d == xv by {
            lemma_ranks_tell(v@, d);
            lemma_ranks_tell(before, d);
            if diag_rank(d) == diag_rank(xv) {
                rank_tells_the_diagnosis(d, xv);
            }
        }
    }
}

proof fn lemma_choose_one<'a>(
    modules: Seq<Module>,
    lib: Library,
    pins: Seq<(Seq<char>, String)>,
    i: int,
    caps: Seq<Seq<char>>,
    k: int,
    c: Seq<(Seq<char>, &'a PackageManifest)>,
    p: &'a PackageManifest,
)
    requires
        0 <= k < caps.len(),
        chosen_among(modules, lib, pins, i, caps.take(k), c),
        pick_for(lib, pins, caps[k]) == Some(*p),
    ensures
        chosen_among(modules, lib, pins, i, caps.take(k + 1), table::inserted(c, caps[k], p)),
{
    table::inserting(c, caps[k], p);
    let r = table::inserted(c, caps[k], p);
    assert forall|cap: Seq<char>|
        match #[trigger] table::lookup(r, cap) {
            Some(q) => pick_for(lib, pins, cap) == Some(*q) && (caps.take(k + 1).contains(cap)
                || exists|j: int| j < i && #[trigger] module_needs(modules, lib, pins, j, cap)),
            None => pick_for(lib, pins, cap) is None || (!caps.take(k + 1).contains(cap)
                && forall|j: int| j < i ==> !#[trigger] module_needs(modules, lib, pins, j, cap)),
        } by {
        lemma_take_contains(caps, k, cap);
        if cap == caps[k] {
            assert(table::lookup(r, cap) == Some(p));
        } else {
            assert(table::lookup(r, cap) == table::lookup(c, cap));
        }
    }
}

proof fn lemma_take_contains(v: Seq<Seq<char>>, k: int, x: Seq<char>)
    requires
        0 <= k < v.len(),
    ensures
        v.take(k + 1).contains(x) <==> v.take(k).contains(x) || x == v[k],
{
    let a = v.take(k);
    let b = v.take(k + 1);
    if a.contains(x) {
        let z = choose|z: int| 0 <= z < a.len() && a[z] == x;
        assert(b[z] == x);
    }
    assert(b[k] == v[k]);
    if b.contains(x) && x != v[k] {
        let z = choose|z: int| 0 <= z < b.len() && b[z] == x;
        assert(a[z] == x);
    }
}

/// The chosen packages of the first `i` modules and of some more capabilities.
spec fn chosen_among(
    modules: Seq<Module>,
    lib: Library,
    pins: Seq<(Seq<char>, String)>,
    i: int,
    caps: Seq<Seq<char>>,
    c: Seq<(Seq<char>, &PackageManifest)>,
) -> bool {
    &&& table::ascending(c)
    &&& forall|cap: Seq<char>|
        match #[trigger] table::lookup(c, cap) {
            Some(p) => pick_for(lib, pins, cap) == Some(*p) && (caps.contains(cap) || exists|j: int|
                j < i && #[trigger] module_needs(modules, lib, pins, j, cap)),
            None => pick_for(lib, pins, cap) is None || (!caps.contains(cap) && forall|j: int|
                j < i ==> !#[trigger] module_needs(modules, lib, pins, j, cap)),
        }
}

/// The diagnoses of the first `i` modules and of the module at `i` for some capabilities.
spec fn diagnosed_among(
    modules: Seq<Module>,
    lib: Library,
    pins: Seq<(Seq<char>, String)>,
    i: int,
    caps: Seq<Seq<char>>,
    d: DiagnosisV,
) -> bool {
    diagnosed(modules, lib, pins, i, d) || exists|k: int|
        0 <= k < caps.len() && diagnosis_of(
            lib,
            pins,
            #[trigger] caps[k],
            modules[i].manifest.id@,
        ) == Some(d)
}

/// Everything that keeps the guest tier from being had as chosen; nothing when
/// it can be. What packages need themselves is followed; where that is missing it
/// is laid to the module that led there.
pub fn vm_diagnoses(modules: &Vec<Module>, lib: &Library, spec_: &ExecSpec) -> (r: Vec<Diagnosis>)
    ensures
        are_diagnoses(modules@, *lib, *spec_, r@),
{
    let ghost mods = modules@;
    let ghost pv = spec_.pins@;
    let mut out: Vec<Diagnosis> = Vec::new();
    let mut chosen: Table<&PackageManifest> = Table::new();
    let mut i: usize = 0;
    while i < modules.len()
        invariant
            i <= modules@.len(),
            mods == modules@,
            pv == spec_.pins@,
            table::in_order(out@),
            chosen_by(mods, *lib, pv, i as int, chosen@),
            forall|d: DiagnosisV|
                #[trigger] diags_v(out@).contains(d) <==> diagnosed(mods, *lib, pv, i as int, d),
        decreases modules@.len() - i,
    {
        let m = &modules[i];
        let caps = closure(lib, &spec_.pins, &m.manifest.runtimes);
        let ghost cv = text::texts(caps@);
        let mut k: usize = 0;
        proof {
            assert(cv.take(0) =~= Seq::<Seq<char>>::empty());
            assert(chosen_among(mods, *lib, pv, i as int, cv.take(0), chosen@)) by {
                assert forall|cap: Seq<char>|
                    match #[trigger] table::lookup(chosen@, cap) {
                        Some(p) => pick_for(*lib, pv, cap) == Some(*p) && (cv.take(0).contains(cap)
                            || exists|j: int|
                            j < i && #[trigger] module_needs(mods, *lib, pv, j, cap)),
                        None => pick_for(*lib, pv, cap) is None || (!cv.take(0).contains(cap)
                            && forall|j: int|
                            j < i ==> !#[trigger] module_needs(mods, *lib, pv, j, cap)),
                    } by {}
            }
        }
        while k < caps.len()
            invariant
                k <= caps@.len(),
                i < modules@.len(),
                mods == modules@,
                *m == mods[i as int],
                pv == spec_.pins@,
                cv == text::texts(caps@),
                table::in_order(out@),
                chosen_among(mods, *lib, pv, i as int, cv.take(k as int), chosen@),
                forall|d: DiagnosisV|
                    #[trigger] diags_v(out@).contains(d) <==> diagnosed_among(
                        mods,
                        *lib,
                        pv,
                        i as int,
                        cv.take(k as int),
                        d,
                    ),
            decreases caps@.len() - k,
        {
            let cap = caps[k].as_str();
            assert(cv[k as int] == cap@);
            let ghost before = out@;
            match diagnose(lib, &spec_.pins, cap, m.manifest.id.as_str()) {
                Some(d) => {
                    let ghost dv = d@;
                    add_diagnosis(&mut out, d);
                    proof {
                        assert forall|x: DiagnosisV| #[trigger] diags_v(out@).contains(
                            x,
                        ) <==> diagnosed_among(
                            mods,
                            *lib,
                            pv,
                            i as int,
                            cv.take(k + 1),
                            x,
                        ) by {
                            assert(diags_v(out@).contains(x) <==> diags_v(before).contains(x) || x
                                == dv);
                            lemma_diagnosed_more(mods, *lib, pv, i as int, cv, k as int, x);
                        }
                    }
                },
                None => {
                    proof {
                        assert forall|x: DiagnosisV| #[trigger] diags_v(out@).contains(
                            x,
                        ) <==> diagnosed_among(
                            mods,
                            *lib,
                            pv,
                            i as int,
                            cv.take(k + 1),
                            x,
                        ) by {
                            lemma_diagnosed_more(mods, *lib, pv, i as int, cv, k as int, x);
                        }
                    }
                },
            }
            let ghost had = chosen@;
            match pick_package(lib, &spec_.pins, cap) {
                Some(p) => {
                    proof {
                        lemma_choose_one(mods, *lib, pv, i as int, cv, k as int, had, p);
                    }
                    chosen.insert(caps[k].clone(), p);
                },
                None => {
                    proof {
                        assert forall|x: Seq<char>|
                            match #[trigger] table::lookup(had, x) {
                                Some(p) => pick_for(*lib, pv, x) == Some(*p) && (cv.take(
                                    k + 1,
                                ).contains(x) || exists|j: int|
                                    j < i && #[trigger] module_needs(mods, *lib, pv, j, x)),
                                None => pick_for(*lib, pv, x) is None || (!cv.take(
                                    k + 1,
                                ).contains(x) && forall|j: int|
                                    j < i ==> !#[trigger] module_needs(mods, *lib, pv, j, x)),
                            } by {
                            lemma_take_contains(cv, k as int, x);
                        }
                    }
                },
            }
            k = k + 1;
        }
        proof {
            assert(cv.take(cv.len() as int) =~= cv);
            lemma_module_done(mods, *lib, pv, i as int, cv, chosen@);
            assert forall|d: DiagnosisV| #[trigger] diags_v(out@).contains(d) <==> diagnosed(
                mods,
                *lib,
                pv,
                i + 1,
                d,
            ) by {
                lemma_module_diagnosed(mods, *lib, pv, i as int, cv, d);
            }
        }
        i = i + 1;
    }
    let ghost c = chosen@;
    let mut refs: Vec<&PackageManifest> = Vec::new();
    let mut i: usize = 0;
    while i < chosen.len()
        invariant
            i <= chosen@.len(),
            c == chosen@,
            packages::derefs(refs@) == chosen_packages(c).take(i as int),
        decreases chosen@.len() - i,
    {
        let ghost prev = refs@;
        let p = *chosen.value_at(i);
        refs.push(p);
        assert(chosen_packages(c)[i as int] == *p);
        assert(packages::derefs(refs@) =~= packages::derefs(prev).push(*p));
        assert(packages::derefs(refs@) =~= chosen_packages(c).take(i + 1));
        i = i + 1;
    }
    assert(chosen_packages(c).take(c.len() as int) =~= chosen_packages(c));
    let clash = conflicts(&refs);
    let ghost all = packages::all_claims(chosen_packages(c));
    let mut i: usize = 0;
    while i < clash.len()
        invariant
            i <= clash@.len(),
            table::in_order(out@),
            forall|d: DiagnosisV|
                #[trigger] diags_v(out@).contains(d) <==> diagnosed(
                    mods,
                    *lib,
                    pv,
                    mods.len() as int,
                    d,
                ) || exists|k: int|
                    0 <= k < i && d == clash_as_diagnosis((#[trigger] clash@[k])@),
        decreases clash@.len() - i,
    {
        let x = &clash[i];
        let ghost before = out@;
        let d = Diagnosis::Conflict { path: x.path.clone(), a: x.a.clone(), b: x.b.clone() };
        let ghost dv = d@;
        add_diagnosis(&mut out, d);
        proof {
            assert(dv == clash_as_diagnosis(clash@[i as int]@));
            assert forall|y: DiagnosisV| #[trigger] diags_v(out@).contains(y) <==> diagnosed(
                mods,
                *lib,
                pv,
                mods.len() as int,
                y,
            ) || exists|k: int|
                0 <= k < i + 1 && y == clash_as_diagnosis((#[trigger] clash@[k])@) by {
                assert(diags_v(out@).contains(y) <==> diags_v(before).contains(y) || y == dv);
                if exists|k: int|
                    0 <= k < i + 1 && y == clash_as_diagnosis((#[trigger] clash@[k])@) {
                    let k = choose|k: int|
                        0 <= k < i + 1 && y == clash_as_diagnosis((#[trigger] clash@[k])@);
                    if k < i {
                        assert(diags_v(before).contains(y));
                    }
                }
            }
        }
        i = i + 1;
    }
    proof {
        let n = mods.len() as int;
        assert(chosen_by(mods, *lib, pv, n, c));
        assert forall|d: DiagnosisV| #[trigger] diags_v(out@).contains(d) <==> diagnosed(
            mods,
            *lib,
            pv,
            n,
            d,
        ) || clash_diagnosis(c, d) by {
            if exists|k: int|
                0 <= k < clash@.len() && d == clash_as_diagnosis((#[trigger] clash@[k])@) {
                let k = choose|k: int|
                    0 <= k < clash@.len() && d == clash_as_diagnosis((#[trigger] clash@[k])@);
                assert(packages::clashes_v(clash@)[k] == clash@[k]@);
                assert(packages::clashes_v(clash@).contains(clash@[k]@));
                let (a, b) = choose|a: int, b: int|
                    #[trigger] packages::clashes(all, a, b) && clash@[k]@ == packages::clash_of(all[a], all[b]);
                assert(packages::clashes(all, a, b));
            }
            if clash_diagnosis(c, d) {
                let (a, b) = choose|a: int, b: int|
                    #[trigger] packages::clashes(all, a, b) && d == clash_as_diagnosis(
                        packages::clash_of(all[a], all[b]),
                    );
                let x = packages::clash_of(all[a], all[b]);
                assert(packages::clashes_v(clash@).contains(x));
                let k = choose|k: int|
                    0 <= k < packages::clashes_v(clash@).len() && packages::clashes_v(clash@)[k] == x;
                assert(d == clash_as_diagnosis(clash@[k]@));
            }
        }
    }
    out
}

proof fn lemma_diagnosed_more(
    modules: Seq<Module>,
    lib: Library,
    pins: Seq<(Seq<char>, String)>,
    i: int,
    caps: Seq<Seq<char>>,
    k: int,
    x: DiagnosisV,
)
    requires
        0 <= k < caps.len(),
    ensures
        diagnosed_among(modules, lib, pins, i, caps.take(k + 1), x) <==> diagnosed_among(
            modules,
            lib,
            pins,
            i,
            caps.take(k),
            x,
        ) || diagnosis_of(lib, pins, caps[k], modules[i].manifest.id@) == Some(x),
{
    let a = caps.take(k);
    let b = caps.take(k + 1);
    let id = modules[i].manifest.id@;
    if exists|z: int| 0 <= z < a.len() && diagnosis_of(lib, pins, #[trigger] a[z], id) == Some(x) {
        let z = choose|z: int|
            0 <= z < a.len() && diagnosis_of(lib, pins, #[trigger] a[z], id) == Some(x);
        assert(b[z] == a[z]);
    }
    assert(b[k] == caps[k]);
    if exists|z: int| 0 <= z < b.len() && diagnosis_of(lib, pins, #[trigger] b[z], id) == Some(x) {
        let z = choose|z: int|
            0 <= z < b.len() && diagnosis_of(lib, pins, #[trigger] b[z], id) == Some(x);
        if z < k {
            assert(a[z] == b[z]);
        }
    }
}

proof fn lemma_module_done(
    modules: Seq<Module>,
    lib: Library,
    pins: Seq<(Seq<char>, String)>,
    i: int,
    caps: Seq<Seq<char>>,
    c: Seq<(Seq<char>, &PackageManifest)>,
)
    requires
        0 <= i < modules.len(),
        chosen_among(modules, lib, pins, i, caps, c),
        forall|cap: Seq<char>|
            #[trigger] caps.contains(cap) <==> needed(
                lib,
                pins,
                text::texts(modules[i].manifest.runtimes@),
                cap,
            ),
    ensures
        chosen_by(modules, lib, pins, i + 1, c),
{
    assert forall|cap: Seq<char>|
        match #[trigger] table::lookup(c, cap) {
            Some(p) => pick_for(lib, pins, cap) == Some(*p) && exists|j: int|
                j < i + 1 && #[trigger] module_needs(modules, lib, pins, j, cap),
            None => pick_for(lib, pins, cap) is None || forall|j: int|
                j < i + 1 ==> !#[trigger] module_needs(modules, lib, pins, j, cap),
        } by {
        assert(caps.contains(cap) <==> module_needs(modules, lib, pins, i, cap));
    }
}

proof fn lemma_module_diagnosed(
    modules: Seq<Module>,
    lib: Library,
    pins: Seq<(Seq<char>, String)>,
    i: int,
    caps: Seq<Seq<char>>,
    d: DiagnosisV,
)
    requires
        0 <= i < modules.len(),
        forall|cap: Seq<char>|
            #[trigger] caps.contains(cap) <==> needed(
                lib,
                pins,
                text::texts(modules[i].manifest.runtimes@),
                cap,
            ),
    ensures
        diagnosed_among(modules, lib, pins, i, caps, d) <==> diagnosed(
            modules,
            lib,
            pins,
            i + 1,
            d,
        ),
{
    let id = modules[i].manifest.id@;
    if exists|k: int|
        0 <= k < caps.len() && diagnosis_of(lib, pins, #[trigger] caps[k], id) == Some(d) {
        let k = choose|k: int|
            0 <= k < caps.len() && diagnosis_of(lib, pins, #[trigger] caps[k], id) == Some(d);
        assert(caps.contains(caps[k]));
        assert(module_needs(modules, lib, pins, i, caps[k]));
    }
    if diagnosed(modules, lib, pins, i + 1, d) {
        let (j, cap) = choose|j: int, cap: Seq<char>|
            j < i + 1 && #[trigger] module_needs(modules, lib, pins, j, cap) && diagnosis_of(
                lib,
                pins,
                cap,
                modules[j].manifest.id@,
            ) == Some(d);
        if j == i {
            assert(caps.contains(cap));
            let k = choose|k: int| 0 <= k < caps.len() && caps[k] == cap;
            assert(diagnosis_of(lib, pins, caps[k], id) == Some(d));
        } else {
            assert(module_needs(modules, lib, pins, j, cap));
            assert(diagnosed(modules, lib, pins, i, d));
        }
    }
    if diagnosed(modules, lib, pins, i, d) {
        let (j, cap) = choose|j: int, cap: Seq<char>|
            j < i && #[trigger] module_needs(modules, lib, pins, j, cap) && diagnosis_of(
                lib,
                pins,
                cap,
                modules[j].manifest.id@,
            ) == Some(d);
        assert(module_needs(modules, lib, pins, j, cap));
    }
}


// ---- what this machine can carry ----

/// The kinds of machine the guest tier knows.
#[derive(Debug, Clone, Copy, PartialEq, Eq, Structural)]
pub enum Platform {
    Windows,
    Linux,
    Macos,
    Other,
}

/// Whether this machine can carry a tier.
#[derive(Debug, Clone, Copy, PartialEq, Eq, Structural)]
pub struct TierReadiness {
    /// The guest's base is there, or none was named.
    pub base: bool,
    /// Guests can be run.
    pub hypervisor: bool,
}

pub open spec fn hint_text(p: Platform) -> Seq<char> {
    match p {
        Platform::Windows => "本机虚拟机监视器不可用（要启用「虚拟机平台」组件）"@,
        Platform::Linux => "本机虚拟机监视器不可用（要有 /dev/kvm）"@,
        Platform::Macos => "本机虚拟机监视器不可用（需要 macOS 11 及以上）"@,
        Platform::Other => "本平台没有接入虚拟机档"@,
    }
}

/// What is said where guests cannot be run.
pub fn hypervisor_hint(platform: Platform) -> (r: &'static str)
    ensures
        r@ == hint_text(platform),
{
    match platform {
        Platform::Windows => "本机虚拟机监视器不可用（要启用「虚拟机平台」组件）",
        Platform::Linux => "本机虚拟机监视器不可用（要有 /dev/kvm）",
        Platform::Macos => "本机虚拟机监视器不可用（需要 macOS 11 及以上）",
        Platform::Other => "本平台没有接入虚拟机档",
    }
}

/// What is missing, in words.
pub open spec fn missing_texts(t: TierReadiness, p: Platform) -> Seq<Seq<char>> {
    text::when(!t.base, "基础根不存在"@) + text::when(!t.hypervisor, hint_text(p))
}

impl TierReadiness {
    pub fn ready(&self) -> (r: bool)
        ensures
            r == (self.base && self.hypervisor),
    {
        self.base && self.hypervisor
    }

    /// What is missing; nothing when the tier can be carried.
    pub fn missing(&self, platform: Platform) -> (r: Vec<String>)
        ensures
            text::texts(r@) == missing_texts(*self, platform),
    {
        let mut out: Vec<String> = Vec::new();
        assert(text::texts(out@) =~= Seq::<Seq<char>>::empty());
        push_when(&mut out, !self.base, "基础根不存在".to_owned());
        push_when(&mut out, !self.hypervisor, hypervisor_hint(platform).to_owned());
        assert(text::texts(out@) =~= missing_texts(*self, platform));
        out
    }
}

/// The base whose presence decides, if the tier needs one.
pub open spec fn base_asked(s: ExecSpec) -> Option<Seq<char>> {
    match s.base {
        Some(b) => if s.tier == Tier::Vm && text::trimmed(b@).len() > 0 {
            Some(text::trimmed(b@))
        } else {
            None
        },
        None => None,
    }
}

/// The base that has to be there, if any.
pub fn base_to_check(spec_: &ExecSpec) -> (r: Option<String>)
    ensures
        text::opt_text(r) == base_asked(*spec_),
{
    match &spec_.base {
        Some(b) => {
            let t = trim(b.as_str());
            if spec_.tier == Tier::Vm && !t.as_str().is_empty() {
                Some(t)
            } else {
                None
            }
        },
        None => None,
    }
}

/// Whether this machine can carry the chosen tier, given whether the base that
/// has to be there is there and whether guests can be run. This machine's own
/// tier asks for nothing.
pub open spec fn readiness_of(s: ExecSpec, base_there: bool, hypervisor: bool) -> TierReadiness {
    if s.tier != Tier::Vm {
        TierReadiness { base: true, hypervisor: true }
    } else {
        TierReadiness { base: base_asked(s) is None || base_there, hypervisor }
    }
}

pub fn tier_readiness(spec_: &ExecSpec, base_there: bool, hypervisor: bool) -> (r: TierReadiness)
    ensures
        r == readiness_of(*spec_, base_there, hypervisor),
{
    if spec_.tier != Tier::Vm {
        return TierReadiness { base: true, hypervisor: true };
    }
    let base = match base_to_check(spec_) {
        None => true,
        Some(_) => base_there,
    };
    TierReadiness { base, hypervisor }
}

pub open spec fn refusal_text(t: TierReadiness, p: Platform) -> Seq<char> {
    "本机不具备虚拟机档的前置条件（"@ + text::joined(missing_texts(t, p), "；"@)
        + "）：虚拟机档暂不可用——请换本机档，或先解决前置条件（见 PRODUCT.md 的「后置工作」）"@
}

/// Why the tier is refused on this machine; `None` when it is not.
pub fn tier_refusal(
    spec_: &ExecSpec,
    base_there: bool,
    hypervisor: bool,
    platform: Platform,
) -> (r: Option<String>)
    ensures
        match r {
            None => readiness_of(*spec_, base_there, hypervisor).base && readiness_of(
                *spec_,
                base_there,
                hypervisor,
            ).hypervisor,
            Some(e) => !(readiness_of(*spec_, base_there, hypervisor).base && readiness_of(
                *spec_,
                base_there,
                hypervisor,
            ).hypervisor) && e@ == refusal_text(
                readiness_of(*spec_, base_there, hypervisor),
                platform,
            ),
        },
{
    let t = tier_readiness(spec_, base_there, hypervisor);
    if t.ready() {
        return None;
    }
    let why = join(&t.missing(platform), "；");
    Some(
        cat3(
            "本机不具备虚拟机档的前置条件（",
            why.as_str(),
            "）：虚拟机档暂不可用——请换本机档，或先解决前置条件（见 PRODUCT.md 的「后置工作」）",
        ),
    )
}

// ---- the plan ----

/// A package the plan loads.
#[derive(Debug, PartialEq, Eq)]
pub struct PlannedPackage {
    pub id: String,
    pub version: String,
    pub kind: String,
    pub prefix: String,
}

pub struct PlannedV {
    pub id: Seq<char>,
    pub version: Seq<char>,
    pub kind: Seq<char>,
    pub prefix: Seq<char>,
}

impl View for PlannedPackage {
    type V = PlannedV;

    open spec fn view(&self) -> PlannedV {
        PlannedV {
            id: self.id@,
            version: self.version@,
            kind: self.kind@,
            prefix: self.prefix@,
        }
    }
}

pub open spec fn planned(p: PackageManifest) -> PlannedV {
    PlannedV { id: p.id@, version: p.version@, kind: p.kind@, prefix: p.prefix@ }
}

/// Packages under prefixes are loaded first, those that write into system paths last.
pub open spec fn rank_text(kind: Seq<char>) -> Seq<char> {
    if kind == KIND_SYSTEM@ {
        "1"@
    } else {
        "0"@
    }
}

fn rank(kind: &str) -> (r: String)
    ensures
        r@ == rank_text(kind@),
{
    if str_eq(kind, KIND_SYSTEM) {
        "1".to_owned()
    } else {
        "0".to_owned()
    }
}

impl Ranked for PlannedPackage {
    open spec fn rank_v(&self) -> Seq<Seq<char>> {
        seq![rank_text(self.kind@), self.id@, self.version@]
    }

    fn rank(&self) -> (r: Vec<String>) {
        let mut r: Vec<String> = Vec::new();
        r.push(self::rank(self.kind.as_str()));
        r.push(self.id.clone());
        r.push(self.version.clone());
        assert(text::texts(r@) =~= seq![rank_text(self.kind@), self.id@, self.version@]);
        r
    }
}

/// What a session loads. It is derived when needed and never kept.
#[derive(Debug)]
pub struct ExecPlan {
    pub tier: Tier,
    pub net: bool,
    pub base: Option<String>,
    pub packages: Vec<PlannedPackage>,
}

pub open spec fn planned_v(v: Seq<PlannedPackage>) -> Seq<PlannedV> {
    v.map_values(|p: PlannedPackage| p@)
}

/// The capabilities all modules declare, module by module.
pub open spec fn all_runtimes(v: Seq<Module>) -> Seq<Seq<char>>
    decreases v.len(),
{
    if v.len() == 0 {
        Seq::empty()
    } else {
        all_runtimes(v.drop_last()) + text::texts(v.last().manifest.runtimes@)
    }
}

/// The diagnoses that are not about a missing package: those a choice can mend.
pub open spec fn hard_of(v: Seq<DiagnosisV>) -> Seq<DiagnosisV>
    decreases v.len(),
{
    if v.len() == 0 {
        Seq::empty()
    } else if v.last() is Missing {
        hard_of(v.drop_last())
    } else {
        hard_of(v.drop_last()).push(v.last())
    }
}

fn keep_hard(v: Vec<Diagnosis>) -> (r: Vec<Diagnosis>)
    ensures
        diags_v(r@) == hard_of(diags_v(v@)),
{
    let ghost all = v@;
    let ghost dv = diags_v(all);
    let mut v = v;
    let mut r: Vec<Diagnosis> = Vec::new();
    let ghost mut n: int = 0;
    assert(dv.take(0) =~= Seq::<DiagnosisV>::empty());
    assert(diags_v(r@) =~= hard_of(dv.take(0)));
    while v.len() > 0
        invariant
            0 <= n <= all.len(),
            v@ == all.skip(n),
            dv == diags_v(all),
            diags_v(r@) == hard_of(dv.take(n)),
        decreases all.len() - n,
    {
        let d = v.remove(0);
        proof {
            assert(d == all[n]);
            assert(v@ =~= all.skip(n + 1));
            assert(dv.take(n + 1).drop_last() =~= dv.take(n));
            assert(dv.take(n + 1).last() == d@);
        }
        let missing = match &d {
            Diagnosis::Missing { .. } => true,
            _ => false,
        };
        if !missing {
            let ghost prev = r@;
            r.push(d);
            assert(diags_v(r@) =~= diags_v(prev).push(d@));
        }
        proof {
            n = n + 1;
        }
    }
    assert(dv.take(dv.len() as int) =~= dv);
    r
}

fn gather_runtimes(modules: &Vec<Module>) -> (r: Vec<String>)
    ensures
        text::texts(r@) == all_runtimes(modules@),
{
    let mut r: Vec<String> = Vec::new();
    let mut i: usize = 0;
    assert(text::texts(r@) =~= all_runtimes(modules@.take(0)));
    while i < modules.len()
        invariant
            i <= modules@.len(),
            text::texts(r@) == all_runtimes(modules@.take(i as int)),
        decreases modules@.len() - i,
    {
        let mut m = clone_strings(&modules[i].manifest.runtimes);
        let ghost prev = r@;
        let ghost mv = m@;
        r.append(&mut m);
        proof {
            text::lemma_texts_add(prev, mv);
            assert(modules@.take(i + 1).drop_last() =~= modules@.take(i as int));
        }
        i = i + 1;
    }
    assert(modules@.take(modules@.len() as int) =~= modules@);
    r
}

/// Whether a package is the one a needed capability stands for.
pub open spec fn to_load(
    modules: Seq<Module>,
    lib: Library,
    pins: Seq<(Seq<char>, String)>,
    p: PlannedV,
) -> bool {
    exists|cap: Seq<char>|
        #[trigger] needed(lib, pins, all_runtimes(modules), cap) && pick_for(lib, pins, cap) is Some
            && planned(pick_for(lib, pins, cap)->0) == p
}

fn load_list(modules: &Vec<Module>, lib: &Library, pins: &Table<String>) -> (r: Vec<
    PlannedPackage,
>)
    ensures
        table::in_order(r@),
        forall|p: PlannedV|
            #[trigger] planned_v(r@).contains(p) <==> to_load(modules@, *lib, pins@, p),
{
    let start = gather_runtimes(modules);
    let caps = closure(lib, pins, &start);
    let ghost cv = text::texts(caps@);
    let mut out: Vec<PlannedPackage> = Vec::new();
    let mut i: usize = 0;
    while i < caps.len()
        invariant
            i <= caps@.len(),
            cv == text::texts(caps@),
            cv.no_duplicates(),
            table::in_order(out@),
            forall|p: PlannedV|
                #[trigger] planned_v(out@).contains(p) <==> exists|k: int|
                    0 <= k < i && pick_for(*lib, pins@, #[trigger] cv[k]) is Some && planned(
                        pick_for(*lib, pins@, cv[k])->0,
                    ) == p,
        decreases caps@.len() - i,
    {
        let cap = caps[i].as_str();
        assert(cv[i as int] == cap@);
        let ghost before = out@;
        match pick_package(lib, pins, cap) {
            Some(p) => {
                let x = PlannedPackage {
                    id: p.id.clone(),
                    version: p.version.clone(),
                    kind: p.kind.clone(),
                    prefix: p.prefix.clone(),
                };
                proof {
                    picks_provide(*lib, pins@, cap@);
                    if table::ranks(before).contains(x.rank_v()) {
                        let z = choose|z: int|
                            0 <= z < table::ranks(before).len() && table::ranks(before)[z] == x.rank_v();
                        assert(before[z].rank_v()[1] == x.rank_v()[1]);
                        assert(planned_v(before)[z] == before[z]@);
                        assert(planned_v(before).contains(before[z]@));
                        let k = choose|k: int|
                            0 <= k < i && pick_for(*lib, pins@, #[trigger] cv[k]) is Some
                                && planned(pick_for(*lib, pins@, cv[k])->0) == before[z]@;
                        picks_provide(*lib, pins@, cv[k]);
                        assert(cv[k] == cv[i as int]);
                        assert(false);
                    }
                }
                let ghost xv = x@;
                add_ordered(&mut out, x);
                proof {
                    let at = choose|at: int|
                        0 <= at <= before.len() && #[trigger] before.insert(at, x) == out@;
                    assert(planned_v(out@) =~= planned_v(before).insert(at, xv));
                    table::lemma_insert_contains(planned_v(before), at, xv);
                    assert forall|p: PlannedV| #[trigger] planned_v(out@).contains(
                        p,
                    ) <==> exists|k: int|
                        0 <= k < i + 1 && pick_for(*lib, pins@, #[trigger] cv[k]) is Some
                            && planned(pick_for(*lib, pins@, cv[k])->0) == p by {
                        if planned_v(before).contains(p) {
                            let k = choose|k: int|
                                0 <= k < i && pick_for(*lib, pins@, #[trigger] cv[k]) is Some
                                    && planned(pick_for(*lib, pins@, cv[k])->0) == p;
                            assert(pick_for(*lib, pins@, cv[k]) is Some);
                        }
                        if p == xv {
                            assert(pick_for(*lib, pins@, cv[i as int]) is Some);
                        }
                    }
                }
            },
            None => {
                proof {
                    assert forall|p: PlannedV| #[trigger] planned_v(out@).contains(
                        p,
                    ) <==> exists|k: int|
                        0 <= k < i + 1 && pick_for(*lib, pins@, #[trigger] cv[k]) is Some
                            && planned(pick_for(*lib, pins@, cv[k])->0) == p by {
                        if planned_v(out@).contains(p) {
                            let k = choose|k: int|
                                0 <= k < i && pick_for(*lib, pins@, #[trigger] cv[k]) is Some
                                    && planned(pick_for(*lib, pins@, cv[k])->0) == p;
                            assert(pick_for(*lib, pins@, cv[k]) is Some);
                        }
                    }
                }
            },
        }
        i = i + 1;
    }
    proof {
        assert forall|p: PlannedV| #[trigger] planned_v(out@).contains(p) <==> to_load(
            modules@,
            *lib,
            pins@,
            p,
        ) by {
            if planned_v(out@).contains(p) {
                let k = choose|k: int|
                    0 <= k < cv.len() && pick_for(*lib, pins@, #[trigger] cv[k]) is Some
                        && planned(pick_for(*lib, pins@, cv[k])->0) == p;
                assert(cv.contains(cv[k]));
                assert(needed(*lib, pins@, all_runtimes(modules@), cv[k]));
            }
            if to_load(modules@, *lib, pins@, p) {
                let cap = choose|cap: Seq<char>|
                    #[trigger] needed(*lib, pins@, all_runtimes(modules@), cap) && pick_for(
                        *lib,
                        pins@,
                        cap,
                    ) is Some && planned(pick_for(*lib, pins@, cap)->0) == p;
                assert(cv.contains(cap));
                let k = choose|k: int| 0 <= k < cv.len() && cv[k] == cap;
                assert(pick_for(*lib, pins@, cv[k]) is Some);
            }
        }
    }
    out
}

/// Whether a choice comes to a plan, or to what keeps it from one.
pub open spec fn plans_to(
    s: ExecSpec,
    modules: Seq<Module>,
    lib: Library,
    r: Result<ExecPlan, Vec<Diagnosis>>,
) -> bool {
    &&& s.tier == Tier::Host ==> r is Ok && r->Ok_0.tier == Tier::Host && r->Ok_0.net == s.net
        && r->Ok_0.base is None && r->Ok_0.packages@.len() == 0
    &&& s.tier == Tier::Vm ==> exists|v: Seq<Diagnosis>|
        #[trigger] are_diagnoses(modules, lib, s, v) && match r {
            Ok(p) => hard_of(diags_v(v)).len() == 0 && p.tier == Tier::Vm && p.net == s.net
                && p.base == s.base && table::in_order(p.packages@) && forall|x: PlannedV|
                #[trigger] planned_v(p.packages@).contains(x) <==> to_load(
                    modules,
                    lib,
                    s.pins@,
                    x,
                ),
            Err(h) => hard_of(diags_v(v)).len() > 0 && diags_v(h@) == hard_of(diags_v(v)),
        }
}

/// Derives the plan. This machine's own tier loads no package. The guest tier is
/// refused only for what a choice can mend; a missing package only leaves its
/// module's tools unusable.
pub fn plan(spec_: &ExecSpec, modules: &Vec<Module>, lib: &Library) -> (r: Result<
    ExecPlan,
    Vec<Diagnosis>,
>)
    ensures
        plans_to(*spec_, modules@, *lib, r),
{
    match spec_.tier {
        Tier::Host => Ok(
            ExecPlan { tier: Tier::Host, net: spec_.net, base: None, packages: Vec::new() },
        ),
        Tier::Vm => {
            let all = vm_diagnoses(modules, lib, spec_);
            let ghost v = all@;
            assert(are_diagnoses(modules@, *lib, *spec_, v));
            let hard = keep_hard(all);
            assert(diags_v(hard@).len() == hard@.len());
            if hard.len() > 0 {
                return Err(hard);
            }
            Ok(
                ExecPlan {
                    tier: Tier::Vm,
                    net: spec_.net,
                    base: clone_opt(&spec_.base),
                    packages: load_list(modules, lib, &spec_.pins),
                },
            )
        },
    }
}

/// Whether a list holds the diagnoses of a choice, in order.
pub open spec fn are_diagnoses(
    modules: Seq<Module>,
    lib: Library,
    s: ExecSpec,
    v: Seq<Diagnosis>,
) -> bool {
    &&& table::in_order(v)
    &&& exists|c: Seq<(Seq<char>, &PackageManifest)>|
        #[trigger] chosen_by(modules, lib, s.pins@, modules.len() as int, c) && forall|
            d: DiagnosisV,
        |
            #[trigger] diags_v(v).contains(d) <==> diagnosed(
                modules,
                lib,
                s.pins@,
                modules.len() as int,
                d,
            ) || clash_diagnosis(c, d)
}

// ---- tables by module ----

pub open spec fn lists_v(t: Seq<(Seq<char>, Vec<String>)>) -> Seq<(Seq<char>, Seq<Seq<char>>)> {
    t.map_values(|e: (Seq<char>, Vec<String>)| (e.0, text::texts(e.1@)))
}

fn put_list(t: &mut Table<Vec<String>>, key: &str, v: Vec<String>)
    ensures
        lists_v(final(t)@) == table::inserted(lists_v(old(t)@), key@, text::texts(v@)),
{
    let ghost before = t@;
    let ghost f = |v: Vec<String>| text::texts(v@);
    proof {
        assert(lists_v(before) =~= before.map_values(|e: (Seq<char>, Vec<String>)| (e.0, f(e.1))));
        table::lemma_map_inserted(before, lists_v(before), f, key@, v);
    }
    t.insert(key.to_owned(), v);
    assert(lists_v(t@) =~= table::inserted(before, key@, v).map_values(
        |e: (Seq<char>, Vec<String>)| (e.0, f(e.1)),
    ));
}

fn push_list(t: &mut Table<Vec<String>>, key: &str, x: &str)
    ensures
        lists_v(final(t)@) == table::inserted(
            lists_v(old(t)@),
            key@,
            (match table::lookup(lists_v(old(t)@), key@) {
                Some(v) => v,
                None => Seq::empty(),
            }).push(x@),
        ),
{
    let ghost f = |v: Vec<String>| text::texts(v@);
    let ghost before = t@;
    let mut v: Vec<String> = match t.get(key) {
        Some(v) => clone_strings(v),
        None => Vec::new(),
    };
    let ghost old_v = v@;
    proof {
        assert(lists_v(before) =~= before.map_values(|e: (Seq<char>, Vec<String>)| (e.0, f(e.1))));
        table::lemma_map_inserted(before, lists_v(before), f, key@, v);
        assert(text::texts(old_v) =~= (match table::lookup(lists_v(before), key@) {
            Some(v) => v,
            None => Seq::<Seq<char>>::empty(),
        }));
    }
    v.push(x.to_owned());
    proof {
        assert(text::texts(v@) =~= text::texts(old_v).push(x@));
    }
    put_list(t, key, v);
}

/// The capabilities the first `n` modules declare, by module, each once and in order.
pub open spec fn declared_below(v: Seq<Module>, n: int) -> Seq<(Seq<char>, Seq<Seq<char>>)>
    decreases n,
{
    if n <= 0 {
        Seq::empty()
    } else {
        let prev = declared_below(v, n - 1);
        let m = v[n - 1].manifest;
        if m.runtimes@.len() == 0 {
            prev
        } else {
            table::inserted(prev, m.id@, table::sorted_unique(text::texts(m.runtimes@)))
        }
    }
}

/// The capabilities the modules declare, by module.
pub fn declared(modules: &Vec<Module>) -> (r: Table<Vec<String>>)
    ensures
        lists_v(r@) == declared_below(modules@, modules@.len() as int),
{
    let mut out: Table<Vec<String>> = Table::new();
    let mut i: usize = 0;
    assert(lists_v(out@) =~= declared_below(modules@, 0));
    while i < modules.len()
        invariant
            i <= modules@.len(),
            lists_v(out@) == declared_below(modules@, i as int),
        decreases modules@.len() - i,
    {
        let m = &modules[i].manifest;
        if m.runtimes.len() > 0 {
            put_list(&mut out, m.id.as_str(), sort_unique(&m.runtimes));
        }
        i = i + 1;
    }
    out
}

/// The capabilities that no package provides.
pub open spec fn unprovided(lib: Library, caps: Seq<Seq<char>>) -> Seq<Seq<char>>
    decreases caps.len(),
{
    if caps.len() == 0 {
        Seq::empty()
    } else if lib.versions_v(caps.last()).len() == 0 {
        unprovided(lib, caps.drop_last()).push(caps.last())
    } else {
        unprovided(lib, caps.drop_last())
    }
}

pub open spec fn absent_below(v: Seq<Module>, lib: Library, n: int) -> Seq<
    (Seq<char>, Seq<Seq<char>>),
>
    decreases n,
{
    if n <= 0 {
        Seq::empty()
    } else {
        let prev = absent_below(v, lib, n - 1);
        let miss = unprovided(lib, text::texts(v[n - 1].manifest.runtimes@));
        if miss.len() == 0 {
            prev
        } else {
            table::inserted(prev, v[n - 1].manifest.id@, miss)
        }
    }
}

/// The capabilities the modules declare and no package provides, by module.
pub fn absent(modules: &Vec<Module>, lib: &Library) -> (r: Table<Vec<String>>)
    ensures
        lists_v(r@) == absent_below(modules@, *lib, modules@.len() as int),
{
    let mut out: Table<Vec<String>> = Table::new();
    let mut i: usize = 0;
    assert(lists_v(out@) =~= absent_below(modules@, *lib, 0));
    while i < modules.len()
        invariant
            i <= modules@.len(),
            lists_v(out@) == absent_below(modules@, *lib, i as int),
        decreases modules@.len() - i,
    {
        let m = &modules[i].manifest;
        let ghost rv = text::texts(m.runtimes@);
        let mut miss: Vec<String> = Vec::new();
        let mut k: usize = 0;
        assert(text::texts(miss@) =~= unprovided(*lib, rv.take(0)));
        while k < m.runtimes.len()
            invariant
                k <= m.runtimes@.len(),
                rv == text::texts(m.runtimes@),
                text::texts(miss@) == unprovided(*lib, rv.take(k as int)),
            decreases m.runtimes@.len() - k,
        {
            proof {
                assert(rv.take(k + 1).drop_last() =~= rv.take(k as int));
                assert(rv.take(k + 1).last() == m.runtimes@[k as int]@);
            }
            let vs = lib.versions_of(m.runtimes[k].as_str());
            assert(packages::derefs(vs@).len() == vs@.len());
            if vs.len() == 0 {
                let ghost prev = miss@;
                miss.push(m.runtimes[k].clone());
                proof {
                    text::lemma_texts_push(prev, m.runtimes@[k as int]);
                }
            }
            k = k + 1;
        }
        assert(rv.take(rv.len() as int) =~= rv);
        assert(text::texts(miss@).len() == miss@.len());
        if miss.len() > 0 {
            put_list(&mut out, m.id.as_str(), miss);
        }
        i = i + 1;
    }
    out
}

/// What is missing by module, out of the first `n` diagnoses.
pub open spec fn missing_below(v: Seq<DiagnosisV>, n: int) -> Seq<(Seq<char>, Seq<Seq<char>>)>
    decreases n,
{
    if n <= 0 {
        Seq::empty()
    } else {
        let prev = missing_below(v, n - 1);
        match v[n - 1] {
            DiagnosisV::Missing { module, capability } => table::inserted(
                prev,
                module,
                (match table::lookup(prev, module) {
                    Some(l) => l,
                    None => Seq::empty(),
                }).push(capability),
            ),
            _ => prev,
        }
    }
}

/// The table with what the first `n` modules declare in place of what it held for them.
pub open spec fn all_declared(
    t: Seq<(Seq<char>, Seq<Seq<char>>)>,
    v: Seq<Module>,
    n: int,
) -> Seq<(Seq<char>, Seq<Seq<char>>)>
    decreases n,
{
    if n <= 0 {
        t
    } else {
        let prev = all_declared(t, v, n - 1);
        let m = v[n - 1].manifest;
        if m.runtimes@.len() == 0 {
            prev
        } else {
            table::inserted(prev, m.id@, table::sorted_unique(text::texts(m.runtimes@)))
        }
    }
}

/// The modules whose tools cannot run, with what they lack: those that miss a
/// package and, where the choice itself does not hold, all that declare any.
pub open spec fn unavailable_of(v: Seq<DiagnosisV>, modules: Seq<Module>) -> Seq<
    (Seq<char>, Seq<Seq<char>>),
> {
    let t = missing_below(v, v.len() as int);
    if hard_of(v).len() > 0 {
        all_declared(t, modules, modules.len() as int)
    } else {
        t
    }
}

proof fn lemma_hard_grows(v: Seq<DiagnosisV>, n: int)
    requires
        0 <= n < v.len(),
    ensures
        hard_of(v.take(n + 1)).len() == hard_of(v.take(n)).len() + if v[n] is Missing {
            0int
        } else {
            1
        },
{
    assert(v.take(n + 1).drop_last() =~= v.take(n));
    assert(v.take(n + 1).last() == v[n]);
}

/// Which modules' tools cannot run, given the diagnoses.
pub fn unavailable_from(diags: &Vec<Diagnosis>, modules: &Vec<Module>) -> (r: Table<Vec<String>>)
    ensures
        lists_v(r@) == unavailable_of(diags_v(diags@), modules@),
{
    let mut out: Table<Vec<String>> = Table::new();
    let mut broken = false;
    let ghost dv = diags_v(diags@);
    let mut i: usize = 0;
    assert(lists_v(out@) =~= missing_below(dv, 0));
    assert(dv.take(0) =~= Seq::<DiagnosisV>::empty());
    while i < diags.len()
        invariant
            i <= diags@.len(),
            dv == diags_v(diags@),
            lists_v(out@) == missing_below(dv, i as int),
            broken == (hard_of(dv.take(i as int)).len() > 0),
        decreases diags@.len() - i,
    {
        assert(dv[i as int] == diags@[i as int]@);
        proof {
            lemma_hard_grows(dv, i as int);
        }
        match &diags[i] {
            Diagnosis::Missing { module, capability } => {
                push_list(&mut out, module.as_str(), capability.as_str());
            },
            _ => {
                broken = true;
            },
        }
        i = i + 1;
    }
    assert(dv.take(dv.len() as int) =~= dv);
    if broken {
        let ghost t = lists_v(out@);
        let mut i: usize = 0;
        while i < modules.len()
            invariant
                i <= modules@.len(),
                lists_v(out@) == all_declared(t, modules@, i as int),
            decreases modules@.len() - i,
        {
            let m = &modules[i].manifest;
            if m.runtimes.len() > 0 {
                put_list(&mut out, m.id.as_str(), sort_unique(&m.runtimes));
            }
            i = i + 1;
        }
    }
    out
}

/// The modules whose tools cannot run under the chosen tier, with what they lack.
pub fn unavailable(spec_: &ExecSpec, modules: &Vec<Module>, lib: &Library) -> (r: Table<
    Vec<String>,
>)
    ensures
        spec_.tier == Tier::Host ==> r@.len() == 0,
        spec_.tier == Tier::Vm ==> exists|v: Seq<Diagnosis>|
            #[trigger] are_diagnoses(modules@, *lib, *spec_, v) && lists_v(r@) == unavailable_of(
                diags_v(v),
                modules@,
            ),
{
    if spec_.tier != Tier::Vm {
        return Table::new();
    }
    let diags = vm_diagnoses(modules, lib, spec_);
    assert(are_diagnoses(modules@, *lib, *spec_, diags@));
    unavailable_from(&diags, modules)
}

// ---- in words ----

pub open spec fn diagnosis_text(d: DiagnosisV) -> Seq<char> {
    match d {
        DiagnosisV::Missing { module, capability } => "模块 "@ + module + " 需要运行包 "@
            + capability + "，包库里没有（把它放进依赖文件夹 runtimes/）"@,
        DiagnosisV::Ambiguous { capability, versions } => "运行包 "@ + capability
            + " 有多个版本，需用户定版："@ + text::joined(versions, "、"@),
        DiagnosisV::UnknownPin { capability, version } => "运行包 "@ + capability + " 的定版 "@
            + version + " 不在包库里"@,
        DiagnosisV::Conflict { path, a, b } => "运行包 "@ + a + " 与 "@ + b + " 都要写进 "@ + path
            + "，装配会互相覆盖"@,
    }
}

pub open spec fn diagnosis_texts(v: Seq<DiagnosisV>) -> Seq<Seq<char>> {
    v.map_values(|d: DiagnosisV| diagnosis_text(d))
}

/// Diagnoses in words.
pub fn diagnose_text(diags: &Vec<Diagnosis>) -> (r: String)
    ensures
        r@ == text::joined(diagnosis_texts(diags_v(diags@)), "；"@),
{
    let ghost all = diagnosis_texts(diags_v(diags@));
    let mut ls: Vec<String> = Vec::new();
    let mut i: usize = 0;
    while i < diags.len()
        invariant
            i <= diags@.len(),
            all == diagnosis_texts(diags_v(diags@)),
            text::texts(ls@) == all.take(i as int),
        decreases diags@.len() - i,
    {
        assert(diags_v(diags@)[i as int] == diags@[i as int]@);
        let l = match &diags[i] {
            Diagnosis::Missing { module, capability } => cat5(
                "模块 ",
                module.as_str(),
                " 需要运行包 ",
                capability.as_str(),
                "，包库里没有（把它放进依赖文件夹 runtimes/）",
            ),
            Diagnosis::Ambiguous { capability, versions } => cat4(
                "运行包 ",
                capability.as_str(),
                " 有多个版本，需用户定版：",
                join(versions, "、").as_str(),
            ),
            Diagnosis::UnknownPin { capability, version } => cat5(
                "运行包 ",
                capability.as_str(),
                " 的定版 ",
                version.as_str(),
                " 不在包库里",
            ),
            Diagnosis::Conflict { path, a, b } => cat7(
                "运行包 ",
                a.as_str(),
                " 与 ",
                b.as_str(),
                " 都要写进 ",
                path.as_str(),
                "，装配会互相覆盖",
            ),
        };
        let ghost prev = ls@;
        ls.push(l);
        proof {
            text::lemma_texts_push(prev, l);
            assert(all[i as int] == l@);
            assert(text::texts(ls@) =~= all.take(i + 1));
        }
        i = i + 1;
    }
    assert(all.take(all.len() as int) =~= all);
    join(&ls, "；")
}

pub open spec fn package_texts(v: Seq<PlannedV>) -> Seq<Seq<char>> {
    v.map_values(|p: PlannedV| p.id + "@"@ + p.version + "（"@ + p.kind + "）"@)
}

pub open spec fn summary_text(p: ExecPlan) -> Seq<char> {
    let net = if p.net {
        "放行"@
    } else {
        "不放行"@
    };
    if p.tier == Tier::Host {
        "执行档位 本机（不装载运行包）；网络 "@ + net
    } else {
        "执行档位 虚拟机；基础根 "@ + (match p.base {
            Some(b) => b@,
            None => "（未指定）"@,
        }) + "；装载 "@ + text::decimal(p.packages@.len()) + " 个包："@ + text::joined(
            package_texts(planned_v(p.packages@)),
            "、"@,
        ) + "；网络 "@ + net
    }
}

/// The plan in a sentence.
pub fn plan_summary(plan: &ExecPlan) -> (r: String)
    ensures
        r@ == summary_text(*plan),
{
    let net = if plan.net {
        "放行"
    } else {
        "不放行"
    };
    if plan.tier == Tier::Host {
        return cat2("执行档位 本机（不装载运行包）；网络 ", net);
    }
    let ghost all = package_texts(planned_v(plan.packages@));
    let mut ls: Vec<String> = Vec::new();
    let mut i: usize = 0;
    while i < plan.packages.len()
        invariant
            i <= plan.packages@.len(),
            all == package_texts(planned_v(plan.packages@)),
            text::texts(ls@) == all.take(i as int),
        decreases plan.packages@.len() - i,
    {
        let p = &plan.packages[i];
        assert(planned_v(plan.packages@)[i as int] == p@);
        let l = cat6(p.id.as_str(), "@", p.version.as_str(), "（", p.kind.as_str(), "）");
        let ghost prev = ls@;
        ls.push(l);
        proof {
            text::lemma_texts_push(prev, l);
            assert(all[i as int] == l@);
            assert(text::texts(ls@) =~= all.take(i + 1));
        }
        i = i + 1;
    }
    assert(all.take(all.len() as int) =~= all);
    let base = match &plan.base {
        Some(b) => b.as_str(),
        None => "（未指定）",
    };
    let head = cat6(
        "执行档位 虚拟机；基础根 ",
        base,
        "；装载 ",
        dec_usize(plan.packages.len()).as_str(),
        " 个包：",
        join(&ls, "、").as_str(),
    );
    cat3(head.as_str(), "；网络 ", net)
}

/// The packages of a plan come with those under prefixes first and those that write
/// into system paths last, in the order of their ids within each, and no id comes
/// twice, so each is loaded in one version at most.
pub proof fn plans_are_in_order(s: ExecSpec, modules: Seq<Module>, lib: Library, p: ExecPlan, i: int, j: int)
    requires
        plans_to(s, modules, lib, Ok(p)),
        0 <= i < j < p.packages@.len(),
    ensures
        table::list_before(
            seq![
                rank_text(p.packages@[i].kind@),
                p.packages@[i].id@,
                p.packages@[i].version@,
            ],
            seq![
                rank_text(p.packages@[j].kind@),
                p.packages@[j].id@,
                p.packages@[j].version@,
            ],
        ),
        p.packages@[i].kind@ == KIND_SYSTEM@ ==> p.packages@[j].kind@ == KIND_SYSTEM@,
        p.packages@[i].id@ != p.packages@[j].id@,
{
    let v = p.packages@;
    let a = v[i].rank_v();
    let b = v[j].rank_v();
    assert(table::list_before(a, b));
    reveal_strlit("0");
    reveal_strlit("1");
    if a[0] == "1"@ && b[0] == "0"@ {
        assert("1"@[0] != "0"@[0]);
        assert(!text::before("1"@, "0"@));
        assert(false);
    }
    assert("1"@ != "0"@) by {
        assert("1"@[0] != "0"@[0]);
    }
    if v[i].id@ == v[j].id@ {
        let x = planned_v(v)[i];
        let y = planned_v(v)[j];
        assert(planned_v(v).contains(x));
        assert(planned_v(v).contains(y));
        let c = choose|cap: Seq<char>|
            #[trigger] needed(lib, s.pins@, all_runtimes(modules), cap) && pick_for(
                lib,
                s.pins@,
                cap,
            ) is Some && planned(pick_for(lib, s.pins@, cap)->0) == x;
        let d = choose|cap: Seq<char>|
            #[trigger] needed(lib, s.pins@, all_runtimes(modules), cap) && pick_for(
                lib,
                s.pins@,
                cap,
            ) is Some && planned(pick_for(lib, s.pins@, cap)->0) == y;
        picks_provide(lib, s.pins@, c);
        picks_provide(lib, s.pins@, d);
        assert(c == d);
        assert(x == y);
        assert(a =~= b);
        table::lemma_list_irreflexive(a);
    }
}

/// A missing package alone refuses nothing: what keeps a choice from a plan is never
/// that something is missing.
pub proof fn missing_packages_refuse_nothing(v: Seq<DiagnosisV>)
    ensures
        forall|k: int| 0 <= k < hard_of(v).len() ==> !((#[trigger] hard_of(v)[k]) is Missing),
        (forall|k: int| 0 <= k < v.len() ==> (#[trigger] v[k]) is Missing) ==> hard_of(v).len()
            == 0,
    decreases v.len(),
{
    if v.len() > 0 {
        let w = v.drop_last();
        missing_packages_refuse_nothing(w);
        if forall|k: int| 0 <= k < v.len() ==> (#[trigger] v[k]) is Missing {
            assert(v[v.len() - 1] is Missing);
            assert forall|k: int| 0 <= k < w.len() implies (#[trigger] w[k]) is Missing by {
                assert(v[k] is Missing);
            }
        }
    }
}

proof fn lemma_one_choice(
    modules: Seq<Module>,
    lib: Library,
    pins: Seq<(Seq<char>, String)>,
    n: int,
    c: Seq<(Seq<char>, &PackageManifest)>,
    d: Seq<(Seq<char>, &PackageManifest)>,
)
    requires
        chosen_by(modules, lib, pins, n, c),
        chosen_by(modules, lib, pins, n, d),
    ensures
        c == d,
{
    assert forall|cap: Seq<char>| #[trigger] table::lookup(c, cap) == table::lookup(d, cap) by {
        let x = table::lookup(c, cap);
        let y = table::lookup(d, cap);
    }
    table::lemma_same_table(c, d);
}

/// A choice has one list of diagnoses: whatever lists hold what keeps it from a plan,
/// in order, say the same.
pub proof fn a_choice_has_one_list_of_diagnoses(
    modules: Seq<Module>,
    lib: Library,
    s: ExecSpec,
    v: Seq<Diagnosis>,
    w: Seq<Diagnosis>,
)
    requires
        are_diagnoses(modules, lib, s, v),
        are_diagnoses(modules, lib, s, w),
    ensures
        diags_v(v) == diags_v(w),
{
    let n = modules.len() as int;
    let c = choose|c: Seq<(Seq<char>, &PackageManifest)>|
        #[trigger] chosen_by(modules, lib, s.pins@, n, c) && forall|d: DiagnosisV|
            #[trigger] diags_v(v).contains(d) <==> diagnosed(modules, lib, s.pins@, n, d)
                || clash_diagnosis(c, d);
    let e = choose|c: Seq<(Seq<char>, &PackageManifest)>|
        #[trigger] chosen_by(modules, lib, s.pins@, n, c) && forall|d: DiagnosisV|
            #[trigger] diags_v(w).contains(d) <==> diagnosed(modules, lib, s.pins@, n, d)
                || clash_diagnosis(c, d);
    lemma_one_choice(modules, lib, s.pins@, n, c, e);
    assert forall|d: DiagnosisV| #[trigger] diags_v(v).contains(d) <==> diags_v(w).contains(d) by {
        assert(diags_v(w).contains(d) <==> diagnosed(modules, lib, s.pins@, n, d)
            || clash_diagnosis(e, d));
    }
    lemma_ranks_within(v, w);
    lemma_ranks_within(w, v);
    assert forall|i: int, j: int| 0 <= i < j < table::ranks(v).len() implies table::list_before(
        #[trigger] table::ranks(v)[i],
        #[trigger] table::ranks(v)[j],
    ) by {
        assert(table::list_before(v[i].rank_v(), v[j].rank_v()));
    }
    assert forall|i: int, j: int| 0 <= i < j < table::ranks(w).len() implies table::list_before(
        #[trigger] table::ranks(w)[i],
        #[trigger] table::ranks(w)[j],
    ) by {
        assert(table::list_before(w[i].rank_v(), w[j].rank_v()));
    }
    table::lemma_same_order(table::ranks(v), table::ranks(w));
    assert(v.len() == table::ranks(v).len() && w.len() == table::ranks(w).len());
    assert forall|i: int| 0 <= i < v.len() implies diags_v(v)[i] == diags_v(w)[i] by {
        assert(table::ranks(v)[i] == table::ranks(w)[i]);
        rank_tells_the_diagnosis(v[i]@, w[i]@);
    }
    assert(diags_v(v) =~= diags_v(w));
}

proof fn lemma_ranks_within(v: Seq<Diagnosis>, w: Seq<Diagnosis>)
    requires
        forall|d: DiagnosisV| #[trigger] diags_v(v).contains(d) <==> diags_v(w).contains(d),
    ensures
        forall|x: Seq<Seq<char>>| #[trigger]
            table::ranks(v).contains(x) ==> table::ranks(w).contains(x),
{
    assert forall|x: Seq<Seq<char>>| #[trigger] table::ranks(v).contains(x) implies table::ranks(
        w,
    ).contains(x) by {
        let i = choose|i: int| 0 <= i < table::ranks(v).len() && table::ranks(v)[i] == x;
        let d = diags_v(v)[i];
        assert(d == v[i]@);
        assert(diags_v(v).contains(d));
        assert(diags_v(w).contains(d));
        let j = choose|j: int| 0 <= j < diags_v(w).len() && diags_v(w)[j] == d;
        assert(table::ranks(w)[j] == diag_rank(w[j]@));
        assert(table::ranks(w)[j] == x);
    }
}

/// The guest tier is refused exactly where there are diagnoses other than that a
/// package is missing, and with those, in their order.
pub proof fn plans_are_refused_for_the_hard_diagnoses(
    modules: Seq<Module>,
    lib: Library,
    s: ExecSpec,
    v: Seq<Diagnosis>,
    r: Result<ExecPlan, Vec<Diagnosis>>,
)
    requires
        s.tier == Tier::Vm,
        are_diagnoses(modules, lib, s, v),
        plans_to(s, modules, lib, r),
    ensures
        r is Err <==> hard_of(diags_v(v)).len() > 0,
        r matches Err(h) ==> diags_v(h@) == hard_of(diags_v(v)),
{
    let w = choose|w: Seq<Diagnosis>|
        #[trigger] are_diagnoses(modules, lib, s, w) && match r {
            Ok(p) => hard_of(diags_v(w)).len() == 0,
            Err(h) => hard_of(diags_v(w)).len() > 0 && diags_v(h@) == hard_of(diags_v(w)),
        };
    a_choice_has_one_list_of_diagnoses(modules, lib, s, v, w);
}

/// What is said of the capabilities that no package provides, module by module.
pub open spec fn absent_texts(v: Seq<(Seq<char>, Seq<Seq<char>>)>) -> Seq<Seq<char>> {
    v.map_values(
        |e: (Seq<char>, Seq<Seq<char>>)|
            "模块 "@ + e.0 + " 声明的运行包不在包库："@ + text::joined(e.1, "、"@),
    )
}

/// Says which capabilities the modules declare and no package provides.
pub fn absent_notes(modules: &Vec<Module>, lib: &Library) -> (r: Vec<String>)
    ensures
        text::texts(r@) == absent_texts(absent_below(modules@, *lib, modules@.len() as int)),
{
    let t = absent(modules, lib);
    let ghost tv = lists_v(t@);
    let ghost all = absent_texts(tv);
    let n = t.len();
    let mut out: Vec<String> = Vec::new();
    let mut i: usize = 0;
    assert(tv.len() == t@.len());
    assert(text::texts(out@) =~= all.take(0));
    while i < n
        invariant
            i <= n,
            n == t@.len(),
            tv == lists_v(t@),
            tv.len() == n,
            all == absent_texts(tv),
            text::texts(out@) == all.take(i as int),
        decreases n - i,
    {
        let caps = join(t.value_at(i), "、");
        let l = cat4("模块 ", t.key_at(i), " 声明的运行包不在包库：", caps.as_str());
        let ghost prev = out@;
        out.push(l);
        proof {
            text::lemma_texts_push(prev, l);
            assert(tv[i as int] == (t@[i as int].0, text::texts(t@[i as int].1@)));
            assert(all[i as int] == l@);
            assert(text::texts(out@) =~= all.take(i + 1));
        }
        i = i + 1;
    }
    assert(all.take(all.len() as int) =~= all);
    out
}

/// What refuses a plan is every diagnosis but that a package is missing.
pub proof fn missing_packages_alone_refuse_nothing(v: Seq<DiagnosisV>, d: DiagnosisV)
    ensures
        hard_of(v).contains(d) <==> v.contains(d) && !(d is Missing),
    decreases v.len(),
{
    if v.len() > 0 {
        let w = v.drop_last();
        missing_packages_alone_refuse_nothing(w, d);
        let p = hard_of(w);
        let h = hard_of(v);
        if h.contains(d) {
            let k = choose|k: int| 0 <= k < h.len() && h[k] == d;
            if k < p.len() {
                assert(p[k] == d);
                let j = choose|j: int| 0 <= j < w.len() && w[j] == d;
                assert(v[j] == d);
            } else {
                assert(v[v.len() - 1] == d);
            }
        }
        if v.contains(d) && !(d is Missing) {
            let j = choose|j: int| 0 <= j < v.len() && v[j] == d;
            if j < w.len() {
                assert(w[j] == d);
                let k = choose|k: int| 0 <= k < p.len() && p[k] == d;
                assert(h[k] == d);
            } else {
                assert(h[p.len() as int] == d);
            }
        }
    }
}

/// What no package provides is every capability of those asked for that the library has
/// no version of.
pub proof fn unprovided_is_what_is_not_there(lib: Library, caps: Seq<Seq<char>>, c: Seq<char>)
    ensures
        unprovided(lib, caps).contains(c) <==> caps.contains(c) && lib.versions_v(c).len() == 0,
    decreases caps.len(),
{
    if caps.len() > 0 {
        let w = caps.drop_last();
        unprovided_is_what_is_not_there(lib, w, c);
        let p = unprovided(lib, w);
        let h = unprovided(lib, caps);
        if h.contains(c) {
            let k = choose|k: int| 0 <= k < h.len() && h[k] == c;
            if k < p.len() {
                assert(p[k] == c);
                let j = choose|j: int| 0 <= j < w.len() && w[j] == c;
                assert(caps[j] == c);
            } else {
                assert(caps[caps.len() - 1] == c);
            }
        }
        if caps.contains(c) && lib.versions_v(c).len() == 0 {
            let j = choose|j: int| 0 <= j < caps.len() && caps[j] == c;
            if j < w.len() {
                assert(w[j] == c);
                let k = choose|k: int| 0 <= k < p.len() && p[k] == c;
                assert(h[k] == c);
            } else {
                assert(h[p.len() as int] == c);
            }
        }
    }
}

/// The host is always ready; a machine of its own is where the base that was asked for is
/// there, or none was, and there is a hypervisor.
pub proof fn the_host_is_always_ready(s: ExecSpec, base_there: bool, hypervisor: bool)
    ensures
        ({
            let r = readiness_of(s, base_there, hypervisor);
            &&& s.tier == Tier::Host ==> r.base && r.hypervisor
            &&& s.tier == Tier::Vm ==> r.hypervisor == hypervisor
            &&& s.tier == Tier::Vm && s.base is Some && text::trimmed((s.base->0)@).len() > 0 ==> r.base
                == base_there && base_asked(s) == Some(text::trimmed((s.base->0)@))
            &&& s.tier == Tier::Vm && (s.base is None || text::trimmed((s.base->0)@).len() == 0) ==> r.base
        }),
{
}

/// A package is picked where its version is pinned or it is the only one; what is picked
/// provides what was asked for.
pub proof fn picks_follow_the_pins(lib: Library, pins: Seq<(Seq<char>, String)>, cap: Seq<char>)
    ensures
        lib.versions_v(cap).len() == 0 ==> pick_for(lib, pins, cap) is None,
        lib.versions_v(cap).len() == 1 && table::lookup(pins, cap) is None ==> pick_for(lib, pins, cap) == Some(
            lib.versions_v(cap)[0],
        ),
        lib.versions_v(cap).len() > 1 && table::lookup(pins, cap) is None ==> pick_for(lib, pins, cap) is None,
        pick_for(lib, pins, cap) is None ==> diagnosis_of(lib, pins, cap, Seq::empty()) is Some,
        pick_for(lib, pins, cap) is Some ==> diagnosis_of(lib, pins, cap, Seq::empty()) is None,
{
}

/// What a module lacks is what was found missing for it.
pub proof fn modules_lack_what_is_missing(v: Seq<DiagnosisV>, n: int, module: Seq<char>, cap: Seq<char>)
    requires
        0 <= n <= v.len(),
    ensures
        table::ascending(missing_below(v, n)),
        (table::lookup(missing_below(v, n), module) matches Some(l) && l.contains(cap)) <==> exists|k: int|
            0 <= k < n && #[trigger] v[k] == (DiagnosisV::Missing { module, capability: cap }),
    decreases n,
{
    if n > 0 {
        modules_lack_what_is_missing(v, n - 1, module, cap);
        let prev = missing_below(v, n - 1);
        let d = DiagnosisV::Missing { module, capability: cap };
        match v[n - 1] {
            DiagnosisV::Missing { module: m, capability: c } => {
                let was = match table::lookup(prev, m) {
                    Some(l) => l,
                    None => Seq::empty(),
                };
                table::inserting(prev, m, was.push(c));
                let now = was.push(c);
                if m == module {
                    if now.contains(cap) {
                        let k = choose|k: int| 0 <= k < now.len() && now[k] == cap;
                        if k < was.len() {
                            assert(was[k] == cap);
                            assert(was.contains(cap));
                        } else {
                            assert(v[n - 1] == d);
                        }
                    }
                    if was.contains(cap) {
                        let k = choose|k: int| 0 <= k < was.len() && was[k] == cap;
                        assert(now[k] == cap);
                    }
                    if v[n - 1] == d {
                        assert(now[was.len() as int] == cap);
                    }
                }
            },
            _ => {},
        }
    }
}

/// What a module lacks of the library is listed under it, all of it and nothing else; a
/// module that lacks nothing is not listed.
pub proof fn what_modules_lack_is_listed(v: Seq<Module>, lib: Library, n: int, k: int)
    requires
        0 <= k < n <= v.len(),
        forall|i: int, j: int|
            0 <= i < j < v.len() ==> (#[trigger] v[i]).manifest.id@ != (#[trigger] v[j]).manifest.id@,
    ensures
        ({
            let miss = unprovided(lib, text::texts(v[k].manifest.runtimes@));
            let t = absent_below(v, lib, n);
            &&& miss.len() > 0 ==> table::lookup(t, v[k].manifest.id@) == Some(miss)
            &&& miss.len() == 0 ==> table::lookup(t, v[k].manifest.id@) is None
        }),
{
    lemma_absent(v, lib, n, k);
}

proof fn lemma_absent(v: Seq<Module>, lib: Library, n: int, k: int)
    requires
        0 <= n <= v.len(),
        0 <= k < v.len(),
        forall|i: int, j: int|
            0 <= i < j < v.len() ==> (#[trigger] v[i]).manifest.id@ != (#[trigger] v[j]).manifest.id@,
    ensures
        table::ascending(absent_below(v, lib, n)),
        ({
            let miss = unprovided(lib, text::texts(v[k].manifest.runtimes@));
            let t = absent_below(v, lib, n);
            &&& k < n && miss.len() > 0 ==> table::lookup(t, v[k].manifest.id@) == Some(miss)
            &&& k >= n || miss.len() == 0 ==> table::lookup(t, v[k].manifest.id@) is None
        }),
    decreases n,
{
    if n > 0 {
        lemma_absent(v, lib, n - 1, k);
        let prev = absent_below(v, lib, n - 1);
        let miss = unprovided(lib, text::texts(v[n - 1].manifest.runtimes@));
        table::inserting(prev, v[n - 1].manifest.id@, miss);
        if k < n - 1 {
            assert(v[k].manifest.id@ != v[n - 1].manifest.id@);
        }
        if n - 1 < k {
            assert(v[n - 1].manifest.id@ != v[k].manifest.id@);
        }
    }
}

} // verus!
