//! Acceptance: what the core is asked to judge, which judgements can be used, and
//! what has to be done again.
use crate::chain::{self, NodeV, TaskNode};
use crate::events::{self, CheckV, CheckView, EventV, SessionEvent};
use crate::ports::{self, Msg, MsgV};
use crate::prompt::{self, Prompts, fill1, fill3};
use crate::table::{self, Table};
use crate::text::{self, cat2, cat3, cat4, cat5, cat6, eq_ignore_case, has_text, is_blank, join, push_when, trim};
use vstd::prelude::*;

verus! {

/// An item of the checklist of the final acceptance.
#[derive(Debug)]
pub struct CheckItem {
    pub item: String,
    pub status: String,
    pub evidence: Option<String>,
    pub reason: Option<String>,
    /// The node to do again, where the item failed.
    pub rework: Option<String>,
}

pub struct ItemV {
    pub item: Seq<char>,
    pub status: Seq<char>,
    pub evidence: Option<Seq<char>>,
    pub reason: Option<Seq<char>>,
    pub rework: Option<Seq<char>>,
}

impl View for CheckItem {
    type V = ItemV;

    open spec fn view(&self) -> ItemV {
        ItemV {
            item: self.item@,
            status: self.status@,
            evidence: text::opt_text(self.evidence),
            reason: text::opt_text(self.reason),
            rework: text::opt_text(self.rework),
        }
    }
}

pub open spec fn check_items(v: Seq<CheckItem>) -> Seq<ItemV> {
    v.map_values(|i: CheckItem| i@)
}

pub open spec fn or_nothing(o: Option<Seq<char>>) -> Seq<char> {
    match o {
        Some(s) => s,
        None => Seq::empty(),
    }
}

/// Whether an item failed.
pub open spec fn failed(i: ItemV) -> bool {
    text::same_ignoring_case(i.status, "fail"@)
}

/// The nodes to do again, of the first `n` items: each once, in their order.
pub open spec fn targets_below(v: Seq<ItemV>, n: int) -> Seq<Seq<char>>
    decreases n,
{
    if n <= 0 {
        Seq::empty()
    } else {
        let prev = targets_below(v, n - 1);
        let node = or_nothing(v[n - 1].rework);
        if failed(v[n - 1]) && text::trimmed(node).len() > 0 && !prev.contains(node) {
            prev.push(node)
        } else {
            prev
        }
    }
}

/// What is wrong with an item: one that failed must name a node, and one there is.
pub open spec fn item_fault(known: Seq<Seq<char>>, i: ItemV) -> Seq<Seq<char>> {
    let node = text::trimmed(or_nothing(i.rework));
    if !failed(i) {
        Seq::empty()
    } else if node.len() == 0 {
        seq!["条目「"@ + i.item + "」没过（fail）但没填 rework"@]
    } else if !known.contains(node) {
        seq!["条目「"@ + i.item + "」填的 rework="@ + node + " 不在节点表里"@]
    } else {
        Seq::empty()
    }
}

pub open spec fn item_faults(known: Seq<Seq<char>>, v: Seq<ItemV>, n: int) -> Seq<Seq<char>>
    decreases n,
{
    if n <= 0 {
        Seq::empty()
    } else {
        item_faults(known, v, n - 1) + item_fault(known, v[n - 1])
    }
}

/// Whether there is a checklist, and everything on it passed.
pub open spec fn passed_all(v: Seq<ItemV>) -> bool {
    v.len() > 0 && forall|k: int|
        0 <= k < v.len() ==> text::same_ignoring_case((#[trigger] v[k]).status, "pass"@)
}

/// The final acceptance.
#[derive(Debug)]
pub struct Execution {
    /// What each node reported.
    pub reports: Table<String>,
    /// What the core gave, as it stands.
    pub checklist_raw: String,
    /// The checklist; empty where it could not be read.
    pub items: Vec<CheckItem>,
    /// Why the core could not be asked, if it could not.
    pub error: Option<String>,
    pub stopped: bool,
}

pub struct ExecutionV {
    pub reports: Seq<(Seq<char>, Seq<char>)>,
    pub checklist_raw: Seq<char>,
    pub items: Seq<ItemV>,
    pub error: Option<Seq<char>>,
    pub stopped: bool,
}

impl View for Execution {
    type V = ExecutionV;

    open spec fn view(&self) -> ExecutionV {
        ExecutionV {
            reports: table::text_entries(self.reports@),
            checklist_raw: self.checklist_raw@,
            items: check_items(self.items@),
            error: text::opt_text(self.error),
            stopped: self.stopped,
        }
    }
}

pub open spec fn report_lines(v: Seq<(Seq<char>, Seq<char>)>) -> Seq<Seq<char>> {
    v.map_values(|e: (Seq<char>, Seq<char>)| "["@ + e.0 + "] "@ + e.1 + "\n"@)
}

pub open spec fn again(retry: Option<&str>) -> Seq<MsgV> {
    match retry {
        Some(s) => seq![ports::plain_msg("user"@, s@)],
        None => Seq::empty(),
    }
}

/// The request for the final acceptance: the plan, what was reported, and the nodes
/// it may name. A second one says what was wrong with the first.
pub open spec fn review_request(
    p: Prompts,
    reports: Seq<(Seq<char>, Seq<char>)>,
    plan: Seq<char>,
    nodes: Seq<char>,
    retry: Seq<MsgV>,
) -> Seq<MsgV> {
    seq![
        ports::plain_msg("system"@, p.core.review.system@),
        ports::plain_msg(
            "user"@,
            prompt::filled(
                p.core.review.user@,
                seq![
                    ("plan"@, plan),
                    ("reports"@, text::joined(report_lines(reports), Seq::empty())),
                    ("nodes"@, nodes),
                ],
            ),
        ),
    ] + retry
}

/// What came back of the request for the final acceptance.
#[derive(Debug)]
pub struct Checklist {
    pub items: Vec<CheckItem>,
    pub raw: String,
}

fn request(system: &str, user: String, retry: Option<&str>) -> (r: Vec<Msg>)
    ensures
        ports::msgs_v(r@) == seq![ports::plain_msg("system"@, system@), ports::plain_msg("user"@, user@)] + again(
            retry,
        ),
{
    let ghost uv = user@;
    let mut msgs: Vec<Msg> = Vec::new();
    msgs.push(Msg::system(system.to_owned()));
    msgs.push(Msg::user(user));
    match retry {
        Some(s) => {
            msgs.push(Msg::user(s.to_owned()));
        },
        None => {},
    }
    assert(ports::msgs_v(msgs@) =~= seq![ports::plain_msg("system"@, system@), ports::plain_msg("user"@, uv)] + again(
        retry,
    ));
    msgs
}

impl Execution {
    pub fn new() -> (r: Execution)
        ensures
            r@.reports.len() == 0,
            r@.items.len() == 0,
            r@.checklist_raw.len() == 0,
            r@.error is None,
            !r@.stopped,
    {
        Execution {
            reports: Table::new(),
            checklist_raw: String::new(),
            items: Vec::new(),
            error: None,
            stopped: false,
        }
    }

    /// The request for the final acceptance.
    pub fn review(&self, plan: &str, nodes: &str, retry: Option<&str>, prompts: &Prompts) -> (r: Vec<
        Msg,
    >)
        requires
            prompt::book_sound(*prompts),
        ensures
            ports::msgs_v(r@) == review_request(
                *prompts,
                self@.reports,
                plan@,
                nodes@,
                again(retry),
            ),
    {
        let ghost all = report_lines(self@.reports);
        let mut ls: Vec<String> = Vec::new();
        let mut i: usize = 0;
        assert(text::texts(ls@) =~= all.take(0));
        while i < self.reports.len()
            invariant
                i <= self.reports@.len(),
                all == report_lines(self@.reports),
                text::texts(ls@) == all.take(i as int),
            decreases self.reports@.len() - i,
        {
            let l = cat5(
                "[",
                self.reports.key_at(i),
                "] ",
                self.reports.value_at(i).as_str(),
                "\n",
            );
            let ghost prev = ls@;
            ls.push(l);
            proof {
                text::lemma_texts_push(prev, l);
                assert(all[i as int] == l@);
                assert(text::texts(ls@) =~= all.take(i + 1));
            }
            i = i + 1;
        }
        assert(all.take(all.len() as int) =~= all);
        proof {
            reveal_strlit("");
            assert(""@ =~= Seq::empty());
        }
        let user = fill3(
            prompts.core.review.user.as_str(),
            "plan",
            plan,
            "reports",
            join(&ls, "").as_str(),
            "nodes",
            nodes,
        );
        request(prompts.core.review.system.as_str(), user, retry)
    }

    /// Takes what came back: the checklist, or why there is none.
    pub fn reviewed(&mut self, made: Result<Checklist, String>, cancelled: bool)
        ensures
            final(self).reports == old(self).reports,
            if cancelled {
                final(self)@ == (ExecutionV { stopped: true, ..old(self)@ })
            } else {
                match made {
                    Ok(c) => final(self)@ == (ExecutionV {
                        items: check_items(c.items@),
                        checklist_raw: c.raw@,
                        ..old(self)@
                    }),
                    Err(e) => final(self)@ == (ExecutionV { error: Some(e@), ..old(self)@ }),
                }
            },
    {
        if cancelled {
            self.stopped = true;
            return;
        }
        match made {
            Ok(c) => {
                self.items = c.items;
                self.checklist_raw = c.raw;
            },
            Err(e) => {
                self.error = Some(e);
            },
        }
    }

    /// The nodes to do again: those that items which failed name, each once.
    pub fn rework_targets(&self) -> (r: Vec<String>)
        ensures
            text::texts(r@) == targets_below(self@.items, self@.items.len() as int),
    {
        let ghost iv = self@.items;
        let mut out: Vec<String> = Vec::new();
        let mut i: usize = 0;
        assert(text::texts(out@) =~= targets_below(iv, 0));
        while i < self.items.len()
            invariant
                i <= self.items@.len(),
                iv == check_items(self.items@),
                text::texts(out@) == targets_below(iv, i as int),
            decreases self.items@.len() - i,
        {
            let it = &self.items[i];
            assert(iv[i as int] == it@);
            let node = match &it.rework {
                Some(n) => n.clone(),
                None => String::new(),
            };
            assert(node@ =~= or_nothing(it@.rework));
            if eq_ignore_case(it.status.as_str(), "fail") && !is_blank(node.as_str())
                && !has_text(&out, node.as_str()) {
                let ghost prev = out@;
                out.push(node);
                proof {
                    text::lemma_texts_push(prev, node);
                }
            }
            i = i + 1;
        }
        out
    }

    /// What keeps the checklist from being used; nothing where it can be.
    pub fn rework_problems(&self, known: &Vec<String>) -> (r: Vec<String>)
        ensures
            text::texts(r@) == item_faults(text::texts(known@), self@.items, self@.items.len() as int),
    {
        let ghost iv = self@.items;
        let ghost kv = text::texts(known@);
        let mut out: Vec<String> = Vec::new();
        let mut i: usize = 0;
        assert(text::texts(out@) =~= item_faults(kv, iv, 0));
        while i < self.items.len()
            invariant
                i <= self.items@.len(),
                iv == check_items(self.items@),
                kv == text::texts(known@),
                text::texts(out@) == item_faults(kv, iv, i as int),
            decreases self.items@.len() - i,
        {
            let it = &self.items[i];
            assert(iv[i as int] == it@);
            let ghost prev = out@;
            if eq_ignore_case(it.status.as_str(), "fail") {
                let node = match &it.rework {
                    Some(n) => trim(n.as_str()),
                    None => trim(""),
                };
                proof {
                    reveal_strlit("");
                    assert(""@ =~= Seq::empty());
                    assert(node@ =~= text::trimmed(or_nothing(it@.rework)));
                }
                if node.as_str().unicode_len() == 0 {
                    let s = cat3("条目「", it.item.as_str(), "」没过（fail）但没填 rework");
                    out.push(s);
                    proof {
                        text::lemma_texts_push(prev, s);
                        assert(text::texts(out@) =~= text::texts(prev) + item_fault(kv, it@));
                    }
                } else if !has_text(known, node.as_str()) {
                    let s = cat5(
                        "条目「",
                        it.item.as_str(),
                        "」填的 rework=",
                        node.as_str(),
                        " 不在节点表里",
                    );
                    out.push(s);
                    proof {
                        text::lemma_texts_push(prev, s);
                        assert(text::texts(out@) =~= text::texts(prev) + item_fault(kv, it@));
                    }
                } else {
                    assert(text::texts(out@) =~= text::texts(prev) + item_fault(kv, it@));
                }
            } else {
                assert(text::texts(out@) =~= text::texts(prev) + item_fault(kv, it@));
            }
            i = i + 1;
        }
        out
    }

    /// Whether everything passed. Without a checklist nothing did.
    pub fn all_pass(&self) -> (r: bool)
        ensures
            r == passed_all(self@.items),
    {
        let ghost iv = self@.items;
        assert(iv.len() == self.items@.len());
        if self.items.len() == 0 {
            return false;
        }
        let mut i: usize = 0;
        while i < self.items.len()
            invariant
                i <= self.items@.len(),
                iv == check_items(self.items@),
                forall|k: int|
                    0 <= k < i ==> text::same_ignoring_case((#[trigger] iv[k]).status, "pass"@),
            decreases self.items@.len() - i,
        {
            assert(iv[i as int] == self.items@[i as int]@);
            if !eq_ignore_case(self.items[i].status.as_str(), "pass") {
                return false;
            }
            i = i + 1;
        }
        true
    }
}

/// How an item is shown: with its reason, else its evidence.
pub open spec fn shown_check(i: ItemV) -> CheckV {
    CheckV {
        item: i.item,
        status: i.status,
        note: match i.reason {
            Some(r) => r,
            None => or_nothing(i.evidence),
        },
    }
}

/// The event that shows the checklist.
pub fn review_event(exec: &Execution) -> (r: SessionEvent)
    ensures
        r@ == (EventV::Review {
            items: exec@.items.map_values(|i: ItemV| shown_check(i)),
            raw: exec@.checklist_raw,
        }),
{
    let ghost all = exec@.items.map_values(|i: ItemV| shown_check(i));
    let mut items: Vec<CheckView> = Vec::new();
    let mut i: usize = 0;
    assert(events::checks_v(items@) =~= all.take(0));
    while i < exec.items.len()
        invariant
            i <= exec.items@.len(),
            all == exec@.items.map_values(|i: ItemV| shown_check(i)),
            events::checks_v(items@) == all.take(i as int),
        decreases exec.items@.len() - i,
    {
        let it = &exec.items[i];
        let note = match &it.reason {
            Some(r) => r.clone(),
            None => match &it.evidence {
                Some(e) => e.clone(),
                None => String::new(),
            },
        };
        let c = CheckView { item: it.item.clone(), status: it.status.clone(), note };
        let ghost prev = items@;
        items.push(c);
        proof {
            assert(exec@.items[i as int] == it@);
            assert(note@ =~= shown_check(it@).note);
            assert(c@ == shown_check(it@));
            assert(events::checks_v(items@) =~= events::checks_v(prev).push(c@));
            assert(all[i as int] == c@);
            assert(events::checks_v(items@) =~= all.take(i + 1));
        }
        i = i + 1;
    }
    assert(all.take(all.len() as int) =~= all);
    SessionEvent::Review { items, raw: exec.checklist_raw.clone() }
}

// ---- a stage ----

/// What the core says of one node.
#[derive(Debug)]
pub struct NodeVerdict {
    pub node: String,
    pub ok: bool,
    pub note: String,
}

pub struct VerdictV {
    pub node: Seq<char>,
    pub ok: bool,
    pub note: Seq<char>,
}

impl View for NodeVerdict {
    type V = VerdictV;

    open spec fn view(&self) -> VerdictV {
        VerdictV { node: self.node@, ok: self.ok, note: self.note@ }
    }
}

pub open spec fn verdicts_v(v: Seq<NodeVerdict>) -> Seq<VerdictV> {
    v.map_values(|n: NodeVerdict| n@)
}

pub open spec fn node_line(n: NodeV) -> Seq<char> {
    "- "@ + n.id + "（"@ + n.title + "，负责人 "@ + n.assignee + "）：目标「"@ + n.objective
        + "」\n  产出："@ + match n.report {
        Some(r) => r,
        None => "（没有产出）"@,
    }
}

/// The request to judge the nodes of a stage, each by what it was to do.
pub open spec fn nodes_request(p: Prompts, nodes: Seq<NodeV>, retry: Seq<MsgV>) -> Seq<MsgV> {
    seq![
        ports::plain_msg("system"@, p.core.node_review.system@),
        ports::plain_msg(
            "user"@,
            prompt::filled(
                p.core.node_review.user@,
                seq![("nodes"@, text::joined(nodes.map_values(|n: NodeV| node_line(n)), "\n"@))],
            ),
        ),
    ] + retry
}

/// The request to judge the nodes of a stage.
pub fn review_nodes(prompts: &Prompts, nodes: &Vec<TaskNode>, retry: Option<&str>) -> (r: Vec<Msg>)
    requires
        prompt::book_sound(*prompts),
    ensures
        ports::msgs_v(r@) == nodes_request(*prompts, chain::nodes_v(nodes@), again(retry)),
{
    let ghost all = chain::nodes_v(nodes@).map_values(|n: NodeV| node_line(n));
    let mut ls: Vec<String> = Vec::new();
    let mut i: usize = 0;
    assert(text::texts(ls@) =~= all.take(0));
    while i < nodes.len()
        invariant
            i <= nodes@.len(),
            all == chain::nodes_v(nodes@).map_values(|n: NodeV| node_line(n)),
            text::texts(ls@) == all.take(i as int),
        decreases nodes@.len() - i,
    {
        let n = &nodes[i];
        let head = cat6(
            "- ",
            n.id.as_str(),
            "（",
            n.title.as_str(),
            "，负责人 ",
            n.assignee.as_str(),
        );
        let report = match &n.report {
            Some(r) => r.as_str(),
            None => "（没有产出）",
        };
        let l = cat5(
            head.as_str(),
            "）：目标「",
            n.objective.as_str(),
            "」\n  产出：",
            report,
        );
        let ghost prev = ls@;
        ls.push(l);
        proof {
            text::lemma_texts_push(prev, l);
            assert(chain::nodes_v(nodes@)[i as int] == n@);
            assert(l@ =~= node_line(n@));
            assert(all[i as int] == l@);
            assert(text::texts(ls@) =~= all.take(i + 1));
        }
        i = i + 1;
    }
    assert(all.take(all.len() as int) =~= all);
    let user = fill1(
        prompts.core.node_review.user.as_str(),
        "nodes",
        join(&ls, "\n").as_str(),
    );
    request(prompts.core.node_review.system.as_str(), user, retry)
}

/// The table of nodes and who does them, from which a judgement names them.
pub open spec fn table_of(nodes: Seq<NodeV>) -> Seq<char> {
    text::joined(
        nodes.map_values(|n: NodeV| "- "@ + n.id + " — 负责人 "@ + n.assignee),
        "\n"@,
    )
}

pub fn node_table(nodes: &Vec<TaskNode>) -> (r: String)
    ensures
        r@ == table_of(chain::nodes_v(nodes@)),
{
    let ghost all = chain::nodes_v(nodes@).map_values(
        |n: NodeV| "- "@ + n.id + " — 负责人 "@ + n.assignee,
    );
    let mut ls: Vec<String> = Vec::new();
    let mut i: usize = 0;
    assert(text::texts(ls@) =~= all.take(0));
    while i < nodes.len()
        invariant
            i <= nodes@.len(),
            all == chain::nodes_v(nodes@).map_values(
                |n: NodeV| "- "@ + n.id + " — 负责人 "@ + n.assignee,
            ),
            text::texts(ls@) == all.take(i as int),
        decreases nodes@.len() - i,
    {
        let n = &nodes[i];
        let l = cat4("- ", n.id.as_str(), " — 负责人 ", n.assignee.as_str());
        let ghost prev = ls@;
        ls.push(l);
        proof {
            text::lemma_texts_push(prev, l);
            assert(chain::nodes_v(nodes@)[i as int] == n@);
            assert(all[i as int] == l@);
            assert(text::texts(ls@) =~= all.take(i + 1));
        }
        i = i + 1;
    }
    assert(all.take(all.len() as int) =~= all);
    join(&ls, "\n")
}

pub open spec fn node_ids(nodes: Seq<NodeV>) -> Seq<Seq<char>> {
    nodes.map_values(|n: NodeV| n.id)
}

pub fn ids_of(nodes: &Vec<TaskNode>) -> (r: Vec<String>)
    ensures
        text::texts(r@) == node_ids(chain::nodes_v(nodes@)),
{
    let mut r: Vec<String> = Vec::new();
    let mut i: usize = 0;
    while i < nodes.len()
        invariant
            i <= nodes@.len(),
            r@.len() == i,
            forall|k: int| 0 <= k < i ==> (#[trigger] r@[k])@ == nodes@[k].id@,
        decreases nodes@.len() - i,
    {
        r.push(nodes[i].id.clone());
        i = i + 1;
    }
    assert(text::texts(r@) =~= node_ids(chain::nodes_v(nodes@)));
    r
}

pub open spec fn judged_names(v: Seq<VerdictV>) -> Seq<Seq<char>> {
    v.map_values(|x: VerdictV| x.node)
}

fn names_judged(v: &Vec<NodeVerdict>) -> (r: Vec<String>)
    ensures
        text::texts(r@) == judged_names(verdicts_v(v@)),
{
    let mut r: Vec<String> = Vec::new();
    let mut i: usize = 0;
    while i < v.len()
        invariant
            i <= v@.len(),
            r@.len() == i,
            forall|k: int| 0 <= k < i ==> (#[trigger] r@[k])@ == v@[k].node@,
        decreases v@.len() - i,
    {
        r.push(v[i].node.clone());
        i = i + 1;
    }
    assert(text::texts(r@) =~= judged_names(verdicts_v(v@)));
    r
}

/// Those of the first `n` texts that are not among others.
pub open spec fn without(v: Seq<Seq<char>>, others: Seq<Seq<char>>, n: int) -> Seq<Seq<char>>
    decreases n,
{
    if n <= 0 {
        Seq::empty()
    } else {
        without(v, others, n - 1) + text::when(!others.contains(v[n - 1]), v[n - 1])
    }
}

fn texts_without(v: &Vec<String>, others: &Vec<String>) -> (r: Vec<String>)
    ensures
        text::texts(r@) == without(text::texts(v@), text::texts(others@), v@.len() as int),
{
    let ghost vv = text::texts(v@);
    let mut r: Vec<String> = Vec::new();
    let mut i: usize = 0;
    assert(text::texts(r@) =~= Seq::empty());
    while i < v.len()
        invariant
            i <= v@.len(),
            vv == text::texts(v@),
            text::texts(r@) == without(vv, text::texts(others@), i as int),
        decreases v@.len() - i,
    {
        push_when(&mut r, !has_text(others, v[i].as_str()), v[i].clone());
        i = i + 1;
    }
    r
}

/// What keeps the verdicts on a stage from being used: those on nodes that are not
/// of it, and nodes of it without one. Nothing where they can be used.
pub open spec fn verdict_faults(v: Seq<VerdictV>, known: Seq<Seq<char>>) -> Seq<Seq<char>> {
    let names = judged_names(v);
    let unknown = without(names, known, names.len() as int);
    let missing = without(known, names, known.len() as int);
    text::when(unknown.len() > 0, "不在表里的 id："@ + text::joined(unknown, "、"@)) + text::when(
        missing.len() > 0,
        "没给结论的节点："@ + text::joined(missing, "、"@),
    )
}

/// Says what keeps the verdicts on a stage from being used.
pub fn verdict_problems(v: &Vec<NodeVerdict>, known: &Vec<String>) -> (r: Vec<String>)
    ensures
        text::texts(r@) == verdict_faults(verdicts_v(v@), text::texts(known@)),
{
    let names = names_judged(v);
    let unknown = texts_without(&names, known);
    let missing = texts_without(known, &names);
    let mut r: Vec<String> = Vec::new();
    assert(text::texts(r@) =~= Seq::empty());
    proof {
        assert(text::texts(unknown@).len() == unknown@.len());
        assert(text::texts(missing@).len() == missing@.len());
        assert(text::texts(names@).len() == names@.len());
        assert(text::texts(known@).len() == known@.len());
    }
    push_when(
        &mut r,
        unknown.len() > 0,
        cat2("不在表里的 id：", join(&unknown, "、").as_str()),
    );
    push_when(
        &mut r,
        missing.len() > 0,
        cat2("没给结论的节点：", join(&missing, "、").as_str()),
    );
    assert(text::texts(r@) =~= verdict_faults(verdicts_v(v@), text::texts(known@)));
    r
}

proof fn lemma_without(v: Seq<Seq<char>>, others: Seq<Seq<char>>, n: int, k: int)
    requires
        0 <= k < n <= v.len(),
        without(v, others, n).len() == 0,
    ensures
        others.contains(v[k]),
    decreases n,
{
    if k < n - 1 {
        lemma_without(v, others, n - 1, k);
    }
}

/// Verdicts that can be used name nodes of the stage only, and every node of it.
pub proof fn usable_verdicts_cover_the_stage(v: Seq<VerdictV>, known: Seq<Seq<char>>)
    requires
        verdict_faults(v, known).len() == 0,
    ensures
        forall|k: int| 0 <= k < v.len() ==> known.contains((#[trigger] v[k]).node),
        forall|k: int|
            0 <= k < known.len() ==> judged_names(v).contains(#[trigger] known[k]),
{
    let names = judged_names(v);
    assert forall|k: int| 0 <= k < v.len() implies known.contains((#[trigger] v[k]).node) by {
        lemma_without(names, known, names.len() as int, k);
        assert(names[k] == v[k].node);
    }
    assert forall|k: int| 0 <= k < known.len() implies judged_names(v).contains(
        #[trigger] known[k],
    ) by {
        lemma_without(known, names, known.len() as int, k);
    }
}

/// A checklist that can be used sends back only nodes there are. A node is named
/// there as the table writes it.
pub proof fn rework_names_known_nodes(known: Seq<Seq<char>>, v: Seq<ItemV>, n: int, k: int)
    requires
        0 <= n <= v.len(),
        item_faults(known, v, n).len() == 0,
        0 <= k < targets_below(v, n).len(),
    ensures
        known.contains(text::trimmed(targets_below(v, n)[k])),
    decreases n,
{
    if n > 0 {
        if k < targets_below(v, n - 1).len() {
            rework_names_known_nodes(known, v, n - 1, k);
        }
    }
}

/// A node is sent back once at most, and only by an item that failed.
pub proof fn rework_is_for_failures(v: Seq<ItemV>, n: int)
    requires
        0 <= n <= v.len(),
    ensures
        targets_below(v, n).no_duplicates(),
        forall|k: int|
            0 <= k < targets_below(v, n).len() ==> exists|j: int|
                0 <= j < n && failed(#[trigger] v[j]) && v[j].rework == Some(
                    #[trigger] targets_below(v, n)[k],
                ),
    decreases n,
{
    if n > 0 {
        rework_is_for_failures(v, n - 1);
        let prev = targets_below(v, n - 1);
        let now = targets_below(v, n);
        assert forall|k: int| 0 <= k < now.len() implies exists|j: int|
            0 <= j < n && failed(#[trigger] v[j]) && v[j].rework == Some(
                #[trigger] now[k],
            ) by {
            if k < prev.len() {
                assert(now[k] == prev[k]);
                let j = choose|j: int|
                    0 <= j < n - 1 && failed(#[trigger] v[j]) && v[j].rework == Some(prev[k]);
                assert(failed(v[j]));
            } else {
                assert(failed(v[n - 1]));
                assert(v[n - 1].rework is Some) by {
                    if v[n - 1].rework is None {
                        assert(text::trimmed(Seq::<char>::empty()).len() == 0);
                    }
                }
            }
        }
    }
}

/// What is done again is what an item that failed names, each node once.
pub proof fn failures_are_done_again(v: Seq<ItemV>, n: int, node: Seq<char>)
    requires
        0 <= n <= v.len(),
    ensures
        targets_below(v, n).contains(node) <==> text::trimmed(node).len() > 0 && exists|i: int|
            0 <= i < n && text::same_ignoring_case((#[trigger] v[i]).status, "fail"@) && v[i].rework == Some(
                node,
            ),
        targets_below(v, n).no_duplicates(),
    decreases n,
{
    if n > 0 {
        failures_are_done_again(v, n - 1, node);
        let p = targets_below(v, n - 1);
        let h = targets_below(v, n);
        let x = or_nothing(v[n - 1].rework);
        if h.contains(node) && !p.contains(node) {
            let k = choose|k: int| 0 <= k < h.len() && h[k] == node;
            if k < p.len() {
                assert(p[k] == node);
            }
            assert(v[n - 1].rework == Some(node));
        }
        if p.contains(node) {
            let k = choose|k: int| 0 <= k < p.len() && p[k] == node;
            assert(h[k] == node);
            let i = choose|i: int|
                0 <= i < n - 1 && text::same_ignoring_case((#[trigger] v[i]).status, "fail"@) && v[i].rework
                    == Some(node);
            assert(0 <= i < n);
        }
        if text::trimmed(node).len() > 0 && exists|i: int|
            0 <= i < n && text::same_ignoring_case((#[trigger] v[i]).status, "fail"@) && v[i].rework == Some(
                node,
            ) {
            let i = choose|i: int|
                0 <= i < n && text::same_ignoring_case((#[trigger] v[i]).status, "fail"@) && v[i].rework
                    == Some(node);
            if i == n - 1 {
                assert(x == node);
                if !p.contains(node) {
                    assert(h[p.len() as int] == node);
                }
            } else {
                assert(p.contains(node));
            }
        }
        if h.len() > p.len() {
            assert forall|a: int, b: int| 0 <= a < h.len() && 0 <= b < h.len() && a != b implies h[a] != h[b] by {
                if a == p.len() {
                    assert(p[b] == h[b]);
                    assert(p.contains(h[b]));
                } else if b == p.len() {
                    assert(p[a] == h[a]);
                    assert(p.contains(h[a]));
                } else {
                    assert(p[a] != p[b]);
                }
            }
        }
    }
}

/// Verdicts are of use exactly where they judge the nodes of the stage, all of them and
/// no others.
pub proof fn verdicts_are_of_use_for_their_stage(v: Seq<VerdictV>, known: Seq<Seq<char>>)
    ensures
        verdict_faults(v, known).len() == 0 <==> (forall|k: int|
            0 <= k < v.len() ==> known.contains((#[trigger] v[k]).node)) && forall|k: int|
            0 <= k < known.len() ==> judged_names(v).contains(#[trigger] known[k]),
{
    let names = judged_names(v);
    lemma_none_without(names, known, names.len() as int);
    lemma_none_without(known, names, known.len() as int);
    assert forall|k: int| 0 <= k < v.len() implies names[k] == (#[trigger] v[k]).node by {}
    if forall|k: int| 0 <= k < v.len() ==> known.contains((#[trigger] v[k]).node) {
        assert forall|k: int| 0 <= k < names.len() implies known.contains(#[trigger] names[k]) by {
            assert(names[k] == v[k].node);
        }
    }
    if forall|k: int| 0 <= k < names.len() ==> known.contains(#[trigger] names[k]) {
        assert forall|k: int| 0 <= k < v.len() implies known.contains((#[trigger] v[k]).node) by {
            assert(known.contains(names[k]));
        }
    }
}

proof fn lemma_none_without(v: Seq<Seq<char>>, others: Seq<Seq<char>>, n: int)
    requires
        0 <= n <= v.len(),
    ensures
        without(v, others, n).len() == 0 <==> forall|k: int| 0 <= k < n ==> others.contains(#[trigger] v[k]),
    decreases n,
{
    if n > 0 {
        lemma_none_without(v, others, n - 1);
    }
}

/// A list is of use exactly where each item that failed names a node there is.
pub proof fn lists_are_of_use_that_name_nodes(known: Seq<Seq<char>>, v: Seq<ItemV>, n: int)
    requires
        0 <= n <= v.len(),
    ensures
        item_faults(known, v, n).len() == 0 <==> forall|i: int|
            0 <= i < n && text::same_ignoring_case((#[trigger] v[i]).status, "fail"@) ==> v[i].rework is Some
                && text::trimmed(v[i].rework->0).len() > 0 && known.contains(text::trimmed(v[i].rework->0)),
    decreases n,
{
    if n > 0 {
        lists_are_of_use_that_name_nodes(known, v, n - 1);
        if v[n - 1].rework is None {
            text::trimming_takes_off_the_white_ends(Seq::empty());
        }
    }
}

/// What is shown of an item is why it failed, or what shows that it did not.
pub proof fn checks_show_the_reason(i: ItemV)
    ensures
        shown_check(i).item == i.item,
        shown_check(i).status == i.status,
        i.reason is Some ==> shown_check(i).note == i.reason->0,
        i.reason is None && i.evidence is Some ==> shown_check(i).note == i.evidence->0,
        i.reason is None && i.evidence is None ==> shown_check(i).note.len() == 0,
{
}

/// The core is asked about the nodes of a stage with what each was to do and what it
/// brought.
pub proof fn stages_are_judged_by_what_they_brought(
    p: Prompts,
    nodes: Seq<NodeV>,
    retry: Seq<MsgV>,
    a: Seq<char>,
    b: Seq<char>,
    k: int,
)
    requires
        p.core.node_review.user@ == a + "{{"@ + "nodes"@ + "}}"@ + b,
        !a.contains('{'),
        !b.contains('{'),
        0 <= k < nodes.len(),
    ensures
        ({
            let m = nodes_request(p, nodes, retry);
            let lines = nodes.map_values(|n: NodeV| node_line(n));
            &&& m.len() == 2 + retry.len()
            &&& m[0].role == "system"@ && m[0].content == p.core.node_review.system@
            &&& m[1].role == "user"@ && m[1].content == a + text::joined(lines, "\n"@) + b
            &&& text::contains_text(lines[k], nodes[k].id) && text::contains_text(lines[k], nodes[k].objective)
            &&& nodes[k].report matches Some(r) ==> text::contains_text(lines[k], r)
        }),
{
    reveal_strlit("nodes");
    let lines = nodes.map_values(|n: NodeV| node_line(n));
    let vars = seq![("nodes"@, text::joined(lines, "\n"@))];
    text::white_space_cannot_be_seen('n');
    text::white_space_cannot_be_seen('s');
    assert("nodes"@.len() == 5);
    assert("nodes"@[0] == 'n' && "nodes"@[4] == 's');
    assert(!"nodes"@.contains('}'));
    prompt::one_place_is_filled(a, "nodes"@, b, vars, 0);
    let n = nodes[k];
    let l = node_line(n);
    let out = match n.report {
        Some(r) => r,
        None => "（没有产出）"@,
    };
    let h = "- "@;
    let h2 = h + n.id + "（"@ + n.title + "，负责人 "@ + n.assignee + "）：目标「"@;
    let h3 = h2 + n.objective + "」\n  产出："@;
    assert(l.subrange(h.len() as int, h.len() as int + n.id.len() as int) =~= n.id);
    assert(text::stands_at(l, n.id, h.len() as int));
    text::lemma_contains_text(l, n.id);
    assert(l.subrange(h2.len() as int, h2.len() as int + n.objective.len() as int) =~= n.objective);
    assert(text::stands_at(l, n.objective, h2.len() as int));
    text::lemma_contains_text(l, n.objective);
    assert(l =~= h3 + out);
    assert(l.subrange(h3.len() as int, h3.len() as int + out.len() as int) =~= out);
    assert(text::stands_at(l, out, h3.len() as int));
    text::lemma_contains_text(l, out);
}

} // verus!
