//! The journal of a session: events are only ever added to it, going back too. What
//! the session holds is what is left when the journal is read with that in mind.
use crate::collab_state::{self, tool_runs};
use crate::events::{self, EventV, LineV, SessionEvent};
use crate::json::{self, Json, JsonV};
use crate::ports::ToolCall;
use crate::session::{self, keep_whole_replies};
use crate::text::{self, cat3, dec_usize, starts_with, str_eq};
use vstd::prelude::*;

verus! {

// ---- reading ----

pub open spec fn kind_of(e: JsonV) -> Option<Seq<char>> {
    e.text_at("type"@)
}

/// Whether an event brings lines of the transcript.
pub open spec fn spoken(e: JsonV) -> bool {
    kind_of(e) == Some("transcript"@)
}

/// The lines an event brings.
pub open spec fn lines_in(e: JsonV) -> Option<Seq<JsonV>> {
    if spoken(e) {
        e.array_at("lines"@)
    } else {
        None
    }
}

/// The lines of the first `n` events.
pub open spec fn rows(events: Seq<JsonV>, n: int) -> Seq<JsonV>
    decreases n,
{
    if n <= 0 {
        Seq::empty()
    } else {
        match lines_in(events[n - 1]) {
            Some(ls) => rows(events, n - 1) + ls,
            None => rows(events, n - 1),
        }
    }
}

pub open spec fn all_rows(events: Seq<JsonV>) -> Seq<JsonV> {
    rows(events, events.len() as int)
}

pub open spec fn row_id(l: JsonV) -> Option<nat> {
    l.natural_at("id"@)
}

/// The reply a line belongs to. A line that names none is a reply of its own.
pub open spec fn row_reply(l: JsonV) -> nat {
    let own = match row_id(l) {
        Some(i) => i,
        None => 0,
    };
    let stored = match l.get("tool"@) {
        Some(t) => t.natural_at("reply"@),
        None => l.natural_at("reply"@),
    };
    match stored {
        Some(r) => if r != 0 {
            r
        } else {
            own
        },
        None => own,
    }
}

pub open spec fn row_replies(v: Seq<JsonV>) -> Seq<u64> {
    v.map_values(|l: JsonV| row_reply(l) as u64)
}

fn is_spoken(e: &Json) -> (r: bool)
    ensures
        r == spoken(e@),
{
    match e.str_at("type") {
        Some(s) => str_eq(s, "transcript"),
        None => false,
    }
}

fn get_lines(e: &Json) -> (r: Option<&Vec<Json>>)
    ensures
        match r {
            Some(v) => lines_in(e@) == Some(json::items_v(v@)),
            None => lines_in(e@) is None,
        },
{
    if is_spoken(e) {
        e.array_at("lines")
    } else {
        None
    }
}

/// The reply a line of the journal belongs to.
pub fn line_reply_of(l: &Json) -> (r: u64)
    ensures
        r == row_reply(l@),
{
    let own: u64 = match l.u64_at("id") {
        Some(i) => i,
        None => 0,
    };
    let stored = match l.get("tool") {
        Some(t) => t.u64_at("reply"),
        None => l.u64_at("reply"),
    };
    match stored {
        Some(r) => {
            if r != 0 {
                r
            } else {
                own
            }
        },
        None => own,
    }
}

pub open spec fn refs_of(v: Seq<&Json>) -> Seq<JsonV> {
    v.map_values(|j: &Json| j@)
}

/// The lines of a journal, in order.
pub fn rows_of(events: &Vec<Json>) -> (r: Vec<&Json>)
    ensures
        refs_of(r@) == all_rows(json::items_v(events@)),
{
    let ghost ev = json::items_v(events@);
    proof {
        json::lemma_items(events@);
    }
    let mut out: Vec<&Json> = Vec::new();
    let mut i: usize = 0;
    assert(refs_of(out@) =~= Seq::empty());
    while i < events.len()
        invariant
            i <= events@.len(),
            ev == json::items_v(events@),
            ev.len() == events@.len(),
            forall|k: int| 0 <= k < events@.len() ==> #[trigger] ev[k] == events@[k]@,
            refs_of(out@) == rows(ev, i as int),
        decreases events@.len() - i,
    {
        assert(ev[i as int] == events@[i as int]@);
        match get_lines(&events[i]) {
            Some(ls) => {
                let ghost lv = json::items_v(ls@);
                proof {
                    json::lemma_items(ls@);
                }
                let ghost head = refs_of(out@);
                let mut k: usize = 0;
                assert(head + lv.take(0) =~= head);
                while k < ls.len()
                    invariant
                        k <= ls@.len(),
                        lv == json::items_v(ls@),
                        lv.len() == ls@.len(),
                        forall|j: int| 0 <= j < ls@.len() ==> #[trigger] lv[j] == ls@[j]@,
                        refs_of(out@) == head + lv.take(k as int),
                    decreases ls@.len() - k,
                {
                    assert(lv[k as int] == ls@[k as int]@);
                    let ghost prev = out@;
                    out.push(&ls[k]);
                    assert(refs_of(out@) =~= refs_of(prev).push(lv[k as int]));
                    k = k + 1;
                    assert(refs_of(out@) =~= head + lv.take(k as int));
                }
                assert(lv.take(lv.len() as int) =~= lv);
            },
            None => {},
        }
        i = i + 1;
    }
    out
}

/// The first line from `i` on whose number is no less than `keep`.
pub open spec fn first_from(v: Seq<JsonV>, keep: nat, i: int) -> int
    decreases v.len() - i,
{
    if i < 0 || i >= v.len() {
        v.len() as int
    } else if row_id(v[i]) is Some && row_id(v[i])->0 >= keep {
        i
    } else {
        first_from(v, keep, i + 1)
    }
}

/// Where the journal is cut for a cut at `keep`: never within a reply.
pub open spec fn aligned(events: Seq<JsonV>, keep: nat) -> nat {
    let v = all_rows(events);
    let k = session::whole_replies(row_replies(v), first_from(v, keep, 0));
    if 0 <= k < v.len() {
        match row_id(v[k]) {
            Some(i) => i,
            None => u64::MAX as nat,
        }
    } else {
        u64::MAX as nat
    }
}

/// Moves a cut of the journal to where no reply is cut in two.
pub fn align_keep(events: &Vec<Json>, keep: u64) -> (r: u64)
    ensures
        r == aligned(json::items_v(events@), keep as nat),
{
    let all = rows_of(events);
    let ghost v = all_rows(json::items_v(events@));
    assert(v.len() == all@.len());
    let mut replies: Vec<u64> = Vec::new();
    let mut idx: usize = all.len();
    let mut found = false;
    let mut i: usize = 0;
    assert(replies@ =~= row_replies(v).take(0));
    while i < all.len()
        invariant
            i <= all@.len(),
            v == refs_of(all@),
            v.len() == all@.len(),
            replies@ == row_replies(v).take(i as int),
            found ==> idx < all@.len() && first_from(v, keep as nat, 0) == idx,
            !found ==> idx == all@.len() && first_from(v, keep as nat, 0) == first_from(
                v,
                keep as nat,
                i as int,
            ),
        decreases all@.len() - i,
    {
        let l = all[i];
        assert(v[i as int] == all@[i as int]@);
        let n = line_reply_of(l);
        replies.push(n);
        assert(row_replies(v)[i as int] == n);
        assert(replies@ =~= row_replies(v).take(i + 1));
        if !found {
            match l.u64_at("id") {
                Some(id) => {
                    if id >= keep {
                        idx = i;
                        found = true;
                    }
                },
                None => {},
            }
        }
        i = i + 1;
    }
    assert(row_replies(v).take(v.len() as int) =~= row_replies(v));
    let k = keep_whole_replies(&replies, idx);
    if k < all.len() {
        assert(v[k as int] == all@[k as int]@);
        match all[k].u64_at("id") {
            Some(id) => id,
            None => u64::MAX,
        }
    } else {
        u64::MAX
    }
}

// ---- cutting ----

/// How many lines there are at the head whose numbers are below `keep`.
pub open spec fn head_below(v: Seq<JsonV>, keep: nat, i: int) -> int
    decreases v.len() - i,
{
    if i < 0 || i >= v.len() {
        v.len() as int
    } else if row_id(v[i]) is Some && row_id(v[i])->0 < keep {
        head_below(v, keep, i + 1)
    } else {
        i
    }
}

/// The place of a member, from `i` on.
pub open spec fn member_at(o: Seq<(Seq<char>, JsonV)>, key: Seq<char>, i: int) -> Option<int>
    decreases o.len() - i,
{
    if i < 0 || i >= o.len() {
        None
    } else if o[i].0 == key {
        Some(i)
    } else {
        member_at(o, key, i + 1)
    }
}

/// An event with other lines.
pub open spec fn with_lines(e: JsonV, ls: Seq<JsonV>) -> JsonV {
    match e {
        JsonV::Obj(o) => match member_at(o, "lines"@, 0) {
            Some(i) => JsonV::Obj(o.update(i, ("lines"@, JsonV::Arr(ls)))),
            None => e,
        },
        _ => e,
    }
}

/// The first `n` events, with the lines from `keep` on cut off; and whether some
/// were. What came after lines that were cut off is gone too.
pub open spec fn cut_to(events: Seq<JsonV>, keep: nat, n: int) -> (Seq<JsonV>, bool)
    decreases n,
{
    if n <= 0 {
        (Seq::empty(), false)
    } else {
        let prev = cut_to(events, keep, n - 1);
        let e = events[n - 1];
        if prev.1 {
            prev
        } else if spoken(e) {
            match lines_in(e) {
                Some(ls) => {
                    let k = head_below(ls, keep, 0);
                    (
                        if k > 0 {
                            prev.0.push(with_lines(e, ls.take(k)))
                        } else {
                            prev.0
                        },
                        k < ls.len(),
                    )
                },
                None => prev,
            }
        } else {
            (prev.0.push(e), false)
        }
    }
}

/// The events with the lines from `keep` on cut off, and no reply in part.
pub open spec fn cut_before(events: Seq<JsonV>, keep: nat) -> Seq<JsonV> {
    cut_to(events, aligned(events, keep), events.len() as int).0
}

fn swap_lines(e: &Json, ls: Vec<Json>) -> (r: Json)
    ensures
        r@ == with_lines(e@, json::items_v(ls@)),
{
    match e {
        Json::Obj(o) => {
            let ghost ov = json::members_v(o@);
            proof {
                json::lemma_members(o@);
            }
            let mut i: usize = 0;
            while i < o.len() && !str_eq(o[i].0.as_str(), "lines")
                invariant
                    i <= o@.len(),
                    ov == json::members_v(o@),
                    ov.len() == o@.len(),
                    forall|k: int| 0 <= k < o@.len() ==> #[trigger] ov[k] == (o@[k].0@, o@[k].1@),
                    member_at(ov, "lines"@, 0) == member_at(ov, "lines"@, i as int),
                decreases o@.len() - i,
            {
                assert(ov[i as int] == (o@[i as int].0@, o@[i as int].1@));
                i = i + 1;
            }
            if i >= o.len() {
                return e.copy();
            }
            assert(ov[i as int] == (o@[i as int].0@, o@[i as int].1@));
            let mut out: Vec<(String, Json)> = Vec::new();
            let mut k: usize = 0;
            while k < o.len()
                invariant
                    k <= o@.len(),
                    out@.len() == k,
                    forall|j: int|
                        0 <= j < k ==> (#[trigger] out@[j]).0@ == o@[j].0@ && out@[j].1@
                            == o@[j].1@,
                decreases o@.len() - k,
            {
                out.push((o[k].0.clone(), o[k].1.copy()));
                k = k + 1;
            }
            let ghost lv = json::items_v(ls@);
            out.set(i, ("lines".to_owned(), Json::Arr(ls)));
            proof {
                json::lemma_members(out@);
                assert(json::members_v(out@) =~= ov.update(i as int, ("lines"@, JsonV::Arr(lv))));
            }
            Json::Obj(out)
        },
        _ => e.copy(),
    }
}

fn copy_head(ls: &Vec<Json>, k: usize) -> (r: Vec<Json>)
    requires
        k <= ls@.len(),
    ensures
        json::items_v(r@) == json::items_v(ls@).take(k as int),
{
    let mut r: Vec<Json> = Vec::new();
    let mut i: usize = 0;
    while i < k
        invariant
            i <= k <= ls@.len(),
            r@.len() == i,
            forall|j: int| 0 <= j < i ==> (#[trigger] r@[j])@ == ls@[j]@,
        decreases k - i,
    {
        r.push(ls[i].copy());
        i = i + 1;
    }
    proof {
        json::lemma_items(r@);
        json::lemma_items(ls@);
        assert(json::items_v(r@) =~= json::items_v(ls@).take(k as int));
    }
    r
}

proof fn lemma_items_push(v: Seq<Json>, j: Json)
    ensures
        json::items_v(v.push(j)) == json::items_v(v).push(j@),
{
    assert(v.push(j).drop_last() =~= v);
}

/// Cuts the lines from `keep` on off, with all that came after them, and leaves no
/// reply in part.
pub fn cut_before_line(events: &Vec<Json>, keep: u64) -> (r: Vec<Json>)
    ensures
        json::items_v(r@) == cut_before(json::items_v(events@), keep as nat),
{
    let ghost ev = json::items_v(events@);
    let keep = align_keep(events, keep);
    proof {
        json::lemma_items(events@);
    }
    let mut out: Vec<Json> = Vec::new();
    let mut i: usize = 0;
    let mut done = false;
    assert(json::items_v(out@) =~= Seq::empty());
    while i < events.len()
        invariant
            i <= events@.len(),
            ev == json::items_v(events@),
            ev.len() == events@.len(),
            forall|k: int| 0 <= k < events@.len() ==> #[trigger] ev[k] == events@[k]@,
            (json::items_v(out@), done) == cut_to(ev, keep as nat, i as int),
        decreases events@.len() - i,
    {
        let e = &events[i];
        assert(ev[i as int] == e@);
        if !done {
            if is_spoken(e) {
                match get_lines(e) {
                    Some(ls) => {
                        let ghost lv = json::items_v(ls@);
                        proof {
                            json::lemma_items(ls@);
                        }
                        let mut k: usize = 0;
                        let mut more = true;
                        while k < ls.len() && more
                            invariant
                                k <= ls@.len(),
                                lv == json::items_v(ls@),
                                lv.len() == ls@.len(),
                                forall|j: int|
                                    0 <= j < ls@.len() ==> #[trigger] lv[j] == ls@[j]@,
                                more ==> head_below(lv, keep as nat, 0) == head_below(
                                    lv,
                                    keep as nat,
                                    k as int,
                                ),
                                !more ==> head_below(lv, keep as nat, 0) == k,
                            decreases
                                    ls@.len() - k,
                                    if more {
                                        1int
                                    } else {
                                        0
                                    },
                        {
                            assert(lv[k as int] == ls@[k as int]@);
                            let below = match ls[k].u64_at("id") {
                                Some(id) => id < keep,
                                None => false,
                            };
                            if below {
                                k = k + 1;
                            } else {
                                more = false;
                            }
                        }
                        assert(head_below(lv, keep as nat, 0) == k);
                        if k > 0 {
                            let head = copy_head(ls, k);
                            let e2 = swap_lines(e, head);
                            proof {
                                lemma_items_push(out@, e2);
                            }
                            out.push(e2);
                        }
                        done = k < ls.len();
                    },
                    None => {},
                }
            } else {
                let e2 = e.copy();
                proof {
                    lemma_items_push(out@, e2);
                }
                out.push(e2);
            }
        }
        i = i + 1;
    }
    out
}

/// What a session holds after the first `n` events of its journal: going back cuts,
/// everything else is added.
pub open spec fn content(events: Seq<JsonV>, n: int) -> Seq<JsonV>
    decreases n,
{
    if n <= 0 {
        Seq::empty()
    } else {
        let prev = content(events, n - 1);
        let e = events[n - 1];
        if kind_of(e) == Some("rewind"@) {
            match e.natural_at("keep"@) {
                Some(k) => cut_before(prev, k),
                None => prev,
            }
        } else {
            prev.push(e)
        }
    }
}

/// What a session holds, by its journal.
pub fn truncate_events(events: &Vec<Json>) -> (r: Vec<Json>)
    ensures
        json::items_v(r@) == content(json::items_v(events@), events@.len() as int),
{
    let ghost ev = json::items_v(events@);
    proof {
        json::lemma_items(events@);
    }
    let mut out: Vec<Json> = Vec::new();
    let mut i: usize = 0;
    assert(json::items_v(out@) =~= Seq::empty());
    while i < events.len()
        invariant
            i <= events@.len(),
            ev == json::items_v(events@),
            ev.len() == events@.len(),
            forall|k: int| 0 <= k < events@.len() ==> #[trigger] ev[k] == events@[k]@,
            json::items_v(out@) == content(ev, i as int),
        decreases events@.len() - i,
    {
        let e = &events[i];
        assert(ev[i as int] == e@);
        let back = match e.str_at("type") {
            Some(s) => str_eq(s, "rewind"),
            None => false,
        };
        if back {
            match e.u64_at("keep") {
                Some(k) => {
                    out = cut_before_line(&out, k);
                },
                None => {},
            }
        } else {
            let e2 = e.copy();
            proof {
                lemma_items_push(out@, e2);
            }
            out.push(e2);
        }
        i = i + 1;
    }
    out
}

/// The number of the last line of the first `n` that begins with a prefix, where
/// there is one that has a number.
pub open spec fn last_named(v: Seq<JsonV>, prefix: Seq<char>, n: int) -> Option<nat>
    decreases n,
{
    if n <= 0 {
        None
    } else {
        match v[n - 1].text_at("line"@) {
            Some(s) => if text::starts(s, prefix) {
                row_id(v[n - 1])
            } else {
                last_named(v, prefix, n - 1)
            },
            None => last_named(v, prefix, n - 1),
        }
    }
}

/// The number of the last line that begins with a prefix.
pub fn find_line_id(events: &Vec<Json>, prefix: &str) -> (r: Option<u64>)
    ensures
        ({
            let v = all_rows(json::items_v(events@));
            match r {
                Some(i) => last_named(v, prefix@, v.len() as int) == Some(i as nat),
                None => last_named(v, prefix@, v.len() as int) is None,
            }
        }),
{
    let all = rows_of(events);
    let ghost v = all_rows(json::items_v(events@));
    assert(v.len() == all@.len());
    let mut n: usize = all.len();
    while n > 0
        invariant
            n <= all@.len(),
            v == refs_of(all@),
            v.len() == all@.len(),
            v == all_rows(json::items_v(events@)),
            last_named(v, prefix@, v.len() as int) == last_named(v, prefix@, n as int),
        decreases n,
    {
        let l = all[n - 1];
        assert(v[n - 1] == all@[n - 1]@);
        let here = match l.str_at("line") {
            Some(s) => starts_with(s, prefix),
            None => false,
        };
        if here {
            return l.u64_at("id");
        }
        n = n - 1;
    }
    None
}

/// Whether an event is part of what was said and done, not of how the session is
/// set up.
pub open spec fn counts(e: JsonV) -> bool {
    match kind_of(e) {
        Some(k) => if k == "config"@ || k == "rewind"@ {
            false
        } else if k == "transcript"@ {
            match e.array_at("lines"@) {
                Some(ls) => ls.len() > 0,
                None => false,
            }
        } else {
            true
        },
        None => false,
    }
}

/// Whether a session has begun: then its agents stay as they are.
pub fn session_started(events: &Vec<Json>) -> (r: bool)
    ensures
        r == exists|k: int| 0 <= k < events@.len() && counts(#[trigger] json::items_v(events@)[k]),
{
    let ghost ev = json::items_v(events@);
    proof {
        json::lemma_items(events@);
    }
    let mut i: usize = 0;
    while i < events.len()
        invariant
            i <= events@.len(),
            ev == json::items_v(events@),
            ev.len() == events@.len(),
            forall|k: int| 0 <= k < events@.len() ==> #[trigger] ev[k] == events@[k]@,
            forall|k: int| 0 <= k < i ==> !counts(#[trigger] ev[k]),
        decreases events@.len() - i,
    {
        let e = &events[i];
        assert(ev[i as int] == e@);
        let said = match e.str_at("type") {
            Some(k) => {
                if str_eq(k, "config") || str_eq(k, "rewind") {
                    false
                } else if str_eq(k, "transcript") {
                    match e.array_at("lines") {
                        Some(ls) => {
                            proof {
                                json::lemma_items(ls@);
                            }
                            ls.len() > 0
                        },
                        None => false,
                    }
                } else {
                    true
                }
            },
            None => false,
        };
        assert(said == counts(ev[i as int]));
        if said {
            return true;
        }
        i = i + 1;
    }
    false
}

/// Whether an event is kept: what passes while the session goes on is not.
pub open spec fn kept(e: EventV) -> bool {
    match e {
        EventV::Delta { .. } => false,
        EventV::ToolCall(_) => false,
        EventV::Decision { .. } => false,
        EventV::Working(_) => false,
        EventV::Idle => false,
        _ => true,
    }
}

pub open spec fn kept_below(v: Seq<EventV>, n: int) -> Seq<JsonV>
    decreases n,
{
    if n <= 0 {
        Seq::empty()
    } else if kept(v[n - 1]) {
        kept_below(v, n - 1).push(events::event_json(v[n - 1]))
    } else {
        kept_below(v, n - 1)
    }
}

/// What is added to the journal of events.
pub fn record_events(events: &Vec<SessionEvent>) -> (r: Vec<Json>)
    ensures
        json::items_v(r@) == kept_below(events::events_v(events@), events@.len() as int),
{
    let ghost ev = events::events_v(events@);
    let mut out: Vec<Json> = Vec::new();
    let mut i: usize = 0;
    assert(json::items_v(out@) =~= Seq::empty());
    while i < events.len()
        invariant
            i <= events@.len(),
            ev == events::events_v(events@),
            json::items_v(out@) == kept_below(ev, i as int),
        decreases events@.len() - i,
    {
        assert(ev[i as int] == events@[i as int]@);
        let passing = match &events[i] {
            SessionEvent::Delta { .. } => true,
            SessionEvent::ToolCall(_) => true,
            SessionEvent::Decision { .. } => true,
            SessionEvent::Working(_) => true,
            SessionEvent::Idle => true,
            _ => false,
        };
        if !passing {
            let j = events[i].to_json();
            proof {
                lemma_items_push(out@, j);
            }
            out.push(j);
        }
        i = i + 1;
    }
    out
}

/// What the user is told who goes back over calls of tools: what those did is not
/// undone.
pub open spec fn dropped_text(n: nat) -> Seq<char> {
    "[提示] 回档删掉了其后 "@ + text::decimal(n)
        + " 次工具执行——那些副作用不会回滚，继续可能会重新执行。"@
}

/// What the user is told who goes back, if anything.
pub fn dropped_note(before: &Vec<Json>, after: &Vec<Json>) -> (r: Option<String>)
    ensures
        ({
            let a = text::as_size(collab_state::tool_count(json::items_v(before@), before@.len() as int));
            let b = text::as_size(collab_state::tool_count(json::items_v(after@), after@.len() as int));
            text::opt_text(r) == if a > b {
                Some(dropped_text((a - b) as nat))
            } else {
                None
            }
        }),
{
    let a = tool_runs(before);
    let b = tool_runs(after);
    if a > b {
        Some(
            cat3(
                "[提示] 回档删掉了其后 ",
                dec_usize(a - b).as_str(),
                " 次工具执行——那些副作用不会回滚，继续可能会重新执行。",
            ),
        )
    } else {
        None
    }
}

// ---- what holds of every journal ----

/// Going back is cutting what the session holds: the journal itself only grows.
pub proof fn going_back_cuts(events: Seq<JsonV>, e: JsonV)
    requires
        kind_of(e) == Some("rewind"@),
        e.natural_at("keep"@) is Some,
    ensures
        content(events.push(e), events.len() as int + 1) == cut_before(
            content(events, events.len() as int),
            e.natural_at("keep"@)->0,
        ),
{
    lemma_content_prefix(events, e, events.len() as int);
}

proof fn lemma_content_prefix(events: Seq<JsonV>, e: JsonV, n: int)
    requires
        0 <= n <= events.len(),
    ensures
        content(events.push(e), n) == content(events, n),
    decreases n,
{
    if n > 0 {
        lemma_content_prefix(events, e, n - 1);
        assert(events.push(e)[n - 1] == events[n - 1]);
    }
}

/// Whether the lines are numbered by their places, as sessions number them.
pub open spec fn in_number_order(v: Seq<JsonV>) -> bool {
    forall|k: int| 0 <= k < v.len() ==> row_id(#[trigger] v[k]) == Some(k as nat)
}

proof fn lemma_member_at(o: Seq<(Seq<char>, JsonV)>, key: Seq<char>, i: int)
    requires
        0 <= i,
    ensures
        match member_at(o, key, i) {
            Some(k) => i <= k < o.len() && o[k].0 == key && json::member_from(o, key, i) == Some(o[k].1),
            None => json::member_from(o, key, i) is None,
        },
    decreases o.len() - i,
{
    if i < o.len() && o[i].0 != key {
        lemma_member_at(o, key, i + 1);
    }
}

proof fn lemma_swapped(
    o: Seq<(Seq<char>, JsonV)>,
    key: Seq<char>,
    v: JsonV,
    at: int,
    other: Seq<char>,
    i: int,
)
    requires
        0 <= i,
        0 <= at < o.len(),
        o[at].0 == key,
        i <= at ==> member_at(o, key, i) == Some(at),
    ensures
        other != key ==> json::member_from(o.update(at, (key, v)), other, i) == json::member_from(o, other, i),
        i <= at ==> json::member_from(o.update(at, (key, v)), key, i) == Some(v),
    decreases o.len() - i,
{
    let u = o.update(at, (key, v));
    if i < o.len() {
        if i < at {
            assert(o[i].0 != key);
            assert(u[i] == o[i]);
        }
        lemma_swapped(o, key, v, at, other, i + 1);
    }
}

proof fn lemma_with_lines(e: JsonV, ls: Seq<JsonV>)
    requires
        lines_in(e) is Some,
    ensures
        lines_in(with_lines(e, ls)) == Some(ls),
{
    reveal_strlit("type");
    reveal_strlit("lines");
    let o = e->Obj_0;
    lemma_member_at(o, "lines"@, 0);
    let at = member_at(o, "lines"@, 0)->0;
    assert("type"@.len() != "lines"@.len());
    lemma_swapped(o, "lines"@, JsonV::Arr(ls), at, "type"@, 0);
}

proof fn lemma_rows_push(events: Seq<JsonV>, e: JsonV)
    ensures
        all_rows(events.push(e)) == match lines_in(e) {
            Some(ls) => all_rows(events) + ls,
            None => all_rows(events),
        },
{
    lemma_rows_prefix(events, e, events.len() as int);
    assert(events.push(e)[events.len() as int] == e);
}

proof fn lemma_rows_prefix(events: Seq<JsonV>, e: JsonV, n: int)
    requires
        0 <= n <= events.len(),
    ensures
        rows(events.push(e), n) == rows(events, n),
    decreases n,
{
    if n > 0 {
        lemma_rows_prefix(events, e, n - 1);
        assert(events.push(e)[n - 1] == events[n - 1]);
    }
}

proof fn lemma_head_below(v: Seq<JsonV>, base: int, keep: nat, i: int)
    requires
        0 <= i <= v.len(),
        0 <= base,
        forall|k: int| 0 <= k < v.len() ==> row_id(#[trigger] v[k]) == Some((base + k) as nat),
        base + i <= keep || i == 0,
    ensures
        head_below(v, keep, i) == if keep >= base + v.len() {
            v.len() as int
        } else if keep >= base + i {
            keep - base
        } else {
            i
        },
    decreases v.len() - i,
{
    if i < v.len() {
        assert(row_id(v[i]) == Some((base + i) as nat));
        if base + i < keep {
            lemma_head_below(v, base, keep, i + 1);
        }
    }
}

proof fn lemma_rows_grow(events: Seq<JsonV>, n: int, m: int)
    requires
        0 <= n <= m <= events.len(),
    ensures
        rows(events, n).len() <= rows(events, m).len(),
        forall|k: int| 0 <= k < rows(events, n).len() ==> #[trigger] rows(events, n)[k] == rows(
            events,
            m,
        )[k],
    decreases m - n,
{
    if n < m {
        lemma_rows_grow(events, n, m - 1);
    }
}

proof fn lemma_cut(events: Seq<JsonV>, keep: nat, n: int)
    requires
        0 <= n <= events.len(),
        in_number_order(rows(events, n)),
    ensures
        ({
            let r = rows(events, n);
            let c = cut_to(events, keep, n);
            &&& all_rows(c.0) == r.take(
                if keep < r.len() {
                    keep as int
                } else {
                    r.len() as int
                },
            )
            &&& c.1 == (keep < r.len())
        }),
    decreases n,
{
    let r = rows(events, n);
    if n > 0 {
        let before = rows(events, n - 1);
        let e = events[n - 1];
        lemma_rows_grow(events, n - 1, n);
        assert(in_number_order(before)) by {
            assert forall|k: int| 0 <= k < before.len() implies row_id(#[trigger] before[k])
                == Some(k as nat) by {
                assert(before[k] == r[k]);
            }
        }
        lemma_cut(events, keep, n - 1);
        let prev = cut_to(events, keep, n - 1);
        if !prev.1 {
            if spoken(e) {
                match lines_in(e) {
                    Some(ls) => {
                        assert(r =~= before + ls);
                        assert forall|k: int| 0 <= k < ls.len() implies row_id(#[trigger] ls[k])
                            == Some((before.len() + k) as nat) by {
                            assert(r[before.len() + k] == ls[k]);
                        }
                        lemma_head_below(ls, before.len() as int, keep, 0);
                        let k = head_below(ls, keep, 0);
                        assert(before.take(before.len() as int) =~= before);
                        if k > 0 {
                            lemma_with_lines(e, ls.take(k));
                            lemma_rows_push(prev.0, with_lines(e, ls.take(k)));
                            assert(before + ls.take(k) =~= r.take(before.len() + k));
                        } else {
                            assert(r.take(before.len() as int) =~= before);
                        }
                    },
                    None => {
                        assert(r =~= before);
                    },
                }
            } else {
                lemma_rows_push(prev.0, e);
                assert(r =~= before);
            }
        } else {
            assert(r.take(keep as int) =~= before.take(keep as int));
        }
    } else {
        assert(all_rows(cut_to(events, keep, 0).0) =~= Seq::empty());
        assert(r.take(0) =~= Seq::empty());
    }
}

proof fn lemma_first_from(v: Seq<JsonV>, keep: nat, i: int)
    requires
        in_number_order(v),
        0 <= i <= v.len(),
        i <= keep || i == 0,
    ensures
        first_from(v, keep, i) == if keep < v.len() {
            keep as int
        } else {
            v.len() as int
        },
    decreases v.len() - i,
{
    if i < v.len() {
        assert(row_id(v[i]) == Some(i as nat));
        if i < keep {
            lemma_first_from(v, keep, i + 1);
        }
    }
}

/// The journal is cut where the session itself is: of lines numbered in order, those
/// stay that stay in the session, whole replies and nothing else.
pub proof fn the_journal_is_cut_like_the_session(events: Seq<JsonV>, keep: nat)
    requires
        in_number_order(all_rows(events)),
        all_rows(events).len() < u64::MAX,
    ensures
        all_rows(cut_before(events, keep)) == all_rows(events).take(
            session::whole_replies(row_replies(all_rows(events)), keep as int),
        ),
{
    let v = all_rows(events);
    let rs = row_replies(v);
    lemma_first_from(v, keep, 0);
    session::cuts_keep_replies_whole(rs, keep as int);
    let k = session::whole_replies(rs, keep as int);
    let idx = first_from(v, keep, 0);
    assert(session::whole_replies(rs, idx) == k);
    if k < v.len() {
        assert(row_id(v[k]) == Some(k as nat));
    }
    let a = aligned(events, keep);
    lemma_cut(events, a, events.len() as int);
    assert(v.take(v.len() as int) =~= v);
}

/// A journal in which nobody went back holds what was written, all of it.
pub proof fn without_going_back_all_is_kept(events: Seq<JsonV>, n: int)
    requires
        0 <= n <= events.len(),
        forall|k: int| 0 <= k < n ==> kind_of(#[trigger] events[k]) != Some("rewind"@),
    ensures
        content(events, n) == events.take(n),
    decreases n,
{
    if n > 0 {
        without_going_back_all_is_kept(events, n - 1);
        assert(events.take(n - 1).push(events[n - 1]) =~= events.take(n));
    } else {
        assert(events.take(0) =~= Seq::empty());
    }
}

/// The rows of a journal are the lines of what was said, in their order: those of two
/// parts are those of the first and then those of the second.
pub proof fn rows_come_in_order(a: Seq<JsonV>, b: Seq<JsonV>)
    ensures
        all_rows(a + b) == all_rows(a) + all_rows(b),
        a.len() == 1 && lines_in(a[0]) is Some ==> all_rows(a) == lines_in(a[0])->0,
        a.len() == 1 && lines_in(a[0]) is None ==> all_rows(a).len() == 0,
{
    lemma_rows_together(a, b, b.len() as int);
    assert((a + b).len() == a.len() + b.len());
    if a.len() == 1 {
        assert(rows(a, 0) =~= Seq::empty());
        if lines_in(a[0]) is Some {
            assert(rows(a, 1) =~= lines_in(a[0])->0);
        }
    }
}

proof fn lemma_rows_together(a: Seq<JsonV>, b: Seq<JsonV>, n: int)
    requires
        0 <= n <= b.len(),
    ensures
        rows(a + b, a.len() + n) == all_rows(a) + rows(b, n),
    decreases n,
{
    if n > 0 {
        lemma_rows_together(a, b, n - 1);
        assert((a + b)[a.len() + n - 1] == b[n - 1]);
        match lines_in(b[n - 1]) {
            Some(ls) => {
                assert(all_rows(a) + rows(b, n - 1) + ls =~= all_rows(a) + (rows(b, n - 1) + ls));
            },
            None => {},
        }
    } else {
        lemma_same_rows(a, a + b, a.len() as int);
        assert(all_rows(a) + Seq::<JsonV>::empty() =~= all_rows(a));
    }
}

proof fn lemma_same_rows(a: Seq<JsonV>, b: Seq<JsonV>, n: int)
    requires
        0 <= n <= a.len() <= b.len(),
        forall|k: int| 0 <= k < a.len() ==> #[trigger] a[k] == b[k],
    ensures
        rows(a, n) == rows(b, n),
    decreases n,
{
    if n > 0 {
        lemma_same_rows(a, b, n - 1);
        assert(a[n - 1] == b[n - 1]);
    }
}

/// What is written down is what stays true: not what was typed so far, who works or what
/// waits. What is written keeps its order.
pub proof fn what_passes_is_not_written(v: Seq<EventV>, w: EventV, n: int)
    requires
        n == v.len(),
    ensures
        w is Delta || w is ToolCall || w is Decision || w is Working || w is Idle ==> kept_below(v.push(w), n + 1)
            == kept_below(v, n),
        !(w is Delta || w is ToolCall || w is Decision || w is Working || w is Idle) ==> kept_below(
            v.push(w),
            n + 1,
        ) == kept_below(v, n).push(events::event_json(w)),
{
    lemma_same_kept(v, v.push(w), n);
}

proof fn lemma_same_kept(a: Seq<EventV>, b: Seq<EventV>, n: int)
    requires
        0 <= n <= a.len() <= b.len(),
        forall|k: int| 0 <= k < a.len() ==> #[trigger] a[k] == b[k],
    ensures
        kept_below(a, n) == kept_below(b, n),
    decreases n,
{
    if n > 0 {
        lemma_same_kept(a, b, n - 1);
        assert(a[n - 1] == b[n - 1]);
    }
}

/// A row belongs to the reply it names, its tool's where a tool ran; one that names none
/// is a reply of its own.
pub proof fn rows_belong_to_replies(l: LineV)
    requires
        l.tool is None,
    ensures
        row_id(events::line_json_v(l)) == Some(l.id as nat),
        l.reply != 0 ==> row_reply(events::line_json_v(l)) == l.reply,
        l.reply == 0 ==> row_reply(events::line_json_v(l)) == l.id,
{
    events::lines_tell_what_was_said(l);
}

/// What counts as a beginning is what was said or done: not how a session is set up, not
/// going back, and not lines that are none.
pub proof fn setting_up_is_no_beginning(e: EventV)
    ensures
        e matches EventV::Transcript(v) ==> (counts(events::event_json(e)) <==> v.len() > 0),
        e is Plan || e is Report || e is Ended || e is Notice ==> counts(events::event_json(e)),
{
    events::events_tell_what_happened(e);
    reveal_strlit("transcript");
    reveal_strlit("config");
    reveal_strlit("rewind");
    reveal_strlit("plan");
    reveal_strlit("report");
    reveal_strlit("ended");
    reveal_strlit("notice");
    assert("transcript"@.len() == 10);
    assert("config"@.len() == 6);
    assert("rewind"@.len() == 6);
    assert("plan"@.len() == 4);
    assert("report"@.len() == 6);
    assert("ended"@.len() == 5);
    assert("notice"@.len() == 6);
    assert("report"@[0] != "config"@[0]);
    assert("report"@[2] != "rewind"@[2]);
    assert("notice"@[0] != "config"@[0]);
    assert("notice"@[0] != "rewind"@[0]);
}

} // verus!
