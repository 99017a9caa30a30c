//! The board on which events are put up, and the list of jobs that can be stopped.
//! Any number of readers follow the board, each from where it got to.
use crate::events::{self, EventV, SessionEvent};
use crate::table::{self, Table};
use crate::text::str_eq;
use vstd::prelude::*;

verus! {

/// Whether a reply is shown as it comes, or when it is there.
#[derive(Debug, Clone, Copy, PartialEq, Eq, Structural)]
pub enum Output {
    Stream,
    Final,
}

/// What a step of a session gave: its events, and their number on the board.
#[derive(Debug)]
pub struct Advance {
    pub events: Vec<SessionEvent>,
    pub seq: u64,
}

/// Events of a session on the board, under their number.
#[derive(Debug)]
pub struct EventLine {
    pub seq: u64,
    pub sid: String,
    pub events: Vec<SessionEvent>,
}

#[verifier::ext_equal]
pub struct EventLineV {
    pub seq: u64,
    pub sid: Seq<char>,
    pub events: Seq<EventV>,
}

impl View for EventLine {
    type V = EventLineV;

    open spec fn view(&self) -> EventLineV {
        EventLineV { seq: self.seq, sid: self.sid@, events: events::events_v(self.events@) }
    }
}

/// How many lines the board may have.
pub const BUS_MAX: usize = 10_000;

/// How many lines stay when it has more.
pub const BUS_KEEP: usize = 5_000;

/// The board.
#[derive(Debug)]
pub struct EventBus {
    seq: u64,
    lines: Vec<EventLine>,
}

#[verifier::ext_equal]
pub struct BusV {
    /// The number of the last line that was put up.
    pub seq: u64,
    pub lines: Seq<EventLineV>,
}

pub open spec fn bus_lines_v(v: Seq<EventLine>) -> Seq<EventLineV> {
    v.map_values(|l: EventLine| l@)
}

impl View for EventBus {
    type V = BusV;

    closed spec fn view(&self) -> BusV {
        BusV { seq: self.seq, lines: bus_lines_v(self.lines@) }
    }
}

/// Whether the lines are numbered in order, and the last number is the board's.
pub open spec fn numbered_well(b: BusV) -> bool {
    &&& b.lines.len() <= BUS_MAX
    &&& forall|i: int, j: int|
        0 <= i < j < b.lines.len() ==> (#[trigger] b.lines[i]).seq < (#[trigger] b.lines[j]).seq
    &&& forall|i: int| 0 <= i < b.lines.len() ==> (#[trigger] b.lines[i]).seq <= b.seq
}

/// The lines that stay.
pub open spec fn staying(v: Seq<EventLineV>) -> Seq<EventLineV> {
    if v.len() > BUS_MAX {
        v.skip(v.len() - BUS_KEEP)
    } else {
        v
    }
}

/// The board with one more line.
pub open spec fn put_up(b: BusV, sid: Seq<char>, events: Seq<EventV>) -> BusV {
    let n = (b.seq + 1) as u64;
    BusV { seq: n, lines: staying(b.lines.push(EventLineV { seq: n, sid, events })) }
}

/// Whether a reader who got to `since` is shown a line.
pub open spec fn is_new(l: EventLineV, sid: Option<Seq<char>>, since: u64) -> bool {
    l.seq > since && (sid is None || sid == Some(l.sid))
}

/// What a reader who got to `since` is shown of the first `n` lines.
pub open spec fn new_below(v: Seq<EventLineV>, sid: Option<Seq<char>>, since: u64, n: int) -> Seq<
    EventLineV,
>
    decreases n,
{
    if n <= 0 {
        Seq::empty()
    } else if is_new(v[n - 1], sid, since) {
        new_below(v, sid, since, n - 1).push(v[n - 1])
    } else {
        new_below(v, sid, since, n - 1)
    }
}

/// What a reader who got to `since` is shown.
pub open spec fn shown(b: BusV, sid: Option<Seq<char>>, since: u64) -> Seq<EventLineV> {
    new_below(b.lines, sid, since, b.lines.len() as int)
}

pub open spec fn shown_v(v: Seq<&EventLine>) -> Seq<EventLineV> {
    v.map_values(|l: &EventLine| l@)
}

impl EventBus {
    pub fn new() -> (r: EventBus)
        ensures
            r@ == (BusV { seq: 0, lines: Seq::empty() }),
            numbered_well(r@),
    {
        let r = EventBus { seq: 0, lines: Vec::new() };
        assert(r@.lines =~= Seq::empty());
        r
    }

    /// Puts events up; their number comes back. Where the board gets too long the
    /// oldest lines go.
    pub fn push(&mut self, sid: &str, events: Vec<SessionEvent>) -> (r: u64)
        requires
            numbered_well(old(self)@),
            old(self)@.seq < u64::MAX,
        ensures
            final(self)@ == put_up(old(self)@, sid@, events::events_v(events@)),
            numbered_well(final(self)@),
            r == final(self)@.seq,
    {
        let ghost before = self@;
        let ghost ev = events::events_v(events@);
        self.seq = self.seq + 1;
        let ghost prev = self.lines@;
        self.lines.push(EventLine { seq: self.seq, sid: sid.to_owned(), events });
        proof {
            assert(bus_lines_v(self.lines@) =~= before.lines.push(
                EventLineV { seq: self.seq, sid: sid@, events: ev },
            ));
            assert(before.lines.len() == prev.len());
        }
        let n = self.lines.len();
        if n > BUS_MAX {
            let ghost all = self.lines@;
            self.lines = self.lines.split_off(n - BUS_KEEP);
            assert(bus_lines_v(self.lines@) =~= bus_lines_v(all).skip(n - BUS_KEEP));
        }
        assert(self@ =~= put_up(before, sid@, ev));
        self.seq
    }

    /// What a reader has not seen, of one session or of all, and how far the board
    /// goes: one who goes on from there misses nothing.
    pub fn snapshot(&self, sid: Option<&str>, since: u64) -> (r: (Vec<&EventLine>, u64))
        ensures
            shown_v(r.0@) == shown(
                self@,
                match sid {
                    Some(s) => Some(s@),
                    None => None,
                },
                since,
            ),
            r.1 == self@.seq,
    {
        let ghost sv = match sid {
            Some(s) => Some(s@),
            None => None,
        };
        let ghost lv = bus_lines_v(self.lines@);
        let mut out: Vec<&EventLine> = Vec::new();
        let mut i: usize = 0;
        assert(shown_v(out@) =~= Seq::empty());
        while i < self.lines.len()
            invariant
                i <= self.lines@.len(),
                lv == bus_lines_v(self.lines@),
                sv == (match sid {
                    Some(s) => Some(s@),
                    None => None,
                }),
                shown_v(out@) == new_below(lv, sv, since, i as int),
            decreases self.lines@.len() - i,
        {
            let l = &self.lines[i];
            assert(lv[i as int] == l@);
            let wanted = match sid {
                Some(s) => str_eq(l.sid.as_str(), s),
                None => true,
            };
            if l.seq > since && wanted {
                let ghost prev = out@;
                out.push(l);
                assert(shown_v(out@) =~= shown_v(prev).push(l@));
            }
            i = i + 1;
        }
        (out, self.seq)
    }
}

// ---- jobs ----

/// The jobs at work, and which of them are to stop. Stopping needs nothing of the
/// session, so it works while the session does.
#[derive(Debug)]
pub struct JobRegistry {
    /// For each job whether it is to stop.
    pub running: Table<bool>,
}

impl JobRegistry {
    pub fn new() -> (r: JobRegistry)
        ensures
            r.running@ == Seq::<(Seq<char>, bool)>::empty(),
    {
        JobRegistry { running: Table::new() }
    }

    /// A job begins; nobody wants it to stop yet.
    pub fn register(&mut self, sid: &str)
        ensures
            final(self).running@ == table::inserted(old(self).running@, sid@, false),
    {
        self.running.insert(sid.to_owned(), false);
    }

    /// A job ends.
    pub fn unregister(&mut self, sid: &str)
        ensures
            final(self).running@ == table::removed(old(self).running@, sid@),
    {
        self.running.remove(sid);
    }

    /// Wants a job to stop; whether there is one.
    pub fn stop(&mut self, sid: &str) -> (r: bool)
        ensures
            r == (table::lookup(old(self).running@, sid@) is Some),
            final(self).running@ == if r {
                table::inserted(old(self).running@, sid@, true)
            } else {
                old(self).running@
            },
    {
        if !self.running.contains_key(sid) {
            return false;
        }
        self.running.insert(sid.to_owned(), true);
        true
    }

    pub fn is_running(&self, sid: &str) -> (r: bool)
        ensures
            r == (table::lookup(self.running@, sid@) is Some),
    {
        self.running.contains_key(sid)
    }

    /// Whether a job is to stop.
    pub fn cancelled(&self, sid: &str) -> (r: bool)
        ensures
            r == (table::lookup(self.running@, sid@) == Some(true)),
    {
        match self.running.get(sid) {
            Some(b) => *b,
            None => false,
        }
    }
}

// ---- what holds of every board ----

proof fn lemma_same_prefix(a: Seq<EventLineV>, b: Seq<EventLineV>, sid: Option<Seq<char>>, since: u64, n: int)
    requires
        0 <= n <= a.len(),
        n <= b.len(),
        forall|i: int| 0 <= i < n ==> #[trigger] a[i] == b[i],
    ensures
        new_below(a, sid, since, n) == new_below(b, sid, since, n),
    decreases n,
{
    if n > 0 {
        lemma_same_prefix(a, b, sid, since, n - 1);
        assert(a[n - 1] == b[n - 1]);
    }
}

proof fn lemma_nothing_new(v: Seq<EventLineV>, sid: Option<Seq<char>>, since: u64, n: int)
    requires
        0 <= n <= v.len(),
        forall|i: int| 0 <= i < n ==> (#[trigger] v[i]).seq <= since,
    ensures
        new_below(v, sid, since, n) == Seq::<EventLineV>::empty(),
    decreases n,
{
    if n > 0 {
        lemma_nothing_new(v, sid, since, n - 1);
        assert(!is_new(v[n - 1], sid, since));
    }
}

/// A reader who goes on from where the board goes misses nothing: there is nothing
/// more for it now, and what is put up next is the first it is shown.
pub proof fn readers_miss_nothing(b: BusV, sid: Seq<char>, events: Seq<EventV>)
    requires
        numbered_well(b),
        b.seq < u64::MAX,
    ensures
        shown(b, None, b.seq) == Seq::<EventLineV>::empty(),
        shown(put_up(b, sid, events), None, b.seq) == seq![
            EventLineV { seq: (b.seq + 1) as u64, sid, events },
        ],
        shown(put_up(b, sid, events), Some(sid), b.seq) == seq![
            EventLineV { seq: (b.seq + 1) as u64, sid, events },
        ],
{
    lemma_nothing_new(b.lines, None, b.seq, b.lines.len() as int);
    let line = EventLineV { seq: (b.seq + 1) as u64, sid, events };
    let all = b.lines.push(line);
    let now = put_up(b, sid, events);
    let n = now.lines.len() as int;
    let off = if all.len() > BUS_MAX {
        all.len() - BUS_KEEP
    } else {
        0
    };
    assert forall|i: int| 0 <= i < n - 1 implies (#[trigger] now.lines[i]).seq <= b.seq by {
        assert(now.lines[i] == b.lines[i + off]);
    }
    assert(now.lines[n - 1] == line);
    lemma_nothing_new(now.lines, None, b.seq, n - 1);
    lemma_nothing_new(now.lines, Some(sid), b.seq, n - 1);
    assert(shown(now, None, b.seq) =~= seq![line]);
    assert(shown(now, Some(sid), b.seq) =~= seq![line]);
}

/// As long as the board is not too long, what a reader was to be shown it still is,
/// in the same order, and the new line behind it.
pub proof fn new_lines_come_last(
    b: BusV,
    sid: Seq<char>,
    events: Seq<EventV>,
    reader: Option<Seq<char>>,
    since: u64,
)
    requires
        numbered_well(b),
        b.seq < u64::MAX,
        b.lines.len() < BUS_MAX,
        since <= b.seq,
        reader is None || reader == Some(sid),
    ensures
        shown(put_up(b, sid, events), reader, since) == shown(b, reader, since).push(
            EventLineV { seq: (b.seq + 1) as u64, sid, events },
        ),
{
    let now = put_up(b, sid, events);
    lemma_same_prefix(b.lines, now.lines, reader, since, b.lines.len() as int);
}

/// A stop is for one job: it is told, and no other is.
pub proof fn stops_are_for_one(t: Seq<(Seq<char>, bool)>, sid: Seq<char>, other: Seq<char>)
    requires
        table::ascending(t),
        other != sid,
    ensures
        table::lookup(table::inserted(t, sid, true), sid) == Some(true),
        table::lookup(table::inserted(t, sid, true), other) == table::lookup(t, other),
        table::lookup(table::inserted(t, sid, false), sid) == Some(false),
{
    table::inserting(t, sid, true);
    table::inserting(t, sid, false);
}

/// Readers see exactly what came after what they know, of the session they ask for or of
/// all.
pub proof fn readers_see_what_is_new(b: BusV, sid: Option<Seq<char>>, since: u64, l: EventLineV)
    ensures
        shown(b, sid, since).contains(l) <==> l.seq > since && (sid matches Some(s) ==> l.sid == s) && exists|
            k: int,
        |
            0 <= k < b.lines.len() && #[trigger] b.lines[k] == l,
{
    lemma_shown(b.lines, sid, since, b.lines.len() as int, l);
}

proof fn lemma_shown(v: Seq<EventLineV>, sid: Option<Seq<char>>, since: u64, n: int, l: EventLineV)
    requires
        0 <= n <= v.len(),
    ensures
        new_below(v, sid, since, n).contains(l) <==> l.seq > since && (sid matches Some(s) ==> l.sid == s)
            && exists|k: int| 0 <= k < n && #[trigger] v[k] == l,
    decreases n,
{
    if n > 0 {
        lemma_shown(v, sid, since, n - 1, l);
        let p = new_below(v, sid, since, n - 1);
        let h = new_below(v, sid, since, n);
        if h.contains(l) {
            let k = choose|k: int| 0 <= k < h.len() && h[k] == l;
            if k < p.len() {
                assert(p[k] == l);
            } else {
                assert(v[n - 1] == l);
            }
        }
        if p.contains(l) {
            let k = choose|k: int| 0 <= k < p.len() && p[k] == l;
            assert(h[k] == l);
        }
        if is_new(l, sid, since) && v[n - 1] == l {
            assert(h[p.len() as int] == l);
        }
    }
}

} // verus!
