//! Tables keyed by text, listed in the order of their keys, and lists kept in order.
use crate::text::{self, has_text, str_before, str_eq};
use vstd::prelude::*;

verus! {

/// A table from texts to values. Its entries are listed in ascending order of
/// the keys, each key once.
#[derive(Debug)]
pub struct Table<V> {
    pub entries: Vec<(String, V)>,
}

impl<V> View for Table<V> {
    type V = Seq<(Seq<char>, V)>;

    open spec fn view(&self) -> Seq<(Seq<char>, V)> {
        self.entries@.map_values(|e: (String, V)| (e.0@, e.1))
    }
}

/// Whether the keys ascend.
pub open spec fn ascending<V>(t: Seq<(Seq<char>, V)>) -> bool {
    forall|i: int, j: int|
        0 <= i < j < t.len() ==> text::before((#[trigger] t[i]).0, (#[trigger] t[j]).0)
}

/// The position of the first entry from `i` on with a key.
pub open spec fn slot_from<V>(t: Seq<(Seq<char>, V)>, key: Seq<char>, i: int) -> Option<int>
    decreases t.len() - i,
{
    if i < 0 || i >= t.len() {
        None
    } else if t[i].0 == key {
        Some(i)
    } else {
        slot_from(t, key, i + 1)
    }
}

pub open spec fn slot<V>(t: Seq<(Seq<char>, V)>, key: Seq<char>) -> Option<int> {
    slot_from(t, key, 0)
}

/// What the table holds for a key.
pub open spec fn lookup<V>(t: Seq<(Seq<char>, V)>, key: Seq<char>) -> Option<V> {
    match slot(t, key) {
        Some(i) => Some(t[i].1),
        None => None,
    }
}

/// Where a new key belongs: before the first greater one from `i` on.
pub open spec fn gap_from<V>(t: Seq<(Seq<char>, V)>, key: Seq<char>, i: int) -> int
    decreases t.len() - i,
{
    if i < 0 || i >= t.len() {
        t.len() as int
    } else if text::before(key, t[i].0) {
        i
    } else {
        gap_from(t, key, i + 1)
    }
}

/// The table with `value` for `key`.
pub open spec fn inserted<V>(t: Seq<(Seq<char>, V)>, key: Seq<char>, value: V) -> Seq<
    (Seq<char>, V),
> {
    match slot(t, key) {
        Some(i) => t.update(i, (key, value)),
        None => t.insert(gap_from(t, key, 0), (key, value)),
    }
}

/// The table without `key`.
pub open spec fn removed<V>(t: Seq<(Seq<char>, V)>, key: Seq<char>) -> Seq<(Seq<char>, V)> {
    match slot(t, key) {
        Some(i) => t.remove(i),
        None => t,
    }
}

pub proof fn lemma_slot<V>(t: Seq<(Seq<char>, V)>, key: Seq<char>, i: int)
    requires
        0 <= i,
    ensures
        match slot_from(t, key, i) {
            Some(j) => i <= j < t.len() && t[j].0 == key && forall|k: int|
                i <= k < j ==> (#[trigger] t[k]).0 != key,
            None => forall|k: int| i <= k < t.len() ==> (#[trigger] t[k]).0 != key,
        },
    decreases t.len() - i,
{
    if i < t.len() && t[i].0 != key {
        lemma_slot(t, key, i + 1);
    }
}

pub proof fn lemma_gap<V>(t: Seq<(Seq<char>, V)>, key: Seq<char>, i: int)
    requires
        0 <= i <= t.len(),
    ensures
        i <= gap_from(t, key, i) <= t.len(),
        forall|k: int| i <= k < gap_from(t, key, i) ==> !text::before(key, (#[trigger] t[k]).0),
        gap_from(t, key, i) < t.len() ==> text::before(key, t[gap_from(t, key, i)].0),
    decreases t.len() - i,
{
    if i < t.len() && !text::before(key, t[i].0) {
        lemma_gap(t, key, i + 1);
    }
}

pub proof fn lemma_slot_is<V>(t: Seq<(Seq<char>, V)>, key: Seq<char>, i: int)
    requires
        0 <= i < t.len(),
        t[i].0 == key,
        ascending(t),
    ensures
        slot(t, key) == Some(i),
{
    lemma_slot(t, key, 0);
    let j = slot(t, key)->0;
    text::lemma_before_irreflexive(key);
    if j < i {
        assert(text::before(t[j].0, t[i].0));
    }
}

/// A key has the same place in any two tables with the same keys.
pub proof fn lemma_same_keys<V, W>(a: Seq<(Seq<char>, V)>, b: Seq<(Seq<char>, W)>, key: Seq<char>, i: int)
    requires
        a.len() == b.len(),
        forall|k: int| 0 <= k < a.len() ==> (#[trigger] a[k]).0 == (#[trigger] b[k]).0,
    ensures
        slot_from(a, key, i) == slot_from(b, key, i),
    decreases a.len() - i,
{
    if 0 <= i < a.len() {
        assert(a[i].0 == b[i].0);
        lemma_same_keys(a, b, key, i + 1);
    }
}

/// Inserting keeps the keys ascending, gives the value for its key and leaves
/// every other key as it was.
pub proof fn inserting<V>(t: Seq<(Seq<char>, V)>, key: Seq<char>, value: V)
    requires
        ascending(t),
    ensures
        ascending(inserted(t, key, value)),
        lookup(inserted(t, key, value), key) == Some(value),
        forall|k: Seq<char>|
            k != key ==> #[trigger] lookup(inserted(t, key, value), k) == lookup(t, k),
{
    let r = inserted(t, key, value);
    lemma_slot(t, key, 0);
    lemma_gap(t, key, 0);
    let g = match slot(t, key) {
        Some(i) => i,
        None => gap_from(t, key, 0),
    };
    assert forall|i: int, j: int| 0 <= i < j < r.len() implies text::before(
        (#[trigger] r[i]).0,
        (#[trigger] r[j]).0,
    ) by {
        if slot(t, key) is None {
            if i < g && j == g {
                text::lemma_before_total(t[i].0, key);
            } else if i == g {
                if g < t.len() && j - 1 > g {
                    assert(text::before(t[g].0, t[j - 1].0));
                    text::lemma_before_transitive(key, t[g].0, t[j - 1].0);
                }
            } else if i < g && j > g {
                assert(text::before(t[i].0, t[j - 1].0));
            } else if i > g {
                assert(text::before(t[i - 1].0, t[j - 1].0));
            }
        }
    }
    assert(r[g].0 == key);
    lemma_slot_is(r, key, g);
    assert forall|k: Seq<char>| k != key implies #[trigger] lookup(r, k) == lookup(t, k) by {
        lemma_slot(t, k, 0);
        lemma_slot(r, k, 0);
        match slot(t, k) {
            Some(i) => {
                let at = if slot(t, key) is None && i >= g {
                    i + 1
                } else {
                    i
                };
                assert(r[at] == t[i]);
                lemma_slot_is(r, k, at);
            },
            None => {
                if slot(r, k) is Some {
                    let p = slot(r, k)->0;
                    if slot(t, key) is None && p > g {
                        assert(r[p] == t[p - 1]);
                    } else {
                        assert(p != g);
                        assert(r[p] == t[p]);
                    }
                }
            },
        }
    }
}

/// Removing keeps the keys ascending, leaves nothing for the key and every
/// other key as it was.
pub proof fn removing<V>(t: Seq<(Seq<char>, V)>, key: Seq<char>)
    requires
        ascending(t),
    ensures
        ascending(removed(t, key)),
        lookup(removed(t, key), key) is None,
        forall|k: Seq<char>| k != key ==> #[trigger] lookup(removed(t, key), k) == lookup(t, k),
{
    let r = removed(t, key);
    lemma_slot(t, key, 0);
    lemma_slot(r, key, 0);
    if slot(t, key) is Some {
        let g = slot(t, key)->0;
        assert forall|i: int, j: int| 0 <= i < j < r.len() implies text::before(
            (#[trigger] r[i]).0,
            (#[trigger] r[j]).0,
        ) by {
            let a = if i < g {
                i
            } else {
                i + 1
            };
            let b = if j < g {
                j
            } else {
                j + 1
            };
            assert(r[i] == t[a]);
            assert(r[j] == t[b]);
        }
        if slot(r, key) is Some {
            let p = slot(r, key)->0;
            let a = if p < g {
                p
            } else {
                p + 1
            };
            assert(r[p] == t[a]);
            lemma_slot_is(t, key, a);
        }
        assert forall|k: Seq<char>| k != key implies #[trigger] lookup(r, k) == lookup(t, k) by {
            lemma_slot(t, k, 0);
            lemma_slot(r, k, 0);
            match slot(t, k) {
                Some(i) => {
                    let at = if i < g {
                        i
                    } else {
                        i - 1
                    };
                    assert(r[at] == t[i]);
                    lemma_slot_is(r, k, at);
                },
                None => {
                    if slot(r, k) is Some {
                        let p = slot(r, k)->0;
                        let a = if p < g {
                            p
                        } else {
                            p + 1
                        };
                        assert(r[p] == t[a]);
                    }
                },
            }
        }
    }
}

impl<V> Table<V> {
    pub fn new() -> (t: Table<V>)
        ensures
            t@ == Seq::<(Seq<char>, V)>::empty(),
            t.entries@.len() == 0,
    {
        let t = Table { entries: Vec::new() };
        assert(t@ =~= Seq::<(Seq<char>, V)>::empty());
        t
    }

    pub fn len(&self) -> (n: usize)
        ensures
            n == self@.len(),
    {
        self.entries.len()
    }

    pub fn key_at(&self, i: usize) -> (k: &str)
        requires
            i < self@.len(),
        ensures
            k@ == self@[i as int].0,
    {
        self.entries[i].0.as_str()
    }

    pub fn value_at(&self, i: usize) -> (v: &V)
        requires
            i < self@.len(),
        ensures
            *v == self@[i as int].1,
    {
        &self.entries[i].1
    }

    pub fn slot_of(&self, key: &str) -> (r: Option<usize>)
        ensures
            match r {
                Some(i) => slot(self@, key@) == Some(i as int) && i < self@.len(),
                None => slot(self@, key@) is None,
            },
    {
        let mut i: usize = 0;
        while i < self.entries.len()
            invariant
                i <= self.entries@.len(),
                slot(self@, key@) == slot_from(self@, key@, i as int),
            decreases self.entries@.len() - i,
        {
            assert(self@[i as int].0 == self.entries@[i as int].0@);
            if str_eq(self.entries[i].0.as_str(), key) {
                return Some(i);
            }
            i = i + 1;
        }
        None
    }

    pub fn get(&self, key: &str) -> (r: Option<&V>)
        ensures
            match r {
                Some(v) => lookup(self@, key@) == Some(*v),
                None => lookup(self@, key@) is None,
            },
    {
        match self.slot_of(key) {
            Some(i) => Some(&self.entries[i].1),
            None => None,
        }
    }

    pub fn contains_key(&self, key: &str) -> (r: bool)
        ensures
            r == (lookup(self@, key@) is Some),
    {
        match self.slot_of(key) {
            Some(_) => true,
            None => false,
        }
    }

    /// Puts a value for a key in the place of the one there was, if any.
    pub fn insert(&mut self, key: String, value: V)
        ensures
            final(self)@ == inserted(old(self)@, key@, value),
    {
        let ghost t = self@;
        match self.slot_of(key.as_str()) {
            Some(i) => {
                self.entries.set(i, (key, value));
                assert(self@ =~= t.update(i as int, (key@, value)));
            },
            None => {
                let mut i: usize = 0;
                while i < self.entries.len() && !str_before(
                    key.as_str(),
                    self.entries[i].0.as_str(),
                )
                    invariant
                        i <= self.entries@.len(),
                        t == self@,
                        gap_from(t, key@, 0) == gap_from(t, key@, i as int),
                    decreases self.entries@.len() - i,
                {
                    assert(t[i as int].0 == self.entries@[i as int].0@);
                    i = i + 1;
                }
                proof {
                    if i < self.entries@.len() {
                        assert(t[i as int].0 == self.entries@[i as int].0@);
                    }
                }
                self.entries.insert(i, (key, value));
                assert(self@ =~= t.insert(i as int, (key@, value)));
            },
        }
    }

    /// Takes out what there is for a key.
    pub fn take(&mut self, key: &str) -> (r: Option<V>)
        ensures
            final(self)@ == removed(old(self)@, key@),
            r == lookup(old(self)@, key@),
    {
        let ghost t = self@;
        match self.slot_of(key) {
            Some(i) => {
                let e = self.entries.remove(i);
                assert(self@ =~= t.remove(i as int));
                Some(e.1)
            },
            None => None,
        }
    }

    /// Takes a key out; whether it was there.
    pub fn remove(&mut self, key: &str) -> (r: bool)
        ensures
            final(self)@ == removed(old(self)@, key@),
            r == (lookup(old(self)@, key@) is Some),
    {
        let ghost t = self@;
        match self.slot_of(key) {
            Some(i) => {
                self.entries.remove(i);
                assert(self@ =~= t.remove(i as int));
                true
            },
            None => false,
        }
    }
}

/// The entries of a table by what their values stand for.
pub open spec fn entries_v<V: View>(t: Seq<(Seq<char>, V)>) -> Seq<(Seq<char>, V::V)> {
    t.map_values(|e: (Seq<char>, V)| (e.0, e.1@))
}

/// Looking up, inserting and removing go by what the values stand for.
pub proof fn lemma_entries<V: View>(t: Seq<(Seq<char>, V)>, key: Seq<char>, v: V)
    ensures
        entries_v(inserted(t, key, v)) == inserted(entries_v(t), key, v@),
        entries_v(removed(t, key)) == removed(entries_v(t), key),
        lookup(entries_v(t), key) == (match lookup(t, key) {
            Some(x) => Some(x@),
            None => None,
        }),
{
    let u = entries_v(t);
    let f = |x: V| x@;
    assert(u =~= t.map_values(|e: (Seq<char>, V)| (e.0, f(e.1))));
    lemma_map_inserted(t, u, f, key, v);
    assert(entries_v(inserted(t, key, v)) =~= inserted(t, key, v).map_values(
        |e: (Seq<char>, V)| (e.0, f(e.1)),
    ));
    lemma_same_keys(t, u, key, 0);
    lemma_slot(t, key, 0);
    assert(entries_v(removed(t, key)) =~= removed(u, key));
}

/// The keys of a mapped table are the same, so it is inserted into alike.
pub proof fn lemma_map_inserted<V, W>(
    t: Seq<(Seq<char>, V)>,
    u: Seq<(Seq<char>, W)>,
    f: spec_fn(V) -> W,
    key: Seq<char>,
    v: V,
)
    requires
        u == t.map_values(|e: (Seq<char>, V)| (e.0, f(e.1))),
    ensures
        inserted(t, key, v).map_values(|e: (Seq<char>, V)| (e.0, f(e.1))) == inserted(u, key, f(v)),
        lookup(u, key) == (match lookup(t, key) {
            Some(x) => Some(f(x)),
            None => None,
        }),
{
    lemma_same_keys(t, u, key, 0);
    lemma_slot(t, key, 0);
    lemma_same_gap(t, u, key, 0);
    lemma_gap(t, key, 0);
    assert(inserted(t, key, v).map_values(|e: (Seq<char>, V)| (e.0, f(e.1))) =~= inserted(
        u,
        key,
        f(v),
    ));
}

proof fn lemma_same_gap<V, W>(
    a: Seq<(Seq<char>, V)>,
    b: Seq<(Seq<char>, W)>,
    key: Seq<char>,
    i: int,
)
    requires
        a.len() == b.len(),
        forall|k: int| 0 <= k < a.len() ==> (#[trigger] a[k]).0 == (#[trigger] b[k]).0,
    ensures
        gap_from(a, key, i) == gap_from(b, key, i),
    decreases a.len() - i,
{
    if 0 <= i < a.len() {
        assert(a[i].0 == b[i].0);
        lemma_same_gap(a, b, key, i + 1);
    }
}

// ---- tables of texts ----

pub open spec fn text_entries(t: Seq<(Seq<char>, String)>) -> Seq<(Seq<char>, Seq<char>)> {
    t.map_values(|e: (Seq<char>, String)| (e.0, e.1@))
}

/// Puts a text for a key.
pub fn put_text(t: &mut Table<String>, key: &str, value: String)
    ensures
        text_entries(final(t)@) == inserted(text_entries(old(t)@), key@, value@),
{
    let ghost f = |s: String| s@;
    let ghost before = t@;
    proof {
        assert(text_entries(before) =~= before.map_values(|e: (Seq<char>, String)| (e.0, f(e.1))));
        lemma_map_inserted(before, text_entries(before), f, key@, value);
    }
    t.insert(key.to_owned(), value);
    assert(text_entries(t@) =~= inserted(before, key@, value).map_values(
        |e: (Seq<char>, String)| (e.0, f(e.1)),
    ));
}

/// The text for a key.
pub fn get_text<'a>(t: &'a Table<String>, key: &str) -> (r: Option<&'a str>)
    ensures
        match r {
            Some(s) => lookup(text_entries(t@), key@) == Some(s@),
            None => lookup(text_entries(t@), key@) is None,
        },
{
    let ghost f = |s: String| s@;
    let ghost before = t@;
    proof {
        assert(text_entries(before) =~= before.map_values(|e: (Seq<char>, String)| (e.0, f(e.1))));
        lemma_map_inserted(before, text_entries(before), f, key@, before[0].1);
    }
    match t.get(key) {
        Some(s) => Some(s.as_str()),
        None => None,
    }
}

// ---- ordered lists ----

/// A text at its place among ordered ones, unless it is there.
pub open spec fn with_text(v: Seq<Seq<char>>, x: Seq<char>) -> Seq<Seq<char>> {
    if v.contains(x) {
        v
    } else {
        v.insert(text_gap(v, x, 0), x)
    }
}

/// The first position from `i` on whose text comes after `x`.
pub open spec fn text_gap(v: Seq<Seq<char>>, x: Seq<char>, i: int) -> int
    decreases v.len() - i,
{
    if i < 0 || i >= v.len() {
        v.len() as int
    } else if text::before(x, v[i]) {
        i
    } else {
        text_gap(v, x, i + 1)
    }
}

/// The texts in ascending order, each once.
pub open spec fn sorted_unique(v: Seq<Seq<char>>) -> Seq<Seq<char>>
    decreases v.len(),
{
    if v.len() == 0 {
        Seq::empty()
    } else {
        with_text(sorted_unique(v.drop_last()), v.last())
    }
}

pub fn sort_unique(v: &Vec<String>) -> (r: Vec<String>)
    ensures
        text::texts(r@) == sorted_unique(text::texts(v@)),
{
    let ghost vv = text::texts(v@);
    let mut r: Vec<String> = Vec::new();
    let mut i: usize = 0;
    assert(text::texts(r@) =~= sorted_unique(vv.take(0)));
    while i < v.len()
        invariant
            i <= v@.len(),
            vv == text::texts(v@),
            text::texts(r@) == sorted_unique(vv.take(i as int)),
        decreases v@.len() - i,
    {
        proof {
            assert(vv.take(i + 1).drop_last() =~= vv.take(i as int));
            assert(vv.take(i + 1).last() == v@[i as int]@);
        }
        let x = v[i].as_str();
        if !has_text(&r, x) {
            let ghost rv = text::texts(r@);
            let mut k: usize = 0;
            while k < r.len() && !str_before(x, r[k].as_str())
                invariant
                    k <= r@.len(),
                    rv == text::texts(r@),
                    text_gap(rv, x@, 0) == text_gap(rv, x@, k as int),
                decreases r@.len() - k,
            {
                assert(rv[k as int] == r@[k as int]@);
                k = k + 1;
            }
            proof {
                if k < r@.len() {
                    assert(rv[k as int] == r@[k as int]@);
                }
            }
            r.insert(k, v[i].clone());
            assert(text::texts(r@) =~= rv.insert(k as int, x@));
        }
        i = i + 1;
    }
    assert(vv.take(vv.len() as int) =~= vv);
    r
}

/// Sorting keeps exactly the texts there are and puts them in ascending order.
pub proof fn sorting(v: Seq<Seq<char>>)
    ensures
        forall|x: Seq<char>| sorted_unique(v).contains(x) <==> v.contains(x),
        forall|i: int, j: int|
            0 <= i < j < sorted_unique(v).len() ==> text::before(
                #[trigger] sorted_unique(v)[i],
                #[trigger] sorted_unique(v)[j],
            ),
    decreases v.len(),
{
    if v.len() > 0 {
        let w = v.drop_last();
        let x = v.last();
        sorting(w);
        let p = sorted_unique(w);
        let s = sorted_unique(v);
        let g = text_gap(p, x, 0);
        lemma_text_gap(p, x, 0);
        if !p.contains(x) {
            lemma_insert_contains(p, g, x);
        }
        assert forall|y: Seq<char>| s.contains(y) implies v.contains(y) by {
            if y == x {
                assert(v[v.len() - 1] == y);
            } else {
                assert(w.contains(y));
                let k = choose|k: int| 0 <= k < w.len() && w[k] == y;
                assert(v[k] == y);
            }
        }
        assert forall|y: Seq<char>| v.contains(y) implies s.contains(y) by {
            let k = choose|k: int| 0 <= k < v.len() && v[k] == y;
            if k < v.len() - 1 {
                assert(w[k] == y);
                assert(w.contains(y));
            }
        }
        assert forall|i: int, j: int| 0 <= i < j < s.len() implies text::before(
            #[trigger] s[i],
            #[trigger] s[j],
        ) by {
            if !p.contains(x) {
                if i < g && j == g {
                    assert(s[i] == p[i]);
                    text::lemma_before_total(p[i], x);
                    assert(p.contains(p[i]));
                } else if i == g {
                    assert(s[j] == p[j - 1]);
                    if j - 1 > g {
                        assert(text::before(p[g], p[j - 1]));
                        text::lemma_before_transitive(x, p[g], p[j - 1]);
                    }
                } else if i < g && j < g {
                    assert(text::before(p[i], p[j]));
                } else if i < g {
                    assert(text::before(p[i], p[j - 1]));
                } else {
                    assert(text::before(p[i - 1], p[j - 1]));
                }
            }
        }
    }
}

proof fn lemma_text_gap(v: Seq<Seq<char>>, x: Seq<char>, i: int)
    requires
        0 <= i <= v.len(),
    ensures
        i <= text_gap(v, x, i) <= v.len(),
        forall|k: int| i <= k < text_gap(v, x, i) ==> !text::before(x, #[trigger] v[k]),
        text_gap(v, x, i) < v.len() ==> text::before(x, v[text_gap(v, x, i)]),
    decreases v.len() - i,
{
    if i < v.len() && !text::before(x, v[i]) {
        lemma_text_gap(v, x, i + 1);
    }
}

/// Whether one list of texts comes before another: text by text, a prefix first.
pub open spec fn list_before(a: Seq<Seq<char>>, b: Seq<Seq<char>>) -> bool
    decreases a.len(),
{
    if b.len() == 0 {
        false
    } else if a.len() == 0 {
        true
    } else if a[0] != b[0] {
        text::before(a[0], b[0])
    } else {
        list_before(a.drop_first(), b.drop_first())
    }
}

pub proof fn lemma_list_irreflexive(a: Seq<Seq<char>>)
    ensures
        !list_before(a, a),
    decreases a.len(),
{
    if a.len() > 0 {
        lemma_list_irreflexive(a.drop_first());
    }
}

pub proof fn lemma_list_transitive(a: Seq<Seq<char>>, b: Seq<Seq<char>>, c: Seq<Seq<char>>)
    requires
        list_before(a, b),
        list_before(b, c),
    ensures
        list_before(a, c),
    decreases a.len(),
{
    if a.len() > 0 {
        if a[0] == b[0] && b[0] == c[0] {
            lemma_list_transitive(a.drop_first(), b.drop_first(), c.drop_first());
        } else if a[0] != b[0] && b[0] != c[0] {
            text::lemma_before_transitive(a[0], b[0], c[0]);
            text::lemma_before_irreflexive(a[0]);
            if a[0] == c[0] {
                text::lemma_before_transitive(a[0], b[0], a[0]);
            }
        }
    }
}

pub proof fn lemma_list_total(a: Seq<Seq<char>>, b: Seq<Seq<char>>)
    ensures
        a == b || list_before(a, b) || list_before(b, a),
    decreases a.len(),
{
    if a.len() == 0 || b.len() == 0 {
        if a.len() == 0 && b.len() == 0 {
            assert(a =~= b);
        }
    } else if a[0] == b[0] {
        lemma_list_total(a.drop_first(), b.drop_first());
        if a.drop_first() == b.drop_first() {
            assert(a =~= seq![a[0]] + a.drop_first());
            assert(b =~= seq![b[0]] + b.drop_first());
        }
    } else {
        text::lemma_before_total(a[0], b[0]);
    }
}

pub fn lists_before(a: &Vec<String>, b: &Vec<String>) -> (r: bool)
    ensures
        r == list_before(text::texts(a@), text::texts(b@)),
{
    let ghost x = text::texts(a@);
    let ghost y = text::texts(b@);
    let mut i: usize = 0;
    assert(x.skip(0) =~= x);
    assert(y.skip(0) =~= y);
    loop
        invariant
            i <= a@.len(),
            i <= b@.len(),
            x == text::texts(a@),
            y == text::texts(b@),
            list_before(x.skip(i as int), y.skip(i as int)) == list_before(x, y),
        decreases a@.len() - i,
    {
        if i >= b.len() {
            return false;
        }
        if i >= a.len() {
            return true;
        }
        assert(x.skip(i as int)[0] == a@[i as int]@);
        assert(y.skip(i as int)[0] == b@[i as int]@);
        if !str_eq(a[i].as_str(), b[i].as_str()) {
            return str_before(a[i].as_str(), b[i].as_str());
        }
        assert(x.skip(i as int).drop_first() =~= x.skip(i + 1));
        assert(y.skip(i as int).drop_first() =~= y.skip(i + 1));
        i = i + 1;
    }
}

/// An insertion adds the inserted item and nothing else.
pub proof fn lemma_insert_contains<T>(s: Seq<T>, i: int, x: T)
    requires
        0 <= i <= s.len(),
    ensures
        forall|y: T| s.insert(i, x).contains(y) <==> s.contains(y) || y == x,
{
    let r = s.insert(i, x);
    assert(r[i] == x);
    assert forall|y: T| s.contains(y) implies r.contains(y) by {
        let k = choose|k: int| 0 <= k < s.len() && s[k] == y;
        if k < i {
            assert(r[k] == y);
        } else {
            assert(r[k + 1] == y);
        }
    }
    assert forall|y: T| r.contains(y) && y != x implies s.contains(y) by {
        let k = choose|k: int| 0 <= k < r.len() && r[k] == y;
        if k < i {
            assert(s[k] == y);
        } else {
            assert(s[k - 1] == y);
        }
    }
}

/// Something with a place in an order: the list of texts it is ordered by.
pub trait Ranked {
    spec fn rank_v(&self) -> Seq<Seq<char>>;

    fn rank(&self) -> (r: Vec<String>)
        ensures
            text::texts(r@) == self.rank_v(),
    ;
}

/// Whether a list is in strictly ascending order.
pub open spec fn in_order<T: Ranked>(v: Seq<T>) -> bool {
    forall|i: int, j: int|
        0 <= i < j < v.len() ==> list_before(
            (#[trigger] v[i]).rank_v(),
            (#[trigger] v[j]).rank_v(),
        )
}

/// The ranks of a list.
pub open spec fn ranks<T: Ranked>(v: Seq<T>) -> Seq<Seq<Seq<char>>> {
    v.map_values(|x: T| x.rank_v())
}

/// Puts an item at its place in an ordered list, unless one of the same rank is there.
pub fn add_ordered<T: Ranked>(v: &mut Vec<T>, x: T)
    requires
        in_order(old(v)@),
    ensures
        in_order(final(v)@),
        ranks(old(v)@).contains(x.rank_v()) ==> final(v)@ == old(v)@,
        !ranks(old(v)@).contains(x.rank_v()) ==> exists|i: int|
            0 <= i <= old(v)@.len() && #[trigger] old(v)@.insert(i, x) == final(v)@,
        forall|k: Seq<Seq<char>>|
            ranks(final(v)@).contains(k) <==> ranks(old(v)@).contains(k) || k == x.rank_v(),
{
    let r = x.rank();
    let ghost xr = x.rank_v();
    let ghost start = v@;
    let mut i: usize = 0;
    while i < v.len()
        invariant
            i <= v@.len(),
            v@ == start,
            in_order(start),
            xr == x.rank_v(),
            text::texts(r@) == xr,
            forall|k: int| 0 <= k < i ==> list_before((#[trigger] start[k]).rank_v(), xr),
        ensures
            i < start.len() ==> list_before(xr, start[i as int].rank_v()),
        decreases v@.len() - i,
    {
        let q = v[i].rank();
        if lists_before(&r, &q) {
            break;
        }
        if !lists_before(&q, &r) {
            proof {
                lemma_list_total(text::texts(q@), xr);
                assert(ranks(start)[i as int] == xr);
            }
            return ;
        }
        i = i + 1;
    }
    proof {
        assert forall|k: int| i <= k < start.len() implies list_before(
            xr,
            (#[trigger] start[k]).rank_v(),
        ) by {
            if k > i {
                assert(list_before(start[i as int].rank_v(), start[k].rank_v()));
                lemma_list_transitive(xr, start[i as int].rank_v(), start[k].rank_v());
            }
        }
        assert forall|k: int| 0 <= k < start.len() implies #[trigger] ranks(start)[k] != xr by {
            lemma_list_irreflexive(xr);
            assert(ranks(start)[k] == start[k].rank_v());
        }
    }
    v.insert(i, x);
    proof {
        let e = v@;
        assert(e =~= start.insert(i as int, x));
        assert(ranks(e) =~= ranks(start).insert(i as int, xr));
        lemma_insert_contains(ranks(start), i as int, xr);
        assert(forall|k: Seq<Seq<char>>|
            ranks(e).contains(k) <==> ranks(start).contains(k) || k == xr);
        assert forall|a: int, b: int| 0 <= a < b < e.len() implies list_before(
            (#[trigger] e[a]).rank_v(),
            (#[trigger] e[b]).rank_v(),
        ) by {
            let p = if a < i {
                a
            } else {
                a - 1
            };
            let q = if b < i {
                b
            } else {
                b - 1
            };
            if a != i {
                assert(e[a] == start[p]);
            }
            if b != i {
                assert(e[b] == start[q]);
            }
        }
    }
}

/// Two lists of ranks, both in strictly ascending order, that hold the same are the
/// same.
pub proof fn lemma_same_order(a: Seq<Seq<Seq<char>>>, b: Seq<Seq<Seq<char>>>)
    requires
        forall|i: int, j: int|
            0 <= i < j < a.len() ==> list_before(#[trigger] a[i], #[trigger] a[j]),
        forall|i: int, j: int|
            0 <= i < j < b.len() ==> list_before(#[trigger] b[i], #[trigger] b[j]),
        forall|x: Seq<Seq<char>>| #[trigger] a.contains(x) <==> b.contains(x),
    ensures
        a == b,
    decreases a.len(),
{
    if a.len() == 0 {
        if b.len() > 0 {
            assert(b.contains(b[0]));
            assert(a.contains(b[0]));
        }
        assert(a =~= b);
    } else {
        let x = a.last();
        assert(a.contains(x));
        assert(b.contains(x));
        let y = b.last();
        assert(b.contains(y));
        assert(a.contains(y));
        lemma_list_irreflexive(x);
        if x != y {
            let k = choose|k: int| 0 <= k < b.len() && b[k] == x;
            let m = choose|m: int| 0 <= m < a.len() && a[m] == y;
            assert(list_before(b[k], b[b.len() - 1]));
            assert(list_before(a[m], a[a.len() - 1]));
            lemma_list_transitive(x, y, x);
        }
        let p = a.drop_last();
        let q = b.drop_last();
        assert forall|z: Seq<Seq<char>>| #[trigger] p.contains(z) implies q.contains(z) by {
            let i = choose|i: int| 0 <= i < p.len() && p[i] == z;
            assert(a[i] == z);
            assert(a.contains(z));
            assert(list_before(a[i], a[a.len() - 1]));
            let j = choose|j: int| 0 <= j < b.len() && b[j] == z;
            assert(z != x);
            assert(q[j] == z);
        }
        assert forall|z: Seq<Seq<char>>| q.contains(z) implies #[trigger] p.contains(z) by {
            let i = choose|i: int| 0 <= i < q.len() && q[i] == z;
            assert(b[i] == z);
            assert(b.contains(z));
            assert(a.contains(z));
            assert(list_before(b[i], b[b.len() - 1]));
            let j = choose|j: int| 0 <= j < a.len() && a[j] == z;
            assert(z != x);
            assert(p[j] == z);
        }
        lemma_same_order(p, q);
        assert(a =~= p.push(x));
        assert(b =~= q.push(y));
    }
}

/// Two tables that give the same for every key are the same.
pub proof fn lemma_same_table<V>(t: Seq<(Seq<char>, V)>, u: Seq<(Seq<char>, V)>)
    requires
        ascending(t),
        ascending(u),
        forall|key: Seq<char>| #[trigger] lookup(t, key) == lookup(u, key),
    ensures
        t == u,
{
    let a = t.map_values(|e: (Seq<char>, V)| seq![e.0]);
    let b = u.map_values(|e: (Seq<char>, V)| seq![e.0]);
    lemma_keys_ascend(t);
    lemma_keys_ascend(u);
    lemma_keys_within(t, u);
    lemma_keys_within(u, t);
    lemma_same_order(a, b);
    assert(t.len() == u.len());
    assert forall|i: int| 0 <= i < t.len() implies t[i] == u[i] by {
        assert(a[i][0] == b[i][0]);
        lemma_slot_is(t, t[i].0, i);
        lemma_slot_is(u, u[i].0, i);
        assert(lookup(t, t[i].0) == lookup(u, t[i].0));
    }
    assert(t =~= u);
}

proof fn lemma_keys_ascend<V>(t: Seq<(Seq<char>, V)>)
    requires
        ascending(t),
    ensures
        ({
            let a = t.map_values(|e: (Seq<char>, V)| seq![e.0]);
            forall|i: int, j: int|
                0 <= i < j < a.len() ==> list_before(#[trigger] a[i], #[trigger] a[j])
        }),
{
    let a = t.map_values(|e: (Seq<char>, V)| seq![e.0]);
    assert forall|i: int, j: int| 0 <= i < j < a.len() implies list_before(
        #[trigger] a[i],
        #[trigger] a[j],
    ) by {
        assert(text::before(t[i].0, t[j].0));
        text::lemma_before_irreflexive(t[i].0);
        assert(a[i][0] == t[i].0 && a[j][0] == t[j].0);
    }
}

proof fn lemma_keys_within<V>(t: Seq<(Seq<char>, V)>, u: Seq<(Seq<char>, V)>)
    requires
        ascending(t),
        forall|key: Seq<char>| #[trigger] lookup(t, key) == lookup(u, key),
    ensures
        ({
            let a = t.map_values(|e: (Seq<char>, V)| seq![e.0]);
            let b = u.map_values(|e: (Seq<char>, V)| seq![e.0]);
            forall|x: Seq<Seq<char>>| #[trigger] a.contains(x) ==> b.contains(x)
        }),
{
    let a = t.map_values(|e: (Seq<char>, V)| seq![e.0]);
    let b = u.map_values(|e: (Seq<char>, V)| seq![e.0]);
    assert forall|x: Seq<Seq<char>>| #[trigger] a.contains(x) implies b.contains(x) by {
        let i = choose|i: int| 0 <= i < a.len() && a[i] == x;
        let key = t[i].0;
        lemma_slot_is(t, key, i);
        assert(lookup(t, key) == lookup(u, key));
        lemma_slot(u, key, 0);
        let j = slot(u, key)->0;
        assert(b[j] =~= x);
    }
}

} // verus!
