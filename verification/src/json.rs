//! JSON values as the library holds them, and the two calls into `serde_json`
//! that read and print them.
use crate::text::{self, str_before, str_eq};
use vstd::prelude::*;

verus! {

/// A JSON number: the integer it is, if it is one; the encoding of the double
/// nearest to it; and its text.
#[derive(Debug, PartialEq, Eq)]
pub struct Num {
    pub whole: Option<i128>,
    pub bits: u64,
    pub text: String,
}

pub struct NumV {
    pub whole: Option<int>,
    pub bits: u64,
    pub text: Seq<char>,
}

impl View for Num {
    type V = NumV;

    open spec fn view(&self) -> NumV {
        NumV {
            whole: match self.whole {
                Some(n) => Some(n as int),
                None => None,
            },
            bits: self.bits,
            text: self.text@,
        }
    }
}

/// A JSON value. An object lists its members in order of their keys.
#[derive(Debug, PartialEq, Eq)]
pub enum Json {
    Null,
    Bool(bool),
    Num(Num),
    Str(String),
    Arr(Vec<Json>),
    Obj(Vec<(String, Json)>),
}

#[verifier::ext_equal]
pub enum JsonV {
    Null,
    Bool(bool),
    Num(NumV),
    Str(Seq<char>),
    Arr(Seq<JsonV>),
    Obj(Seq<(Seq<char>, JsonV)>),
}

pub open spec fn value_v(j: Json) -> JsonV
    decreases j,
{
    match j {
        Json::Null => JsonV::Null,
        Json::Bool(b) => JsonV::Bool(b),
        Json::Num(n) => JsonV::Num(n@),
        Json::Str(s) => JsonV::Str(s@),
        Json::Arr(a) => JsonV::Arr(items_v(a@)),
        Json::Obj(o) => JsonV::Obj(members_v(o@)),
    }
}

pub open spec fn items_v(s: Seq<Json>) -> Seq<JsonV>
    decreases s,
{
    if s.len() == 0 {
        Seq::empty()
    } else {
        items_v(s.drop_last()).push(value_v(s.last()))
    }
}

pub open spec fn members_v(s: Seq<(String, Json)>) -> Seq<(Seq<char>, JsonV)>
    decreases s,
{
    if s.len() == 0 {
        Seq::empty()
    } else {
        members_v(s.drop_last()).push((s.last().0@, value_v(s.last().1)))
    }
}

impl View for Json {
    type V = JsonV;

    open spec fn view(&self) -> JsonV {
        value_v(*self)
    }
}

pub proof fn lemma_items(s: Seq<Json>)
    ensures
        items_v(s).len() == s.len(),
        forall|i: int| 0 <= i < s.len() ==> #[trigger] items_v(s)[i] == s[i]@,
    decreases s.len(),
{
    if s.len() > 0 {
        lemma_items(s.drop_last());
        assert forall|i: int| 0 <= i < s.len() implies #[trigger] items_v(s)[i] == s[i]@ by {
            if i < s.len() - 1 {
                assert(items_v(s)[i] == items_v(s.drop_last())[i]);
            }
        }
    }
}

pub proof fn lemma_members(s: Seq<(String, Json)>)
    ensures
        members_v(s).len() == s.len(),
        forall|i: int|
            0 <= i < s.len() ==> #[trigger] members_v(s)[i] == (s[i].0@, s[i].1@),
    decreases s.len(),
{
    if s.len() > 0 {
        lemma_members(s.drop_last());
        assert forall|i: int| 0 <= i < s.len() implies #[trigger] members_v(s)[i] == (
            s[i].0@,
            s[i].1@,
        ) by {
            if i < s.len() - 1 {
                assert(members_v(s)[i] == members_v(s.drop_last())[i]);
            }
        }
    }
}

// ---- reading values ----

/// The first member named `key` among those from `i` on.
pub open spec fn member_from(o: Seq<(Seq<char>, JsonV)>, key: Seq<char>, i: int) -> Option<JsonV>
    decreases o.len() - i,
{
    if i < 0 || i >= o.len() {
        None
    } else if o[i].0 == key {
        Some(o[i].1)
    } else {
        member_from(o, key, i + 1)
    }
}

impl JsonV {
    /// The member of an object, `None` where there is none or no object.
    pub open spec fn get(self, key: Seq<char>) -> Option<JsonV> {
        match self {
            JsonV::Obj(o) => member_from(o, key, 0),
            _ => None,
        }
    }

    pub open spec fn text(self) -> Option<Seq<char>> {
        match self {
            JsonV::Str(s) => Some(s),
            _ => None,
        }
    }

    /// The number as a natural number below 2^64, if it is one.
    pub open spec fn natural(self) -> Option<nat> {
        match self {
            JsonV::Num(n) => match n.whole {
                Some(w) => if 0 <= w <= u64::MAX {
                    Some(w as nat)
                } else {
                    None
                },
                None => None,
            },
            _ => None,
        }
    }

    pub open spec fn array(self) -> Option<Seq<JsonV>> {
        match self {
            JsonV::Arr(a) => Some(a),
            _ => None,
        }
    }

    pub open spec fn boolean(self) -> Option<bool> {
        match self {
            JsonV::Bool(b) => Some(b),
            _ => None,
        }
    }

    /// The text of a member that is a string.
    pub open spec fn text_at(self, key: Seq<char>) -> Option<Seq<char>> {
        match self.get(key) {
            Some(v) => v.text(),
            None => None,
        }
    }

    /// The text of a member that is a string, empty where there is none.
    pub open spec fn text_or_empty(self, key: Seq<char>) -> Seq<char> {
        match self.text_at(key) {
            Some(s) => s,
            None => Seq::empty(),
        }
    }

    /// The items of a member that is an array.
    pub open spec fn array_at(self, key: Seq<char>) -> Option<Seq<JsonV>> {
        match self.get(key) {
            Some(v) => v.array(),
            None => None,
        }
    }

    pub open spec fn flag_at(self, key: Seq<char>) -> bool {
        match self.get(key) {
            Some(v) => v.boolean() == Some(true),
            None => false,
        }
    }

    pub open spec fn natural_at(self, key: Seq<char>) -> Option<nat> {
        match self.get(key) {
            Some(v) => v.natural(),
            None => None,
        }
    }
}

impl Json {
    pub fn get(&self, key: &str) -> (r: Option<&Json>)
        ensures
            match r {
                Some(v) => self@.get(key@) == Some(v@),
                None => self@.get(key@) is None,
            },
    {
        match self {
            Json::Obj(o) => {
                let mut i: usize = 0;
                let ghost ov = members_v(o@);
                proof {
                    lemma_members(o@);
                }
                while i < o.len()
                    invariant
                        i <= o@.len(),
                        *self == Json::Obj(*o),
                        ov == members_v(o@),
                        ov.len() == o@.len(),
                        forall|k: int|
                            0 <= k < o@.len() ==> #[trigger] ov[k] == (o@[k].0@, o@[k].1@),
                        member_from(ov, key@, 0) == member_from(ov, key@, i as int),
                    decreases o@.len() - i,
                {
                    assert(ov[i as int] == (o@[i as int].0@, o@[i as int].1@));
                    if str_eq(o[i].0.as_str(), key) {
                        return Some(&o[i].1);
                    }
                    i = i + 1;
                }
                None
            },
            _ => None,
        }
    }

    pub fn as_str(&self) -> (r: Option<&str>)
        ensures
            match r {
                Some(s) => self@.text() == Some(s@),
                None => self@.text() is None,
            },
    {
        match self {
            Json::Str(s) => Some(s.as_str()),
            _ => None,
        }
    }

    pub fn as_u64(&self) -> (r: Option<u64>)
        ensures
            match r {
                Some(n) => self@.natural() == Some(n as nat),
                None => self@.natural() is None,
            },
    {
        match self {
            Json::Num(n) => match n.whole {
                Some(w) => if 0 <= w && w <= 0xffff_ffff_ffff_ffff {
                    Some(w as u64)
                } else {
                    None
                },
                None => None,
            },
            _ => None,
        }
    }

    pub fn as_array(&self) -> (r: Option<&Vec<Json>>)
        ensures
            match r {
                Some(a) => self@.array() == Some(items_v(a@)),
                None => self@.array() is None,
            },
    {
        match self {
            Json::Arr(a) => Some(a),
            _ => None,
        }
    }

    pub fn as_bool(&self) -> (r: Option<bool>)
        ensures
            r == self@.boolean(),
    {
        match self {
            Json::Bool(b) => Some(*b),
            _ => None,
        }
    }

    /// The text of a member that is a string.
    pub fn str_at(&self, key: &str) -> (r: Option<&str>)
        ensures
            match r {
                Some(s) => self@.text_at(key@) == Some(s@),
                None => self@.text_at(key@) is None,
            },
    {
        match self.get(key) {
            Some(v) => v.as_str(),
            None => None,
        }
    }

    /// The text of a member that is a string, empty where there is none.
    pub fn str_or_empty(&self, key: &str) -> (r: String)
        ensures
            r@ == self@.text_or_empty(key@),
    {
        match self.str_at(key) {
            Some(s) => s.to_owned(),
            None => String::new(),
        }
    }

    pub fn array_at(&self, key: &str) -> (r: Option<&Vec<Json>>)
        ensures
            match r {
                Some(a) => self@.array_at(key@) == Some(items_v(a@)),
                None => self@.array_at(key@) is None,
            },
    {
        match self.get(key) {
            Some(v) => v.as_array(),
            None => None,
        }
    }

    pub fn u64_at(&self, key: &str) -> (r: Option<u64>)
        ensures
            match r {
                Some(n) => self@.natural_at(key@) == Some(n as nat),
                None => self@.natural_at(key@) is None,
            },
    {
        match self.get(key) {
            Some(v) => v.as_u64(),
            None => None,
        }
    }

    /// Whether a member is there and true.
    pub fn bool_at(&self, key: &str) -> (r: bool)
        ensures
            r == self@.flag_at(key@),
    {
        match self.get(key) {
            Some(v) => match v.as_bool() {
                Some(b) => b,
                None => false,
            },
            None => false,
        }
    }

    /// A copy of the value.
    pub fn copy(&self) -> (r: Json)
        ensures
            r@ == self@,
        decreases self,
    {
        match self {
            Json::Null => Json::Null,
            Json::Bool(b) => Json::Bool(*b),
            Json::Num(n) => Json::Num(copy_num(n)),
            Json::Str(s) => Json::Str(s.clone()),
            Json::Arr(a) => {
                let mut r: Vec<Json> = Vec::new();
                let mut i: usize = 0;
                assert(items_v(r@) == items_v(a@.take(0))) by {
                    assert(a@.take(0) =~= Seq::<Json>::empty());
                    assert(r@ =~= Seq::<Json>::empty());
                }
                while i < a.len()
                    invariant
                        i <= a@.len(),
                        *self == Json::Arr(*a),
                        items_v(r@) == items_v(a@.take(i as int)),
                    decreases a@.len() - i,
                {
                    let ghost prev = r@;
                    assert(decreases_to!(*self => self->Arr_0));
                    assert(decreases_to!(*a => a@));
                    assert(decreases_to!(a@ => a@[i as int]));
                    let x = a[i].copy();
                    r.push(x);
                    proof {
                        assert(r@.drop_last() =~= prev);
                        assert(a@.take(i + 1).drop_last() =~= a@.take(i as int));
                    }
                    i = i + 1;
                }
                assert(a@.take(a@.len() as int) =~= a@);
                Json::Arr(r)
            },
            Json::Obj(o) => {
                let mut r: Vec<(String, Json)> = Vec::new();
                let mut i: usize = 0;
                assert(members_v(r@) == members_v(o@.take(0))) by {
                    assert(o@.take(0) =~= Seq::<(String, Json)>::empty());
                    assert(r@ =~= Seq::<(String, Json)>::empty());
                }
                while i < o.len()
                    invariant
                        i <= o@.len(),
                        *self == Json::Obj(*o),
                        members_v(r@) == members_v(o@.take(i as int)),
                    decreases o@.len() - i,
                {
                    let ghost prev = r@;
                    let k = o[i].0.clone();
                    assert(decreases_to!(*self => self->Obj_0));
                    assert(decreases_to!(*o => o@));
                    assert(decreases_to!(o@ => o@[i as int]));
                    assert(decreases_to!(o@[i as int] => o@[i as int].1));
                    let x = o[i].1.copy();
                    r.push((k, x));
                    proof {
                        assert(r@.drop_last() =~= prev);
                        assert(o@.take(i + 1).drop_last() =~= o@.take(i as int));
                    }
                    i = i + 1;
                }
                assert(o@.take(o@.len() as int) =~= o@);
                Json::Obj(r)
            },
        }
    }
}

pub fn copy_num(n: &Num) -> (r: Num)
    ensures
        r == *n,
{
    Num { whole: n.whole, bits: n.bits, text: n.text.clone() }
}

// ---- numbers ----

/// Where a double stands in the order of the doubles, from its encoding; both
/// zeros stand at 0.
pub open spec fn double_order(bits: u64) -> int {
    if bits < 0x8000_0000_0000_0000 {
        bits as int
    } else {
        0x8000_0000_0000_0000 - bits
    }
}

/// Whether the first number is less than the second.
pub fn less(a: u64, b: u64) -> (r: bool)
    ensures
        r == (double_order(a) < double_order(b)),
{
    let x: i128 = if a < 0x8000_0000_0000_0000 {
        a as i128
    } else {
        0x8000_0000_0000_0000 - a as i128
    };
    let y: i128 = if b < 0x8000_0000_0000_0000 {
        b as i128
    } else {
        0x8000_0000_0000_0000 - b as i128
    };
    x < y
}

/// An integer in decimal, with its sign where it is negative.
pub open spec fn integer_text(n: int) -> Seq<char> {
    if n < 0 {
        "-"@ + text::decimal((-n) as nat)
    } else {
        text::decimal(n as nat)
    }
}

/// The encoding of the double that `serde_json::Number::as_f64` gives for an integer.
pub uninterp spec fn double_of(n: int) -> u64;

/// The number `serde_json::Number::from_i128` makes of an integer: it is that
/// integer, prints in decimal, and has the nearest double.
#[verifier::external_body]
pub(crate) fn number(n: i128) -> (r: Num)
    requires
        i64::MIN <= n <= u64::MAX,
    ensures
        r.whole == Some(n),
        r.bits == double_of(n as int),
        r.text@ == integer_text(n as int),
{
    let m = serde_json::Number::from_i128(n).unwrap();
    Num {
        whole: m.as_i128(),
        bits: m.as_f64().unwrap_or_default().to_bits(),
        text: m.to_string(),
    }
}

/// The value of an integer.
pub open spec fn int_v(n: int) -> JsonV {
    JsonV::Num(NumV { whole: Some(n), bits: double_of(n), text: integer_text(n) })
}

pub fn int_json(n: u64) -> (r: Json)
    ensures
        r@ == int_v(n as int),
{
    Json::Num(number(n as i128))
}

// ---- the calls into serde_json ----

#[verifier::external_type_specification]
#[verifier::external_body]
pub struct ExValue(serde_json::Value);

/// The value that `serde_json` holds, as the library holds it: one variant for
/// each of its variants.
#[verifier::external_body]
fn from_value(v: serde_json::Value) -> (r: Json) {
    match v {
        serde_json::Value::Null => Json::Null,
        serde_json::Value::Bool(b) => Json::Bool(b),
        serde_json::Value::Number(n) => {
            let bits = n.as_f64().unwrap_or_default().to_bits();
            Json::Num(Num { whole: n.as_i128(), bits, text: n.to_string() })
        },
        serde_json::Value::String(s) => Json::Str(s),
        serde_json::Value::Array(a) => Json::Arr(a.into_iter().map(from_value).collect()),
        serde_json::Value::Object(o) => Json::Obj(
            o.into_iter().map(|m| (m.0, from_value(m.1))).collect(),
        ),
    }
}

/// The value as `serde_json` holds it; a number is made of its integer, or else of
/// the double nearest to its text.
#[verifier::external_body]
fn to_value(v: &Json) -> (r: serde_json::Value) {
    match v {
        Json::Null => serde_json::Value::Null,
        Json::Bool(b) => serde_json::Value::Bool(*b),
        Json::Num(n) => match n.whole {
            Some(w) => serde_json::Number::from_i128(w),
            None => n.text.parse().ok().and_then(serde_json::Number::from_f64),
        }
        .map_or(serde_json::Value::Null, serde_json::Value::Number),
        Json::Str(s) => serde_json::Value::String(s.clone()),
        Json::Arr(a) => serde_json::Value::Array(a.iter().map(to_value).collect()),
        Json::Obj(o) => serde_json::Value::Object(
            o.iter().map(|m| (m.0.clone(), to_value(&m.1))).collect(),
        ),
    }
}

/// What `serde_json::from_str` makes of a text: a value, or the text of its error.
pub uninterp spec fn json_of(text: Seq<char>) -> Result<JsonV, Seq<char>>;

/// `serde_json::from_str`: the value that a text writes, or the error's text.
/// Which it is depends on the text alone.
#[verifier::external_body]
pub(crate) fn parse_json(text: &str) -> (r: Result<Json, String>)
    ensures
        match r {
            Ok(v) => json_of(text@) == Ok::<JsonV, Seq<char>>(v@),
            Err(e) => json_of(text@) == Err::<JsonV, Seq<char>>(e@),
        },
{
    match serde_json::from_str::<serde_json::Value>(text) {
        Ok(v) => Ok(from_value(v)),
        Err(e) => Err(e.to_string()),
    }
}

/// What `serde_json::Value`'s compact printing gives for a value.
pub uninterp spec fn json_text(v: JsonV) -> Seq<char>;

/// The compact text that `serde_json::Value::to_string` gives; it depends on the
/// value alone.
#[verifier::external_body]
pub(crate) fn print_json(v: &Json) -> (r: String)
    ensures
        r@ == json_text(v@),
{
    to_value(v).to_string()
}

// ---- building objects ----

pub fn text_json(s: &str) -> (r: Json)
    ensures
        r@ == JsonV::Str(s@),
{
    Json::Str(s.to_owned())
}

/// Adds a member behind the ones there are.
pub fn put(o: &mut Vec<(String, Json)>, key: &str, v: Json)
    ensures
        members_v(final(o)@) == members_v(old(o)@).push((key@, v@)),
{
    let ghost prev = o@;
    o.push((key.to_owned(), v));
    assert(o@.drop_last() =~= prev);
}

/// A member where a condition holds.
pub open spec fn member_when(b: bool, key: Seq<char>, v: JsonV) -> Seq<(Seq<char>, JsonV)> {
    if b {
        seq![(key, v)]
    } else {
        Seq::empty()
    }
}

/// Adds a member where a condition holds.
pub fn put_when(o: &mut Vec<(String, Json)>, b: bool, key: &str, v: Json)
    ensures
        members_v(final(o)@) == members_v(old(o)@) + member_when(b, key@, v@),
{
    let ghost before = members_v(o@);
    if b {
        put(o, key, v);
        assert(members_v(o@) =~= before + seq![(key@, v@)]);
    } else {
        assert(members_v(o@) =~= before + Seq::empty());
    }
}

/// A text or nothing.
pub open spec fn opt_text_v(o: Option<Seq<char>>) -> JsonV {
    match o {
        Some(s) => JsonV::Str(s),
        None => JsonV::Null,
    }
}

pub fn opt_text_json(o: &Option<String>) -> (r: Json)
    ensures
        r@ == opt_text_v(text::opt_text(*o)),
{
    match o {
        Some(s) => text_json(s.as_str()),
        None => Json::Null,
    }
}

/// A list of texts.
pub open spec fn texts_json_v(v: Seq<Seq<char>>) -> JsonV {
    JsonV::Arr(v.map_values(|s: Seq<char>| JsonV::Str(s)))
}

pub fn texts_json(v: &Vec<String>) -> (r: Json)
    ensures
        r@ == texts_json_v(text::texts(v@)),
{
    let ghost all = text::texts(v@).map_values(|s: Seq<char>| JsonV::Str(s));
    let mut a: Vec<Json> = Vec::new();
    let mut i: usize = 0;
    assert(items_v(a@) =~= all.take(0));
    while i < v.len()
        invariant
            i <= v@.len(),
            all == text::texts(v@).map_values(|s: Seq<char>| JsonV::Str(s)),
            items_v(a@) == all.take(i as int),
        decreases v@.len() - i,
    {
        let ghost prev = a@;
        a.push(text_json(v[i].as_str()));
        proof {
            assert(a@.drop_last() =~= prev);
            assert(items_v(a@) =~= all.take(i + 1));
        }
        i = i + 1;
    }
    assert(all.take(all.len() as int) =~= all);
    Json::Arr(a)
}

/// Members with one more where its key belongs.
pub open spec fn with_member(o: Seq<(Seq<char>, JsonV)>, key: Seq<char>, v: JsonV) -> Seq<
    (Seq<char>, JsonV),
> {
    let i = place_of(o, key, 0);
    o.take(i).push((key, v)) + o.skip(i)
}

/// The first position from `i` on whose key comes after `key`.
pub open spec fn place_of(o: Seq<(Seq<char>, JsonV)>, key: Seq<char>, i: int) -> int
    decreases o.len() - i,
{
    if i < 0 || i >= o.len() {
        o.len() as int
    } else if text::before(key, o[i].0) {
        i
    } else {
        place_of(o, key, i + 1)
    }
}

/// Adds a member where its key belongs.
pub fn put_ordered(o: &mut Vec<(String, Json)>, key: &str, v: Json)
    ensures
        members_v(final(o)@) == with_member(members_v(old(o)@), key@, v@),
{
    let ghost ov = members_v(o@);
    let mut i: usize = 0;
    proof {
        lemma_members(o@);
    }
    while i < o.len() && !str_before(key, o[i].0.as_str())
        invariant
            i <= o@.len(),
            ov == members_v(o@),
            ov.len() == o@.len(),
            forall|k: int| 0 <= k < o@.len() ==> #[trigger] ov[k] == (o@[k].0@, o@[k].1@),
            place_of(ov, key@, 0) == place_of(ov, key@, i as int),
        decreases o@.len() - i,
    {
        assert(ov[i as int] == (o@[i as int].0@, o@[i as int].1@));
        i = i + 1;
    }
    proof {
        if i < o@.len() {
            assert(ov[i as int] == (o@[i as int].0@, o@[i as int].1@));
        }
    }
    o.insert(i, (key.to_owned(), v));
    proof {
        lemma_members(o@);
        assert(members_v(o@) =~= with_member(ov, key@, v@));
    }
}

proof fn lemma_member_from(o: Seq<(Seq<char>, JsonV)>, key: Seq<char>, i: int)
    requires
        0 <= i,
    ensures
        match member_from(o, key, i) {
            Some(v) => exists|k: int|
                i <= k < o.len() && (#[trigger] o[k]).0 == key && o[k].1 == v && forall|j: int|
                    i <= j < k ==> (#[trigger] o[j]).0 != key,
            None => forall|j: int| i <= j < o.len() ==> (#[trigger] o[j]).0 != key,
        },
    decreases o.len() - i,
{
    if i < o.len() && o[i].0 != key {
        lemma_member_from(o, key, i + 1);
    }
}

/// A member of an object is found by its key, the first one where there are several;
/// what is no object has no members.
pub proof fn members_are_found_by_their_keys(v: JsonV, key: Seq<char>)
    ensures
        match v {
            JsonV::Obj(o) => match v.get(key) {
                Some(x) => exists|k: int|
                    0 <= k < o.len() && (#[trigger] o[k]).0 == key && o[k].1 == x && forall|j: int|
                        0 <= j < k ==> (#[trigger] o[j]).0 != key,
                None => forall|j: int| 0 <= j < o.len() ==> (#[trigger] o[j]).0 != key,
            },
            _ => v.get(key) is None,
        },
{
    if v is Obj {
        lemma_member_from(v->Obj_0, key, 0);
    }
}

/// What a member is read as: a text only where it is one, a flag only where it is true,
/// a number only where it is a natural one that fits.
pub proof fn members_are_read_as_they_are(v: JsonV, key: Seq<char>)
    ensures
        match v.get(key) {
            Some(JsonV::Str(s)) => v.text_at(key) == Some(s) && v.text_or_empty(key) == s && !v.flag_at(key)
                && v.natural_at(key) is None && v.array_at(key) is None,
            Some(JsonV::Bool(b)) => v.flag_at(key) == b && v.text_at(key) is None && v.text_or_empty(key).len()
                == 0,
            Some(JsonV::Num(n)) => v.text_at(key) is None && !v.flag_at(key) && (v.natural_at(key) is Some
                <==> n.whole is Some && 0 <= n.whole->0 <= u64::MAX) && (v.natural_at(key) is Some
                ==> v.natural_at(key)->0 == n.whole->0),
            Some(JsonV::Arr(a)) => v.array_at(key) == Some(a) && v.text_at(key) is None && !v.flag_at(key),
            _ => v.text_at(key) is None && v.text_or_empty(key).len() == 0 && !v.flag_at(key)
                && v.natural_at(key) is None && v.array_at(key) is None,
        },
{
}

/// An integer is written in decimal, with a sign where it is below zero.
pub proof fn integers_are_written_in_decimal(n: int)
    ensures
        n >= 0 ==> integer_text(n) == text::decimal(n as nat),
        n < 0 ==> integer_text(n) == seq!['-'] + text::decimal((-n) as nat),
        int_v(n) matches JsonV::Num(x) && x.whole == Some(n) && x.text == integer_text(n),
{
    reveal_strlit("-");
    assert("-"@ =~= seq!['-']);
}

/// Members of two lists put together are found in the first, else in the second.
pub proof fn members_can_be_put_together(
    a: Seq<(Seq<char>, JsonV)>,
    b: Seq<(Seq<char>, JsonV)>,
    key: Seq<char>,
)
    ensures
        member_from(a + b, key, 0) == match member_from(a, key, 0) {
            Some(v) => Some(v),
            None => member_from(b, key, 0),
        },
{
    lemma_together(a, b, key, 0);
}

proof fn lemma_together(a: Seq<(Seq<char>, JsonV)>, b: Seq<(Seq<char>, JsonV)>, key: Seq<char>, i: int)
    requires
        0 <= i <= a.len(),
    ensures
        member_from(a + b, key, i) == match member_from(a, key, i) {
            Some(v) => Some(v),
            None => member_from(b, key, 0),
        },
    decreases a.len() - i,
{
    if i < a.len() {
        assert((a + b)[i] == a[i]);
        lemma_together(a, b, key, i + 1);
    } else {
        lemma_behind(a, b, key, 0);
    }
}

proof fn lemma_behind(a: Seq<(Seq<char>, JsonV)>, b: Seq<(Seq<char>, JsonV)>, key: Seq<char>, i: int)
    requires
        0 <= i <= b.len(),
    ensures
        member_from(a + b, key, a.len() + i) == member_from(b, key, i),
    decreases b.len() - i,
{
    if i < b.len() {
        assert((a + b)[a.len() + i] == b[i]);
        lemma_behind(a, b, key, i + 1);
    }
}

/// A member that is added on a condition is there on that condition.
pub proof fn members_come_on_condition(
    a: Seq<(Seq<char>, JsonV)>,
    c: bool,
    k: Seq<char>,
    v: JsonV,
    key: Seq<char>,
)
    ensures
        member_from(a + member_when(c, k, v), key, 0) == match member_from(a, key, 0) {
            Some(x) => Some(x),
            None => if c && k == key {
                Some(v)
            } else {
                None
            },
        },
{
    members_can_be_put_together(a, member_when(c, k, v), key);
    reveal_with_fuel(member_from, 2);
}

} // verus!
