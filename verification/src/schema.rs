//! Tool parameter contracts. One declaration drives both what the model is told
//! of a tool and how a call's arguments are checked.
use crate::json::{self, Json, JsonV, Num, less, number, print_json, put, put_ordered, text_json};
use crate::table::{self, Table};
use crate::text::{self, cat2, cat3, cat5, join, push_when, str_eq, trim};
use vstd::prelude::*;

verus! {

/// The types a parameter can have.
#[derive(Debug, Clone, Copy, PartialEq, Eq, Structural)]
pub enum ParamType {
    String,
    Integer,
    Number,
    Boolean,
}

impl ParamType {
    pub open spec fn name_v(self) -> Seq<char> {
        match self {
            ParamType::String => "string"@,
            ParamType::Integer => "integer"@,
            ParamType::Number => "number"@,
            ParamType::Boolean => "boolean"@,
        }
    }

    /// The name of the type, for the model and for JSON Schema.
    pub fn name(self) -> (r: &'static str)
        ensures
            r@ == self.name_v(),
    {
        match self {
            ParamType::String => "string",
            ParamType::Integer => "integer",
            ParamType::Number => "number",
            ParamType::Boolean => "boolean",
        }
    }

    /// Whether a value is of the type: integers and other numbers are told apart.
    pub open spec fn accepts_v(self, v: JsonV) -> bool {
        match self {
            ParamType::String => v is Str,
            ParamType::Integer => v is Num && v->Num_0.whole is Some,
            ParamType::Number => v is Num,
            ParamType::Boolean => v is Bool,
        }
    }

    pub fn accepts(self, v: &Json) -> (r: bool)
        ensures
            r == self.accepts_v(v@),
    {
        match (self, v) {
            (ParamType::String, Json::Str(_)) => true,
            (ParamType::Integer, Json::Num(n)) => n.whole.is_some(),
            (ParamType::Number, Json::Num(_)) => true,
            (ParamType::Boolean, Json::Bool(_)) => true,
            _ => false,
        }
    }
}

/// A bound on a number: its double's encoding, how it is written for people and
/// how it is written in JSON.
#[derive(Debug)]
pub struct Bound {
    pub bits: u64,
    pub label: String,
    pub value: Json,
}

pub struct BoundV {
    pub bits: u64,
    pub label: Seq<char>,
    pub value: JsonV,
}

impl View for Bound {
    type V = BoundV;

    open spec fn view(&self) -> BoundV {
        BoundV { bits: self.bits, label: self.label@, value: self.value@ }
    }
}

pub open spec fn bound_v(b: Option<Bound>) -> Option<BoundV> {
    match b {
        Some(b) => Some(b@),
        None => None,
    }
}

impl Bound {
    pub fn copy(&self) -> (r: Bound)
        ensures
            r@ == self@,
    {
        Bound { bits: self.bits, label: self.label.clone(), value: self.value.copy() }
    }
}

/// A bound that is an integer.
pub fn whole_bound(n: i64) -> (r: Bound)
    ensures
        r.bits == json::double_of(n as int),
        r.label@ == json::integer_text(n as int),
        r.value@ == json::int_v(n as int),
{
    let v = number(n as i128);
    Bound { bits: v.bits, label: v.text.clone(), value: Json::Num(v) }
}

/// The declaration of a parameter.
#[derive(Debug)]
pub struct Param {
    pub ty: ParamType,
    pub required: bool,
    pub non_empty: bool,
    pub desc: String,
    pub default: Option<Json>,
    pub min: Option<Bound>,
    pub max: Option<Bound>,
}

pub struct ParamV {
    pub ty: ParamType,
    pub required: bool,
    pub non_empty: bool,
    pub desc: Seq<char>,
    pub default: Option<JsonV>,
    pub min: Option<BoundV>,
    pub max: Option<BoundV>,
}

impl View for Param {
    type V = ParamV;

    open spec fn view(&self) -> ParamV {
        ParamV {
            ty: self.ty,
            required: self.required,
            non_empty: self.non_empty,
            desc: self.desc@,
            default: match self.default {
                Some(d) => Some(d@),
                None => None,
            },
            min: bound_v(self.min),
            max: bound_v(self.max),
        }
    }
}

impl Param {
    pub fn copy(&self) -> (r: Param)
        ensures
            r@ == self@,
    {
        Param {
            ty: self.ty,
            required: self.required,
            non_empty: self.non_empty,
            desc: self.desc.clone(),
            default: match &self.default {
                Some(d) => Some(d.copy()),
                None => None,
            },
            min: match &self.min {
                Some(b) => Some(b.copy()),
                None => None,
            },
            max: match &self.max {
                Some(b) => Some(b.copy()),
                None => None,
            },
        }
    }
}

pub open spec fn table_v(t: Seq<(Seq<char>, Param)>) -> Seq<(Seq<char>, ParamV)> {
    t.map_values(|e: (Seq<char>, Param)| (e.0, e.1@))
}

/// A copy of a parameter table.
pub fn copy_params(t: &Table<Param>) -> (r: Table<Param>)
    ensures
        table_v(r@) == table_v(t@),
{
    let mut r: Table<Param> = Table::new();
    let mut i: usize = 0;
    while i < t.entries.len()
        invariant
            i <= t.entries@.len(),
            r.entries@.len() == i,
            forall|k: int|
                0 <= k < i ==> (#[trigger] r.entries@[k]).0@ == t.entries@[k].0@
                    && r.entries@[k].1@ == t.entries@[k].1@,
        decreases t.entries@.len() - i,
    {
        r.entries.push((t.entries[i].0.clone(), t.entries[i].1.copy()));
        i = i + 1;
    }
    assert(table_v(r@) =~= table_v(t@));
    r
}

/// The contract of a tool. Without a parameter table nothing is checked; with
/// an empty one the tool takes no parameter.
#[derive(Debug)]
pub struct ToolSchema {
    pub desc: String,
    pub params: Option<Table<Param>>,
    /// Whether calls may run side by side: for tools that only read.
    pub parallel: bool,
    pub capability: String,
}

/// The tools of a book by name.
pub type ToolBook = Table<ToolSchema>;

pub struct SchemaV {
    pub desc: Seq<char>,
    pub params: Option<Seq<(Seq<char>, ParamV)>>,
    pub parallel: bool,
    pub capability: Seq<char>,
}

impl View for ToolSchema {
    type V = SchemaV;

    open spec fn view(&self) -> SchemaV {
        SchemaV {
            desc: self.desc@,
            params: match self.params {
                Some(t) => Some(table_v(t@)),
                None => None,
            },
            parallel: self.parallel,
            capability: self.capability@,
        }
    }
}

/// The declared parameters, none where there is no table.
pub open spec fn params_of(s: SchemaV) -> Seq<(Seq<char>, ParamV)> {
    match s.params {
        Some(t) => t,
        None => Seq::empty(),
    }
}

// ---- what the model is told ----

/// A value written compactly: a string as it is, anything else as JSON.
pub open spec fn compact_v(v: JsonV) -> Seq<char> {
    match v {
        JsonV::Str(s) => s,
        _ => json::json_text(v),
    }
}

pub fn compact(v: &Json) -> (r: String)
    ensures
        r@ == compact_v(v@),
{
    match v {
        Json::Str(s) => s.clone(),
        _ => print_json(v),
    }
}

pub open spec fn marks_of(p: ParamV) -> Seq<Seq<char>> {
    seq![p.ty.name_v()] + text::when(p.required, "必填"@) + (match p.default {
        Some(d) => seq!["缺省 "@ + compact_v(d)],
        None => Seq::empty(),
    }) + (match p.min {
        Some(b) => seq!["不小于 "@ + b.label],
        None => Seq::empty(),
    }) + (match p.max {
        Some(b) => seq!["不大于 "@ + b.label],
        None => Seq::empty(),
    })
}

pub open spec fn param_line(name: Seq<char>, p: ParamV) -> Seq<char> {
    let head = "- "@ + name + "（"@ + text::joined(marks_of(p), "，"@) + "）"@;
    if text::trimmed(p.desc).len() == 0 {
        head
    } else {
        head + "："@ + text::trimmed(p.desc)
    }
}

pub open spec fn param_lines(t: Seq<(Seq<char>, ParamV)>) -> Seq<Seq<char>> {
    t.map_values(|e: (Seq<char>, ParamV)| param_line(e.0, e.1))
}

/// The description of a tool for the model: what it does, then a line for each parameter.
pub open spec fn rendered(s: SchemaV) -> Seq<char> {
    text::joined(
        text::when(text::trimmed(s.desc).len() > 0, text::trimmed(s.desc)) + param_lines(params_of(s)),
        "\n"@,
    )
}

fn marks(p: &Param) -> (r: Vec<String>)
    ensures
        text::texts(r@) == marks_of(p@),
{
    let mut r: Vec<String> = Vec::new();
    r.push(p.ty.name().to_owned());
    assert(text::texts(r@) =~= seq![p.ty.name_v()]);
    push_when(&mut r, p.required, "必填".to_owned());
    let ghost a = text::texts(r@);
    match &p.default {
        Some(d) => {
            push_when(&mut r, true, cat2("缺省 ", compact(d).as_str()));
        },
        None => {
            assert(a + Seq::<Seq<char>>::empty() =~= a);
        },
    }
    let ghost b = text::texts(r@);
    match &p.min {
        Some(m) => {
            push_when(&mut r, true, cat2("不小于 ", m.label.as_str()));
        },
        None => {
            assert(b + Seq::<Seq<char>>::empty() =~= b);
        },
    }
    let ghost c = text::texts(r@);
    match &p.max {
        Some(m) => {
            push_when(&mut r, true, cat2("不大于 ", m.label.as_str()));
        },
        None => {
            assert(c + Seq::<Seq<char>>::empty() =~= c);
        },
    }
    r
}

fn line_of(name: &str, p: &Param) -> (r: String)
    ensures
        r@ == param_line(name@, p@),
{
    let m = marks(p);
    let all = join(&m, "，");
    let head = cat5("- ", name, "（", all.as_str(), "）");
    let desc = trim(p.desc.as_str());
    if desc.as_str().is_empty() {
        head
    } else {
        cat3(head.as_str(), "：", desc.as_str())
    }
}

// ---- checking arguments ----

/// What is wrong with a call's arguments.
#[derive(Debug, PartialEq)]
pub enum ArgFault {
    NotObject,
    Missing(String),
    WrongType { name: String, want: &'static str },
    Empty(String),
    TooSmall { name: String, min: String },
    TooBig { name: String, max: String },
    Unknown(String),
}

pub enum ArgFaultV {
    NotObject,
    Missing(Seq<char>),
    WrongType { name: Seq<char>, want: Seq<char> },
    Empty(Seq<char>),
    TooSmall { name: Seq<char>, min: Seq<char> },
    TooBig { name: Seq<char>, max: Seq<char> },
    Unknown(Seq<char>),
}

impl View for ArgFault {
    type V = ArgFaultV;

    open spec fn view(&self) -> ArgFaultV {
        match *self {
            ArgFault::NotObject => ArgFaultV::NotObject,
            ArgFault::Missing(s) => ArgFaultV::Missing(s@),
            ArgFault::WrongType { name, want } => ArgFaultV::WrongType { name: name@, want: want@ },
            ArgFault::Empty(s) => ArgFaultV::Empty(s@),
            ArgFault::TooSmall { name, min } => ArgFaultV::TooSmall { name: name@, min: min@ },
            ArgFault::TooBig { name, max } => ArgFaultV::TooBig { name: name@, max: max@ },
            ArgFault::Unknown(s) => ArgFaultV::Unknown(s@),
        }
    }
}

/// The fault of one parameter, given what the call holds for it.
pub open spec fn param_fault(name: Seq<char>, p: ParamV, given: Option<JsonV>) -> Option<ArgFaultV> {
    match given {
        None => if p.required {
            Some(ArgFaultV::Missing(name))
        } else {
            None
        },
        Some(JsonV::Null) => if p.required {
            Some(ArgFaultV::Missing(name))
        } else {
            None
        },
        Some(v) => if !p.ty.accepts_v(v) {
            Some(ArgFaultV::WrongType { name, want: p.ty.name_v() })
        } else if p.non_empty && v.text() == Some(Seq::<char>::empty()) {
            Some(ArgFaultV::Empty(name))
        } else {
            match v {
                JsonV::Num(n) => if p.min is Some && json::double_order(n.bits) < json::double_order(
                    p.min->0.bits,
                ) {
                    Some(ArgFaultV::TooSmall { name, min: p.min->0.label })
                } else if p.max is Some && json::double_order(n.bits) > json::double_order(p.max->0.bits) {
                    Some(ArgFaultV::TooBig { name, max: p.max->0.label })
                } else {
                    None
                },
                _ => None,
            }
        },
    }
}

/// The first fault among the declared parameters from `i` on.
pub open spec fn params_fault(
    t: Seq<(Seq<char>, ParamV)>,
    o: Seq<(Seq<char>, JsonV)>,
    i: int,
) -> Option<ArgFaultV>
    decreases t.len() - i,
{
    if i < 0 || i >= t.len() {
        None
    } else {
        match param_fault(t[i].0, t[i].1, json::member_from(o, t[i].0, 0)) {
            Some(f) => Some(f),
            None => params_fault(t, o, i + 1),
        }
    }
}

/// The first member from `i` on that no parameter declares.
pub open spec fn undeclared_from(
    t: Seq<(Seq<char>, ParamV)>,
    o: Seq<(Seq<char>, JsonV)>,
    i: int,
) -> Option<ArgFaultV>
    decreases o.len() - i,
{
    if i < 0 || i >= o.len() {
        None
    } else if table::lookup(t, o[i].0) is None {
        Some(ArgFaultV::Unknown(o[i].0))
    } else {
        undeclared_from(t, o, i + 1)
    }
}

/// What is wrong with the arguments of a call; nothing where no table is declared.
pub open spec fn args_fault(s: SchemaV, args: JsonV) -> Option<ArgFaultV> {
    match s.params {
        None => None,
        Some(t) => match args {
            JsonV::Obj(o) => match params_fault(t, o, 0) {
                Some(f) => Some(f),
                None => undeclared_from(t, o, 0),
            },
            _ => Some(ArgFaultV::NotObject),
        },
    }
}

fn check_param(name: &str, p: &Param, given: Option<&Json>) -> (r: Option<ArgFault>)
    ensures
        match r {
            Some(f) => param_fault(
                name@,
                p@,
                match given {
                    Some(v) => Some(v@),
                    None => None,
                },
            ) == Some(f@),
            None => param_fault(
                name@,
                p@,
                match given {
                    Some(v) => Some(v@),
                    None => None,
                },
            ) is None,
        },
{
    match given {
        None => if p.required {
            Some(ArgFault::Missing(name.to_owned()))
        } else {
            None
        },
        Some(Json::Null) => if p.required {
            Some(ArgFault::Missing(name.to_owned()))
        } else {
            None
        },
        Some(v) => {
            if !p.ty.accepts(v) {
                return Some(ArgFault::WrongType { name: name.to_owned(), want: p.ty.name() });
            }
            if p.non_empty {
                match v {
                    Json::Str(s) => {
                        if s.as_str().is_empty() {
                            assert(s@ =~= Seq::<char>::empty());
                            return Some(ArgFault::Empty(name.to_owned()));
                        }
                    },
                    _ => {},
                }
            }
            match v {
                Json::Num(n) => {
                    match &p.min {
                        Some(lo) => {
                            if less(n.bits, lo.bits) {
                                return Some(
                                    ArgFault::TooSmall {
                                        name: name.to_owned(),
                                        min: lo.label.clone(),
                                    },
                                );
                            }
                        },
                        None => {},
                    }
                    match &p.max {
                        Some(hi) => {
                            if less(hi.bits, n.bits) {
                                return Some(
                                    ArgFault::TooBig {
                                        name: name.to_owned(),
                                        max: hi.label.clone(),
                                    },
                                );
                            }
                        },
                        None => {},
                    }
                },
                _ => {},
            }
            None
        },
    }
}

// ---- defaults ----

/// Members with the declared defaults from `i` on added where nothing is given.
pub open spec fn with_defaults(
    t: Seq<(Seq<char>, ParamV)>,
    o: Seq<(Seq<char>, JsonV)>,
    n: int,
) -> Seq<(Seq<char>, JsonV)>
    decreases n,
{
    if n <= 0 {
        o
    } else {
        let prev = with_defaults(t, o, n - 1);
        let (name, p) = t[n - 1];
        if json::member_from(prev, name, 0) is None && p.default is Some {
            json::with_member(prev, name, p.default->0)
        } else {
            prev
        }
    }
}

pub open spec fn defaulted(s: SchemaV, args: JsonV) -> JsonV {
    match (s.params, args) {
        (Some(t), JsonV::Obj(o)) => JsonV::Obj(with_defaults(t, o, t.len() as int)),
        _ => args,
    }
}

// ---- JSON Schema ----

/// The schema of one parameter.
pub open spec fn param_schema(p: ParamV) -> JsonV {
    JsonV::Obj(
        (match p.default {
            Some(d) => seq![("default"@, d)],
            None => Seq::empty(),
        }) + (if text::trimmed(p.desc).len() > 0 {
            seq![("description"@, JsonV::Str(text::trimmed(p.desc)))]
        } else {
            Seq::empty()
        }) + (match p.max {
            Some(b) => seq![("maximum"@, b.value)],
            None => Seq::empty(),
        }) + (match p.min {
            Some(b) => seq![("minimum"@, b.value)],
            None => Seq::empty(),
        }) + seq![("type"@, JsonV::Str(p.ty.name_v()))],
    )
}

pub open spec fn properties_of(t: Seq<(Seq<char>, ParamV)>) -> Seq<(Seq<char>, JsonV)> {
    t.map_values(|e: (Seq<char>, ParamV)| (e.0, param_schema(e.1)))
}

/// The names of the required parameters among the first `n`.
pub open spec fn required_below(t: Seq<(Seq<char>, ParamV)>, n: int) -> Seq<JsonV>
    decreases n,
{
    if n <= 0 {
        Seq::empty()
    } else if t[n - 1].1.required {
        required_below(t, n - 1).push(JsonV::Str(t[n - 1].0))
    } else {
        required_below(t, n - 1)
    }
}

/// The JSON Schema of a tool's parameters; no other member is accepted.
pub open spec fn json_schema(s: SchemaV) -> JsonV {
    let t = params_of(s);
    JsonV::Obj(
        seq![
            ("additionalProperties"@, JsonV::Bool(false)),
            ("properties"@, JsonV::Obj(properties_of(t))),
            ("required"@, JsonV::Arr(required_below(t, t.len() as int))),
            ("type"@, JsonV::Str("object"@)),
        ],
    )
}

fn schema_of(p: &Param) -> (r: Json)
    ensures
        r@ == param_schema(p@),
{
    let mut o: Vec<(String, Json)> = Vec::new();
    let ghost mut acc = json::members_v(o@);
    match &p.default {
        Some(d) => {
            put(&mut o, "default", d.copy());
        },
        None => {},
    }
    let ghost a = json::members_v(o@);
    assert(a =~= (match p.default {
        Some(d) => seq![("default"@, d@)],
        None => Seq::<(Seq<char>, JsonV)>::empty(),
    }));
    let desc = trim(p.desc.as_str());
    if !desc.as_str().is_empty() {
        put(&mut o, "description", Json::Str(desc));
    }
    let ghost b = json::members_v(o@);
    assert(b =~= a + (if text::trimmed(p.desc@).len() > 0 {
        seq![("description"@, JsonV::Str(text::trimmed(p.desc@)))]
    } else {
        Seq::<(Seq<char>, JsonV)>::empty()
    }));
    match &p.max {
        Some(m) => {
            put(&mut o, "maximum", m.value.copy());
        },
        None => {},
    }
    let ghost c = json::members_v(o@);
    assert(c =~= b + (match p.max {
        Some(m) => seq![("maximum"@, m.value@)],
        None => Seq::<(Seq<char>, JsonV)>::empty(),
    }));
    match &p.min {
        Some(m) => {
            put(&mut o, "minimum", m.value.copy());
        },
        None => {},
    }
    let ghost d = json::members_v(o@);
    assert(d =~= c + (match p.min {
        Some(m) => seq![("minimum"@, m.value@)],
        None => Seq::<(Seq<char>, JsonV)>::empty(),
    }));
    put(&mut o, "type", text_json(p.ty.name()));
    assert(json::members_v(o@) =~= d + seq![("type"@, JsonV::Str(p.ty.name_v()))]);
    Json::Obj(o)
}

impl ToolSchema {
    /// The description of the tool for the model.
    pub fn render_for_prompt(&self) -> (r: String)
        ensures
            r@ == rendered(self@),
    {
        let mut ls: Vec<String> = Vec::new();
        let desc = trim(self.desc.as_str());
        let some = !desc.as_str().is_empty();
        assert(text::texts(ls@) =~= Seq::<Seq<char>>::empty());
        push_when(&mut ls, some, desc);
        let ghost head = text::texts(ls@);
        assert(head =~= text::when(text::trimmed(self.desc@).len() > 0, text::trimmed(self.desc@)));
        let ghost t = params_of(self@);
        match &self.params {
            Some(p) => {
                let mut i: usize = 0;
                assert(head + param_lines(t).take(0) =~= head);
                while i < p.len()
                    invariant
                        i <= p@.len(),
                        t == table_v(p@),
                        text::texts(ls@) == head + param_lines(t).take(i as int),
                    decreases p@.len() - i,
                {
                    let ghost prev = ls@;
                    let l = line_of(p.key_at(i), p.value_at(i));
                    ls.push(l);
                    proof {
                        text::lemma_texts_push(prev, l);
                        assert(param_lines(t)[i as int] == l@);
                        assert(text::texts(ls@) =~= head + param_lines(t).take(i + 1));
                    }
                    i = i + 1;
                }
                assert(param_lines(t).take(t.len() as int) =~= param_lines(t));
            },
            None => {
                assert(head + param_lines(t) =~= head);
            },
        }
        join(&ls, "\n")
    }

    /// The JSON Schema of the parameters.
    pub fn to_json_schema(&self) -> (r: Json)
        ensures
            r@ == json_schema(self@),
    {
        let mut props: Vec<(String, Json)> = Vec::new();
        let mut req: Vec<Json> = Vec::new();
        let ghost t = params_of(self@);
        match &self.params {
            Some(p) => {
                let mut i: usize = 0;
                assert(json::members_v(props@) =~= properties_of(t).take(0));
                assert(json::items_v(req@) =~= required_below(t, 0));
                while i < p.len()
                    invariant
                        i <= p@.len(),
                        t == table_v(p@),
                        json::members_v(props@) == properties_of(t).take(i as int),
                        json::items_v(req@) == required_below(t, i as int),
                    decreases p@.len() - i,
                {
                    let name = p.key_at(i);
                    let d = p.value_at(i);
                    put(&mut props, name, schema_of(d));
                    assert(properties_of(t)[i as int] == (name@, param_schema(d@)));
                    assert(json::members_v(props@) =~= properties_of(t).take(i + 1));
                    if d.required {
                        let ghost prev = req@;
                        req.push(text_json(name));
                        assert(req@.drop_last() =~= prev);
                    }
                    i = i + 1;
                }
                assert(properties_of(t).take(t.len() as int) =~= properties_of(t));
            },
            None => {
                assert(json::members_v(props@) =~= properties_of(t));
                assert(json::items_v(req@) =~= required_below(t, 0));
            },
        }
        let mut root: Vec<(String, Json)> = Vec::new();
        put(&mut root, "additionalProperties", Json::Bool(false));
        put(&mut root, "properties", Json::Obj(props));
        put(&mut root, "required", Json::Arr(req));
        put(&mut root, "type", text_json("object"));
        assert(json::members_v(root@) =~= json_schema(self@)->Obj_0);
        Json::Obj(root)
    }

    /// Checks a call's arguments against the declaration.
    pub fn check(&self, args: &Json) -> (r: Result<(), ArgFault>)
        ensures
            match r {
                Ok(_) => args_fault(self@, args@) is None,
                Err(f) => args_fault(self@, args@) == Some(f@),
            },
    {
        let params = match &self.params {
            Some(p) => p,
            None => {
                return Ok(());
            },
        };
        let o = match args {
            Json::Obj(o) => o,
            _ => {
                return Err(ArgFault::NotObject);
            },
        };
        let ghost ov = json::members_v(o@);
        let ghost pv = table_v(params@);
        let mut i: usize = 0;
        while i < params.len()
            invariant
                i <= params@.len(),
                args@ == JsonV::Obj(ov),
                params_fault(pv, ov, 0) == params_fault(pv, ov, i as int),
                self.params == Some(*params),
                pv == table_v(params@),
            decreases params@.len() - i,
        {
            let name = params.key_at(i);
            assert(pv[i as int] == (params@[i as int].0, params@[i as int].1@));
            match check_param(name, params.value_at(i), args.get(name)) {
                Some(f) => {
                    return Err(f);
                },
                None => {},
            }
            i = i + 1;
        }
        proof {
            json::lemma_members(o@);
        }
        let mut i: usize = 0;
        while i < o.len()
            invariant
                i <= o@.len(),
                ov == json::members_v(o@),
                ov.len() == o@.len(),
                forall|k: int| 0 <= k < o@.len() ==> #[trigger] ov[k] == (o@[k].0@, o@[k].1@),
                args@ == JsonV::Obj(ov),
                params_fault(pv, ov, 0) is None,
                undeclared_from(pv, ov, 0) == undeclared_from(pv, ov, i as int),
                self.params == Some(*params),
                pv == table_v(params@),
            decreases o@.len() - i,
        {
            assert(ov[i as int].0 == o@[i as int].0@);
            proof {
                table::lemma_same_keys(params@, pv, o@[i as int].0@, 0);
            }
            if !params.contains_key(o[i].0.as_str()) {
                return Err(ArgFault::Unknown(o[i].0.clone()));
            }
            i = i + 1;
        }
        Ok(())
    }

    /// The declaration for a channel with native tool calls.
    pub fn decl(&self, name: &str) -> (r: crate::ports::ToolDecl)
        ensures
            r.name@ == name@,
            r.description@ == self.desc@,
            r.parameters@ == json_schema(self@),
    {
        crate::ports::ToolDecl {
            name: name.to_owned(),
            description: self.desc.clone(),
            parameters: self.to_json_schema(),
        }
    }

    /// Adds the declared defaults; what is given stays.
    pub fn apply_defaults(&self, args: &mut Json)
        ensures
            final(args)@ == defaulted(self@, old(args)@),
    {
        let params = match &self.params {
            Some(p) => p,
            None => {
                return ;
            },
        };
        match args {
            Json::Obj(o) => {
                let ghost start = json::members_v(o@);
                let ghost pv = table_v(params@);
                let mut i: usize = 0;
                while i < params.len()
                    invariant
                        i <= params@.len(),
                        pv == table_v(params@),
                        json::members_v(o@) == with_defaults(pv, start, i as int),
                    decreases params@.len() - i,
                {
                    let name = params.key_at(i);
                    let p = params.value_at(i);
                    if !has_member(o, name) {
                        match &p.default {
                            Some(d) => {
                                put_ordered(o, name, d.copy());
                            },
                            None => {},
                        }
                    }
                    i = i + 1;
                }
            },
            _ => {},
        }
    }
}

/// Whether an object has a member.
fn has_member(o: &Vec<(String, Json)>, key: &str) -> (r: bool)
    ensures
        r == (json::member_from(json::members_v(o@), key@, 0) is Some),
{
    let ghost ov = json::members_v(o@);
    let mut i: usize = 0;
    proof {
        json::lemma_members(o@);
    }
    while i < o.len()
        invariant
            i <= o@.len(),
            ov == json::members_v(o@),
            ov.len() == o@.len(),
            forall|k: int| 0 <= k < o@.len() ==> #[trigger] ov[k] == (o@[k].0@, o@[k].1@),
            json::member_from(ov, key@, 0) == json::member_from(ov, key@, i as int),
        decreases o@.len() - i,
    {
        assert(ov[i as int].0 == o@[i as int].0@);
        if str_eq(o[i].0.as_str(), key) {
            return true;
        }
        i = i + 1;
    }
    false
}

pub open spec fn book_lines(b: Seq<(Seq<char>, ToolSchema)>) -> Seq<Seq<char>> {
    b.map_values(|e: (Seq<char>, ToolSchema)| e.0 + "\n"@ + rendered(e.1@))
}

/// The description of a whole book for the model: each tool under its name.
pub fn render_book(book: &ToolBook) -> (r: String)
    ensures
        r@ == text::joined(book_lines(book@), "\n"@),
{
    let mut ls: Vec<String> = Vec::new();
    let mut i: usize = 0;
    let ghost b = book@;
    assert(text::texts(ls@) =~= book_lines(b).take(0));
    while i < book.len()
        invariant
            i <= book@.len(),
            b == book@,
            text::texts(ls@) == book_lines(b).take(i as int),
        decreases book@.len() - i,
    {
        let ghost prev = ls@;
        let l = cat3(book.key_at(i), "\n", book.value_at(i).render_for_prompt().as_str());
        ls.push(l);
        proof {
            text::lemma_texts_push(prev, l);
            assert(book_lines(b)[i as int] == l@);
            assert(text::texts(ls@) =~= book_lines(b).take(i + 1));
        }
        i = i + 1;
    }
    assert(book_lines(b).take(b.len() as int) =~= book_lines(b));
    join(&ls, "\n")
}

// ---- laws ----

proof fn lemma_member_from(o: Seq<(Seq<char>, JsonV)>, key: Seq<char>, i: int)
    requires
        0 <= i,
    ensures
        match json::member_from(o, key, i) {
            Some(v) => exists|k: int|
                i <= k < o.len() && #[trigger] o[k] == (key, v) && forall|m: int|
                    i <= m < k ==> (#[trigger] o[m]).0 != key,
            None => forall|k: int| i <= k < o.len() ==> (#[trigger] o[k]).0 != key,
        },
    decreases o.len() - i,
{
    if i < o.len() && o[i].0 != key {
        lemma_member_from(o, key, i + 1);
    } else if i < o.len() {
        assert(o[i] == (key, o[i].1));
    }
}

proof fn lemma_place_of(o: Seq<(Seq<char>, JsonV)>, key: Seq<char>, i: int)
    requires
        0 <= i <= o.len(),
    ensures
        i <= json::place_of(o, key, i) <= o.len(),
    decreases o.len() - i,
{
    if i < o.len() {
        lemma_place_of(o, key, i + 1);
    }
}

proof fn lemma_with_member(o: Seq<(Seq<char>, JsonV)>, key: Seq<char>, v: JsonV, k: Seq<char>)
    requires
        json::member_from(o, key, 0) is None,
    ensures
        json::member_from(json::with_member(o, key, v), k, 0) == if k == key {
            Some(v)
        } else {
            json::member_from(o, k, 0)
        },
{
    let w = json::with_member(o, key, v);
    let p = json::place_of(o, key, 0);
    lemma_place_of(o, key, 0);
    lemma_member_from(o, k, 0);
    lemma_member_from(o, key, 0);
    lemma_member_from(w, k, 0);
    assert(w[p] == (key, v));
    assert forall|i: int| 0 <= i < o.len() implies #[trigger] o[i] == w[if i < p {
        i
    } else {
        i + 1
    }] by {}
    if k != key {
        match json::member_from(w, k, 0) {
            Some(x) => {
                let a = choose|a: int|
                    0 <= a < w.len() && #[trigger] w[a] == (k, x) && forall|m: int|
                        0 <= m < a ==> (#[trigger] w[m]).0 != k;
                let b = if a < p {
                    a
                } else {
                    a - 1
                };
                assert(o[b] == w[a]);
                match json::member_from(o, k, 0) {
                    Some(y) => {
                        let c = choose|c: int|
                            0 <= c < o.len() && #[trigger] o[c] == (k, y) && forall|m: int|
                                0 <= m < c ==> (#[trigger] o[m]).0 != k;
                        let d = if c < p {
                            c
                        } else {
                            c + 1
                        };
                        assert(w[d] == o[c]);
                        if b < c {
                            assert(o[b].0 != k);
                        }
                        if d < a {
                            assert(w[d].0 != k);
                        }
                    },
                    None => {
                        assert(o[b].0 != k);
                    },
                }
            },
            None => {
                match json::member_from(o, k, 0) {
                    Some(y) => {
                        let c = choose|c: int|
                            0 <= c < o.len() && #[trigger] o[c] == (k, y) && forall|m: int|
                                0 <= m < c ==> (#[trigger] o[m]).0 != k;
                        let d = if c < p {
                            c
                        } else {
                            c + 1
                        };
                        assert(w[d] == o[c]);
                    },
                    None => {},
                }
            },
        }
    } else {
        match json::member_from(w, k, 0) {
            Some(x) => {
                let a = choose|a: int|
                    0 <= a < w.len() && #[trigger] w[a] == (k, x) && forall|m: int|
                        0 <= m < a ==> (#[trigger] w[m]).0 != k;
                if a != p {
                    let b = if a < p {
                        a
                    } else {
                        a - 1
                    };
                    assert(o[b] == w[a]);
                    assert(o[b].0 != key);
                }
            },
            None => {},
        }
    }
}

proof fn lemma_defaults(
    t: Seq<(Seq<char>, ParamV)>,
    o: Seq<(Seq<char>, JsonV)>,
    n: int,
    key: Seq<char>,
)
    requires
        0 <= n <= t.len(),
    ensures
        json::member_from(o, key, 0) is Some ==> json::member_from(with_defaults(t, o, n), key, 0)
            == json::member_from(o, key, 0),
        forall|i: int|
            0 <= i < n && (#[trigger] t[i]).0 == key && t[i].1.default is Some ==> json::member_from(
                with_defaults(t, o, n),
                key,
                0,
            ) is Some,
    decreases n,
{
    if n > 0 {
        lemma_defaults(t, o, n - 1, key);
        let prev = with_defaults(t, o, n - 1);
        let (name, p) = t[n - 1];
        if json::member_from(prev, name, 0) is None && p.default is Some {
            lemma_with_member(prev, name, p.default->0, key);
        }
    }
}

/// Defaults never overwrite: whatever a call gives it keeps, and every declared
/// default is there afterwards.
pub proof fn defaults_never_overwrite(
    t: Seq<(Seq<char>, ParamV)>,
    o: Seq<(Seq<char>, JsonV)>,
    key: Seq<char>,
)
    ensures
        json::member_from(o, key, 0) is Some ==> json::member_from(
            with_defaults(t, o, t.len() as int),
            key,
            0,
        ) == json::member_from(o, key, 0),
        forall|i: int|
            0 <= i < t.len() && (#[trigger] t[i]).0 == key && t[i].1.default is Some
                ==> json::member_from(with_defaults(t, o, t.len() as int), key, 0) is Some,
{
    lemma_defaults(t, o, t.len() as int, key);
}

proof fn lemma_no_param_fault(t: Seq<(Seq<char>, ParamV)>, o: Seq<(Seq<char>, JsonV)>, i: int, k: int)
    requires
        0 <= i <= k < t.len(),
        params_fault(t, o, i) is None,
    ensures
        param_fault(t[k].0, t[k].1, json::member_from(o, t[k].0, 0)) is None,
    decreases k - i,
{
    if i < k {
        lemma_no_param_fault(t, o, i + 1, k);
    }
}

proof fn lemma_all_declared(t: Seq<(Seq<char>, ParamV)>, o: Seq<(Seq<char>, JsonV)>, i: int, k: int)
    requires
        0 <= i <= k < o.len(),
        undeclared_from(t, o, i) is None,
    ensures
        table::lookup(t, o[k].0) is Some,
    decreases k - i,
{
    if i < k {
        lemma_all_declared(t, o, i + 1, k);
    }
}

/// Accepted arguments hold what is required, each of its type, and nothing that
/// is not declared.
pub proof fn accepted_arguments_fit(s: SchemaV, o: Seq<(Seq<char>, JsonV)>)
    requires
        s.params is Some,
        args_fault(s, JsonV::Obj(o)) is None,
    ensures
        forall|i: int|
            0 <= i < params_of(s).len() && (#[trigger] params_of(s)[i]).1.required ==> json::member_from(
                o,
                params_of(s)[i].0,
                0,
            ) is Some && params_of(s)[i].1.ty.accepts_v(
                json::member_from(o, params_of(s)[i].0, 0)->0,
            ),
        forall|k: int| 0 <= k < o.len() ==> table::lookup(params_of(s), (#[trigger] o[k]).0) is Some,
{
    let t = params_of(s);
    assert forall|i: int| 0 <= i < t.len() && (#[trigger] t[i]).1.required implies json::member_from(
        o,
        t[i].0,
        0,
    ) is Some && t[i].1.ty.accepts_v(json::member_from(o, t[i].0, 0)->0) by {
        lemma_no_param_fault(t, o, 0, i);
    }
    assert forall|k: int| 0 <= k < o.len() implies table::lookup(t, (#[trigger] o[k]).0) is Some by {
        lemma_all_declared(t, o, 0, k);
    }
}

/// Whether what is given for a parameter is what it asks for: there where it must be,
/// and where it is there, of its type, not empty and within its bounds.
pub open spec fn fits(p: ParamV, given: Option<JsonV>) -> bool {
    let there = given is Some && !(given->0 is Null);
    &&& p.required ==> there
    &&& there ==> p.ty.accepts_v(given->0)
    &&& there && p.non_empty ==> given->0 != JsonV::Str(Seq::empty())
    &&& there && given->0 is Num && p.min is Some ==> json::double_order((given->0)->Num_0.bits)
        >= json::double_order(p.min->0.bits)
    &&& there && given->0 is Num && p.max is Some ==> json::double_order((given->0)->Num_0.bits)
        <= json::double_order(p.max->0.bits)
}

/// Arguments are taken exactly where each parameter gets what it asks for and nothing
/// is given that is not declared.
pub proof fn arguments_are_taken_that_fit(s: SchemaV, o: Seq<(Seq<char>, JsonV)>)
    requires
        s.params is Some,
    ensures
        args_fault(s, JsonV::Obj(o)) is None <==> (forall|i: int|
            0 <= i < params_of(s).len() ==> fits(
                (#[trigger] params_of(s)[i]).1,
                json::member_from(o, params_of(s)[i].0, 0),
            )) && forall|k: int|
            0 <= k < o.len() ==> table::lookup(params_of(s), (#[trigger] o[k]).0) is Some,
{
    let t = params_of(s);
    if args_fault(s, JsonV::Obj(o)) is None {
        assert forall|i: int| 0 <= i < t.len() implies fits(
            (#[trigger] t[i]).1,
            json::member_from(o, t[i].0, 0),
        ) by {
            lemma_no_param_fault(t, o, 0, i);
        }
        accepted_arguments_fit(s, o);
    }
    if (forall|i: int|
        0 <= i < t.len() ==> fits((#[trigger] t[i]).1, json::member_from(o, t[i].0, 0))) && forall|k: int|
        0 <= k < o.len() ==> table::lookup(t, (#[trigger] o[k]).0) is Some {
        lemma_fits(t, o, 0);
        lemma_declared(t, o, 0);
    }
}

proof fn lemma_fits(t: Seq<(Seq<char>, ParamV)>, o: Seq<(Seq<char>, JsonV)>, i: int)
    requires
        0 <= i,
        forall|j: int|
            0 <= j < t.len() ==> fits((#[trigger] t[j]).1, json::member_from(o, t[j].0, 0)),
    ensures
        params_fault(t, o, i) is None,
    decreases t.len() - i,
{
    if i < t.len() {
        assert(fits(t[i].1, json::member_from(o, t[i].0, 0)));
        lemma_fits(t, o, i + 1);
    }
}

proof fn lemma_declared(t: Seq<(Seq<char>, ParamV)>, o: Seq<(Seq<char>, JsonV)>, i: int)
    requires
        0 <= i,
        forall|k: int| 0 <= k < o.len() ==> table::lookup(t, (#[trigger] o[k]).0) is Some,
    ensures
        undeclared_from(t, o, i) is None,
    decreases o.len() - i,
{
    if i < o.len() {
        assert(table::lookup(t, o[i].0) is Some);
        lemma_declared(t, o, i + 1);
    }
}

/// What is said of refused arguments is so: what is called missing must be there and is
/// not, what is called wrong is there and not of its type, what is called empty, too
/// small or too big is that, and what is called unknown is given and not declared.
pub proof fn refusals_say_what_is_wrong(s: SchemaV, args: JsonV)
    requires
        args_fault(s, args) is Some,
    ensures
        s.params is Some,
        args_fault(s, args)->0 is NotObject <==> !(args is Obj),
        args matches JsonV::Obj(o) ==> fault_holds(params_of(s), o, args_fault(s, args)->0),
{
    let t = params_of(s);
    match args {
        JsonV::Obj(o) => {
            lemma_fault_holds(t, o, 0);
            if params_fault(t, o, 0) is None {
                lemma_unknown_holds(t, o, 0);
            }
        },
        _ => {},
    }
}

/// Whether what a refusal says is so of the parameter it names.
pub open spec fn param_fault_holds(
    name: Seq<char>,
    p: ParamV,
    given: Option<JsonV>,
    f: ArgFaultV,
) -> bool {
    let there = given is Some && !(given->0 is Null);
    match f {
        ArgFaultV::Missing(n) => n == name && p.required && !there,
        ArgFaultV::WrongType { name: n, want } => n == name && there && !p.ty.accepts_v(given->0) && want
            == p.ty.name_v(),
        ArgFaultV::Empty(n) => n == name && p.non_empty && given == Some(JsonV::Str(Seq::empty())),
        ArgFaultV::TooSmall { name: n, min } => n == name && p.min is Some && given is Some && given->0 is Num
            && json::double_order((given->0)->Num_0.bits) < json::double_order(p.min->0.bits) && min
            == p.min->0.label,
        ArgFaultV::TooBig { name: n, max } => n == name && p.max is Some && given is Some && given->0 is Num
            && json::double_order((given->0)->Num_0.bits) > json::double_order(p.max->0.bits) && max
            == p.max->0.label,
        _ => false,
    }
}

/// Whether what a refusal says is so of the arguments.
pub open spec fn fault_holds(
    t: Seq<(Seq<char>, ParamV)>,
    o: Seq<(Seq<char>, JsonV)>,
    f: ArgFaultV,
) -> bool {
    match f {
        ArgFaultV::Unknown(n) => table::lookup(t, n) is None && json::member_from(o, n, 0) is Some,
        ArgFaultV::NotObject => false,
        _ => exists|i: int|
            0 <= i < t.len() && param_fault_holds(
                (#[trigger] t[i]).0,
                t[i].1,
                json::member_from(o, t[i].0, 0),
                f,
            ),
    }
}

proof fn lemma_fault_holds(t: Seq<(Seq<char>, ParamV)>, o: Seq<(Seq<char>, JsonV)>, i: int)
    requires
        0 <= i,
    ensures
        params_fault(t, o, i) matches Some(f) ==> fault_holds(t, o, f),
    decreases t.len() - i,
{
    if i < t.len() {
        match param_fault(t[i].0, t[i].1, json::member_from(o, t[i].0, 0)) {
            Some(f) => {
                assert(param_fault_holds(t[i].0, t[i].1, json::member_from(o, t[i].0, 0), f));
            },
            None => {
                lemma_fault_holds(t, o, i + 1);
            },
        }
    }
}

proof fn lemma_unknown_holds(t: Seq<(Seq<char>, ParamV)>, o: Seq<(Seq<char>, JsonV)>, i: int)
    requires
        0 <= i,
    ensures
        undeclared_from(t, o, i) matches Some(f) ==> fault_holds(t, o, f) && f is Unknown,
    decreases o.len() - i,
{
    if i < o.len() {
        if table::lookup(t, o[i].0) is None {
            lemma_member_from(o, o[i].0, 0);
        } else {
            lemma_unknown_holds(t, o, i + 1);
        }
    }
}

/// What is not given gets the value declared for it, and nothing else is added.
pub proof fn defaults_fill_what_is_missing(
    t: Seq<(Seq<char>, ParamV)>,
    o: Seq<(Seq<char>, JsonV)>,
    key: Seq<char>,
    k: int,
)
    requires
        json::member_from(o, key, 0) is None,
    ensures
        ({
            let now = json::member_from(with_defaults(t, o, t.len() as int), key, 0);
            &&& 0 <= k < t.len() && t[k].0 == key && t[k].1.default is Some && (forall|j: int|
                0 <= j < k ==> (#[trigger] t[j]).0 != key) ==> now == t[k].1.default
            &&& (forall|j: int| 0 <= j < t.len() && (#[trigger] t[j]).0 == key ==> t[j].1.default is None)
                ==> now is None
        }),
{
    if 0 <= k < t.len() && t[k].0 == key && t[k].1.default is Some && (forall|j: int|
        0 <= j < k ==> (#[trigger] t[j]).0 != key) {
        lemma_default_is(t, o, key, k, t.len() as int);
    }
    if forall|j: int| 0 <= j < t.len() && (#[trigger] t[j]).0 == key ==> t[j].1.default is None {
        lemma_no_default(t, o, key, t.len() as int);
    }
}

proof fn lemma_no_default(
    t: Seq<(Seq<char>, ParamV)>,
    o: Seq<(Seq<char>, JsonV)>,
    key: Seq<char>,
    n: int,
)
    requires
        0 <= n <= t.len(),
        json::member_from(o, key, 0) is None,
        forall|j: int| 0 <= j < n && (#[trigger] t[j]).0 == key ==> t[j].1.default is None,
    ensures
        json::member_from(with_defaults(t, o, n), key, 0) is None,
    decreases n,
{
    if n > 0 {
        lemma_no_default(t, o, key, n - 1);
        let prev = with_defaults(t, o, n - 1);
        let (name, p) = t[n - 1];
        if json::member_from(prev, name, 0) is None && p.default is Some {
            assert(t[n - 1].0 != key);
            lemma_with_member(prev, name, p.default->0, key);
        }
    }
}

proof fn lemma_default_is(
    t: Seq<(Seq<char>, ParamV)>,
    o: Seq<(Seq<char>, JsonV)>,
    key: Seq<char>,
    k: int,
    n: int,
)
    requires
        0 <= k < n <= t.len(),
        json::member_from(o, key, 0) is None,
        t[k].0 == key,
        t[k].1.default is Some,
        forall|j: int| 0 <= j < k ==> (#[trigger] t[j]).0 != key,
    ensures
        json::member_from(with_defaults(t, o, n), key, 0) == t[k].1.default,
    decreases n,
{
    let prev = with_defaults(t, o, n - 1);
    let (name, p) = t[n - 1];
    if k == n - 1 {
        lemma_no_default(t, o, key, n - 1);
        lemma_with_member(prev, name, p.default->0, key);
    } else {
        lemma_default_is(t, o, key, k, n - 1);
        if json::member_from(prev, name, 0) is None && p.default is Some {
            lemma_with_member(prev, name, p.default->0, key);
        }
    }
}

/// A schema asks for exactly the parameters that are required, by their names.
pub proof fn schemas_ask_for_what_is_required(t: Seq<(Seq<char>, ParamV)>, n: int, name: Seq<char>)
    requires
        0 <= n <= t.len(),
    ensures
        required_below(t, n).contains(JsonV::Str(name)) <==> exists|i: int|
            0 <= i < n && (#[trigger] t[i]).0 == name && t[i].1.required,
    decreases n,
{
    if n > 0 {
        schemas_ask_for_what_is_required(t, n - 1, name);
        let p = required_below(t, n - 1);
        let h = required_below(t, n);
        let x = JsonV::Str(name);
        if h.contains(x) {
            let k = choose|k: int| 0 <= k < h.len() && h[k] == x;
            if k < p.len() {
                assert(p[k] == x);
            } else {
                assert(t[n - 1].0 == name && t[n - 1].1.required);
            }
        }
        if exists|i: int| 0 <= i < n && (#[trigger] t[i]).0 == name && t[i].1.required {
            let i = choose|i: int| 0 <= i < n && (#[trigger] t[i]).0 == name && t[i].1.required;
            if i == n - 1 {
                assert(h[p.len() as int] == x);
            } else {
                let k = choose|k: int| 0 <= k < p.len() && p[k] == x;
                assert(h[k] == x);
            }
        }
    }
}

/// What a model is told of a parameter is what is asked of it: its type, what stands for
/// it where it is not given, and its bounds.
pub proof fn schemas_tell_what_is_asked(p: ParamV)
    ensures
        param_schema(p).text_at("type"@) == Some(p.ty.name_v()),
        param_schema(p).get("default"@) == p.default,
        p.min is Some ==> param_schema(p).get("minimum"@) == Some(p.min->0.value),
        p.max is Some ==> param_schema(p).get("maximum"@) == Some(p.max->0.value),
        p.min is None ==> param_schema(p).get("minimum"@) is None,
        p.max is None ==> param_schema(p).get("maximum"@) is None,
{
    reveal_strlit("default");
    assert("default"@.len() == 7);
    reveal_strlit("description");
    assert("description"@.len() == 11);
    reveal_strlit("maximum");
    assert("maximum"@.len() == 7);
    reveal_strlit("minimum");
    assert("minimum"@.len() == 7);
    reveal_strlit("type");
    assert("type"@.len() == 4);
    assert("maximum"@[1] != "minimum"@[1]);
    assert("default"@[0] != "maximum"@[0]);
    assert("default"@[0] != "minimum"@[0]);
    reveal_with_fuel(json::member_from, 7);
}

} // verus!
