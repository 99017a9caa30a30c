//! The envelope of a reply: the only part of it a machine reads; the text inside
//! is free. What cannot be read as an envelope is kept as speech, in full. A reply
//! that means to call a tool but does so badly is marked malformed: it runs
//! nothing, and its JSON is never shown as speech.
use crate::json::{self, Json, JsonV, parse_json, print_json};
use crate::text::{self, at, cat2, cat3, cut, find_char, find_in, from_chars, skip_white, slice, str_eq, to_chars, trim};
use vstd::prelude::*;

verus! {

/// What an unclosed envelope lacks.
#[derive(Debug)]
pub struct Tail {
    /// How many envelopes the reply opens.
    pub envelopes: usize,
    /// The closing characters that are missing.
    pub missing: String,
    /// Whether it breaks off inside a string.
    pub in_string: bool,
}

/// Why a tool envelope cannot be read.
#[derive(Debug)]
pub enum Malformed {
    Unclosed(Tail),
    /// A bare control character inside a string, and what is unclosed besides.
    RawControl { ch: char, line: usize, tail: Option<Tail> },
    Syntax(String),
    Shape(String),
}

/// What a reply does.
#[derive(Debug, Clone, Copy, PartialEq, Eq, Structural)]
pub enum Verb {
    Say,
    Ask,
    Leave,
    Agree,
    Tool,
}

/// A request to call a tool.
#[derive(Debug)]
pub struct ToolInvoke {
    /// The reply means to call a tool but cannot be read: nothing is run, and the
    /// name and the module are what could be salvaged for display.
    pub malformed: bool,
    /// The module the tool belongs to, where one is named.
    pub module: Option<String>,
    pub name: String,
    /// The arguments as JSON; of a malformed request, what was found of it.
    pub args_json: String,
}

pub struct InvokeV {
    pub malformed: bool,
    pub module: Option<Seq<char>>,
    pub name: Seq<char>,
    pub args_json: Seq<char>,
}

impl View for ToolInvoke {
    type V = InvokeV;

    open spec fn view(&self) -> InvokeV {
        InvokeV {
            malformed: self.malformed,
            module: text::opt_text(self.module),
            name: self.name@,
            args_json: self.args_json@,
        }
    }
}

/// A reply as it is understood.
#[derive(Debug)]
pub struct Reply {
    pub verb: Verb,
    pub text: String,
    /// Whether no envelope was found and the text is the whole output.
    pub degraded: bool,
    /// The request, where the verb is `Tool`.
    pub tool: Option<ToolInvoke>,
}

pub struct ReplyV {
    pub verb: Verb,
    pub text: Seq<char>,
    pub degraded: bool,
    pub tool: Option<InvokeV>,
}

impl View for Reply {
    type V = ReplyV;

    open spec fn view(&self) -> ReplyV {
        ReplyV {
            verb: self.verb,
            text: self.text@,
            degraded: self.degraded,
            tool: match self.tool {
                Some(t) => Some(t@),
                None => None,
            },
        }
    }
}

// ---- balanced brackets ----

/// Where a scan of brackets stands: how many are open, and whether it is inside
/// a string, right behind a backslash there.
pub struct Scan {
    pub depth: int,
    pub in_str: bool,
    pub esc: bool,
}

/// The scan after one more character; brackets inside strings do not count.
pub open spec fn scan_step(st: Scan, c: char, open: char, close: char) -> Scan {
    if st.in_str {
        if st.esc {
            Scan { esc: false, ..st }
        } else if c == '\\' {
            Scan { esc: true, ..st }
        } else if c == '"' {
            Scan { in_str: false, ..st }
        } else {
            st
        }
    } else if c == '"' {
        Scan { in_str: true, ..st }
    } else if c == open {
        Scan { depth: st.depth + 1, ..st }
    } else if c == close {
        Scan { depth: st.depth - 1, ..st }
    } else {
        st
    }
}

/// The position of the closing bracket that brings the depth back to 0.
pub open spec fn close_from(s: Seq<char>, open: char, close: char, i: int, st: Scan) -> Option<int>
    decreases s.len() - i,
{
    if i < 0 || i >= s.len() {
        None
    } else {
        let next = scan_step(st, s[i], open, close);
        if !st.in_str && s[i] == close && s[i] != open && s[i] != '"' && next.depth == 0 {
            Some(i)
        } else {
            close_from(s, open, close, i + 1, next)
        }
    }
}

/// The first balanced run that starts at the first opening bracket.
pub open spec fn balanced(s: Seq<char>, open: char, close: char) -> Option<Seq<char>> {
    let start = text::index_of_char(s, open);
    if start < s.len() {
        match close_from(s, open, close, start, Scan { depth: 0, in_str: false, esc: false }) {
            Some(e) => Some(s.subrange(start, e + 1)),
            None => None,
        }
    } else {
        None
    }
}

fn extract_balanced(s: &str, open: char, close: char) -> (r: Option<String>)
    requires
        open != close,
        open != '"',
        close != '"',
    ensures
        match r {
            Some(t) => balanced(s@, open, close) == Some(t@),
            None => balanced(s@, open, close) is None,
        },
{
    let v = to_chars(s);
    let start: usize = find_char(&v, 0, open);
    assert(v@.skip(0) =~= v@);
    proof {
        text::lemma_index_of_char(v@, open);
    }
    if start == v.len() {
        return None;
    }
    let ghost first = Scan { depth: 0, in_str: false, esc: false };
    let ghost mut st = first;
    let mut depth: usize = 0;
    let mut in_str = false;
    let mut esc = false;
    let mut i: usize = start;
    while i < v.len()
        invariant
            start <= i <= v@.len(),
            start < v@.len(),
            v@ == s@,
            start == text::index_of_char(v@, open),
            v@[start as int] == open,
            open != close,
            open != '"',
            close != '"',
            first == (Scan { depth: 0, in_str: false, esc: false }),
            st == (Scan { depth: depth as int, in_str, esc }),
            depth <= i - start,
            i > start ==> depth > 0,
            i == start ==> !in_str,
            close_from(v@, open, close, start as int, first) == close_from(
                v@,
                open,
                close,
                i as int,
                st,
            ),
        decreases v@.len() - i,
    {
        let c = v[i];
        assert(v@.len() <= usize::MAX) by {
            assert(i < v.len());
        }
        proof {
            st = scan_step(st, c, open, close);
        }
        if in_str {
            if esc {
                esc = false;
            } else if c == '\\' {
                esc = true;
            } else if c == '"' {
                in_str = false;
            }
        } else if c == '"' {
            in_str = true;
        } else if c == open {
            assert(depth < v.len());
            depth = depth + 1;
        } else if c == close {
            depth = depth - 1;
            if depth == 0 {
                return Some(slice(&v, start, i + 1));
            }
        }
        i = i + 1;
    }
    None
}

/// The first balanced JSON array in a text.
pub fn extract_json_array(s: &str) -> (r: Option<String>)
    ensures
        match r {
            Some(t) => balanced(s@, '[', ']') == Some(t@),
            None => balanced(s@, '[', ']') is None,
        },
{
    extract_balanced(s, '[', ']')
}

/// The first balanced JSON object in a text.
pub fn extract_json_object(s: &str) -> (r: Option<String>)
    ensures
        match r {
            Some(t) => balanced(s@, '{', '}') == Some(t@),
            None => balanced(s@, '{', '}') is None,
        },
{
    extract_balanced(s, '{', '}')
}

// ---- an object left open ----

/// A scan of braces that also knows where the outermost open one is.
pub struct OpenScan {
    pub scan: Scan,
    pub last: Option<int>,
}

/// The scan after the first `n` characters. A closing brace with nothing open is nothing.
pub open spec fn open_scan(s: Seq<char>, n: int) -> OpenScan
    decreases n,
{
    if n <= 0 {
        OpenScan { scan: Scan { depth: 0, in_str: false, esc: false }, last: None }
    } else {
        let prev = open_scan(s, n - 1);
        let c = s[n - 1];
        if !prev.scan.in_str && c == '}' {
            if prev.scan.depth > 0 {
                OpenScan {
                    scan: Scan { depth: prev.scan.depth - 1, ..prev.scan },
                    last: if prev.scan.depth == 1 {
                        None
                    } else {
                        prev.last
                    },
                }
            } else {
                prev
            }
        } else {
            OpenScan {
                scan: scan_step(prev.scan, c, '{', '}'),
                last: if !prev.scan.in_str && c == '{' && prev.scan.depth == 0 {
                    Some(n - 1)
                } else {
                    prev.last
                },
            }
        }
    }
}

/// Where the object begins that is still open at the end; `None` when all are closed.
pub open spec fn unclosed_at(s: Seq<char>) -> Option<int> {
    let e = open_scan(s, s.len() as int);
    if e.scan.depth > 0 {
        e.last
    } else {
        None
    }
}

fn unclosed_start(v: &Vec<char>) -> (r: Option<usize>)
    ensures
        match r {
            Some(i) => unclosed_at(v@) == Some(i as int) && i < v@.len(),
            None => unclosed_at(v@) is None,
        },
{
    let mut depth: usize = 0;
    let mut in_str = false;
    let mut esc = false;
    let mut last: Option<usize> = None;
    let mut i: usize = 0;
    while i < v.len()
        invariant
            i <= v@.len(),
            depth <= i,
            open_scan(v@, i as int).scan == (Scan { depth: depth as int, in_str, esc }),
            match last {
                Some(k) => open_scan(v@, i as int).last == Some(k as int) && k < i,
                None => open_scan(v@, i as int).last is None,
            },
            depth > 0 ==> last is Some,
        decreases v@.len() - i,
    {
        let c = v[i];
        assert(depth < v.len());
        if in_str {
            if esc {
                esc = false;
            } else if c == '\\' {
                esc = true;
            } else if c == '"' {
                in_str = false;
            }
        } else if c == '"' {
            in_str = true;
        } else if c == '{' {
            if depth == 0 {
                last = Some(i);
            }
            depth = depth + 1;
        } else if c == '}' {
            if depth > 0 {
                depth = depth - 1;
                if depth == 0 {
                    last = None;
                }
            }
        }
        i = i + 1;
    }
    if depth > 0 {
        last
    } else {
        None
    }
}

// ---- looking into broken JSON ----

/// What follows a key at `at`, behind its colon and the white space around it.
pub open spec fn after_colon(s: Seq<char>, at: int) -> Option<Seq<char>> {
    let rest = text::trim_start_of(s.skip(at));
    if rest.len() > 0 && rest[0] == ':' {
        Some(text::trim_start_of(rest.skip(1)))
    } else {
        None
    }
}

/// Whether `"type"`, looked for from `from` on, stands before `: "tool"`.
pub open spec fn mentions_from(s: Seq<char>, from: int) -> bool
    decreases s.len() - from,
    via mentions_from_decreases
{
    match text::find_from(s, "\"type\""@, from) {
        Some(i) => {
            let at = i + 6;
            if after_colon(s, at) matches Some(rest) && text::starts(rest, "\"tool\""@) {
                true
            } else if at >= s.len() {
                false
            } else {
                mentions_from(s, at)
            }
        },
        None => false,
    }
}

#[via_fn]
proof fn mentions_from_decreases(s: Seq<char>, from: int) {
    if from >= 0 {
        text::lemma_find_from(s, "\"type\""@, from);
    }
}

/// The value of the first string member named by the quoted `key`, looked for
/// from `from` on; empty where there is none.
pub open spec fn salvaged_from(s: Seq<char>, key: Seq<char>, from: int) -> Seq<char>
    decreases s.len() - from,
    via salvaged_from_decreases
{
    match text::find_from(s, key, from) {
        Some(i) => {
            let at = i + key.len();
            let value = match after_colon(s, at) {
                Some(rest) => if rest.len() > 0 && rest[0] == '"' && text::index_of_char(
                    rest.skip(1),
                    '"',
                ) < rest.skip(1).len() {
                    Some(rest.skip(1).take(text::index_of_char(rest.skip(1), '"')))
                } else {
                    None
                },
                None => None,
            };
            match value {
                Some(v) => v,
                None => if at >= s.len() || at <= from {
                    Seq::empty()
                } else {
                    salvaged_from(s, key, at)
                },
            }
        },
        None => Seq::empty(),
    }
}

#[via_fn]
proof fn salvaged_from_decreases(s: Seq<char>, key: Seq<char>, from: int) {
    if from >= 0 {
        text::lemma_find_from(s, key, from);
    }
}

/// What follows a key, as a position.
fn skip_colon(v: &Vec<char>, at: usize) -> (r: Option<usize>)
    requires
        at <= v@.len(),
    ensures
        match r {
            Some(k) => at <= k <= v@.len() && after_colon(v@, at as int) == Some(
                v@.skip(k as int),
            ),
            None => after_colon(v@, at as int) is None,
        },
{
    let i: usize = skip_white(v, at);
    if i < v.len() && v[i] == ':' {
        assert(v@.skip(i as int)[0] == ':');
        let k: usize = skip_white(v, i + 1);
        assert(v@.skip(i as int).skip(1) =~= v@.skip(i + 1));
        Some(k)
    } else {
        proof {
            if i < v@.len() {
                assert(v@.skip(i as int)[0] == v@[i as int]);
            }
        }
        None
    }
}

fn mentions_tool_type(v: &Vec<char>) -> (r: bool)
    ensures
        r == mentions_from(v@, 0),
{
    let pat = to_chars("\"type\"");
    let tool = to_chars("\"tool\"");
    proof {
        reveal_strlit("\"type\"");
        reveal_strlit("\"tool\"");
    }
    let mut from: usize = 0;
    loop
        invariant
            from <= v@.len(),
            pat@ == "\"type\""@,
            pat@.len() == 6,
            tool@ == "\"tool\""@,
            mentions_from(v@, 0) == mentions_from(v@, from as int),
        decreases v@.len() - from,
    {
        match find_in(v, &pat, from) {
            Some(i) => {
                assert(i + 6 <= v.len());
                let at_: usize = i + 6;
                match skip_colon(v, at_) {
                    Some(k) => {
                        let hit = at(v, &tool, k);
                        proof {
                            let rest = v@.skip(k as int);
                            if k + tool@.len() <= v@.len() {
                                assert(rest.subrange(0, tool@.len() as int) =~= v@.subrange(
                                    k as int,
                                    k + tool@.len(),
                                ));
                            }
                            assert(hit == text::starts(rest, tool@));
                        }
                        if hit {
                            return true;
                        }
                    },
                    None => {},
                }
                if at_ >= v.len() {
                    return false;
                }
                from = at_;
            },
            None => {
                return false;
            },
        }
    }
}

fn salvage(v: &Vec<char>, key: &str) -> (r: String)
    requires
        key@.len() > 0,
    ensures
        r@ == salvaged_from(v@, "\""@ + key@ + "\""@, 0),
{
    let quoted = cat3("\"", key, "\"");
    let pat = to_chars(quoted.as_str());
    let mut from: usize = 0;
    loop
        invariant
            from <= v@.len(),
            pat@ == "\""@ + key@ + "\""@,
            pat@.len() > 0,
            salvaged_from(v@, pat@, 0) == salvaged_from(v@, pat@, from as int),
        decreases v@.len() - from,
    {
        match find_in(v, &pat, from) {
            Some(i) => {
                assert(i + pat@.len() <= v.len());
                let at_: usize = i + pat.len();
                match skip_colon(v, at_) {
                    Some(k) => {
                        let ghost rest = v@.skip(k as int);
                        if k < v.len() && v[k] == '"' {
                            assert(rest[0] == '"');
                            let end: usize = find_char(v, k + 1, '"');
                            assert(rest.skip(1) =~= v@.skip(k + 1));
                            proof {
                                text::lemma_index_of_char(rest.skip(1), '"');
                            }
                            if end < v.len() {
                                let s = slice(v, k + 1, end);
                                assert(rest.skip(1).take(end - (k + 1)) =~= s@);
                                return s;
                            }
                        } else {
                            proof {
                                if k < v@.len() {
                                    assert(rest[0] == v@[k as int]);
                                }
                            }
                        }
                    },
                    None => {},
                }
                if at_ >= v.len() {
                    return String::new();
                }
                from = at_;
            },
            None => {
                return String::new();
            },
        }
    }
}

/// The first `n` characters, an ellipsis behind them where more follow.
pub open spec fn head_of(s: Seq<char>, n: int) -> Seq<char> {
    if s.len() <= n {
        s
    } else {
        s.take(n).push('…')
    }
}

fn head_chars(v: &Vec<char>, n: usize) -> (r: String)
    ensures
        r@ == head_of(v@, n as int),
{
    if v.len() <= n {
        return from_chars(v);
    }
    let mut r = slice(v, 0, n);
    assert(v@.subrange(0, n as int) =~= v@.take(n as int));
    r.push('…');
    r
}

/// The text without the first run of `obj`.
pub open spec fn without_first(s: Seq<char>, obj: Seq<char>) -> Seq<char> {
    match text::find_from(s, obj, 0) {
        Some(i) => s.take(i) + s.skip(i + obj.len()),
        None => s,
    }
}

fn strip_once(raw: &str, obj: &str) -> (r: String)
    ensures
        r@ == without_first(raw@, obj@),
{
    let v = to_chars(raw);
    let p = to_chars(obj);
    match find_in(&v, &p, 0) {
        Some(i) => {
            let a = slice(&v, 0, i);
            assert(i + p@.len() <= v.len());
            let b = slice(&v, i + p.len(), v.len());
            assert(a@ =~= v@.take(i as int));
            assert(b@ =~= v@.skip(i + p@.len()));
            cat2(a.as_str(), b.as_str())
        },
        None => raw.to_owned(),
    }
}

// ---- reading a reply ----

/// A text, if it is not empty.
pub open spec fn non_empty(s: Seq<char>) -> Option<Seq<char>> {
    if s.len() == 0 {
        None
    } else {
        Some(s)
    }
}

/// The tool call an object writes: its type is `tool`, it names a tool, and its
/// module, if given, is a text.
pub open spec fn tool_call(v: JsonV) -> Option<InvokeV> {
    let module = v.get("module"@);
    if v is Obj && v.text_at("type"@) == Some("tool"@) && v.text_at("name"@) is Some && (
    module is None || module->0 is Null || module->0 is Str) {
        Some(
            InvokeV {
                malformed: false,
                module: match v.text_at("module"@) {
                    Some(m) => non_empty(text::trimmed(m)),
                    None => None,
                },
                name: v.text_at("name"@)->0,
                args_json: json::json_text(
                    match v.get("args"@) {
                        Some(a) => a,
                        None => JsonV::Null,
                    },
                ),
            },
        )
    } else {
        None
    }
}

/// The verb and the text of an ordinary envelope: an object whose type is a text
/// other than `tool` and whose text, if given, is one.
pub open spec fn speech(v: JsonV) -> Option<(Verb, Seq<char>)> {
    let kind = v.text_at("type"@);
    let text = v.get("text"@);
    if v is Obj && kind is Some && kind->0 != "tool"@ && (text is None || text->0 is Str) {
        Some(
            (
                if kind->0 == "ask"@ {
                    Verb::Ask
                } else if kind->0 == "leave"@ {
                    Verb::Leave
                } else if kind->0 == "agree"@ {
                    Verb::Agree
                } else {
                    Verb::Say
                },
                v.text_or_empty("text"@),
            ),
        )
    } else {
        None
    }
}

// ---- keys that are written twice ----

/// Where a string ends whose inside goes on at `i`: behind its closing quote.
pub open spec fn string_end(s: Seq<char>, i: int, esc: bool) -> int
    decreases s.len() - i,
{
    if i < 0 || i >= s.len() {
        i
    } else if esc {
        string_end(s, i + 1, false)
    } else if s[i] == '\\' {
        string_end(s, i + 1, true)
    } else if s[i] == '"' {
        i + 1
    } else {
        string_end(s, i + 1, false)
    }
}

pub proof fn lemma_string_end(s: Seq<char>, i: int, esc: bool)
    requires
        0 <= i <= s.len(),
    ensures
        i <= string_end(s, i, esc) <= s.len(),
    decreases s.len() - i,
{
    if i < s.len() {
        lemma_string_end(s, i + 1, false);
        lemma_string_end(s, i + 1, true);
    }
}

/// Whether the string from `i` to `e` is a key of this name: a colon follows, and it
/// reads as the name.
pub open spec fn is_key(s: Seq<char>, i: int, e: int, name: Seq<char>) -> bool {
    after_colon(s, e) is Some && json::json_of(s.subrange(i, e)) == Ok::<JsonV, Seq<char>>(
        JsonV::Str(name),
    )
}

/// How often the text of an object writes a key of its own, from `i` on, with `depth`
/// brackets open; keys further in do not count.
pub open spec fn key_count(s: Seq<char>, name: Seq<char>, i: int, depth: int) -> nat
    decreases s.len() - i,
{
    if i < 0 || i >= s.len() {
        0
    } else if s[i] == '"' {
        proof {
            lemma_string_end(s, i + 1, false);
        }
        let e = string_end(s, i + 1, false);
        key_count(s, name, e, depth) + if depth == 1 && is_key(s, i, e, name) {
            1nat
        } else {
            0nat
        }
    } else if s[i] == '{' || s[i] == '[' {
        key_count(s, name, i + 1, depth + 1)
    } else if s[i] == '}' || s[i] == ']' {
        key_count(s, name, i + 1, depth - 1)
    } else {
        key_count(s, name, i + 1, depth)
    }
}

/// Whether the envelope of a reply writes no key of these more than once.
pub open spec fn written_once(raw: Seq<char>, names: Seq<Seq<char>>) -> bool {
    balanced(raw, '{', '}') matches Some(o) ==> forall|k: int|
        0 <= k < names.len() ==> key_count(o, #[trigger] names[k], 0, 0) <= 1
}

/// The keys of a tool envelope.
pub open spec fn tool_keys() -> Seq<Seq<char>> {
    seq!["type"@, "module"@, "name"@, "args"@]
}

/// The keys of an ordinary envelope.
pub open spec fn speech_keys() -> Seq<Seq<char>> {
    seq!["type"@, "text"@]
}

fn end_of_string(v: &Vec<char>, at: usize) -> (r: usize)
    requires
        at <= v@.len(),
    ensures
        r == string_end(v@, at as int, false),
        at <= r <= v@.len(),
{
    let mut i: usize = at;
    let mut esc = false;
    while i < v.len()
        invariant
            at <= i <= v@.len(),
            string_end(v@, at as int, false) == string_end(v@, i as int, esc),
        decreases v@.len() - i,
    {
        if esc {
            esc = false;
        } else if v[i] == '\\' {
            esc = true;
        } else if v[i] == '"' {
            return i + 1;
        }
        i = i + 1;
    }
    i
}

/// Whether an object's text writes a key of its own more than once.
fn repeats(v: &Vec<char>, name: &str) -> (r: bool)
    ensures
        r == (key_count(v@, name@, 0, 0) > 1),
{
    let mut i: usize = 0;
    let mut depth: i128 = 0;
    let mut n: usize = 0;
    while i < v.len()
        invariant
            i <= v@.len(),
            n <= i,
            -(i as int) <= depth <= i,
            key_count(v@, name@, 0, 0) == n + key_count(v@, name@, i as int, depth as int),
        decreases v@.len() - i,
    {
        let c = v[i];
        if c == '"' {
            let e = end_of_string(v, i + 1);
            if depth == 1 {
                let colon = match skip_colon(v, e) {
                    Some(_) => true,
                    None => false,
                };
                let key = slice(v, i, e);
                let same = match parse_json(key.as_str()) {
                    Ok(Json::Str(k)) => str_eq(k.as_str(), name),
                    _ => false,
                };
                assert(same == (json::json_of(v@.subrange(i as int, e as int)) == Ok::<
                    JsonV,
                    Seq<char>,
                >(JsonV::Str(name@))));
                if colon && same {
                    n = n + 1;
                }
            }
            i = e;
        } else {
            if c == '{' || c == '[' {
                depth = depth + 1;
            } else if c == '}' || c == ']' {
                depth = depth - 1;
            }
            i = i + 1;
        }
    }
    n > 1
}

/// Whether the envelope of a reply writes each key of a call at most once.
fn call_keys_once(raw: &str) -> (r: bool)
    ensures
        r == written_once(raw@, tool_keys()),
{
    match extract_json_object(raw) {
        Some(o) => {
            let v = to_chars(o.as_str());
            let r = !repeats(&v, "type") && !repeats(&v, "module") && !repeats(&v, "name")
                && !repeats(&v, "args");
            proof {
                let names = tool_keys();
                assert(names[0] == "type"@ && names[1] == "module"@ && names[2] == "name"@
                    && names[3] == "args"@);
            }
            r
        },
        None => true,
    }
}

/// Whether the envelope of a reply writes each key of speech at most once.
pub(crate) fn speech_keys_once(raw: &str) -> (r: bool)
    ensures
        r == written_once(raw@, speech_keys()),
{
    match extract_json_object(raw) {
        Some(o) => {
            let v = to_chars(o.as_str());
            let r = !repeats(&v, "type") && !repeats(&v, "text");
            proof {
                let names = speech_keys();
                assert(names[0] == "type"@ && names[1] == "text"@);
            }
            r
        },
        None => true,
    }
}

/// A malformed call found in `found`.
pub open spec fn malformed_call(text: Seq<char>, found: Seq<char>, args: Seq<char>) -> ReplyV {
    ReplyV {
        verb: Verb::Tool,
        text: text::trimmed(text),
        degraded: false,
        tool: Some(
            InvokeV {
                malformed: true,
                module: non_empty(salvaged_from(found, "\""@ + "module"@ + "\""@, 0)),
                name: salvaged_from(found, "\""@ + "name"@ + "\""@, 0),
                args_json: args,
            },
        ),
    }
}

/// A reply without a readable envelope: an envelope left open or, where the
/// reply is a JSON object, one that cannot be read; otherwise speech.
pub open spec fn unread(raw: Seq<char>) -> ReplyV {
    let open = unclosed_at(raw);
    let obj = balanced(raw, '{', '}');
    let probe = match obj {
        Some(o) => o,
        None => raw,
    };
    let body = text::trim_start_of(raw);
    if open is Some && mentions_from(raw.skip(open->0), 0) {
        malformed_call(
            raw.take(open->0),
            raw.skip(open->0),
            head_of(raw.skip(open->0), 200),
        )
    } else if body.len() > 0 && body[0] == '{' && mentions_from(probe, 0) {
        malformed_call(
            match obj {
                Some(o) => without_first(raw, o),
                None => raw.take(text::index_of_char(raw, '{')),
            },
            probe,
            match obj {
                Some(o) => o,
                None => head_of(raw, 200),
            },
        )
    } else {
        ReplyV { verb: Verb::Say, text: text::trimmed(raw), degraded: true, tool: None }
    }
}

/// How a reply is understood, given the value of the first JSON object in it (if
/// there is one that can be read). An envelope that writes one of its keys twice is
/// not taken.
pub open spec fn reply_of(raw: Seq<char>, value: Option<JsonV>) -> ReplyV {
    match value {
        Some(v) => match (if written_once(raw, tool_keys()) {
            tool_call(v)
        } else {
            None
        }) {
            Some(t) => ReplyV {
                verb: Verb::Tool,
                text: text::trimmed(
                    match balanced(raw, '{', '}') {
                        Some(o) => without_first(raw, o),
                        None => raw,
                    },
                ),
                degraded: false,
                tool: Some(t),
            },
            None => match (if written_once(raw, speech_keys()) {
                speech(v)
            } else {
                None
            }) {
                Some(p) => ReplyV { verb: p.0, text: p.1, degraded: false, tool: None },
                None => unread(raw),
            },
        },
        None => unread(raw),
    }
}

/// The value of the first JSON object of a text, if there is one that can be read.
pub open spec fn first_value(raw: Seq<char>) -> Option<JsonV> {
    match balanced(raw, '{', '}') {
        Some(o) => match json::json_of(o) {
            Ok(v) => Some(v),
            Err(_) => None,
        },
        None => None,
    }
}

fn keep_non_empty(s: String) -> (r: Option<String>)
    ensures
        text::opt_text(r) == non_empty(s@),
{
    if s.as_str().is_empty() {
        None
    } else {
        Some(s)
    }
}

fn read_tool(v: &Json) -> (r: Option<ToolInvoke>)
    ensures
        match r {
            Some(t) => tool_call(v@) == Some(t@),
            None => tool_call(v@) is None,
        },
{
    let is_obj = match v {
        Json::Obj(_) => true,
        _ => false,
    };
    if !is_obj {
        return None;
    }
    match v.str_at("type") {
        Some(t) => {
            if !str_eq(t, "tool") {
                return None;
            }
        },
        None => {
            return None;
        },
    }
    let name = match v.str_at("name") {
        Some(n) => n.to_owned(),
        None => {
            return None;
        },
    };
    let module = match v.get("module") {
        None => None,
        Some(Json::Null) => None,
        Some(Json::Str(m)) => keep_non_empty(trim(m.as_str())),
        Some(_) => {
            return None;
        },
    };
    let args_json = match v.get("args") {
        Some(a) => print_json(a),
        None => print_json(&Json::Null),
    };
    Some(ToolInvoke { malformed: false, module, name, args_json })
}

fn read_speech(v: &Json) -> (r: Option<(Verb, String)>)
    ensures
        match r {
            Some(p) => speech(v@) == Some((p.0, p.1@)),
            None => speech(v@) is None,
        },
{
    let is_obj = match v {
        Json::Obj(_) => true,
        _ => false,
    };
    if !is_obj {
        return None;
    }
    let kind = match v.str_at("type") {
        Some(t) => t,
        None => {
            return None;
        },
    };
    if str_eq(kind, "tool") {
        return None;
    }
    match v.get("text") {
        None => {},
        Some(Json::Str(_)) => {},
        Some(_) => {
            return None;
        },
    }
    let verb = if str_eq(kind, "ask") {
        Verb::Ask
    } else if str_eq(kind, "leave") {
        Verb::Leave
    } else if str_eq(kind, "agree") {
        Verb::Agree
    } else {
        Verb::Say
    };
    Some((verb, v.str_or_empty("text")))
}

fn broken_call(text: &str, found: &Vec<char>, args_json: String) -> (r: Reply)
    ensures
        r@ == malformed_call(text@, found@, args_json@),
{
    proof {
        reveal_strlit("module");
        reveal_strlit("name");
    }
    Reply {
        verb: Verb::Tool,
        text: trim(text),
        degraded: false,
        tool: Some(
            ToolInvoke {
                malformed: true,
                module: keep_non_empty(salvage(found, "module")),
                name: salvage(found, "name"),
                args_json,
            },
        ),
    }
}

fn read_unread(raw: &str) -> (r: Reply)
    ensures
        r@ == unread(raw@),
{
    let v = to_chars(raw);
    match unclosed_start(&v) {
        Some(start) => {
            let frag = cut(&v, start, v.len());
            assert(frag@ =~= v@.skip(start as int));
            if mentions_tool_type(&frag) {
                let lead = slice(&v, 0, start);
                assert(lead@ =~= v@.take(start as int));
                return broken_call(lead.as_str(), &frag, head_chars(&frag, 200));
            }
        },
        None => {},
    }
    let body: usize = skip_white(&v, 0);
    assert(v@.skip(0) =~= v@);
    if body < v.len() && v[body] == '{' {
        assert(v@.skip(body as int)[0] == '{');
        match extract_json_object(raw) {
            Some(o) => {
                let probe = to_chars(o.as_str());
                if mentions_tool_type(&probe) {
                    let text = strip_once(raw, o.as_str());
                    return broken_call(text.as_str(), &probe, o);
                }
            },
            None => {
                if mentions_tool_type(&v) {
                    let k: usize = find_char(&v, 0, '{');
                    let text = slice(&v, 0, k);
                    assert(text@ =~= v@.take(k as int));
                    let head = head_chars(&v, 200);
                    return broken_call(text.as_str(), &v, head);
                }
            },
        }
    } else {
        proof {
            if body < v@.len() {
                assert(v@.skip(body as int)[0] == v@[body as int]);
            }
        }
    }
    Reply { verb: Verb::Say, text: trim(raw), degraded: true, tool: None }
}

/// Understands a reply, given the value of the first JSON object in it.
pub fn read_reply(raw: &str, value: Option<&Json>) -> (r: Reply)
    ensures
        r@ == reply_of(
            raw@,
            match value {
                Some(v) => Some(v@),
                None => None,
            },
        ),
{
    match value {
        Some(v) => {
            let call = if call_keys_once(raw) {
                read_tool(v)
            } else {
                None
            };
            match call {
                Some(t) => {
                    let text = match extract_json_object(raw) {
                        Some(o) => strip_once(raw, o.as_str()),
                        None => raw.to_owned(),
                    };
                    return Reply {
                        verb: Verb::Tool,
                        text: trim(text.as_str()),
                        degraded: false,
                        tool: Some(t),
                    };
                },
                None => {},
            }
            let said = if speech_keys_once(raw) {
                read_speech(v)
            } else {
                None
            };
            match said {
                Some(p) => {
                    return Reply { verb: p.0, text: p.1, degraded: false, tool: None };
                },
                None => {},
            }
            read_unread(raw)
        },
        None => read_unread(raw),
    }
}

/// Understands a reply: the first JSON object in it is its envelope.
pub fn parse(raw: &str) -> (r: Reply)
    ensures
        r@ == reply_of(raw@, first_value(raw@)),
{
    match extract_json_object(raw) {
        Some(o) => match parse_json(o.as_str()) {
            Ok(v) => read_reply(raw, Some(&v)),
            Err(_) => read_reply(raw, None),
        },
        None => read_reply(raw, None),
    }
}

// ---- laws ----

proof fn lemma_close_from(s: Seq<char>, open: char, close: char, i: int, st: Scan)
    requires
        0 <= i,
    ensures
        close_from(s, open, close, i, st) matches Some(e) ==> i <= e < s.len() && s[e] == close,
    decreases s.len() - i,
{
    if i < s.len() {
        lemma_close_from(s, open, close, i + 1, scan_step(st, s[i], open, close));
    }
}

/// What is extracted is a run of the text that begins with the opening bracket
/// and ends with the closing one.
pub proof fn extracted_is_bracketed(s: Seq<char>, open: char, close: char)
    requires
        open != close,
        open != '"',
    ensures
        balanced(s, open, close) matches Some(t) ==> t.len() >= 2 && t[0] == open && t.last()
            == close && text::contains_text(s, t),
{
    text::lemma_index_of_char(s, open);
    let start = text::index_of_char(s, open);
    let st = Scan { depth: 0, in_str: false, esc: false };
    if start < s.len() {
        lemma_close_from(s, open, close, start, st);
        match close_from(s, open, close, start, st) {
            Some(e) => {
                let t = s.subrange(start, e + 1);
                assert(e > start);
                assert(text::stands_at(s, t, start));
            },
            None => {},
        }
    }
}

/// A reply carries a request exactly when its verb is `Tool`, and is speech kept
/// in full (but for the white space around it) exactly when it is degraded.
pub proof fn verb_tells_the_reply(raw: Seq<char>, value: Option<JsonV>)
    ensures
        reply_of(raw, value).verb is Tool <==> reply_of(raw, value).tool is Some,
        reply_of(raw, value).degraded ==> reply_of(raw, value).text == text::trimmed(raw)
            && reply_of(raw, value).verb is Say,
{
}

/// Text without a brace is speech, kept in full but for the white space around it.
pub proof fn plain_text_is_speech(raw: Seq<char>)
    requires
        !raw.contains('{'),
    ensures
        reply_of(raw, first_value(raw)) == (ReplyV {
            verb: Verb::Say,
            text: text::trimmed(raw),
            degraded: true,
            tool: None,
        }),
{
    text::lemma_index_of_char(raw, '{');
    if text::index_of_char(raw, '{') < raw.len() {
        assert(raw.contains(raw[text::index_of_char(raw, '{')]));
    }
    lemma_nothing_open(raw, raw.len() as int);
    lemma_trim_start_keeps(raw);
}

proof fn lemma_nothing_open(s: Seq<char>, n: int)
    requires
        !s.contains('{'),
        0 <= n <= s.len(),
    ensures
        open_scan(s, n).scan.depth == 0,
    decreases n,
{
    if n > 0 {
        lemma_nothing_open(s, n - 1);
        assert(s.contains(s[n - 1]));
    }
}

proof fn lemma_trim_start_keeps(s: Seq<char>)
    ensures
        text::trim_start_of(s).len() > 0 ==> s.contains(text::trim_start_of(s)[0]),
    decreases s.len(),
{
    if s.len() > 0 {
        if text::white(s[0]) {
            lemma_trim_start_keeps(s.drop_first());
            let t = text::trim_start_of(s);
            if t.len() > 0 {
                let k = choose|k: int| 0 <= k < s.drop_first().len() && s.drop_first()[k] == t[0];
                assert(s[k + 1] == t[0]);
            }
        } else {
            assert(s.contains(s[0]));
        }
    }
}

/// An envelope that calls a tool says which: the name as it stands, the module where one
/// is named, without the white space around it, and the arguments as they stand.
pub proof fn tool_envelopes_say_what_is_called(raw: Seq<char>, v: JsonV, name: Seq<char>)
    requires
        v.get("type"@) == Some(JsonV::Str("tool"@)),
        v.get("name"@) == Some(JsonV::Str(name)),
        v.get("module"@) is None || v.get("module"@)->0 is Null || v.get("module"@)->0 is Str,
        written_once(raw, tool_keys()),
    ensures
        ({
            let r = reply_of(raw, Some(v));
            let c = r.tool->0;
            &&& r.verb is Tool && !r.degraded && r.tool is Some
            &&& !c.malformed && c.name == name
            &&& v.get("module"@) matches Some(JsonV::Str(m)) ==> (text::trimmed(m).len() > 0 ==> c.module
                == Some(text::trimmed(m))) && (text::trimmed(m).len() == 0 ==> c.module is None)
            &&& v.get("module"@) is None || v.get("module"@) == Some(JsonV::Null) ==> c.module is None
            &&& v.get("args"@) matches Some(a) ==> c.args_json == json::json_text(a)
            &&& v.get("args"@) is None ==> c.args_json == json::json_text(JsonV::Null)
        }),
{
    assert(v is Obj);
}

/// An envelope that speaks says what its text is, and takes the stand its type names;
/// a type that is none of these is plain speech.
pub proof fn speech_envelopes_say_what_is_said(raw: Seq<char>, v: JsonV, kind: Seq<char>)
    requires
        v.get("type"@) == Some(JsonV::Str(kind)),
        kind != "tool"@,
        v.get("text"@) is None || v.get("text"@)->0 is Str,
        written_once(raw, speech_keys()),
    ensures
        ({
            let r = reply_of(raw, Some(v));
            &&& !r.degraded && r.tool is None
            &&& r.verb is Ask <==> kind == "ask"@
            &&& r.verb is Leave <==> kind == "leave"@
            &&& r.verb is Agree <==> kind == "agree"@
            &&& r.verb is Say <==> kind != "ask"@ && kind != "leave"@ && kind != "agree"@
            &&& v.get("text"@) matches Some(JsonV::Str(s)) ==> r.text == s
            &&& v.get("text"@) is None ==> r.text.len() == 0
        }),
{
    assert(v is Obj);
    reveal_strlit("ask");
    reveal_strlit("leave");
    reveal_strlit("agree");
    assert("ask"@.len() == 3 && "leave"@.len() == 5 && "agree"@.len() == 5);
    assert("leave"@[0] == 'l' && "agree"@[0] == 'a');
}

/// What stands around the envelope of a call is what is said with it: the text without
/// the envelope, and without the white space around.
pub proof fn prose_around_a_call_is_kept(raw: Seq<char>, v: JsonV)
    requires
        first_value(raw) == Some(v),
        reply_of(raw, Some(v)).tool is Some,
        !(reply_of(raw, Some(v)).tool->0).malformed,
    ensures
        exists|a: Seq<char>, o: Seq<char>, b: Seq<char>|
            raw == #[trigger] (a + o + b) && o.len() >= 2 && o[0] == '{' && o.last() == '}' && json::json_of(
                o,
            ) == Ok::<JsonV, Seq<char>>(v) && reply_of(raw, Some(v)).text == text::trimmed(a + b),
{
    extracted_is_bracketed(raw, '{', '}');
    let o = balanced(raw, '{', '}')->0;
    text::lemma_contains_text(raw, o);
    text::lemma_find_from(raw, o, 0);
    let i = text::find_from(raw, o, 0)->0;
    let a = raw.take(i);
    let b = raw.skip(i + o.len());
    assert(raw =~= a + o + b);
    assert(reply_of(raw, Some(v)).text == text::trimmed(a + b));
}

proof fn lemma_close_shift(a: Seq<char>, s: Seq<char>, open: char, close: char, i: int, st: Scan)
    requires
        0 <= i <= s.len(),
    ensures
        match close_from(s, open, close, i, st) {
            Some(e) => close_from(a + s, open, close, a.len() + i, st) == Some(a.len() + e),
            None => close_from(a + s, open, close, a.len() + i, st) is None,
        },
    decreases s.len() - i,
{
    if i < s.len() {
        assert((a + s)[a.len() + i] == s[i]);
        lemma_close_shift(a, s, open, close, i + 1, scan_step(st, s[i], open, close));
    }
}

proof fn lemma_close_more(s: Seq<char>, b: Seq<char>, open: char, close: char, i: int, st: Scan)
    requires
        0 <= i <= s.len(),
    ensures
        close_from(s, open, close, i, st) matches Some(e) ==> close_from(s + b, open, close, i, st) == Some(
            e,
        ),
    decreases s.len() - i,
{
    if i < s.len() {
        assert((s + b)[i] == s[i]);
        lemma_close_more(s, b, open, close, i + 1, scan_step(st, s[i], open, close));
    }
}

/// Prose without an opening bracket before what is bracketed, and anything behind it,
/// do not change what is extracted.
pub proof fn prose_around_does_not_matter(a: Seq<char>, s: Seq<char>, b: Seq<char>, open: char, close: char)
    requires
        !a.contains(open),
    ensures
        balanced(a + s, open, close) == balanced(s, open, close),
        balanced(s, open, close) is Some ==> balanced(s + b, open, close) == balanced(s, open, close),
{
    let st = Scan { depth: 0, in_str: false, esc: false };
    text::lemma_index_of_char(s, open);
    let i = text::index_of_char(s, open);
    let t = a + s;
    assert forall|k: int| 0 <= k < a.len() + i implies t[k] != open by {
        if k < a.len() {
            assert(t[k] == a[k]);
            assert(a.contains(a[k]));
        } else {
            assert(t[k] == s[k - a.len()]);
        }
    }
    if i < s.len() {
        assert(t[a.len() + i] == s[i]);
    }
    text::lemma_index_of_char_is(t, open, a.len() + i);
    if i < s.len() {
        lemma_close_shift(a, s, open, close, i, st);
        lemma_close_from(s, open, close, i, st);
        match close_from(s, open, close, i, st) {
            Some(e) => {
                assert(t.subrange(a.len() + i, a.len() + e + 1) =~= s.subrange(i, e + 1));
                let u = s + b;
                assert forall|k: int| 0 <= k < i implies u[k] != open by {
                    assert(u[k] == s[k]);
                }
                assert(u[i] == s[i]);
                text::lemma_index_of_char_is(u, open, i);
                lemma_close_more(s, b, open, close, i, st);
                assert(u.subrange(i, e + 1) =~= s.subrange(i, e + 1));
            },
            None => {},
        }
    }
}

/// The simplest object is extracted whole: a brace, text without braces or quotes, and
/// the closing brace.
pub proof fn plain_objects_are_extracted(inner: Seq<char>)
    requires
        !inner.contains('{'),
        !inner.contains('}'),
        !inner.contains('"'),
    ensures
        balanced(seq!['{'] + inner + seq!['}'], '{', '}') == Some(seq!['{'] + inner + seq!['}']),
{
    let s = seq!['{'] + inner + seq!['}'];
    text::lemma_index_of_char_is(s, '{', 0);
    lemma_plain_close(s, inner.len() as int + 1, 1);
    let st = Scan { depth: 0, in_str: false, esc: false };
    assert(s[0] == '{');
    assert(scan_step(st, '{', '{', '}') == (Scan { depth: 1, in_str: false, esc: false }));
    assert forall|k: int| 1 <= k < inner.len() + 1 implies s[k] != '{' && s[k] != '}' && s[k] != '"' by {
        assert(s[k] == inner[k - 1]);
        assert(inner.contains(inner[k - 1]));
    }
    assert(close_from(s, '{', '}', 0, st) == close_from(
        s,
        '{',
        '}',
        1,
        Scan { depth: 1, in_str: false, esc: false },
    ));
    assert(s.subrange(0, s.len() as int) =~= s);
}

proof fn lemma_plain_close(s: Seq<char>, n: int, i: int)
    requires
        1 <= i <= n,
        n < s.len(),
    ensures
        (s[n] == '}' && forall|k: int| i <= k < n ==> s[k] != '{' && s[k] != '}' && s[k] != '"')
            ==> close_from(s, '{', '}', i, Scan { depth: 1, in_str: false, esc: false }) == Some(n),
    decreases n - i,
{
    let st = Scan { depth: 1, in_str: false, esc: false };
    if s[n] == '}' && forall|k: int| i <= k < n ==> s[k] != '{' && s[k] != '}' && s[k] != '"' {
        if i < n {
            assert(s[i] != '}');
            lemma_plain_close(s, n, i + 1);
            assert(scan_step(st, s[i], '{', '}') == st);
        }
    }
}

proof fn lemma_after_colon(s: Seq<char>, at: int, rest: Seq<char>)
    requires
        0 <= at <= s.len(),
        s.skip(at) == seq![':', '"'] + rest,
    ensures
        after_colon(s, at) == Some(seq!['"'] + rest),
{
    let t = s.skip(at);
    text::white_space_cannot_be_seen(':');
    text::white_space_cannot_be_seen('"');
    assert(t[0] == ':');
    assert(text::trim_start_of(t) == t);
    assert(t.skip(1) =~= seq!['"'] + rest);
    assert(t.skip(1)[0] == '"');
    assert(text::trim_start_of(t.skip(1)) == t.skip(1));
}

/// What a broken call still says is read: the text between the quotes behind a key.
pub proof fn broken_calls_are_read_by_their_keys(
    s: Seq<char>,
    key: Seq<char>,
    i: int,
    x: Seq<char>,
    rest: Seq<char>,
)
    requires
        text::find_from(s, key, 0) == Some(i),
        i + key.len() <= s.len(),
        s.skip(i + key.len()) == seq![':', '"'] + (x + seq!['"'] + rest),
        !x.contains('"'),
    ensures
        salvaged_from(s, key, 0) == x,
{
    text::lemma_find_from(s, key, 0);
    let y = x + seq!['"'] + rest;
    lemma_after_colon(s, i + key.len() as int, y);
    let r = seq!['"'] + y;
    assert(r.skip(1) =~= y);
    assert forall|k: int| 0 <= k < x.len() implies y[k] != '"' by {
        assert(x.contains(x[k]));
    }
    text::lemma_index_of_char_is(y, '"', x.len() as int);
    assert(y.take(x.len() as int) =~= x);
}

/// A reply that cannot be read as an envelope is a broken call where an object was left
/// open that says it calls a tool: what stands before it is kept as words. Where nothing
/// in it says so, it is taken as words, as it stands.
pub proof fn broken_calls_are_told_from_words(raw: Seq<char>, i: int)
    ensures
        unclosed_at(raw) == Some(i) && 0 <= i <= raw.len() && mentions_from(raw.skip(i), 0) ==> ({
            let r = reply_of(raw, None);
            r.verb is Tool && !r.degraded && (r.tool matches Some(t) && t.malformed) && r.text == text::trimmed(
                raw.take(i),
            )
        }),
        unclosed_at(raw) is None && (text::trim_start_of(raw).len() == 0 || text::trim_start_of(raw)[0] != '{')
            ==> ({
            let r = reply_of(raw, None);
            r.verb is Say && r.degraded && r.tool is None && r.text == text::trimmed(raw)
        }),
        reply_of(raw, None).tool matches Some(t) ==> t.malformed,
{
}

/// Whether there is no quote and no brace in a text.
pub open spec fn is_bare(s: Seq<char>) -> bool {
    forall|k: int| 0 <= k < s.len() ==> #[trigger] s[k] != '"' && s[k] != '{' && s[k] != '}'
}

proof fn lemma_bare_stretch(s: Seq<char>, i: int, n: int)
    requires
        0 <= i <= n <= s.len(),
        !open_scan(s, i).scan.in_str,
        forall|k: int| i <= k < n ==> #[trigger] s[k] != '"' && s[k] != '{' && s[k] != '}',
    ensures
        open_scan(s, n) == open_scan(s, i),
    decreases n - i,
{
    if i < n {
        lemma_bare_stretch(s, i, n - 1);
        assert(s[n - 1] != '"');
    }
}

/// An object that was begun and not ended is found where it begins; one that was ended is
/// not taken for one that was left open.
pub proof fn objects_left_open_are_found(a: Seq<char>, b: Seq<char>, c: Seq<char>)
    requires
        is_bare(a),
        is_bare(b),
        is_bare(c),
    ensures
        unclosed_at(a + seq!['{'] + b) == Some(a.len() as int),
        unclosed_at(a + seq!['{'] + b + seq!['}'] + c) is None,
{
    let s = a + seq!['{'] + b;
    let n = a.len() as int;
    assert forall|k: int| 0 <= k < n implies #[trigger] s[k] != '"' && s[k] != '{' && s[k] != '}' by {
        assert(s[k] == a[k]);
    }
    lemma_bare_stretch(s, 0, n);
    assert(s[n] == '{');
    let at = open_scan(s, n + 1);
    assert(at.scan.depth == 1 && !at.scan.in_str && at.last == Some(n));
    assert forall|k: int| n + 1 <= k < s.len() implies #[trigger] s[k] != '"' && s[k] != '{' && s[k] != '}' by {
        assert(s[k] == b[k - n - 1]);
    }
    lemma_bare_stretch(s, n + 1, s.len() as int);
    let t = a + seq!['{'] + b + seq!['}'] + c;
    assert forall|k: int| 0 <= k < n implies #[trigger] t[k] != '"' && t[k] != '{' && t[k] != '}' by {
        assert(t[k] == a[k]);
    }
    lemma_bare_stretch(t, 0, n);
    assert(t[n] == '{');
    let bt = open_scan(t, n + 1);
    assert(bt.scan.depth == 1 && !bt.scan.in_str);
    let m = n + 1 + b.len();
    assert forall|k: int| n + 1 <= k < m implies #[trigger] t[k] != '"' && t[k] != '{' && t[k] != '}' by {
        assert(t[k] == b[k - n - 1]);
    }
    lemma_bare_stretch(t, n + 1, m);
    assert(t[m] == '}');
    let ct = open_scan(t, m + 1);
    assert(ct.scan.depth == 0 && !ct.scan.in_str);
    assert forall|k: int| m + 1 <= k < t.len() implies #[trigger] t[k] != '"' && t[k] != '{' && t[k] != '}' by {
        assert(t[k] == c[k - m - 1]);
    }
    lemma_bare_stretch(t, m + 1, t.len() as int);
}

} // verus!
