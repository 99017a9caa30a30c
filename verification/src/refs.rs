//! References in what the user writes: `@work:<path>` and `@sandbox:<agent>/<path>`
//! become real paths. Anything else with an `@` stays as it is. A path in quotes
//! reaches to the closing quote, any other up to white space or punctuation, which
//! stays in the text. The path of another agent's sandbox is never given away.
use crate::prompt::{self, RefsPrompts, fill2};
use crate::text::{self, at, cat2, cat3, find_char, is_white, slice, split, str_eq, to_chars};
use crate::workspace::{self, PathV, RealPath, slash, slash_text};
use vstd::prelude::*;

verus! {

/// The real roots: what the whole team shares and, for a single agent, its own.
#[derive(Debug)]
pub struct RefRoots {
    pub work: RealPath,
    pub private: Option<RealPath>,
}

/// Whether a character ends a path without quotes. The full stop does not: it is
/// far more often part of a file's name.
pub open spec fn terminator(c: char) -> bool {
    text::white(c) || c == '，' || c == '。' || c == '；' || c == '、' || c == '！' || c == '？' || c == '：' || c
        == ',' || c == ';' || c == '!' || c == '?' || c == ':' || c == '）' || c == ')' || c == '」' || c
        == '』' || c == '】' || c == '》'
}

pub fn is_terminator(c: char) -> (r: bool)
    ensures
        r == terminator(c),
{
    is_white(c) || c == '，' || c == '。' || c == '；' || c == '、' || c == '！' || c == '？' || c == '：'
        || c == ',' || c == ';' || c == '!' || c == '?' || c == ':' || c == '）' || c == ')' || c == '」'
        || c == '』' || c == '】' || c == '》'
}

/// The position of the first character that ends a path, or the length.
pub open spec fn path_end(s: Seq<char>) -> int
    decreases s.len(),
{
    if s.len() == 0 {
        0
    } else if terminator(s[0]) {
        0
    } else {
        1 + path_end(s.drop_first())
    }
}

proof fn lemma_path_end(s: Seq<char>, i: int)
    requires
        0 <= i <= s.len(),
        forall|k: int| 0 <= k < i ==> !terminator(#[trigger] s[k]),
        i < s.len() ==> terminator(s[i]),
    ensures
        path_end(s) == i,
    decreases s.len(),
{
    if s.len() > 0 && !terminator(s[0]) {
        let t = s.drop_first();
        assert forall|k: int| 0 <= k < i - 1 implies !terminator(#[trigger] t[k]) by {
            assert(t[k] == s[k + 1]);
        }
        lemma_path_end(t, i - 1);
    }
}

/// A path at the beginning of a text, and how many characters it takes.
pub open spec fn ref_of(body: Seq<char>) -> Option<(Seq<char>, int)> {
    if body.len() > 0 && body[0] == '"' {
        let inner = body.skip(1);
        let end = text::index_of_char(inner, '"');
        if end >= inner.len() || end == 0 {
            None
        } else {
            Some((inner.take(end), end + 2))
        }
    } else {
        let end = path_end(body);
        if end == 0 {
            None
        } else {
            Some((body.take(end), end))
        }
    }
}

fn take_ref(v: &Vec<char>, from: usize) -> (r: Option<(String, usize)>)
    requires
        from <= v@.len(),
    ensures
        match r {
            Some(x) => ref_of(v@.skip(from as int)) == Some((x.0@, x.1 as int)) && 0 < x.1
                <= v@.len() - from,
            None => ref_of(v@.skip(from as int)) is None,
        },
{
    let ghost body = v@.skip(from as int);
    if from < v.len() && v[from] == '"' {
        let end = find_char(v, from + 1, '"');
        assert(v@.skip(from + 1) =~= body.skip(1));
        if end >= v.len() || end == from + 1 {
            return None;
        }
        let path = slice(v, from + 1, end);
        assert(path@ =~= body.skip(1).take(end - from - 1));
        return Some((path, end - from + 1));
    }
    let mut k: usize = from;
    while k < v.len() && !is_terminator(v[k])
        invariant
            from <= k <= v@.len(),
            forall|j: int| from <= j < k ==> !terminator(#[trigger] v@[j]),
        decreases v@.len() - k,
    {
        k = k + 1;
    }
    proof {
        assert forall|j: int| 0 <= j < k - from implies !terminator(#[trigger] body[j]) by {
            assert(body[j] == v@[j + from]);
        }
        lemma_path_end(body, k - from);
    }
    if k == from {
        return None;
    }
    let path = slice(v, from, k);
    assert(path@ =~= body.take(k - from));
    Some((path, k - from))
}

/// An agent and a path at the beginning of a text, and how many characters they take.
pub open spec fn sandbox_ref_of(body: Seq<char>) -> Option<(Seq<char>, Seq<char>, int)> {
    let split: Option<(Seq<char>, int)> = if body.len() > 0 && body[0] == '"' {
        let inner = body.skip(1);
        let end = text::index_of_char(inner, '"');
        if end >= inner.len() || end == 0 || end + 1 >= inner.len() || inner[end + 1] != '/' {
            None
        } else {
            Some((inner.take(end), end + 3))
        }
    } else {
        let at = text::index_of_char(body, '/');
        if at >= body.len() || at == 0 {
            None
        } else {
            Some((body.take(at), at + 1))
        }
    };
    match split {
        None => None,
        Some(x) => match ref_of(body.skip(x.1)) {
            None => None,
            Some(y) => Some((x.0, y.0, x.1 + y.1)),
        },
    }
}

fn take_sandbox_ref(v: &Vec<char>, from: usize) -> (r: Option<(String, String, usize)>)
    requires
        from <= v@.len(),
    ensures
        match r {
            Some(x) => sandbox_ref_of(v@.skip(from as int)) == Some((x.0@, x.1@, x.2 as int)) && 0
                < x.2 <= v@.len() - from,
            None => sandbox_ref_of(v@.skip(from as int)) is None,
        },
{
    let ghost body = v@.skip(from as int);
    let (agent, head) = if from < v.len() && v[from] == '"' {
        let end = find_char(v, from + 1, '"');
        assert(v@.skip(from + 1) =~= body.skip(1));
        if end >= v.len() || end == from + 1 {
            return None;
        }
        if end + 1 >= v.len() {
            return None;
        }
        assert(body.skip(1)[end - from] == v@[end + 1]);
        if v[end + 1] != '/' {
            return None;
        }
        let agent = slice(v, from + 1, end);
        assert(agent@ =~= body.skip(1).take(end - from - 1));
        (agent, end - from + 2)
    } else {
        let at = find_char(v, from, '/');
        if at >= v.len() || at == from {
            return None;
        }
        let agent = slice(v, from, at);
        assert(agent@ =~= body.take(at - from));
        (agent, at - from + 1)
    };
    assert(from + head <= v.len());
    assert(v@.skip(from + head) =~= body.skip(head as int));
    match take_ref(v, from + head) {
        Some((rel, n)) => Some((agent, rel, head + n)),
        None => None,
    }
}

/// A path below a root, piece by piece; pieces that are empty are left out.
pub open spec fn below_root(root: Seq<char>, segs: Seq<Seq<char>>) -> Seq<char>
    decreases segs.len(),
{
    if segs.len() == 0 {
        root
    } else {
        let prev = below_root(root, segs.drop_last());
        let s = segs.last();
        if s.len() == 0 {
            prev
        } else if prev.len() > 0 && prev.last() == '/' {
            prev + s
        } else {
            prev + "/"@ + s
        }
    }
}

/// A root and a path below it as one path, written with `/`; none where the root is
/// not known yet.
pub open spec fn full_path_of(root: PathV, rel: Seq<char>) -> Option<Seq<char>> {
    if root.text.len() == 0 {
        None
    } else {
        Some(below_root(workspace::slashed(root.text), text::split_at_char(workspace::slashed(rel), '/')))
    }
}

pub fn full_path(root: &RealPath, rel: &str) -> (r: Option<String>)
    ensures
        text::opt_text(r) == full_path_of(root@, rel@),
{
    if root.text.as_str().unicode_len() == 0 {
        return None;
    }
    let segs = split(slash_text(rel).as_str(), '/');
    let ghost sv = text::texts(segs@);
    let mut p = slash(root);
    let ghost base = p@;
    let mut i: usize = 0;
    assert(sv.take(0) =~= Seq::<Seq<char>>::empty());
    while i < segs.len()
        invariant
            i <= segs@.len(),
            sv == text::texts(segs@),
            p@ == below_root(base, sv.take(i as int)),
        decreases segs@.len() - i,
    {
        let s = segs[i].as_str();
        proof {
            assert(sv.take(i + 1).drop_last() =~= sv.take(i as int));
            assert(sv.take(i + 1).last() == s@);
        }
        if s.unicode_len() > 0 {
            let chars = to_chars(p.as_str());
            if chars.len() > 0 && chars[chars.len() - 1] == '/' {
                p = cat2(p.as_str(), s);
            } else {
                p = cat3(p.as_str(), "/", s);
            }
        }
        i = i + 1;
    }
    assert(sv.take(sv.len() as int) =~= sv);
    Some(p)
}

pub open spec fn opt_str(o: Option<&str>) -> Option<Seq<char>> {
    match o {
        Some(s) => Some(s@),
        None => None,
    }
}

pub open spec fn note_text(
    agent: Seq<char>,
    rel: Seq<char>,
    speaker: Option<Seq<char>>,
    texts: RefsPrompts,
) -> Seq<char> {
    prompt::filled(
        if speaker is None {
            texts.collab_sandbox@
        } else {
            texts.foreign_sandbox@
        },
        seq![("agent"@, agent), ("path"@, rel)],
    )
}

/// Whether the texts ask only for what they are given.
pub open spec fn refs_sound(t: RefsPrompts) -> bool {
    prompt::fillable(t.collab_sandbox@, seq!["agent"@, "path"@]) && prompt::fillable(
        t.foreign_sandbox@,
        seq!["agent"@, "path"@],
    )
}

/// What stands in place of a path in a sandbox the reader cannot reach.
pub fn sandbox_note(agent: &str, rel: &str, speaker: Option<&str>, texts: &RefsPrompts) -> (r:
    String)
    requires
        refs_sound(*texts),
    ensures
        r@ == note_text(agent@, rel@, opt_str(speaker), *texts),
{
    let template = match speaker {
        None => texts.collab_sandbox.as_str(),
        Some(_) => texts.foreign_sandbox.as_str(),
    };
    fill2(template, "agent", agent, "path", rel)
}

/// What an `@` is replaced by together with how many of the characters behind it;
/// none where it stays.
pub open spec fn replacement(
    after: Seq<char>,
    speaker: Option<Seq<char>>,
    roots: RefRoots,
    texts: RefsPrompts,
) -> Option<(Seq<char>, int)> {
    if text::starts(after, "work:"@) {
        match ref_of(after.skip(5)) {
            Some(x) => match full_path_of(roots.work@, x.0) {
                Some(p) => Some((p, 5 + x.1)),
                None => None,
            },
            None => None,
        }
    } else if text::starts(after, "sandbox:"@) {
        match sandbox_ref_of(after.skip(8)) {
            Some(x) => if speaker == Some(x.0) {
                match roots.private {
                    Some(root) => match full_path_of(root@, x.1) {
                        Some(p) => Some((p, 8 + x.2)),
                        None => None,
                    },
                    None => None,
                }
            } else {
                Some((note_text(x.0, x.1, speaker, texts), 8 + x.2))
            },
            None => None,
        }
    } else {
        None
    }
}

fn replace_at(
    v: &Vec<char>,
    from: usize,
    speaker: Option<&str>,
    roots: &RefRoots,
    texts: &RefsPrompts,
) -> (r: Option<(String, usize)>)
    requires
        from <= v@.len(),
        refs_sound(*texts),
    ensures
        match r {
            Some(x) => replacement(v@.skip(from as int), opt_str(speaker), *roots, *texts) == Some(
                (x.0@, x.1 as int),
            ) && x.1 <= v@.len() - from,
            None => replacement(v@.skip(from as int), opt_str(speaker), *roots, *texts) is None,
        },
{
    let ghost after = v@.skip(from as int);
    let work = to_chars("work:");
    let sandbox = to_chars("sandbox:");
    proof {
        reveal_strlit("work:");
        reveal_strlit("sandbox:");
        lemma_starts_here(v@, work@, from as int);
        lemma_starts_here(v@, sandbox@, from as int);
    }
    if at(v, &work, from) {
        assert(from + 5 <= v.len());
        assert(v@.skip(from + 5) =~= after.skip(5));
        return match take_ref(v, from + 5) {
            Some((path, n)) => match full_path(&roots.work, path.as_str()) {
                Some(p) => Some((p, 5 + n)),
                None => None,
            },
            None => None,
        };
    }
    if at(v, &sandbox, from) {
        assert(from + 8 <= v.len());
        assert(v@.skip(from + 8) =~= after.skip(8));
        return match take_sandbox_ref(v, from + 8) {
            Some((agent, rel, n)) => {
                let own = match speaker {
                    Some(me) => str_eq(me, agent.as_str()),
                    None => false,
                };
                if own {
                    match &roots.private {
                        Some(root) => match full_path(root, rel.as_str()) {
                            Some(p) => Some((p, 8 + n)),
                            None => None,
                        },
                        None => None,
                    }
                } else {
                    Some((sandbox_note(agent.as_str(), rel.as_str(), speaker, texts), 8 + n))
                }
            },
            None => None,
        };
    }
    None
}

proof fn lemma_starts_here(v: Seq<char>, p: Seq<char>, from: int)
    requires
        0 <= from <= v.len(),
    ensures
        text::stands_at(v, p, from) == text::starts(v.skip(from), p),
{
    if from + p.len() <= v.len() {
        assert(v.subrange(from, from + p.len()) =~= v.skip(from).take(p.len() as int));
        assert(v.skip(from).subrange(0, p.len() as int) =~= v.skip(from).take(p.len() as int));
    }
}

/// A text with its references made real paths.
pub open spec fn rewritten(
    s: Seq<char>,
    speaker: Option<Seq<char>>,
    roots: RefRoots,
    texts: RefsPrompts,
) -> Seq<char>
    decreases s.len(),
    via rewritten_decreases
{
    let i = text::index_of_char(s, '@');
    if i >= s.len() {
        s
    } else {
        let after = s.skip(i + 1);
        match replacement(after, speaker, roots, texts) {
            Some(x) => s.take(i) + x.0 + rewritten(after.skip(x.1), speaker, roots, texts),
            None => s.take(i) + "@"@ + rewritten(after, speaker, roots, texts),
        }
    }
}

proof fn lemma_path_end_bounds(s: Seq<char>)
    ensures
        0 <= path_end(s) <= s.len(),
    decreases s.len(),
{
    if s.len() > 0 {
        lemma_path_end_bounds(s.drop_first());
    }
}

proof fn lemma_ref_bounds(s: Seq<char>)
    ensures
        match ref_of(s) {
            Some(x) => 0 < x.1 <= s.len(),
            None => true,
        },
{
    lemma_path_end_bounds(s);
    if s.len() > 0 {
        text::lemma_index_of_char(s.skip(1), '"');
    }
}

proof fn lemma_replacement_bounds(
    after: Seq<char>,
    speaker: Option<Seq<char>>,
    roots: RefRoots,
    texts: RefsPrompts,
)
    ensures
        match replacement(after, speaker, roots, texts) {
            Some(x) => 0 < x.1 <= after.len(),
            None => true,
        },
{
    reveal_strlit("work:");
    reveal_strlit("sandbox:");
    if text::starts(after, "work:"@) {
        lemma_ref_bounds(after.skip(5));
    } else if text::starts(after, "sandbox:"@) {
        let body = after.skip(8);
        text::lemma_index_of_char(body, '/');
        if body.len() > 0 {
            text::lemma_index_of_char(body.skip(1), '"');
            let end = text::index_of_char(body.skip(1), '"');
            if body[0] == '"' {
                if end + 1 < body.skip(1).len() {
                    lemma_ref_bounds(body.skip(end + 3));
                }
            } else {
                let at = text::index_of_char(body, '/');
                if at < body.len() {
                    lemma_ref_bounds(body.skip(at + 1));
                }
            }
        }
    }
}

#[via_fn]
proof fn rewritten_decreases(
    s: Seq<char>,
    speaker: Option<Seq<char>>,
    roots: RefRoots,
    texts: RefsPrompts,
) {
    text::lemma_index_of_char(s, '@');
    let i = text::index_of_char(s, '@');
    if i < s.len() {
        lemma_replacement_bounds(s.skip(i + 1), speaker, roots, texts);
    }
}

/// Only what the roots are counts, not how they are held.
pub proof fn lemma_roots_by_view(
    s: Seq<char>,
    speaker: Option<Seq<char>>,
    a: RefRoots,
    b: RefRoots,
    texts: RefsPrompts,
)
    requires
        a.work@ == b.work@,
        a.private is Some == b.private is Some,
        a.private is Some ==> a.private->0@ == b.private->0@,
    ensures
        rewritten(s, speaker, a, texts) == rewritten(s, speaker, b, texts),
    decreases s.len(),
{
    let i = text::index_of_char(s, '@');
    text::lemma_index_of_char(s, '@');
    if i < s.len() {
        let after = s.skip(i + 1);
        assert(replacement(after, speaker, a, texts) == replacement(after, speaker, b, texts));
        lemma_replacement_bounds(after, speaker, a, texts);
        match replacement(after, speaker, a, texts) {
            Some(x) => {
                lemma_roots_by_view(after.skip(x.1), speaker, a, b, texts);
            },
            None => {
                lemma_roots_by_view(after, speaker, a, b, texts);
            },
        }
    }
}

/// Makes the references in what the user writes real paths. `speaker` is the agent
/// that reads it, none where a whole team does.
pub fn rewrite(text: &str, speaker: Option<&str>, roots: &RefRoots, texts: &RefsPrompts) -> (r:
    String)
    requires
        refs_sound(*texts),
    ensures
        r@ == rewritten(text@, opt_str(speaker), *roots, *texts),
{
    let v = to_chars(text);
    let ghost who = opt_str(speaker);
    let ghost all = rewritten(v@, who, *roots, *texts);
    let mut out = String::new();
    let mut pos: usize = 0;
    let mut more = true;
    assert(v@.skip(0) =~= v@);
    assert(out@ + all =~= all);
    while more
        invariant
            pos <= v@.len(),
            refs_sound(*texts),
            who == opt_str(speaker),
            all == rewritten(v@, who, *roots, *texts),
            more ==> out@ + rewritten(v@.skip(pos as int), who, *roots, *texts) == all,
            !more ==> out@ == all,
        decreases v@.len() - pos,
            if more {
                1int
            } else {
                0
            },
    {
        let ghost rest = v@.skip(pos as int);
        let i = find_char(&v, pos, '@');
        let ghost k = i - pos;
        if i >= v.len() {
            out = cat2(out.as_str(), slice(&v, pos, v.len()).as_str());
            assert(rest =~= v@.subrange(pos as int, v@.len() as int));
            more = false;
        } else {
            let head = slice(&v, pos, i);
            assert(head@ =~= rest.take(k));
            assert(v@.skip(i + 1) =~= rest.skip(k + 1));
            let ghost prev = out@;
            match replace_at(&v, i + 1, speaker, roots, texts) {
                Some((p, n)) => {
                    out = cat3(out.as_str(), head.as_str(), p.as_str());
                    assert(i + 1 + n <= v.len());
                    proof {
                        assert(v@.skip(i + 1 + n) =~= rest.skip(k + 1).skip(n as int));
                        let tail = rewritten(v@.skip(i + 1 + n), who, *roots, *texts);
                        assert(prev + (rest.take(k) + p@ + tail) =~= out@ + tail);
                    }
                    pos = i + 1 + n;
                },
                None => {
                    out = cat3(out.as_str(), head.as_str(), "@");
                    proof {
                        let tail = rewritten(rest.skip(k + 1), who, *roots, *texts);
                        assert(prev + (rest.take(k) + "@"@ + tail) =~= out@ + tail);
                    }
                    pos = i + 1;
                },
            }
        }
    }
    out
}

/// A text without an `@` stays as it is.
pub proof fn plain_text_is_not_rewritten(
    s: Seq<char>,
    speaker: Option<Seq<char>>,
    roots: RefRoots,
    texts: RefsPrompts,
)
    requires
        !s.contains('@'),
    ensures
        rewritten(s, speaker, roots, texts) == s,
{
    text::lemma_index_of_char(s, '@');
    if text::index_of_char(s, '@') < s.len() {
        assert(s.contains(s[text::index_of_char(s, '@')]));
    }
}

/// The path of a sandbox that is not the reader's own has no part in what a text
/// becomes: whatever the reader's own sandbox is, a reference to another's is
/// replaced alike.
pub proof fn foreign_sandboxes_stay_hidden(
    after: Seq<char>,
    speaker: Option<Seq<char>>,
    a: RefRoots,
    b: RefRoots,
    texts: RefsPrompts,
)
    requires
        text::starts(after, "sandbox:"@),
        sandbox_ref_of(after.skip(8)) is Some,
        speaker != Some((sandbox_ref_of(after.skip(8))->0).0),
    ensures
        replacement(after, speaker, a, texts) == replacement(after, speaker, b, texts),
{
    reveal_strlit("work:");
    reveal_strlit("sandbox:");
    assert("sandbox:"@[0] == 's');
    assert("work:"@[0] == 'w');
    if text::starts(after, "work:"@) {
        assert(after.subrange(0, 5)[0] == after[0]);
        assert(after.subrange(0, 8)[0] == after[0]);
    }
}

proof fn lemma_below_root(root: Seq<char>, segs: Seq<Seq<char>>)
    ensures
        root.len() <= below_root(root, segs).len(),
        below_root(root, segs).take(root.len() as int) == root,
    decreases segs.len(),
{
    if segs.len() == 0 {
        assert(root.take(root.len() as int) =~= root);
    } else {
        lemma_below_root(root, segs.drop_last());
        let prev = below_root(root, segs.drop_last());
        assert(below_root(root, segs).take(root.len() as int) =~= prev.take(root.len() as int));
    }
}

/// What a reference becomes is the real root with the path behind it, whatever is
/// written in the path: no piece of it takes the place of the root.
pub proof fn references_begin_with_their_root(root: PathV, rel: Seq<char>)
    requires
        root.text.len() > 0,
    ensures
        full_path_of(root, rel) matches Some(p) && p.len() >= root.text.len() && p.take(
            root.text.len() as int,
        ) == workspace::slashed(root.text),
{
    lemma_below_root(
        workspace::slashed(root.text),
        text::split_at_char(workspace::slashed(rel), '/'),
    );
}

proof fn lemma_plain_end(rel: Seq<char>, rest: Seq<char>)
    requires
        forall|k: int| 0 <= k < rel.len() ==> !terminator(#[trigger] rel[k]),
        rest.len() > 0 ==> terminator(rest[0]),
    ensures
        path_end(rel + rest) == rel.len(),
    decreases rel.len(),
{
    let s = rel + rest;
    if rel.len() > 0 {
        assert(s[0] == rel[0]);
        assert(s.drop_first() =~= rel.drop_first() + rest);
        lemma_plain_end(rel.drop_first(), rest);
    } else {
        assert(s =~= rest);
    }
}

proof fn lemma_plain_ref(rel: Seq<char>, rest: Seq<char>)
    requires
        rel.len() > 0,
        rel[0] != '"',
        forall|k: int| 0 <= k < rel.len() ==> !terminator(#[trigger] rel[k]),
        rest.len() > 0 ==> terminator(rest[0]),
    ensures
        ref_of(rel + rest) == Some((rel, rel.len() as int)),
{
    lemma_plain_end(rel, rest);
    assert((rel + rest)[0] == rel[0]);
    assert((rel + rest).take(rel.len() as int) =~= rel);
}

/// A reference to a file of the team's becomes the file's full path, up to where a text
/// goes on; what stands before it stays, and what comes behind is read in the same way.
pub proof fn work_references_become_paths(
    a: Seq<char>,
    rel: Seq<char>,
    rest: Seq<char>,
    speaker: Option<Seq<char>>,
    roots: RefRoots,
    texts: RefsPrompts,
)
    requires
        !a.contains('@'),
        rel.len() > 0,
        rel[0] != '"',
        forall|k: int| 0 <= k < rel.len() ==> !terminator(#[trigger] rel[k]),
        rest.len() > 0 ==> terminator(rest[0]),
        roots.work@.text.len() > 0,
    ensures
        rewritten(a + "@work:"@ + rel + rest, speaker, roots, texts) == a + full_path_of(roots.work@, rel)->0
            + rewritten(rest, speaker, roots, texts),
{
    reveal_strlit("@work:");
    reveal_strlit("work:");
    let s = a + "@work:"@ + rel + rest;
    let after = "work:"@ + rel + rest;
    assert forall|k: int| 0 <= k < a.len() implies s[k] != '@' by {
        assert(a.contains(a[k]));
    }
    text::lemma_index_of_char_is(s, '@', a.len() as int);
    assert(s.skip(a.len() as int + 1) =~= after);
    assert(after.subrange(0, 5) =~= "work:"@);
    assert(after.skip(5) =~= rel + rest);
    lemma_plain_ref(rel, rest);
    assert(s.take(a.len() as int) =~= a);
    assert(after.skip(5 + rel.len() as int) =~= rest);
}

/// A member's reference to a file of its own becomes the file's full path.
pub proof fn own_references_become_paths(
    a: Seq<char>,
    name: Seq<char>,
    rel: Seq<char>,
    rest: Seq<char>,
    roots: RefRoots,
    texts: RefsPrompts,
)
    requires
        !a.contains('@'),
        name.len() > 0,
        name[0] != '"',
        !name.contains('/'),
        rel.len() > 0,
        rel[0] != '"',
        forall|k: int| 0 <= k < rel.len() ==> !terminator(#[trigger] rel[k]),
        rest.len() > 0 ==> terminator(rest[0]),
        roots.private matches Some(p) && p@.text.len() > 0,
    ensures
        rewritten(a + "@sandbox:"@ + name + "/"@ + rel + rest, Some(name), roots, texts) == a + full_path_of(
            (roots.private->0)@,
            rel,
        )->0 + rewritten(rest, Some(name), roots, texts),
{
    reveal_strlit("@sandbox:");
    reveal_strlit("sandbox:");
    reveal_strlit("work:");
    reveal_strlit("/");
    let s = a + "@sandbox:"@ + name + "/"@ + rel + rest;
    let after = "sandbox:"@ + name + "/"@ + rel + rest;
    let body = name + "/"@ + rel + rest;
    assert forall|k: int| 0 <= k < a.len() implies s[k] != '@' by {
        assert(a.contains(a[k]));
    }
    text::lemma_index_of_char_is(s, '@', a.len() as int);
    assert(s.skip(a.len() as int + 1) =~= after);
    assert(after.subrange(0, 8) =~= "sandbox:"@);
    if text::starts(after, "work:"@) {
        assert(after.subrange(0, 5)[0] == after[0]);
        assert("work:"@[0] == 'w');
        assert("sandbox:"@[0] == 's');
    }
    assert(after.skip(8) =~= body);
    assert forall|k: int| 0 <= k < name.len() implies body[k] != '/' by {
        assert(name.contains(name[k]));
    }
    text::lemma_index_of_char_is(body, '/', name.len() as int);
    assert(body[0] == name[0]);
    assert(body.take(name.len() as int) =~= name);
    assert(body.skip(name.len() as int + 1) =~= rel + rest);
    lemma_plain_ref(rel, rest);
    assert(sandbox_ref_of(body) == Some((name, rel, name.len() as int + 1 + rel.len() as int)));
    assert(s.take(a.len() as int) =~= a);
    assert(after.skip(8 + (name.len() as int + 1 + rel.len() as int)) =~= rest);
}

/// The full path of a name is the name below its root.
pub proof fn names_stand_below_their_root(root: PathV, rel: Seq<char>)
    requires
        root.text.len() > 0,
        root.text.last() != '/' && root.text.last() != '\\',
        rel.len() > 0,
        !rel.contains('/') && !rel.contains('\\'),
    ensures
        full_path_of(root, rel) == Some(workspace::slashed(root.text) + seq!['/'] + rel),
{
    reveal_strlit("/");
    assert("/"@ =~= seq!['/']);
    let r = workspace::slashed(root.text);
    let t = workspace::slashed(rel);
    assert forall|k: int| 0 <= k < rel.len() implies t[k] == rel[k] && t[k] != '/' by {
        assert(rel.contains(rel[k]));
    }
    assert(t =~= rel);
    text::lemma_index_of_char_is(t, '/', t.len() as int);
    let segs = text::split_at_char(t, '/');
    assert(segs =~= seq![t]);
    assert(segs.drop_last() =~= Seq::empty());
    assert(r.last() == root.text.last());
    reveal_with_fuel(below_root, 2);
}

/// A reference in quotes is what stands between them, whatever it holds.
pub proof fn quoted_references_are_read_whole(x: Seq<char>, rest: Seq<char>)
    requires
        x.len() > 0,
        !x.contains('"'),
    ensures
        ref_of(seq!['"'] + x + seq!['"'] + rest) == Some((x, x.len() as int + 2)),
{
    let s = seq!['"'] + x + seq!['"'] + rest;
    let inner = s.skip(1);
    assert forall|k: int| 0 <= k < x.len() implies inner[k] != '"' by {
        assert(x.contains(x[k]));
    }
    text::lemma_index_of_char_is(inner, '"', x.len() as int);
    assert(inner.take(x.len() as int) =~= x);
}

} // verus!
