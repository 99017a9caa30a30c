//! The patch channel: a free-form description of file changes, parsed into
//! blocks and applied to file contents line by line.
//!
//! A marker line starts with `*** `. `Add File: <path>` is followed by the whole
//! content, `Update File: <path>` by pairs of `SEARCH` and `REPLACE` sections;
//! every block is closed by `End File`. Lines before the first marker and lines
//! after an `End File` belong to no block. Marker names ignore case.
use crate::text::{self, eq_ignore_case, find_char, has_sub, is_blank, join, lines, slice, starts_with, str_eq, to_chars, trim, words};
use vstd::prelude::*;

verus! {

/// One replacement: both sides are blocks of lines separated by `\n`.
#[derive(Debug, PartialEq)]
pub struct Edit {
    pub search: String,
    pub replace: String,
}

pub struct EditV {
    pub search: Seq<char>,
    pub replace: Seq<char>,
}

impl View for Edit {
    type V = EditV;

    open spec fn view(&self) -> EditV {
        EditV { search: self.search@, replace: self.replace@ }
    }
}

pub open spec fn edits_v(v: Seq<Edit>) -> Seq<EditV> {
    v.map_values(|e: Edit| e@)
}

/// One block of a patch.
#[derive(Debug, PartialEq)]
pub enum Block {
    /// Write a whole file.
    Add { path: String, content: String },
    /// Replace runs of whole lines, in order: each edit sees the result of the one before.
    Update { path: String, edits: Vec<Edit> },
}

pub enum BlockV {
    Add { path: Seq<char>, content: Seq<char> },
    Update { path: Seq<char>, edits: Seq<EditV> },
}

impl View for Block {
    type V = BlockV;

    open spec fn view(&self) -> BlockV {
        match *self {
            Block::Add { path, content } => BlockV::Add { path: path@, content: content@ },
            Block::Update { path, edits } => BlockV::Update {
                path: path@,
                edits: edits_v(edits@),
            },
        }
    }
}

pub open spec fn blocks_v(v: Seq<Block>) -> Seq<BlockV> {
    v.map_values(|b: Block| b@)
}

impl BlockV {
    pub open spec fn path(self) -> Seq<char> {
        match self {
            BlockV::Add { path, .. } => path,
            BlockV::Update { path, .. } => path,
        }
    }
}

impl Block {
    /// The path the block is about, as written.
    pub fn path(&self) -> (r: &str)
        ensures
            r@ == self@.path(),
    {
        match self {
            Block::Add { path, .. } => path.as_str(),
            Block::Update { path, .. } => path.as_str(),
        }
    }
}

/// Why a patch text cannot be parsed. Lines count from 1.
#[derive(Debug, PartialEq)]
pub enum Fault {
    NoBlocks,
    UnknownMarker { line: usize, text: String },
    MissingPath { line: usize, marker: String },
    EmptyAdd { line: usize },
    EmptyUpdate { line: usize },
    EmptySearch { line: usize },
    MissingEnd { line: usize },
    SearchWithoutReplace { line: usize },
    ReplaceWithoutSearch { line: usize },
}

pub enum FaultV {
    NoBlocks,
    UnknownMarker { line: int, text: Seq<char> },
    MissingPath { line: int, marker: Seq<char> },
    EmptyAdd { line: int },
    EmptyUpdate { line: int },
    EmptySearch { line: int },
    MissingEnd { line: int },
    SearchWithoutReplace { line: int },
    ReplaceWithoutSearch { line: int },
}

impl View for Fault {
    type V = FaultV;

    open spec fn view(&self) -> FaultV {
        match *self {
            Fault::NoBlocks => FaultV::NoBlocks,
            Fault::UnknownMarker { line, text } => FaultV::UnknownMarker {
                line: line as int,
                text: text@,
            },
            Fault::MissingPath { line, marker } => FaultV::MissingPath {
                line: line as int,
                marker: marker@,
            },
            Fault::EmptyAdd { line } => FaultV::EmptyAdd { line: line as int },
            Fault::EmptyUpdate { line } => FaultV::EmptyUpdate { line: line as int },
            Fault::EmptySearch { line } => FaultV::EmptySearch { line: line as int },
            Fault::MissingEnd { line } => FaultV::MissingEnd { line: line as int },
            Fault::SearchWithoutReplace { line } => FaultV::SearchWithoutReplace {
                line: line as int,
            },
            Fault::ReplaceWithoutSearch { line } => FaultV::ReplaceWithoutSearch {
                line: line as int,
            },
        }
    }
}

/// What a marker line announces.
pub enum Marker {
    Add,
    Update,
    Search,
    Replace,
    End,
    Unknown(String),
}

pub enum MarkerV {
    Add,
    Update,
    Search,
    Replace,
    End,
    Unknown(Seq<char>),
}

impl View for Marker {
    type V = MarkerV;

    open spec fn view(&self) -> MarkerV {
        match *self {
            Marker::Add => MarkerV::Add,
            Marker::Update => MarkerV::Update,
            Marker::Search => MarkerV::Search,
            Marker::Replace => MarkerV::Replace,
            Marker::End => MarkerV::End,
            Marker::Unknown(s) => MarkerV::Unknown(s@),
        }
    }
}

/// A marker line and the lines up to the next one.
pub struct Section {
    pub marker: Marker,
    pub rest: String,
    pub body: Vec<String>,
    pub line: usize,
}

pub struct SectionV {
    pub marker: MarkerV,
    pub rest: Seq<char>,
    pub body: Seq<Seq<char>>,
    pub line: int,
}

impl View for Section {
    type V = SectionV;

    open spec fn view(&self) -> SectionV {
        SectionV {
            marker: self.marker@,
            rest: self.rest@,
            body: text::texts(self.body@),
            line: self.line as int,
        }
    }
}

pub open spec fn sections_v(v: Seq<Section>) -> Seq<SectionV> {
    v.map_values(|s: Section| s@)
}

/// The kind of marker a name stands for; there are five names.
pub open spec fn marker_named(head: Seq<char>) -> MarkerV {
    if text::same_ignoring_case(head, "Add File"@) {
        MarkerV::Add
    } else if text::same_ignoring_case(head, "Update File"@) {
        MarkerV::Update
    } else if text::same_ignoring_case(head, "SEARCH"@) {
        MarkerV::Search
    } else if text::same_ignoring_case(head, "REPLACE"@) {
        MarkerV::Replace
    } else if text::same_ignoring_case(head, "End File"@) {
        MarkerV::End
    } else {
        MarkerV::Unknown(head)
    }
}

/// The marker of a line and what follows its colon; `None` for an ordinary line.
pub open spec fn marker_of(line: Seq<char>) -> Option<(MarkerV, Seq<char>)> {
    if !text::starts(line, "*** "@) {
        None
    } else {
        let rest = line.skip(4);
        let i = text::index_of_char(rest, ':');
        if i < rest.len() {
            Some((marker_named(text::trimmed(rest.take(i))), text::trimmed(rest.skip(i + 1))))
        } else {
            Some((marker_named(text::trimmed(rest)), text::trimmed(Seq::<char>::empty())))
        }
    }
}

/// The marker a line carries, if any.
pub fn marker(line: &str) -> (r: Option<(Marker, String)>)
    ensures
        match r {
            Some(p) => marker_of(line@) == Some((p.0@, p.1@)),
            None => marker_of(line@) is None,
        },
{
    proof {
        reveal_strlit("*** ");
    }
    if !starts_with(line, "*** ") {
        return None;
    }
    let v = to_chars(line);
    let i: usize = find_char(&v, 4, ':');
    proof {
        text::lemma_index_of_char(v@.skip(4), ':');
    }
    let (head, tail) = if i < v.len() {
        let a = slice(&v, 4, i);
        let b = slice(&v, i + 1, v.len());
        assert(v@.skip(4).take(i - 4) =~= a@);
        assert(v@.skip(4).skip(i - 4 + 1) =~= b@);
        (a, b)
    } else {
        let a = slice(&v, 4, v.len());
        assert(v@.skip(4) =~= a@);
        (a, String::new())
    };
    let head = trim(head.as_str());
    let h = head.as_str();
    let m = if eq_ignore_case(h, "Add File") {
        Marker::Add
    } else if eq_ignore_case(h, "Update File") {
        Marker::Update
    } else if eq_ignore_case(h, "SEARCH") {
        Marker::Search
    } else if eq_ignore_case(h, "REPLACE") {
        Marker::Replace
    } else if eq_ignore_case(h, "End File") {
        Marker::End
    } else {
        Marker::Unknown(head.clone())
    };
    Some((m, trim(tail.as_str())))
}

/// The sections of a text: lines before the first marker are dropped.
pub open spec fn sections_of(lines: Seq<Seq<char>>) -> Seq<SectionV>
    decreases lines.len(),
{
    if lines.len() == 0 {
        Seq::empty()
    } else {
        let prev = sections_of(lines.drop_last());
        match marker_of(lines.last()) {
            Some(p) => prev.push(
                SectionV { marker: p.0, rest: p.1, body: Seq::empty(), line: lines.len() as int },
            ),
            None => if prev.len() == 0 {
                prev
            } else {
                prev.update(
                    prev.len() - 1,
                    SectionV { body: prev.last().body.push(lines.last()), ..prev.last() },
                )
            },
        }
    }
}

/// Whether every line is blank.
pub open spec fn all_blank(body: Seq<Seq<char>>) -> bool {
    forall|i: int| 0 <= i < body.len() ==> text::trimmed(#[trigger] body[i]).len() == 0
}

/// The edits of an update block that starts at line `start`, read from section
/// `j` on, and the section after its `End`.
pub open spec fn edits_from(secs: Seq<SectionV>, j: int, start: int) -> Result<
    (Seq<EditV>, int),
    FaultV,
>
    decreases secs.len() - j,
{
    if j < 0 || j >= secs.len() {
        Err(FaultV::MissingEnd { line: start })
    } else {
        let sec = secs[j];
        match sec.marker {
            MarkerV::End => Ok((Seq::empty(), j + 1)),
            MarkerV::Search => if all_blank(sec.body) {
                Err(FaultV::EmptySearch { line: sec.line })
            } else if j + 1 >= secs.len() || !(secs[j + 1].marker is Replace) {
                Err(FaultV::SearchWithoutReplace { line: sec.line })
            } else {
                let e = EditV {
                    search: text::joined(sec.body, "\n"@),
                    replace: text::joined(secs[j + 1].body, "\n"@),
                };
                match edits_from(secs, j + 2, start) {
                    Ok(p) => Ok((seq![e] + p.0, p.1)),
                    Err(f) => Err(f),
                }
            },
            MarkerV::Add => Err(FaultV::MissingEnd { line: start }),
            MarkerV::Update => Err(FaultV::MissingEnd { line: start }),
            MarkerV::Replace => Err(FaultV::ReplaceWithoutSearch { line: sec.line }),
            MarkerV::Unknown(name) => Err(FaultV::UnknownMarker { line: sec.line, text: name }),
        }
    }
}

pub proof fn lemma_edits_from_advances(secs: Seq<SectionV>, j: int, start: int)
    requires
        0 <= j,
    ensures
        edits_from(secs, j, start) matches Ok(p) ==> j < p.1 <= secs.len(),
    decreases secs.len() - j,
{
    if j + 1 < secs.len() {
        lemma_edits_from_advances(secs, j + 2, start);
    }
}

/// The blocks that the sections from `i` on describe, or the first fault.
pub open spec fn blocks_from(secs: Seq<SectionV>, i: int) -> Result<Seq<BlockV>, FaultV>
    decreases secs.len() - i,
    via blocks_from_decreases
{
    if i < 0 || i >= secs.len() {
        Ok(Seq::empty())
    } else {
        let s = secs[i];
        match s.marker {
            MarkerV::Add => if text::trimmed(s.rest).len() == 0 {
                Err(FaultV::MissingPath { line: s.line, marker: "Add File"@ })
            } else if all_blank(s.body) {
                Err(FaultV::EmptyAdd { line: s.line })
            } else if i + 1 >= secs.len() || !(secs[i + 1].marker is End) {
                Err(FaultV::MissingEnd { line: s.line })
            } else {
                after_block(
                    BlockV::Add { path: text::trimmed(s.rest), content: text::joined(s.body, "\n"@) },
                    blocks_from(secs, i + 2),
                )
            },
            MarkerV::Update => if text::trimmed(s.rest).len() == 0 {
                Err(FaultV::MissingPath { line: s.line, marker: "Update File"@ })
            } else {
                match edits_from(secs, i + 1, s.line) {
                    Err(f) => Err(f),
                    Ok(p) => if p.0.len() == 0 {
                        Err(FaultV::EmptyUpdate { line: s.line })
                    } else {
                        after_block(
                            BlockV::Update { path: text::trimmed(s.rest), edits: p.0 },
                            blocks_from(secs, p.1),
                        )
                    },
                }
            },
            MarkerV::Search => Err(FaultV::ReplaceWithoutSearch { line: s.line }),
            MarkerV::Replace => Err(FaultV::ReplaceWithoutSearch { line: s.line }),
            MarkerV::End => blocks_from(secs, i + 1),
            MarkerV::Unknown(name) => Err(FaultV::UnknownMarker { line: s.line, text: name }),
        }
    }
}

#[via_fn]
proof fn blocks_from_decreases(secs: Seq<SectionV>, i: int) {
    if 0 <= i < secs.len() {
        lemma_edits_from_advances(secs, i + 1, secs[i].line);
    }
}

/// A block before the blocks of the rest, unless the rest is faulty.
pub open spec fn after_block(b: BlockV, rest: Result<Seq<BlockV>, FaultV>) -> Result<
    Seq<BlockV>,
    FaultV,
> {
    after_blocks(seq![b], rest)
}

pub open spec fn after_blocks(pre: Seq<BlockV>, rest: Result<Seq<BlockV>, FaultV>) -> Result<
    Seq<BlockV>,
    FaultV,
> {
    match rest {
        Ok(bs) => Ok(pre + bs),
        Err(f) => Err(f),
    }
}

pub open spec fn after_edits(
    pre: Seq<EditV>,
    rest: Result<(Seq<EditV>, int), FaultV>,
) -> Result<(Seq<EditV>, int), FaultV> {
    match rest {
        Ok(p) => Ok((pre + p.0, p.1)),
        Err(f) => Err(f),
    }
}

/// What a patch given as lines means.
pub open spec fn parse_lines(lines: Seq<Seq<char>>) -> Result<Seq<BlockV>, FaultV> {
    match blocks_from(sections_of(lines), 0) {
        Ok(bs) => if bs.len() == 0 {
            Err(FaultV::NoBlocks)
        } else {
            Ok(bs)
        },
        Err(f) => Err(f),
    }
}

fn blank_body(body: &Vec<String>) -> (r: bool)
    ensures
        r == all_blank(text::texts(body@)),
{
    let mut i: usize = 0;
    while i < body.len()
        invariant
            i <= body@.len(),
            forall|k: int| 0 <= k < i ==> text::trimmed(#[trigger] text::texts(body@)[k]).len() == 0,
        decreases body@.len() - i,
    {
        if !is_blank(body[i].as_str()) {
            assert(text::trimmed(text::texts(body@)[i as int]).len() != 0);
            return false;
        }
        i = i + 1;
    }
    true
}

/// The sections of a text.
fn split_sections(ls: &Vec<String>) -> (r: Vec<Section>)
    ensures
        sections_v(r@) == sections_of(text::texts(ls@)),
{
    let mut r: Vec<Section> = Vec::new();
    let mut i: usize = 0;
    let ghost t = text::texts(ls@);
    assert(sections_v(r@) =~= sections_of(t.take(0)));
    while i < ls.len()
        invariant
            i <= ls@.len(),
            t == text::texts(ls@),
            sections_v(r@) == sections_of(t.take(i as int)),
        decreases ls@.len() - i,
    {
        let ghost prev = r@;
        assert(t.take(i + 1).drop_last() =~= t.take(i as int));
        assert(t.take(i + 1).last() == ls@[i as int]@);
        match marker(ls[i].as_str()) {
            Some(p) => {
                let (m, rest) = p;
                r.push(Section { marker: m, rest, body: Vec::new(), line: i + 1 });
                assert(r@.last()@.body =~= Seq::<Seq<char>>::empty());
                assert(sections_v(r@) =~= sections_of(t.take(i + 1)));
            },
            None => {
                match r.pop() {
                    Some(s) => {
                        let mut s = s;
                        let ghost body = s.body@;
                        s.body.push(ls[i].clone());
                        proof {
                            text::lemma_texts_push(body, ls@[i as int]);
                        }
                        r.push(s);
                        assert(sections_v(r@) =~= sections_of(t.take(i + 1)));
                    },
                    None => {
                        assert(sections_v(r@) =~= sections_of(t.take(i + 1)));
                    },
                }
            },
        }
        i = i + 1;
    }
    assert(t.take(t.len() as int) =~= t);
    r
}

fn need_path(s: &Section, name: &str) -> (r: Result<String, Fault>)
    ensures
        match r {
            Ok(p) => text::trimmed(s@.rest).len() > 0 && p@ == text::trimmed(s@.rest),
            Err(f) => text::trimmed(s@.rest).len() == 0 && f@ == (FaultV::MissingPath {
                line: s@.line,
                marker: name@,
            }),
        },
{
    let p = trim(s.rest.as_str());
    if p.as_str().is_empty() {
        Err(Fault::MissingPath { line: s.line, marker: name.to_owned() })
    } else {
        Ok(p)
    }
}

/// Reads the edits of an update block; the second component is the section after its end.
fn read_edits(secs: &Vec<Section>, from: usize, start: usize) -> (r: Result<
    (Vec<Edit>, usize),
    Fault,
>)
    requires
        from <= secs@.len(),
    ensures
        match r {
            Ok(p) => edits_from(sections_v(secs@), from as int, start as int) == Ok::<
                _,
                FaultV,
            >((edits_v(p.0@), p.1 as int)) && from < p.1 <= secs@.len(),
            Err(f) => edits_from(sections_v(secs@), from as int, start as int) == Err::<
                (Seq<EditV>, int),
                _,
            >(f@),
        },
{
    let ghost sv = sections_v(secs@);
    let mut edits: Vec<Edit> = Vec::new();
    let mut j: usize = from;
    let ghost whole = edits_from(sv, from as int, start as int);
    proof {
        let e = edits_from(sv, from as int, start as int);
        assert(edits_v(edits@) =~= Seq::<EditV>::empty());
        if e is Ok {
            assert(edits_v(edits@) + e->Ok_0.0 =~= e->Ok_0.0);
        }
        lemma_edits_from_advances(sv, from as int, start as int);
    }
    loop
        invariant
            from <= j <= secs@.len(),
            sv == sections_v(secs@),
            whole == edits_from(sv, from as int, start as int),
            after_edits(edits_v(edits@), edits_from(sv, j as int, start as int)) == whole,
            whole matches Ok(p) ==> from < p.1 <= secs@.len(),
        decreases secs@.len() - j,
    {
        if j >= secs.len() {
            return Err(Fault::MissingEnd { line: start });
        }
        let sec = &secs[j];
        assert(sv[j as int] == sec@);
        match &sec.marker {
            Marker::End => {
                assert(edits_v(edits@) + Seq::<EditV>::empty() =~= edits_v(edits@));
                return Ok((edits, j + 1));
            },
            Marker::Search => {
                if blank_body(&sec.body) {
                    return Err(Fault::EmptySearch { line: sec.line });
                }
                if j + 1 >= secs.len() {
                    return Err(Fault::SearchWithoutReplace { line: sec.line });
                }
                let rep = &secs[j + 1];
                assert(sv[j + 1] == rep@);
                match &rep.marker {
                    Marker::Replace => {},
                    _ => {
                        return Err(Fault::SearchWithoutReplace { line: sec.line });
                    },
                }
                let ghost before = edits@;
                let e = Edit {
                    search: join(&sec.body, "\n"),
                    replace: join(&rep.body, "\n"),
                };
                edits.push(e);
                proof {
                    assert(edits_v(edits@) =~= edits_v(before).push(e@));
                    let rest = edits_from(sv, j + 2, start as int);
                    if rest is Ok {
                        assert(edits_v(before) + (seq![e@] + rest->Ok_0.0) =~= edits_v(edits@)
                            + rest->Ok_0.0);
                    }
                }
                j = j + 2;
            },
            Marker::Add => {
                return Err(Fault::MissingEnd { line: start });
            },
            Marker::Update => {
                return Err(Fault::MissingEnd { line: start });
            },
            Marker::Replace => {
                return Err(Fault::ReplaceWithoutSearch { line: sec.line });
            },
            Marker::Unknown(name) => {
                return Err(Fault::UnknownMarker { line: sec.line, text: name.clone() });
            },
        }
    }
}

/// Parses a patch text.
pub fn parse(text: &str) -> (r: Result<Vec<Block>, Fault>)
    ensures
        match r {
            Ok(bs) => parse_lines(text::lines_of(text@)) == Ok::<_, FaultV>(blocks_v(bs@)),
            Err(f) => parse_lines(text::lines_of(text@)) == Err::<Seq<BlockV>, _>(f@),
        },
{
    let ls = lines(text);
    let secs = split_sections(&ls);
    let ghost sv = sections_v(secs@);
    let mut blocks: Vec<Block> = Vec::new();
    let mut i: usize = 0;
    proof {
        let b = blocks_from(sv, 0);
        assert(blocks_v(blocks@) =~= Seq::<BlockV>::empty());
        if b is Ok {
            assert(blocks_v(blocks@) + b->Ok_0 =~= b->Ok_0);
        }
    }
    while i < secs.len()
        invariant
            i <= secs@.len(),
            sv == sections_v(secs@),
            sv == sections_of(text::lines_of(text@)),
            after_blocks(blocks_v(blocks@), blocks_from(sv, i as int)) == blocks_from(sv, 0),
        decreases secs@.len() - i,
    {
        let s = &secs[i];
        assert(sv[i as int] == s@);
        match &s.marker {
            Marker::Add => {
                let path = match need_path(s, "Add File") {
                    Ok(p) => p,
                    Err(f) => {
                        return Err(f);
                    },
                };
                if blank_body(&s.body) {
                    return Err(Fault::EmptyAdd { line: s.line });
                }
                let content = join(&s.body, "\n");
                if i + 1 >= secs.len() {
                    return Err(Fault::MissingEnd { line: s.line });
                }
                let next = &secs[i + 1];
                assert(sv[i + 1] == next@);
                match &next.marker {
                    Marker::End => {},
                    _ => {
                        return Err(Fault::MissingEnd { line: s.line });
                    },
                }
                let ghost before = blocks@;
                let b = Block::Add { path, content };
                blocks.push(b);
                proof {
                    assert(blocks_v(blocks@) =~= blocks_v(before).push(b@));
                    let rest = blocks_from(sv, i + 2);
                    if rest is Ok {
                        assert(blocks_v(before) + (seq![b@] + rest->Ok_0) =~= blocks_v(blocks@)
                            + rest->Ok_0);
                    }
                }
                i = i + 2;
            },
            Marker::Update => {
                let path = match need_path(s, "Update File") {
                    Ok(p) => p,
                    Err(f) => {
                        return Err(f);
                    },
                };
                let (edits, next) = match read_edits(&secs, i + 1, s.line) {
                    Ok(p) => p,
                    Err(f) => {
                        return Err(f);
                    },
                };
                if edits.len() == 0 {
                    return Err(Fault::EmptyUpdate { line: s.line });
                }
                let ghost before = blocks@;
                let b = Block::Update { path, edits };
                blocks.push(b);
                proof {
                    assert(blocks_v(blocks@) =~= blocks_v(before).push(b@));
                    let rest = blocks_from(sv, next as int);
                    if rest is Ok {
                        assert(blocks_v(before) + (seq![b@] + rest->Ok_0) =~= blocks_v(blocks@)
                            + rest->Ok_0);
                    }
                }
                i = next;
            },
            Marker::Search => {
                return Err(Fault::ReplaceWithoutSearch { line: s.line });
            },
            Marker::Replace => {
                return Err(Fault::ReplaceWithoutSearch { line: s.line });
            },
            Marker::End => {
                i = i + 1;
            },
            Marker::Unknown(name) => {
                return Err(Fault::UnknownMarker { line: s.line, text: name.clone() });
            },
        }
    }
    assert(blocks_v(blocks@) + Seq::<BlockV>::empty() =~= blocks_v(blocks@));
    if blocks.len() == 0 {
        return Err(Fault::NoBlocks);
    }
    Ok(blocks)
}


// ---- applying edits ----

/// Why an edit cannot be applied.
#[derive(Debug, PartialEq)]
pub enum EditFault {
    /// The searched lines are nowhere in the file.
    NotFound { total: usize },
    /// They are in more than one place.
    Multiple { lines: Vec<usize> },
    /// They are there but for white space: the first such line, as it stands.
    NearMiss { line: usize, actual: String },
}

pub enum EditFaultV {
    NotFound { total: int },
    Multiple { lines: Seq<int> },
    NearMiss { line: int, actual: Seq<char> },
}

/// Positions as line numbers.
pub open spec fn numbers(v: Seq<usize>) -> Seq<int> {
    v.map_values(|n: usize| n as int)
}

impl View for EditFault {
    type V = EditFaultV;

    open spec fn view(&self) -> EditFaultV {
        match *self {
            EditFault::NotFound { total } => EditFaultV::NotFound { total: total as int },
            EditFault::Multiple { lines } => EditFaultV::Multiple { lines: numbers(lines@) },
            EditFault::NearMiss { line, actual } => EditFaultV::NearMiss {
                line: line as int,
                actual: actual@,
            },
        }
    }
}

/// Whether the lines `want` stand in `lines` from `i` on.
pub open spec fn run_at(lines: Seq<Seq<char>>, want: Seq<Seq<char>>, i: int) -> bool {
    0 <= i && i + want.len() <= lines.len() && lines.subrange(i, i + want.len()) == want
}

/// The positions below `n` at which `want` stands in `lines`, ascending.
pub open spec fn hits_below(lines: Seq<Seq<char>>, want: Seq<Seq<char>>, n: int) -> Seq<int>
    decreases n,
{
    if n <= 0 {
        Seq::empty()
    } else if run_at(lines, want, n - 1) {
        hits_below(lines, want, n - 1).push(n - 1)
    } else {
        hits_below(lines, want, n - 1)
    }
}

/// Every position at which `want` stands in `lines`; nothing stands nowhere.
pub open spec fn hits(lines: Seq<Seq<char>>, want: Seq<Seq<char>>) -> Seq<int> {
    if want.len() == 0 || want.len() > lines.len() {
        Seq::empty()
    } else {
        hits_below(lines, want, lines.len() - want.len() + 1)
    }
}

/// A line with every run of white space made one space, none at the ends.
pub open spec fn flat(s: Seq<char>) -> Seq<char> {
    text::joined(text::words_of(s), " "@)
}

pub open spec fn flats(v: Seq<Seq<char>>) -> Seq<Seq<char>> {
    v.map_values(|s: Seq<char>| flat(s))
}

/// The first position from `i` on at which `want` stands but for white space.
pub open spec fn near_from(lines: Seq<Seq<char>>, want: Seq<Seq<char>>, i: int) -> Option<int>
    decreases lines.len() + 1 - i,
{
    if i < 0 || i + want.len() > lines.len() {
        None
    } else if run_at(flats(lines), flats(want), i) {
        Some(i)
    } else {
        near_from(lines, want, i + 1)
    }
}

/// The fault of an edit whose lines are not found.
pub open spec fn miss(lines: Seq<Seq<char>>, want: Seq<Seq<char>>) -> EditFaultV {
    let at = if want.len() == 0 {
        None
    } else {
        near_from(lines, want, 0)
    };
    match at {
        Some(i) => EditFaultV::NearMiss { line: i + 1, actual: lines[i] },
        None => EditFaultV::NotFound { total: lines.len() as int },
    }
}

/// One edit on the lines of a file: its lines must stand in exactly one place.
pub open spec fn edit_lines(lines: Seq<Seq<char>>, e: EditV) -> Result<
    Seq<Seq<char>>,
    EditFaultV,
> {
    let want = text::lines_of(e.search);
    let h = hits(lines, want);
    if h.len() == 0 {
        Err(miss(lines, want))
    } else if h.len() > 1 {
        Err(EditFaultV::Multiple { lines: h.map_values(|i: int| i + 1) })
    } else {
        Ok(lines.take(h[0]) + text::lines_of(e.replace) + lines.skip(h[0] + want.len()))
    }
}

/// Edits in order, each on the result of the one before; the first that fails
/// is named by its number, from 1.
pub open spec fn edit_all(lines: Seq<Seq<char>>, edits: Seq<EditV>) -> Result<
    Seq<Seq<char>>,
    (int, EditFaultV),
>
    decreases edits.len(),
{
    if edits.len() == 0 {
        Ok(lines)
    } else {
        match edit_all(lines, edits.drop_last()) {
            Err(e) => Err(e),
            Ok(ls) => match edit_lines(ls, edits.last()) {
                Ok(r) => Ok(r),
                Err(f) => Err((edits.len() as int, f)),
            },
        }
    }
}

/// The line ending of a file.
pub open spec fn eol_of(s: Seq<char>) -> Seq<char> {
    if text::contains_text(s, "\r\n"@) {
        "\r\n"@
    } else {
        "\n"@
    }
}

/// Lines written with the line ending of `current`, and a final one where
/// `current` has one and something is left.
pub open spec fn written(current: Seq<char>, lines: Seq<Seq<char>>) -> Seq<char> {
    let out = text::joined(lines, eol_of(current));
    if current.len() > 0 && current.last() == '\n' && out.len() > 0 {
        out + eol_of(current)
    } else {
        out
    }
}

/// The new content of a file, or the number and the fault of the first edit that fails.
pub open spec fn edited(current: Seq<char>, edits: Seq<EditV>) -> Result<
    Seq<char>,
    (int, EditFaultV),
> {
    match edit_all(text::lines_of(current), edits) {
        Ok(ls) => Ok(written(current, ls)),
        Err(e) => Err(e),
    }
}

fn lines_at(lines: &Vec<String>, want: &Vec<String>, i: usize) -> (r: bool)
    requires
        i + want@.len() <= lines@.len(),
    ensures
        r == run_at(text::texts(lines@), text::texts(want@), i as int),
{
    let mut j: usize = 0;
    let ghost ls = text::texts(lines@);
    let ghost ws = text::texts(want@);
    while j < want.len()
        invariant
            j <= want@.len(),
            i + want@.len() <= lines@.len(),
            ls == text::texts(lines@),
            ws == text::texts(want@),
            forall|k: int| 0 <= k < j ==> ls[i + k] == #[trigger] ws[k],
        decreases want@.len() - j,
    {
        assert(i + j < lines.len());
        if !str_eq(lines[i + j].as_str(), want[j].as_str()) {
            assert(ls.subrange(i as int, i + ws.len())[j as int] != ws[j as int]);
            return false;
        }
        assert(ls[i + j] == ws[j as int]);
        j = j + 1;
    }
    assert(ls.subrange(i as int, i + ws.len()) =~= ws);
    true
}

/// Every position at which the lines stand.
fn find_lines(lines: &Vec<String>, want: &Vec<String>) -> (r: Vec<usize>)
    ensures
        numbers(r@) == hits(text::texts(lines@), text::texts(want@)),
        forall|k: int| 0 <= k < r@.len() ==> r@[k] + want@.len() <= lines@.len(),
{
    let mut out: Vec<usize> = Vec::new();
    let ghost ls = text::texts(lines@);
    let ghost ws = text::texts(want@);
    if want.len() == 0 || want.len() > lines.len() {
        assert(numbers(out@) =~= Seq::<int>::empty());
        return out;
    }
    let top: usize = lines.len() - want.len();
    let mut i: usize = 0;
    assert(numbers(out@) =~= hits_below(ls, ws, 0));
    while i <= top
        invariant
            i <= top + 1,
            top + want.len() == lines.len(),
            want@.len() > 0,
            ls == text::texts(lines@),
            ws == text::texts(want@),
            numbers(out@) == hits_below(ls, ws, i as int),
            forall|k: int| 0 <= k < out@.len() ==> out@[k] + want@.len() <= lines@.len(),
        decreases top + 1 - i,
    {
        if lines_at(lines, want, i) {
            let ghost before = out@;
            out.push(i);
            assert(numbers(out@) =~= numbers(before).push(i as int));
        }
        i = i + 1;
    }
    out
}

fn flatten(s: &str) -> (r: String)
    ensures
        r@ == flat(s@),
{
    join(&words(s), " ")
}

fn flatten_all(v: &Vec<String>) -> (r: Vec<String>)
    ensures
        text::texts(r@) == flats(text::texts(v@)),
{
    let mut r: Vec<String> = Vec::new();
    let mut i: usize = 0;
    while i < v.len()
        invariant
            i <= v@.len(),
            r@.len() == i,
            forall|k: int| 0 <= k < i ==> #[trigger] r@[k]@ == flat(v@[k]@),
        decreases v@.len() - i,
    {
        r.push(flatten(v[i].as_str()));
        i = i + 1;
    }
    assert(text::texts(r@) =~= flats(text::texts(v@)));
    r
}

pub(crate) fn near_or_not_found(lines: &Vec<String>, want: &Vec<String>) -> (r: EditFault)
    ensures
        r@ == miss(text::texts(lines@), text::texts(want@)),
{
    let ghost ls = text::texts(lines@);
    let ghost ws = text::texts(want@);
    let flat_want = flatten_all(want);
    let flat_lines = flatten_all(lines);
    if want.len() > 0 && want.len() <= lines.len() {
        let top: usize = lines.len() - want.len();
        let mut i: usize = 0;
        while i <= top
            invariant
                i <= top + 1,
                top + want.len() == lines.len(),
                want@.len() > 0,
                ls == text::texts(lines@),
                ws == text::texts(want@),
                text::texts(flat_want@) == flats(ws),
                text::texts(flat_lines@) == flats(ls),
                near_from(ls, ws, 0) == near_from(ls, ws, i as int),
            decreases top + 1 - i,
        {
            assert(flat_want@.len() == text::texts(flat_want@).len());
            assert(flat_lines@.len() == text::texts(flat_lines@).len());
            if lines_at(&flat_lines, &flat_want, i) {
                return EditFault::NearMiss { line: i + 1, actual: lines[i].clone() };
            }
            i = i + 1;
        }
    }
    EditFault::NotFound { total: lines.len() }
}

/// The lines with those from `at` on, `gone` of them, replaced.
fn replace_lines(lines: &Vec<String>, at: usize, gone: usize, new: &Vec<String>) -> (r: Vec<String>)
    requires
        at + gone <= lines@.len(),
    ensures
        text::texts(r@) == text::texts(lines@).take(at as int) + text::texts(new@) + text::texts(lines@).skip(at + gone),
{
    let mut r: Vec<String> = Vec::new();
    let mut i: usize = 0;
    while i < at
        invariant
            i <= at <= lines@.len(),
            r@ == lines@.take(i as int),
        decreases at - i,
    {
        r.push(lines[i].clone());
        i = i + 1;
        assert(r@ =~= lines@.take(i as int));
    }
    let mut i: usize = 0;
    while i < new.len()
        invariant
            i <= new@.len(),
            at <= lines@.len(),
            r@ == lines@.take(at as int) + new@.take(i as int),
        decreases new@.len() - i,
    {
        r.push(new[i].clone());
        i = i + 1;
        assert(r@ =~= lines@.take(at as int) + new@.take(i as int));
    }
    assert(at + gone <= lines.len());
    let mut i: usize = at + gone;
    while i < lines.len()
        invariant
            at + gone <= i <= lines@.len(),
            r@ == lines@.take(at as int) + new@ + lines@.subrange(at + gone, i as int),
        decreases lines@.len() - i,
    {
        r.push(lines[i].clone());
        i = i + 1;
        assert(r@ =~= lines@.take(at as int) + new@ + lines@.subrange(at + gone, i as int));
    }
    assert(text::texts(r@) =~= text::texts(lines@).take(at as int) + text::texts(new@) + text::texts(lines@).skip(
        at + gone,
    ));
    r
}

fn one_more(v: &Vec<usize>) -> (r: Vec<usize>)
    requires
        forall|k: int| 0 <= k < v@.len() ==> v@[k] < usize::MAX,
    ensures
        numbers(r@) == numbers(v@).map_values(|i: int| i + 1),
{
    let mut r: Vec<usize> = Vec::new();
    let mut i: usize = 0;
    while i < v.len()
        invariant
            i <= v@.len(),
            r@.len() == i,
            forall|k: int| 0 <= k < v@.len() ==> v@[k] < usize::MAX,
            forall|k: int| 0 <= k < i ==> #[trigger] r@[k] == v@[k] + 1,
        decreases v@.len() - i,
    {
        r.push(v[i] + 1);
        i = i + 1;
    }
    assert(numbers(r@) =~= numbers(v@).map_values(|i: int| i + 1));
    r
}

/// Applies edits in order to the content of a file. Where one fails its number
/// (from 1) and the fault come back, and no content.
pub fn apply_edits(current: &str, edits: &[Edit]) -> (r: Result<String, (usize, EditFault)>)
    ensures
        match r {
            Ok(s) => edited(current@, edits_v(edits@)) == Ok::<_, (int, EditFaultV)>(s@),
            Err(e) => edited(current@, edits_v(edits@)) == Err::<Seq<char>, _>(
                (e.0 as int, e.1@),
            ),
        },
{
    let crlf = has_sub(current, "\r\n");
    let eol = if crlf {
        "\r\n"
    } else {
        "\n"
    };
    let mut ls = lines(current);
    let ghost ev = edits_v(edits@);
    let mut k: usize = 0;
    assert(ev.take(0) =~= Seq::<EditV>::empty());
    while k < edits.len()
        invariant
            k <= edits@.len(),
            ev == edits_v(edits@),
            edit_all(text::lines_of(current@), ev.take(k as int)) == Ok::<_, (int, EditFaultV)>(
                text::texts(ls@),
            ),
        decreases edits@.len() - k,
    {
        let e = &edits[k];
        proof {
            assert(ev.take(k + 1).drop_last() =~= ev.take(k as int));
            assert(ev.take(k + 1).last() == e@);
        }
        let want = lines(e.search.as_str());
        let found = find_lines(&ls, &want);
        let ghost h = hits(text::texts(ls@), text::texts(want@));
        assert(h.len() == found@.len());
        if found.len() == 0 {
            let f = near_or_not_found(&ls, &want);
            proof {
                lemma_edit_all_stops(text::lines_of(current@), ev, k + 1);
            }
            return Err((k + 1, f));
        }
        if found.len() > 1 {
            proof {
                assert(want@.len() > 0) by {
                    assert(h.len() > 0);
                    assert(text::texts(want@).len() > 0);
                }
                assert(ls.len() <= usize::MAX);
            }
            let f = EditFault::Multiple { lines: one_more(&found) };
            proof {
                lemma_edit_all_stops(text::lines_of(current@), ev, k + 1);
            }
            return Err((k + 1, f));
        }
        let at = found[0];
        assert(h[0] == at);
        let new = lines(e.replace.as_str());
        ls = replace_lines(&ls, at, want.len(), &new);
        k = k + 1;
    }
    assert(ev.take(ev.len() as int) =~= ev);
    let mut out = join(&ls, eol);
    let cur = to_chars(current);
    if cur.len() > 0 && cur[cur.len() - 1] == '\n' && !out.as_str().is_empty() {
        out.append(eol);
    }
    Ok(out)
}

// ---- laws ----

/// Edits after one that fails change nothing: the first failure is the answer.
pub proof fn lemma_edit_all_stops(lines: Seq<Seq<char>>, edits: Seq<EditV>, k: int)
    requires
        0 <= k <= edits.len(),
        edit_all(lines, edits.take(k)) is Err,
    ensures
        edit_all(lines, edits) == edit_all(lines, edits.take(k)),
    decreases edits.len(),
{
    if k < edits.len() {
        assert(edits.drop_last().take(k) =~= edits.take(k));
        lemma_edit_all_stops(lines, edits.drop_last(), k);
    } else {
        assert(edits.take(k) =~= edits);
    }
}

/// Edits are applied in order: applying `a` and then `b` to the result is
/// applying the two lists as one.
pub proof fn edits_apply_in_order(lines: Seq<Seq<char>>, a: Seq<EditV>, b: Seq<EditV>)
    ensures
        match edit_all(lines, a) {
            Ok(mid) => match edit_all(mid, b) {
                Ok(end) => edit_all(lines, a + b) == Ok::<_, (int, EditFaultV)>(end),
                Err(e) => edit_all(lines, a + b) == Err::<Seq<Seq<char>>, _>(
                    (e.0 + a.len(), e.1),
                ),
            },
            Err(e) => edit_all(lines, a + b) == Err::<Seq<Seq<char>>, _>(e),
        },
    decreases b.len(),
{
    if b.len() == 0 {
        assert(a + b =~= a);
    } else {
        edits_apply_in_order(lines, a, b.drop_last());
        assert((a + b).drop_last() =~= a + b.drop_last());
        assert((a + b).last() == b.last());
    }
}

/// An edit leaves every line before and after the replaced run as it was.
pub proof fn edit_keeps_other_lines(lines: Seq<Seq<char>>, e: EditV, i: int)
    requires
        edit_lines(lines, e) is Ok,
        hits(lines, text::lines_of(e.search)) == seq![i],
    ensures
        run_at(lines, text::lines_of(e.search), i),
        edit_lines(lines, e)->Ok_0.take(i) == lines.take(i),
        edit_lines(lines, e)->Ok_0.skip(i + text::lines_of(e.replace).len()) == lines.skip(
            i + text::lines_of(e.search).len(),
        ),
{
    let want = text::lines_of(e.search);
    lemma_hits(lines, want);
    assert(hits(lines, want)[0] == i);
    let r = edit_lines(lines, e)->Ok_0;
    assert(r.take(i) =~= lines.take(i));
    assert(r.skip(i + text::lines_of(e.replace).len()) =~= lines.skip(i + want.len()));
}

proof fn lemma_hits_below(lines: Seq<Seq<char>>, want: Seq<Seq<char>>, n: int)
    ensures
        forall|k: int|
            0 <= k < hits_below(lines, want, n).len() ==> 0 <= #[trigger] hits_below(
                lines,
                want,
                n,
            )[k] < n && run_at(lines, want, hits_below(lines, want, n)[k]),
        forall|i: int|
            0 <= i < n && #[trigger] run_at(lines, want, i) ==> hits_below(
                lines,
                want,
                n,
            ).contains(i),
    decreases n,
{
    if n > 0 {
        lemma_hits_below(lines, want, n - 1);
        let p = hits_below(lines, want, n - 1);
        let h = hits_below(lines, want, n);
        assert forall|i: int| 0 <= i < n && #[trigger] run_at(lines, want, i) implies h.contains(
            i,
        ) by {
            if i == n - 1 {
                assert(h.last() == i);
            } else {
                let k = choose|k: int| 0 <= k < p.len() && p[k] == i;
                assert(h[k] == i);
            }
        }
    }
}

/// The hits are exactly the positions at which the lines stand.
pub proof fn lemma_hits(lines: Seq<Seq<char>>, want: Seq<Seq<char>>)
    requires
        want.len() > 0,
    ensures
        forall|i: int| hits(lines, want).contains(i) <==> #[trigger] run_at(lines, want, i),
        forall|k: int|
            0 <= k < hits(lines, want).len() ==> run_at(
                lines,
                want,
                #[trigger] hits(lines, want)[k],
            ),
{
    lemma_hits_below(lines, want, lines.len() - want.len() + 1);
}

/// Replacing a run of lines by itself changes no line.
pub proof fn edit_by_itself_changes_nothing(lines: Seq<Seq<char>>, e: EditV)
    requires
        text::lines_of(e.search) == text::lines_of(e.replace),
        edit_lines(lines, e) is Ok,
    ensures
        edit_lines(lines, e) == Ok::<_, EditFaultV>(lines),
{
    let want = text::lines_of(e.search);
    lemma_hits(lines, want);
    let i = hits(lines, want)[0];
    assert(run_at(lines, want, i));
    assert(lines.take(i) + want + lines.skip(i + want.len()) =~= lines);
}

/// Lines before the first marker belong to no block: they only move the line
/// numbers of the faults.
pub proof fn prose_before_is_ignored(pre: Seq<Seq<char>>, lines: Seq<Seq<char>>)
    requires
        forall|i: int| 0 <= i < pre.len() ==> marker_of(#[trigger] pre[i]) is None,
    ensures
        sections_of(pre + lines) == moved(sections_of(lines), pre.len() as int),
        parse_lines(lines) is Ok ==> parse_lines(pre + lines) == parse_lines(lines),
        parse_lines(lines) is Err ==> parse_lines(pre + lines) is Err,
{
    lemma_sections_after(pre, lines);
    lemma_moved_blocks(sections_of(lines), pre.len() as int, 0);
}

/// Sections with every line number `d` greater.
pub open spec fn moved(secs: Seq<SectionV>, d: int) -> Seq<SectionV> {
    secs.map_values(|s: SectionV| SectionV { line: s.line + d, ..s })
}

proof fn lemma_sections_after(pre: Seq<Seq<char>>, lines: Seq<Seq<char>>)
    requires
        forall|i: int| 0 <= i < pre.len() ==> marker_of(#[trigger] pre[i]) is None,
    ensures
        sections_of(pre + lines) == moved(sections_of(lines), pre.len() as int),
    decreases pre.len() + lines.len(),
{
    if lines.len() > 0 {
        assert((pre + lines).drop_last() =~= pre + lines.drop_last());
        lemma_sections_after(pre, lines.drop_last());
        assert(sections_of(pre + lines) =~= moved(sections_of(lines), pre.len() as int));
    } else if pre.len() > 0 {
        assert((pre + lines).drop_last() =~= pre.drop_last() + lines);
        assert forall|i: int| 0 <= i < pre.drop_last().len() implies marker_of(
            #[trigger] pre.drop_last()[i],
        ) is None by {
            assert(pre.drop_last()[i] == pre[i]);
        }
        lemma_sections_after(pre.drop_last(), lines);
        assert((pre + lines).last() == pre[pre.len() - 1]);
        assert(sections_of(pre + lines) =~= moved(sections_of(lines), pre.len() as int));
    } else {
        assert(sections_of(pre + lines) =~= moved(sections_of(lines), 0));
    }
}

proof fn lemma_moved_edits(secs: Seq<SectionV>, d: int, j: int, start: int)
    requires
        0 <= j,
    ensures
        match edits_from(secs, j, start) {
            Ok(p) => edits_from(moved(secs, d), j, start + d) == Ok::<_, FaultV>(p),
            Err(_) => edits_from(moved(secs, d), j, start + d) is Err,
        },
    decreases secs.len() - j,
{
    if j + 1 < secs.len() {
        lemma_moved_edits(secs, d, j + 2, start);
    }
}

proof fn lemma_moved_blocks(secs: Seq<SectionV>, d: int, i: int)
    requires
        0 <= i,
    ensures
        match blocks_from(secs, i) {
            Ok(bs) => blocks_from(moved(secs, d), i) == Ok::<_, FaultV>(bs),
            Err(_) => blocks_from(moved(secs, d), i) is Err,
        },
    decreases secs.len() - i,
{
    if i < secs.len() {
        let s = secs[i];
        assert(moved(secs, d)[i] == (SectionV { line: s.line + d, ..s }));
        lemma_edits_from_advances(secs, i + 1, s.line);
        lemma_moved_edits(secs, d, i + 1, s.line);
        if i + 1 < secs.len() {
            assert(moved(secs, d)[i + 1].marker == secs[i + 1].marker);
            lemma_moved_blocks(secs, d, i + 2);
        }
        lemma_moved_blocks(secs, d, i + 1);
        if s.marker is Update {
            match edits_from(secs, i + 1, s.line) {
                Ok(p) => {
                    lemma_moved_blocks(secs, d, p.1);
                },
                Err(_) => {},
            }
        }
    }
}

/// Lines after an `End File` belong to no block: what follows the last one is
/// never part of a file.
pub proof fn prose_after_end_is_ignored(lines: Seq<Seq<char>>, post: Seq<Seq<char>>)
    requires
        forall|i: int| 0 <= i < post.len() ==> marker_of(#[trigger] post[i]) is None,
        sections_of(lines).len() > 0,
        sections_of(lines).last().marker is End,
    ensures
        parse_lines(lines + post) == parse_lines(lines),
{
    lemma_sections_before(lines, post);
    lemma_end_body_blocks(sections_of(lines), sections_of(lines + post), 0);
}

/// The same sections but for the body of the last, which is an `End`.
spec fn same_but_last_body(a: Seq<SectionV>, b: Seq<SectionV>) -> bool {
    &&& a.len() == b.len() > 0
    &&& a.drop_last() == b.drop_last()
    &&& a.last().marker is End
    &&& b.last().marker is End
    &&& a.last().line == b.last().line
    &&& a.last().rest == b.last().rest
}

proof fn lemma_sections_before(lines: Seq<Seq<char>>, post: Seq<Seq<char>>)
    requires
        forall|i: int| 0 <= i < post.len() ==> marker_of(#[trigger] post[i]) is None,
        sections_of(lines).len() > 0,
        sections_of(lines).last().marker is End,
    ensures
        same_but_last_body(sections_of(lines), sections_of(lines + post)),
    decreases post.len(),
{
    if post.len() == 0 {
        assert(lines + post =~= lines);
    } else {
        assert((lines + post).drop_last() =~= lines + post.drop_last());
        assert forall|i: int| 0 <= i < post.drop_last().len() implies marker_of(
            #[trigger] post.drop_last()[i],
        ) is None by {
            assert(post.drop_last()[i] == post[i]);
        }
        lemma_sections_before(lines, post.drop_last());
        assert((lines + post).last() == post[post.len() - 1]);
        assert(sections_of(lines + post).drop_last() =~= sections_of(lines).drop_last());
    }
}

proof fn lemma_end_body_edits(a: Seq<SectionV>, b: Seq<SectionV>, j: int, start: int)
    requires
        same_but_last_body(a, b),
        0 <= j,
    ensures
        edits_from(a, j, start) == edits_from(b, j, start),
    decreases a.len() - j,
{
    if j < a.len() - 1 {
        assert(a[j] == a.drop_last()[j]);
        assert(b[j] == b.drop_last()[j]);
        if j + 1 < a.len() - 1 {
            assert(a[j + 1] == a.drop_last()[j + 1]);
            assert(b[j + 1] == b.drop_last()[j + 1]);
        }
        lemma_end_body_edits(a, b, j + 2, start);
    }
}

proof fn lemma_end_body_blocks(a: Seq<SectionV>, b: Seq<SectionV>, i: int)
    requires
        same_but_last_body(a, b),
        0 <= i,
    ensures
        blocks_from(a, i) == blocks_from(b, i),
    decreases a.len() - i,
{
    if i < a.len() {
        if i < a.len() - 1 {
            assert(a[i] == a.drop_last()[i]);
            assert(b[i] == b.drop_last()[i]);
            lemma_edits_from_advances(a, i + 1, a[i].line);
            lemma_end_body_edits(a, b, i + 1, a[i].line);
            lemma_end_body_blocks(a, b, i + 2);
            if i + 1 < a.len() - 1 {
                assert(a[i + 1] == a.drop_last()[i + 1]);
                assert(b[i + 1] == b.drop_last()[i + 1]);
            }
            match edits_from(a, i + 1, a[i].line) {
                Ok(p) => {
                    lemma_end_body_blocks(a, b, p.1);
                },
                Err(_) => {},
            }
        }
        lemma_end_body_blocks(a, b, i + 1);
    }
}

// ---- what a patch says ----

/// Where a section ends: at the next marker, or with the text.
spec fn section_end(lines: Seq<Seq<char>>, secs: Seq<SectionV>, k: int) -> int {
    if k + 1 < secs.len() {
        secs[k + 1].line - 1
    } else {
        lines.len() as int
    }
}

spec fn cut_right(lines: Seq<Seq<char>>, secs: Seq<SectionV>, k: int) -> bool {
    let s = secs[k];
    let z = section_end(lines, secs, k);
    &&& 1 <= s.line <= z <= lines.len()
    &&& marker_of(lines[s.line - 1]) == Some((s.marker, s.rest))
    &&& s.body == lines.subrange(s.line, z)
    &&& forall|j: int| s.line <= j < z ==> marker_of(#[trigger] lines[j]) is None
}

proof fn lemma_sections_cut(lines: Seq<Seq<char>>)
    ensures
        forall|k: int|
            0 <= k < sections_of(lines).len() ==> #[trigger] cut_right(lines, sections_of(lines), k),
    decreases lines.len(),
{
    if lines.len() > 0 {
        let p = lines.drop_last();
        lemma_sections_cut(p);
        let prev = sections_of(p);
        let secs = sections_of(lines);
        assert forall|j: int| 0 <= j < p.len() implies #[trigger] lines[j] == p[j] by {}
        assert forall|k: int| 0 <= k < secs.len() implies #[trigger] cut_right(lines, secs, k) by {
            if k < prev.len() {
                assert(cut_right(p, prev, k));
                let z = section_end(p, prev, k);
                if k + 1 < prev.len() {
                    assert(cut_right(p, prev, k + 1));
                }
                if k + 1 < prev.len() || marker_of(lines.last()) is Some {
                    assert(section_end(lines, secs, k) == z);
                    assert(lines.subrange(secs[k].line, z) =~= p.subrange(prev[k].line, z));
                } else {
                    assert(section_end(lines, secs, k) == lines.len());
                    assert(lines.subrange(secs[k].line, lines.len() as int) =~= p.subrange(
                        prev[k].line,
                        p.len() as int,
                    ).push(lines.last()));
                }
            } else {
                assert(lines.subrange(lines.len() as int, lines.len() as int) =~= Seq::empty());
            }
        }
    }
}

/// Whether a text is what stands between two markers: its lines are the lines between
/// them, and none of those is a marker.
pub open spec fn says_between(lines: Seq<Seq<char>>, a: int, z: int, s: Seq<char>) -> bool {
    &&& 0 <= a < z < lines.len()
    &&& marker_of(lines[a]) is Some
    &&& marker_of(lines[z]) is Some
    &&& forall|j: int| a < j < z ==> marker_of(#[trigger] lines[j]) is None
    &&& z == a + 1 ==> s.len() == 0
    &&& z > a + 1 ==> text::split_at_char(s, '\n') == lines.subrange(a + 1, z)
}

/// The marker in a line.
pub open spec fn marker_in(lines: Seq<Seq<char>>, k: int) -> MarkerV {
    (marker_of(lines[k])->0).0
}

/// Whether an edit stands in the lines: a `SEARCH` in the first line with the text to
/// look for below it, a `REPLACE` in the second with the new text below it, up to the
/// third.
pub open spec fn edit_stands(lines: Seq<Seq<char>>, e: EditV, at: (int, int, int)) -> bool {
    &&& marker_in(lines, at.0) is Search
    &&& marker_in(lines, at.1) is Replace
    &&& says_between(lines, at.0, at.1, e.search)
    &&& says_between(lines, at.1, at.2, e.replace)
}

/// Whether edits stand in the lines one behind the other, with an `End File` behind the
/// last.
pub open spec fn edits_stand(lines: Seq<Seq<char>>, edits: Seq<EditV>, at: Seq<(int, int, int)>) -> bool {
    &&& at.len() == edits.len() > 0
    &&& forall|q: int| 0 <= q < edits.len() ==> edit_stands(lines, edits[q], #[trigger] at[q])
    &&& forall|q: int, r: int|
        0 <= q && q + 1 == r && r < edits.len() ==> (#[trigger] at[q]).2 == (#[trigger] at[r]).0
    &&& marker_in(lines, at.last().2) is End
}

/// Whether a block stands in the lines at the marker in line `i`.
pub open spec fn block_stands(lines: Seq<Seq<char>>, b: BlockV, i: int) -> bool {
    match b {
        BlockV::Add { path, content } => add_stands(lines, path, content, i),
        BlockV::Update { path, edits } => file_stands(lines, path, edits, i),
    }
}

/// Whether a new file stands in the lines: its marker with its path in line `i`, and its
/// text below it, up to an `End File`.
pub open spec fn add_stands(lines: Seq<Seq<char>>, path: Seq<char>, content: Seq<char>, i: int) -> bool {
    &&& 0 <= i < lines.len()
    &&& marker_of(lines[i]) is Some
    &&& path == text::trimmed((marker_of(lines[i])->0).1)
    &&& marker_in(lines, i) is Add
    &&& exists|z: int| #[trigger] says_between(lines, i, z, content) && marker_in(lines, z) is End
}

/// Whether the edits of a file stand in the lines: its marker with its path in line `i`,
/// and the edits below it.
pub open spec fn file_stands(lines: Seq<Seq<char>>, path: Seq<char>, edits: Seq<EditV>, i: int) -> bool {
    &&& 0 <= i < lines.len()
    &&& marker_of(lines[i]) is Some
    &&& path == text::trimmed((marker_of(lines[i])->0).1)
    &&& marker_in(lines, i) is Update
    &&& exists|at: Seq<(int, int, int)>| #[trigger] update_stands(lines, edits, at, i)
}

/// Whether the edits of a file stand below its marker in line `i`.
pub open spec fn update_stands(
    lines: Seq<Seq<char>>,
    edits: Seq<EditV>,
    at: Seq<(int, int, int)>,
    i: int,
) -> bool {
    &&& edits_stand(lines, edits, at)
    &&& i < at[0].0
    &&& forall|j: int| i < j < at[0].0 ==> marker_of(#[trigger] lines[j]) is None
}

spec fn edit_at(secs: Seq<SectionV>, k: int, e: EditV) -> bool {
    &&& secs[k].marker is Search
    &&& secs[k + 1].marker is Replace
    &&& e.search == text::joined(secs[k].body, "\n"@)
    &&& e.replace == text::joined(secs[k + 1].body, "\n"@)
}

proof fn lemma_edits_at(secs: Seq<SectionV>, j: int, start: int)
    requires
        0 <= j,
    ensures
        edits_from(secs, j, start) matches Ok(p) ==> {
            &&& p.1 == j + 2 * p.0.len() + 1
            &&& p.1 <= secs.len()
            &&& secs[p.1 - 1].marker is End
            &&& forall|q: int| 0 <= q < p.0.len() ==> #[trigger] edit_at(secs, j + 2 * q, p.0[q])
        },
    decreases secs.len() - j,
{
    let r = edits_from(secs, j, start);
    if r is Ok {
        let p = r->Ok_0;
        if secs[j].marker is End {
            assert(p.0.len() == 0);
        } else {
            assert(secs[j].marker is Search);
            lemma_edits_at(secs, j + 2, start);
            let rest = edits_from(secs, j + 2, start)->Ok_0;
            let e = EditV {
                search: text::joined(secs[j].body, "\n"@),
                replace: text::joined(secs[j + 1].body, "\n"@),
            };
            assert(p.0 =~= seq![e] + rest.0);
            assert(p.1 == rest.1);
            assert forall|q: int| 0 <= q < p.0.len() implies #[trigger] edit_at(secs, j + 2 * q, p.0[q]) by {
                if q > 0 {
                    assert(edit_at(secs, j + 2 + 2 * (q - 1), rest.0[q - 1]));
                    assert(j + 2 + 2 * (q - 1) == j + 2 * q);
                    assert(p.0[q] == rest.0[q - 1]);
                }
            }
        }
    }
}

proof fn lemma_body_text(lines: Seq<Seq<char>>, k: int)
    requires
        0 <= k,
        k + 1 < sections_of(lines).len(),
        forall|j: int| 0 <= j < lines.len() ==> !(#[trigger] lines[j]).contains('\n'),
    ensures
        says_between(
            lines,
            sections_of(lines)[k].line - 1,
            sections_of(lines)[k + 1].line - 1,
            text::joined(sections_of(lines)[k].body, "\n"@),
        ),
        marker_in(lines, sections_of(lines)[k].line - 1) == sections_of(lines)[k].marker,
        marker_in(lines, sections_of(lines)[k + 1].line - 1) == sections_of(lines)[k + 1].marker,
{
    let secs = sections_of(lines);
    lemma_sections_cut(lines);
    assert(cut_right(lines, secs, k));
    assert(cut_right(lines, secs, k + 1));
    let a = secs[k].line - 1;
    let z = secs[k + 1].line - 1;
    let body = secs[k].body;
    reveal_strlit("\n");
    assert("\n"@ =~= seq!['\n']);
    if z > a + 1 {
        assert forall|j: int| 0 <= j < body.len() implies !(#[trigger] body[j]).contains('\n') by {
            assert(body[j] == lines[a + 1 + j]);
        }
        text::joining_can_be_undone(body, '\n');
    } else {
        assert(body.len() == 0);
    }
}

proof fn lemma_update_stands(lines: Seq<Seq<char>>, i: int, edits: Seq<EditV>)
    requires
        0 <= i < sections_of(lines).len(),
        forall|j: int| 0 <= j < lines.len() ==> !(#[trigger] lines[j]).contains('\n'),
        edits.len() > 0,
        edits_from(sections_of(lines), i + 1, sections_of(lines)[i].line) matches Ok(p) && p.0 == edits,
    ensures
        exists|at: Seq<(int, int, int)>| #[trigger]
            update_stands(lines, edits, at, sections_of(lines)[i].line - 1),
{
    let secs = sections_of(lines);
    lemma_edits_at(secs, i + 1, secs[i].line);
    lemma_sections_cut(lines);
    let n = edits.len() as int;
    let at = Seq::new(
        edits.len(),
        |q: int|
            (
                secs[i + 1 + 2 * q].line - 1,
                secs[i + 2 + 2 * q].line - 1,
                secs[i + 3 + 2 * q].line - 1,
            ),
    );
    assert forall|q: int| 0 <= q < edits.len() implies edit_stands(lines, edits[q], #[trigger] at[q]) by {
        assert(edit_at(secs, i + 1 + 2 * q, edits[q]));
        lemma_body_text(lines, i + 1 + 2 * q);
        lemma_body_text(lines, i + 2 + 2 * q);
    }
    assert forall|q: int, r: int| 0 <= q && q + 1 == r && r < edits.len() implies (#[trigger] at[q]).2 == (
    #[trigger] at[r]).0 by {
        assert(i + 3 + 2 * q == i + 1 + 2 * r);
    }
    assert(i + 3 + 2 * (n - 1) == i + 1 + 2 * n);
    assert(cut_right(lines, secs, i + 1 + 2 * n));
    assert(marker_in(lines, at.last().2) is End);
    assert(cut_right(lines, secs, i));
    assert(cut_right(lines, secs, i + 1));
    assert(at[0].0 == secs[i + 1].line - 1);
    assert(edits_stand(lines, edits, at));
    assert(update_stands(lines, edits, at, secs[i].line - 1));
}

spec fn blocks_stand_from(lines: Seq<Seq<char>>, bs: Seq<BlockV>, at: Seq<int>, i: int) -> bool {
    let secs = sections_of(lines);
    &&& at.len() == bs.len()
    &&& forall|k: int|
        0 <= k < at.len() ==> i <= #[trigger] at[k] < secs.len() && block_stands(
            lines,
            bs[k],
            secs[at[k]].line - 1,
        )
    &&& forall|k: int, m: int| 0 <= k < m < at.len() ==> #[trigger] at[k] < #[trigger] at[m]
    &&& forall|s: int|
        i <= s < secs.len() && ((#[trigger] secs[s]).marker is Add || secs[s].marker is Update)
            ==> at.contains(s)
}

proof fn lemma_add_stands(lines: Seq<Seq<char>>, i: int, rest: Seq<char>, content: Seq<char>, z: int)
    requires
        0 <= i < lines.len(),
        marker_of(lines[i]) == Some((MarkerV::Add, rest)),
        says_between(lines, i, z, content),
        marker_in(lines, z) is End,
    ensures
        block_stands(lines, BlockV::Add { path: text::trimmed(rest), content }, i),
{
    assert(add_stands(lines, text::trimmed(rest), content, i));
}

proof fn lemma_edits_stand(lines: Seq<Seq<char>>, i: int, rest: Seq<char>, edits: Seq<EditV>)
    requires
        0 <= i < lines.len(),
        marker_of(lines[i]) == Some((MarkerV::Update, rest)),
        exists|at: Seq<(int, int, int)>| #[trigger] update_stands(lines, edits, at, i),
    ensures
        block_stands(lines, BlockV::Update { path: text::trimmed(rest), edits }, i),
{
    assert(file_stands(lines, text::trimmed(rest), edits, i));
}

proof fn lemma_blocks_at(lines: Seq<Seq<char>>, i: int) -> (at: Seq<int>)
    requires
        0 <= i,
        forall|j: int| 0 <= j < lines.len() ==> !(#[trigger] lines[j]).contains('\n'),
        blocks_from(sections_of(lines), i) is Ok,
    ensures
        blocks_stand_from(lines, blocks_from(sections_of(lines), i)->Ok_0, at, i),
    decreases sections_of(lines).len() - i,
{
    let secs = sections_of(lines);
    let bs = blocks_from(secs, i)->Ok_0;
    if i >= secs.len() {
        Seq::empty()
    } else {
        lemma_sections_cut(lines);
        assert(cut_right(lines, secs, i));
        let s = secs[i];
        match s.marker {
            MarkerV::Add => {
                let rest = lemma_blocks_at(lines, i + 2);
                let tail = blocks_from(secs, i + 2)->Ok_0;
                let at = seq![i] + rest;
                lemma_body_text(lines, i);
                let b = BlockV::Add {
                    path: text::trimmed(s.rest),
                    content: text::joined(s.body, "\n"@),
                };
                assert(bs =~= seq![b] + tail);
                assert(bs[0] == b);
                let z = secs[i + 1].line - 1;
                assert(says_between(lines, s.line - 1, z, text::joined(s.body, "\n"@)));
                assert(secs[i + 1].marker is End);
                assert(marker_in(lines, z) is End);
                lemma_add_stands(lines, s.line - 1, s.rest, text::joined(s.body, "\n"@), z);
                assert(block_stands(lines, bs[0], s.line - 1));
                lemma_one_block_first(lines, bs, at, tail, rest, i, i + 2);
                at
            },
            MarkerV::Update => {
                lemma_edits_from_advances(secs, i + 1, s.line);
                lemma_edits_at(secs, i + 1, s.line);
                let p = edits_from(secs, i + 1, s.line)->Ok_0;
                let rest = lemma_blocks_at(lines, p.1);
                let tail = blocks_from(secs, p.1)->Ok_0;
                let at = seq![i] + rest;
                lemma_update_stands(lines, i, p.0);
                let b = BlockV::Update { path: text::trimmed(s.rest), edits: p.0 };
                assert(bs =~= seq![b] + tail);
                assert(bs[0] == b);
                lemma_edits_stand(lines, s.line - 1, s.rest, p.0);
                assert(block_stands(lines, bs[0], s.line - 1));
                assert forall|x: int| i < x < p.1 implies !((#[trigger] secs[x]).marker is Add) && !(
                secs[x].marker is Update) by {
                    let d = x - (i + 1);
                    let q = d / 2;
                    if x < p.1 - 1 {
                        assert(0 <= q < p.0.len());
                        assert(edit_at(secs, i + 1 + 2 * q, p.0[q]));
                        assert(x == i + 1 + 2 * q || x == i + 1 + 2 * q + 1);
                    }
                }
                lemma_one_block_first(lines, bs, at, tail, rest, i, p.1);
                at
            },
            _ => {
                let rest = lemma_blocks_at(lines, i + 1);
                assert(blocks_from(secs, i + 1)->Ok_0 == bs);
                rest
            },
        }
    }
}

proof fn lemma_one_block_first(
    lines: Seq<Seq<char>>,
    bs: Seq<BlockV>,
    at: Seq<int>,
    tail: Seq<BlockV>,
    rest: Seq<int>,
    i: int,
    next: int,
)
    requires
        bs.len() == tail.len() + 1,
        bs == seq![bs[0]] + tail,
        at == seq![i] + rest,
        0 <= i < next,
        i < sections_of(lines).len(),
        blocks_stand_from(lines, tail, rest, next),
        block_stands(lines, bs[0], sections_of(lines)[i].line - 1),
        forall|x: int|
            i < x < next && x < sections_of(lines).len() ==> !((#[trigger] sections_of(lines)[x]).marker is Add)
                && !(sections_of(lines)[x].marker is Update),
    ensures
        blocks_stand_from(lines, bs, at, i),
{
    let secs = sections_of(lines);
    assert forall|k: int| 0 <= k < at.len() implies i <= #[trigger] at[k] < secs.len() && block_stands(
        lines,
        bs[k],
        secs[at[k]].line - 1,
    ) by {
        if k > 0 {
            assert(at[k] == rest[k - 1]);
            assert(bs[k] == tail[k - 1]);
        }
    }
    assert forall|k: int, m: int| 0 <= k < m < at.len() implies #[trigger] at[k] < #[trigger] at[m] by {
        assert(at[m] == rest[m - 1]);
        if k > 0 {
            assert(at[k] == rest[k - 1]);
        }
    }
    assert forall|s: int|
        i <= s < secs.len() && ((#[trigger] secs[s]).marker is Add || secs[s].marker is Update) implies at.contains(
        s,
    ) by {
        if s == i {
            assert(at[0] == i);
        } else {
            assert(rest.contains(s));
            let k = choose|k: int| 0 <= k < rest.len() && rest[k] == s;
            assert(at[k + 1] == s);
        }
    }
}

/// The blocks of a patch are what stands in its lines, in order and without one left
/// out: for each there is the marker of a file with the path, and splitting its content,
/// or the texts of its edits, into lines gives back the lines between the markers,
/// unchanged.
pub proof fn blocks_say_what_the_lines_say(lines: Seq<Seq<char>>)
    requires
        forall|j: int| 0 <= j < lines.len() ==> !(#[trigger] lines[j]).contains('\n'),
        parse_lines(lines) is Ok,
    ensures
        exists|at: Seq<int>| #[trigger] blocks_stand(lines, parse_lines(lines)->Ok_0, at),
{
    let secs = sections_of(lines);
    let bs = parse_lines(lines)->Ok_0;
    let ss = lemma_blocks_at(lines, 0);
    lemma_sections_cut(lines);
    let at = ss.map_values(|s: int| secs[s].line - 1);
    assert forall|k: int| 0 <= k < bs.len() implies block_stands(lines, bs[k], #[trigger] at[k]) by {
        assert(at[k] == secs[ss[k]].line - 1);
    }
    assert forall|k: int, m: int| 0 <= k < m < at.len() implies #[trigger] at[k] < #[trigger] at[m] by {
        assert(ss[k] < ss[m]);
        lemma_lines_ascend(lines, ss[k], ss[m]);
    }
    assert forall|j: int|
        0 <= j < lines.len() && #[trigger] marker_of(lines[j]) is Some && (marker_in(lines, j) is Add
            || marker_in(lines, j) is Update) implies at.contains(j) by {
        let s = lemma_section_at(lines, j);
        assert(cut_right(lines, secs, s));
        assert(ss.contains(s));
        let k = choose|k: int| 0 <= k < ss.len() && ss[k] == s;
        assert(at[k] == j);
    }
    assert(blocks_stand(lines, bs, at));
}

/// Whether blocks stand in the lines at these markers, and no other file is named.
pub open spec fn blocks_stand(lines: Seq<Seq<char>>, bs: Seq<BlockV>, at: Seq<int>) -> bool {
    &&& at.len() == bs.len() > 0
    &&& forall|k: int| 0 <= k < bs.len() ==> block_stands(lines, bs[k], #[trigger] at[k])
    &&& forall|k: int, m: int| 0 <= k < m < at.len() ==> #[trigger] at[k] < #[trigger] at[m]
    &&& forall|j: int|
        0 <= j < lines.len() && #[trigger] marker_of(lines[j]) is Some && (marker_in(lines, j) is Add
            || marker_in(lines, j) is Update) ==> at.contains(j)
}

proof fn lemma_lines_ascend(lines: Seq<Seq<char>>, k: int, m: int)
    requires
        0 <= k < m < sections_of(lines).len(),
    ensures
        sections_of(lines)[k].line < sections_of(lines)[m].line,
    decreases m - k,
{
    let secs = sections_of(lines);
    lemma_sections_cut(lines);
    assert(cut_right(lines, secs, k));
    assert(cut_right(lines, secs, k + 1));
    if k + 1 < m {
        lemma_lines_ascend(lines, k + 1, m);
    }
}

proof fn lemma_section_at(lines: Seq<Seq<char>>, j: int) -> (s: int)
    requires
        0 <= j < lines.len(),
        marker_of(lines[j]) is Some,
    ensures
        0 <= s < sections_of(lines).len(),
        sections_of(lines)[s].line == j + 1,
    decreases lines.len(),
{
    let p = lines.drop_last();
    let prev = sections_of(p);
    if j == lines.len() - 1 {
        prev.len() as int
    } else {
        assert(p[j] == lines[j]);
        let s = lemma_section_at(p, j);
        assert(sections_of(lines)[s].line == prev[s].line);
        s
    }
}

/// A line is a marker exactly where it begins with three stars and a blank; what the
/// marker is called stands before the first colon, and what it names behind it.
pub proof fn markers_begin_with_stars(line: Seq<char>, head: Seq<char>, rest: Seq<char>)
    ensures
        marker_of(line) is Some <==> line.len() >= 4 && line[0] == '*' && line[1] == '*' && line[2] == '*'
            && line[3] == ' ',
        !head.contains(':') ==> marker_of(seq!['*', '*', '*', ' '] + head + seq![':'] + rest) == Some(
            (marker_named(text::trimmed(head)), text::trimmed(rest)),
        ),
        !head.contains(':') ==> marker_of(seq!['*', '*', '*', ' '] + head) == Some(
            (marker_named(text::trimmed(head)), Seq::<char>::empty()),
        ),
{
    reveal_strlit("*** ");
    let stars = "*** "@;
    assert(stars =~= seq!['*', '*', '*', ' ']);
    if line.len() >= 4 {
        assert(line.subrange(0, 4).len() == 4);
        if line.subrange(0, 4) == stars {
            assert(line[0] == line.subrange(0, 4)[0]);
            assert(line[1] == line.subrange(0, 4)[1]);
            assert(line[2] == line.subrange(0, 4)[2]);
            assert(line[3] == line.subrange(0, 4)[3]);
        }
        if line[0] == '*' && line[1] == '*' && line[2] == '*' && line[3] == ' ' {
            assert(line.subrange(0, 4) =~= stars);
        }
    }
    if !head.contains(':') {
        let a = stars + head + seq![':'] + rest;
        assert(a.subrange(0, 4) =~= stars);
        let r = a.skip(4);
        assert(r =~= head + seq![':'] + rest);
        assert forall|k: int| 0 <= k < head.len() implies r[k] != ':' by {
            assert(r[k] == head[k]);
            assert(head.contains(head[k]));
        }
        text::lemma_index_of_char_is(r, ':', head.len() as int);
        assert(r.take(head.len() as int) =~= head);
        assert(r.skip(head.len() as int + 1) =~= rest);
        let b = stars + head;
        assert(b.subrange(0, 4) =~= stars);
        assert(b.skip(4) =~= head);
        assert forall|k: int| 0 <= k < head.len() implies head[k] != ':' by {
            assert(head.contains(head[k]));
        }
        text::lemma_index_of_char_is(head, ':', head.len() as int);
        text::trimmed_text_stays(Seq::<char>::empty());
    }
}

/// The names of the markers, in letters of either case; a marker of another name is none
/// that is known.
pub proof fn markers_have_their_names(head: Seq<char>)
    ensures
        marker_named(head) is Add <==> text::same_ignoring_case(head, "add file"@),
        marker_named(head) is Update <==> text::same_ignoring_case(head, "update file"@),
        marker_named(head) is Search <==> text::same_ignoring_case(head, "search"@),
        marker_named(head) is Replace <==> text::same_ignoring_case(head, "replace"@),
        marker_named(head) is End <==> text::same_ignoring_case(head, "end file"@),
        marker_named(head) is Unknown ==> marker_named(head) == MarkerV::Unknown(head),
{
    reveal_strlit("Add File");
    reveal_strlit("add file");
    reveal_strlit("Update File");
    reveal_strlit("update file");
    reveal_strlit("SEARCH");
    reveal_strlit("search");
    reveal_strlit("REPLACE");
    reveal_strlit("replace");
    reveal_strlit("End File");
    reveal_strlit("end file");
    assert(text::lowered_ascii("Add File"@) =~= text::lowered_ascii("add file"@));
    assert(text::lowered_ascii("Update File"@) =~= text::lowered_ascii("update file"@));
    assert(text::lowered_ascii("SEARCH"@) =~= text::lowered_ascii("search"@));
    assert(text::lowered_ascii("REPLACE"@) =~= text::lowered_ascii("replace"@));
    assert(text::lowered_ascii("End File"@) =~= text::lowered_ascii("end file"@));
    let a = text::lowered_ascii("add file"@);
    let u = text::lowered_ascii("update file"@);
    let s = text::lowered_ascii("search"@);
    let r = text::lowered_ascii("replace"@);
    let e = text::lowered_ascii("end file"@);
    assert(a.len() == 8 && u.len() == 11 && s.len() == 6 && r.len() == 7 && e.len() == 8);
    assert(a[0] == 'a' && e[0] == 'e');
}

/// An edit looks for its lines and puts the new ones in their place: it holds exactly
/// where they stand once, and nothing around them changes.
pub proof fn an_edit_replaces_its_lines(lines: Seq<Seq<char>>, e: EditV)
    ensures
        ({
            let want = text::lines_of(e.search);
            let new = text::lines_of(e.replace);
            let r = edit_lines(lines, e);
            &&& r matches Ok(out) ==> want.len() > 0 && exists|i: int|
                0 <= i && i + want.len() <= lines.len() && #[trigger] lines.subrange(i, i + want.len())
                    == want && out == lines.take(i) + new + lines.skip(i + want.len()) && forall|j: int|
                    0 <= j && j + want.len() <= lines.len() && #[trigger] lines.subrange(j, j + want.len())
                        == want ==> j == i
            &&& (want.len() > 0 && exists|i: int| #[trigger] alone_at(lines, want, i)) ==> r is Ok
        }),
{
    let want = text::lines_of(e.search);
    let h = hits(lines, want);
    if want.len() > 0 {
        lemma_hits(lines, want);
        lemma_hits_ascend(lines, want, lines.len() - want.len() + 1);
        if h.len() == 1 {
            let i = h[0];
            assert(run_at(lines, want, i));
            assert forall|j: int|
                0 <= j && j + want.len() <= lines.len() && #[trigger] lines.subrange(j, j + want.len())
                    == want implies j == i by {
                assert(run_at(lines, want, j));
                assert(h.contains(j));
            }
            assert(lines.subrange(i, i + want.len()) == want);
        }
        if exists|i: int| #[trigger] alone_at(lines, want, i) {
            let i = choose|i: int| #[trigger] alone_at(lines, want, i);
            assert(run_at(lines, want, i));
            assert(h.contains(i));
            if h.len() > 1 {
                assert(run_at(lines, want, h[0]));
                assert(run_at(lines, want, h[1]));
                assert(lines.subrange(h[0], h[0] + want.len()) == want);
                assert(lines.subrange(h[1], h[1] + want.len()) == want);
                assert(h[0] < h[1]);
            }
        }
    }
}

/// Whether some lines stand in others at one place and at no other.
pub open spec fn alone_at(lines: Seq<Seq<char>>, want: Seq<Seq<char>>, i: int) -> bool {
    &&& 0 <= i && i + want.len() <= lines.len()
    &&& lines.subrange(i, i + want.len()) == want
    &&& forall|j: int|
        0 <= j && j + want.len() <= lines.len() && #[trigger] lines.subrange(j, j + want.len()) == want
            ==> j == i
}

proof fn lemma_hits_ascend(lines: Seq<Seq<char>>, want: Seq<Seq<char>>, n: int)
    ensures
        forall|k: int, m: int|
            0 <= k < m < hits_below(lines, want, n).len() ==> #[trigger] hits_below(lines, want, n)[k]
                < #[trigger] hits_below(lines, want, n)[m],
    decreases n,
{
    if n > 0 {
        lemma_hits_ascend(lines, want, n - 1);
        lemma_hits_below(lines, want, n - 1);
        let p = hits_below(lines, want, n - 1);
        let h = hits_below(lines, want, n);
        assert forall|k: int, m: int| 0 <= k < m < h.len() implies #[trigger] h[k] < #[trigger] h[m] by {
            assert(p[k] == h[k]);
            assert(0 <= p[k] < n - 1);
            if m < p.len() {
                assert(p[m] == h[m]);
            }
        }
    }
}

/// Why an edit does not hold: its lines stand nowhere, or at several places, which are
/// told by the numbers of their first lines; where they stand nowhere but for white
/// space, the line is shown.
pub proof fn edits_that_do_not_hold_say_why(lines: Seq<Seq<char>>, e: EditV)
    ensures
        ({
            let want = text::lines_of(e.search);
            match edit_lines(lines, e) {
                Ok(_) => true,
                Err(EditFaultV::Multiple { lines: at }) => at.len() > 1 && want.len() > 0 && (forall|n: int| #[trigger]
                    at.contains(n) <==> 1 <= n && n - 1 + want.len() <= lines.len() && lines.subrange(
                        n - 1,
                        n - 1 + want.len(),
                    ) == want),
                Err(EditFaultV::NotFound { total }) => total == lines.len() && (want.len() > 0 ==> forall|i: int|
                    0 <= i && i + want.len() <= lines.len() ==> #[trigger] lines.subrange(i, i + want.len())
                        != want),
                Err(EditFaultV::NearMiss { line, actual }) => 1 <= line <= lines.len() && actual
                    == lines[line - 1] && want.len() > 0 && (forall|i: int|
                    0 <= i && i + want.len() <= lines.len() ==> #[trigger] lines.subrange(i, i + want.len())
                        != want) && flat(lines[line - 1]) == flat(want[0]),
            }
        }),
{
    let want = text::lines_of(e.search);
    let h = hits(lines, want);
    if want.len() > 0 {
        lemma_hits(lines, want);
        match edit_lines(lines, e) {
            Ok(_) => {},
            Err(EditFaultV::Multiple { lines: at }) => {
                assert forall|n: int| #[trigger] at.contains(n) <==> 1 <= n && n - 1 + want.len()
                    <= lines.len() && lines.subrange(n - 1, n - 1 + want.len()) == want by {
                    if at.contains(n) {
                        let k = choose|k: int| 0 <= k < at.len() && at[k] == n;
                        assert(at[k] == h[k] + 1);
                        assert(run_at(lines, want, h[k]));
                    }
                    if 1 <= n && n - 1 + want.len() <= lines.len() && lines.subrange(
                        n - 1,
                        n - 1 + want.len(),
                    ) == want {
                        assert(run_at(lines, want, n - 1));
                        assert(h.contains(n - 1));
                        let k = choose|k: int| 0 <= k < h.len() && h[k] == n - 1;
                        assert(at[k] == n);
                    }
                }
            },
            Err(f) => {
                assert(h.len() == 0);
                assert forall|i: int| 0 <= i && i + want.len() <= lines.len() implies #[trigger] lines.subrange(
                    i,
                    i + want.len(),
                ) != want by {
                    if lines.subrange(i, i + want.len()) == want {
                        assert(run_at(lines, want, i));
                        assert(h.contains(i));
                    }
                }
                lemma_near(lines, want, 0);
                if f is NearMiss {
                    let i = near_from(lines, want, 0)->0;
                    assert(run_at(flats(lines), flats(want), i));
                    assert(flats(lines).subrange(i, i + want.len())[0] == flats(lines)[i]);
                    assert(flats(want)[0] == flat(want[0]));
                }
            },
        }
    }
}

proof fn lemma_near(lines: Seq<Seq<char>>, want: Seq<Seq<char>>, i: int)
    requires
        0 <= i,
    ensures
        near_from(lines, want, i) matches Some(k) ==> i <= k && run_at(flats(lines), flats(want), k) && k
            + want.len() <= lines.len(),
    decreases lines.len() + 1 - i,
{
    if i + want.len() <= lines.len() && !run_at(flats(lines), flats(want), i) {
        lemma_near(lines, want, i + 1);
    }
}

/// A file is written with the ends of lines it had, and has the lines it was given.
pub proof fn the_file_has_the_lines_it_was_given(current: Seq<char>, ls: Seq<Seq<char>>)
    requires
        ls.len() > 0,
        forall|k: int| 0 <= k < ls.len() ==> !(#[trigger] ls[k]).contains('\n'),
        forall|k: int| 0 <= k < ls.len() && (#[trigger] ls[k]).len() > 0 ==> ls[k].last() != '\r',
        ls.last().len() > 0,
    ensures
        text::lines_of(written(current, ls)) == ls,
        text::contains_text(current, seq!['\r', '\n']) ==> written(current, ls) == text::joined(
            ls,
            seq!['\r', '\n'],
        ) + (if current.last() == '\n' {
            seq!['\r', '\n']
        } else {
            Seq::empty()
        }),
        !text::contains_text(current, seq!['\r', '\n']) ==> written(current, ls) == text::joined(
            ls,
            seq!['\n'],
        ) + (if current.len() > 0 && current.last() == '\n' {
            seq!['\n']
        } else {
            Seq::empty()
        }),
{
    reveal_strlit("\n");
    reveal_strlit("\r\n");
    assert("\n"@ =~= seq!['\n']);
    assert("\r\n"@ =~= seq!['\r', '\n']);
    let end = eol_of(current);
    text::written_lines_are_read_back(ls, end);
    let out = text::joined(ls, end);
    if ls.len() > 1 {
        text::joining_can_be_done_in_parts(ls.drop_last(), seq![ls.last()], end);
        assert(ls =~= ls.drop_last() + seq![ls.last()]);
    }
    assert(out.len() > 0);
    assert(out + Seq::<char>::empty() =~= out);
    if text::contains_text(current, seq!['\r', '\n']) {
        let i = choose|i: int| text::stands_at(current, seq!['\r', '\n'], i);
        assert(current.len() > 0);
    }
}

/// A patch of a file is its edits one after the other; the first that does not hold ends
/// it, and is named by its number.
pub proof fn edits_are_taken_one_by_one(lines: Seq<Seq<char>>, edits: Seq<EditV>, e: EditV)
    ensures
        edit_all(lines, Seq::<EditV>::empty()) == Ok::<_, (int, EditFaultV)>(lines),
        edit_all(lines, edits) matches Ok(mid) ==> match edit_lines(mid, e) {
            Ok(out) => edit_all(lines, edits.push(e)) == Ok::<_, (int, EditFaultV)>(out),
            Err(f) => edit_all(lines, edits.push(e)) == Err::<Seq<Seq<char>>, _>((edits.len() as int + 1, f)),
        },
        edit_all(lines, edits) matches Err(x) ==> edit_all(lines, edits.push(e)) == Err::<
            Seq<Seq<char>>,
            _,
        >(x),
{
    assert(edits.push(e).drop_last() =~= edits);
}

} // verus!
