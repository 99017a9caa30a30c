//! Where an agent may work. The model is given real absolute paths; a path it
//! names must be absolute, free of `.` and `..`, and lie inside one of the roots
//! the agent is allowed. A refusal lists those roots.
use crate::module::Module;
use crate::prompt::{self, ToolTexts, fill1, fill2};
use crate::schema::ToolBook;
use crate::table::Table;
use crate::text::{self, clone_strings, eq_ignore_case, has_char, has_sub, is_control, join, starts_with, str_eq, strip_start, to_chars, trim};
use vstd::prelude::*;

verus! {

/// An absolute path: its text and its components.
#[derive(Debug)]
pub struct RealPath {
    pub text: String,
    pub parts: Vec<String>,
}

pub struct PathV {
    pub text: Seq<char>,
    pub parts: Seq<Seq<char>>,
}

impl View for RealPath {
    type V = PathV;

    open spec fn view(&self) -> PathV {
        PathV { text: self.text@, parts: text::texts(self.parts@) }
    }
}

pub open spec fn paths_v(v: Seq<RealPath>) -> Seq<PathV> {
    v.map_values(|p: RealPath| p@)
}

impl RealPath {
    pub fn copy(&self) -> (r: RealPath)
        ensures
            r@ == self@,
    {
        RealPath { text: self.text.clone(), parts: clone_strings(&self.parts) }
    }
}

pub fn copy_paths(v: &Vec<RealPath>) -> (r: Vec<RealPath>)
    ensures
        paths_v(r@) == paths_v(v@),
{
    let mut r: Vec<RealPath> = Vec::new();
    let mut i: usize = 0;
    while i < v.len()
        invariant
            i <= v@.len(),
            r@.len() == i,
            forall|k: int| 0 <= k < i ==> (#[trigger] r@[k])@ == v@[k]@,
        decreases v@.len() - i,
    {
        r.push(v[i].copy());
        i = i + 1;
    }
    assert(paths_v(r@) =~= paths_v(v@));
    r
}

/// A path as it is written for the model: with `/` only.
pub open spec fn slashed(s: Seq<char>) -> Seq<char> {
    s.map_values(
        |c: char|
            if c == '\\' {
                '/'
            } else {
                c
            },
    )
}

pub fn slash_text(s: &str) -> (r: String)
    ensures
        r@ == slashed(s@),
{
    let v = to_chars(s);
    let mut r = String::new();
    let mut i: usize = 0;
    while i < v.len()
        invariant
            i <= v@.len(),
            v@ == s@,
            r@ == slashed(s@).take(i as int),
        decreases v@.len() - i,
    {
        if v[i] == '\\' {
            r.push('/');
        } else {
            r.push(v[i]);
        }
        i = i + 1;
        assert(r@ =~= slashed(s@).take(i as int));
    }
    assert(r@ =~= slashed(s@));
    r
}

/// A path as it is written for the model.
pub fn slash(p: &RealPath) -> (r: String)
    ensures
        r@ == slashed(p@.text),
{
    slash_text(p.text.as_str())
}

/// Why a name cannot be a file's name; `None` when it can.
pub open spec fn file_name_fault(name: Seq<char>) -> Option<Seq<char>> {
    let n = text::trimmed(name);
    if n.len() == 0 {
        Some("文件名不能为空"@)
    } else if n.contains('/') || n.contains('\\') || n == "."@ || n == ".."@ {
        Some("文件名不能包含路径分隔符"@)
    } else if exists|i: int| 0 <= i < n.len() && text::control(#[trigger] n[i]) {
        Some("文件名不能包含控制字符"@)
    } else {
        None
    }
}

/// Whether some character of a text is a control character.
pub fn has_control(s: &str) -> (r: bool)
    ensures
        r == exists|i: int| 0 <= i < s@.len() && text::control(#[trigger] s@[i]),
{
    let v = to_chars(s);
    let mut i: usize = 0;
    while i < v.len()
        invariant
            i <= v@.len(),
            v@ == s@,
            forall|k: int| 0 <= k < i ==> !text::control(#[trigger] s@[k]),
        decreases v@.len() - i,
    {
        if is_control(v[i]) {
            assert(text::control(s@[i as int]));
            return true;
        }
        i = i + 1;
    }
    false
}

/// The name of a single file, without white space around it; no path.
pub fn safe_file_name(name: &str) -> (r: Result<String, String>)
    ensures
        match r {
            Ok(n) => file_name_fault(name@) is None && n@ == text::trimmed(name@),
            Err(e) => file_name_fault(name@) == Some(e@),
        },
{
    let n = trim(name);
    let s = n.as_str();
    if s.is_empty() {
        return Err("文件名不能为空".to_owned());
    }
    if has_char(s, '/') || has_char(s, '\\') || str_eq(s, ".") || str_eq(s, "..") {
        return Err("文件名不能包含路径分隔符".to_owned());
    }
    if has_control(s) {
        return Err("文件名不能包含控制字符".to_owned());
    }
    Ok(n)
}

/// Which of an agent's roots a path lies in.
#[derive(Debug, PartialEq, Eq)]
pub enum Place {
    Shared,
    Private,
    Module(String),
}

pub enum PlaceV {
    Shared,
    Private,
    Module(Seq<char>),
}

impl View for Place {
    type V = PlaceV;

    open spec fn view(&self) -> PlaceV {
        match *self {
            Place::Shared => PlaceV::Shared,
            Place::Private => PlaceV::Private,
            Place::Module(s) => PlaceV::Module(s@),
        }
    }
}

/// The sandbox of an agent: the roots it may reach, and the texts and tools it is given.
#[derive(Debug)]
pub struct Sandbox {
    pub work_name: String,
    pub agent: String,
    /// The directory the whole team shares.
    pub shared: RealPath,
    /// The agent's own directory.
    pub private: RealPath,
    /// The directories of its modules.
    pub modules: Table<RealPath>,
    pub texts: ToolTexts,
    pub builtin_tools: ToolBook,
}

impl Sandbox {
    /// The directories of the modules, once more.
    pub fn copy_modules(&self) -> (r: Table<RealPath>)
        ensures
            paths_table(r@) == paths_table(self.modules@),
    {
        let mut entries: Vec<(String, RealPath)> = Vec::new();
        let mut i: usize = 0;
        while i < self.modules.len()
            invariant
                i <= self.modules@.len(),
                entries@.len() == i,
                forall|k: int|
                    0 <= k < i ==> (#[trigger] entries@[k]).0@ == self.modules@[k].0
                        && entries@[k].1@ == self.modules@[k].1@,
            decreases self.modules@.len() - i,
        {
            entries.push((self.modules.key_at(i).to_owned(), self.modules.value_at(i).copy()));
            i = i + 1;
        }
        let r = Table { entries };
        assert(paths_table(r@) =~= paths_table(self.modules@));
        r
    }
}

pub open spec fn paths_table(t: Seq<(Seq<char>, RealPath)>) -> Seq<(Seq<char>, PathV)> {
    t.map_values(|e: (Seq<char>, RealPath)| (e.0, e.1@))
}

/// The component of a path.
#[derive(Debug)]
pub enum Part {
    /// A drive or the root directory.
    Anchor(String),
    Normal(String),
    CurDir,
    ParentDir,
}

pub enum PartV {
    Anchor(Seq<char>),
    Normal(Seq<char>),
    CurDir,
    ParentDir,
}

impl View for Part {
    type V = PartV;

    open spec fn view(&self) -> PartV {
        match *self {
            Part::Anchor(s) => PartV::Anchor(s@),
            Part::Normal(s) => PartV::Normal(s@),
            Part::CurDir => PartV::CurDir,
            Part::ParentDir => PartV::ParentDir,
        }
    }
}

pub open spec fn parts_v(v: Seq<Part>) -> Seq<PartV> {
    v.map_values(|p: Part| p@)
}

/// The text without `/` and `\\`.
pub open spec fn bare(s: Seq<char>) -> Seq<char>
    decreases s.len(),
{
    if s.len() == 0 {
        Seq::empty()
    } else if s.last() == '/' || s.last() == '\\' {
        bare(s.drop_last())
    } else {
        bare(s.drop_last()).push(s.last())
    }
}

/// What components spell, one behind the other, without separators.
pub open spec fn letters(parts: Seq<Seq<char>>) -> Seq<char> {
    bare(text::joined(parts, ""@))
}

/// Whether a path is written with a `.` between its separators.
pub open spec fn dotted(spec_: Seq<char>) -> bool {
    text::contains_text(slashed(spec_) + "/"@, "/./"@)
}

/// `std::path::Path::is_absolute`. The notation is the machine's, so nothing is
/// promised of the answer.
#[verifier::external_body]
fn is_absolute(spec: &str) -> (r: bool) {
    std::path::Path::new(spec).is_absolute()
}

/// `std::path::Path::components`, one variant for each of its kinds (a drive and
/// the root directory are both anchors). The notation is the machine's; in every one
/// the components spell what the text does, but for separators and for `.` pieces
/// (a leading one is a component).
#[verifier::external_body]
fn components(spec: &str) -> (r: Vec<Part>)
    ensures
        bad_part(parts_v(r@), 0) is None && !dotted(spec@) ==> letters(part_texts(parts_v(r@)))
            == bare(spec@),
{
    let text = |c: std::path::Component| c.as_os_str().to_string_lossy().into_owned();
    std::path::Path::new(spec)
        .components()
        .map(|c| match c {
            std::path::Component::Prefix(_) => Part::Anchor(text(c)),
            std::path::Component::RootDir => Part::Anchor(text(c)),
            std::path::Component::CurDir => Part::CurDir,
            std::path::Component::ParentDir => Part::ParentDir,
            std::path::Component::Normal(_) => Part::Normal(text(c)),
        })
        .collect()
}

/// Whether a piece can only ever be a name: it has no separator and no colon in it,
/// and is not `.` or `..`.
pub open spec fn is_name(s: Seq<char>) -> bool {
    s.len() > 0 && !s.contains('/') && !s.contains('\\') && !s.contains(':') && s != "."@ && s
        != ".."@
}

/// The text of the path `std::path::PathBuf` makes of pieces pushed one by one, in the
/// machine's notation. Names are put behind what there is; a piece that the machine
/// takes for a drive or a root may take the place of it.
#[verifier::external_body]
fn assemble(parts: &Vec<String>) -> (r: String)
    ensures
        (forall|k: int| 1 <= k < parts@.len() ==> is_name((#[trigger] parts@[k])@)) ==> bare(r@)
            == letters(text::texts(parts@)),
{
    parts.iter().collect::<std::path::PathBuf>().to_string_lossy().into_owned()
}

/// Whether the machine can say this of a text that may be absolute.
pub closed spec fn is_said_absolute(s: Seq<char>, absolute: bool) -> bool {
    exists|t: &str| t@ == s && #[trigger] call_ensures(is_absolute, (t,), absolute)
}

/// Whether the machine can read these components in a text.
pub closed spec fn reads_as(s: Seq<char>, parts: Seq<PartV>) -> bool {
    exists|t: &str, r: Vec<Part>|
        t@ == s && parts_v(r@) == parts && #[trigger] call_ensures(components, (t,), r)
}

/// Whether the machine can write pieces pushed one by one as this text.
pub closed spec fn is_assembled(parts: Seq<Seq<char>>, s: Seq<char>) -> bool {
    exists|v: &Vec<String>, r: String|
        text::texts(v@) == parts && r@ == s && #[trigger] call_ensures(assemble, (v,), r)
}

fn ask_absolute(s: &str) -> (r: bool)
    ensures
        is_said_absolute(s@, r),
{
    let r = is_absolute(s);
    assert(call_ensures(is_absolute, (s,), r));
    r
}

fn ask_parts(s: &str) -> (r: Vec<Part>)
    ensures
        reads_as(s@, parts_v(r@)),
{
    let r = components(s);
    assert(call_ensures(components, (s,), r));
    r
}

pub(crate) fn ask_text(parts: &Vec<String>) -> (r: String)
    ensures
        is_assembled(text::texts(parts@), r@),
{
    let r = assemble(parts);
    assert(call_ensures(assemble, (parts,), r));
    r
}

/// However the machine reads a text, its components leave out nothing but separators
/// and `.` pieces.
pub proof fn components_leave_out_only_dots(s: Seq<char>, parts: Seq<PartV>)
    requires
        reads_as(s, parts),
        bad_part(parts, 0) is None,
        !dotted(s),
    ensures
        letters(part_texts(parts)) == bare(s),
{
}

/// However the machine writes a path, names put behind it are all there.
pub proof fn names_are_kept(parts: Seq<Seq<char>>, s: Seq<char>)
    requires
        is_assembled(parts, s),
        forall|k: int| 1 <= k < parts.len() ==> is_name(#[trigger] parts[k]),
    ensures
        bare(s) == letters(parts),
{
    let (v, r) = choose|v: &Vec<String>, r: String|
        text::texts(v@) == parts && r@ == s && #[trigger] call_ensures(assemble, (v,), r);
    assert forall|k: int| 1 <= k < v@.len() implies is_name((#[trigger] v@[k])@) by {
        assert(parts[k] == v@[k]@);
    }
}

fn bare_text(s: &str) -> (r: String)
    ensures
        r@ == bare(s@),
{
    let v = to_chars(s);
    let mut r = String::new();
    let mut i: usize = 0;
    assert(v@.take(0) =~= Seq::<char>::empty());
    assert(r@ =~= Seq::<char>::empty());
    while i < v.len()
        invariant
            i <= v@.len(),
            r@ == bare(v@.take(i as int)),
        decreases v@.len() - i,
    {
        assert(v@.take(i + 1).drop_last() =~= v@.take(i as int));
        assert(v@.take(i + 1).last() == v@[i as int]);
        if v[i] != '/' && v[i] != '\\' {
            r.push(v[i]);
        }
        i = i + 1;
    }
    assert(v@.take(v@.len() as int) =~= v@);
    r
}

// ---- resolving a path ----

pub open spec fn roots_of(sb: Sandbox) -> Seq<(PlaceV, PathV)> {
    seq![(PlaceV::Shared, sb.shared@), (PlaceV::Private, sb.private@)] + sb.modules@.map_values(
        |e: (Seq<char>, RealPath)| (PlaceV::Module(e.0), e.1@),
    )
}

pub open spec fn root_lines(sb: Sandbox) -> Seq<Seq<char>> {
    seq![
        prompt::filled(sb.texts.roots_shared@, seq![("root"@, slashed(sb.shared@.text))]),
        prompt::filled(sb.texts.roots_private@, seq![("root"@, slashed(sb.private@.text))]),
    ] + sb.modules@.map_values(
        |e: (Seq<char>, RealPath)|
            prompt::filled(
                sb.texts.roots_module@,
                seq![("id"@, e.0), ("root"@, slashed(e.1@.text))],
            ),
    )
}

/// The roots an agent may reach, a line for each.
pub open spec fn roots_text(sb: Sandbox) -> Seq<char> {
    text::joined(root_lines(sb), "\n"@)
}

/// A refusal: why, and the roots that are allowed.
pub open spec fn refusal(sb: Sandbox, why: Seq<char>) -> Seq<char> {
    prompt::filled(sb.texts.roots_wrapper@, seq![("why"@, why), ("roots"@, roots_text(sb))])
}

/// The first component from `i` on that may not be in a path.
pub open spec fn bad_part(parts: Seq<PartV>, i: int) -> Option<PartV>
    decreases parts.len() - i,
{
    if i < 0 || i >= parts.len() {
        None
    } else if parts[i] is CurDir || parts[i] is ParentDir {
        Some(parts[i])
    } else {
        bad_part(parts, i + 1)
    }
}

pub open spec fn part_text(p: PartV) -> Seq<char> {
    match p {
        PartV::Anchor(s) => s,
        PartV::Normal(s) => s,
        _ => Seq::empty(),
    }
}

pub open spec fn part_texts(parts: Seq<PartV>) -> Seq<Seq<char>> {
    parts.map_values(|p: PartV| part_text(p))
}

/// Whether a component names a drive: a letter and a colon, or the same in the
/// verbatim notation.
pub open spec fn is_drive(s: Seq<char>) -> bool {
    s.len() >= 2 && s.last() == ':' && (s.len() == 2 || (s.len() == 6 && text::starts(
        s,
        "\\\\?\\"@,
    )))
}

/// Whether two components at `k` are the same; a drive comes first, and its letter
/// has no case.
pub open spec fn same_part(a: Seq<char>, b: Seq<char>, k: int) -> bool {
    a == b || (k == 0 && is_drive(a) && is_drive(b) && text::same_ignoring_case(a, b))
}

/// Whether a path lies in a root: the root's components are its first ones.
pub open spec fn inside(parts: Seq<Seq<char>>, root: Seq<Seq<char>>) -> bool {
    root.len() <= parts.len() && forall|k: int|
        0 <= k < root.len() ==> same_part(parts[k], #[trigger] root[k], k)
}

/// How long the text of a root is, in bytes.
pub open spec fn root_len(p: PathV) -> nat {
    vstd::utf8::encode_utf8(p.text).len()
}

/// The first of the longest roots among the first `n` that a path lies in.
pub open spec fn best_root(
    roots: Seq<(PlaceV, PathV)>,
    parts: Seq<Seq<char>>,
    n: int,
) -> Option<int>
    decreases n,
{
    if n <= 0 {
        None
    } else {
        let prev = best_root(roots, parts, n - 1);
        if inside(parts, roots[n - 1].1.parts) && (prev is None || root_len(roots[n - 1].1)
            > root_len(roots[prev->0].1)) {
            Some(n - 1)
        } else {
            prev
        }
    }
}

/// What a path resolves to, given whether the machine takes it for absolute and
/// the components the machine sees in it.
pub open spec fn resolution(
    sb: Sandbox,
    raw: Seq<char>,
    absolute: bool,
    parts: Seq<PartV>,
) -> Result<(PlaceV, Seq<Seq<char>>), Seq<char>> {
    let spec_ = text::trimmed(raw);
    let path = seq![("path"@, spec_)];
    let norm = part_texts(parts);
    if spec_.len() == 0 {
        Err(refusal(sb, sb.texts.path_empty@))
    } else if !absolute {
        Err(refusal(sb, prompt::filled(sb.texts.path_need_absolute@, path)))
    } else if text::contains_text(text::strip_start_of(slashed(spec_), '/'), "//"@) {
        Err(refusal(sb, prompt::filled(sb.texts.path_empty_segment@, path)))
    } else {
        match bad_part(parts, 0) {
            Some(PartV::CurDir) => Err(refusal(sb, prompt::filled(sb.texts.path_cur_dir@, path))),
            Some(_) => Err(refusal(sb, prompt::filled(sb.texts.path_parent_dir@, path))),
            None if letters(norm) != bare(spec_) => Err(
                refusal(sb, prompt::filled(sb.texts.path_cur_dir@, path)),
            ),
            None => match best_root(roots_of(sb), norm, roots_of(sb).len() as int) {
                Some(i) => Ok((roots_of(sb)[i].0, norm)),
                None => Err(refusal(sb, prompt::filled(sb.texts.path_outside_roots@, path))),
            },
        }
    }
}

/// Whether a text stands for the components that were found: it reads as them, and
/// spells what they spell.
pub open spec fn stands_for(s: Seq<char>, back: Seq<PartV>, norm: Seq<Seq<char>>) -> bool {
    bad_part(back, 0) is None && part_texts(back) == norm && bare(s) == letters(norm)
}

/// What a path that lies in a root resolves to, given the text the machine writes for
/// its components and how it reads that back.
pub open spec fn settled(
    sb: Sandbox,
    raw: Seq<char>,
    x: (PlaceV, Seq<Seq<char>>),
    s: Seq<char>,
    back: Seq<PartV>,
) -> Result<(PlaceV, PathV), Seq<char>> {
    if stands_for(s, back, x.1) {
        Ok((x.0, PathV { text: s, parts: x.1 }))
    } else {
        Err(
            refusal(
                sb,
                prompt::filled(
                    sb.texts.path_outside_roots@,
                    seq![("path"@, text::trimmed(raw))],
                ),
            ),
        )
    }
}

/// Whether the machine can read a path of the model's like this.
pub open spec fn is_read(raw: Seq<char>, absolute: bool, parts: Seq<PartV>) -> bool {
    is_said_absolute(text::trimmed(raw), absolute) && reads_as(text::trimmed(raw), parts)
}

/// Whether the machine can write components as this text, and read it back so.
pub open spec fn is_written(norm: Seq<Seq<char>>, s: Seq<char>, back: Seq<PartV>) -> bool {
    is_assembled(norm, s) && reads_as(s, back)
}

/// Whether a path of the model's leads where `found` says, however the machine reads
/// and writes paths.
pub open spec fn leads_to(
    sb: Sandbox,
    raw: Seq<char>,
    found: Result<(PlaceV, PathV), Seq<char>>,
) -> bool {
    exists|absolute: bool, parts: Seq<PartV>| #[trigger]
        is_read(raw, absolute, parts) && match resolution(sb, raw, absolute, parts) {
            Err(e) => found == Err::<(PlaceV, PathV), _>(e),
            Ok(x) => ends_at(sb, raw, x, found),
        }
}

/// Whether components that lie in a root lead to this path.
pub open spec fn ends_at(
    sb: Sandbox,
    raw: Seq<char>,
    x: (PlaceV, Seq<Seq<char>>),
    found: Result<(PlaceV, PathV), Seq<char>>,
) -> bool {
    exists|s: Seq<char>, back: Seq<PartV>| #[trigger]
        is_written(x.1, s, back) && found == settled(sb, raw, x, s, back)
}

pub open spec fn found_v(r: Result<(Place, RealPath), String>) -> Result<
    (PlaceV, PathV),
    Seq<char>,
> {
    match r {
        Ok(p) => Ok((p.0@, p.1@)),
        Err(e) => Err(e@),
    }
}

fn names_drive(s: &str) -> (r: bool)
    ensures
        r == is_drive(s@),
{
    let v = to_chars(s);
    let n = v.len();
    n >= 2 && v[n - 1] == ':' && (n == 2 || (n == 6 && starts_with(s, "\\\\?\\")))
}

fn lies_inside(parts: &Vec<String>, root: &Vec<String>) -> (r: bool)
    ensures
        r == inside(text::texts(parts@), text::texts(root@)),
{
    if root.len() > parts.len() {
        return false;
    }
    let ghost p = text::texts(parts@);
    let ghost q = text::texts(root@);
    let mut i: usize = 0;
    while i < root.len()
        invariant
            i <= root@.len() <= parts@.len(),
            p == text::texts(parts@),
            q == text::texts(root@),
            forall|k: int| 0 <= k < i ==> same_part(p[k], #[trigger] q[k], k),
        decreases root@.len() - i,
    {
        let a = parts[i].as_str();
        let b = root[i].as_str();
        assert(p[i as int] == a@ && q[i as int] == b@);
        let same = str_eq(a, b) || (i == 0 && names_drive(a) && names_drive(b) && eq_ignore_case(
            a,
            b,
        ));
        if !same {
            return false;
        }
        i = i + 1;
    }
    true
}

impl Sandbox {
    /// The roots the agent may reach: the shared one, its own, its modules'.
    fn roots(&self) -> (r: Vec<(Place, RealPath)>)
        ensures
            r@.map_values(|e: (Place, RealPath)| (e.0@, e.1@)) == roots_of(*self),
    {
        let mut r: Vec<(Place, RealPath)> = Vec::new();
        r.push((Place::Shared, self.shared.copy()));
        r.push((Place::Private, self.private.copy()));
        let ghost all = roots_of(*self);
        let mut i: usize = 0;
        while i < self.modules.len()
            invariant
                i <= self.modules@.len(),
                all == roots_of(*self),
                r@.len() == i + 2,
                forall|k: int|
                    0 <= k < i + 2 ==> ((#[trigger] r@[k]).0@, r@[k].1@) == all[k],
            decreases self.modules@.len() - i,
        {
            let id = self.modules.key_at(i);
            let p = self.modules.value_at(i).copy();
            r.push((Place::Module(id.to_owned()), p));
            assert(all[i + 2] == (PlaceV::Module(self.modules@[i as int].0), p@));
            i = i + 1;
        }
        assert(r@.map_values(|e: (Place, RealPath)| (e.0@, e.1@)) =~= all);
        r
    }

    /// The roots the agent may reach, a line for each.
    pub fn roots_listing(&self) -> (r: String)
        requires
            prompt::texts_sound(self.texts),
        ensures
            r@ == roots_text(*self),
    {
        let mut ls: Vec<String> = Vec::new();
        ls.push(
            fill1(self.texts.roots_shared.as_str(), "root", slash(&self.shared).as_str()),
        );
        ls.push(
            fill1(self.texts.roots_private.as_str(), "root", slash(&self.private).as_str()),
        );
        let ghost all = root_lines(*self);
        let mut i: usize = 0;
        assert(text::texts(ls@) =~= all.take(2));
        while i < self.modules.len()
            invariant
                i <= self.modules@.len(),
                prompt::texts_sound(self.texts),
                all == root_lines(*self),
                text::texts(ls@) == all.take(i + 2),
            decreases self.modules@.len() - i,
        {
            let ghost prev = ls@;
            let l = fill2(
                self.texts.roots_module.as_str(),
                "id",
                self.modules.key_at(i),
                "root",
                slash(self.modules.value_at(i)).as_str(),
            );
            ls.push(l);
            proof {
                text::lemma_texts_push(prev, l);
                assert(all[i + 2] == l@);
                assert(text::texts(ls@) =~= all.take(i + 3));
            }
            i = i + 1;
        }
        assert(all.take(all.len() as int) =~= all);
        join(&ls, "\n")
    }

    fn deny(&self, why: &str) -> (r: String)
        requires
            prompt::texts_sound(self.texts),
        ensures
            r@ == refusal(*self, why@),
    {
        fill2(
            self.texts.roots_wrapper.as_str(),
            "why",
            why,
            "roots",
            self.roots_listing().as_str(),
        )
    }

    /// Resolves a path, given whether the machine takes it for absolute and the
    /// components the machine sees in it.
    pub fn resolve_parts(&self, raw: &str, absolute: bool, parts: &Vec<Part>) -> (r: Result<
        (Place, Vec<String>),
        String,
    >)
        requires
            prompt::texts_sound(self.texts),
        ensures
            match r {
                Ok(p) => resolution(*self, raw@, absolute, parts_v(parts@)) == Ok::<_, Seq<char>>(
                    (p.0@, text::texts(p.1@)),
                ),
                Err(e) => resolution(*self, raw@, absolute, parts_v(parts@)) == Err::<
                    (PlaceV, Seq<Seq<char>>),
                    _,
                >(e@),
            },
    {
        let spec_ = trim(raw);
        let s = spec_.as_str();
        let t = &self.texts;
        if s.is_empty() {
            return Err(self.deny(t.path_empty.as_str()));
        }
        if !absolute {
            return Err(self.deny(fill1(t.path_need_absolute.as_str(), "path", s).as_str()));
        }
        let flat = strip_start(slash_text(s).as_str(), '/');
        if has_sub(flat.as_str(), "//") {
            return Err(self.deny(fill1(t.path_empty_segment.as_str(), "path", s).as_str()));
        }
        let ghost pv = parts_v(parts@);
        let mut norm: Vec<String> = Vec::new();
        let mut i: usize = 0;
        while i < parts.len()
            invariant
                i <= parts@.len(),
                pv == parts_v(parts@),
                *t == self.texts,
                prompt::texts_sound(*t),
                s@ == text::trimmed(raw@),
                s@.len() > 0,
                absolute,
                !text::contains_text(text::strip_start_of(slashed(s@), '/'), "//"@),
                bad_part(pv, 0) == bad_part(pv, i as int),
                norm@.len() == i,
                forall|k: int| 0 <= k < i ==> (#[trigger] norm@[k])@ == part_text(pv[k]),
            decreases parts@.len() - i,
        {
            assert(pv[i as int] == parts@[i as int]@);
            match &parts[i] {
                Part::Anchor(x) => {
                    norm.push(x.clone());
                },
                Part::Normal(x) => {
                    norm.push(x.clone());
                },
                Part::CurDir => {
                    return Err(self.deny(fill1(t.path_cur_dir.as_str(), "path", s).as_str()));
                },
                Part::ParentDir => {
                    return Err(self.deny(fill1(t.path_parent_dir.as_str(), "path", s).as_str()));
                },
            }
            i = i + 1;
        }
        assert(text::texts(norm@) =~= part_texts(pv));
        let spelled = bare_text(join(&norm, "").as_str());
        if !str_eq(spelled.as_str(), bare_text(s).as_str()) {
            return Err(self.deny(fill1(t.path_cur_dir.as_str(), "path", s).as_str()));
        }
        let roots = self.roots();
        let ghost rv = roots_of(*self);
        let mut best: Option<usize> = None;
        let mut i: usize = 0;
        assert(rv.len() == roots@.len());
        while i < roots.len()
            invariant
                i <= roots@.len(),
                rv == roots@.map_values(|e: (Place, RealPath)| (e.0@, e.1@)),
                match best {
                    Some(b) => best_root(rv, text::texts(norm@), i as int) == Some(b as int) && b < i,
                    None => best_root(rv, text::texts(norm@), i as int) is None,
                },
            decreases roots@.len() - i,
        {
            assert(rv[i as int] == (roots@[i as int].0@, roots@[i as int].1@));
            if lies_inside(&norm, &roots[i].1.parts) {
                let better = match best {
                    Some(b) => {
                        assert(rv[b as int] == (roots@[b as int].0@, roots@[b as int].1@));
                        byte_len(roots[i].1.text.as_str()) > byte_len(roots[b].1.text.as_str())
                    },
                    None => true,
                };
                if better {
                    best = Some(i);
                }
            }
            i = i + 1;
        }
        match best {
            Some(b) => {
                assert(rv[b as int] == (roots@[b as int].0@, roots@[b as int].1@));
                let place = match &roots[b].0 {
                    Place::Shared => Place::Shared,
                    Place::Private => Place::Private,
                    Place::Module(id) => Place::Module(id.clone()),
                };
                Ok((place, norm))
            },
            None => Err(self.deny(fill1(t.path_outside_roots.as_str(), "path", s).as_str())),
        }
    }

    /// Takes the text the machine writes for a path that lies in a root: only where it
    /// reads back as the same path is it used.
    pub fn settle(
        &self,
        raw: &str,
        place: Place,
        norm: Vec<String>,
        text: String,
        back: &Vec<Part>,
    ) -> (r: Result<(Place, RealPath), String>)
        requires
            prompt::texts_sound(self.texts),
        ensures
            found_v(r) == settled(
                *self,
                raw@,
                (place@, text::texts(norm@)),
                text@,
                parts_v(back@),
            ),
    {
        let ghost bv = parts_v(back@);
        let ghost nv = text::texts(norm@);
        let mut same = back.len() == norm.len();
        let mut i: usize = 0;
        assert(part_texts(bv).len() == back@.len() && nv.len() == norm@.len());
        while i < back.len() && same
            invariant
                i <= back@.len(),
                bv == parts_v(back@),
                nv == text::texts(norm@),
                same ==> back@.len() == norm@.len(),
                same ==> bad_part(bv, 0) == bad_part(bv, i as int),
                same ==> forall|k: int| 0 <= k < i ==> #[trigger] part_texts(bv)[k] == nv[k],
                !same ==> bad_part(bv, 0) is Some || part_texts(bv) != nv,
            decreases back@.len() - i,
        {
            assert(bv[i as int] == back@[i as int]@);
            assert(nv[i as int] == norm@[i as int]@);
            assert(part_texts(bv)[i as int] == part_text(bv[i as int]));
            same = match &back[i] {
                Part::Anchor(x) => str_eq(x.as_str(), norm[i].as_str()),
                Part::Normal(x) => str_eq(x.as_str(), norm[i].as_str()),
                Part::CurDir => false,
                Part::ParentDir => false,
            };
            i = i + 1;
        }
        proof {
            if same {
                assert(bad_part(bv, bv.len() as int) is None);
                assert(part_texts(bv) =~= nv);
            }
        }
        let spelled = bare_text(join(&norm, "").as_str());
        if same && str_eq(bare_text(text.as_str()).as_str(), spelled.as_str()) {
            Ok((place, RealPath { text, parts: norm }))
        } else {
            let s = trim(raw);
            Err(self.deny(fill1(self.texts.path_outside_roots.as_str(), "path", s.as_str()).as_str()))
        }
    }

    /// Resolves a path the model names to one of the agent's roots. How the machine
    /// reads the text decides whether it is absolute and what its components are, and
    /// how it writes them what file is meant; the rest follows. The file's path spells
    /// what the model wrote.
    pub fn resolve(&self, raw: &str) -> (r: Result<(Place, RealPath), String>)
        requires
            prompt::texts_sound(self.texts),
        ensures
            leads_to(*self, raw@, found_v(r)),
            r matches Ok(p) ==> bare(p.1@.text) == bare(text::trimmed(raw@)),
    {
        let spec_ = trim(raw);
        let absolute = ask_absolute(spec_.as_str());
        let parts = ask_parts(spec_.as_str());
        assert(is_read(raw@, absolute, parts_v(parts@)));
        match self.resolve_parts(raw, absolute, &parts) {
            Ok(p) => {
                let (place, norm) = p;
                let text = ask_text(&norm);
                let back = ask_parts(text.as_str());
                assert(is_written(text::texts(norm@), text@, parts_v(back@)));
                let ghost x = (place@, text::texts(norm@));
                let r = self.settle(raw, place, norm, text, &back);
                assert(ends_at(*self, raw@, x, found_v(r)));
                r
            },
            Err(e) => Err(e),
        }
    }
}

fn byte_len(s: &str) -> (n: usize)
    ensures
        n == vstd::utf8::encode_utf8(s@).len(),
{
    let b = s.as_bytes();
    b.len()
}

/// The sandboxes of a piece of work, one for each agent.
#[derive(Debug)]
pub struct Sandboxes {
    pub shared: RealPath,
    pub list: Vec<Sandbox>,
}

impl Sandboxes {
    /// The sandbox of an agent, `None` where it was given none.
    pub fn for_agent(&self, agent: &str) -> (r: Option<&Sandbox>)
        ensures
            match r {
                Some(s) => exists|i: int|
                    0 <= i < self.list@.len() && *s == #[trigger] self.list@[i] && s.agent@ == agent@
                        && forall|k: int| 0 <= k < i ==> (#[trigger] self.list@[k]).agent@ != agent@,
                None => forall|k: int|
                    0 <= k < self.list@.len() ==> (#[trigger] self.list@[k]).agent@ != agent@,
            },
    {
        let mut i: usize = 0;
        while i < self.list.len()
            invariant
                i <= self.list@.len(),
                forall|k: int| 0 <= k < i ==> (#[trigger] self.list@[k]).agent@ != agent@,
            decreases self.list@.len() - i,
        {
            if str_eq(self.list[i].agent.as_str(), agent) {
                return Some(&self.list[i]);
            }
            i = i + 1;
        }
        None
    }
}

/// The files of a piece of work: relative paths with `/`, in order.
#[derive(Debug)]
pub struct WorkFiles {
    pub work: Vec<String>,
    pub agents: Table<Vec<String>>,
}

/// The roots of a piece of work.
#[derive(Debug)]
pub struct WorkRoots {
    pub shared: RealPath,
    pub agents: Table<RealPath>,
}

// ---- laws ----

proof fn lemma_best_root(roots: Seq<(PlaceV, PathV)>, parts: Seq<Seq<char>>, n: int)
    requires
        0 <= n <= roots.len(),
    ensures
        match best_root(roots, parts, n) {
            Some(i) => 0 <= i < n && inside(parts, roots[i].1.parts) && forall|k: int|
                0 <= k < n && inside(parts, (#[trigger] roots[k]).1.parts) ==> root_len(
                    roots[k].1,
                ) <= root_len(roots[i].1),
            None => forall|k: int|
                0 <= k < n ==> !inside(parts, (#[trigger] roots[k]).1.parts),
        },
    decreases n,
{
    if n > 0 {
        lemma_best_root(roots, parts, n - 1);
    }
}

proof fn lemma_no_bad_part(parts: Seq<PartV>, i: int, k: int)
    requires
        0 <= i <= k < parts.len(),
        bad_part(parts, i) is None,
    ensures
        !(parts[k] is CurDir),
        !(parts[k] is ParentDir),
    decreases k - i,
{
    if i < k {
        lemma_no_bad_part(parts, i + 1, k);
    }
}

/// What a path of the model's leads to is a file in one of the agent's roots, in none
/// that is longer: its text reads as components that lie there, without `.` or `..`,
/// and spells what the model wrote. Nothing outside the roots can be reached.
pub proof fn resolved_paths_stay_inside(sb: Sandbox, raw: Seq<char>, found: (PlaceV, PathV))
    requires
        leads_to(sb, raw, Ok(found)),
    ensures
        bare(found.1.text) == bare(text::trimmed(raw)),
        exists|back: Seq<PartV>, i: int| #[trigger]
            reads_as(found.1.text, back) && part_texts(back) == found.1.parts && lies_clean(back)
                && #[trigger] is_root_of(sb, found.0, found.1.parts, i),
{
    let (absolute, parts) = choose|absolute: bool, parts: Seq<PartV>| #[trigger]
        is_read(raw, absolute, parts) && match resolution(sb, raw, absolute, parts) {
            Err(e) => false,
            Ok(x) => ends_at(sb, raw, x, Ok(found)),
        };
    let x = resolution(sb, raw, absolute, parts)->Ok_0;
    let (s, back) = choose|s: Seq<char>, back: Seq<PartV>| #[trigger]
        is_written(x.1, s, back) && settled(sb, raw, x, s, back) == Ok::<_, Seq<char>>(found);
    let roots = roots_of(sb);
    lemma_best_root(roots, x.1, roots.len() as int);
    assert forall|k: int| 0 <= k < back.len() implies !((#[trigger] back[k]) is CurDir) && !(
    back[k] is ParentDir) by {
        lemma_no_bad_part(back, 0, k);
    }
    let i = best_root(roots, x.1, roots.len() as int)->0;
    assert(is_root_of(sb, found.0, found.1.parts, i));
    assert(reads_as(found.1.text, back) && lies_clean(back));
}

/// Whether there is no `.` and no `..` among components.
pub open spec fn lies_clean(parts: Seq<PartV>) -> bool {
    forall|k: int|
        0 <= k < parts.len() ==> !((#[trigger] parts[k]) is CurDir) && !(parts[k] is ParentDir)
}

/// Whether components lie in the `i`th root, at this place, and in none that is longer.
pub open spec fn is_root_of(sb: Sandbox, place: PlaceV, parts: Seq<Seq<char>>, i: int) -> bool {
    &&& 0 <= i < roots_of(sb).len()
    &&& roots_of(sb)[i].0 == place
    &&& inside(parts, roots_of(sb)[i].1.parts)
    &&& forall|k: int|
        0 <= k < roots_of(sb).len() && inside(parts, (#[trigger] roots_of(sb)[k]).1.parts)
            ==> root_len(roots_of(sb)[k].1) <= root_len(roots_of(sb)[i].1)
}

/// A path that is absolute, has no empty part, no `.` and no `..`, and spells what it
/// reads as, is found in the longest of the rooms that it lies in; where it lies in none,
/// it is not.
pub proof fn paths_in_a_room_are_found(
    sb: Sandbox,
    raw: Seq<char>,
    parts: Seq<PartV>,
    i: int,
)
    requires
        text::trimmed(raw).len() > 0,
        !text::contains_text(text::strip_start_of(slashed(text::trimmed(raw)), '/'), "//"@),
        lies_clean(parts),
        letters(part_texts(parts)) == bare(text::trimmed(raw)),
    ensures
        is_root_of(sb, roots_of(sb)[i].0, part_texts(parts), i) ==> resolution(sb, raw, true, parts) is Ok
            && resolution(sb, raw, true, parts)->Ok_0.1 == part_texts(parts) && lies_in_a_room(
            sb,
            resolution(sb, raw, true, parts)->Ok_0.0,
            part_texts(parts),
        ),
        (forall|k: int|
            0 <= k < roots_of(sb).len() ==> !inside(part_texts(parts), (#[trigger] roots_of(sb)[k]).1.parts))
            ==> resolution(sb, raw, true, parts) is Err,
        resolution(sb, raw, false, parts) is Err,
{
    let norm = part_texts(parts);
    let roots = roots_of(sb);
    lemma_clean(parts, 0);
    lemma_best_root(roots, norm, roots.len() as int);
    if is_root_of(sb, roots[i].0, norm, i) {
        assert(best_root(roots, norm, roots.len() as int) is Some) by {
            assert(inside(norm, roots[i].1.parts));
        }
        let j = best_root(roots, norm, roots.len() as int)->0;
        assert(is_root_of(sb, roots[j].0, norm, j));
        assert(resolution(sb, raw, true, parts) == Ok::<(PlaceV, Seq<Seq<char>>), Seq<char>>((roots[j].0, norm)));
        lemma_in_a_room(sb, roots[j].0, norm, j);
    }
}

/// Whether a path lies in the room it was found in, and in none that is longer.
pub open spec fn lies_in_a_room(sb: Sandbox, place: PlaceV, parts: Seq<Seq<char>>) -> bool {
    exists|j: int| #[trigger] is_root_of(sb, place, parts, j)
}

proof fn lemma_in_a_room(sb: Sandbox, place: PlaceV, parts: Seq<Seq<char>>, j: int)
    requires
        is_root_of(sb, place, parts, j),
    ensures
        lies_in_a_room(sb, place, parts),
{
}

proof fn lemma_clean(parts: Seq<PartV>, i: int)
    requires
        0 <= i,
        lies_clean(parts),
    ensures
        bad_part(parts, i) is None,
    decreases parts.len() - i,
{
    if i < parts.len() {
        lemma_clean(parts, i + 1);
    }
}

/// A path with `.` or `..` in it is never found.
pub proof fn paths_that_climb_are_refused(sb: Sandbox, raw: Seq<char>, absolute: bool, parts: Seq<PartV>, k: int)
    requires
        0 <= k < parts.len(),
        parts[k] is CurDir || parts[k] is ParentDir,
    ensures
        resolution(sb, raw, absolute, parts) is Err,
{
    if bad_part(parts, 0) is None {
        lemma_no_bad_part(parts, 0, k);
    }
}

/// A name is one for a file exactly where it is a single part of a path that can be
/// read.
pub proof fn file_names_are_single(name: Seq<char>)
    ensures
        file_name_fault(name) is None <==> ({
            let n = text::trimmed(name);
            &&& n.len() > 0
            &&& !n.contains('/') && !n.contains('\\')
            &&& n != seq!['.'] && n != seq!['.', '.']
            &&& forall|i: int| 0 <= i < n.len() ==> !text::control(#[trigger] n[i])
        }),
{
    reveal_strlit(".");
    reveal_strlit("..");
    assert("."@ =~= seq!['.']);
    assert(".."@ =~= seq!['.', '.']);
}

/// Slashes of either kind are written as one kind, and nothing else changes.
pub proof fn slashes_are_written_alike(s: Seq<char>, i: int)
    requires
        0 <= i < s.len(),
    ensures
        slashed(s).len() == s.len(),
        slashed(s)[i] != '\\',
        slashed(s)[i] == '/' <==> s[i] == '/' || s[i] == '\\',
        s[i] != '\\' ==> slashed(s)[i] == s[i],
        slashed(slashed(s)) == slashed(s),
{
    assert(slashed(slashed(s)) =~= slashed(s));
}

} // verus!
