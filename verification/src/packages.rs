//! Runtime packages: their manifests, and the library of those that are valid. A
//! package provides a capability (its id); versions of one id stand side by side.
use crate::table::{self, Ranked, Table, add_ordered};
use crate::text::{self, cat2, cat3, cat4, cat5, cat6, clone_strings, has_char, is_blank, is_white, push_when, split, starts_with, str_eq, strip, to_chars};
use vstd::prelude::*;

verus! {

/// A package that lives under a prefix of its own.
pub const KIND_PREFIX: &'static str = "prefix";

/// A package that writes into system paths.
pub const KIND_SYSTEM: &'static str = "system";

/// What a package says of one of its files.
#[derive(Debug)]
pub struct FileFingerprint {
    pub path: String,
    pub sha256: String,
    pub bytes: u64,
}

/// What a package says of itself.
#[derive(Debug)]
pub struct PackageManifest {
    pub id: String,
    pub version: String,
    pub kind: String,
    pub prefix: String,
    pub provides_paths: Vec<String>,
    /// The capabilities it needs itself.
    pub needs: Vec<String>,
    pub license: Vec<String>,
    pub note: String,
    pub files: Vec<FileFingerprint>,
}

/// A character that may start a capability's name.
pub open spec fn cap_start(c: char) -> bool {
    'a' <= c <= 'z' || '0' <= c <= '9'
}

pub open spec fn cap_char(c: char) -> bool {
    cap_start(c) || c == '-' || c == '_' || c == '.'
}

/// The names a capability can have.
pub open spec fn is_capability(s: Seq<char>) -> bool {
    &&& 1 <= s.len() <= 64
    &&& cap_start(s[0])
    &&& forall|i: int| 0 <= i < s.len() ==> cap_char(#[trigger] s[i])
}

/// Whether a name can be a capability's: small letters, digits, `-`, `_` and `.`,
/// a letter or digit first, 1 to 64 of them.
pub fn valid_capability(name: &str) -> (r: bool)
    ensures
        r == is_capability(name@),
{
    let v = to_chars(name);
    if v.len() == 0 || v.len() > 64 {
        return false;
    }
    let c = v[0];
    if !(('a' <= c && c <= 'z') || ('0' <= c && c <= '9')) {
        return false;
    }
    let mut i: usize = 0;
    while i < v.len()
        invariant
            i <= v@.len(),
            v@ == name@,
            forall|k: int| 0 <= k < i ==> cap_char(#[trigger] name@[k]),
        decreases v@.len() - i,
    {
        let c = v[i];
        if !(('a' <= c && c <= 'z') || ('0' <= c && c <= '9') || c == '-' || c == '_' || c
            == '.') {
            assert(!cap_char(name@[i as int]));
            return false;
        }
        i = i + 1;
    }
    true
}

/// A relative path as packages write it.
pub open spec fn is_rel_path(p: Seq<char>) -> bool {
    &&& p.len() > 0
    &&& p[0] != '/'
    &&& !p.contains('\\')
    &&& forall|i: int|
        0 <= i < text::split_at_char(p, '/').len() ==> {
            let seg = #[trigger] text::split_at_char(p, '/')[i];
            seg.len() > 0 && seg != "."@ && seg != ".."@
        }
}

/// Whether a text is a relative path: `/` between segments, none of them empty,
/// `.` or `..`, and no backslash.
pub fn valid_rel_path(p: &str) -> (r: bool)
    ensures
        r == is_rel_path(p@),
{
    let v = to_chars(p);
    if v.len() == 0 || v[0] == '/' || has_char(p, '\\') {
        return false;
    }
    let segs = split(p, '/');
    let ghost sv = text::split_at_char(p@, '/');
    let mut i: usize = 0;
    while i < segs.len()
        invariant
            i <= segs@.len(),
            sv == text::texts(segs@),
            sv == text::split_at_char(p@, '/'),
            forall|k: int|
                0 <= k < i ==> (#[trigger] sv[k]).len() > 0 && sv[k] != "."@ && sv[k] != ".."@,
        decreases segs@.len() - i,
    {
        let s = segs[i].as_str();
        assert(sv[i as int] == s@);
        if s.is_empty() || str_eq(s, ".") || str_eq(s, "..") {
            assert(!is_rel_path(p@));
            return false;
        }
        i = i + 1;
    }
    true
}

/// The first path from `i` on that is no relative path.
pub open spec fn bad_path(v: Seq<Seq<char>>, i: int) -> Option<Seq<char>>
    decreases v.len() - i,
{
    if i < 0 || i >= v.len() {
        None
    } else if !is_rel_path(v[i]) {
        Some(v[i])
    } else {
        bad_path(v, i + 1)
    }
}

/// What is wrong with the capabilities a package needs, from `i` on.
pub open spec fn bad_need(v: Seq<Seq<char>>, id: Seq<char>, i: int) -> Option<Seq<char>>
    decreases v.len() - i,
{
    if i < 0 || i >= v.len() {
        None
    } else if !is_capability(v[i]) {
        Some("requires 里的能力名不合法："@ + v[i])
    } else if v[i] == id {
        Some("requires 不能依赖自己"@)
    } else {
        bad_need(v, id, i + 1)
    }
}

/// Whether some character is white space or separates paths.
pub open spec fn has_gap(s: Seq<char>) -> bool {
    exists|i: int|
        0 <= i < s.len() && (text::white(#[trigger] s[i]) || s[i] == '/' || s[i] == '\\')
}

/// Why a manifest is refused; `None` when it is valid.
pub open spec fn manifest_fault(m: PackageManifest) -> Option<Seq<char>> {
    if !is_capability(m.id@) {
        Some(
            "id 不合法（只允许小写字母、数字、- _ .，且以字母或数字开头，长度 1..=64）"@,
        )
    } else if text::trimmed(m.version@).len() == 0 || has_gap(m.version@) {
        Some("version 不能为空，也不能含空白或路径分隔符"@)
    } else {
        let by_kind = if m.kind@ == KIND_PREFIX@ {
            if !is_rel_path(m.prefix@) {
                Some(
                    "kind = prefix 时必须给出合法的 prefix（相对、/ 分隔、无空段、无 . 与 ..）"@,
                )
            } else if m.provides_paths@.len() > 0 {
                Some("kind = prefix 的包不该声明 provides_paths（那是 system 类包的事）"@)
            } else {
                None
            }
        } else if m.kind@ == KIND_SYSTEM@ {
            if m.provides_paths@.len() == 0 {
                Some("kind = system 时必须声明 provides_paths（它会写进 guest 系统路径）"@)
            } else {
                match bad_path(text::texts(m.provides_paths@), 0) {
                    Some(p) => Some("provides_paths 里的路径不合法："@ + p),
                    None => None,
                }
            }
        } else {
            Some("kind 只认 "@ + KIND_PREFIX@ + " 与 "@ + KIND_SYSTEM@ + "，收到："@ + m.kind@)
        };
        match by_kind {
            Some(e) => Some(e),
            None => bad_need(text::texts(m.needs@), m.id@, 0),
        }
    }
}

fn gap_in(s: &str) -> (r: bool)
    ensures
        r == has_gap(s@),
{
    let v = to_chars(s);
    let mut i: usize = 0;
    while i < v.len()
        invariant
            i <= v@.len(),
            v@ == s@,
            forall|k: int|
                0 <= k < i ==> !(text::white(#[trigger] s@[k]) || s@[k] == '/' || s@[k] == '\\'),
        decreases v@.len() - i,
    {
        if is_white(v[i]) || v[i] == '/' || v[i] == '\\' {
            assert(text::white(s@[i as int]) || s@[i as int] == '/' || s@[i as int] == '\\');
            return true;
        }
        i = i + 1;
    }
    false
}

/// Checks a manifest: what is wrong is said, nothing is corrected.
pub fn check_manifest(m: &PackageManifest) -> (r: Result<(), String>)
    ensures
        match r {
            Ok(_) => manifest_fault(*m) is None,
            Err(e) => manifest_fault(*m) == Some(e@),
        },
{
    if !valid_capability(m.id.as_str()) {
        return Err(
            "id 不合法（只允许小写字母、数字、- _ .，且以字母或数字开头，长度 1..=64）".to_owned(),
        );
    }
    if is_blank(m.version.as_str()) || gap_in(m.version.as_str()) {
        return Err("version 不能为空，也不能含空白或路径分隔符".to_owned());
    }
    if str_eq(m.kind.as_str(), KIND_PREFIX) {
        if !valid_rel_path(m.prefix.as_str()) {
            return Err(
                "kind = prefix 时必须给出合法的 prefix（相对、/ 分隔、无空段、无 . 与 ..）".to_owned(),
            );
        }
        if m.provides_paths.len() > 0 {
            return Err(
                "kind = prefix 的包不该声明 provides_paths（那是 system 类包的事）".to_owned(),
            );
        }
    } else if str_eq(m.kind.as_str(), KIND_SYSTEM) {
        if m.provides_paths.len() == 0 {
            return Err(
                "kind = system 时必须声明 provides_paths（它会写进 guest 系统路径）".to_owned(),
            );
        }
        let mut i: usize = 0;
        let ghost pv = text::texts(m.provides_paths@);
        while i < m.provides_paths.len()
            invariant
                i <= m.provides_paths@.len(),
                pv == text::texts(m.provides_paths@),
                bad_path(pv, 0) == bad_path(pv, i as int),
                m.kind@ == KIND_SYSTEM@,
                m.kind@ != KIND_PREFIX@,
                m.provides_paths@.len() > 0,
                is_capability(m.id@),
                !(text::trimmed(m.version@).len() == 0 || has_gap(m.version@)),
            decreases m.provides_paths@.len() - i,
        {
            let p = m.provides_paths[i].as_str();
            assert(pv[i as int] == p@);
            if !valid_rel_path(p) {
                return Err(cat2("provides_paths 里的路径不合法：", p));
            }
            i = i + 1;
        }
    } else {
        return Err(
            cat6(
                "kind 只认 ",
                KIND_PREFIX,
                " 与 ",
                KIND_SYSTEM,
                "，收到：",
                m.kind.as_str(),
            ),
        );
    }
    let ghost nv = text::texts(m.needs@);
    let mut i: usize = 0;
    while i < m.needs.len()
        invariant
            i <= m.needs@.len(),
            nv == text::texts(m.needs@),
            bad_need(nv, m.id@, 0) == bad_need(nv, m.id@, i as int),
            manifest_fault(*m) == bad_need(nv, m.id@, 0),
        decreases m.needs@.len() - i,
    {
        let n = m.needs[i].as_str();
        assert(nv[i as int] == n@);
        if !valid_capability(n) {
            return Err(cat2("requires 里的能力名不合法：", n));
        }
        if str_eq(n, m.id.as_str()) {
            return Err("requires 不能依赖自己".to_owned());
        }
        i = i + 1;
    }
    Ok(())
}

// ---- the library ----

impl Ranked for PackageManifest {
    open spec fn rank_v(&self) -> Seq<Seq<char>> {
        seq![self.id@, self.version@]
    }

    fn rank(&self) -> (r: Vec<String>) {
        let mut r: Vec<String> = Vec::new();
        r.push(self.id.clone());
        r.push(self.version.clone());
        assert(text::texts(r@) =~= seq![self.id@, self.version@]);
        r
    }
}

/// The packages there are: the valid manifests, ordered by id and version, and
/// why others were refused.
#[derive(Debug)]
pub struct Library {
    pub packages: Vec<PackageManifest>,
    pub rejected: Vec<String>,
}

/// The id and version of a package as they are shown.
pub open spec fn label_of(m: PackageManifest) -> Seq<char> {
    m.id@ + "@"@ + m.version@
}

/// Whether a manifest of the same id and version that is valid stands among the first `n`.
pub open spec fn seen_before(found: Seq<PackageManifest>, n: int, m: PackageManifest) -> bool {
    exists|i: int|
        0 <= i < n && manifest_fault(#[trigger] found[i]) is None && found[i].id@ == m.id@
            && found[i].version@ == m.version@
}

/// Whether the manifest at `i` is taken: it is valid and the first of its id and version.
pub open spec fn taken(found: Seq<PackageManifest>, i: int) -> bool {
    manifest_fault(found[i]) is None && !seen_before(found, i, found[i])
}

/// The refusals of the first `n` manifests.
pub open spec fn refusals(found: Seq<PackageManifest>, n: int) -> Seq<Seq<char>>
    decreases n,
{
    if n <= 0 {
        Seq::empty()
    } else {
        refusals(found, n - 1) + match manifest_fault(found[n - 1]) {
            Some(why) => seq![label_of(found[n - 1]) + "："@ + why],
            None => text::when(
                seen_before(found, n - 1, found[n - 1]),
                label_of(found[n - 1])
                    + "：同一 id 与版本出现两次（只收先出现的那份）"@,
            ),
        }
    }
}

impl Library {
    /// Whether the packages are in order, each id and version once.
    pub open spec fn wf(self) -> bool {
        table::in_order(self.packages@)
    }

    /// Builds a library: each manifest is checked, and of one id and version the
    /// first is taken. Earlier refusals are kept in front.
    pub fn build(found: Vec<PackageManifest>, rejected: Vec<String>) -> (r: Library)
        ensures
            r.wf(),
            forall|m: PackageManifest|
                r.packages@.contains(m) <==> exists|i: int|
                    0 <= i < found@.len() && #[trigger] taken(found@, i) && found@[i] == m,
            text::texts(r.rejected@) == text::texts(rejected@) + refusals(found@, found@.len() as int),
    {
        let mut packages: Vec<PackageManifest> = Vec::new();
        let mut rejected = rejected;
        let ghost given = text::texts(rejected@);
        let ghost all = found@;
        let mut found = found;
        let ghost mut n: int = 0;
        assert(given + refusals(all, 0) =~= given);
        while found.len() > 0
            invariant
                0 <= n <= all.len(),
                found@ == all.skip(n),
                table::in_order(packages@),
                forall|m: PackageManifest|
                    packages@.contains(m) <==> exists|i: int|
                        0 <= i < n && #[trigger] taken(all, i) && all[i] == m,
                text::texts(rejected@) == given + refusals(all, n),
            decreases all.len() - n,
        {
            let m = found.remove(0);
            proof {
                assert(m == all[n]);
                assert(found@ =~= all.skip(n + 1));
            }
            let ghost before = text::texts(rejected@);
            match check_manifest(&m) {
                Err(why) => {
                    push_when(
                        &mut rejected,
                        true,
                        cat5(m.id.as_str(), "@", m.version.as_str(), "：", why.as_str()),
                    );
                    proof {
                        assert(text::texts(rejected@) =~= given + refusals(all, n + 1));
                        assert(!taken(all, n));
                    }
                },
                Ok(_) => {
                    let mut twice = false;
                    let mut k: usize = 0;
                    while k < packages.len()
                        invariant
                            k <= packages@.len(),
                            twice == exists|j: int|
                                0 <= j < k && (#[trigger] packages@[j]).id@ == m.id@
                                    && packages@[j].version@ == m.version@,
                        decreases packages@.len() - k,
                    {
                        if str_eq(packages[k].id.as_str(), m.id.as_str()) && str_eq(
                            packages[k].version.as_str(),
                            m.version.as_str(),
                        ) {
                            twice = true;
                        }
                        k = k + 1;
                    }
                    proof {
                        lemma_seen(all, packages@, n, m);
                    }
                    push_when(
                        &mut rejected,
                        twice,
                        cat4(
                            m.id.as_str(),
                            "@",
                            m.version.as_str(),
                            "：同一 id 与版本出现两次（只收先出现的那份）",
                        ),
                    );
                    proof {
                        assert(text::texts(rejected@) =~= given + refusals(all, n + 1));
                    }
                    if !twice {
                        let ghost prev = packages@;
                        proof {
                            assert(!table::ranks(prev).contains(m.rank_v())) by {
                                if table::ranks(prev).contains(m.rank_v()) {
                                    let j = choose|j: int|
                                        0 <= j < table::ranks(prev).len() && table::ranks(prev)[j] == m.rank_v();
                                    assert(prev[j].rank_v()[0] == m.rank_v()[0]);
                                    assert(prev[j].rank_v()[1] == m.rank_v()[1]);
                                }
                            }
                        }
                        add_ordered(&mut packages, m);
                        proof {
                            let at = choose|at: int|
                                0 <= at <= prev.len() && #[trigger] prev.insert(at, m) == packages@;
                            table::lemma_insert_contains(prev, at, m);
                            assert(taken(all, n));
                            lemma_take_one(all, n, prev, packages@);
                        }
                    } else {
                        proof {
                            assert(!taken(all, n));
                        }
                    }
                },
            }
            proof {
                n = n + 1;
            }
        }
        proof {
            assert(n == all.len());
        }
        Library { packages, rejected }
    }
}

proof fn lemma_take_one(
    all: Seq<PackageManifest>,
    n: int,
    prev: Seq<PackageManifest>,
    next: Seq<PackageManifest>,
)
    requires
        0 <= n < all.len(),
        taken(all, n),
        forall|m: PackageManifest|
            prev.contains(m) <==> exists|i: int| 0 <= i < n && #[trigger] taken(all, i) && all[i]
                == m,
        forall|m: PackageManifest| next.contains(m) <==> prev.contains(m) || m == all[n],
    ensures
        forall|m: PackageManifest|
            next.contains(m) <==> exists|i: int|
                0 <= i < n + 1 && #[trigger] taken(all, i) && all[i] == m,
{
    assert forall|m: PackageManifest| next.contains(m) implies exists|i: int|
        0 <= i < n + 1 && #[trigger] taken(all, i) && all[i] == m by {
        if prev.contains(m) {
            let i = choose|i: int| 0 <= i < n && #[trigger] taken(all, i) && all[i] == m;
            assert(taken(all, i));
        }
    }
    assert forall|m: PackageManifest| (exists|i: int|
        0 <= i < n + 1 && #[trigger] taken(all, i) && all[i] == m) implies next.contains(m) by {
        let i = choose|i: int| 0 <= i < n + 1 && #[trigger] taken(all, i) && all[i] == m;
        if i < n {
            assert(taken(all, i));
            assert(prev.contains(m));
        }
    }
}

/// Being among the taken ones is having been seen.
proof fn lemma_seen(
    all: Seq<PackageManifest>,
    packages: Seq<PackageManifest>,
    n: int,
    m: PackageManifest,
)
    requires
        0 <= n < all.len(),
        forall|x: PackageManifest|
            packages.contains(x) <==> exists|i: int|
                0 <= i < n && #[trigger] taken(all, i) && all[i] == x,
    ensures
        seen_before(all, n, m) == exists|j: int|
            0 <= j < packages.len() && (#[trigger] packages[j]).id@ == m.id@
                && packages[j].version@ == m.version@,
{
    if seen_before(all, n, m) {
        let i = choose|i: int|
            0 <= i < n && manifest_fault(#[trigger] all[i]) is None && all[i].id@ == m.id@
                && all[i].version@ == m.version@;
        let f = lemma_first_seen(all, i);
        assert(taken(all, f));
        assert(packages.contains(all[f]));
        let j = choose|j: int| 0 <= j < packages.len() && packages[j] == all[f];
        assert(packages[j].id@ == m.id@);
    }
    if exists|j: int|
        0 <= j < packages.len() && (#[trigger] packages[j]).id@ == m.id@ && packages[j].version@
            == m.version@ {
        let j = choose|j: int|
            0 <= j < packages.len() && (#[trigger] packages[j]).id@ == m.id@
                && packages[j].version@ == m.version@;
        assert(packages.contains(packages[j]));
        let i = choose|i: int| 0 <= i < n && #[trigger] taken(all, i) && all[i] == packages[j];
        assert(manifest_fault(all[i]) is None);
    }
}

proof fn lemma_first_seen(all: Seq<PackageManifest>, i: int) -> (f: int)
    requires
        0 <= i < all.len(),
        manifest_fault(all[i]) is None,
    ensures
        0 <= f <= i,
        taken(all, f),
        all[f].id@ == all[i].id@,
        all[f].version@ == all[i].version@,
    decreases i,
{
    if seen_before(all, i, all[i]) {
        let k = choose|k: int|
            0 <= k < i && manifest_fault(#[trigger] all[k]) is None && all[k].id@ == all[i].id@
                && all[k].version@ == all[i].version@;
        lemma_first_seen(all, k)
    } else {
        i
    }
}

/// The packages among the first `n` that provide a capability.
pub open spec fn providing(v: Seq<PackageManifest>, cap: Seq<char>, n: int) -> Seq<PackageManifest>
    decreases n,
{
    if n <= 0 {
        Seq::empty()
    } else if v[n - 1].id@ == cap {
        providing(v, cap, n - 1).push(v[n - 1])
    } else {
        providing(v, cap, n - 1)
    }
}

/// The first package from `i` on with an id and version.
pub open spec fn picked_from(
    v: Seq<PackageManifest>,
    cap: Seq<char>,
    version: Seq<char>,
    i: int,
) -> Option<PackageManifest>
    decreases v.len() - i,
{
    if i < 0 || i >= v.len() {
        None
    } else if v[i].id@ == cap && v[i].version@ == version {
        Some(v[i])
    } else {
        picked_from(v, cap, version, i + 1)
    }
}

pub open spec fn derefs(v: Seq<&PackageManifest>) -> Seq<PackageManifest> {
    v.map_values(|p: &PackageManifest| *p)
}

impl Library {
    pub open spec fn versions_v(self, cap: Seq<char>) -> Seq<PackageManifest> {
        providing(self.packages@, cap, self.packages@.len() as int)
    }

    /// The packages that provide a capability, in order of their versions.
    pub fn versions_of(&self, capability: &str) -> (r: Vec<&PackageManifest>)
        ensures
            derefs(r@) == self.versions_v(capability@),
    {
        let mut r: Vec<&PackageManifest> = Vec::new();
        let mut i: usize = 0;
        assert(derefs(r@) =~= providing(self.packages@, capability@, 0));
        while i < self.packages.len()
            invariant
                i <= self.packages@.len(),
                derefs(r@) == providing(self.packages@, capability@, i as int),
            decreases self.packages@.len() - i,
        {
            if str_eq(self.packages[i].id.as_str(), capability) {
                let ghost prev = r@;
                r.push(&self.packages[i]);
                assert(derefs(r@) =~= derefs(prev).push(self.packages@[i as int]));
            }
            i = i + 1;
        }
        r
    }

    /// The package of a capability in one version.
    pub fn pick(&self, capability: &str, version: &str) -> (r: Option<&PackageManifest>)
        ensures
            match r {
                Some(p) => picked_from(self.packages@, capability@, version@, 0) == Some(*p),
                None => picked_from(self.packages@, capability@, version@, 0) is None,
            },
    {
        let mut i: usize = 0;
        while i < self.packages.len()
            invariant
                i <= self.packages@.len(),
                picked_from(self.packages@, capability@, version@, 0) == picked_from(
                    self.packages@,
                    capability@,
                    version@,
                    i as int,
                ),
            decreases self.packages@.len() - i,
        {
            if str_eq(self.packages[i].id.as_str(), capability) && str_eq(
                self.packages[i].version.as_str(),
                version,
            ) {
                return Some(&self.packages[i]);
            }
            i = i + 1;
        }
        None
    }

    /// The versions there are of each capability.
    pub fn capability_versions(&self) -> (r: Table<Vec<String>>)
        ensures
            table::ascending(r@),
            forall|cap: Seq<char>|
                match #[trigger] table::lookup(r@, cap) {
                    Some(v) => text::texts(v@) == version_texts(self.versions_v(cap))
                        && v@.len() > 0,
                    None => self.versions_v(cap).len() == 0,
                },
    {
        let mut r: Table<Vec<String>> = Table::new();
        let mut i: usize = 0;
        while i < self.packages.len()
            invariant
                i <= self.packages@.len(),
                table::ascending(r@),
                forall|cap: Seq<char>|
                    match #[trigger] table::lookup(r@, cap) {
                        Some(v) => text::texts(v@) == version_texts(
                            providing(self.packages@, cap, i as int),
                        ) && v@.len() > 0,
                        None => providing(self.packages@, cap, i as int).len() == 0,
                    },
            decreases self.packages@.len() - i,
        {
            let p = &self.packages[i];
            let ghost t = r@;
            let mut vs: Vec<String> = match r.get(p.id.as_str()) {
                Some(v) => clone_strings(v),
                None => Vec::new(),
            };
            let ghost was = vs@;
            assert(text::texts(was) =~= version_texts(providing(self.packages@, p.id@, i as int)));
            vs.push(p.version.clone());
            proof {
                text::lemma_texts_push(was, p.version);
                table::inserting(t, p.id@, vs);
            }
            r.insert(p.id.clone(), vs);
            proof {
                assert forall|cap: Seq<char>|
                    match #[trigger] table::lookup(r@, cap) {
                        Some(v) => text::texts(v@) == version_texts(
                            providing(self.packages@, cap, i + 1),
                        ) && v@.len() > 0,
                        None => providing(self.packages@, cap, i + 1).len() == 0,
                    } by {
                    let prev = providing(self.packages@, cap, i as int);
                    if cap == p.id@ {
                        assert(version_texts(prev.push(*p)) =~= version_texts(prev).push(
                            p.version@,
                        ));
                    } else {
                        assert(table::lookup(r@, cap) == table::lookup(t, cap));
                    }
                }
            }
            i = i + 1;
        }
        r
    }
}

pub open spec fn version_texts(v: Seq<PackageManifest>) -> Seq<Seq<char>> {
    v.map_values(|p: PackageManifest| p.version@)
}

// ---- conflicts ----

/// A path two packages would both write to, and the two.
#[derive(Debug)]
pub struct Clash {
    pub path: String,
    pub a: String,
    pub b: String,
}

pub struct ClashV {
    pub path: Seq<char>,
    pub a: Seq<char>,
    pub b: Seq<char>,
}

impl View for Clash {
    type V = ClashV;

    open spec fn view(&self) -> ClashV {
        ClashV { path: self.path@, a: self.a@, b: self.b@ }
    }
}

impl Ranked for Clash {
    open spec fn rank_v(&self) -> Seq<Seq<char>> {
        seq![self.path@, self.a@, self.b@]
    }

    fn rank(&self) -> (r: Vec<String>) {
        let mut r: Vec<String> = Vec::new();
        r.push(self.path.clone());
        r.push(self.a.clone());
        r.push(self.b.clone());
        assert(text::texts(r@) =~= seq![self.path@, self.a@, self.b@]);
        r
    }
}

/// A path without slashes at its ends.
pub open spec fn bare_path(p: Seq<char>) -> Seq<char> {
    text::strip_end_of(text::strip_start_of(p, '/'), '/')
}

/// Whether two paths fall on the same place: they are equal, or one is a
/// directory above the other.
pub open spec fn overlap(a: Seq<char>, b: Seq<char>) -> bool {
    a == b || text::starts(a, b + "/"@) || text::starts(b, a + "/"@)
}

/// The paths a package claims, each with the package's label.
pub open spec fn claims(m: PackageManifest) -> Seq<(Seq<char>, Seq<char>)> {
    if m.kind@ == KIND_SYSTEM@ {
        text::texts(m.provides_paths@).map_values(|p: Seq<char>| (bare_path(p), label_of(m)))
    } else {
        seq![(bare_path(m.prefix@), label_of(m))]
    }
}

pub open spec fn all_claims(v: Seq<PackageManifest>) -> Seq<(Seq<char>, Seq<char>)>
    decreases v.len(),
{
    if v.len() == 0 {
        Seq::empty()
    } else {
        all_claims(v.drop_last()) + claims(v.last())
    }
}

/// The clash of two claims: the shorter path and both packages.
pub open spec fn clash_of(x: (Seq<char>, Seq<char>), y: (Seq<char>, Seq<char>)) -> ClashV {
    ClashV {
        path: if x.0.len() <= y.0.len() {
            x.0
        } else {
            y.0
        },
        a: x.1,
        b: y.1,
    }
}

/// Whether the claims at `i` and `j` clash: of different packages, on the same place.
pub open spec fn clashes(c: Seq<(Seq<char>, Seq<char>)>, i: int, j: int) -> bool {
    0 <= i < j < c.len() && c[i].1 != c[j].1 && overlap(c[i].0, c[j].0)
}

pub open spec fn clashes_v(v: Seq<Clash>) -> Seq<ClashV> {
    v.map_values(|x: Clash| x@)
}

fn overlaps(a: &str, b: &str) -> (r: bool)
    ensures
        r == overlap(a@, b@),
{
    str_eq(a, b) || starts_with(a, cat2(b, "/").as_str()) || starts_with(b, cat2(a, "/").as_str())
}

fn list_claims(chosen: &Vec<&PackageManifest>) -> (r: Vec<(String, String)>)
    ensures
        r@.map_values(|e: (String, String)| (e.0@, e.1@)) == all_claims(derefs(chosen@)),
{
    let mut r: Vec<(String, String)> = Vec::new();
    let ghost cv = derefs(chosen@);
    let ghost f = |e: (String, String)| (e.0@, e.1@);
    let mut i: usize = 0;
    assert(r@.map_values(f) =~= all_claims(cv.take(0)));
    while i < chosen.len()
        invariant
            i <= chosen@.len(),
            cv == derefs(chosen@),
            f == (|e: (String, String)| (e.0@, e.1@)),
            r@.map_values(f) == all_claims(cv.take(i as int)),
        decreases chosen@.len() - i,
    {
        let p = chosen[i];
        let ghost start = r@.map_values(f);
        proof {
            assert(cv.take(i + 1).drop_last() =~= cv.take(i as int));
            assert(cv.take(i + 1).last() == *p);
        }
        let label = cat3(p.id.as_str(), "@", p.version.as_str());
        if str_eq(p.kind.as_str(), KIND_SYSTEM) {
            let ghost cl = claims(*p);
            let mut k: usize = 0;
            assert(start + cl.take(0) =~= start);
            while k < p.provides_paths.len()
                invariant
                    k <= p.provides_paths@.len(),
                    f == (|e: (String, String)| (e.0@, e.1@)),
                    label@ == label_of(*p),
                    p.kind@ == KIND_SYSTEM@,
                    cl == claims(*p),
                    r@.map_values(f) == start + cl.take(k as int),
                decreases p.provides_paths@.len() - k,
            {
                let ghost prev = r@;
                let x = strip(p.provides_paths[k].as_str(), '/');
                r.push((x, label.clone()));
                proof {
                    assert(text::texts(p.provides_paths@)[k as int] == p.provides_paths@[k as int]@);
                    assert(cl[k as int] == (x@, label@));
                    assert(r@.map_values(f) =~= prev.map_values(f).push(cl[k as int]));
                    assert(r@.map_values(f) =~= start + cl.take(k + 1));
                }
                k = k + 1;
            }
            assert(cl.take(cl.len() as int) =~= cl);
        } else {
            let ghost prev = r@;
            let x = strip(p.prefix.as_str(), '/');
            r.push((x, label.clone()));
            proof {
                assert(r@.map_values(f) =~= prev.map_values(f).push((x@, label@)));
                assert(r@.map_values(f) =~= start + claims(*p));
            }
        }
        i = i + 1;
    }
    assert(cv.take(cv.len() as int) =~= cv);
    r
}

/// Every clash among the chosen packages, in order, each once.
pub fn conflicts(chosen: &Vec<&PackageManifest>) -> (r: Vec<Clash>)
    ensures
        table::in_order(r@),
        forall|x: ClashV|
            clashes_v(r@).contains(x) <==> exists|i: int, j: int|
                #[trigger] clashes(all_claims(derefs(chosen@)), i, j) && x == clash_of(
                    all_claims(derefs(chosen@))[i],
                    all_claims(derefs(chosen@))[j],
                ),
{
    let paths = list_claims(chosen);
    let ghost c = all_claims(derefs(chosen@));
    let ghost f = |e: (String, String)| (e.0@, e.1@);
    let mut out: Vec<Clash> = Vec::new();
    let mut i: usize = 0;
    while i < paths.len()
        invariant
            i <= paths@.len(),
            f == (|e: (String, String)| (e.0@, e.1@)),
            c == paths@.map_values(f),
            table::in_order(out@),
            forall|x: ClashV|
                clashes_v(out@).contains(x) <==> exists|a: int, b: int|
                    #[trigger] clashes(c, a, b) && a < i && x == clash_of(c[a], c[b]),
        decreases paths@.len() - i,
    {
        let mut j: usize = i + 1;
        while j < paths.len()
            invariant
                i < j <= paths@.len(),
                f == (|e: (String, String)| (e.0@, e.1@)),
                c == paths@.map_values(f),
                table::in_order(out@),
                forall|x: ClashV|
                    clashes_v(out@).contains(x) <==> exists|a: int, b: int|
                        #[trigger] clashes(c, a, b) && (a < i || (a == i && b < j)) && x
                            == clash_of(c[a], c[b]),
            decreases paths@.len() - j,
        {
            assert(c[i as int] == (paths@[i as int].0@, paths@[i as int].1@));
            assert(c[j as int] == (paths@[j as int].0@, paths@[j as int].1@));
            let ghost before = out@;
            let same = str_eq(paths[i].1.as_str(), paths[j].1.as_str());
            let over = overlaps(paths[i].0.as_str(), paths[j].0.as_str());
            if !same && over {
                let first = to_chars(paths[i].0.as_str());
                let second = to_chars(paths[j].0.as_str());
                let shorter = if first.len() <= second.len() {
                    paths[i].0.clone()
                } else {
                    paths[j].0.clone()
                };
                let x = Clash { path: shorter, a: paths[i].1.clone(), b: paths[j].1.clone() };
                let ghost xv = x@;
                assert(clashes(c, i as int, j as int));
                assert(xv == clash_of(c[i as int], c[j as int]));
                add_ordered(&mut out, x);
                proof {
                    lemma_clash_added(before, out@, x);
                    lemma_clash_step(c, i as int, j as int, before, out@, xv);
                }
            } else {
                proof {
                    assert(!clashes(c, i as int, j as int));
                    lemma_clash_skip(c, i as int, j as int, out@);
                }
            }
            j = j + 1;
        }
        proof {
            lemma_clash_row(c, i as int, j as int, out@);
        }
        i = i + 1;
    }
    out
}

proof fn lemma_clash_added(before: Seq<Clash>, after: Seq<Clash>, x: Clash)
    requires
        table::ranks(before).contains(x.rank_v()) ==> after == before,
        !table::ranks(before).contains(x.rank_v()) ==> exists|i: int|
            0 <= i <= before.len() && #[trigger] before.insert(i, x) == after,
    ensures
        forall|y: ClashV| clashes_v(after).contains(y) <==> clashes_v(before).contains(y) || y == x@,
{
    if table::ranks(before).contains(x.rank_v()) {
        let k = choose|k: int| 0 <= k < table::ranks(before).len() && table::ranks(before)[k] == x.rank_v();
        assert(before[k].rank_v()[0] == x.rank_v()[0]);
        assert(before[k].rank_v()[1] == x.rank_v()[1]);
        assert(before[k].rank_v()[2] == x.rank_v()[2]);
        assert(clashes_v(before)[k] == x@);
    } else {
        let at = choose|i: int| 0 <= i <= before.len() && #[trigger] before.insert(i, x) == after;
        assert(clashes_v(after) =~= clashes_v(before).insert(at, x@));
        table::lemma_insert_contains(clashes_v(before), at, x@);
    }
}

proof fn lemma_clash_step(
    c: Seq<(Seq<char>, Seq<char>)>,
    i: int,
    j: int,
    before: Seq<Clash>,
    after: Seq<Clash>,
    xv: ClashV,
)
    requires
        clashes(c, i, j),
        xv == clash_of(c[i], c[j]),
        forall|x: ClashV|
            clashes_v(before).contains(x) <==> exists|a: int, b: int|
                #[trigger] clashes(c, a, b) && (a < i || (a == i && b < j)) && x == clash_of(
                    c[a],
                    c[b],
                ),
        forall|y: ClashV| clashes_v(after).contains(y) <==> clashes_v(before).contains(y) || y == xv,
    ensures
        forall|x: ClashV|
            clashes_v(after).contains(x) <==> exists|a: int, b: int|
                #[trigger] clashes(c, a, b) && (a < i || (a == i && b < j + 1)) && x == clash_of(
                    c[a],
                    c[b],
                ),
{
    assert forall|x: ClashV| clashes_v(after).contains(x) implies exists|a: int, b: int|
        #[trigger] clashes(c, a, b) && (a < i || (a == i && b < j + 1)) && x == clash_of(
            c[a],
            c[b],
        ) by {
        if clashes_v(before).contains(x) {
            let (a, b) = choose|a: int, b: int|
                #[trigger] clashes(c, a, b) && (a < i || (a == i && b < j)) && x == clash_of(
                    c[a],
                    c[b],
                );
            assert(clashes(c, a, b));
        } else {
            assert(clashes(c, i, j));
        }
    }
    assert forall|x: ClashV| (exists|a: int, b: int|
        #[trigger] clashes(c, a, b) && (a < i || (a == i && b < j + 1)) && x == clash_of(
            c[a],
            c[b],
        )) implies clashes_v(after).contains(x) by {
        let (a, b) = choose|a: int, b: int|
            #[trigger] clashes(c, a, b) && (a < i || (a == i && b < j + 1)) && x == clash_of(
                c[a],
                c[b],
            );
        if a < i || b < j {
            assert(clashes(c, a, b));
            assert(clashes_v(before).contains(x));
        }
    }
}

proof fn lemma_clash_skip(c: Seq<(Seq<char>, Seq<char>)>, i: int, j: int, out: Seq<Clash>)
    requires
        !clashes(c, i, j),
        forall|x: ClashV|
            clashes_v(out).contains(x) <==> exists|a: int, b: int|
                #[trigger] clashes(c, a, b) && (a < i || (a == i && b < j)) && x == clash_of(
                    c[a],
                    c[b],
                ),
    ensures
        forall|x: ClashV|
            clashes_v(out).contains(x) <==> exists|a: int, b: int|
                #[trigger] clashes(c, a, b) && (a < i || (a == i && b < j + 1)) && x == clash_of(
                    c[a],
                    c[b],
                ),
{
    assert forall|x: ClashV| clashes_v(out).contains(x) implies exists|a: int, b: int|
        #[trigger] clashes(c, a, b) && (a < i || (a == i && b < j + 1)) && x == clash_of(
            c[a],
            c[b],
        ) by {
        let (a, b) = choose|a: int, b: int|
            #[trigger] clashes(c, a, b) && (a < i || (a == i && b < j)) && x == clash_of(
                c[a],
                c[b],
            );
        assert(clashes(c, a, b));
    }
    assert forall|x: ClashV| (exists|a: int, b: int|
        #[trigger] clashes(c, a, b) && (a < i || (a == i && b < j + 1)) && x == clash_of(
            c[a],
            c[b],
        )) implies clashes_v(out).contains(x) by {
        let (a, b) = choose|a: int, b: int|
            #[trigger] clashes(c, a, b) && (a < i || (a == i && b < j + 1)) && x == clash_of(
                c[a],
                c[b],
            );
        assert(a < i || b < j);
        assert(clashes(c, a, b));
    }
}

proof fn lemma_clash_row(c: Seq<(Seq<char>, Seq<char>)>, i: int, j: int, out: Seq<Clash>)
    requires
        j >= c.len(),
        forall|x: ClashV|
            clashes_v(out).contains(x) <==> exists|a: int, b: int|
                #[trigger] clashes(c, a, b) && (a < i || (a == i && b < j)) && x == clash_of(
                    c[a],
                    c[b],
                ),
    ensures
        forall|x: ClashV|
            clashes_v(out).contains(x) <==> exists|a: int, b: int|
                #[trigger] clashes(c, a, b) && a < i + 1 && x == clash_of(c[a], c[b]),
{
    assert forall|x: ClashV| clashes_v(out).contains(x) implies exists|a: int, b: int|
        #[trigger] clashes(c, a, b) && a < i + 1 && x == clash_of(c[a], c[b]) by {
        let (a, b) = choose|a: int, b: int|
            #[trigger] clashes(c, a, b) && (a < i || (a == i && b < j)) && x == clash_of(
                c[a],
                c[b],
            );
        assert(clashes(c, a, b));
    }
    assert forall|x: ClashV| (exists|a: int, b: int|
        #[trigger] clashes(c, a, b) && a < i + 1 && x == clash_of(
            c[a],
            c[b],
        )) implies clashes_v(out).contains(x) by {
        let (a, b) = choose|a: int, b: int|
            #[trigger] clashes(c, a, b) && a < i + 1 && x == clash_of(c[a], c[b]);
        assert(clashes(c, a, b));
        assert(a < i || (a == i && b < j));
    }
}

// ---- what holds of every library ----

proof fn lemma_one_of_each(v: Seq<PackageManifest>, i: int, j: int)
    requires
        table::in_order(v),
        0 <= i < j < v.len(),
        v[i].id@ == v[j].id@,
    ensures
        text::before(v[i].version@, v[j].version@),
        v[i].version@ != v[j].version@,
{
    let a = v[i].rank_v();
    let b = v[j].rank_v();
    assert(table::list_before(a, b));
    assert(a.drop_first() =~= seq![v[i].version@]);
    assert(b.drop_first() =~= seq![v[j].version@]);
    reveal_with_fuel(table::list_before, 3);
    if v[i].version@ == v[j].version@ {
        assert(a =~= b);
        table::lemma_list_irreflexive(a);
    }
}

/// The position of the `k`th package that provides a capability.
proof fn lemma_providing_at(v: Seq<PackageManifest>, cap: Seq<char>, n: int, k: int) -> (i: int)
    requires
        0 <= n <= v.len(),
        0 <= k < providing(v, cap, n).len(),
    ensures
        0 <= i < n,
        v[i].id@ == cap,
        providing(v, cap, n)[k] == v[i],
    decreases n,
{
    if v[n - 1].id@ == cap && k == providing(v, cap, n).len() - 1 {
        n - 1
    } else {
        lemma_providing_at(v, cap, n - 1, k)
    }
}

proof fn lemma_providing_has(v: Seq<PackageManifest>, cap: Seq<char>, n: int, i: int)
    requires
        0 <= i < n <= v.len(),
        v[i].id@ == cap,
    ensures
        providing(v, cap, n).contains(v[i]),
    decreases n,
{
    let all = providing(v, cap, n);
    if i == n - 1 {
        assert(all[all.len() - 1] == v[i]);
    } else {
        lemma_providing_has(v, cap, n - 1, i);
        let p = providing(v, cap, n - 1);
        let k = choose|k: int| 0 <= k < p.len() && p[k] == v[i];
        assert(all[k] == v[i]);
    }
}

proof fn lemma_providing_ascends(v: Seq<PackageManifest>, cap: Seq<char>, n: int)
    requires
        table::in_order(v),
        0 <= n <= v.len(),
    ensures
        forall|i: int, j: int|
            0 <= i < j < providing(v, cap, n).len() ==> text::before(
                (#[trigger] providing(v, cap, n)[i]).version@,
                (#[trigger] providing(v, cap, n)[j]).version@,
            ),
    decreases n,
{
    if n > 0 {
        lemma_providing_ascends(v, cap, n - 1);
        let all = providing(v, cap, n);
        let p = providing(v, cap, n - 1);
        assert forall|i: int, j: int| 0 <= i < j < all.len() implies text::before(
            (#[trigger] all[i]).version@,
            (#[trigger] all[j]).version@,
        ) by {
            if j < p.len() {
                assert(all[i] == p[i] && all[j] == p[j]);
            } else {
                assert(all[i] == p[i]);
                let at = lemma_providing_at(v, cap, n - 1, i);
                lemma_one_of_each(v, at, n - 1);
            }
        }
    }
}

proof fn lemma_picked_at(v: Seq<PackageManifest>, cap: Seq<char>, version: Seq<char>, i: int)
    requires
        0 <= i <= v.len(),
    ensures
        match picked_from(v, cap, version, i) {
            Some(p) => exists|k: int|
                i <= k < v.len() && #[trigger] v[k] == p && p.id@ == cap && p.version@ == version,
            None => forall|k: int|
                i <= k < v.len() ==> !((#[trigger] v[k]).id@ == cap && v[k].version@ == version),
        },
    decreases v.len() - i,
{
    if i < v.len() && !(v[i].id@ == cap && v[i].version@ == version) {
        lemma_picked_at(v, cap, version, i + 1);
    } else if i < v.len() {
        assert(v[i] == v[i]);
    }
}

/// Of a library, what is listed for a capability and what is picked of it agree: the
/// packages of that id, each version once and in ascending order; nothing where no
/// package has the id; and a version is picked exactly where it is listed.
pub proof fn listing_and_picking_agree(lib: Library, cap: Seq<char>, version: Seq<char>)
    requires
        lib.wf(),
    ensures
        forall|p: PackageManifest| #[trigger]
            lib.versions_v(cap).contains(p) <==> lib.packages@.contains(p) && p.id@ == cap,
        forall|i: int, j: int|
            0 <= i < j < lib.versions_v(cap).len() ==> text::before(
                (#[trigger] lib.versions_v(cap)[i]).version@,
                (#[trigger] lib.versions_v(cap)[j]).version@,
            ),
        lib.versions_v(cap).len() == 0 <==> forall|k: int|
            0 <= k < lib.packages@.len() ==> (#[trigger] lib.packages@[k]).id@ != cap,
        forall|p: PackageManifest|
            picked_from(lib.packages@, cap, version, 0) == Some(p) <==> #[trigger]
                lib.versions_v(cap).contains(p) && p.version@ == version,
{
    let v = lib.packages@;
    let all = lib.versions_v(cap);
    lemma_providing_ascends(v, cap, v.len() as int);
    assert forall|p: PackageManifest| #[trigger] all.contains(p) implies v.contains(p) && p.id@
        == cap by {
        let k = choose|k: int| 0 <= k < all.len() && all[k] == p;
        let i = lemma_providing_at(v, cap, v.len() as int, k);
        assert(v[i] == p);
    }
    assert forall|p: PackageManifest| v.contains(p) && p.id@ == cap implies #[trigger] all.contains(
        p,
    ) by {
        let i = choose|i: int| 0 <= i < v.len() && v[i] == p;
        lemma_providing_has(v, cap, v.len() as int, i);
    }
    if all.len() == 0 {
        assert forall|k: int| 0 <= k < v.len() implies (#[trigger] v[k]).id@ != cap by {
            if v[k].id@ == cap {
                lemma_providing_has(v, cap, v.len() as int, k);
            }
        }
    } else {
        let i = lemma_providing_at(v, cap, v.len() as int, 0);
        assert(v[i].id@ == cap);
    }
    lemma_picked_at(v, cap, version, 0);
    assert forall|p: PackageManifest| #[trigger] all.contains(p) && p.version@
        == version implies picked_from(v, cap, version, 0) == Some(p) by {
        let i = choose|i: int| 0 <= i < v.len() && v[i] == p;
        assert(v[i].id@ == cap && v[i].version@ == version);
        let q = picked_from(v, cap, version, 0)->0;
        let k = choose|k: int|
            0 <= k < v.len() && #[trigger] v[k] == q && q.id@ == cap && q.version@ == version;
        if i < k {
            lemma_one_of_each(v, i, k);
        } else if k < i {
            lemma_one_of_each(v, k, i);
        }
    }
    assert forall|p: PackageManifest| picked_from(v, cap, version, 0) == Some(p) implies
        #[trigger] all.contains(p) && p.version@ == version by {
        let k = choose|k: int|
            0 <= k < v.len() && #[trigger] v[k] == p && p.id@ == cap && p.version@ == version;
        lemma_providing_has(v, cap, v.len() as int, k);
    }
}

/// How many versions the first `m` entries of a table list.
pub open spec fn listed(t: Seq<(Seq<char>, Vec<String>)>, m: int) -> nat
    decreases m,
{
    if m <= 0 {
        0
    } else {
        listed(t, m - 1) + t[m - 1].1@.len()
    }
}

/// How many of the first `n` packages the first `m` keys stand for.
spec fn counted(t: Seq<(Seq<char>, Vec<String>)>, m: int, v: Seq<PackageManifest>, n: int) -> nat
    decreases m,
{
    if m <= 0 {
        0
    } else {
        counted(t, m - 1, v, n) + providing(v, t[m - 1].0, n).len()
    }
}

proof fn lemma_counted_none(t: Seq<(Seq<char>, Vec<String>)>, m: int, v: Seq<PackageManifest>)
    ensures
        counted(t, m, v, 0) == 0,
    decreases m,
{
    if m > 0 {
        lemma_counted_none(t, m - 1, v);
    }
}

proof fn lemma_counted_step(
    t: Seq<(Seq<char>, Vec<String>)>,
    m: int,
    v: Seq<PackageManifest>,
    n: int,
    at: int,
)
    requires
        table::ascending(t),
        0 <= m <= t.len(),
        0 < n <= v.len(),
        0 <= at < t.len(),
        t[at].0 == v[n - 1].id@,
    ensures
        counted(t, m, v, n) == counted(t, m, v, n - 1) + if at < m {
            1nat
        } else {
            0nat
        },
    decreases m,
{
    if m > 0 {
        lemma_counted_step(t, m - 1, v, n, at);
        if at != m - 1 {
            text::lemma_before_irreflexive(t[at].0);
            if at < m - 1 {
                assert(text::before(t[at].0, t[m - 1].0));
            } else {
                assert(text::before(t[m - 1].0, t[at].0));
            }
            assert(t[m - 1].0 != v[n - 1].id@);
        }
    }
}

proof fn lemma_counted(t: Seq<(Seq<char>, Vec<String>)>, v: Seq<PackageManifest>, n: int)
    requires
        table::ascending(t),
        0 <= n <= v.len(),
        forall|k: int|
            0 <= k < v.len() ==> table::lookup(t, (#[trigger] v[k]).id@) is Some,
    ensures
        counted(t, t.len() as int, v, n) == n,
    decreases n,
{
    if n > 0 {
        lemma_counted(t, v, n - 1);
        let id = v[n - 1].id@;
        assert(table::lookup(t, v[n - 1].id@) is Some);
        table::lemma_slot(t, id, 0);
        let at = table::slot(t, id)->0;
        lemma_counted_step(t, t.len() as int, v, n, at);
    } else {
        lemma_counted_none(t, t.len() as int, v);
    }
}

proof fn lemma_listed_is_counted(
    t: Seq<(Seq<char>, Vec<String>)>,
    v: Seq<PackageManifest>,
    m: int,
)
    requires
        table::ascending(t),
        0 <= m <= t.len(),
        forall|cap: Seq<char>| #[trigger]
            table::lookup(t, cap) matches Some(x) ==> text::texts(x@) == version_texts(
                providing(v, cap, v.len() as int),
            ),
    ensures
        listed(t, m) == counted(t, m, v, v.len() as int),
    decreases m,
{
    if m > 0 {
        lemma_listed_is_counted(t, v, m - 1);
        table::lemma_slot_is(t, t[m - 1].0, m - 1);
        let x = table::lookup(t, t[m - 1].0);
        assert(x == Some(t[m - 1].1));
        assert(text::texts(t[m - 1].1@).len() == t[m - 1].1@.len());
    }
}

/// The versions of each capability, listed, are those of the library: a key for each
/// id there is and for no other, no list empty, and all lists together as long as
/// there are packages.
pub proof fn listed_versions_add_up(lib: Library, t: Seq<(Seq<char>, Vec<String>)>)
    requires
        table::ascending(t),
        forall|cap: Seq<char>|
            match #[trigger] table::lookup(t, cap) {
                Some(v) => text::texts(v@) == version_texts(lib.versions_v(cap)) && v@.len() > 0,
                None => lib.versions_v(cap).len() == 0,
            },
    ensures
        forall|cap: Seq<char>| #[trigger]
            table::lookup(t, cap) is Some <==> exists|k: int|
                0 <= k < lib.packages@.len() && (#[trigger] lib.packages@[k]).id@ == cap,
        listed(t, t.len() as int) == lib.packages@.len(),
{
    let v = lib.packages@;
    assert forall|cap: Seq<char>| #[trigger] table::lookup(t, cap) is Some implies exists|k: int|
        0 <= k < v.len() && (#[trigger] v[k]).id@ == cap by {
        let x = table::lookup(t, cap)->0;
        assert(text::texts(x@).len() == x@.len());
        let i = lemma_providing_at(v, cap, v.len() as int, 0);
        assert(v[i].id@ == cap);
    }
    assert forall|k: int| 0 <= k < v.len() implies table::lookup(t, (#[trigger] v[k]).id@) is Some by {
        lemma_providing_has(v, v[k].id@, v.len() as int, k);
    }
    lemma_counted(t, v, v.len() as int);
    lemma_listed_is_counted(t, v, t.len() as int);
}

proof fn lemma_paths_hold(v: Seq<Seq<char>>, i: int)
    requires
        0 <= i,
    ensures
        bad_path(v, i) is None <==> forall|k: int| i <= k < v.len() ==> is_rel_path(#[trigger] v[k]),
    decreases v.len() - i,
{
    if i < v.len() {
        lemma_paths_hold(v, i + 1);
    }
}

proof fn lemma_needs_hold(v: Seq<Seq<char>>, id: Seq<char>, i: int)
    requires
        0 <= i,
    ensures
        bad_need(v, id, i) is None <==> forall|k: int|
            i <= k < v.len() ==> is_capability(#[trigger] v[k]) && v[k] != id,
    decreases v.len() - i,
{
    if i < v.len() {
        lemma_needs_hold(v, id, i + 1);
    }
}

/// A package can be taken exactly where it has a name and a version, needs only what
/// others provide, and says where it goes: one place for one of its own, or the places of
/// the system that it writes to.
pub proof fn sound_packages_can_be_taken(m: PackageManifest)
    ensures
        manifest_fault(m) is None <==> ({
            let paths = text::texts(m.provides_paths@);
            let needs = text::texts(m.needs@);
            &&& is_capability(m.id@)
            &&& text::trimmed(m.version@).len() > 0 && !has_gap(m.version@)
            &&& (m.kind@ == "prefix"@ && is_rel_path(m.prefix@) && paths.len() == 0) || (m.kind@ == "system"@
                && paths.len() > 0 && forall|k: int| 0 <= k < paths.len() ==> is_rel_path(#[trigger] paths[k]))
            &&& forall|k: int| 0 <= k < needs.len() ==> is_capability(#[trigger] needs[k]) && needs[k] != m.id@
        }),
{
    reveal_strlit("prefix");
    reveal_strlit("system");
    assert("prefix"@[0] != "system"@[0]);
    lemma_paths_hold(text::texts(m.provides_paths@), 0);
    lemma_needs_hold(text::texts(m.needs@), m.id@, 0);
}

/// A package that is found is taken or refused with a reason, one of the two.
pub proof fn packages_are_taken_or_refused(found: Seq<PackageManifest>, n: int)
    requires
        0 <= n < found.len(),
    ensures
        taken(found, n) ==> refusals(found, n + 1) == refusals(found, n),
        !taken(found, n) ==> refusals(found, n + 1).len() == refusals(found, n).len() + 1 && text::starts(
            refusals(found, n + 1).last(),
            found[n].id@ + "@"@ + found[n].version@,
        ),
{
    if taken(found, n) {
        assert(refusals(found, n + 1) =~= refusals(found, n));
    } else {
        let l = label_of(found[n]);
        let last = refusals(found, n + 1).last();
        assert(last.subrange(0, l.len() as int) =~= l);
    }
}

/// The versions of a package are those of its name, and a version is picked where it is
/// there.
pub proof fn versions_are_found_by_name(
    v: Seq<PackageManifest>,
    cap: Seq<char>,
    version: Seq<char>,
    p: PackageManifest,
)
    ensures
        providing(v, cap, v.len() as int).contains(p) <==> v.contains(p) && p.id@ == cap,
        picked_from(v, cap, version, 0) matches Some(x) ==> v.contains(x) && x.id@ == cap && x.version@ == version,
        v.contains(p) && p.id@ == cap && p.version@ == version ==> picked_from(v, cap, version, 0) is Some,
{
    lemma_providing_holds(v, cap, v.len() as int, p);
    lemma_picked_holds(v, cap, version, 0, p);
    if v.contains(p) {
        let k = choose|k: int| 0 <= k < v.len() && v[k] == p;
        assert(0 <= k < v.len());
    }
}

proof fn lemma_providing_holds(v: Seq<PackageManifest>, cap: Seq<char>, n: int, p: PackageManifest)
    requires
        0 <= n <= v.len(),
    ensures
        providing(v, cap, n).contains(p) <==> p.id@ == cap && exists|k: int| 0 <= k < n && #[trigger] v[k] == p,
    decreases n,
{
    if n > 0 {
        lemma_providing_holds(v, cap, n - 1, p);
        let a = providing(v, cap, n - 1);
        let h = providing(v, cap, n);
        if h.contains(p) {
            let k = choose|k: int| 0 <= k < h.len() && h[k] == p;
            if k < a.len() {
                assert(a[k] == p);
            } else {
                assert(v[n - 1] == p);
            }
        }
        if a.contains(p) {
            let k = choose|k: int| 0 <= k < a.len() && a[k] == p;
            assert(h[k] == p);
        }
        if p.id@ == cap && v[n - 1] == p {
            assert(h[a.len() as int] == p);
        }
    }
}

proof fn lemma_picked_holds(
    v: Seq<PackageManifest>,
    cap: Seq<char>,
    version: Seq<char>,
    i: int,
    p: PackageManifest,
)
    requires
        0 <= i,
    ensures
        picked_from(v, cap, version, i) matches Some(x) ==> v.contains(x) && x.id@ == cap && x.version@ == version,
        p.id@ == cap && p.version@ == version && (exists|k: int| i <= k < v.len() && #[trigger] v[k] == p)
            ==> picked_from(v, cap, version, i) is Some,
    decreases v.len() - i,
{
    if i < v.len() {
        assert(v.contains(v[i]));
        lemma_picked_holds(v, cap, version, i + 1, p);
    }
}

/// Two places clash where they are one or one lies in the other, whichever comes first.
pub proof fn places_clash_with_what_lies_in_them(a: Seq<char>, b: Seq<char>, rest: Seq<char>)
    ensures
        overlap(a, a),
        overlap(a, b) == overlap(b, a),
        overlap(a, a + seq!['/'] + rest),
        overlap(a, b) && a.len() < b.len() ==> b.take(a.len() as int) == a && b[a.len() as int] == '/',
{
    reveal_strlit("/");
    assert("/"@ =~= seq!['/']);
    let x = a + seq!['/'] + rest;
    assert(x.subrange(0, a.len() as int + 1) =~= a + "/"@);
    if overlap(a, b) && a.len() < b.len() {
        let h = b.subrange(0, a.len() as int + 1);
        assert(h == a + "/"@);
        assert(b.take(a.len() as int) =~= h.take(a.len() as int));
        assert((a + "/"@).take(a.len() as int) =~= a);
        assert(h[a.len() as int] == b[a.len() as int]);
    }
}

} // verus!
