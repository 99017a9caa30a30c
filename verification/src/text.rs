//! Text as sequences of characters: the string operations the rest of the
//! library is specified with, and their executable counterparts.
use vstd::prelude::*;

verus! {

/// `String::push` appends one character.
pub assume_specification[ std::string::String::push ](s: &mut std::string::String, c: char)
    ensures
        final(s)@ == old(s)@.push(c),
;

/// The characters with Unicode's White_Space property.
pub open spec fn white(c: char) -> bool {
    let n = c as u32;
    ||| 0x09 <= n <= 0x0d
    ||| n == 0x20
    ||| n == 0x85
    ||| n == 0xa0
    ||| n == 0x1680
    ||| 0x2000 <= n <= 0x200a
    ||| n == 0x2028
    ||| n == 0x2029
    ||| n == 0x202f
    ||| n == 0x205f
    ||| n == 0x3000
}

pub fn is_white(c: char) -> (r: bool)
    ensures
        r == white(c),
{
    let n: u32 = c as u32;
    (0x09 <= n && n <= 0x0d) || n == 0x20 || n == 0x85 || n == 0xa0 || n == 0x1680 || (0x2000 <= n
        && n <= 0x200a) || n == 0x2028 || n == 0x2029 || n == 0x202f || n == 0x205f || n == 0x3000
}

/// The control characters (Unicode's general category Cc).
pub open spec fn control(c: char) -> bool {
    let n = c as u32;
    n <= 0x1f || 0x7f <= n <= 0x9f
}

pub fn is_control(c: char) -> (r: bool)
    ensures
        r == control(c),
{
    let n: u32 = c as u32;
    n <= 0x1f || (0x7f <= n && n <= 0x9f)
}

/// The characters of a string.
pub fn to_chars(s: &str) -> (v: Vec<char>)
    ensures
        v@ == s@,
{
    let mut v: Vec<char> = Vec::new();
    for c in it: s.chars()
        invariant
            v@ == it.seq().take(it.index()),
            it.seq() == s@,
    {
        v.push(c);
    }
    assert(v@ =~= s@);
    v
}

/// The string made of the characters from `i` up to `j`.
pub fn slice(v: &Vec<char>, i: usize, j: usize) -> (s: String)
    requires
        i <= j <= v@.len(),
    ensures
        s@ == v@.subrange(i as int, j as int),
{
    let mut s = String::new();
    let mut k: usize = i;
    while k < j
        invariant
            i <= k <= j <= v@.len(),
            s@ == v@.subrange(i as int, k as int),
        decreases j - k,
    {
        s.push(v[k]);
        k = k + 1;
        assert(s@ =~= v@.subrange(i as int, k as int));
    }
    s
}

pub fn str_eq(a: &str, b: &str) -> (r: bool)
    ensures
        r == (a@ == b@),
{
    a.to_owned() == b.to_owned()
}


/// The whole of `v` as a string.
pub fn from_chars(v: &Vec<char>) -> (s: String)
    ensures
        s@ == v@,
{
    let s = slice(v, 0, v.len());
    assert(v@.subrange(0, v@.len() as int) =~= v@);
    s
}

/// The characters from `i` up to `j`.
pub fn cut(v: &Vec<char>, i: usize, j: usize) -> (r: Vec<char>)
    requires
        i <= j <= v@.len(),
    ensures
        r@ == v@.subrange(i as int, j as int),
{
    let mut r: Vec<char> = Vec::new();
    let mut k: usize = i;
    while k < j
        invariant
            i <= k <= j <= v@.len(),
            r@ == v@.subrange(i as int, k as int),
        decreases j - k,
    {
        r.push(v[k]);
        k = k + 1;
        assert(r@ =~= v@.subrange(i as int, k as int));
    }
    r
}

// ---- concatenation ----

pub fn cat2(a: &str, b: &str) -> (r: String)
    ensures
        r@ == a@ + b@,
{
    let mut r = a.to_owned();
    r.append(b);
    r
}

pub fn cat3(a: &str, b: &str, c: &str) -> (r: String)
    ensures
        r@ == a@ + b@ + c@,
{
    let mut r = cat2(a, b);
    r.append(c);
    r
}

pub fn cat4(a: &str, b: &str, c: &str, d: &str) -> (r: String)
    ensures
        r@ == a@ + b@ + c@ + d@,
{
    let mut r = cat3(a, b, c);
    r.append(d);
    r
}

pub fn cat5(a: &str, b: &str, c: &str, d: &str, e: &str) -> (r: String)
    ensures
        r@ == a@ + b@ + c@ + d@ + e@,
{
    let mut r = cat4(a, b, c, d);
    r.append(e);
    r
}

pub fn cat6(a: &str, b: &str, c: &str, d: &str, e: &str, f: &str) -> (r: String)
    ensures
        r@ == a@ + b@ + c@ + d@ + e@ + f@,
{
    let mut r = cat5(a, b, c, d, e);
    r.append(f);
    r
}

pub fn cat7(a: &str, b: &str, c: &str, d: &str, e: &str, f: &str, g: &str) -> (r: String)
    ensures
        r@ == a@ + b@ + c@ + d@ + e@ + f@ + g@,
{
    let mut r = cat6(a, b, c, d, e, f);
    r.append(g);
    r
}

// ---- lists of strings ----

/// The texts of a list of strings.
pub open spec fn texts(v: Seq<String>) -> Seq<Seq<char>> {
    v.map_values(|s: String| s@)
}

/// The text of an optional string.
pub open spec fn opt_text(o: Option<String>) -> Option<Seq<char>> {
    match o {
        Some(s) => Some(s@),
        None => None,
    }
}

pub fn clone_strings(v: &Vec<String>) -> (r: Vec<String>)
    ensures
        r@ == v@,
        texts(r@) == texts(v@),
{
    let mut r: Vec<String> = Vec::new();
    let mut i: usize = 0;
    while i < v.len()
        invariant
            i <= v@.len(),
            r@ == v@.take(i as int),
        decreases v@.len() - i,
    {
        r.push(v[i].clone());
        i = i + 1;
        assert(r@ =~= v@.take(i as int));
    }
    assert(r@ =~= v@);
    r
}

pub fn clone_opt(o: &Option<String>) -> (r: Option<String>)
    ensures
        r == *o,
{
    match o {
        Some(s) => Some(s.clone()),
        None => None,
    }
}

/// Whether a text stands in a list.
pub fn has_text(v: &Vec<String>, s: &str) -> (r: bool)
    ensures
        r == texts(v@).contains(s@),
{
    let mut i: usize = 0;
    while i < v.len()
        invariant
            i <= v@.len(),
            forall|k: int| 0 <= k < i ==> texts(v@)[k] != s@,
        decreases v@.len() - i,
    {
        if str_eq(v[i].as_str(), s) {
            assert(texts(v@)[i as int] == s@);
            return true;
        }
        assert(texts(v@)[i as int] != s@);
        i = i + 1;
    }
    false
}

pub proof fn lemma_texts_push(v: Seq<String>, s: String)
    ensures
        texts(v.push(s)) == texts(v).push(s@),
{
    assert(texts(v.push(s)) =~= texts(v).push(s@));
}

pub proof fn lemma_texts_add(a: Seq<String>, b: Seq<String>)
    ensures
        texts(a + b) == texts(a) + texts(b),
{
    assert(texts(a + b) =~= texts(a) + texts(b));
}

/// One text where `b` holds, none otherwise.
pub open spec fn when(b: bool, s: Seq<char>) -> Seq<Seq<char>> {
    if b {
        seq![s]
    } else {
        Seq::empty()
    }
}

pub fn push_when(out: &mut Vec<String>, b: bool, s: String)
    ensures
        texts(final(out)@) == texts(old(out)@) + when(b, s@),
{
    let ghost before = out@;
    if b {
        out.push(s);
        proof {
            lemma_texts_push(before, s);
        }
        assert(texts(out@) =~= texts(before) + when(b, s@));
    } else {
        assert(texts(out@) =~= texts(before) + when(b, s@));
    }
}

/// The texts one after another, `sep` between each two.
pub open spec fn joined(v: Seq<Seq<char>>, sep: Seq<char>) -> Seq<char>
    decreases v.len(),
{
    if v.len() == 0 {
        Seq::empty()
    } else if v.len() == 1 {
        v[0]
    } else {
        joined(v.drop_last(), sep) + sep + v.last()
    }
}

pub fn join(v: &Vec<String>, sep: &str) -> (r: String)
    ensures
        r@ == joined(texts(v@), sep@),
{
    let mut r = String::new();
    let mut i: usize = 0;
    let ghost t = texts(v@);
    while i < v.len()
        invariant
            i <= v@.len(),
            t == texts(v@),
            r@ == joined(t.take(i as int), sep@),
        decreases v@.len() - i,
    {
        if i > 0 {
            r.append(sep);
        }
        r.append(v[i].as_str());
        i = i + 1;
        assert(t.take(i as int).drop_last() =~= t.take(i - 1));
        if i == 1 {
            assert(r@ =~= t[0]);
        }
    }
    assert(t.take(t.len() as int) =~= t);
    r
}

// ---- trimming ----

pub open spec fn trim_start_of(s: Seq<char>) -> Seq<char>
    decreases s.len(),
{
    if s.len() > 0 && white(s[0]) {
        trim_start_of(s.drop_first())
    } else {
        s
    }
}

pub open spec fn trim_end_of(s: Seq<char>) -> Seq<char>
    decreases s.len(),
{
    if s.len() > 0 && white(s.last()) {
        trim_end_of(s.drop_last())
    } else {
        s
    }
}

/// Without white space at either end.
pub open spec fn trimmed(s: Seq<char>) -> Seq<char> {
    trim_end_of(trim_start_of(s))
}

/// The first position at or after `i` that holds no white space.
pub fn skip_white(v: &Vec<char>, i: usize) -> (r: usize)
    requires
        i <= v@.len(),
    ensures
        i <= r <= v@.len(),
        v@.skip(r as int) == trim_start_of(v@.skip(i as int)),
{
    let mut k: usize = i;
    while k < v.len() && is_white(v[k])
        invariant
            i <= k <= v@.len(),
            trim_start_of(v@.skip(k as int)) == trim_start_of(v@.skip(i as int)),
        decreases v@.len() - k,
    {
        assert(v@.skip(k as int).drop_first() =~= v@.skip(k + 1));
        k = k + 1;
    }
    k
}

pub fn trim(s: &str) -> (r: String)
    ensures
        r@ == trimmed(s@),
{
    let v = to_chars(s);
    let i: usize = skip_white(&v, 0);
    let mut j: usize = v.len();
    assert(v@.skip(0) =~= v@);
    assert(v@.subrange(i as int, j as int) =~= v@.skip(i as int));
    while j > i && is_white(v[j - 1])
        invariant
            i <= j <= v@.len(),
            trim_end_of(v@.subrange(i as int, j as int)) == trimmed(s@),
        decreases j,
    {
        assert(v@.subrange(i as int, j as int).drop_last() =~= v@.subrange(i as int, j - 1));
        j = j - 1;
    }
    slice(&v, i, j)
}

/// Whether nothing but white space is in the text.
pub fn is_blank(s: &str) -> (r: bool)
    ensures
        r == (trimmed(s@).len() == 0),
{
    let t = trim(s);
    t.as_str().is_empty()
}

pub open spec fn strip_start_of(s: Seq<char>, c: char) -> Seq<char>
    decreases s.len(),
{
    if s.len() > 0 && s[0] == c {
        strip_start_of(s.drop_first(), c)
    } else {
        s
    }
}

pub open spec fn strip_end_of(s: Seq<char>, c: char) -> Seq<char>
    decreases s.len(),
{
    if s.len() > 0 && s.last() == c {
        strip_end_of(s.drop_last(), c)
    } else {
        s
    }
}

/// Without the character `c` at the start.
pub fn strip_start(s: &str, c: char) -> (r: String)
    ensures
        r@ == strip_start_of(s@, c),
{
    let v = to_chars(s);
    let mut k: usize = 0;
    assert(v@.skip(0) =~= v@);
    while k < v.len() && v[k] == c
        invariant
            k <= v@.len(),
            strip_start_of(v@.skip(k as int), c) == strip_start_of(s@, c),
        decreases v@.len() - k,
    {
        assert(v@.skip(k as int).drop_first() =~= v@.skip(k + 1));
        k = k + 1;
    }
    assert(v@.subrange(k as int, v@.len() as int) =~= v@.skip(k as int));
    slice(&v, k, v.len())
}

/// Without the character `c` at either end.
pub fn strip(s: &str, c: char) -> (r: String)
    ensures
        r@ == strip_end_of(strip_start_of(s@, c), c),
{
    let t = strip_start(s, c);
    let v = to_chars(t.as_str());
    let mut j: usize = v.len();
    assert(v@.take(j as int) =~= v@);
    while j > 0 && v[j - 1] == c
        invariant
            j <= v@.len(),
            strip_end_of(v@.take(j as int), c) == strip_end_of(t@, c),
        decreases j,
    {
        assert(v@.take(j as int).drop_last() =~= v@.take(j - 1));
        j = j - 1;
    }
    assert(v@.subrange(0, j as int) =~= v@.take(j as int));
    slice(&v, 0, j)
}

// ---- searching ----

/// The position of the first `c`, or the length where there is none.
pub open spec fn index_of_char(s: Seq<char>, c: char) -> int
    decreases s.len(),
{
    if s.len() == 0 {
        0
    } else if s[0] == c {
        0
    } else {
        1 + index_of_char(s.drop_first(), c)
    }
}

pub proof fn lemma_index_of_char(s: Seq<char>, c: char)
    ensures
        0 <= index_of_char(s, c) <= s.len(),
        forall|k: int| 0 <= k < index_of_char(s, c) ==> s[k] != c,
        index_of_char(s, c) < s.len() ==> s[index_of_char(s, c)] == c,
    decreases s.len(),
{
    if s.len() > 0 && s[0] != c {
        let t = s.drop_first();
        lemma_index_of_char(t, c);
        assert forall|k: int| 0 <= k < index_of_char(s, c) implies s[k] != c by {
            if k > 0 {
                assert(s[k] == t[k - 1]);
            }
        }
        if index_of_char(s, c) < s.len() {
            assert(s[index_of_char(s, c)] == t[index_of_char(t, c)]);
        }
    }
}

/// An index with no `c` before it and a `c` (or the end) at it is the first.
pub proof fn lemma_index_of_char_is(s: Seq<char>, c: char, i: int)
    requires
        0 <= i <= s.len(),
        forall|k: int| 0 <= k < i ==> s[k] != c,
        i < s.len() ==> s[i] == c,
    ensures
        index_of_char(s, c) == i,
{
    lemma_index_of_char(s, c);
    let j = index_of_char(s, c);
    if j < i {
        assert(s[j] != c);
    }
    if i < j {
        assert(s[i] != c);
    }
}

pub fn find_char(v: &Vec<char>, from: usize, c: char) -> (r: usize)
    requires
        from <= v@.len(),
    ensures
        from <= r <= v@.len(),
        r - from == index_of_char(v@.skip(from as int), c),
        r < v@.len() ==> v@[r as int] == c,
        forall|k: int| from <= k < r ==> v@[k] != c,
{
    let mut k: usize = from;
    while k < v.len() && v[k] != c
        invariant
            from <= k <= v@.len(),
            forall|j: int| from <= j < k ==> v@[j] != c,
        decreases v@.len() - k,
    {
        k = k + 1;
    }
    proof {
        let t = v@.skip(from as int);
        assert forall|j: int| 0 <= j < k - from implies t[j] != c by {
            assert(t[j] == v@[j + from]);
        }
        lemma_index_of_char_is(t, c, k - from);
    }
    k
}

pub fn has_char(s: &str, c: char) -> (r: bool)
    ensures
        r == s@.contains(c),
{
    let v = to_chars(s);
    let k: usize = find_char(&v, 0, c);
    if k < v.len() {
        assert(s@[k as int] == c);
        true
    } else {
        false
    }
}

/// Whether `p` stands in `s` at `i`.
pub open spec fn stands_at(s: Seq<char>, p: Seq<char>, i: int) -> bool {
    0 <= i && i + p.len() <= s.len() && s.subrange(i, i + p.len()) == p
}

/// The first position at or after `from` at which `p` stands in `s`.
pub open spec fn find_from(s: Seq<char>, p: Seq<char>, from: int) -> Option<int>
    decreases s.len() + 1 - from,
{
    if from < 0 || from + p.len() > s.len() {
        None
    } else if stands_at(s, p, from) {
        Some(from)
    } else {
        find_from(s, p, from + 1)
    }
}

pub proof fn lemma_find_from(s: Seq<char>, p: Seq<char>, from: int)
    requires
        0 <= from,
    ensures
        match find_from(s, p, from) {
            Some(i) => from <= i && stands_at(s, p, i) && forall|k: int|
                from <= k < i ==> !stands_at(s, p, k),
            None => forall|k: int| from <= k ==> !stands_at(s, p, k),
        },
    decreases s.len() + 1 - from,
{
    if from + p.len() <= s.len() && !stands_at(s, p, from) {
        lemma_find_from(s, p, from + 1);
    }
}

/// Whether `p` stands somewhere in `s`.
pub open spec fn contains_text(s: Seq<char>, p: Seq<char>) -> bool {
    exists|i: int| stands_at(s, p, i)
}

pub proof fn lemma_contains_text(s: Seq<char>, p: Seq<char>)
    ensures
        contains_text(s, p) == (find_from(s, p, 0) is Some),
{
    lemma_find_from(s, p, 0);
    if contains_text(s, p) {
        let i = choose|i: int| stands_at(s, p, i);
        assert(stands_at(s, p, i));
    }
}

pub fn at(v: &Vec<char>, p: &Vec<char>, i: usize) -> (r: bool)
    requires
        i <= v@.len(),
    ensures
        r == stands_at(v@, p@, i as int),
{
    if p.len() > v.len() - i {
        return false;
    }
    let mut k: usize = 0;
    while k < p.len()
        invariant
            k <= p@.len(),
            i + p@.len() <= v@.len(),
            forall|j: int| 0 <= j < k ==> v@[i + j] == p@[j],
        decreases p@.len() - k,
    {
        assert(i + k < v.len());
        if v[i + k] != p[k] {
            assert(v@.subrange(i as int, i + p@.len())[k as int] != p@[k as int]);
            return false;
        }
        k = k + 1;
    }
    assert(v@.subrange(i as int, i + p@.len()) =~= p@);
    true
}

pub fn find_in(v: &Vec<char>, p: &Vec<char>, from: usize) -> (r: Option<usize>)
    requires
        from <= v@.len(),
    ensures
        match r {
            Some(i) => find_from(v@, p@, from as int) == Some(i as int) && from <= i && i + p@.len()
                <= v@.len(),
            None => find_from(v@, p@, from as int) is None,
        },
{
    let mut k: usize = from;
    while k <= v.len() && p.len() <= v.len() - k
        invariant
            from <= k,
            k <= v@.len() + 1,
            find_from(v@, p@, k as int) == find_from(v@, p@, from as int),
        decreases v@.len() + 1 - k,
    {
        if at(v, p, k) {
            return Some(k);
        }
        if k == v.len() {
            assert(find_from(v@, p@, k + 1) is None);
            return None;
        }
        k = k + 1;
    }
    None
}

pub fn has_sub(s: &str, p: &str) -> (r: bool)
    ensures
        r == contains_text(s@, p@),
{
    let v = to_chars(s);
    let q = to_chars(p);
    proof {
        lemma_contains_text(s@, p@);
    }
    match find_in(&v, &q, 0) {
        Some(_) => true,
        None => false,
    }
}

pub open spec fn starts(s: Seq<char>, p: Seq<char>) -> bool {
    stands_at(s, p, 0)
}

pub fn starts_with(s: &str, p: &str) -> (r: bool)
    ensures
        r == starts(s@, p@),
{
    let v = to_chars(s);
    let q = to_chars(p);
    at(&v, &q, 0)
}

// ---- splitting ----

/// The pieces between the `c`s.
pub open spec fn split_at_char(s: Seq<char>, c: char) -> Seq<Seq<char>>
    decreases s.len(),
    via split_at_char_decreases
{
    let i = index_of_char(s, c);
    if 0 <= i < s.len() {
        seq![s.take(i)] + split_at_char(s.skip(i + 1), c)
    } else {
        seq![s]
    }
}

#[via_fn]
proof fn split_at_char_decreases(s: Seq<char>, c: char) {
    lemma_index_of_char(s, c);
}

pub fn split(s: &str, c: char) -> (r: Vec<String>)
    ensures
        texts(r@) == split_at_char(s@, c),
        r@.len() >= 1,
{
    let v = to_chars(s);
    let mut r: Vec<String> = Vec::new();
    let mut from: usize = 0;
    assert(v@.skip(0) =~= v@);
    assert(texts(r@) + split_at_char(v@.skip(0), c) =~= split_at_char(s@, c));
    loop
        invariant
            from <= v@.len(),
            texts(r@) + split_at_char(v@.skip(from as int), c) == split_at_char(s@, c),
        decreases v@.len() - from,
    {
        let k: usize = find_char(&v, from, c);
        let piece = slice(&v, from, k);
        let ghost rest = v@.skip(from as int);
        assert(rest.take(k - from) =~= piece@);
        let ghost before = r@;
        r.push(piece);
        proof {
            lemma_texts_push(before, piece);
            lemma_index_of_char(rest, c);
        }
        if k == v.len() {
            assert(rest =~= piece@);
            assert(texts(before) + seq![piece@] =~= texts(r@));
            return r;
        }
        proof {
            assert(rest.skip(k - from + 1) =~= v@.skip(k + 1));
            assert(texts(before) + (seq![piece@] + split_at_char(v@.skip(k + 1), c)) =~= texts(r@)
                + split_at_char(v@.skip(k + 1), c));
        }
        from = k + 1;
    }
}

/// One carriage return fewer at the end of a line.
pub open spec fn drop_cr(s: Seq<char>) -> Seq<char> {
    if s.len() > 0 && s.last() == '\r' {
        s.drop_last()
    } else {
        s
    }
}

/// The lines of a text: each ends at a line feed, which (with a carriage
/// return before it) is not part of the line; the last may lack it.
pub open spec fn lines_of(s: Seq<char>) -> Seq<Seq<char>>
    decreases s.len(),
    via lines_of_decreases
{
    if s.len() == 0 {
        Seq::empty()
    } else {
        let i = index_of_char(s, '\n');
        if 0 <= i < s.len() {
            seq![drop_cr(s.take(i))] + lines_of(s.skip(i + 1))
        } else {
            seq![s]
        }
    }
}

#[via_fn]
proof fn lines_of_decreases(s: Seq<char>) {
    lemma_index_of_char(s, '\n');
}

pub fn lines(s: &str) -> (r: Vec<String>)
    ensures
        texts(r@) == lines_of(s@),
{
    let v = to_chars(s);
    let mut r: Vec<String> = Vec::new();
    let mut from: usize = 0;
    assert(v@.skip(0) =~= v@);
    assert(texts(r@) + lines_of(v@.skip(0)) =~= lines_of(s@));
    while from < v.len()
        invariant
            from <= v@.len(),
            texts(r@) + lines_of(v@.skip(from as int)) == lines_of(s@),
        decreases v@.len() - from,
    {
        let k: usize = find_char(&v, from, '\n');
        let ghost rest = v@.skip(from as int);
        let ghost before = r@;
        proof {
            lemma_index_of_char(rest, '\n');
        }
        if k == v.len() {
            let piece = slice(&v, from, k);
            assert(rest =~= piece@);
            r.push(piece);
            proof {
                lemma_texts_push(before, piece);
                assert(texts(before) + seq![piece@] =~= texts(r@));
            }
            return r;
        }
        let end: usize = if k > from && v[k - 1] == '\r' {
            k - 1
        } else {
            k
        };
        let piece = slice(&v, from, end);
        proof {
            let t = rest.take(k - from);
            if t.len() > 0 {
                assert(t.last() == v@[k - 1]);
            }
            assert(drop_cr(t) =~= piece@);
        }
        r.push(piece);
        proof {
            lemma_texts_push(before, piece);
            assert(rest.skip(k - from + 1) =~= v@.skip(k + 1));
            assert(texts(before) + (seq![piece@] + lines_of(v@.skip(k + 1))) =~= texts(r@)
                + lines_of(v@.skip(k + 1)));
        }
        from = k + 1;
    }
    assert(v@.skip(from as int) =~= Seq::<char>::empty());
    assert(texts(r@) + Seq::<Seq<char>>::empty() =~= texts(r@));
    r
}

/// The words of a text: its longest runs without white space.
pub open spec fn words_of(s: Seq<char>) -> Seq<Seq<char>>
    decreases s.len(),
    via words_of_decreases
{
    let t = trim_start_of(s);
    if t.len() == 0 {
        Seq::empty()
    } else {
        let i = word_len(t);
        seq![t.take(i)] + words_of(t.skip(i))
    }
}

/// How many characters stand before the first white space.
pub open spec fn word_len(s: Seq<char>) -> int
    decreases s.len(),
{
    if s.len() == 0 || white(s[0]) {
        0
    } else {
        1 + word_len(s.drop_first())
    }
}

pub proof fn lemma_word_len(s: Seq<char>)
    ensures
        0 <= word_len(s) <= s.len(),
    decreases s.len(),
{
    if s.len() > 0 && !white(s[0]) {
        lemma_word_len(s.drop_first());
    }
}

pub proof fn lemma_trim_start(s: Seq<char>)
    ensures
        trim_start_of(s).len() <= s.len(),
        trim_start_of(s).len() > 0 ==> !white(trim_start_of(s)[0]),
    decreases s.len(),
{
    if s.len() > 0 && white(s[0]) {
        lemma_trim_start(s.drop_first());
    }
}

#[via_fn]
proof fn words_of_decreases(s: Seq<char>) {
    lemma_trim_start(s);
    lemma_word_len(trim_start_of(s));
    if trim_start_of(s).len() > 0 {
        assert(word_len(trim_start_of(s)) >= 1) by {
            lemma_word_len(trim_start_of(s).drop_first());
        }
    }
}

pub fn words(s: &str) -> (r: Vec<String>)
    ensures
        texts(r@) == words_of(s@),
{
    let v = to_chars(s);
    let mut r: Vec<String> = Vec::new();
    let mut from: usize = 0;
    assert(v@.skip(0) =~= v@);
    assert(texts(r@) + words_of(v@.skip(0)) =~= words_of(s@));
    loop
        invariant
            from <= v@.len(),
            texts(r@) + words_of(v@.skip(from as int)) == words_of(s@),
        decreases v@.len() - from,
    {
        let i: usize = skip_white(&v, from);
        let ghost t = v@.skip(i as int);
        proof {
            lemma_trim_start(v@.skip(from as int));
            lemma_word_len(t);
        }
        if i == v.len() {
            assert(texts(r@) + Seq::<Seq<char>>::empty() =~= texts(r@));
            return r;
        }
        assert(!white(t[0]));
        assert(t.skip(0) =~= t);
        let mut k: usize = i;
        while k < v.len() && !is_white(v[k])
            invariant
                i <= k <= v@.len(),
                t == v@.skip(i as int),
                word_len(t) == k - i + word_len(t.skip(k - i)),
            decreases v@.len() - k,
        {
            assert(t.skip(k - i)[0] == v@[k as int]);
            assert(t.skip(k - i).drop_first() =~= t.skip(k - i + 1));
            k = k + 1;
        }
        proof {
            if k < v@.len() {
                assert(t.skip(k - i)[0] == v@[k as int]);
            }
            assert(word_len(t.skip(k - i)) == 0);
            assert(word_len(t) >= 1) by {
                lemma_word_len(t.drop_first());
            }
        }
        let piece = slice(&v, i, k);
        let ghost before = r@;
        assert(t.take(k - i) =~= piece@);
        r.push(piece);
        proof {
            lemma_texts_push(before, piece);
            assert(t.skip(k - i) =~= v@.skip(k as int));
            assert(texts(before) + (seq![piece@] + words_of(v@.skip(k as int))) =~= texts(r@)
                + words_of(v@.skip(k as int)));
        }
        from = k;
    }
}

// ---- letters and digits ----

pub open spec fn lower_ascii(c: char) -> char {
    if 'A' <= c <= 'Z' {
        ((c as u32) + 32) as char
    } else {
        c
    }
}

/// `a` with the capital letters A to Z made small.
pub open spec fn lowered_ascii(s: Seq<char>) -> Seq<char> {
    s.map_values(|c: char| lower_ascii(c))
}

/// Whether two texts are the same but for the case of the letters A to Z.
pub open spec fn same_ignoring_case(a: Seq<char>, b: Seq<char>) -> bool {
    lowered_ascii(a) == lowered_ascii(b)
}

pub fn char_lower(c: char) -> (r: u32)
    ensures
        r == lower_ascii(c) as u32,
{
    let n: u32 = c as u32;
    if 65 <= n && n <= 90 {
        n + 32
    } else {
        n
    }
}

pub fn eq_ignore_case(a: &str, b: &str) -> (r: bool)
    ensures
        r == same_ignoring_case(a@, b@),
{
    let x = to_chars(a);
    let y = to_chars(b);
    if x.len() != y.len() {
        assert(lowered_ascii(a@).len() != lowered_ascii(b@).len());
        return false;
    }
    let mut i: usize = 0;
    while i < x.len()
        invariant
            x@ == a@,
            y@ == b@,
            i <= x@.len(),
            x@.len() == y@.len(),
            forall|k: int| 0 <= k < i ==> lower_ascii(x@[k]) == lower_ascii(y@[k]),
        decreases x@.len() - i,
    {
        if char_lower(x[i]) != char_lower(y[i]) {
            assert(lowered_ascii(a@)[i as int] != lowered_ascii(b@)[i as int]);
            return false;
        }
        i = i + 1;
    }
    assert(lowered_ascii(a@) =~= lowered_ascii(b@));
    true
}

pub open spec fn digit(n: nat) -> char {
    (('0' as u32) + n) as char
}

/// A number in decimal.
pub open spec fn decimal(n: nat) -> Seq<char>
    decreases n,
{
    if n < 10 {
        seq![digit(n)]
    } else {
        decimal(n / 10).push(digit(n % 10))
    }
}

pub proof fn lemma_decimal(n: nat)
    ensures
        decimal(n).len() >= 1,
        n >= 10 ==> decimal(n).len() >= 2,
        forall|k: int| 0 <= k < decimal(n).len() ==> '0' <= #[trigger] decimal(n)[k] <= '9',
    decreases n,
{
    if n >= 10 {
        lemma_decimal(n / 10);
    }
}

pub proof fn lemma_digit(a: nat, b: nat)
    requires
        a < 10,
        b < 10,
        digit(a) == digit(b),
    ensures
        a == b,
{
    assert(digit(a) as u32 == 48 + a);
    assert(digit(b) as u32 == 48 + b);
}

pub proof fn lemma_decimal_injective(a: nat, b: nat)
    requires
        decimal(a) == decimal(b),
    ensures
        a == b,
    decreases a,
{
    lemma_decimal(a);
    lemma_decimal(b);
    if a < 10 {
        assert(b < 10);
        assert(decimal(a) == seq![digit(a)]);
        assert(decimal(b) == seq![digit(b)]);
        assert(decimal(a)[0] == digit(a));
        assert(decimal(b)[0] == digit(b));
        lemma_digit(a, b);
    } else {
        assert(b >= 10);
        assert(decimal(a).drop_last() =~= decimal(a / 10));
        assert(decimal(b).drop_last() =~= decimal(b / 10));
        lemma_decimal_injective(a / 10, b / 10);
        assert(decimal(a).last() == digit(a % 10));
        assert(decimal(b).last() == digit(b % 10));
        lemma_digit(a % 10, b % 10);
    }
}

pub fn digit_char(n: u64) -> (c: char)
    requires
        n < 10,
    ensures
        c == digit(n as nat),
{
    if n == 0 {
        '0'
    } else if n == 1 {
        '1'
    } else if n == 2 {
        '2'
    } else if n == 3 {
        '3'
    } else if n == 4 {
        '4'
    } else if n == 5 {
        '5'
    } else if n == 6 {
        '6'
    } else if n == 7 {
        '7'
    } else if n == 8 {
        '8'
    } else {
        '9'
    }
}

pub fn dec(n: u64) -> (s: String)
    ensures
        s@ == decimal(n as nat),
    decreases n,
{
    if n < 10 {
        let mut s = String::new();
        s.push(digit_char(n));
        assert(s@ =~= decimal(n as nat));
        s
    } else {
        let mut s = dec(n / 10);
        s.push(digit_char(n % 10));
        s
    }
}

pub fn dec_wide(n: u128) -> (s: String)
    ensures
        s@ == decimal(n as nat),
    decreases n,
{
    if n < 10 {
        dec(n as u64)
    } else {
        let mut s = dec_wide(n / 10);
        s.push(digit_char((n % 10) as u64));
        s
    }
}

pub fn dec_usize(n: usize) -> (s: String)
    ensures
        s@ == decimal(n as nat),
{
    dec(n as u64)
}

pub open spec fn is_digit(c: char) -> bool {
    '0' <= c <= '9'
}

/// The number that decimal digits write.
pub open spec fn digits_value(s: Seq<char>) -> nat
    decreases s.len(),
{
    if s.len() == 0 {
        0
    } else {
        digits_value(s.drop_last()) * 10 + ((s.last() as u32) - 48) as nat
    }
}

/// What stands behind a plus sign, if one is there.
pub open spec fn unsigned_part(s: Seq<char>) -> Seq<char> {
    if s.len() > 0 && s[0] == '+' {
        s.skip(1)
    } else {
        s
    }
}

/// The number a text writes: decimal digits, with a plus sign before them or not,
/// and not beyond what a `usize` holds.
pub open spec fn number_in(s: Seq<char>) -> Option<nat> {
    let d = unsigned_part(s);
    if d.len() > 0 && (forall|k: int| 0 <= k < d.len() ==> is_digit(#[trigger] d[k]))
        && digits_value(d) <= usize::MAX {
        Some(digits_value(d))
    } else {
        None
    }
}

proof fn lemma_digits_grow(s: Seq<char>, n: int)
    requires
        0 <= n <= s.len(),
        forall|k: int| 0 <= k < s.len() ==> is_digit(#[trigger] s[k]),
    ensures
        digits_value(s.take(n)) <= digits_value(s),
    decreases s.len() - n,
{
    if n < s.len() {
        lemma_digits_grow(s, n + 1);
        assert(s.take(n + 1).drop_last() =~= s.take(n));
    } else {
        assert(s.take(n) =~= s);
    }
}

pub fn parse_usize(s: &str) -> (r: Option<usize>)
    ensures
        match r {
            Some(n) => number_in(s@) == Some(n as nat),
            None => number_in(s@) is None,
        },
{
    let v = to_chars(s);
    let start: usize = if v.len() > 0 && v[0] == '+' {
        1
    } else {
        0
    };
    let ghost d = unsigned_part(s@);
    assert(d =~= v@.skip(start as int));
    if start >= v.len() {
        return None;
    }
    let mut n: usize = 0;
    let mut i: usize = start;
    assert(d.take(0) =~= Seq::<char>::empty());
    while i < v.len()
        invariant
            start <= i <= v@.len(),
            v@ == s@,
            d == v@.skip(start as int),
            d.len() == v@.len() - start,
            d == unsigned_part(s@),
            n == digits_value(d.take(i - start)),
            forall|k: int| 0 <= k < i - start ==> is_digit(#[trigger] d[k]),
        decreases v@.len() - i,
    {
        let c = v[i];
        assert(d[i - start] == c);
        assert(d.take(i - start + 1).drop_last() =~= d.take(i - start));
        if !('0' <= c && c <= '9') {
            assert(!is_digit(d[i - start]));
            return None;
        }
        let x: usize = (c as u32 - 48) as usize;
        if n > (usize::MAX - x) / 10 {
            proof {
                if forall|k: int| 0 <= k < d.len() ==> is_digit(#[trigger] d[k]) {
                    lemma_digits_grow(d, i - start + 1);
                    assert(digits_value(d) > usize::MAX);
                }
                assert(number_in(s@) is None);
            }
            return None;
        }
        n = n * 10 + x;
        i = i + 1;
    }
    assert(d.take(d.len() as int) =~= d);
    Some(n)
}

/// A number as far as a `usize` holds it.
pub open spec fn as_size(n: nat) -> nat {
    if n <= usize::MAX {
        n
    } else {
        usize::MAX as nat
    }
}

pub fn to_size(n: u64) -> (r: usize)
    ensures
        r == as_size(n as nat),
{
    if n <= usize::MAX as u64 {
        n as usize
    } else {
        usize::MAX
    }
}

pub open spec fn hex_digit(n: nat) -> char {
    if n < 10 {
        digit(n)
    } else {
        (('A' as u32) + n - 10) as char
    }
}

/// The last `k` digits of a number in hexadecimal.
pub open spec fn hex_last(n: nat, k: nat) -> Seq<char>
    decreases k,
{
    if k == 0 {
        Seq::empty()
    } else {
        hex_last(n / 16, (k - 1) as nat).push(hex_digit(n % 16))
    }
}

/// How many hexadecimal digits a number has, at least four.
pub open spec fn hex_width(n: nat) -> nat {
    if n < 0x1_0000 {
        4
    } else if n < 0x10_0000 {
        5
    } else if n < 0x100_0000 {
        6
    } else if n < 0x1000_0000 {
        7
    } else {
        8
    }
}

/// A number in hexadecimal with at least four digits.
pub open spec fn hex_four(n: nat) -> Seq<char> {
    hex_last(n, hex_width(n))
}

fn hex_char(n: u32) -> (c: char)
    requires
        n < 16,
    ensures
        c == hex_digit(n as nat),
{
    if n < 10 {
        digit_char(n as u64)
    } else if n == 10 {
        'A'
    } else if n == 11 {
        'B'
    } else if n == 12 {
        'C'
    } else if n == 13 {
        'D'
    } else if n == 14 {
        'E'
    } else {
        'F'
    }
}

fn hex_digits(n: u32, k: u32) -> (s: String)
    ensures
        s@ == hex_last(n as nat, k as nat),
    decreases k,
{
    if k == 0 {
        String::new()
    } else {
        let mut s = hex_digits(n / 16, k - 1);
        s.push(hex_char(n % 16));
        s
    }
}

pub fn hex4(n: u32) -> (s: String)
    ensures
        s@ == hex_four(n as nat),
{
    let k: u32 = if n < 0x1_0000 {
        4
    } else if n < 0x10_0000 {
        5
    } else if n < 0x100_0000 {
        6
    } else if n < 0x1000_0000 {
        7
    } else {
        8
    };
    hex_digits(n, k)
}

// ---- order ----

/// Whether `a` comes before `b` (character by character, a prefix first):
/// the order in which keyed tables list their keys.
pub open spec fn before(a: Seq<char>, b: Seq<char>) -> bool
    decreases a.len(),
{
    if b.len() == 0 {
        false
    } else if a.len() == 0 {
        true
    } else if a[0] != b[0] {
        a[0] < b[0]
    } else {
        before(a.drop_first(), b.drop_first())
    }
}

pub proof fn lemma_before_irreflexive(a: Seq<char>)
    ensures
        !before(a, a),
    decreases a.len(),
{
    if a.len() > 0 {
        lemma_before_irreflexive(a.drop_first());
    }
}

pub proof fn lemma_before_transitive(a: Seq<char>, b: Seq<char>, c: Seq<char>)
    requires
        before(a, b),
        before(b, c),
    ensures
        before(a, c),
    decreases a.len(),
{
    if a.len() > 0 && a[0] == b[0] && b[0] == c[0] {
        lemma_before_transitive(a.drop_first(), b.drop_first(), c.drop_first());
    }
}

pub proof fn lemma_before_total(a: Seq<char>, b: Seq<char>)
    ensures
        a == b || before(a, b) || before(b, a),
    decreases a.len(),
{
    if a.len() == 0 || b.len() == 0 {
        if a.len() == 0 && b.len() == 0 {
            assert(a =~= b);
        }
    } else if a[0] == b[0] {
        lemma_before_total(a.drop_first(), b.drop_first());
        if a.drop_first() == b.drop_first() {
            assert(a =~= seq![a[0]] + a.drop_first());
            assert(b =~= seq![b[0]] + b.drop_first());
        }
    }
}

pub fn str_before(a: &str, b: &str) -> (r: bool)
    ensures
        r == before(a@, b@),
{
    let x = to_chars(a);
    let y = to_chars(b);
    let mut i: usize = 0;
    assert(x@.skip(0) =~= x@);
    assert(y@.skip(0) =~= y@);
    loop
        invariant
            i <= x@.len(),
            i <= y@.len(),
            before(x@.skip(i as int), y@.skip(i as int)) == before(a@, b@),
        decreases x@.len() - i,
    {
        if i >= y.len() {
            return false;
        }
        if i >= x.len() {
            return true;
        }
        assert(x@.skip(i as int)[0] == x@[i as int]);
        assert(y@.skip(i as int)[0] == y@[i as int]);
        if x[i] != y[i] {
            return x[i] < y[i];
        }
        assert(x@.skip(i as int).drop_first() =~= x@.skip(i + 1));
        assert(y@.skip(i as int).drop_first() =~= y@.skip(i + 1));
        i = i + 1;
    }
}

// ---- what holds of texts ----

proof fn lemma_trim_start_cut(s: Seq<char>) -> (i: int)
    ensures
        0 <= i <= s.len(),
        trim_start_of(s) == s.skip(i),
        forall|k: int| 0 <= k < i ==> white(#[trigger] s[k]),
        i < s.len() ==> !white(s[i]),
    decreases s.len(),
{
    if s.len() > 0 && white(s[0]) {
        let t = s.drop_first();
        let j = lemma_trim_start_cut(t);
        assert(t.skip(j) =~= s.skip(j + 1));
        assert forall|k: int| 0 <= k < j + 1 implies white(#[trigger] s[k]) by {
            if k > 0 {
                assert(t[k - 1] == s[k]);
            }
        }
        if j + 1 < s.len() {
            assert(t[j] == s[j + 1]);
        }
        j + 1
    } else {
        assert(s.skip(0) =~= s);
        0
    }
}

proof fn lemma_trim_end_cut(s: Seq<char>) -> (j: int)
    ensures
        0 <= j <= s.len(),
        trim_end_of(s) == s.take(j),
        forall|k: int| j <= k < s.len() ==> white(#[trigger] s[k]),
        j > 0 ==> !white(s[j - 1]),
    decreases s.len(),
{
    if s.len() > 0 && white(s.last()) {
        let t = s.drop_last();
        let j = lemma_trim_end_cut(t);
        assert(t.take(j) =~= s.take(j));
        assert forall|k: int| j <= k < s.len() implies white(#[trigger] s[k]) by {
            if k < t.len() {
                assert(t[k] == s[k]);
            }
        }
        if j > 0 {
            assert(t[j - 1] == s[j - 1]);
        }
        j
    } else {
        assert(s.take(s.len() as int) =~= s);
        s.len() as int
    }
}

/// Trimming takes off white space and nothing else, and all there is of it at either
/// end.
pub proof fn trimming_takes_off_the_white_ends(s: Seq<char>)
    ensures
        exists|i: int, j: int|
            0 <= i <= j <= s.len() && trimmed(s) == #[trigger] s.subrange(i, j) && (forall|k: int|
                0 <= k < i || j <= k < s.len() ==> white(#[trigger] s[k])) && (i < j ==> !white(s[i])
                && !white(s[j - 1])),
{
    let i = lemma_trim_start_cut(s);
    let t = s.skip(i);
    let m = lemma_trim_end_cut(t);
    assert(t.take(m) =~= s.subrange(i, i + m));
    assert forall|k: int| 0 <= k < i || i + m <= k < s.len() implies white(#[trigger] s[k]) by {
        if i + m <= k {
            assert(t[k - i] == s[k]);
        }
    }
    if m > 0 {
        assert(t[m - 1] == s[i + m - 1]);
        assert(t[0] == s[i]);
        if i == i + m - 1 {
            assert(!white(s[i]));
        }
    }
}

/// A text that has no white space at either end is left as it is by trimming.
pub proof fn trimmed_text_stays(s: Seq<char>)
    requires
        s.len() > 0 ==> !white(s[0]) && !white(s.last()),
    ensures
        trimmed(s) == s,
{
}

/// The blank, the tab and the ends of a line are white space; what can be seen of
/// plain text is not.
pub proof fn white_space_cannot_be_seen(c: char)
    ensures
        c == ' ' || c == '\t' || c == '\n' || c == '\r' || c == '\u{3000}' ==> white(c),
        '!' <= c <= '~' ==> !white(c),
        '\u{4e00}' <= c <= '\u{9fff}' ==> !white(c),
{
}

/// Splitting a text gives pieces without the separator, which make up the text when
/// they are joined by it.
pub proof fn splitting_can_be_undone(s: Seq<char>, c: char)
    ensures
        split_at_char(s, c).len() >= 1,
        forall|k: int| 0 <= k < split_at_char(s, c).len() ==> !(#[trigger] split_at_char(s, c)[k]).contains(c),
        joined(split_at_char(s, c), seq![c]) == s,
    decreases s.len(),
{
    lemma_index_of_char(s, c);
    let i = index_of_char(s, c);
    let v = split_at_char(s, c);
    if i < s.len() {
        let rest = s.skip(i + 1);
        splitting_can_be_undone(rest, c);
        let w = split_at_char(rest, c);
        assert forall|k: int| 0 <= k < v.len() implies !(#[trigger] v[k]).contains(c) by {
            if k > 0 {
                assert(v[k] == w[k - 1]);
            }
        }
        joining_can_be_done_in_parts(seq![s.take(i)], w, seq![c]);
        assert(s.take(i) + seq![c] + rest =~= s);
    } else {
        assert(v =~= seq![s]);
        if s.contains(c) {
            let k = choose|k: int| 0 <= k < s.len() && s[k] == c;
            assert(s[k] != c);
        }
    }
}

/// Joining two lists of texts is joining each, with the separator between.
pub proof fn joining_can_be_done_in_parts(v: Seq<Seq<char>>, w: Seq<Seq<char>>, sep: Seq<char>)
    requires
        v.len() > 0,
        w.len() > 0,
    ensures
        joined(v + w, sep) == joined(v, sep) + sep + joined(w, sep),
        joined(seq![v[0]], sep) == v[0],
    decreases w.len(),
{
    assert((v + w).drop_last() =~= v + w.drop_last());
    assert((v + w).last() == w.last());
    if w.len() == 1 {
        assert(v + w.drop_last() =~= v);
    } else {
        joining_can_be_done_in_parts(v, w.drop_last(), sep);
        assert(joined(v, sep) + sep + (joined(w.drop_last(), sep) + sep + w.last()) =~= joined(v, sep)
            + sep + joined(w.drop_last(), sep) + sep + w.last());
    }
}

/// Texts without a character, joined by it, are got back by splitting at it.
pub proof fn joining_can_be_undone(v: Seq<Seq<char>>, c: char)
    requires
        v.len() > 0,
        forall|k: int| 0 <= k < v.len() ==> !(#[trigger] v[k]).contains(c),
    ensures
        split_at_char(joined(v, seq![c]), c) == v,
    decreases v.len(),
{
    let a = v[0];
    let s = joined(v, seq![c]);
    assert(!a.contains(c));
    if v.len() == 1 {
        lemma_index_of_char(s, c);
        if index_of_char(s, c) < s.len() {
            assert(a.contains(a[index_of_char(s, c)]));
        }
        assert(split_at_char(s, c) =~= v);
    } else {
        let w = v.skip(1);
        assert(v =~= seq![a] + w);
        joining_can_be_done_in_parts(seq![a], w, seq![c]);
        let rest = joined(w, seq![c]);
        assert(s =~= a + seq![c] + rest);
        assert forall|k: int| 0 <= k < a.len() implies s[k] != c by {
            assert(s[k] == a[k]);
            assert(a.contains(a[k]));
        }
        assert(s[a.len() as int] == c);
        lemma_index_of_char_is(s, c, a.len() as int);
        assert(s.take(a.len() as int) =~= a);
        assert(s.skip(a.len() as int + 1) =~= rest);
        assert forall|k: int| 0 <= k < w.len() implies !(#[trigger] w[k]).contains(c) by {
            assert(w[k] == v[k + 1]);
        }
        joining_can_be_undone(w, c);
        assert(split_at_char(s, c) =~= v);
    }
}

/// No line has the end of a line in it.
pub proof fn lines_are_single(s: Seq<char>)
    ensures
        forall|k: int| 0 <= k < lines_of(s).len() ==> !(#[trigger] lines_of(s)[k]).contains('\n'),
    decreases s.len(),
{
    lemma_index_of_char(s, '\n');
    let i = index_of_char(s, '\n');
    let v = lines_of(s);
    if s.len() > 0 {
        if i < s.len() {
            lines_are_single(s.skip(i + 1));
            assert forall|k: int| 0 <= k < v.len() implies !(#[trigger] v[k]).contains('\n') by {
                if k > 0 {
                    assert(v[k] == lines_of(s.skip(i + 1))[k - 1]);
                } else if v[0].contains('\n') {
                    let j = choose|j: int| 0 <= j < v[0].len() && v[0][j] == '\n';
                    assert(s[j] == '\n');
                }
            }
        } else {
            assert forall|k: int| 0 <= k < v.len() implies !(#[trigger] v[k]).contains('\n') by {
                if v[k].contains('\n') {
                    let j = choose|j: int| 0 <= j < s.len() && s[j] == '\n';
                    assert(s[j] != '\n');
                }
            }
        }
    }
}

/// One line, with its end, before a text is one line more.
proof fn lemma_line_first(a: Seq<char>, end: Seq<char>, rest: Seq<char>)
    requires
        !a.contains('\n'),
        end == seq!['\r', '\n'] || (end == seq!['\n'] && (a.len() > 0 ==> a.last() != '\r')),
    ensures
        lines_of(a + end + rest) == seq![a] + lines_of(rest),
{
    let s = a + end + rest;
    let n = a.len() + end.len() - 1;
    assert forall|k: int| 0 <= k < n implies s[k] != '\n' by {
        if k < a.len() {
            assert(s[k] == a[k]);
            assert(a.contains(a[k]));
        } else {
            assert(s[k] == end[k - a.len()]);
        }
    }
    assert(s[n] == end[end.len() - 1]);
    lemma_index_of_char_is(s, '\n', n);
    assert(s.skip(n + 1) =~= rest);
    if end.len() == 2 {
        assert(s.take(n) =~= a.push('\r'));
        assert(drop_cr(s.take(n)) =~= a);
    } else {
        assert(s.take(n) =~= a);
    }
}

/// Lines that are written one below the other, each with its end, are the lines of the
/// text; and so they are where the last, if it is not empty, lacks its end.
pub proof fn written_lines_are_read_back(v: Seq<Seq<char>>, end: Seq<char>)
    requires
        v.len() > 0,
        end == seq!['\r', '\n'] || end == seq!['\n'],
        forall|k: int| 0 <= k < v.len() ==> !(#[trigger] v[k]).contains('\n'),
        end.len() == 1 ==> forall|k: int| 0 <= k < v.len() && (#[trigger] v[k]).len() > 0 ==> v[k].last() != '\r',
    ensures
        lines_of(joined(v, end) + end) == v,
        v.last().len() > 0 ==> lines_of(joined(v, end)) == v,
    decreases v.len(),
{
    let a = v[0];
    assert(!a.contains('\n'));
    if v.len() == 1 {
        assert(v =~= seq![a]);
        lemma_line_first(a, end, Seq::empty());
        assert(a + end + Seq::<char>::empty() =~= a + end);
        assert(lines_of(Seq::<char>::empty()) =~= Seq::empty());
        assert(lines_of(a + end) =~= v);
        if a.len() > 0 {
            lemma_index_of_char(a, '\n');
            if index_of_char(a, '\n') < a.len() {
                assert(a.contains(a[index_of_char(a, '\n')]));
            }
            assert(lines_of(a) =~= v);
        }
    } else {
        let w = v.skip(1);
        assert(v =~= seq![a] + w);
        assert forall|k: int| 0 <= k < w.len() implies !(#[trigger] w[k]).contains('\n') && (end.len()
            == 1 && w[k].len() > 0 ==> w[k].last() != '\r') by {
            assert(w[k] == v[k + 1]);
        }
        written_lines_are_read_back(w, end);
        joining_can_be_done_in_parts(seq![a], w, end);
        let rest = joined(w, end);
        lemma_line_first(a, end, rest + end);
        assert(joined(v, end) + end =~= a + end + (rest + end));
        assert(lines_of(joined(v, end) + end) =~= v);
        lemma_line_first(a, end, rest);
        assert(w.last() == v.last());
        if v.last().len() > 0 {
            assert(lines_of(joined(v, end)) =~= v);
        }
    }
}

/// A text stands in another where it stands between two parts of it, and only there.
pub proof fn standing_in_is_standing_between(s: Seq<char>, p: Seq<char>)
    ensures
        contains_text(s, p) <==> exists|a: Seq<char>, b: Seq<char>| s == #[trigger] (a + p + b),
{
    if contains_text(s, p) {
        let i = choose|i: int| stands_at(s, p, i);
        let a = s.take(i);
        let b = s.skip(i + p.len());
        assert(s =~= a + p + b);
    }
    if exists|a: Seq<char>, b: Seq<char>| s == #[trigger] (a + p + b) {
        let (a, b) = choose|a: Seq<char>, b: Seq<char>| s == #[trigger] (a + p + b);
        assert(s.subrange(a.len() as int, a.len() as int + p.len()) =~= p);
        assert(stands_at(s, p, a.len() as int));
    }
}

/// What a number is written as reads as that number.
pub proof fn decimals_are_read_back(n: nat)
    requires
        n <= usize::MAX,
    ensures
        number_in(decimal(n)) == Some(n),
{
    lemma_decimal(n);
    lemma_decimal_value(n);
    let d = decimal(n);
    assert('0' <= d[0] <= '9');
    assert forall|k: int| 0 <= k < d.len() implies is_digit(#[trigger] d[k]) by {}
}

proof fn lemma_decimal_value(n: nat)
    ensures
        digits_value(decimal(n)) == n,
    decreases n,
{
    if n < 10 {
        assert(digit(n) as u32 == 48 + n);
        assert(decimal(n).drop_last() =~= Seq::<char>::empty());
        assert(digits_value(decimal(n).drop_last()) == 0);
    } else {
        lemma_decimal_value(n / 10);
        assert(decimal(n).drop_last() =~= decimal(n / 10));
        assert(digit(n % 10) as u32 == 48 + n % 10);
    }
}

/// Whether two characters are the same, or the same letter in the two cases.
pub open spec fn same_letter(a: char, b: char) -> bool {
    a == b || ('a' <= a <= 'z' && b as int + 32 == a as int) || ('a' <= b <= 'z' && a as int + 32
        == b as int)
}

proof fn lemma_same_letter(a: char, b: char)
    ensures
        lower_ascii(a) == lower_ascii(b) <==> same_letter(a, b),
{
}

/// Letters of either case count as one where case is ignored, and nothing else does.
pub proof fn case_is_all_that_is_ignored(a: Seq<char>, b: Seq<char>)
    ensures
        same_ignoring_case(a, b) <==> a.len() == b.len() && forall|k: int|
            0 <= k < a.len() ==> #[trigger] same_letter(a[k], b[k]),
{
    let x = lowered_ascii(a);
    let y = lowered_ascii(b);
    assert(x.len() == a.len() && y.len() == b.len());
    if same_ignoring_case(a, b) {
        assert forall|k: int| 0 <= k < a.len() implies #[trigger] same_letter(a[k], b[k]) by {
            assert(x[k] == y[k]);
            lemma_same_letter(a[k], b[k]);
        }
    }
    if a.len() == b.len() && forall|k: int| 0 <= k < a.len() ==> #[trigger] same_letter(a[k], b[k]) {
        assert forall|k: int| 0 <= k < a.len() implies x[k] == y[k] by {
            assert(same_letter(a[k], b[k]));
            lemma_same_letter(a[k], b[k]);
        }
        assert(x =~= y);
    }
}

proof fn lemma_word(s: Seq<char>)
    ensures
        0 <= word_len(s) <= s.len(),
        forall|k: int| 0 <= k < word_len(s) ==> !white(#[trigger] s[k]),
        word_len(s) < s.len() ==> white(s[word_len(s)]),
    decreases s.len(),
{
    if s.len() > 0 && !white(s[0]) {
        let t = s.drop_first();
        lemma_word(t);
        assert forall|k: int| 0 <= k < word_len(s) implies !white(#[trigger] s[k]) by {
            if k > 0 {
                assert(t[k - 1] == s[k]);
            }
        }
        if word_len(s) < s.len() {
            assert(t[word_len(t)] == s[word_len(s)]);
        }
    }
}

/// Words are not empty and have no white space in them.
pub proof fn words_have_no_white_space(s: Seq<char>)
    ensures
        forall|k: int|
            0 <= k < words_of(s).len() ==> (#[trigger] words_of(s)[k]).len() > 0 && forall|j: int|
                0 <= j < words_of(s)[k].len() ==> !white(#[trigger] words_of(s)[k][j]),
    decreases s.len(),
{
    let t = trim_start_of(s);
    lemma_trim_start(s);
    if t.len() > 0 {
        lemma_word(t);
        let i = word_len(t);
        assert(i >= 1);
        words_have_no_white_space(t.skip(i));
        let v = words_of(s);
        let w = words_of(t.skip(i));
        assert forall|k: int| 0 <= k < v.len() implies (#[trigger] v[k]).len() > 0 && forall|j: int|
            0 <= j < v[k].len() ==> !white(#[trigger] v[k][j]) by {
            if k > 0 {
                assert(v[k] == w[k - 1]);
            } else {
                assert(v[0] == t.take(i));
                assert forall|j: int| 0 <= j < v[0].len() implies !white(#[trigger] v[0][j]) by {
                    assert(v[0][j] == t[j]);
                }
            }
        }
    }
}

/// The words of two texts with white space between them are the words of the one and
/// then those of the other; a text without white space is a word.
pub proof fn words_stand_apart(a: Seq<char>, b: Seq<char>)
    requires
        a.len() > 0,
        forall|k: int| 0 <= k < a.len() ==> !white(#[trigger] a[k]),
        b.len() > 0 ==> white(b[0]),
    ensures
        words_of(a + b) == seq![a] + words_of(b),
{
    let s = a + b;
    assert(s[0] == a[0]);
    assert(trim_start_of(s) == s);
    lemma_word(s);
    let i = word_len(s);
    if i < a.len() {
        assert(s[i] == a[i]);
    }
    if i > a.len() {
        assert(s[a.len() as int] == b[0]);
    }
    assert(s.take(i) =~= a);
    assert(s.skip(i) =~= b);
}

} // verus!
