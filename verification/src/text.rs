//! Character-level text handling: the models of the `str` operations that the
//! parsers rely on (trimming, splitting, searching, replacing, number parsing
//! and printing), each with an executable version proved against its model.
use vstd::prelude::*;

verus! {

/// The characters with the Unicode `White_Space` property, which is what
/// `char::is_whitespace` and therefore `str::trim` go by.
pub open spec fn is_space(c: char) -> bool {
    ||| c == '\t'
    ||| c == '\n'
    ||| c == '\u{0B}'
    ||| c == '\u{0C}'
    ||| c == '\r'
    ||| c == ' '
    ||| c == '\u{85}'
    ||| c == '\u{A0}'
    ||| c == '\u{1680}'
    ||| ('\u{2000}' <= c && c <= '\u{200A}')
    ||| c == '\u{2028}'
    ||| c == '\u{2029}'
    ||| c == '\u{202F}'
    ||| c == '\u{205F}'
    ||| c == '\u{3000}'
}

pub fn char_is_space(c: char) -> (b: bool)
    ensures
        b == is_space(c),
{
    c == '\t' || c == '\n' || c == '\u{0B}' || c == '\u{0C}' || c == '\r' || c == ' ' || c
        == '\u{85}' || c == '\u{A0}' || c == '\u{1680}' || ('\u{2000}' <= c && c <= '\u{200A}')
        || c == '\u{2028}' || c == '\u{2029}' || c == '\u{202F}' || c == '\u{205F}' || c
        == '\u{3000}'
}

/// A class of characters: white space, or an explicit set.
pub enum Class {
    Space,
    AnyOf(Seq<char>),
}

impl Class {
    pub open spec fn has(self, c: char) -> bool {
        match self {
            Class::Space => is_space(c),
            Class::AnyOf(set) => set.contains(c),
        }
    }
}

/// The executable form of a character class.
pub struct CharSet {
    pub space: bool,
    pub chars: Vec<char>,
}

impl View for CharSet {
    type V = Class;

    open spec fn view(&self) -> Class {
        if self.space {
            Class::Space
        } else {
            Class::AnyOf(self.chars@)
        }
    }
}

impl CharSet {
    pub fn space() -> (r: CharSet)
        ensures
            r@ == Class::Space,
    {
        CharSet { space: true, chars: Vec::new() }
    }

    pub fn any_of(chars: Vec<char>) -> (r: CharSet)
        ensures
            r@ == Class::AnyOf(chars@),
    {
        CharSet { space: false, chars }
    }

    pub fn has(&self, c: char) -> (b: bool)
        ensures
            b == self@.has(c),
    {
        if self.space {
            return char_is_space(c);
        }
        let mut i: usize = 0;
        while i < self.chars.len()
            invariant
                !self.space,
                i <= self.chars.len(),
                forall|j: int| 0 <= j < i ==> self.chars@[j] != c,
            decreases self.chars.len() - i,
        {
            if self.chars[i] == c {
                return true;
            }
            i = i + 1;
        }
        false
    }
}

/// The character sequences of a list of vectors.
pub open spec fn views(v: Seq<Vec<char>>) -> Seq<Seq<char>> {
    v.map_values(|x: Vec<char>| x@)
}

// ---------------------------------------------------------------- trimming

/// `trim_start_matches` with a character class.
pub open spec fn trim_start(s: Seq<char>, k: Class) -> Seq<char>
    decreases s.len(),
{
    if s.len() > 0 && k.has(s[0]) {
        trim_start(s.drop_first(), k)
    } else {
        s
    }
}

/// `trim_end_matches` with a character class.
pub open spec fn trim_end(s: Seq<char>, k: Class) -> Seq<char>
    decreases s.len(),
{
    if s.len() > 0 && k.has(s.last()) {
        trim_end(s.drop_last(), k)
    } else {
        s
    }
}

/// `trim_matches` with a character class.
pub open spec fn trim_both(s: Seq<char>, k: Class) -> Seq<char> {
    trim_end(trim_start(s, k), k)
}

/// `str::trim`.
pub open spec fn trim(s: Seq<char>) -> Seq<char> {
    trim_both(s, Class::Space)
}

proof fn lemma_trim_start_at(s: Seq<char>, k: Class, i: int)
    requires
        0 <= i <= s.len(),
        forall|j: int| 0 <= j < i ==> k.has(#[trigger] s[j]),
        i == s.len() || !k.has(s[i]),
    ensures
        trim_start(s, k) == s.skip(i),
    decreases i,
{
    if i > 0 {
        let t = s.drop_first();
        assert forall|j: int| 0 <= j < i - 1 implies k.has(#[trigger] t[j]) by {
            assert(t[j] == s[j + 1]);
        }
        if i - 1 < t.len() {
            assert(t[i - 1] == s[i]);
        }
        lemma_trim_start_at(t, k, i - 1);
        assert(t.skip(i - 1) =~= s.skip(i));
    } else {
        assert(s.skip(0) =~= s);
    }
}

proof fn lemma_trim_end_at(s: Seq<char>, k: Class, i: int)
    requires
        0 <= i <= s.len(),
        forall|j: int| i <= j < s.len() ==> k.has(#[trigger] s[j]),
        i == 0 || !k.has(s[i - 1]),
    ensures
        trim_end(s, k) == s.take(i),
    decreases s.len() - i,
{
    if i < s.len() {
        let t = s.drop_last();
        assert forall|j: int| i <= j < t.len() implies k.has(#[trigger] t[j]) by {
            assert(t[j] == s[j]);
        }
        if i > 0 {
            assert(t[i - 1] == s[i - 1]);
        }
        assert(k.has(s[s.len() - 1]));
        lemma_trim_end_at(t, k, i);
        assert(t.take(i) =~= s.take(i));
    } else {
        assert(s.take(i) =~= s);
    }
}

/// What `trim_end` leaves is a prefix of its input.
pub proof fn lemma_trim_end_prefix(s: Seq<char>, k: Class)
    ensures
        trim_end(s, k).len() <= s.len(),
        trim_end(s, k) == s.take(trim_end(s, k).len() as int),
    decreases s.len(),
{
    if s.len() > 0 && k.has(s.last()) {
        lemma_trim_end_prefix(s.drop_last(), k);
        assert(s.drop_last().take(trim_end(s, k).len() as int) =~= s.take(
            trim_end(s, k).len() as int,
        ));
    } else {
        assert(s.take(s.len() as int) =~= s);
    }
}

/// What `trim_start` leaves is a suffix of its input.
pub proof fn lemma_trim_start_suffix(s: Seq<char>, k: Class)
    ensures
        trim_start(s, k).len() <= s.len(),
        trim_start(s, k) == s.skip(s.len() - trim_start(s, k).len()),
    decreases s.len(),
{
    if s.len() > 0 && k.has(s[0]) {
        lemma_trim_start_suffix(s.drop_first(), k);
        assert(s.drop_first().skip(s.len() - 1 - trim_start(s, k).len()) =~= s.skip(
            s.len() - trim_start(s, k).len(),
        ));
    } else {
        assert(s.skip(0) =~= s);
    }
}

/// What `trim_end` leaves does not end with a character of the class.
pub proof fn lemma_trim_end_last(s: Seq<char>, k: Class)
    ensures
        trim_end(s, k).len() > 0 ==> !k.has(trim_end(s, k).last()),
    decreases s.len(),
{
    if s.len() > 0 && k.has(s.last()) {
        lemma_trim_end_last(s.drop_last(), k);
    }
}

/// What `trim_start` leaves does not start with a character of the class.
pub proof fn lemma_trim_start_first(s: Seq<char>, k: Class)
    ensures
        trim_start(s, k).len() > 0 ==> !k.has(trim_start(s, k)[0]),
    decreases s.len(),
{
    if s.len() > 0 && k.has(s[0]) {
        lemma_trim_start_first(s.drop_first(), k);
    }
}

/// A copy of `s[lo..hi]`.
pub fn copy_range(s: &Vec<char>, lo: usize, hi: usize) -> (r: Vec<char>)
    requires
        lo <= hi <= s.len(),
    ensures
        r@ == s@.subrange(lo as int, hi as int),
{
    let mut r: Vec<char> = Vec::new();
    let mut i = lo;
    while i < hi
        invariant
            lo <= i <= hi <= s.len(),
            r@ == s@.subrange(lo as int, i as int),
        decreases hi - i,
    {
        r.push(s[i]);
        i = i + 1;
        assert(r@ =~= s@.subrange(lo as int, i as int));
    }
    r
}

/// The index at which `trim_start` stops.
pub fn trim_start_index(s: &Vec<char>, k: &CharSet) -> (i: usize)
    ensures
        i <= s.len(),
        trim_start(s@, k@) == s@.skip(i as int),
{
    let mut i: usize = 0;
    while i < s.len() && k.has(s[i])
        invariant
            i <= s.len(),
            forall|j: int| 0 <= j < i ==> k@.has(#[trigger] s@[j]),
        decreases s.len() - i,
    {
        i = i + 1;
    }
    proof {
        lemma_trim_start_at(s@, k@, i as int);
    }
    i
}

/// The index at which `trim_end` stops.
pub fn trim_end_index(s: &Vec<char>, k: &CharSet) -> (i: usize)
    ensures
        i <= s.len(),
        trim_end(s@, k@) == s@.take(i as int),
{
    let mut i: usize = s.len();
    while i > 0 && k.has(s[i - 1])
        invariant
            i <= s.len(),
            forall|j: int| i <= j < s.len() ==> k@.has(#[trigger] s@[j]),
        decreases i,
    {
        i = i - 1;
    }
    proof {
        lemma_trim_end_at(s@, k@, i as int);
    }
    i
}

pub fn trim_start_v(s: &Vec<char>, k: &CharSet) -> (r: Vec<char>)
    ensures
        r@ == trim_start(s@, k@),
{
    let i = trim_start_index(s, k);
    let r = copy_range(s, i, s.len());
    assert(r@ =~= s@.skip(i as int));
    r
}

pub fn trim_end_v(s: &Vec<char>, k: &CharSet) -> (r: Vec<char>)
    ensures
        r@ == trim_end(s@, k@),
{
    let i = trim_end_index(s, k);
    let r = copy_range(s, 0, i);
    assert(r@ =~= s@.take(i as int));
    r
}

pub fn trim_both_v(s: &Vec<char>, k: &CharSet) -> (r: Vec<char>)
    ensures
        r@ == trim_both(s@, k@),
{
    let t = trim_start_v(s, k);
    trim_end_v(&t, k)
}

pub fn trim_v(s: &Vec<char>) -> (r: Vec<char>)
    ensures
        r@ == trim(s@),
{
    let k = CharSet::space();
    trim_both_v(s, &k)
}


// --------------------------------------------------------------- splitting

/// `str::split` with a character class: the pieces between separators,
/// one more piece than there are separators.
pub open spec fn split(s: Seq<char>, k: Class) -> Seq<Seq<char>>
    decreases s.len(),
{
    if s.len() == 0 {
        seq![Seq::<char>::empty()]
    } else {
        let r = split(s.drop_last(), k);
        if k.has(s.last()) {
            r.push(Seq::<char>::empty())
        } else {
            r.update(r.len() - 1, r.last().push(s.last()))
        }
    }
}

pub proof fn lemma_split_nonempty(s: Seq<char>, k: Class)
    ensures
        split(s, k).len() >= 1,
    decreases s.len(),
{
    if s.len() > 0 {
        lemma_split_nonempty(s.drop_last(), k);
    }
}

/// Text without separators lengthens the last piece.
pub proof fn lemma_split_append_plain(a: Seq<char>, b: Seq<char>, k: Class)
    requires
        forall|i: int| 0 <= i < b.len() ==> !k.has(#[trigger] b[i]),
    ensures
        split(a + b, k) == split(a, k).update(
            split(a, k).len() - 1,
            split(a, k).last() + b,
        ),
    decreases b.len(),
{
    lemma_split_nonempty(a, k);
    let sa = split(a, k);
    if b.len() == 0 {
        assert(a + b =~= a);
        assert(sa.last() + b =~= sa.last());
        assert(sa.update(sa.len() - 1, sa.last() + b) =~= sa);
    } else {
        let bl = b.drop_last();
        assert forall|i: int| 0 <= i < bl.len() implies !k.has(#[trigger] bl[i]) by {
            assert(bl[i] == b[i]);
        }
        lemma_split_append_plain(a, bl, k);
        assert((a + b).drop_last() =~= a + bl);
        assert((a + b).last() == b.last());
        assert(!k.has(b[b.len() - 1]));
        let r = split(a + bl, k);
        assert(r.len() == sa.len());
        assert(r.last() == sa.last() + bl);
        assert((sa.last() + bl).push(b.last()) =~= sa.last() + b);
        assert(r.update(r.len() - 1, r.last().push(b.last())) =~= sa.update(
            sa.len() - 1,
            sa.last() + b,
        ));
    }
}

pub fn split_v(s: &Vec<char>, k: &CharSet) -> (r: Vec<Vec<char>>)
    ensures
        views(r@) == split(s@, k@),
{
    let mut out: Vec<Vec<char>> = Vec::new();
    let mut cur: Vec<char> = Vec::new();
    let mut i: usize = 0;
    assert(s@.take(0) =~= Seq::<char>::empty());
    assert(views(out@).push(cur@) =~= split(s@.take(0), k@));
    while i < s.len()
        invariant
            i <= s.len(),
            views(out@).push(cur@) == split(s@.take(i as int), k@),
        decreases s.len() - i,
    {
        let c = s[i];
        let ghost prev = s@.take(i as int);
        assert(s@.take(i + 1).drop_last() =~= prev);
        assert(s@.take(i + 1).last() == c);
        proof {
            lemma_split_nonempty(prev, k@);
        }
        if k.has(c) {
            let done = cur;
            out.push(done);
            cur = Vec::new();
            assert(views(out@).push(cur@) =~= split(prev, k@).push(Seq::<char>::empty()));
        } else {
            cur.push(c);
            let ghost sp = split(prev, k@);
            assert(views(out@).push(cur@) =~= sp.update(sp.len() - 1, sp.last().push(c)));
        }
        i = i + 1;
    }
    assert(s@.take(s.len() as int) =~= s@);
    out.push(cur);
    assert(views(out@) =~= split(s@, k@));
    out
}

/// `str::lines`: split at `\n`; a line that a `\n` ended loses one `\r`
/// before it; a final line ending adds no empty line.
pub open spec fn strip_cr(l: Seq<char>) -> Seq<char> {
    if l.len() > 0 && l.last() == '\r' {
        l.drop_last()
    } else {
        l
    }
}

pub open spec fn lines(s: Seq<char>) -> Seq<Seq<char>> {
    let p = split(s, Class::AnyOf(seq!['\n']));
    let ended = p.drop_last().map_values(|l: Seq<char>| strip_cr(l));
    if s.len() == 0 || s.last() == '\n' {
        ended
    } else {
        ended.push(p.last())
    }
}

/// Each line of `s`, trimmed.
pub open spec fn trimmed_lines(s: Seq<char>) -> Seq<Seq<char>> {
    lines(s).map_values(|l: Seq<char>| trim(l))
}

pub fn strip_cr_v(l: Vec<char>) -> (r: Vec<char>)
    ensures
        r@ == strip_cr(l@),
{
    let ghost l0 = l@;
    let mut l = l;
    if l.len() > 0 && l[l.len() - 1] == '\r' {
        l.pop();
        assert(l@ =~= strip_cr(l0));
    }
    l
}

pub fn lines_v(s: &Vec<char>) -> (r: Vec<Vec<char>>)
    ensures
        views(r@) == lines(s@),
{
    let nl = CharSet::any_of(vec!['\n']);
    assert(nl.chars@ =~= seq!['\n']);
    let pieces = split_v(s, &nl);
    let ghost p = split(s@, Class::AnyOf(seq!['\n']));
    proof {
        lemma_split_nonempty(s@, nl@);
    }
    let n = pieces.len();
    let mut out: Vec<Vec<char>> = Vec::new();
    let mut i: usize = 0;
    while i + 1 < n
        invariant
            n == pieces.len(),
            n >= 1,
            views(pieces@) == p,
            i + 1 <= n,
            out@.len() == i,
            forall|j: int| 0 <= j < i ==> #[trigger] out@[j]@ == strip_cr(p[j]),
        decreases n - i,
    {
        let l = strip_cr_v(pieces[i].clone());
        assert(p[i as int] == pieces@[i as int]@);
        out.push(l);
        i = i + 1;
    }
    let ghost ended = p.drop_last().map_values(|l: Seq<char>| strip_cr(l));
    assert(views(out@) =~= ended);
    if !(s.len() == 0 || s[s.len() - 1] == '\n') {
        out.push(pieces[n - 1].clone());
        assert(views(out@) =~= ended.push(p.last()));
    }
    out
}

pub fn trimmed_lines_v(s: &Vec<char>) -> (r: Vec<Vec<char>>)
    ensures
        views(r@) == trimmed_lines(s@),
{
    let ls = lines_v(s);
    let mut out: Vec<Vec<char>> = Vec::new();
    let mut i: usize = 0;
    while i < ls.len()
        invariant
            i <= ls.len(),
            views(ls@) == lines(s@),
            out@.len() == i,
            forall|j: int| 0 <= j < i ==> #[trigger] out@[j]@ == trim(lines(s@)[j]),
        decreases ls.len() - i,
    {
        let t = trim_v(&ls[i]);
        assert(lines(s@)[i as int] == ls@[i as int]@);
        out.push(t);
        i = i + 1;
    }
    assert(views(out@) =~= trimmed_lines(s@));
    out
}

// --------------------------------------------------------------- searching

pub open spec fn matches_at(s: Seq<char>, p: Seq<char>, i: int) -> bool {
    0 <= i && i + p.len() <= s.len() && s.subrange(i, i + p.len()) == p
}

pub open spec fn find_from(s: Seq<char>, p: Seq<char>, i: int) -> Option<int>
    decreases s.len() + 1 - i,
{
    if i < 0 || i + p.len() > s.len() {
        None
    } else if matches_at(s, p, i) {
        Some(i)
    } else {
        find_from(s, p, i + 1)
    }
}

/// `str::find`: the first position at which `p` occurs.
pub open spec fn find(s: Seq<char>, p: Seq<char>) -> Option<int> {
    find_from(s, p, 0)
}

/// `str::contains`.
pub open spec fn contains(s: Seq<char>, p: Seq<char>) -> bool {
    find(s, p) is Some
}

/// `str::starts_with`.
pub open spec fn starts_with(s: Seq<char>, p: Seq<char>) -> bool {
    matches_at(s, p, 0)
}

/// `str::ends_with`.
pub open spec fn ends_with(s: Seq<char>, p: Seq<char>) -> bool {
    matches_at(s, p, s.len() - p.len())
}

proof fn lemma_find_from(s: Seq<char>, p: Seq<char>, i: int)
    requires
        0 <= i,
    ensures
        match find_from(s, p, i) {
            Some(j) => i <= j && matches_at(s, p, j) && forall|m: int|
                i <= m < j ==> !#[trigger] matches_at(s, p, m),
            None => forall|m: int| i <= m ==> !#[trigger] matches_at(s, p, m),
        },
    decreases s.len() + 1 - i,
{
    if i + p.len() > s.len() {
    } else if matches_at(s, p, i) {
    } else {
        lemma_find_from(s, p, i + 1);
    }
}

/// What `find` means: the least position of a match, or no match at all.
pub proof fn lemma_find(s: Seq<char>, p: Seq<char>)
    ensures
        match find(s, p) {
            Some(j) => 0 <= j && j + p.len() <= s.len() && matches_at(s, p, j) && forall|m: int|
                0 <= m < j ==> !#[trigger] matches_at(s, p, m),
            None => forall|m: int| !#[trigger] matches_at(s, p, m),
        },
{
    lemma_find_from(s, p, 0);
}

pub fn matches_at_v(s: &Vec<char>, p: &Vec<char>, i: usize) -> (b: bool)
    ensures
        b == matches_at(s@, p@, i as int),
{
    if i > s.len() || p.len() > s.len() - i {
        return false;
    }
    let mut j: usize = 0;
    while j < p.len()
        invariant
            i + p.len() <= s.len(),
            j <= p.len(),
            forall|m: int| 0 <= m < j ==> s@[i + m] == p@[m],
        decreases p.len() - j,
    {
        if s[i + j] != p[j] {
            assert(s@.subrange(i as int, i + p.len())[j as int] != p@[j as int]);
            return false;
        }
        j = j + 1;
    }
    assert(s@.subrange(i as int, i + p.len()) =~= p@);
    true
}

pub fn find_v(s: &Vec<char>, p: &Vec<char>) -> (r: Option<usize>)
    ensures
        r matches Some(i) ==> find(s@, p@) == Some(i as int),
        r is None ==> find(s@, p@) is None,
{
    if p.len() > s.len() {
        return None;
    }
    let last = s.len() - p.len();
    let mut i: usize = 0;
    while i < last
        invariant
            last == s.len() - p.len(),
            i <= last,
            find(s@, p@) == find_from(s@, p@, i as int),
        decreases last - i,
    {
        if matches_at_v(s, p, i) {
            return Some(i);
        }
        i = i + 1;
    }
    if matches_at_v(s, p, i) {
        Some(i)
    } else {
        assert(find_from(s@, p@, i + 1) is None);
        None
    }
}

pub open spec fn rfind_from(s: Seq<char>, p: Seq<char>, i: int) -> Option<int>
    decreases i + 1,
{
    if i < 0 {
        None
    } else if matches_at(s, p, i) {
        Some(i)
    } else {
        rfind_from(s, p, i - 1)
    }
}

/// `str::rfind`: the last position at which `p` occurs.
pub open spec fn rfind(s: Seq<char>, p: Seq<char>) -> Option<int> {
    rfind_from(s, p, s.len() - p.len())
}

pub fn rfind_v(s: &Vec<char>, p: &Vec<char>) -> (r: Option<usize>)
    ensures
        r matches Some(i) ==> rfind(s@, p@) == Some(i as int),
        r is None ==> rfind(s@, p@) is None,
{
    if p.len() > s.len() {
        return None;
    }
    let mut i: usize = s.len() - p.len();
    while i > 0
        invariant
            i <= s.len() - p.len(),
            rfind(s@, p@) == rfind_from(s@, p@, i as int),
        decreases i,
    {
        if matches_at_v(s, p, i) {
            return Some(i);
        }
        i = i - 1;
    }
    if matches_at_v(s, p, 0) {
        Some(0)
    } else {
        assert(rfind_from(s@, p@, -1) is None);
        None
    }
}

pub fn starts_with_v(s: &Vec<char>, p: &Vec<char>) -> (b: bool)
    ensures
        b == starts_with(s@, p@),
{
    matches_at_v(s, p, 0)
}

pub fn ends_with_v(s: &Vec<char>, p: &Vec<char>) -> (b: bool)
    ensures
        b == ends_with(s@, p@),
{
    if p.len() > s.len() {
        false
    } else {
        matches_at_v(s, p, s.len() - p.len())
    }
}

pub fn contains_v(s: &Vec<char>, p: &Vec<char>) -> (b: bool)
    ensures
        b == contains(s@, p@),
{
    find_v(s, p).is_some()
}

/// `str::find` with a single character.
pub fn find_char_v(s: &Vec<char>, c: char) -> (r: Option<usize>)
    ensures
        r matches Some(i) ==> find(s@, seq![c]) == Some(i as int),
        r is None ==> find(s@, seq![c]) is None,
{
    let p = vec![c];
    assert(p@ =~= seq![c]);
    find_v(s, &p)
}

// ------------------------------------------------- prefixes and suffixes

/// `trim_start_matches` with a string pattern: every leading copy of `p` goes.
pub open spec fn trim_start_str(s: Seq<char>, p: Seq<char>) -> Seq<char>
    decreases s.len(),
{
    if p.len() > 0 && starts_with(s, p) {
        trim_start_str(s.skip(p.len() as int), p)
    } else {
        s
    }
}

/// `trim_end_matches` with a string pattern: every trailing copy of `p` goes.
pub open spec fn trim_end_str(s: Seq<char>, p: Seq<char>) -> Seq<char>
    decreases s.len(),
{
    if p.len() > 0 && ends_with(s, p) {
        trim_end_str(s.take(s.len() - p.len()), p)
    } else {
        s
    }
}

pub fn trim_start_str_v(s: &Vec<char>, p: &Vec<char>) -> (r: Vec<char>)
    ensures
        r@ == trim_start_str(s@, p@),
{
    let mut cur = copy_range(s, 0, s.len());
    assert(cur@ =~= s@);
    while p.len() > 0 && starts_with_v(&cur, p)
        invariant
            trim_start_str(cur@, p@) == trim_start_str(s@, p@),
        decreases cur.len(),
    {
        let next = copy_range(&cur, p.len(), cur.len());
        assert(next@ =~= cur@.skip(p.len() as int));
        cur = next;
    }
    cur
}

pub fn trim_end_str_v(s: &Vec<char>, p: &Vec<char>) -> (r: Vec<char>)
    ensures
        r@ == trim_end_str(s@, p@),
{
    let mut cur = copy_range(s, 0, s.len());
    assert(cur@ =~= s@);
    while p.len() > 0 && ends_with_v(&cur, p)
        invariant
            trim_end_str(cur@, p@) == trim_end_str(s@, p@),
        decreases cur.len(),
    {
        let next = copy_range(&cur, 0, cur.len() - p.len());
        assert(next@ =~= cur@.take(cur.len() - p.len()));
        cur = next;
    }
    cur
}

// --------------------------------------------------------------- replacing

/// `str::replace` for a non-empty pattern: every occurrence, scanning from
/// the left and without overlaps, becomes `to`.
pub open spec fn replace(s: Seq<char>, from: Seq<char>, to: Seq<char>) -> Seq<char>
    decreases s.len(),
{
    if s.len() == 0 {
        Seq::<char>::empty()
    } else if from.len() > 0 && starts_with(s, from) {
        to + replace(s.skip(from.len() as int), from, to)
    } else {
        seq![s[0]] + replace(s.drop_first(), from, to)
    }
}

pub fn append_chars(out: &mut Vec<char>, t: &Vec<char>)
    ensures
        final(out)@ == old(out)@ + t@,
{
    let mut j: usize = 0;
    while j < t.len()
        invariant
            j <= t.len(),
            out@ == old(out)@ + t@.take(j as int),
        decreases t.len() - j,
    {
        out.push(t[j]);
        j = j + 1;
        assert(out@ =~= old(out)@ + t@.take(j as int));
    }
    assert(t@.take(t.len() as int) =~= t@);
}

pub fn replace_v(s: &Vec<char>, from: &Vec<char>, to: &Vec<char>) -> (r: Vec<char>)
    requires
        from.len() > 0,
    ensures
        r@ == replace(s@, from@, to@),
{
    let mut out: Vec<char> = Vec::new();
    let mut i: usize = 0;
    assert(s@.skip(0) =~= s@);
    while i < s.len()
        invariant
            i <= s.len(),
            from.len() > 0,
            out@ + replace(s@.skip(i as int), from@, to@) == replace(s@, from@, to@),
        decreases s.len() - i,
    {
        let ghost rest = s@.skip(i as int);
        if matches_at_v(s, from, i) {
            assert(rest.subrange(0, from.len() as int) =~= s@.subrange(i as int, i + from.len()));
            assert(starts_with(rest, from@));
            assert(rest.skip(from.len() as int) =~= s@.skip(i + from.len()));
            append_chars(&mut out, to);
            i = i + from.len();
            assert(out@ + replace(s@.skip(i as int), from@, to@) =~= replace(
                s@,
                from@,
                to@,
            ));
        } else {
            if from.len() <= s.len() - i {
                assert(rest.subrange(0, from.len() as int) =~= s@.subrange(
                    i as int,
                    i + from.len(),
                ));
            }
            assert(!starts_with(rest, from@));
            assert(rest.drop_first() =~= s@.skip(i + 1));
            out.push(s[i]);
            i = i + 1;
            assert(out@ + replace(s@.skip(i as int), from@, to@) =~= replace(
                s@,
                from@,
                to@,
            ));
        }
    }
    assert(replace(s@.skip(i as int), from@, to@) =~= Seq::<char>::empty());
    assert(out@ =~= replace(s@, from@, to@));
    out
}


// ------------------------------------------------------------------ numbers

pub open spec fn is_digit(c: char) -> bool {
    '0' <= c && c <= '9'
}

pub open spec fn digit_value(c: char) -> int {
    c as int - '0' as int
}

pub open spec fn all_digits(d: Seq<char>) -> bool {
    forall|i: int| 0 <= i < d.len() ==> is_digit(#[trigger] d[i])
}

/// The number that a string of decimal digits spells.
pub open spec fn digits_value(d: Seq<char>) -> int
    decreases d.len(),
{
    if d.len() == 0 {
        0
    } else {
        10 * digits_value(d.drop_last()) + digit_value(d.last())
    }
}

/// `<u32 as FromStr>::from_str`: an optional `+`, then one or more ASCII
/// digits whose value fits in a `u32`.
pub open spec fn parse_u32(s: Seq<char>) -> Option<u32> {
    let d = if s.len() > 0 && s[0] == '+' {
        s.drop_first()
    } else {
        s
    };
    if d.len() > 0 && all_digits(d) && digits_value(d) <= u32::MAX {
        Some(digits_value(d) as u32)
    } else {
        None
    }
}

proof fn lemma_digits_value_nonneg(d: Seq<char>)
    requires
        all_digits(d),
    ensures
        digits_value(d) >= 0,
    decreases d.len(),
{
    if d.len() > 0 {
        assert(is_digit(d[d.len() - 1]));
        assert(all_digits(d.drop_last())) by {
            assert forall|i: int| 0 <= i < d.drop_last().len() implies is_digit(
                #[trigger] d.drop_last()[i],
            ) by {
                assert(d.drop_last()[i] == d[i]);
            }
        }
        lemma_digits_value_nonneg(d.drop_last());
    }
}

proof fn lemma_digits_value_grows(d: Seq<char>, k: int)
    requires
        all_digits(d),
        0 <= k <= d.len(),
    ensures
        digits_value(d.take(k)) <= digits_value(d),
    decreases d.len(),
{
    if k < d.len() {
        let t = d.drop_last();
        assert(all_digits(t)) by {
            assert forall|i: int| 0 <= i < t.len() implies is_digit(#[trigger] t[i]) by {
                assert(t[i] == d[i]);
            }
        }
        assert(t.take(k) =~= d.take(k));
        lemma_digits_value_grows(t, k);
        lemma_digits_value_nonneg(t);
        assert(is_digit(d[d.len() - 1]));
    } else {
        assert(d.take(k) =~= d);
    }
}

pub fn parse_u32_v(s: &Vec<char>) -> (r: Option<u32>)
    ensures
        r == parse_u32(s@),
{
    let start: usize = if s.len() > 0 && s[0] == '+' {
        1
    } else {
        0
    };
    let ghost d = if s@.len() > 0 && s@[0] == '+' {
        s@.drop_first()
    } else {
        s@
    };
    assert(d =~= s@.skip(start as int));
    if start == s.len() {
        return None;
    }
    let mut acc: u64 = 0;
    let mut i: usize = start;
    assert(s@.subrange(start as int, start as int) =~= Seq::<char>::empty());
    while i < s.len()
        invariant
            start <= i <= s.len(),
            d == s@.skip(start as int),
            parse_u32(s@) == (if d.len() > 0 && all_digits(d) && digits_value(d) <= u32::MAX {
                Some(digits_value(d) as u32)
            } else {
                None
            }),
            all_digits(s@.subrange(start as int, i as int)),
            acc == digits_value(s@.subrange(start as int, i as int)),
            acc <= u32::MAX,
        decreases s.len() - i,
    {
        let c = s[i];
        let ghost pre = s@.subrange(start as int, i as int);
        let ghost next = s@.subrange(start as int, i + 1);
        assert(next.drop_last() =~= pre);
        assert(next.last() == c);
        assert(d[i - start] == c);
        if !('0' <= c && c <= '9') {
            assert(!all_digits(d));
            return None;
        }
        let v: u64 = (c as u64) - ('0' as u64);
        assert(all_digits(next)) by {
            assert forall|j: int| 0 <= j < next.len() implies is_digit(#[trigger] next[j]) by {
                if j < pre.len() {
                    assert(next[j] == pre[j]);
                }
            }
        }
        assert(digits_value(next) == 10 * acc + v);
        if acc > (u32::MAX as u64 - v) / 10 {
            proof {
                if all_digits(d) {
                    assert(d.take(i + 1 - start) =~= next);
                    lemma_digits_value_grows(d, i + 1 - start);
                }
            }
            return None;
        }
        acc = acc * 10 + v;
        i = i + 1;
    }
    assert(s@.subrange(start as int, s.len() as int) =~= d);
    Some(acc as u32)
}

/// The decimal digit for `d` (taken modulo ten).
pub open spec fn digit_char(d: int) -> char {
    if d == 0 {
        '0'
    } else if d == 1 {
        '1'
    } else if d == 2 {
        '2'
    } else if d == 3 {
        '3'
    } else if d == 4 {
        '4'
    } else if d == 5 {
        '5'
    } else if d == 6 {
        '6'
    } else if d == 7 {
        '7'
    } else if d == 8 {
        '8'
    } else {
        '9'
    }
}

/// How `Display` writes an unsigned integer: its decimal digits, no
/// leading zeros.
pub open spec fn decimal(n: nat) -> Seq<char>
    decreases n,
{
    if n < 10 {
        seq![digit_char(n as int)]
    } else {
        decimal(n / 10).push(digit_char((n % 10) as int))
    }
}

proof fn lemma_digit_char(d: int)
    requires
        0 <= d < 10,
    ensures
        is_digit(digit_char(d)),
        digit_value(digit_char(d)) == d,
{
}

/// `decimal(n)` is a non-empty string of digits whose value is `n`.
pub proof fn lemma_decimal_digits(n: nat)
    ensures
        decimal(n).len() > 0,
        all_digits(decimal(n)),
        digits_value(decimal(n)) == n,
    decreases n,
{
    if n < 10 {
        lemma_digit_char(n as int);
        let d = decimal(n);
        assert(d.drop_last() =~= Seq::<char>::empty());
        assert(digits_value(d) == 10 * digits_value(d.drop_last()) + digit_value(d.last()));
        assert(digits_value(Seq::<char>::empty()) == 0);
    } else {
        lemma_decimal_digits(n / 10);
        lemma_digit_char((n % 10) as int);
        let s = decimal(n / 10);
        let d = decimal(n);
        assert(d.drop_last() =~= s);
        assert(d.last() == digit_char((n % 10) as int));
        assert(digits_value(d) == 10 * digits_value(s) + digit_value(d.last()));
        assert(n == 10 * (n / 10) + n % 10) by (nonlinear_arith);
        assert forall|i: int| 0 <= i < d.len() implies is_digit(#[trigger] d[i]) by {
            if i < s.len() {
                assert(d[i] == s[i]);
            }
        }
    }
}

/// Reading back what `decimal` writes gives the number again.
pub proof fn lemma_parse_decimal(n: u32)
    ensures
        parse_u32(decimal(n as nat)) == Some(n),
        trim(decimal(n as nat)) == decimal(n as nat),
{
    let d = decimal(n as nat);
    lemma_decimal_digits(n as nat);
    assert(is_digit(d[0]));
    assert(is_digit(d[d.len() - 1]));
    assert(trim_start(d, Class::Space) == d);
    assert(trim_end(d, Class::Space) == d);
}

fn digit_char_v(d: u64) -> (c: char)
    requires
        d < 10,
    ensures
        c == digit_char(d as int),
{
    if d == 0 {
        '0'
    } else if d == 1 {
        '1'
    } else if d == 2 {
        '2'
    } else if d == 3 {
        '3'
    } else if d == 4 {
        '4'
    } else if d == 5 {
        '5'
    } else if d == 6 {
        '6'
    } else if d == 7 {
        '7'
    } else if d == 8 {
        '8'
    } else {
        '9'
    }
}

pub fn decimal_v(n: u64) -> (r: Vec<char>)
    ensures
        r@ == decimal(n as nat),
    decreases n,
{
    if n < 10 {
        let r = vec![digit_char_v(n)];
        assert(r@ =~= decimal(n as nat));
        r
    } else {
        let mut r = decimal_v(n / 10);
        r.push(digit_char_v(n % 10));
        r
    }
}

// ------------------------------------------------------- strings and chars

pub fn to_chars(s: &str) -> (v: Vec<char>)
    ensures
        v@ == s@,
{
    let mut v: Vec<char> = Vec::new();
    for c in it: s.chars()
        invariant
            v@ == it.seq().take(it.index() as int),
    {
        v.push(c);
    }
    v
}

/// `String::push`: the string gains one character at its end.
#[verifier::external_body]
pub(crate) fn push_char(s: &mut String, c: char)
    ensures
        final(s)@ == old(s)@.push(c),
{
    s.push(c);
}

pub fn push_chars(s: &mut String, v: &Vec<char>)
    ensures
        final(s)@ == old(s)@ + v@,
{
    let mut i: usize = 0;
    while i < v.len()
        invariant
            i <= v.len(),
            s@ == old(s)@ + v@.take(i as int),
        decreases v.len() - i,
    {
        push_char(s, v[i]);
        i = i + 1;
        assert(s@ =~= old(s)@ + v@.take(i as int));
    }
    assert(v@.take(v.len() as int) =~= v@);
}

pub fn from_chars(v: &Vec<char>) -> (s: String)
    ensures
        s@ == v@,
{
    let mut s = String::new();
    push_chars(&mut s, v);
    assert(s@ =~= v@);
    s
}


/// The result of `str::to_lowercase`: the Unicode lowercase mapping of each
/// character, which can turn one character into several.
pub uninterp spec fn lowercase_of(s: Seq<char>) -> Seq<char>;

/// `str::to_lowercase`, whose result is named `lowercase_of`: it depends on
/// the characters of `s` alone (the mapping is locale-independent).
#[verifier::external_body]
pub(crate) fn to_lowercase(s: &str) -> (r: String)
    ensures
        r@ == lowercase_of(s@),
{
    s.to_lowercase()
}

/// Lexicographic order on character sequences, which is the order of
/// `String` (comparing UTF-8 bytes orders characters by code point).
pub open spec fn seq_lt(a: Seq<char>, b: Seq<char>) -> bool
    decreases a.len(),
{
    if a.len() == 0 {
        b.len() > 0
    } else if b.len() == 0 {
        false
    } else if a[0] != b[0] {
        a[0] < b[0]
    } else {
        seq_lt(a.drop_first(), b.drop_first())
    }
}

pub fn seq_lt_v(a: &Vec<char>, b: &Vec<char>) -> (r: bool)
    ensures
        r == seq_lt(a@, b@),
{
    let mut i: usize = 0;
    assert(a@.skip(0) =~= a@);
    assert(b@.skip(0) =~= b@);
    while i < a.len() && i < b.len() && a[i] == b[i]
        invariant
            i <= a.len(),
            i <= b.len(),
            seq_lt(a@, b@) == seq_lt(a@.skip(i as int), b@.skip(i as int)),
        decreases a.len() - i,
    {
        assert(a@.skip(i as int).drop_first() =~= a@.skip(i + 1));
        assert(b@.skip(i as int).drop_first() =~= b@.skip(i + 1));
        i = i + 1;
    }
    if i == a.len() {
        i < b.len()
    } else if i == b.len() {
        false
    } else {
        a[i] < b[i]
    }
}

pub proof fn lemma_seq_lt_irreflexive(a: Seq<char>)
    ensures
        !seq_lt(a, a),
    decreases a.len(),
{
    if a.len() > 0 {
        lemma_seq_lt_irreflexive(a.drop_first());
    }
}

pub proof fn lemma_seq_lt_transitive(a: Seq<char>, b: Seq<char>, c: Seq<char>)
    requires
        seq_lt(a, b),
        seq_lt(b, c),
    ensures
        seq_lt(a, c),
    decreases a.len(),
{
    if a.len() > 0 && b.len() > 0 && c.len() > 0 && a[0] == b[0] && b[0] == c[0] {
        lemma_seq_lt_transitive(a.drop_first(), b.drop_first(), c.drop_first());
    }
}

pub proof fn lemma_seq_lt_total(a: Seq<char>, b: Seq<char>)
    ensures
        a == b || seq_lt(a, b) || seq_lt(b, a),
    decreases a.len(),
{
    if a.len() == 0 {
        if b.len() == 0 {
            assert(a =~= b);
        }
    } else if b.len() > 0 && a[0] == b[0] {
        lemma_seq_lt_total(a.drop_first(), b.drop_first());
        if a.drop_first() == b.drop_first() {
            assert(a =~= seq![a[0]] + a.drop_first());
            assert(b =~= seq![b[0]] + b.drop_first());
        }
    }
}

/// `!seq_lt(b, a)`, "a comes no later than b", is transitive.
pub proof fn lemma_seq_le_transitive(a: Seq<char>, b: Seq<char>, c: Seq<char>)
    requires
        !seq_lt(b, a),
        !seq_lt(c, b),
    ensures
        !seq_lt(c, a),
{
    lemma_seq_lt_total(a, b);
    lemma_seq_lt_total(b, c);
    if seq_lt(c, a) {
        if a == b {
        } else if b == c {
        } else {
            lemma_seq_lt_transitive(a, b, c);
            lemma_seq_lt_transitive(c, a, c);
            lemma_seq_lt_irreflexive(c);
        }
    }
}

/// `sep`-separated concatenation, as `[..].join(sep)` builds it.
pub open spec fn join(parts: Seq<Seq<char>>, sep: Seq<char>) -> Seq<char>
    decreases parts.len(),
{
    if parts.len() == 0 {
        Seq::<char>::empty()
    } else if parts.len() == 1 {
        parts[0]
    } else {
        join(parts.drop_last(), sep) + sep + parts.last()
    }
}

} // verus!
