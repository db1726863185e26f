//! The resource catalogue: the maps and survivors that the data directory
//! describes, and the lookups by name.
use vstd::prelude::*;
use crate::text::{
    from_chars, join, lines, lines_v, lowercase_of, seq_lt, seq_lt_v, to_chars, to_lowercase,
    trim, trim_start, trim_start_v, trim_v, Class, CharSet,
    lemma_seq_le_transitive, lemma_seq_lt_irreflexive, lemma_seq_lt_transitive,
};

verus! {

/// One data file of the catalogue, as the directory scan found it.
pub struct SourceFile {
    /// The file name without its extension.
    pub stem: String,
    /// The file's extension, when it has one that is valid UTF-8.
    pub extension: Option<String>,
    /// The file's contents (empty when it could not be read).
    pub text: String,
    /// Where the file lies.
    pub path: String,
}

/// A map or a survivor: its display name, its lower-case stem, its file.
#[derive(Clone, Debug)]
pub struct Entry {
    pub zh: String,
    pub stem: String,
    pub path: String,
}

/// The character contents of an entry.
pub struct EntryView {
    pub zh: Seq<char>,
    pub stem: Seq<char>,
    pub path: Seq<char>,
}

impl View for Entry {
    type V = EntryView;

    open spec fn view(&self) -> EntryView {
        EntryView { zh: self.zh@, stem: self.stem@, path: self.path@ }
    }
}

pub open spec fn entry_views(es: Seq<Entry>) -> Seq<EntryView> {
    es.map_values(|e: Entry| e@)
}

pub struct ResourceDb {
    pub maps: Vec<Entry>,
    pub survivors: Vec<Entry>,
}

/// The catalogue holds no map or no survivor.
#[derive(Debug, PartialEq, Eq)]
pub enum DbError {
    MissingData,
}

/// A stem that reads "readme" in any mix of ASCII cases.
pub open spec fn is_readme(s: Seq<char>) -> bool {
    &&& s.len() == 6
    &&& (s[0] == 'r' || s[0] == 'R')
    &&& (s[1] == 'e' || s[1] == 'E')
    &&& (s[2] == 'a' || s[2] == 'A')
    &&& (s[3] == 'd' || s[3] == 'D')
    &&& (s[4] == 'm' || s[4] == 'M')
    &&& (s[5] == 'e' || s[5] == 'E')
}

/// The display name a data file gives itself: its first line without the
/// leading `#`s and surrounding space, or its stem when that is empty.
pub open spec fn display_name(stem: Seq<char>, text: Seq<char>) -> Seq<char> {
    let first = if lines(text).len() > 0 {
        lines(text)[0]
    } else {
        Seq::<char>::empty()
    };
    let zh = trim(trim_start(first, Class::AnyOf(seq!['#'])));
    if zh.len() == 0 {
        stem
    } else {
        zh
    }
}

/// Whether a scanned file describes an entry: a `.md` file that is not a readme.
pub open spec fn is_entry_file(f: SourceFile) -> bool {
    &&& f.extension matches Some(x) && x@ == seq!['m', 'd']
    &&& !is_readme(f.stem@)
}

/// The entry a data file describes.
pub open spec fn entry_of(f: SourceFile) -> EntryView {
    EntryView {
        zh: display_name(f.stem@, f.text@),
        stem: lowercase_of(f.stem@),
        path: f.path@,
    }
}

/// The entries that the entry files among `files` describe, in order.
pub open spec fn entries_of(files: Seq<SourceFile>) -> Seq<EntryView>
    decreases files.len(),
{
    if files.len() == 0 {
        Seq::empty()
    } else if is_entry_file(files.last()) {
        entries_of(files.drop_last()).push(entry_of(files.last()))
    } else {
        entries_of(files.drop_last())
    }
}

/// Entries in the order of `sort_by` on the display name: a stable sort,
/// which inserts each entry after those whose names do not exceed its own.
pub open spec fn insert_by_zh(s: Seq<EntryView>, e: EntryView) -> Seq<EntryView>
    decreases s.len(),
{
    if s.len() == 0 {
        seq![e]
    } else if seq_lt(e.zh, s.last().zh) {
        insert_by_zh(s.drop_last(), e).push(s.last())
    } else {
        s.push(e)
    }
}

pub open spec fn sort_by_zh(s: Seq<EntryView>) -> Seq<EntryView>
    decreases s.len(),
{
    if s.len() == 0 {
        s
    } else {
        insert_by_zh(sort_by_zh(s.drop_last()), s.last())
    }
}

pub open spec fn first_with_zh(es: Seq<Entry>, t: Seq<char>, i: int) -> Option<int>
    decreases es.len() - i,
{
    if i < 0 || i >= es.len() {
        None
    } else if es[i].zh@ == t {
        Some(i)
    } else {
        first_with_zh(es, t, i + 1)
    }
}

pub open spec fn first_with_stem(es: Seq<Entry>, t: Seq<char>, i: int) -> Option<int>
    decreases es.len() - i,
{
    if i < 0 || i >= es.len() {
        None
    } else if es[i].stem@ == t {
        Some(i)
    } else {
        first_with_stem(es, t, i + 1)
    }
}

/// Which entry a name typed by a person (or a model) designates: after
/// trimming, the first entry with that display name, else the first whose
/// stem is the name in lower case.
pub open spec fn lookup(es: Seq<Entry>, input: Seq<char>) -> Option<int> {
    let t = trim(input);
    if t.len() == 0 {
        None
    } else {
        match first_with_zh(es, t, 0) {
            Some(i) => Some(i),
            None => first_with_stem(es, lowercase_of(t), 0),
        }
    }
}

/// Which entry a file stem designates: the first whose stem is the given
/// stem in lower case.
pub open spec fn lookup_stem(es: Seq<Entry>, stem: Seq<char>) -> Option<int> {
    first_with_stem(es, lowercase_of(stem), 0)
}

pub open spec fn zh_names(es: Seq<Entry>) -> Seq<Seq<char>> {
    es.map_values(|e: Entry| e.zh@)
}


proof fn lemma_insert_at(s: Seq<EntryView>, e: EntryView, j: int)
    requires
        0 <= j <= s.len(),
        forall|k: int| j <= k < s.len() ==> seq_lt(e.zh, (#[trigger] s[k]).zh),
        j == 0 || !seq_lt(e.zh, s[j - 1].zh),
    ensures
        insert_by_zh(s, e) == s.insert(j, e),
    decreases s.len() - j,
{
    if j < s.len() {
        let t = s.drop_last();
        assert forall|k: int| j <= k < t.len() implies seq_lt(e.zh, (#[trigger] t[k]).zh) by {
            assert(t[k] == s[k]);
        }
        if j > 0 {
            assert(t[j - 1] == s[j - 1]);
        }
        assert(seq_lt(e.zh, s[s.len() - 1].zh));
        lemma_insert_at(t, e, j);
        assert(t.insert(j, e).push(s.last()) =~= s.insert(j, e));
    } else {
        assert(s.push(e) =~= s.insert(j, e));
    }
}

fn insert_by_zh_v(out: &mut Vec<Entry>, e: Entry)
    ensures
        entry_views(final(out)@) == insert_by_zh(entry_views(old(out)@), e@),
{
    let key = to_chars(e.zh.as_str());
    let mut j = out.len();
    while j > 0 && seq_lt_v(&key, &to_chars(out[j - 1].zh.as_str()))
        invariant
            j <= out.len(),
            key@ == e.zh@,
            forall|k: int| j <= k < out.len() ==> seq_lt(e.zh@, (#[trigger] out@[k]).zh@),
        decreases j,
    {
        j = j - 1;
    }
    let ghost before = entry_views(out@);
    proof {
        assert forall|k: int| j <= k < before.len() implies seq_lt(e@.zh, (#[trigger] before[k]).zh) by {
            assert(before[k] == out@[k]@);
        }
        if j > 0 {
            assert(before[j - 1] == out@[j - 1]@);
        }
        lemma_insert_at(before, e@, j as int);
    }
    out.insert(j, e);
    assert(entry_views(out@) =~= before.insert(j as int, e@));
}

/// The display name of a data file.
pub fn display_name_v(stem: &String, text: &String) -> (r: String)
    ensures
        r@ == display_name(stem@, text@),
{
    let ls = lines_v(&to_chars(text.as_str()));
    let first: Vec<char> = if ls.len() > 0 {
        ls[0].clone()
    } else {
        Vec::new()
    };
    let hash = CharSet::any_of(vec!['#']);
    assert(hash.chars@ =~= seq!['#']);
    let zh = trim_v(&trim_start_v(&first, &hash));
    if zh.len() == 0 {
        stem.clone()
    } else {
        from_chars(&zh)
    }
}

/// Whether a scanned file describes an entry.
pub fn is_entry_file_v(f: &SourceFile) -> (b: bool)
    ensures
        b == is_entry_file(*f),
{
    let is_md = match &f.extension {
        Some(x) => {
            let xs = to_chars(x.as_str());
            let md = vec!['m', 'd'];
            assert(md@ =~= seq!['m', 'd']);
            xs.len() == 2 && xs[0] == md[0] && xs[1] == md[1]
        },
        None => false,
    };
    if !is_md {
        assert(!is_entry_file(*f)) by {
            if let Some(x) = &f.extension {
                if x@ == seq!['m', 'd'] {
                    assert(x@[0] == 'm' && x@[1] == 'd');
                }
            }
        }
        return false;
    }
    proof {
        if let Some(x) = &f.extension {
            assert(x@ =~= seq!['m', 'd']);
        }
    }
    let st = to_chars(f.stem.as_str());
    let readme = st.len() == 6 && (st[0] == 'r' || st[0] == 'R') && (st[1] == 'e' || st[1] == 'E')
        && (st[2] == 'a' || st[2] == 'A') && (st[3] == 'd' || st[3] == 'D') && (st[4] == 'm'
        || st[4] == 'M') && (st[5] == 'e' || st[5] == 'E');
    !readme
}

/// The entry of a data file, given its stem in lower case.
pub fn entry_from(f: &SourceFile, lower_stem: String) -> (e: Entry)
    ensures
        e@ == (EntryView { zh: display_name(f.stem@, f.text@), stem: lower_stem@, path: f.path@ }),
{
    let zh = display_name_v(&f.stem, &f.text);
    Entry { zh, stem: lower_stem, path: f.path.clone() }
}

/// The entry a scanned file describes, if it describes one.
pub fn entry_for(f: &SourceFile) -> (r: Option<Entry>)
    ensures
        r is Some <==> is_entry_file(*f),
        r matches Some(e) ==> e@ == entry_of(*f),
{
    if !is_entry_file_v(f) {
        return None;
    }
    let lower = to_lowercase(f.stem.as_str());
    Some(entry_from(f, lower))
}

/// The entries of one data directory: those of the `.md` files other than
/// the readme, sorted by display name.
pub fn scan(files: &Vec<SourceFile>) -> (r: Vec<Entry>)
    ensures
        entry_views(r@) == sort_by_zh(entries_of(files@)),
{
    let mut out: Vec<Entry> = Vec::new();
    let mut i: usize = 0;
    assert(files@.take(0) =~= Seq::<SourceFile>::empty());
    assert(entry_views(out@) =~= Seq::<EntryView>::empty());
    while i < files.len()
        invariant
            i <= files.len(),
            entry_views(out@) == sort_by_zh(entries_of(files@.take(i as int))),
        decreases files.len() - i,
    {
        let ghost prev = files@.take(i as int);
        assert(files@.take(i + 1).drop_last() =~= prev);
        assert(files@.take(i + 1).last() == files@[i as int]);
        match entry_for(&files[i]) {
            Some(e) => {
                insert_by_zh_v(&mut out, e);
                assert(entries_of(files@.take(i + 1)).drop_last() =~= entries_of(prev));
            },
            None => {},
        }
        i = i + 1;
    }
    assert(files@.take(files.len() as int) =~= files@);
    out
}

fn first_with_zh_v(es: &Vec<Entry>, t: &String) -> (r: Option<usize>)
    ensures
        r matches Some(i) ==> first_with_zh(es@, t@, 0) == Some(i as int) && i < es.len(),
        r is None ==> first_with_zh(es@, t@, 0) is None,
{
    let mut i: usize = 0;
    while i < es.len()
        invariant
            i <= es.len(),
            first_with_zh(es@, t@, 0) == first_with_zh(es@, t@, i as int),
        decreases es.len() - i,
    {
        if es[i].zh == *t {
            return Some(i);
        }
        i = i + 1;
    }
    None
}

fn first_with_stem_v(es: &Vec<Entry>, t: &String) -> (r: Option<usize>)
    ensures
        r matches Some(i) ==> first_with_stem(es@, t@, 0) == Some(i as int) && i < es.len(),
        r is None ==> first_with_stem(es@, t@, 0) is None,
{
    let mut i: usize = 0;
    while i < es.len()
        invariant
            i <= es.len(),
            first_with_stem(es@, t@, 0) == first_with_stem(es@, t@, i as int),
        decreases es.len() - i,
    {
        if es[i].stem == *t {
            return Some(i);
        }
        i = i + 1;
    }
    None
}

proof fn lemma_first_in_range(es: Seq<Entry>, t: Seq<char>, i: int)
    requires
        0 <= i,
    ensures
        first_with_zh(es, t, i) matches Some(j) ==> i <= j < es.len(),
        first_with_stem(es, t, i) matches Some(j) ==> i <= j < es.len(),
    decreases es.len() - i,
{
    if i < es.len() {
        lemma_first_in_range(es, t, i + 1);
    }
}

/// The first entry whose stem is `lower`, a name already in lower case.
pub fn find_by_lower_stem<'a>(es: &'a Vec<Entry>, lower: &String) -> (r: Option<&'a Entry>)
    ensures
        match first_with_stem(es@, lower@, 0) {
            Some(i) => 0 <= i < es.len() && r == Some(&es@[i]),
            None => r is None,
        },
{
    match first_with_stem_v(es, lower) {
        Some(i) => Some(&es[i]),
        None => None,
    }
}

/// The entry a typed name designates.
pub fn find_in<'a>(es: &'a Vec<Entry>, input: &str) -> (r: Option<&'a Entry>)
    ensures
        match lookup(es@, input@) {
            Some(i) => 0 <= i < es.len() && r == Some(&es@[i]),
            None => r is None,
        },
{
    let t = trim_v(&to_chars(input));
    if t.len() == 0 {
        return None;
    }
    let ts = from_chars(&t);
    match first_with_zh_v(es, &ts) {
        Some(i) => Some(&es[i]),
        None => {
            let lower = to_lowercase(ts.as_str());
            find_by_lower_stem(es, &lower)
        },
    }
}

/// The entry a file stem designates.
pub fn find_by_stem_in<'a>(es: &'a Vec<Entry>, stem: &str) -> (r: Option<&'a Entry>)
    ensures
        match lookup_stem(es@, stem@) {
            Some(i) => 0 <= i < es.len() && r == Some(&es@[i]),
            None => r is None,
        },
{
    let lower = to_lowercase(stem);
    find_by_lower_stem(es, &lower)
}

/// The display names joined by `、`.
pub fn hint_of(es: &Vec<Entry>) -> (r: String)
    ensures
        r@ == join(zh_names(es@), seq!['、']),
{
    let mut out = String::new();
    let mut i: usize = 0;
    let sep = String::from_str("、");
    proof {
        reveal_strlit("、");
    }
    assert(sep@ =~= seq!['、']);
    while i < es.len()
        invariant
            i <= es.len(),
            sep@ == seq!['、'],
            out@ == join(zh_names(es@.take(i as int)), seq!['、']),
        decreases es.len() - i,
    {
        let ghost names = zh_names(es@.take(i + 1));
        assert(names.drop_last() =~= zh_names(es@.take(i as int)));
        assert(names.last() == es@[i as int].zh@);
        if i > 0 {
            out.append(sep.as_str());
        }
        out.append(es[i].zh.as_str());
        i = i + 1;
        assert(out@ =~= join(zh_names(es@.take(i as int)), seq!['、']));
    }
    assert(es@.take(es.len() as int) =~= es@);
    out
}

impl ResourceDb {
    /// The catalogue of the two data directories (maps, then characters);
    /// an error when either holds no entry.
    pub fn load(map_files: &Vec<SourceFile>, survivor_files: &Vec<SourceFile>) -> (r: Result<
        ResourceDb,
        DbError,
    >)
        ensures
            match r {
                Ok(db) => {
                    &&& entry_views(db.maps@) == sort_by_zh(entries_of(map_files@))
                    &&& entry_views(db.survivors@) == sort_by_zh(entries_of(survivor_files@))
                    &&& db.maps.len() > 0
                    &&& db.survivors.len() > 0
                },
                Err(_) => sort_by_zh(entries_of(map_files@)).len() == 0 || sort_by_zh(
                    entries_of(survivor_files@),
                ).len() == 0,
            },
    {
        let maps = scan(map_files);
        let survivors = scan(survivor_files);
        if maps.len() == 0 || survivors.len() == 0 {
            return Err(DbError::MissingData);
        }
        Ok(ResourceDb { maps, survivors })
    }

    pub fn find_map(&self, input: &str) -> (r: Option<&Entry>)
        ensures
            match lookup(self.maps@, input@) {
                Some(i) => 0 <= i < self.maps.len() && r == Some(&self.maps@[i]),
                None => r is None,
            },
    {
        find_in(&self.maps, input)
    }

    pub fn find_character(&self, input: &str) -> (r: Option<&Entry>)
        ensures
            match lookup(self.survivors@, input@) {
                Some(i) => 0 <= i < self.survivors.len() && r == Some(&self.survivors@[i]),
                None => r is None,
            },
    {
        find_in(&self.survivors, input)
    }

    pub fn find_map_by_stem(&self, stem: &str) -> (r: Option<&Entry>)
        ensures
            match lookup_stem(self.maps@, stem@) {
                Some(i) => 0 <= i < self.maps.len() && r == Some(&self.maps@[i]),
                None => r is None,
            },
    {
        find_by_stem_in(&self.maps, stem)
    }

    pub fn find_char_by_stem(&self, stem: &str) -> (r: Option<&Entry>)
        ensures
            match lookup_stem(self.survivors@, stem@) {
                Some(i) => 0 <= i < self.survivors.len() && r == Some(&self.survivors@[i]),
                None => r is None,
            },
    {
        find_by_stem_in(&self.survivors, stem)
    }

    /// A map by stem, else a survivor by stem.
    pub fn find_entry_by_stem(&self, stem: &str) -> (r: Option<&Entry>)
        ensures
            match lookup_stem(self.maps@, stem@) {
                Some(i) => r == Some(&self.maps@[i]),
                None => match lookup_stem(self.survivors@, stem@) {
                    Some(i) => r == Some(&self.survivors@[i]),
                    None => r is None,
                },
            },
    {
        match self.find_map_by_stem(stem) {
            Some(e) => Some(e),
            None => self.find_char_by_stem(stem),
        }
    }

    pub fn maps_hint(&self) -> (r: String)
        ensures
            r@ == join(zh_names(self.maps@), seq!['、']),
    {
        hint_of(&self.maps)
    }

    pub fn survivors_hint(&self) -> (r: String)
        ensures
            r@ == join(zh_names(self.survivors@), seq!['、']),
    {
        hint_of(&self.survivors)
    }
}


// ================================================================= laws

/// Entries ordered by display name: no entry comes after one whose name
/// is greater.
pub open spec fn sorted_by_zh(s: Seq<EntryView>) -> bool {
    forall|i: int, j: int| 0 <= i < j < s.len() ==> !seq_lt(s[j].zh, s[i].zh)
}

proof fn lemma_insert_by_zh(s: Seq<EntryView>, e: EntryView)
    requires
        sorted_by_zh(s),
    ensures
        sorted_by_zh(insert_by_zh(s, e)),
        insert_by_zh(s, e).to_multiset() =~= s.to_multiset().insert(e),
        insert_by_zh(s, e).len() == s.len() + 1,
    decreases s.len(),
{
    broadcast use vstd::seq_lib::group_to_multiset_ensures;

    if s.len() == 0 {
        assert(seq![e] =~= s.push(e));
    } else {
        let prev = s.drop_last();
        let last = s.last();
        assert(s =~= prev.push(last));
        assert(sorted_by_zh(prev)) by {
            assert forall|i: int, j: int| 0 <= i < j < prev.len() implies !seq_lt(
                prev[j].zh,
                prev[i].zh,
            ) by {
                assert(prev[i] == s[i] && prev[j] == s[j]);
            }
        }
        if seq_lt(e.zh, last.zh) {
            lemma_insert_by_zh(prev, e);
            let t = insert_by_zh(prev, e);
            let r = t.push(last);
            // every element of t comes no later than `last`
            assert forall|i: int| 0 <= i < t.len() implies !seq_lt(last.zh, (#[trigger] t[i]).zh) by {
                assert(t.to_multiset().count(t[i]) > 0);
                if t[i] == e {
                    if seq_lt(last.zh, e.zh) {
                        lemma_seq_lt_transitive(last.zh, e.zh, last.zh);
                        lemma_seq_lt_irreflexive(last.zh);
                    }
                } else {
                    assert(prev.to_multiset().count(t[i]) > 0);
                    assert(prev.contains(t[i]));
                    let k = choose|k: int| 0 <= k < prev.len() && prev[k] == t[i];
                    assert(s[k] == prev[k]);
                    assert(!seq_lt(s[s.len() - 1].zh, s[k].zh));
                }
            }
            assert forall|i: int, j: int| 0 <= i < j < r.len() implies !seq_lt(r[j].zh, r[i].zh) by {
                if j < t.len() {
                    assert(r[i] == t[i] && r[j] == t[j]);
                } else {
                    assert(r[i] == t[i]);
                }
            }
        } else {
            let r = s.push(e);
            assert forall|i: int, j: int| 0 <= i < j < r.len() implies !seq_lt(r[j].zh, r[i].zh) by {
                if j < s.len() {
                    assert(r[i] == s[i] && r[j] == s[j]);
                } else if i < s.len() - 1 {
                    assert(r[i] == s[i]);
                    assert(!seq_lt(s[s.len() - 1].zh, s[i].zh));
                    lemma_seq_le_transitive(s[i].zh, last.zh, e.zh);
                }
            }
        }
    }
}

/// The entries that a scan returns are those of its `.md` files other than
/// the readme, each once, ordered by display name.
pub proof fn lemma_scan_sorted(s: Seq<EntryView>)
    ensures
        sorted_by_zh(sort_by_zh(s)),
        sort_by_zh(s).to_multiset() =~= s.to_multiset(),
        sort_by_zh(s).len() == s.len(),
    decreases s.len(),
{
    broadcast use vstd::seq_lib::group_to_multiset_ensures;

    if s.len() > 0 {
        lemma_scan_sorted(s.drop_last());
        lemma_insert_by_zh(sort_by_zh(s.drop_last()), s.last());
        assert(s =~= s.drop_last().push(s.last()));
    }
}

} // verus!
