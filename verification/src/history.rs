//! Saved sessions: the file a session is saved under, the order in which
//! saved sessions are offered, and the tokens a session used.
use vstd::prelude::*;
use crate::api::Usage;
use crate::text::{
    from_chars, is_space, seq_lt, seq_lt_v, to_chars, trim, trim_both, trim_both_v, trim_end_str,
    trim_end_str_v, trim_v, char_is_space, CharSet, Class, lemma_seq_lt_irreflexive,
    lemma_seq_lt_transitive, lemma_seq_le_transitive, lemma_trim_end_prefix, trim_start,
    lemma_trim_start_suffix,
};

verus! {

/// The characters that a file name may not hold.
pub open spec fn forbidden_in_name(c: char) -> bool {
    c == '/' || c == '\\' || c == ':' || c == '*' || c == '?' || c == '"' || c == '<' || c == '>'
        || c == '|'
}

/// A name with white space turned into `-` and forbidden characters dropped.
pub open spec fn name_chars(s: Seq<char>) -> Seq<char>
    decreases s.len(),
{
    if s.len() == 0 {
        s
    } else {
        let r = name_chars(s.drop_last());
        let c = if is_space(s.last()) {
            '-'
        } else {
            s.last()
        };
        if forbidden_in_name(c) {
            r
        } else {
            r.push(c)
        }
    }
}

/// The stem a typed session name gives: trimmed, without `.json` endings,
/// cleaned, and without leading or trailing dots.
pub open spec fn session_stem(name: Seq<char>) -> Seq<char> {
    trim_both(name_chars(trim_end_str(trim(name), ".json"@)), Class::AnyOf(seq!['.']))
}

/// The file name of a session: its stem, or `fallback` when the stem is
/// empty, with `.json` after it.
pub open spec fn session_file(name: Seq<char>, fallback: Seq<char>) -> Seq<char> {
    let stem = session_stem(name);
    (if stem.len() == 0 {
        fallback
    } else {
        stem
    }) + ".json"@
}

/// A relative file name under a directory, as `Path::join` puts it.
pub open spec fn join_path(dir: Seq<char>, file: Seq<char>) -> Seq<char> {
    if dir.len() == 0 {
        file
    } else if dir.last() == '/' {
        dir + file
    } else {
        dir + seq!['/'] + file
    }
}

fn forbidden_in_name_v(c: char) -> (b: bool)
    ensures
        b == forbidden_in_name(c),
{
    c == '/' || c == '\\' || c == ':' || c == '*' || c == '?' || c == '"' || c == '<' || c == '>'
        || c == '|'
}

fn name_chars_v(s: &Vec<char>) -> (r: Vec<char>)
    ensures
        r@ == name_chars(s@),
{
    let mut out: Vec<char> = Vec::new();
    let mut i: usize = 0;
    assert(s@.take(0) =~= Seq::<char>::empty());
    while i < s.len()
        invariant
            i <= s.len(),
            out@ == name_chars(s@.take(i as int)),
        decreases s.len() - i,
    {
        assert(s@.take(i + 1).drop_last() =~= s@.take(i as int));
        assert(s@.take(i + 1).last() == s@[i as int]);
        let c = if char_is_space(s[i]) {
            '-'
        } else {
            s[i]
        };
        if !forbidden_in_name_v(c) {
            out.push(c);
        }
        i = i + 1;
    }
    assert(s@.take(s.len() as int) =~= s@);
    out
}

/// Where the session named `name` is saved under `dir`; `fallback` (the
/// time of day, as the caller writes it) names it when the name gives no stem.
pub fn path_for(dir: &str, name: &str, fallback: &str) -> (r: String)
    requires
        fallback@.len() == 0 || fallback@[0] != '/',
    ensures
        r@ == join_path(dir@, session_file(name@, fallback@)),
{
    let json = to_chars(".json");
    let cleaned = name_chars_v(&trim_end_str_v(&trim_v(&to_chars(name)), &json));
    let dots = CharSet::any_of(vec!['.']);
    assert(dots.chars@ =~= seq!['.']);
    let stem = trim_both_v(&cleaned, &dots);
    let mut file = if stem.len() == 0 {
        String::from_str(fallback)
    } else {
        from_chars(&stem)
    };
    file.append(".json");
    let d = to_chars(dir);
    if d.len() == 0 {
        file
    } else if d[d.len() - 1] == '/' {
        let mut r = String::from_str(dir);
        r.append(file.as_str());
        r
    } else {
        let mut r = String::from_str(dir);
        r.append("/");
        proof {
            reveal_strlit("/");
        }
        r.append(file.as_str());
        assert(r@ =~= dir@ + seq!['/'] + file@);
        r
    }
}

/// Names in the order that `sort_by` with the reversed comparison leaves
/// them: greatest first, equal names in their first order.
pub open spec fn insert_desc(s: Seq<Seq<char>>, x: Seq<char>) -> Seq<Seq<char>>
    decreases s.len(),
{
    if s.len() == 0 {
        seq![x]
    } else if seq_lt(s.last(), x) {
        insert_desc(s.drop_last(), x).push(s.last())
    } else {
        s.push(x)
    }
}

pub open spec fn sort_desc(s: Seq<Seq<char>>) -> Seq<Seq<char>>
    decreases s.len(),
{
    if s.len() == 0 {
        s
    } else {
        insert_desc(sort_desc(s.drop_last()), s.last())
    }
}

pub open spec fn name_views(v: Seq<String>) -> Seq<Seq<char>> {
    v.map_values(|s: String| s@)
}

proof fn lemma_insert_desc_at(s: Seq<Seq<char>>, x: Seq<char>, j: int)
    requires
        0 <= j <= s.len(),
        forall|k: int| j <= k < s.len() ==> seq_lt(#[trigger] s[k], x),
        j == 0 || !seq_lt(s[j - 1], x),
    ensures
        insert_desc(s, x) == s.insert(j, x),
    decreases s.len() - j,
{
    if j < s.len() {
        let t = s.drop_last();
        assert forall|k: int| j <= k < t.len() implies seq_lt(#[trigger] t[k], x) by {
            assert(t[k] == s[k]);
        }
        if j > 0 {
            assert(t[j - 1] == s[j - 1]);
        }
        assert(seq_lt(s[s.len() - 1], x));
        lemma_insert_desc_at(t, x, j);
        assert(t.insert(j, x).push(s.last()) =~= s.insert(j, x));
    } else {
        assert(s.push(x) =~= s.insert(j, x));
    }
}

/// Saved session names, newest first (the names start with the time they
/// were saved at).
pub fn sort_newest_first(names: Vec<String>) -> (r: Vec<String>)
    ensures
        name_views(r@) == sort_desc(name_views(names@)),
{
    let ghost nv = name_views(names@);
    let mut out: Vec<String> = Vec::new();
    let mut i: usize = 0;
    assert(nv.take(0) =~= Seq::<Seq<char>>::empty());
    assert(name_views(out@) =~= Seq::<Seq<char>>::empty());
    while i < names.len()
        invariant
            i <= names.len(),
            nv == name_views(names@),
            name_views(out@) == sort_desc(nv.take(i as int)),
        decreases names.len() - i,
    {
        assert(nv.take(i + 1).drop_last() =~= nv.take(i as int));
        assert(nv.take(i + 1).last() == names@[i as int]@);
        let x = names[i].clone();
        let key = to_chars(x.as_str());
        let mut j = out.len();
        while j > 0 && seq_lt_v(&to_chars(out[j - 1].as_str()), &key)
            invariant
                j <= out.len(),
                key@ == x@,
                forall|k: int| j <= k < out.len() ==> seq_lt((#[trigger] out@[k])@, x@),
            decreases j,
        {
            j = j - 1;
        }
        let ghost before = name_views(out@);
        proof {
            assert forall|k: int| j <= k < before.len() implies seq_lt(#[trigger] before[k], x@) by {
                assert(before[k] == out@[k]@);
            }
            if j > 0 {
                assert(before[j - 1] == out@[j - 1]@);
            }
            lemma_insert_desc_at(before, x@, j as int);
        }
        out.insert(j, x);
        assert(name_views(out@) =~= before.insert(j as int, x@));
        i = i + 1;
    }
    assert(nv.take(names.len() as int) =~= nv);
    out
}

/// The prompt and completion tokens of the rounds whose usage is known.
pub open spec fn token_sums(usages: Seq<Option<Usage>>) -> (int, int)
    decreases usages.len(),
{
    if usages.len() == 0 {
        (0, 0)
    } else {
        let (p, c) = token_sums(usages.drop_last());
        match usages.last() {
            Some(u) => (p + u.prompt_tokens, c + u.completion_tokens),
            None => (p, c),
        }
    }
}

proof fn lemma_token_sums_grow(usages: Seq<Option<Usage>>, i: int)
    requires
        0 <= i <= usages.len(),
    ensures
        0 <= token_sums(usages.take(i)).0 <= token_sums(usages).0,
        0 <= token_sums(usages.take(i)).1 <= token_sums(usages).1,
    decreases usages.len(),
{
    if i < usages.len() {
        assert(usages.drop_last().take(i) =~= usages.take(i));
        lemma_token_sums_grow(usages.drop_last(), i);
    } else {
        assert(usages.take(i) =~= usages);
        if usages.len() > 0 {
            lemma_token_sums_grow(usages.drop_last(), usages.len() - 1);
            assert(usages.drop_last().take(usages.len() - 1) =~= usages.drop_last());
        }
    }
}

/// The session's prompt and completion tokens.
pub fn token_totals(usages: &Vec<Option<Usage>>) -> (r: (u64, u64))
    requires
        token_sums(usages@).0 <= u64::MAX,
        token_sums(usages@).1 <= u64::MAX,
    ensures
        r.0 == token_sums(usages@).0,
        r.1 == token_sums(usages@).1,
{
    let mut pt: u64 = 0;
    let mut ct: u64 = 0;
    let mut i: usize = 0;
    assert(usages@.take(0) =~= Seq::<Option<Usage>>::empty());
    while i < usages.len()
        invariant
            i <= usages.len(),
            token_sums(usages@).0 <= u64::MAX,
            token_sums(usages@).1 <= u64::MAX,
            pt == token_sums(usages@.take(i as int)).0,
            ct == token_sums(usages@.take(i as int)).1,
        decreases usages.len() - i,
    {
        assert(usages@.take(i + 1).drop_last() =~= usages@.take(i as int));
        proof {
            lemma_token_sums_grow(usages@, i + 1);
        }
        match usages[i] {
            Some(u) => {
                pt = pt + u.prompt_tokens;
                ct = ct + u.completion_tokens;
            },
            None => {},
        }
        i = i + 1;
    }
    assert(usages@.take(usages.len() as int) =~= usages@);
    (pt, ct)
}


/// What a session file says of the session besides its rounds.
pub struct SessionHead {
    pub version: u32,
    pub created_at_unix: u64,
    pub base_url: String,
    pub model: String,
    pub global_req: String,
}

/// Continuing a saved session in the web front end: the running session
/// keeps its version and creation time and records the service settings in
/// force; the global requirement comes from the saved session (its rounds
/// are taken over as they are).
pub fn resume_head(current: &SessionHead, base_url: &str, model: &str, saved: &SessionHead) -> (r:
    SessionHead)
    ensures
        r.version == current.version,
        r.created_at_unix == current.created_at_unix,
        r.base_url@ == base_url@,
        r.model@ == model@,
        r.global_req@ == saved.global_req@,
{
    SessionHead {
        version: current.version,
        created_at_unix: current.created_at_unix,
        base_url: String::from_str(base_url),
        model: String::from_str(model),
        global_req: saved.global_req.clone(),
    }
}

/// Importing a saved session in the desktop front end: the saved session
/// is taken whole (version, creation time, global requirement, and its
/// rounds as they are), except that it records the service settings in force.
pub fn import_head(saved: &SessionHead, base_url: &str, model: &str) -> (r: SessionHead)
    ensures
        r.version == saved.version,
        r.created_at_unix == saved.created_at_unix,
        r.base_url@ == base_url@,
        r.model@ == model@,
        r.global_req@ == saved.global_req@,
{
    SessionHead {
        version: saved.version,
        created_at_unix: saved.created_at_unix,
        base_url: String::from_str(base_url),
        model: String::from_str(model),
        global_req: saved.global_req.clone(),
    }
}

// ================================================================= laws

/// Names from greatest to least.
pub open spec fn sorted_desc(s: Seq<Seq<char>>) -> bool {
    forall|i: int, j: int| 0 <= i < j < s.len() ==> !seq_lt(s[i], s[j])
}

proof fn lemma_insert_desc(s: Seq<Seq<char>>, x: Seq<char>)
    requires
        sorted_desc(s),
    ensures
        sorted_desc(insert_desc(s, x)),
        insert_desc(s, x).to_multiset() =~= s.to_multiset().insert(x),
    decreases s.len(),
{
    broadcast use vstd::seq_lib::group_to_multiset_ensures;

    if s.len() == 0 {
        assert(seq![x] =~= s.push(x));
    } else {
        let prev = s.drop_last();
        let last = s.last();
        assert(s =~= prev.push(last));
        assert(sorted_desc(prev)) by {
            assert forall|i: int, j: int| 0 <= i < j < prev.len() implies !seq_lt(
                prev[i],
                prev[j],
            ) by {
                assert(prev[i] == s[i] && prev[j] == s[j]);
            }
        }
        if seq_lt(last, x) {
            lemma_insert_desc(prev, x);
            let t = insert_desc(prev, x);
            let r = t.push(last);
            assert forall|i: int| 0 <= i < t.len() implies !seq_lt(#[trigger] t[i], last) by {
                assert(t.to_multiset().count(t[i]) > 0);
                if t[i] == x {
                    if seq_lt(x, last) {
                        lemma_seq_lt_transitive(x, last, x);
                        lemma_seq_lt_irreflexive(x);
                    }
                } else {
                    assert(prev.to_multiset().count(t[i]) > 0);
                    assert(prev.contains(t[i]));
                    let k = choose|k: int| 0 <= k < prev.len() && prev[k] == t[i];
                    assert(s[k] == prev[k]);
                    assert(!seq_lt(s[k], s[s.len() - 1]));
                }
            }
            assert forall|i: int, j: int| 0 <= i < j < r.len() implies !seq_lt(r[i], r[j]) by {
                if j < t.len() {
                    assert(r[i] == t[i] && r[j] == t[j]);
                } else {
                    assert(r[i] == t[i]);
                }
            }
        } else {
            let r = s.push(x);
            assert forall|i: int, j: int| 0 <= i < j < r.len() implies !seq_lt(r[i], r[j]) by {
                if j < s.len() {
                    assert(r[i] == s[i] && r[j] == s[j]);
                } else if i < s.len() - 1 {
                    assert(r[i] == s[i]);
                    assert(!seq_lt(s[i], s[s.len() - 1]));
                    lemma_seq_le_transitive(x, last, s[i]);
                }
            }
        }
    }
}

/// Saved sessions are offered newest first: the names come from greatest
/// to least, each name once as often as it was found.
pub proof fn lemma_newest_first(names: Seq<Seq<char>>)
    ensures
        sorted_desc(sort_desc(names)),
        sort_desc(names).to_multiset() =~= names.to_multiset(),
    decreases names.len(),
{
    broadcast use vstd::seq_lib::group_to_multiset_ensures;

    if names.len() > 0 {
        lemma_newest_first(names.drop_last());
        lemma_insert_desc(sort_desc(names.drop_last()), names.last());
        assert(names =~= names.drop_last().push(names.last()));
    }
}

proof fn lemma_name_chars_clean(s: Seq<char>)
    ensures
        forall|i: int|
            0 <= i < name_chars(s).len() ==> !forbidden_in_name(#[trigger] name_chars(s)[i])
                && !is_space(name_chars(s)[i]),
    decreases s.len(),
{
    if s.len() > 0 {
        lemma_name_chars_clean(s.drop_last());
        let r = name_chars(s.drop_last());
        assert forall|i: int| 0 <= i < name_chars(s).len() implies !forbidden_in_name(
            #[trigger] name_chars(s)[i],
        ) && !is_space(name_chars(s)[i]) by {
            if i < r.len() {
                assert(name_chars(s)[i] == r[i]);
            }
        }
    }
}

/// A session saved under a name that gives a stem lies in a file whose name
/// is that stem and `.json`, where the stem holds no white space, no
/// character that file names may not hold, and neither starts nor ends
/// with a dot.
pub proof fn lemma_session_file_clean(name: Seq<char>, fallback: Seq<char>)
    requires
        session_stem(name).len() > 0,
    ensures
        session_file(name, fallback) == session_stem(name) + ".json"@,
        forall|i: int|
            0 <= i < session_stem(name).len() ==> !forbidden_in_name(
                #[trigger] session_stem(name)[i],
            ) && !is_space(session_stem(name)[i]),
        session_stem(name)[0] != '.',
        session_stem(name).last() != '.',
{
    let base = trim_end_str(trim(name), ".json"@);
    let cleaned = name_chars(base);
    let dots = Class::AnyOf(seq!['.']);
    lemma_name_chars_clean(base);
    let started = trim_start(cleaned, dots);
    lemma_trim_start_suffix(cleaned, dots);
    lemma_trim_end_prefix(started, dots);
    let stem = session_stem(name);
    assert forall|i: int| 0 <= i < stem.len() implies !forbidden_in_name(#[trigger] stem[i])
        && !is_space(stem[i]) by {
        assert(stem[i] == started[i]);
        let off = cleaned.len() - started.len();
        assert(started[i] == cleaned[off + i]);
    }
    crate::text::lemma_trim_start_first(cleaned, dots);
    crate::text::lemma_trim_end_last(started, dots);
    assert(stem[0] == started[0]);
    assert(seq!['.'][0] == '.');
    assert(dots.has('.'));
}

} // verus!
