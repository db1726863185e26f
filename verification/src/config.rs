//! The settings of the model service: its endpoint, how the key is shown,
//! and what a form's token limit means.
use vstd::prelude::*;
use crate::text::{
    ends_with, ends_with_v, lemma_trim_end_prefix, lemma_trim_start_first, trim_start, from_chars, parse_u32, parse_u32_v, to_chars, trim, trim_end,
    trim_end_v, trim_v, copy_range, is_space, CharSet, Class,
};

verus! {

/// The path of the chat completion call.
pub const CHAT_PATH: &'static str = "/chat/completions";

/// The endpoint for a base URL: trimmed, without trailing slashes, without
/// the chat path if it already ends with it, then with the chat path added.
pub open spec fn endpoint_text(base_url: Seq<char>) -> Seq<char> {
    let u = trim_end(trim(base_url), Class::AnyOf(seq!['/']));
    let stem = if ends_with(u, CHAT_PATH@) {
        u.take(u.len() - CHAT_PATH@.len())
    } else {
        u
    };
    stem + CHAT_PATH@
}

/// A key as shown to people: nothing for a blank key, its first and last
/// four characters around `***` for a key of more than ten, else `***`.
pub open spec fn masked_text(api_key: Seq<char>) -> Seq<char> {
    let k = trim(api_key);
    if k.len() == 0 {
        Seq::empty()
    } else if k.len() > 10 {
        k.take(4) + "***"@ + k.skip(k.len() - 4)
    } else {
        "***"@
    }
}

/// The chat completion endpoint of a base URL.
pub fn endpoint_for(base_url: &str) -> (r: String)
    ensures
        r@ == endpoint_text(base_url@),
{
    let slash = CharSet::any_of(vec!['/']);
    assert(slash.chars@ =~= seq!['/']);
    let u = trim_end_v(&trim_v(&to_chars(base_url)), &slash);
    let path = to_chars(CHAT_PATH);
    let stem = if ends_with_v(&u, &path) {
        copy_range(&u, 0, u.len() - path.len())
    } else {
        u
    };
    let mut r = from_chars(&stem);
    r.append(CHAT_PATH);
    r
}

/// An API key as shown to people.
pub fn mask_key(api_key: &str) -> (r: String)
    ensures
        r@ == masked_text(api_key@),
{
    let k = trim_v(&to_chars(api_key));
    if k.len() == 0 {
        String::new()
    } else if k.len() > 10 {
        let mut r = from_chars(&copy_range(&k, 0, 4));
        r.append("***");
        let tail = from_chars(&copy_range(&k, k.len() - 4, k.len()));
        r.append(tail.as_str());
        r
    } else {
        String::from_str("***")
    }
}

/// The `Authorization` header a key gives: none for a blank key, else
/// `Bearer ` and the trimmed key.
pub open spec fn auth_text(api_key: Seq<char>) -> Option<Seq<char>> {
    let k = trim(api_key);
    if k.len() == 0 {
        None
    } else {
        Some("Bearer "@ + k)
    }
}

/// The `Authorization` header of a call made with the given key.
pub fn auth_header(api_key: &str) -> (r: Option<String>)
    ensures
        match r {
            Some(h) => auth_text(api_key@) == Some(h@),
            None => auth_text(api_key@) is None,
        },
{
    let k = trim_v(&to_chars(api_key));
    if k.len() == 0 {
        None
    } else {
        let mut h = String::from_str("Bearer ");
        let key = from_chars(&k);
        h.append(key.as_str());
        Some(h)
    }
}

/// The token limit a settings form gives: none when the field is blank or
/// does not hold a whole number of at least 1.
pub open spec fn form_max_tokens(field: Seq<char>) -> Option<u32> {
    let t = trim(field);
    if t.len() == 0 {
        None
    } else {
        match parse_u32(t) {
            Some(v) => if v >= 1 {
                Some(v)
            } else {
                None
            },
            None => None,
        }
    }
}

/// The token limit typed in a settings form.
pub fn max_tokens_from_form(field: &str) -> (r: Option<u32>)
    ensures
        r == form_max_tokens(field@),
{
    let t = trim_v(&to_chars(field));
    if t.len() == 0 {
        return None;
    }
    match parse_u32_v(&t) {
        Some(v) => if v >= 1 {
            Some(v)
        } else {
            None
        },
        None => None,
    }
}

/// A requested token limit, kept only when it is at least 1.
pub fn accepted_max_tokens(requested: Option<u32>) -> (r: Option<u32>)
    ensures
        r == (match requested {
            Some(v) => if v >= 1 {
                Some(v)
            } else {
                None
            },
            None => None,
        }),
{
    match requested {
        Some(v) => if v >= 1 {
            Some(v)
        } else {
            None
        },
        None => None,
    }
}


/// The endpoint always ends with the chat path, and an endpoint is its own
/// endpoint: completing an already complete URL changes nothing.
pub proof fn lemma_endpoint_complete(base_url: Seq<char>)
    ensures
        ends_with(endpoint_text(base_url), CHAT_PATH@),
        endpoint_text(endpoint_text(base_url)) == endpoint_text(base_url),
{
    reveal_strlit("/chat/completions");
    let p = CHAT_PATH@;
    let slash = Class::AnyOf(seq!['/']);
    let t = trim(base_url);
    let u = trim_end(t, slash);
    let stem = if ends_with(u, p) {
        u.take(u.len() - p.len())
    } else {
        u
    };
    let e = stem + p;
    assert(e.subrange(e.len() - p.len(), e.len() as int) =~= p);
    // the first character of `e` is not white space
    lemma_trim_start_first(base_url, Class::Space);
    lemma_trim_end_prefix(trim_start(base_url, Class::Space), Class::Space);
    lemma_trim_end_prefix(t, slash);
    if stem.len() > 0 {
        assert(stem[0] == u[0]);
        assert(u[0] == t[0]);
        assert(t[0] == trim_start(base_url, Class::Space)[0]);
        assert(e[0] == stem[0]);
    } else {
        assert(e[0] == p[0]);
    }
    assert(!is_space(e[0]));
    assert(e.last() == 's');
    assert(trim_start(e, Class::Space) == e);
    assert(trim_end(e, Class::Space) == e);
    assert(trim(e) == e);
    assert(trim_end(e, slash) == e);
    assert(e.take(e.len() - p.len()) =~= stem);
}

} // verus!
