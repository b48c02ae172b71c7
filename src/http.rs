use vstd::prelude::*;

use crate::command::owned;
use crate::kv::KV;
use crate::parser::index_of;
use crate::server::{set_response, CommandResponse};

verus! {

/// The key named by a `get` query.
#[derive(Debug, PartialEq, Eq)]
pub struct GetParams(pub String);

/// The pair named by a `set` query.
#[derive(Debug, PartialEq, Eq)]
pub struct SetParams {
    pub key: String,
    pub value: String,
}

/// Position of the first `=` in a query, or its length.
pub open spec fn eq_pos(s: Seq<char>) -> int {
    index_of(s, '=')
}

/// What stands before the first `=`.
pub open spec fn query_name(s: Seq<char>) -> Seq<char> {
    s.take(eq_pos(s))
}

/// What stands between the first `=` and the next one (or the end).
pub open spec fn query_value(s: Seq<char>) -> Seq<char> {
    s.subrange(eq_pos(s) + 1, eq_pos(s) + 1 + index_of(s.skip(eq_pos(s) + 1), '='))
}

/// The query holds at least one `=`.
pub open spec fn has_pair(s: Seq<char>) -> bool {
    eq_pos(s) < s.len()
}

pub open spec fn is_key_word(t: Seq<char>) -> bool {
    t.len() == 3 && t[0] == 'k' && t[1] == 'e' && t[2] == 'y'
}

/// Splits a query at its first `=`; the value ends at the next `=`.
fn split_query(params: &str) -> (r: Option<(String, String)>)
    ensures
        r is Some <==> has_pair(params@),
        r matches Some((a, b)) ==> a@ == query_name(params@) && b@ == query_value(params@),
{
    let ghost s = params@;
    let n = params.unicode_len();
    proof {
        crate::parser::lemma_index_of_bounds(s, '=');
    }
    assert(s.skip(0) =~= s);
    let p = match crate::parser::find_char(params, n, 0, '=') {
        Some(p) => p,
        None => {
            return None;
        },
    };
    let q = match crate::parser::find_char(params, n, p + 1, '=') {
        Some(q) => q,
        None => n,
    };
    let a = owned(params.substring_char(0, p));
    let b = owned(params.substring_char(p + 1, q));
    assert(a@ =~= query_name(s));
    Some((a, b))
}

/// Reads a `get` query of the form `key=<key>`.
#[must_use]
pub fn _parse_get_query_params(params: &str) -> (r: Option<GetParams>)
    ensures
        r is Some <==> has_pair(params@) && is_key_word(query_name(params@)),
        r matches Some(g) ==> g.0@ == query_value(params@),
{
    match split_query(params) {
        Some((a, b)) => {
            if a.unicode_len() == 3 && a.as_str().get_char(0) == 'k' && a.as_str().get_char(1) == 'e'
                && a.as_str().get_char(2) == 'y' {
                Some(GetParams(b))
            } else {
                None
            }
        },
        None => None,
    }
}

/// Reads a `set` query of the form `<key>=<value>`.
pub fn parse_set_query_params(params: &str) -> (r: Option<SetParams>)
    ensures
        r is Some <==> has_pair(params@),
        r matches Some(p) ==> p.key@ == query_name(params@) && p.value@ == query_value(params@),
{
    match split_query(params) {
        Some((a, b)) => Some(SetParams { key: a, value: b }),
        None => None,
    }
}

pub open spec fn not_found_text() -> Seq<char> {
    seq!['N', 'O', 'T', ' ', 'F', 'O', 'U', 'N', 'D']
}

pub open spec fn stored_text() -> Seq<char> {
    seq!['S', 'T', 'O', 'R', 'E', 'D']
}

pub open spec fn updated_text() -> Seq<char> {
    seq!['U', 'P', 'D', 'A', 'T', 'E', 'D']
}

/// The HTTP reply to a lookup: the value, or `NOT FOUND`.
pub fn http_get_reply<K: KV>(kv: &K, key: &str) -> (r: String)
    requires
        kv.well_formed(),
    ensures
        kv.contents().contains_key(key@) ==> r@ == kv.contents()[key@],
        !kv.contents().contains_key(key@) ==> r@ == not_found_text(),
{
    match kv.get(key) {
        Some(v) => v.clone(),
        None => {
            proof {
                reveal_strlit("NOT FOUND");
            }
            let r = owned("NOT FOUND");
            assert(r@ =~= not_found_text());
            r
        },
    }
}

/// The HTTP reply to a write, under the same outcome policy as the text protocol.
pub fn http_set_reply<K: KV>(kv: &mut K, key: &str, value: &str) -> (r: String)
    requires
        old(kv).well_formed(),
    ensures
        final(kv).well_formed(),
        final(kv).contents() == old(kv).contents().insert(key@, value@),
        r@ == if old(kv).contents().contains_key(key@) {
            stored_text()
        } else {
            updated_text()
        },
{
    let k = owned(key);
    let v = owned(value);
    match set_response(kv, &k, &v) {
        CommandResponse::SetStored => {
            proof {
                reveal_strlit("STORED");
            }
            let r = owned("STORED");
            assert(r@ =~= stored_text());
            r
        },
        _ => {
            proof {
                reveal_strlit("UPDATED");
            }
            let r = owned("UPDATED");
            assert(r@ =~= updated_text());
            r
        },
    }
}

} // verus!
