use vstd::prelude::*;

use crate::command::{owned, strings_view, Command};
use crate::kv::KV;

verus! {

/// The outcome of looking up one key.
#[derive(Debug, PartialEq, Eq)]
pub enum GetResult {
    Found { key: String, value: String },
    NotFound(String),
}

/// The outcome of one command.
#[derive(Debug, PartialEq, Eq)]
pub enum CommandResponse {
    /// One entry per requested key, in request order.
    GetResponse(Vec<GetResult>),
    /// The key held a value before the write.
    SetStored,
    /// The key held no value before the write.
    SetUpdated,
}

/// Which response a write gives: the key existed before (`SetStored`) or not (`SetUpdated`).
pub open spec fn set_outcome(existed: bool) -> CommandResponse {
    if existed {
        CommandResponse::SetStored
    } else {
        CommandResponse::SetUpdated
    }
}

/// `r` is the lookup of key `k` in `m`.
pub open spec fn lookup_matches(m: Map<Seq<char>, Seq<char>>, k: Seq<char>, r: GetResult) -> bool {
    match r {
        GetResult::Found { key, value } => key@ == k && m.contains_key(k) && value@ == m[k],
        GetResult::NotFound(key) => key@ == k && !m.contains_key(k),
    }
}

/// `rs` holds the lookups of `keys` in `m`, one per key, in order.
pub open spec fn lookups_match(
    m: Map<Seq<char>, Seq<char>>,
    keys: Seq<Seq<char>>,
    rs: Seq<GetResult>,
) -> bool {
    &&& rs.len() == keys.len()
    &&& forall|i: int| 0 <= i < rs.len() ==> lookup_matches(m, keys[i], #[trigger] rs[i])
}

/// Looks each key up under one read of the store; misses are reported, not skipped.
pub fn get_response<K: KV>(kv: &K, keys: &Vec<String>) -> (r: Vec<GetResult>)
    requires
        kv.well_formed(),
    ensures
        lookups_match(kv.contents(), strings_view(keys@), r@),
{
    let mut results: Vec<GetResult> = Vec::new();
    let mut i: usize = 0;
    while i < keys.len()
        invariant
            kv.well_formed(),
            i <= keys@.len(),
            lookups_match(kv.contents(), strings_view(keys@).take(i as int), results@),
        decreases keys@.len() - i,
    {
        let key = &keys[i];
        let entry = match kv.get(key.as_str()) {
            Some(val) => GetResult::Found { key: key.clone(), value: val.clone() },
            None => GetResult::NotFound(key.clone()),
        };
        let ghost before = results@;
        results.push(entry);
        proof {
            let ks = strings_view(keys@);
            assert(ks.take(i + 1)[i as int] == keys@[i as int]@);
            assert forall|j: int| 0 <= j < results@.len() implies lookup_matches(
                kv.contents(),
                ks.take(i + 1)[j],
                #[trigger] results@[j],
            ) by {
                if j < i {
                    assert(results@[j] == before[j]);
                    assert(ks.take(i + 1)[j] == ks.take(i as int)[j]);
                }
            }
        }
        i = i + 1;
    }
    assert(strings_view(keys@).take(keys@.len() as int) =~= strings_view(keys@));
    results
}

/// Writes `value` under `key` and reports whether the key existed before.
pub fn set_response<K: KV>(kv: &mut K, key: &String, value: &String) -> (r: CommandResponse)
    requires
        old(kv).well_formed(),
    ensures
        final(kv).well_formed(),
        final(kv).contents() == old(kv).contents().insert(key@, value@),
        r == set_outcome(old(kv).contents().contains_key(key@)),
{
    if kv.store(key.as_str(), value.as_str()) {
        CommandResponse::SetStored
    } else {
        CommandResponse::SetUpdated
    }
}

/// Runs one command against the store.
pub fn dispatch<K: KV>(kv: &mut K, cmd: &Command) -> (r: CommandResponse)
    requires
        old(kv).well_formed(),
    ensures
        final(kv).well_formed(),
        match cmd {
            Command::Get(keys) => {
                &&& final(kv).contents() == old(kv).contents()
                &&& r matches CommandResponse::GetResponse(rs) && lookups_match(
                    old(kv).contents(),
                    strings_view(keys@),
                    rs@,
                )
            },
            Command::Store(k, v) => {
                &&& final(kv).contents() == old(kv).contents().insert(k@, v@)
                &&& r == set_outcome(old(kv).contents().contains_key(k@))
            },
        },
{
    match cmd {
        Command::Get(keys) => CommandResponse::GetResponse(get_response(&*kv, keys)),
        Command::Store(k, v) => set_response(kv, k, v),
    }
}

pub open spec fn crlf() -> Seq<char> {
    seq!['\r', '\n']
}

pub open spec fn end_line() -> Seq<char> {
    seq!['E', 'N', 'D', '\r', '\n']
}

pub open spec fn stored_line() -> Seq<char> {
    seq!['S', 'T', 'O', 'R', 'E', 'D', '\r', '\n']
}

pub open spec fn updated_line() -> Seq<char> {
    seq!['U', 'P', 'D', 'A', 'T', 'E', 'D', '\r', '\n']
}

pub open spec fn parse_error_line() -> Seq<char> {
    seq!['P', 'A', 'R', 'S', 'E', ' ', 'E', 'R', 'R', 'O', 'R', '\r', '\n']
}

/// One line per found value, in order; misses give no line.
pub open spec fn found_lines(rs: Seq<GetResult>) -> Seq<char>
    decreases rs.len(),
{
    if rs.len() == 0 {
        Seq::empty()
    } else {
        found_lines(rs.drop_last()) + match rs.last() {
            GetResult::Found { value, .. } => value@ + crlf(),
            GetResult::NotFound(_) => Seq::empty(),
        }
    }
}

/// The text that a response puts on the wire.
pub open spec fn wire_text(r: CommandResponse) -> Seq<char> {
    match r {
        CommandResponse::GetResponse(rs) => found_lines(rs@) + end_line(),
        CommandResponse::SetStored => stored_line(),
        CommandResponse::SetUpdated => updated_line(),
    }
}

/// The reply to input that does not parse as a command.
pub fn parse_error_reply() -> (r: String)
    ensures
        r@ == parse_error_line(),
{
    proof {
        reveal_strlit("PARSE ERROR\r\n");
    }
    let r = owned("PARSE ERROR\r\n");
    assert(r@ =~= parse_error_line());
    r
}

impl CommandResponse {
    /// The text of this response on the wire.
    pub fn to_wire(&self) -> (r: String)
        ensures
            r@ == wire_text(*self),
    {
        match self {
            CommandResponse::GetResponse(rs) => {
                let mut out = String::new();
                let mut i: usize = 0;
                proof {
                    reveal_strlit("\r\n");
                }
                assert(rs@.take(0) =~= Seq::<GetResult>::empty());
                while i < rs.len()
                    invariant
                        i <= rs@.len(),
                        out@ == found_lines(rs@.take(i as int)),
                        "\r\n"@ == crlf(),
                    decreases rs@.len() - i,
                {
                    assert(rs@.take(i + 1).drop_last() =~= rs@.take(i as int));
                    match &rs[i] {
                        GetResult::Found { value, .. } => {
                            out.append(value.as_str());
                            out.append("\r\n");
                            assert(out@ =~= found_lines(rs@.take(i + 1)));
                        },
                        GetResult::NotFound(_) => {
                            assert(out@ =~= found_lines(rs@.take(i + 1)));
                        },
                    }
                    i = i + 1;
                }
                assert(rs@.take(rs@.len() as int) =~= rs@);
                proof {
                    reveal_strlit("END\r\n");
                }
                out.append("END\r\n");
                assert(out@ =~= found_lines(rs@) + end_line());
                out
            },
            CommandResponse::SetStored => {
                proof {
                    reveal_strlit("STORED\r\n");
                }
                let r = owned("STORED\r\n");
                assert(r@ =~= stored_line());
                r
            },
            CommandResponse::SetUpdated => {
                proof {
                    reveal_strlit("UPDATED\r\n");
                }
                let r = owned("UPDATED\r\n");
                assert(r@ =~= updated_line());
                r
            },
        }
    }
}

/// What a lookup reports: the key, whether it was found, and the value if it was.
pub open spec fn result_view(g: GetResult) -> (Seq<char>, bool, Seq<char>) {
    match g {
        GetResult::Found { key, value } => (key@, true, value@),
        GetResult::NotFound(key) => (key@, false, Seq::empty()),
    }
}

/// The store's contents after writing each of `vs` under `k`, in order.
pub open spec fn apply_writes(
    m: Map<Seq<char>, Seq<char>>,
    k: Seq<char>,
    vs: Seq<Seq<char>>,
) -> Map<Seq<char>, Seq<char>>
    decreases vs.len(),
{
    if vs.len() == 0 {
        m
    } else {
        apply_writes(m, k, vs.drop_last()).insert(k, vs.last())
    }
}

/// A read after a write of `v` under `k` finds `v`.
pub proof fn lemma_set_then_get(
    m: Map<Seq<char>, Seq<char>>,
    k: Seq<char>,
    v: Seq<char>,
    rs: Seq<GetResult>,
)
    requires
        lookups_match(m.insert(k, v), seq![k], rs),
    ensures
        rs.len() == 1,
        result_view(rs[0]) == (k, true, v),
{
    assert(lookup_matches(m.insert(k, v), seq![k][0], rs[0]));
}

/// Two reads of the same keys with no write between them report the same thing.
pub proof fn lemma_reads_repeat(
    m: Map<Seq<char>, Seq<char>>,
    keys: Seq<Seq<char>>,
    r1: Seq<GetResult>,
    r2: Seq<GetResult>,
)
    requires
        lookups_match(m, keys, r1),
        lookups_match(m, keys, r2),
    ensures
        r1.len() == r2.len(),
        forall|i: int| 0 <= i < r1.len() ==> result_view(#[trigger] r1[i]) == result_view(r2[i]),
{
    assert forall|i: int| 0 <= i < r1.len() implies result_view(#[trigger] r1[i]) == result_view(
        r2[i],
    ) by {
        assert(lookup_matches(m, keys[i], r1[i]));
        assert(lookup_matches(m, keys[i], r2[i]));
    }
}

/// A second write under a key replaces the first, and its outcome says the key existed.
pub proof fn lemma_overwrite(
    m: Map<Seq<char>, Seq<char>>,
    k: Seq<char>,
    v1: Seq<char>,
    v2: Seq<char>,
    rs: Seq<GetResult>,
)
    requires
        lookups_match(m.insert(k, v1).insert(k, v2), seq![k], rs),
    ensures
        set_outcome(m.insert(k, v1).contains_key(k)) == CommandResponse::SetStored,
        rs.len() == 1,
        result_view(rs[0]) == (k, true, v2),
{
    assert(lookup_matches(m.insert(k, v1).insert(k, v2), seq![k][0], rs[0]));
}

/// Writes under one key, taken one at a time in any order, leave exactly the last value.
pub proof fn lemma_serialized_writes(m: Map<Seq<char>, Seq<char>>, k: Seq<char>, vs: Seq<Seq<char>>)
    requires
        vs.len() >= 1,
    ensures
        apply_writes(m, k, vs).contains_key(k),
        apply_writes(m, k, vs)[k] == vs.last(),
        vs.contains(apply_writes(m, k, vs)[k]),
{
    assert(vs[vs.len() - 1] == vs.last());
}

/// A key missing from the store is reported as not found and gives no line on the wire.
pub proof fn lemma_missing_key(m: Map<Seq<char>, Seq<char>>, k: Seq<char>, rs: Seq<GetResult>)
    requires
        !m.contains_key(k),
        lookups_match(m, seq![k], rs),
    ensures
        rs.len() == 1,
        rs[0] is NotFound,
        found_lines(rs) + end_line() == end_line(),
{
    assert(lookup_matches(m, seq![k][0], rs[0]));
    assert(rs.drop_last() =~= Seq::<GetResult>::empty());
    assert(found_lines(rs.drop_last()) == Seq::<char>::empty());
    assert(rs.last() == rs[0]);
    assert(found_lines(rs) =~= Seq::<char>::empty());
    assert(found_lines(rs) + end_line() =~= end_line());
}

} // verus!
