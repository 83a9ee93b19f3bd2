//! Session records and the pure pieces of their persistence: the stored
//! record, the timestamped filename a session is kept under, the wire format
//! of an app identity crossing the UI boundary (a `|||`-delimited string),
//! and the newest-first ordering of a session listing. Reading and writing
//! the session directory is the caller's.

use vstd::multiset::Multiset;
use vstd::prelude::*;

use crate::app_blocker::BlockedApp;
use crate::text::{
    all_digits, append_chars, chars_to_string, dec_of_int, dec_val, ends_with,
    ends_with_vec, find_sub, find_sub_vec, i64_to_dec_chars, parse_u64_dec, starts_with,
    starts_with_vec, str_to_chars, sub_vec,
};

verus! {

broadcast use vstd::seq_lib::group_to_multiset_ensures, vstd::multiset::group_multiset_axioms;

/// A session as it is stored.
pub struct Store {
    pub goal: String,
    pub duration: u64,
    pub blocked_things: Vec<String>,
    pub blocked_apps: Vec<String>,
}

/// A stored session together with the timestamp its filename carries.
pub struct Session {
    pub goal: String,
    pub duration: u64,
    pub blocked_things: Vec<String>,
    pub blocked_apps: Vec<String>,
    pub timestamp: i64,
}

/// The text before the first field delimiter, or all of it.
pub open spec fn spec_first_field(s: Seq<char>) -> Seq<char> {
    let i = find_sub(s, "|||"@);
    if i < 0 {
        s
    } else {
        s.take(i)
    }
}

/// The text between the first and second field delimiters, when a first
/// delimiter exists.
pub open spec fn spec_second_field(s: Seq<char>) -> Option<Seq<char>> {
    let i = find_sub(s, "|||"@);
    if i < 0 {
        None
    } else {
        let rest = s.skip(i + "|||"@.len());
        let j = find_sub(rest, "|||"@);
        if j < 0 {
            Some(rest)
        } else {
            Some(rest.take(j))
        }
    }
}

/// Decode the `|||`-delimited app identity the UI hands across: the first
/// field is the display name, the second the executable, defaulted when
/// missing; any further fields are ignored.
pub fn parse_app_string(s: &str) -> (r: BlockedApp)
    ensures
        r.name@ == spec_first_field(s@),
        r.executable@ == match spec_second_field(s@) {
            Some(e) => e,
            None => "unknown"@,
        },
{
    let cs = str_to_chars(s);
    let sep = str_to_chars("|||");
    match find_sub_vec(&cs, &sep) {
        None => {
            let name_cs = sub_vec(&cs, 0, cs.len());
            proof {
                assert(cs@.subrange(0, cs@.len() as int) =~= cs@);
            }
            BlockedApp { name: chars_to_string(&name_cs), executable: String::from_str("unknown") }
        },
        Some(i) => {
            let n: usize = cs.len();
            let name_cs = sub_vec(&cs, 0, i);
            let rest = sub_vec(&cs, i + sep.len(), n);
            proof {
                assert(cs@.subrange(i as int + sep@.len() as int, cs@.len() as int) =~= cs@.skip(
                    i as int + "|||"@.len(),
                ));
            }
            let exe_cs = match find_sub_vec(&rest, &sep) {
                None => {
                    let e = sub_vec(&rest, 0, rest.len());
                    proof {
                        assert(rest@.subrange(0, rest@.len() as int) =~= rest@);
                    }
                    e
                },
                Some(j) => sub_vec(&rest, 0, j),
            };
            BlockedApp { name: chars_to_string(&name_cs), executable: chars_to_string(&exe_cs) }
        },
    }
}

/// The filename a session created at the given timestamp is stored under.
pub open spec fn spec_session_filename(ts: int) -> Seq<char> {
    "session_"@ + dec_of_int(ts) + ".json"@
}

/// Render the filename for a session created at the given timestamp.
pub fn session_filename(timestamp: i64) -> (r: String)
    ensures
        r@ == spec_session_filename(timestamp as int),
{
    let mut out = str_to_chars("session_");
    let digits = i64_to_dec_chars(timestamp);
    append_chars(&mut out, &digits);
    let ext = str_to_chars(".json");
    append_chars(&mut out, &ext);
    chars_to_string(&out)
}

/// The value of a signed decimal numeral, when the text is one: an optional
/// minus sign, then digits, the whole fitting a 64-bit signed integer.
pub open spec fn spec_parse_i64(s: Seq<char>) -> Option<int> {
    if s.len() > 0 && s[0] == '-' {
        let mag = s.drop_first();
        if mag.len() > 0 && all_digits(mag) && dec_val(mag) <= 0x8000000000000000 {
            Some(-(dec_val(mag) as int))
        } else {
            None
        }
    } else if s.len() > 0 && all_digits(s) && dec_val(s) <= i64::MAX {
        Some(dec_val(s) as int)
    } else {
        None
    }
}

/// Parse a signed decimal numeral.
pub fn parse_i64_dec(s: &Vec<char>) -> (r: Option<i64>)
    ensures
        match r {
            Some(v) => spec_parse_i64(s@) == Some(v as int),
            None => spec_parse_i64(s@) is None,
        },
{
    let n: usize = s.len();
    if n == 0 {
        return None;
    }
    if s[0] == '-' {
        let mag = sub_vec(s, 1, n);
        proof {
            assert(s@.subrange(1, n as int) =~= s@.drop_first());
        }
        match parse_u64_dec(&mag) {
            Some(v) => {
                if v > 9223372036854775808u64 {
                    return None;
                }
                if v == 9223372036854775808u64 {
                    Some(i64::MIN)
                } else {
                    Some(-(v as i64))
                }
            },
            None => None,
        }
    } else {
        let me = sub_vec(s, 0, n);
        proof {
            assert(s@.subrange(0, n as int) =~= s@);
        }
        match parse_u64_dec(&me) {
            Some(v) => {
                if v > i64::MAX as u64 {
                    return None;
                }
                Some(v as i64)
            },
            None => None,
        }
    }
}

/// The timestamp a session filename carries, when the name has the stored
/// shape: the fixed prefix, a signed decimal timestamp, the fixed extension.
pub open spec fn spec_parse_session_filename(s: Seq<char>) -> Option<int> {
    if starts_with(s, "session_"@) && ends_with(s, ".json"@) && s.len() >= "session_"@.len()
        + ".json"@.len() {
        spec_parse_i64(s.subrange("session_"@.len() as int, s.len() - ".json"@.len()))
    } else {
        None
    }
}

/// Read the timestamp out of a session filename.
pub fn parse_session_filename(name: &str) -> (r: Option<i64>)
    ensures
        match r {
            Some(v) => spec_parse_session_filename(name@) == Some(v as int),
            None => spec_parse_session_filename(name@) is None,
        },
{
    let cs = str_to_chars(name);
    let prefix = str_to_chars("session_");
    let ext = str_to_chars(".json");
    if !starts_with_vec(&cs, &prefix) {
        return None;
    }
    if !ends_with_vec(&cs, &ext) {
        return None;
    }
    if cs.len() - prefix.len() < ext.len() {
        return None;
    }
    let mid = sub_vec(&cs, prefix.len(), cs.len() - ext.len());
    parse_i64_dec(&mid)
}

/// Order a session listing newest first: sorted by timestamp descending,
/// with exactly the sessions that came in.
pub fn sort_sessions_by_timestamp(v: Vec<Session>) -> (r: Vec<Session>)
    ensures
        r@.to_multiset() == v@.to_multiset(),
        forall|i: int, j: int|
            0 <= i < j < r@.len() ==> #[trigger] r@[i].timestamp >= #[trigger] r@[j].timestamp,
{
    let mut work = v;
    let mut out: Vec<Session> = Vec::new();
    proof {
        assert(out@.to_multiset().add(work@.to_multiset()) =~= v@.to_multiset());
    }
    while work.len() > 0
        invariant
            out@.to_multiset().add(work@.to_multiset()) == v@.to_multiset(),
            forall|i: int, j: int|
                0 <= i < j < out@.len() ==> #[trigger] out@[i].timestamp
                    >= #[trigger] out@[j].timestamp,
            forall|i: int, j: int|
                0 <= i < out@.len() && 0 <= j < work@.len() ==> #[trigger] out@[i].timestamp
                    >= #[trigger] work@[j].timestamp,
        decreases work@.len(),
    {
        let n: usize = work.len();
        let mut best: usize = 0;
        let mut k: usize = 1;
        while k < n
            invariant
                best < k <= n,
                n == work@.len(),
                forall|j: int| 0 <= j < k ==> work@[best as int].timestamp
                    >= #[trigger] work@[j].timestamp,
            decreases n - k,
        {
            if work[k].timestamp > work[best].timestamp {
                best = k;
            }
            k = k + 1;
        }
        let ghost pre_work = work@;
        let ghost pre_out = out@;
        let e = work.remove(best);
        out.push(e);
        proof {
            assert(pre_work.to_multiset().count(e) > 0) by {
                assert(pre_work.contains(e)) by {
                    assert(pre_work[best as int] == e);
                }
            }
            assert(out@ == pre_out.push(e));
            assert(pre_out.push(e).to_multiset() =~= pre_out.to_multiset().insert(e));
            assert(work@ == pre_work.remove(best as int));
            assert(pre_work.remove(best as int).to_multiset() =~= pre_work.to_multiset().remove(
                pre_work[best as int],
            ));
            assert(out@.to_multiset().add(work@.to_multiset()) =~= pre_out.to_multiset().add(
                pre_work.to_multiset(),
            ));
            assert(forall|j: int|
                0 <= j < work@.len() ==> pre_work.contains(#[trigger] work@[j]) && (work@[j]
                    == pre_work[j] || work@[j] == pre_work[j + 1]));
        }
    }
    proof {
        assert(work@.to_multiset() =~= Multiset::<Session>::empty());
        assert(out@.to_multiset() =~= v@.to_multiset());
    }
    out
}

} // verus!
