//! Process matcher: decides whether a live process, described by its reported
//! command name, raw command line, and resolved executable path, matches a
//! target executable string. Matching is case-insensitive over ASCII — case
//! differences in non-ASCII letters are not bridged — and deliberately
//! tolerates substring hits (launcher wrappers rename processes), at a
//! documented false-positive risk.

use vstd::prelude::*;

use crate::text::{
    contains_vec, eq_vec, find_char, has_sub, lemma_find_char, lower, lower_vec,
    str_to_chars, sub_vec, trim, trim_vec,
};

verus! {

/// One live process, as read from the process-information source. An
/// executable path that could not be resolved is the empty string.
pub struct ProcessInfo {
    pub pid: u32,
    pub comm: String,
    pub cmdline: String,
    pub exe_path: String,
}

/// The command line with its null separators turned into spaces.
pub open spec fn cmdline_normalized(s: Seq<char>) -> Seq<char> {
    s.map_values(
        |c: char|
            if c == '\0' {
                ' '
            } else {
                c
            },
    )
}

/// The final component of a path: the text after its last `/`.
pub open spec fn basename_of(s: Seq<char>) -> Seq<char>
    decreases s.len(),
{
    let i = find_char(s, '/');
    if 0 <= i < s.len() {
        basename_of(s.skip(i + 1))
    } else {
        s
    }
}

/// A process matches a target when (first hit wins, all case-insensitively)
/// its trimmed command name equals or contains the target, or its normalized
/// command line contains it, or its executable's basename equals or contains
/// it.
pub open spec fn process_matches(p: ProcessInfo, target: Seq<char>) -> bool {
    let t = lower(target);
    let comm_clean = lower(trim(p.comm@));
    let cmd = lower(cmdline_normalized(p.cmdline@));
    let base = lower(basename_of(p.exe_path@));
    ||| comm_clean == t
    ||| has_sub(comm_clean, t)
    ||| has_sub(cmd, t)
    ||| base == t
    ||| has_sub(base, t)
}

/// The identifiers of the matching processes, in snapshot order.
pub open spec fn matching_pids(procs: Seq<ProcessInfo>, target: Seq<char>) -> Seq<u32>
    decreases procs.len(),
{
    if procs.len() == 0 {
        Seq::empty()
    } else {
        let prefix = matching_pids(procs.drop_last(), target);
        if process_matches(procs.last(), target) {
            prefix.push(procs.last().pid)
        } else {
            prefix
        }
    }
}

/// Replace null separators by spaces.
fn normalize_cmdline(s: &Vec<char>) -> (r: Vec<char>)
    ensures
        r@ == cmdline_normalized(s@),
{
    let n: usize = s.len();
    let mut out: Vec<char> = Vec::new();
    let mut i: usize = 0;
    while i < n
        invariant
            i <= n,
            n == s@.len(),
            out@ == cmdline_normalized(s@.take(i as int)),
        decreases n - i,
    {
        let c = s[i];
        if c == '\0' {
            out.push(' ');
        } else {
            out.push(c);
        }
        i = i + 1;
        proof {
            assert(out@ =~= cmdline_normalized(s@.take(i as int)));
        }
    }
    proof {
        assert(s@.take(n as int) =~= s@);
    }
    out
}

/// `basename_of` keeps exactly the text after the last slash.
proof fn lemma_basename_after(s: Seq<char>, j: int)
    requires
        0 <= j < s.len(),
        s[j] == '/',
        forall|k: int| j < k < s.len() ==> s[k] != '/',
    ensures
        basename_of(s) == s.skip(j + 1),
    decreases s.len(),
{
    lemma_find_char(s, '/');
    let i = find_char(s, '/');
    if i < 0 {
        assert(s[j] != '/');
    }
    assert(0 <= i < s.len());
    if i == j {
        let rest = s.skip(j + 1);
        assert(forall|k: int| 0 <= k < rest.len() ==> #[trigger] rest[k] == s[k + j + 1]);
        lemma_basename_whole(rest);
    } else {
        assert(i < j) by {
            if i > j {
                assert(s[j] != '/');
            }
        }
        let rest = s.skip(i + 1);
        assert(rest[j - i - 1] == s[j]);
        assert(forall|k: int| j - i - 1 < k < rest.len() ==> rest[k] == s[k + i + 1]);
        lemma_basename_after(rest, j - i - 1);
        assert(rest.skip(j - i) =~= s.skip(j + 1));
    }
}

/// A path with no slash is its own basename.
proof fn lemma_basename_whole(s: Seq<char>)
    requires
        forall|k: int| 0 <= k < s.len() ==> s[k] != '/',
    ensures
        basename_of(s) == s,
{
    lemma_find_char(s, '/');
    if 0 <= find_char(s, '/') < s.len() {
        assert(s[find_char(s, '/')] != '/');
    }
}

/// The text after the last `/` of the path.
pub fn basename_vec(s: &Vec<char>) -> (r: Vec<char>)
    ensures
        r@ == basename_of(s@),
{
    let n: usize = s.len();
    let mut j: usize = n;
    while j > 0 && s[j - 1] != '/'
        invariant
            j <= n,
            n == s@.len(),
            forall|k: int| j <= k < n ==> s@[k] != '/',
        decreases j,
    {
        j = j - 1;
    }
    proof {
        if j == 0 {
            lemma_basename_whole(s@);
            assert(s@.skip(0) =~= s@);
        } else {
            lemma_basename_after(s@, j - 1);
        }
        assert(s@.subrange(j as int, n as int) =~= s@.skip(j as int));
    }
    sub_vec(s, j, n)
}

/// Decide whether the process matches the target executable string.
pub fn is_process_match(p: &ProcessInfo, target: &str) -> (r: bool)
    ensures
        r == process_matches(*p, target@),
{
    let tcs = str_to_chars(target);
    let t = lower_vec(&tcs);
    let comm_cs = str_to_chars(p.comm.as_str());
    let comm_trimmed = trim_vec(&comm_cs);
    let comm_clean = lower_vec(&comm_trimmed);
    if eq_vec(&comm_clean, &t) || contains_vec(&comm_clean, &t) {
        return true;
    }
    let cmd_cs = str_to_chars(p.cmdline.as_str());
    let cmd_norm = normalize_cmdline(&cmd_cs);
    let cmd = lower_vec(&cmd_norm);
    if contains_vec(&cmd, &t) {
        return true;
    }
    let exe_cs = str_to_chars(p.exe_path.as_str());
    let base_raw = basename_vec(&exe_cs);
    let base = lower_vec(&base_raw);
    eq_vec(&base, &t) || contains_vec(&base, &t)
}

/// All identifiers of live processes matching the target, in snapshot order.
pub fn find_process_by_name(procs: &Vec<ProcessInfo>, name: &str) -> (r: Vec<u32>)
    ensures
        r@ == matching_pids(procs@, name@),
{
    let n: usize = procs.len();
    let mut out: Vec<u32> = Vec::new();
    let mut i: usize = 0;
    proof {
        assert(out@ =~= matching_pids(procs@.take(0), name@));
    }
    while i < n
        invariant
            i <= n,
            n == procs@.len(),
            out@ == matching_pids(procs@.take(i as int), name@),
        decreases n - i,
    {
        if is_process_match(&procs[i], name) {
            out.push(procs[i].pid);
        }
        i = i + 1;
        proof {
            assert(procs@.take(i as int).drop_last() =~= procs@.take(i as int - 1));
            assert(procs@.take(i as int).last() == procs@[i as int - 1]);
        }
    }
    proof {
        assert(procs@.take(n as int) =~= procs@);
    }
    out
}

/// The two-phase termination protocol: after the graceful signal and its
/// grace period, the forced signal is sent exactly when the process still
/// exists. A process that already exited needs nothing more and counts as
/// success, never as a failure.
pub fn should_force_kill(still_exists: bool) -> (r: bool)
    ensures
        r == still_exists,
{
    still_exists
}

} // verus!
