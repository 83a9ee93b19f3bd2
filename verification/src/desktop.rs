//! Desktop-entry parsing: reads one application-descriptor text (key=value
//! lines) and resolves it to an installed application matching a search
//! query. Only the resulting name/executable pairs matter to the engine; the
//! directory walk that finds descriptor files stays with the caller.

use vstd::multiset::Multiset;
use vstd::prelude::*;

use crate::matcher::basename_of;
use crate::text::{
    chars_to_string, find_char, has_sub, is_ws, lower, lower_vec, split_lines, split_lines_vec,
    starts_with, starts_with_vec, str_to_chars, sub_vec, trim, trim_front, trim_vec,
};

verus! {

broadcast use
    crate::text::group_deep_view_lemmas,
    vstd::seq_lib::group_to_multiset_ensures,
    vstd::multiset::group_multiset_axioms,
;

/// One installed application, as resolved from its descriptor.
pub struct InstalledApp {
    pub name: String,
    pub display_name: String,
    pub executable: String,
    pub icon: Option<String>,
    pub categories: Vec<String>,
}

/// The value of the last line whose trimmed text starts with the key.
pub open spec fn last_value(lines: Seq<Seq<char>>, key: Seq<char>) -> Option<Seq<char>>
    decreases lines.len(),
{
    if lines.len() == 0 {
        None
    } else {
        let t = trim(lines.last());
        if starts_with(t, key) {
            Some(t.skip(key.len() as int))
        } else {
            last_value(lines.drop_last(), key)
        }
    }
}

/// Some line's trimmed text starts with the flag.
pub open spec fn any_flag(lines: Seq<Seq<char>>, flag: Seq<char>) -> bool {
    exists|i: int| 0 <= i < lines.len() && starts_with(trim(#[trigger] lines[i]), flag)
}

/// The separated non-empty pieces of a text, in order.
pub open spec fn split_nonempty(s: Seq<char>, sep: char) -> Seq<Seq<char>>
    decreases s.len(),
{
    if s.len() == 0 {
        Seq::empty()
    } else {
        let i = find_char(s, sep);
        if 0 <= i < s.len() {
            let head = s.take(i);
            let rest = split_nonempty(s.skip(i + 1), sep);
            if head.len() > 0 {
                seq![head] + rest
            } else {
                rest
            }
        } else {
            seq![s]
        }
    }
}

/// The leading run of non-whitespace characters.
pub open spec fn take_until_ws(s: Seq<char>) -> Seq<char>
    decreases s.len(),
{
    if s.len() == 0 || is_ws(s[0]) {
        Seq::empty()
    } else {
        seq![s[0]] + take_until_ws(s.drop_first())
    }
}

/// The first whitespace-separated token, when the text has one.
pub open spec fn first_token(s: Seq<char>) -> Option<Seq<char>> {
    let t = trim_front(s);
    if t.len() == 0 {
        None
    } else {
        Some(take_until_ws(t))
    }
}

/// Drop every leading quote character.
pub open spec fn unquote_front(s: Seq<char>) -> Seq<char>
    decreases s.len(),
{
    if s.len() > 0 && s[0] == '"' {
        unquote_front(s.drop_first())
    } else {
        s
    }
}

/// Drop every trailing quote character.
pub open spec fn unquote_back(s: Seq<char>) -> Seq<char>
    decreases s.len(),
{
    if s.len() > 0 && s[s.len() - 1] == '"' {
        unquote_back(s.drop_last())
    } else {
        s
    }
}

/// Drop surrounding quote characters.
pub open spec fn unquote(s: Seq<char>) -> Seq<char> {
    unquote_back(unquote_front(s))
}

/// The executable a descriptor's launch command names: the first token of the
/// command, unquoted, reduced to the final path component.
pub open spec fn exec_executable(exec_value: Seq<char>) -> Option<Seq<char>> {
    match first_token(exec_value) {
        None => None,
        Some(tok) => Some(basename_of(unquote(tok))),
    }
}

/// The app matches the (already case-folded) query through its name, its
/// executable, or one of its categories, all case-insensitively.
pub open spec fn matches_query(
    name: Seq<char>,
    executable: Seq<char>,
    categories: Seq<Seq<char>>,
    query: Seq<char>,
) -> bool {
    ||| has_sub(lower(name), query)
    ||| has_sub(lower(executable), query)
    ||| exists|k: int| 0 <= k < categories.len() && has_sub(lower(#[trigger] categories[k]), query)
}

/// What parsing a descriptor against a query yields: the display name, the
/// executable, the icon if any, and the categories — or nothing, when the
/// entry is hidden, lacks a name or a launch command, or misses the query.
pub open spec fn spec_desktop_entry(content: Seq<char>, query: Seq<char>) -> Option<
    (Seq<char>, Seq<char>, Option<Seq<char>>, Seq<Seq<char>>),
> {
    let lines = split_lines(content);
    if any_flag(lines, "NoDisplay=true"@) || any_flag(lines, "Hidden=true"@) {
        None
    } else {
        match last_value(lines, "Name="@) {
            None => None,
            Some(name) => match last_value(lines, "Exec="@) {
                None => None,
                Some(exec_value) => match exec_executable(exec_value) {
                    None => None,
                    Some(executable) => {
                        let categories = match last_value(lines, "Categories="@) {
                            None => Seq::empty(),
                            Some(c) => split_nonempty(c, ';'),
                        };
                        if matches_query(name, executable, categories, query) {
                            Some((name, executable, last_value(lines, "Icon="@), categories))
                        } else {
                            None
                        }
                    },
                },
            },
        }
    }
}

/// Strip the key from the trimmed line when it starts with it.
fn line_value(line: &Vec<char>, key: &Vec<char>) -> (r: Option<Vec<char>>)
    ensures
        match r {
            Some(v) => starts_with(trim(line@), key@) && v@ == trim(line@).skip(
                key@.len() as int,
            ),
            None => !starts_with(trim(line@), key@),
        },
{
    let t = trim_vec(line);
    if starts_with_vec(&t, key) {
        let r = sub_vec(&t, key.len(), t.len());
        proof {
            assert(t@.subrange(key@.len() as int, t@.len() as int) =~= t@.skip(
                key@.len() as int,
            ));
        }
        Some(r)
    } else {
        None
    }
}

/// The leading non-whitespace run of a vector, after leading whitespace.
fn first_token_vec(s: &Vec<char>) -> (r: Option<Vec<char>>)
    ensures
        match r {
            Some(v) => first_token(s@) == Some(v@),
            None => first_token(s@) is None,
        },
{
    let n: usize = s.len();
    let mut start: usize = 0;
    proof {
        assert(s@.skip(0) =~= s@);
    }
    while start < n && crate::text::is_ws_exec(s[start])
        invariant
            start <= n,
            n == s@.len(),
            trim_front(s@) == trim_front(s@.skip(start as int)),
        decreases n - start,
    {
        proof {
            assert(s@.skip(start as int).drop_first() =~= s@.skip(start as int + 1));
        }
        start = start + 1;
    }
    proof {
        if start == n {
            assert(s@.skip(start as int) =~= Seq::<char>::empty());
        }
        assert(trim_front(s@) == s@.skip(start as int));
    }
    if start == n {
        return None;
    }
    let mut end: usize = start;
    while end < n && !crate::text::is_ws_exec(s[end])
        invariant
            start <= end <= n,
            n == s@.len(),
            take_until_ws(s@.skip(start as int)) == s@.subrange(start as int, end as int)
                + take_until_ws(s@.skip(end as int)),
        decreases n - end,
    {
        proof {
            let a = s@.skip(end as int);
            assert(a[0] == s@[end as int]);
            assert(a.drop_first() =~= s@.skip(end as int + 1));
            assert(seq![a[0]] + take_until_ws(a.drop_first()) == take_until_ws(a));
            assert(s@.subrange(start as int, end as int).push(s@[end as int]) =~= s@.subrange(
                start as int,
                end as int + 1,
            ));
            assert(s@.subrange(start as int, end as int) + (seq![a[0]] + take_until_ws(
                a.drop_first(),
            )) =~= s@.subrange(start as int, end as int + 1) + take_until_ws(
                s@.skip(end as int + 1),
            ));
        }
        end = end + 1;
    }
    proof {
        let a = s@.skip(end as int);
        if end == n {
            assert(a =~= Seq::<char>::empty());
        }
        assert(take_until_ws(a) =~= Seq::<char>::empty());
        assert(take_until_ws(s@.skip(start as int)) =~= s@.subrange(start as int, end as int));
    }
    Some(sub_vec(s, start, end))
}

/// Drop surrounding quote characters from a vector.
fn unquote_vec(s: &Vec<char>) -> (r: Vec<char>)
    ensures
        r@ == unquote(s@),
{
    let n: usize = s.len();
    let mut start: usize = 0;
    proof {
        assert(s@.skip(0) =~= s@);
    }
    while start < n && s[start] == '"'
        invariant
            start <= n,
            n == s@.len(),
            unquote_front(s@) == unquote_front(s@.skip(start as int)),
        decreases n - start,
    {
        proof {
            assert(s@.skip(start as int).drop_first() =~= s@.skip(start as int + 1));
        }
        start = start + 1;
    }
    proof {
        if start == n {
            assert(s@.skip(start as int) =~= Seq::<char>::empty());
        }
        assert(unquote_front(s@) == s@.skip(start as int));
    }
    let mut end: usize = n;
    while end > start && s[end - 1] == '"'
        invariant
            start <= end <= n,
            n == s@.len(),
            unquote_front(s@) == s@.skip(start as int),
            unquote_back(s@.skip(start as int)) == unquote_back(
                s@.subrange(start as int, end as int),
            ),
        decreases end,
    {
        proof {
            let mid = s@.subrange(start as int, end as int);
            assert(mid[mid.len() - 1] == s@[end - 1]);
            assert(mid.drop_last() =~= s@.subrange(start as int, end as int - 1));
        }
        end = end - 1;
    }
    proof {
        let fin = s@.subrange(start as int, end as int);
        if end > start {
            assert(fin[fin.len() - 1] == s@[end - 1]);
        }
        assert(unquote_back(fin) == fin);
        assert(s@.skip(start as int) =~= s@.subrange(start as int, n as int));
    }
    sub_vec(s, start, end)
}

/// Split a vector at the separator, keeping the non-empty pieces.
fn split_nonempty_vec(s: &Vec<char>, sep: char) -> (r: Vec<Vec<char>>)
    ensures
        r.deep_view() == split_nonempty(s@, sep),
{
    let n: usize = s.len();
    let mut out: Vec<Vec<char>> = Vec::new();
    let mut pos: usize = 0;
    proof {
        assert(s@.skip(0) =~= s@);
        assert(out.deep_view() + split_nonempty(s@, sep) =~~= split_nonempty(s@, sep));
    }
    while pos < n
        invariant
            pos <= n,
            n == s@.len(),
            split_nonempty(s@, sep) == out.deep_view() + split_nonempty(
                s@.skip(pos as int),
                sep,
            ),
        decreases n - pos,
    {
        let ghost rem = s@.skip(pos as int);
        let mut j: usize = pos;
        while j < n && s[j] != sep
            invariant
                pos <= j <= n,
                n == s@.len(),
                forall|k: int| pos <= k < j ==> s@[k] != sep,
            decreases n - j,
        {
            j = j + 1;
        }
        let piece = sub_vec(s, pos, j);
        proof {
            assert(forall|k: int| 0 <= k < j - pos ==> rem[k] != sep);
            crate::text::lemma_find_char(rem, sep);
            if j < n {
                assert(rem[j - pos] == sep);
                let r = find_char(rem, sep);
                if r < j - pos {
                    assert(rem[r] != sep);
                }
                if r > j - pos || r < 0 {
                    assert(rem[j - pos] != sep);
                }
                assert(r == j - pos);
                assert(rem.take(j - pos) =~= s@.subrange(pos as int, j as int));
                assert(rem.skip(j - pos + 1) =~= s@.skip(j as int + 1));
            } else {
                let r = find_char(rem, sep);
                if 0 <= r < rem.len() {
                    assert(rem[r] != sep);
                }
                assert(rem =~= s@.subrange(pos as int, j as int));
            }
        }
        if piece.len() > 0 {
            crate::text::push_line(&mut out, piece);
        }
        if j < n {
            pos = j + 1;
            proof {
                assert(split_nonempty(s@, sep) =~~= out.deep_view() + split_nonempty(
                    s@.skip(pos as int),
                    sep,
                ));
            }
        } else {
            pos = n;
            proof {
                assert(s@.skip(n as int) =~= Seq::<char>::empty());
                assert(split_nonempty(s@, sep) =~~= out.deep_view() + split_nonempty(
                    s@.skip(pos as int),
                    sep,
                ));
            }
        }
    }
    proof {
        assert(s@.skip(n as int) =~= Seq::<char>::empty());
        assert(out.deep_view() =~~= out.deep_view() + split_nonempty(s@.skip(n as int), sep));
    }
    out
}

/// Strict lexicographic order on character sequences, by codepoint.
pub open spec fn chars_lt(a: Seq<char>, b: Seq<char>) -> bool
    decreases a.len(),
{
    if b.len() == 0 {
        false
    } else if a.len() == 0 {
        true
    } else if a[0] != b[0] {
        a[0] < b[0]
    } else {
        chars_lt(a.drop_first(), b.drop_first())
    }
}

/// The order is asymmetric.
proof fn lemma_chars_lt_asym(a: Seq<char>, b: Seq<char>)
    ensures
        !(chars_lt(a, b) && chars_lt(b, a)),
    decreases a.len(),
{
    if a.len() > 0 && b.len() > 0 && a[0] == b[0] {
        lemma_chars_lt_asym(a.drop_first(), b.drop_first());
    }
}

/// Two unordered sequences are equal.
proof fn lemma_chars_lt_connected(a: Seq<char>, b: Seq<char>)
    requires
        !chars_lt(a, b),
        !chars_lt(b, a),
    ensures
        a == b,
    decreases a.len(),
{
    if a.len() > 0 && b.len() > 0 && a[0] == b[0] {
        lemma_chars_lt_connected(a.drop_first(), b.drop_first());
        assert(a =~= seq![a[0]] + a.drop_first());
        assert(b =~= seq![b[0]] + b.drop_first());
    }
}

/// The order is transitive.
proof fn lemma_chars_lt_trans(a: Seq<char>, b: Seq<char>, c: Seq<char>)
    requires
        chars_lt(a, b),
        chars_lt(b, c),
    ensures
        chars_lt(a, c),
    decreases a.len(),
{
    if a.len() > 0 && b.len() > 0 && c.len() > 0 && a[0] == b[0] && b[0] == c[0] {
        lemma_chars_lt_trans(a.drop_first(), b.drop_first(), c.drop_first());
    }
}

/// The app sorts ahead of (or ties with) another in a search result for the
/// (already case-folded) query: apps whose case-folded name equals the query
/// come first, then names ascend lexicographically.
pub open spec fn spec_precedes(q: Seq<char>, a: InstalledApp, b: InstalledApp) -> bool {
    let ae = lower(a.name@) == q;
    let be = lower(b.name@) == q;
    if ae != be {
        ae
    } else {
        !chars_lt(b.name@, a.name@)
    }
}

/// The result ranking can always order two apps, one way or the other.
proof fn lemma_precedes_total(q: Seq<char>, a: InstalledApp, b: InstalledApp)
    ensures
        spec_precedes(q, a, b) || spec_precedes(q, b, a),
{
    lemma_chars_lt_asym(a.name@, b.name@);
}

/// The result ranking is transitive.
proof fn lemma_precedes_trans(q: Seq<char>, a: InstalledApp, b: InstalledApp, c: InstalledApp)
    requires
        spec_precedes(q, a, b),
        spec_precedes(q, b, c),
    ensures
        spec_precedes(q, a, c),
{
    let ae = lower(a.name@) == q;
    let be = lower(b.name@) == q;
    let ce = lower(c.name@) == q;
    if ae == be && be == ce {
        if chars_lt(c.name@, a.name@) {
            if chars_lt(b.name@, c.name@) {
                lemma_chars_lt_trans(b.name@, c.name@, a.name@);
            } else {
                lemma_chars_lt_connected(b.name@, c.name@);
            }
        }
    }
}

/// A name occurs among the apps.
pub open spec fn name_among(s: Seq<InstalledApp>, n: Seq<char>) -> bool {
    exists|i: int| 0 <= i < s.len() && #[trigger] s[i].name@ == n
}

/// The apps with every later duplicate of a name dropped: each name's first
/// occurrence, in order.
pub open spec fn dedup_by_name(s: Seq<InstalledApp>) -> Seq<InstalledApp>
    decreases s.len(),
{
    if s.len() == 0 {
        Seq::empty()
    } else {
        let prefix = dedup_by_name(s.drop_last());
        if name_among(s.drop_last(), s.last().name@) {
            prefix
        } else {
            prefix.push(s.last())
        }
    }
}

/// Dropping duplicates changes no name's presence.
proof fn lemma_dedup_names(s: Seq<InstalledApp>, n: Seq<char>)
    ensures
        name_among(dedup_by_name(s), n) == name_among(s, n),
    decreases s.len(),
{
    if s.len() > 0 {
        lemma_dedup_names(s.drop_last(), n);
        let prefix = dedup_by_name(s.drop_last());
        let d = dedup_by_name(s);
        if name_among(s, n) {
            let w = choose|w: int| 0 <= w < s.len() && s[w].name@ == n;
            if w < s.len() - 1 {
                assert(s.drop_last()[w].name@ == n);
                let v = choose|v: int| 0 <= v < prefix.len() && prefix[v].name@ == n;
                assert(d[v].name@ == n);
            } else {
                if name_among(s.drop_last(), s.last().name@) {
                    let v = choose|v: int| 0 <= v < prefix.len() && prefix[v].name@ == n;
                    assert(d[v].name@ == n);
                } else {
                    assert(d[d.len() - 1].name@ == n);
                }
            }
        }
        if name_among(d, n) {
            let w = choose|w: int| 0 <= w < d.len() && d[w].name@ == n;
            if w < prefix.len() {
                assert(prefix[w].name@ == n);
                let v = choose|v: int|
                    0 <= v < s.drop_last().len() && s.drop_last()[v].name@ == n;
                assert(s[v].name@ == n);
            } else {
                assert(s[s.len() - 1].name@ == n);
            }
        }
    }
}

/// One more line extends a flag scan by exactly that line's own test.
proof fn lemma_any_flag_extend(lines: Seq<Seq<char>>, i: int, flag: Seq<char>)
    requires
        0 <= i < lines.len(),
    ensures
        any_flag(lines.take(i + 1), flag) == (any_flag(lines.take(i), flag) || starts_with(
            trim(lines[i]),
            flag,
        )),
{
    if any_flag(lines.take(i), flag) {
        let w = choose|w: int|
            0 <= w < lines.take(i).len() && starts_with(trim(#[trigger] lines.take(i)[w]), flag);
        assert(starts_with(trim(lines.take(i + 1)[w]), flag));
    }
    if starts_with(trim(lines[i]), flag) {
        assert(starts_with(trim(lines.take(i + 1)[i]), flag));
    }
    if any_flag(lines.take(i + 1), flag) && !starts_with(trim(lines[i]), flag) {
        let w = choose|w: int|
            0 <= w < lines.take(i + 1).len() && starts_with(
                trim(#[trigger] lines.take(i + 1)[w]),
                flag,
            );
        assert(w < i);
        assert(starts_with(trim(lines.take(i)[w]), flag));
    }
}

/// Whether some category contains the query, case-insensitively.
fn any_category_matches(cats: &Vec<Vec<char>>, q: &Vec<char>) -> (r: bool)
    ensures
        r == exists|k: int|
            0 <= k < cats.deep_view().len() && has_sub(lower(#[trigger] cats.deep_view()[k]), q@),
{
    let m: usize = cats.len();
    let mut k: usize = 0;
    while k < m
        invariant
            k <= m,
            m == cats@.len(),
            forall|w: int| 0 <= w < k ==> !has_sub(lower(#[trigger] cats.deep_view()[w]), q@),
        decreases m - k,
    {
        let cl = lower_vec(&cats[k]);
        if crate::text::contains_vec(&cl, q) {
            proof {
                assert(has_sub(lower(cats.deep_view()[k as int]), q@));
            }
            return true;
        }
        k = k + 1;
    }
    false
}


/// The ranking orders any app with itself.
proof fn lemma_precedes_refl(q: Seq<char>, a: InstalledApp)
    ensures
        spec_precedes(q, a, a),
{
    lemma_chars_lt_asym(a.name@, a.name@);
}

/// Whether the name belongs to one of the apps.
fn name_present(apps: &Vec<InstalledApp>, name: &String) -> (r: bool)
    ensures
        r == name_among(apps@, name@),
{
    let n: usize = apps.len();
    let mut i: usize = 0;
    while i < n
        invariant
            i <= n,
            n == apps@.len(),
            forall|k: int| 0 <= k < i ==> #[trigger] apps@[k].name@ != name@,
        decreases n - i,
    {
        if apps[i].name == *name {
            proof {
                assert(apps@[i as int].name@ == name@);
            }
            return true;
        }
        i = i + 1;
    }
    false
}

/// Keep each app name's first occurrence and drop every later duplicate.
pub fn dedup_apps(apps: Vec<InstalledApp>) -> (r: Vec<InstalledApp>)
    ensures
        r@ == dedup_by_name(apps@),
{
    let ghost orig = apps@;
    let mut work = apps;
    let mut out: Vec<InstalledApp> = Vec::new();
    let ghost mut i: int = 0;
    proof {
        assert(out@ =~= dedup_by_name(orig.take(0)));
        assert(work@ =~= orig.skip(0));
    }
    while work.len() > 0
        invariant
            0 <= i <= orig.len(),
            work@ == orig.skip(i),
            out@ == dedup_by_name(orig.take(i)),
        decreases work@.len(),
    {
        let a = work.remove(0);
        proof {
            assert(orig.skip(i)[0] == orig[i]);
            assert(orig.skip(i).remove(0) =~= orig.skip(i + 1));
        }
        let seen = name_present(&out, &a.name);
        proof {
            lemma_dedup_names(orig.take(i), a.name@);
            assert(orig.take(i + 1).drop_last() =~= orig.take(i));
            assert(orig.take(i + 1).last() == orig[i]);
        }
        if !seen {
            out.push(a);
        }
        proof {
            i = i + 1;
        }
    }
    proof {
        assert(orig.take(orig.len() as int) =~= orig);
    }
    out
}

/// Whether the first sequence orders strictly before the second.
fn chars_lt_exec(a: &Vec<char>, b: &Vec<char>) -> (r: bool)
    ensures
        r == chars_lt(a@, b@),
{
    let an: usize = a.len();
    let bn: usize = b.len();
    let mut i: usize = 0;
    proof {
        assert(a@.skip(0) =~= a@);
        assert(b@.skip(0) =~= b@);
    }
    while i < an && i < bn && a[i] == b[i]
        invariant
            i <= an,
            i <= bn,
            an == a@.len(),
            bn == b@.len(),
            chars_lt(a@, b@) == chars_lt(a@.skip(i as int), b@.skip(i as int)),
        decreases an - i,
    {
        proof {
            assert(a@.skip(i as int)[0] == a@[i as int]);
            assert(b@.skip(i as int)[0] == b@[i as int]);
            assert(a@.skip(i as int).drop_first() =~= a@.skip(i as int + 1));
            assert(b@.skip(i as int).drop_first() =~= b@.skip(i as int + 1));
        }
        i = i + 1;
    }
    proof {
        if i == bn {
            assert(b@.skip(i as int) =~= Seq::<char>::empty());
        } else if i == an {
            assert(a@.skip(i as int) =~= Seq::<char>::empty());
        } else {
            assert(a@.skip(i as int)[0] == a@[i as int]);
            assert(b@.skip(i as int)[0] == b@[i as int]);
        }
    }
    if i == bn {
        false
    } else if i == an {
        true
    } else {
        a[i] < b[i]
    }
}

/// Whether the first app ranks no later than the second for the query.
fn precedes_exec(q: &Vec<char>, a: &InstalledApp, b: &InstalledApp) -> (r: bool)
    ensures
        r == spec_precedes(q@, *a, *b),
{
    let a_cs = str_to_chars(a.name.as_str());
    let b_cs = str_to_chars(b.name.as_str());
    let a_low = lower_vec(&a_cs);
    let b_low = lower_vec(&b_cs);
    let ae = crate::text::eq_vec(&a_low, q);
    let be = crate::text::eq_vec(&b_low, q);
    if ae != be {
        ae
    } else {
        !chars_lt_exec(&b_cs, &a_cs)
    }
}

/// Order search results: apps whose case-folded name equals the (already
/// case-folded) query first, the rest by name, every app kept.
pub fn rank_apps(apps: Vec<InstalledApp>, query: &str) -> (r: Vec<InstalledApp>)
    ensures
        r@.to_multiset() == apps@.to_multiset(),
        forall|i: int, j: int|
            0 <= i < j < r@.len() ==> spec_precedes(query@, #[trigger] r@[i], #[trigger] r@[j]),
{
    let q = str_to_chars(query);
    let mut work = apps;
    let mut out: Vec<InstalledApp> = Vec::new();
    proof {
        assert(out@.to_multiset().add(work@.to_multiset()) =~= work@.to_multiset());
    }
    while work.len() > 0
        invariant
            q@ == query@,
            out@.to_multiset().add(work@.to_multiset()) == apps@.to_multiset(),
            forall|i: int, j: int|
                0 <= i < j < out@.len() ==> spec_precedes(
                    query@,
                    #[trigger] out@[i],
                    #[trigger] out@[j],
                ),
            forall|i: int, j: int|
                0 <= i < out@.len() && 0 <= j < work@.len() ==> spec_precedes(
                    query@,
                    #[trigger] out@[i],
                    #[trigger] work@[j],
                ),
        decreases work@.len(),
    {
        let n: usize = work.len();
        let mut best: usize = 0;
        let mut k: usize = 1;
        proof {
            lemma_precedes_refl(query@, work@[0]);
        }
        while k < n
            invariant
                q@ == query@,
                best < k <= n,
                n == work@.len(),
                forall|j: int|
                    0 <= j < k ==> spec_precedes(
                        query@,
                        work@[best as int],
                        #[trigger] work@[j],
                    ),
            decreases n - k,
        {
            if !precedes_exec(&q, &work[best], &work[k]) {
                proof {
                    lemma_precedes_total(query@, work@[best as int], work@[k as int]);
                    assert forall|j: int|
                        0 <= j < k + 1 implies spec_precedes(
                        query@,
                        work@[k as int],
                        #[trigger] work@[j],
                    ) by {
                        if j == k {
                            lemma_precedes_refl(query@, work@[k as int]);
                        } else {
                            lemma_precedes_trans(
                                query@,
                                work@[k as int],
                                work@[best as int],
                                work@[j],
                            );
                        }
                    }
                }
                best = k;
            } else {
                proof {
                    lemma_precedes_refl(query@, work@[k as int]);
                    assert forall|j: int|
                        0 <= j < k + 1 implies spec_precedes(
                        query@,
                        work@[best as int],
                        #[trigger] work@[j],
                    ) by {
                        if j == k {
                            lemma_precedes_trans(
                                query@,
                                work@[best as int],
                                work@[best as int],
                                work@[k as int],
                            );
                        }
                    }
                }
            }
            k = k + 1;
        }
        let ghost pre_work = work@;
        let ghost pre_out = out@;
        let e = work.remove(best);
        out.push(e);
        proof {
            assert(pre_work.to_multiset().count(e) > 0) by {
                assert(pre_work.contains(e)) by {
                    assert(pre_work[best as int] == e);
                }
            }
            assert(out@ == pre_out.push(e));
            assert(pre_out.push(e).to_multiset() =~= pre_out.to_multiset().insert(e));
            assert(work@ == pre_work.remove(best as int));
            assert(pre_work.remove(best as int).to_multiset() =~= pre_work.to_multiset().remove(
                pre_work[best as int],
            ));
            assert(out@.to_multiset().add(work@.to_multiset()) =~= pre_out.to_multiset().add(
                pre_work.to_multiset(),
            ));
            assert(forall|j: int|
                0 <= j < work@.len() ==> (#[trigger] work@[j] == pre_work[j] || work@[j]
                    == pre_work[j + 1]));
        }
    }
    proof {
        assert(work@.to_multiset() =~= Multiset::<InstalledApp>::empty());
        assert(out@.to_multiset() =~= apps@.to_multiset());
    }
    out
}

/// Parse one descriptor text against an already case-folded query: the entry
/// resolved to an installed app, or nothing when the entry is hidden, has no
/// name or launch command, or does not match the query.
pub fn parse_desktop_file(content: &str, query: &str) -> (r: Option<InstalledApp>)
    ensures
        match (r, spec_desktop_entry(content@, query@)) {
            (Some(app), Some(m)) => {
                &&& app.name@ == m.0
                &&& app.display_name@ == m.0
                &&& app.executable@ == m.1
                &&& app.icon.deep_view() == m.2
                &&& app.categories.deep_view() == m.3
            },
            (None, None) => true,
            _ => false,
        },
{
    let cs = str_to_chars(content);
    let lines = split_lines_vec(&cs);
    let ghost ld = split_lines(content@);
    let key_name = str_to_chars("Name=");
    let key_exec = str_to_chars("Exec=");
    let key_icon = str_to_chars("Icon=");
    let key_cats = str_to_chars("Categories=");
    let flag_nodisplay = str_to_chars("NoDisplay=true");
    let flag_hidden = str_to_chars("Hidden=true");
    let n: usize = lines.len();
    let mut name_val: Option<Vec<char>> = None;
    let mut exec_val: Option<Vec<char>> = None;
    let mut icon_val: Option<Vec<char>> = None;
    let mut cats_val: Option<Vec<char>> = None;
    let mut no_display = false;
    let mut hidden = false;
    let mut i: usize = 0;
    proof {
        assert(ld.take(0) =~~= Seq::<Seq<char>>::empty());
    }
    while i < n
        invariant
            i <= n,
            n == lines@.len(),
            lines.deep_view() == ld,
            key_name@ == "Name="@,
            key_exec@ == "Exec="@,
            key_icon@ == "Icon="@,
            key_cats@ == "Categories="@,
            flag_nodisplay@ == "NoDisplay=true"@,
            flag_hidden@ == "Hidden=true"@,
            match name_val {
                Some(v) => last_value(ld.take(i as int), "Name="@) == Some(v@),
                None => last_value(ld.take(i as int), "Name="@) is None,
            },
            match exec_val {
                Some(v) => last_value(ld.take(i as int), "Exec="@) == Some(v@),
                None => last_value(ld.take(i as int), "Exec="@) is None,
            },
            match icon_val {
                Some(v) => last_value(ld.take(i as int), "Icon="@) == Some(v@),
                None => last_value(ld.take(i as int), "Icon="@) is None,
            },
            match cats_val {
                Some(v) => last_value(ld.take(i as int), "Categories="@) == Some(v@),
                None => last_value(ld.take(i as int), "Categories="@) is None,
            },
            no_display == any_flag(ld.take(i as int), "NoDisplay=true"@),
            hidden == any_flag(ld.take(i as int), "Hidden=true"@),
        decreases n - i,
    {
        let ghost prev = ld.take(i as int);
        let line = &lines[i];
        proof {
            assert(line@ == ld[i as int]);
            assert(ld.take(i as int + 1).drop_last() =~~= prev);
            assert(ld.take(i as int + 1).last() == ld[i as int]);
        }
        match line_value(line, &key_name) {
            Some(v) => {
                name_val = Some(v);
            },
            None => {},
        }
        match line_value(line, &key_exec) {
            Some(v) => {
                exec_val = Some(v);
            },
            None => {},
        }
        match line_value(line, &key_icon) {
            Some(v) => {
                icon_val = Some(v);
            },
            None => {},
        }
        match line_value(line, &key_cats) {
            Some(v) => {
                cats_val = Some(v);
            },
            None => {},
        }
        let t = trim_vec(line);
        if starts_with_vec(&t, &flag_nodisplay) {
            no_display = true;
        }
        if starts_with_vec(&t, &flag_hidden) {
            hidden = true;
        }
        i = i + 1;
        proof {
            lemma_any_flag_extend(ld, i as int - 1, "NoDisplay=true"@);
            lemma_any_flag_extend(ld, i as int - 1, "Hidden=true"@);
        }
    }
    proof {
        assert(ld.take(n as int) =~~= ld);
    }
    if no_display || hidden {
        return None;
    }
    let name = match name_val {
        Some(v) => v,
        None => {
            return None;
        },
    };
    let exec_value = match exec_val {
        Some(v) => v,
        None => {
            return None;
        },
    };
    let tok = match first_token_vec(&exec_value) {
        Some(v) => v,
        None => {
            return None;
        },
    };
    let unquoted = unquote_vec(&tok);
    let executable = crate::matcher::basename_vec(&unquoted);
    let cats: Vec<Vec<char>> = match cats_val {
        Some(v) => split_nonempty_vec(&v, ';'),
        None => Vec::new(),
    };
    proof {
        if cats_val is None {
            assert(cats.deep_view() =~~= Seq::<Seq<char>>::empty());
        }
    }
    let qcs = str_to_chars(query);
    let name_l = lower_vec(&name);
    let exe_l = lower_vec(&executable);
    let matched = crate::text::contains_vec(&name_l, &qcs) || crate::text::contains_vec(
        &exe_l,
        &qcs,
    ) || any_category_matches(&cats, &qcs);
    if !matched {
        proof {
            assert(!matches_query(name@, executable@, cats.deep_view(), query@));
        }
        return None;
    }
    let icon: Option<String> = match icon_val {
        Some(v) => Some(chars_to_string(&v)),
        None => None,
    };
    let mut categories: Vec<String> = Vec::new();
    let cn: usize = cats.len();
    let mut ci: usize = 0;
    while ci < cn
        invariant
            ci <= cn,
            cn == cats@.len(),
            categories@.len() == ci,
            forall|w: int| 0 <= w < ci ==> #[trigger] categories@[w]@ == cats@[w]@,
        decreases cn - ci,
    {
        categories.push(chars_to_string(&cats[ci]));
        ci = ci + 1;
    }
    proof {
        assert forall|w: int|
            0 <= w < cn implies #[trigger] categories.deep_view()[w] == cats.deep_view()[w] by {
            assert(categories.deep_view()[w] == categories@[w]@);
            assert(cats.deep_view()[w] == cats@[w]@);
        }
        assert(categories.deep_view() =~~= cats.deep_view());
    }
    Some(
        InstalledApp {
            name: chars_to_string(&name),
            display_name: chars_to_string(&name),
            executable: chars_to_string(&executable),
            icon,
            categories,
        },
    )
}

} // verus!
