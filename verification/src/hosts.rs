//! Hosts-file blocker: edits a line-oriented document so that it carries at
//! most one contiguous managed section — a unique marker line followed by
//! null-route lines for every blocked domain (apex and `www.` variant, one
//! IPv4 and one IPv6 line each). Blocking always removes any prior managed
//! lines before appending a fresh section; unblocking removes the section and
//! any stray annotated lines and restores the rest of the document.

use vstd::prelude::*;

use crate::domain::{canon_domain, canon_domain_vec};
use crate::text::{
    chars_to_string, contains_at, contains_vec, has_sub, join_lines, join_lines_vec, split_lines,
    split_lines_vec, starts_with, starts_with_vec, str_to_chars, sub_vec, trim, trim_vec,
};

verus! {

broadcast use crate::text::group_deep_view_lemmas;

/// The unique sentinel line that begins the managed section.
pub open spec fn marker() -> Seq<char> {
    "# Focus app blocked sites"@
}

/// The annotation carried by every line this engine has ever written; a line
/// containing it anywhere is treated as managed residue.
pub open spec fn annotation() -> Seq<char> {
    "# Focus"@
}

/// A line whose trimmed text begins with one of the null-route sentinels.
pub open spec fn is_route_line(line: Seq<char>) -> bool {
    ||| starts_with(trim(line), "0.0.0.0"@)
    ||| starts_with(trim(line), "::1"@)
    ||| starts_with(trim(line), "127.0.0.1"@)
}

/// The line contains the marker.
pub open spec fn has_marker(line: Seq<char>) -> bool {
    has_sub(line, marker())
}

/// The line contains the annotation.
pub open spec fn has_annotation(line: Seq<char>) -> bool {
    has_sub(line, annotation())
}

/// The trimmed line mentions one of the given domains.
pub open spec fn mentions_any(line: Seq<char>, ds: Seq<Seq<char>>) -> bool {
    exists|k: int| 0 <= k < ds.len() && has_sub(trim(line), ds[k])
}

/// Blocking drops a line when it carries the marker, the annotation, or is a
/// null-route line mentioning a domain about to be (re)blocked.
pub open spec fn removed_by_block(line: Seq<char>, ds: Seq<Seq<char>>) -> bool {
    ||| has_marker(line)
    ||| has_annotation(line)
    ||| (is_route_line(line) && mentions_any(line, ds))
}

/// The lines of the document that blocking keeps.
pub open spec fn kept_lines(doc: Seq<Seq<char>>, ds: Seq<Seq<char>>) -> Seq<Seq<char>>
    decreases doc.len(),
{
    if doc.len() == 0 {
        Seq::empty()
    } else {
        let prefix = kept_lines(doc.drop_last(), ds);
        if removed_by_block(doc.last(), ds) {
            prefix
        } else {
            prefix.push(doc.last())
        }
    }
}

/// The canonical domains of the sites, unparseable (empty) ones dropped.
pub open spec fn nonempty_domains(sites: Seq<Seq<char>>) -> Seq<Seq<char>>
    decreases sites.len(),
{
    if sites.len() == 0 {
        Seq::empty()
    } else {
        let prefix = nonempty_domains(sites.drop_last());
        let d = canon_domain(sites.last());
        if d.len() > 0 {
            prefix.push(d)
        } else {
            prefix
        }
    }
}

/// The four null-route lines written for one domain: IPv4 and IPv6, apex and
/// `www.` variant.
pub open spec fn four_lines(d: Seq<char>) -> Seq<Seq<char>> {
    seq![
        "0.0.0.0 "@ + d,
        "::1 "@ + d,
        "0.0.0.0 www."@ + d,
        "::1 www."@ + d,
    ]
}

/// The null-route lines appended for the sites still to be handled, given the
/// domains already appended: each site's canonical domain gets four lines the
/// first time it appears; empty and repeated domains add nothing.
pub open spec fn route_lines_from(sites: Seq<Seq<char>>, added: Seq<Seq<char>>) -> Seq<Seq<char>>
    decreases sites.len(),
{
    if sites.len() == 0 {
        Seq::empty()
    } else {
        let d = canon_domain(sites[0]);
        if d.len() > 0 && !added.contains(d) {
            four_lines(d) + route_lines_from(sites.drop_first(), added.push(d))
        } else {
            route_lines_from(sites.drop_first(), added)
        }
    }
}

/// The document after blocking a non-empty site list: the kept lines, the
/// marker, and a fresh section of null-route lines.
pub open spec fn block_result(doc: Seq<Seq<char>>, sites: Seq<Seq<char>>) -> Seq<Seq<char>> {
    kept_lines(doc, nonempty_domains(sites)) + seq![marker()] + route_lines_from(
        sites,
        Seq::empty(),
    )
}

/// A line that ends the managed section during the unblock scan: one that is
/// neither blank, nor a comment, nor a null-route line.
pub open spec fn ends_block(line: Seq<char>) -> bool {
    trim(line).len() > 0 && !starts_with(trim(line), "#"@) && !is_route_line(line)
}

/// The unblock scan over the remaining lines, given whether the scan stands
/// inside the managed section: the marker line and everything between it and
/// the first line that is neither blank, a comment, nor a null-route line
/// are dropped, as is any annotated line anywhere; all other lines are kept.
pub open spec fn unblock_from(doc: Seq<Seq<char>>, in_block: bool) -> Seq<Seq<char>>
    decreases doc.len(),
{
    if doc.len() == 0 {
        Seq::empty()
    } else {
        let line = doc[0];
        let rest = doc.drop_first();
        if has_marker(line) {
            unblock_from(rest, true)
        } else if in_block && !ends_block(line) {
            unblock_from(rest, true)
        } else {
            if has_annotation(line) {
                unblock_from(rest, false)
            } else {
                seq![line] + unblock_from(rest, false)
            }
        }
    }
}

/// The document after unblocking.
pub open spec fn unblock_result(doc: Seq<Seq<char>>) -> Seq<Seq<char>> {
    unblock_from(doc, false)
}

/// An ordered sequence of hosts-file lines.
pub struct HostsDocument {
    lines: Vec<Vec<char>>,
}

impl View for HostsDocument {
    type V = Seq<Seq<char>>;

    closed spec fn view(&self) -> Seq<Seq<char>> {
        self.lines.deep_view()
    }
}

/// Copy one line.
fn clone_chars(line: &Vec<char>) -> (r: Vec<char>)
    ensures
        r@ == line@,
{
    let r = sub_vec(line, 0, line.len());
    proof {
        assert(line@.subrange(0, line@.len() as int) =~= line@);
    }
    r
}

/// Concatenate two character vectors.
fn concat_chars(a: &Vec<char>, b: &Vec<char>) -> (r: Vec<char>)
    ensures
        r@ == a@ + b@,
{
    let mut r = clone_chars(a);
    crate::text::append_chars(&mut r, b);
    r
}

/// Whether one of the collected lines equals the given one.
fn contains_line(v: &Vec<Vec<char>>, x: &Vec<char>) -> (r: bool)
    ensures
        r == v.deep_view().contains(x@),
{
    let n: usize = v.len();
    let mut i: usize = 0;
    while i < n
        invariant
            i <= n,
            n == v@.len(),
            forall|k: int| 0 <= k < i ==> v.deep_view()[k] != x@,
        decreases n - i,
    {
        if crate::text::eq_vec(&v[i], x) {
            proof {
                assert(v.deep_view()[i as int] == x@);
            }
            return true;
        }
        i = i + 1;
    }
    false
}

/// Whether the trimmed line begins with a null-route sentinel.
fn is_route_line_exec(line: &Vec<char>) -> (r: bool)
    ensures
        r == is_route_line(line@),
{
    let tr = trim_vec(line);
    let v4 = str_to_chars("0.0.0.0");
    let v6 = str_to_chars("::1");
    let lo = str_to_chars("127.0.0.1");
    starts_with_vec(&tr, &v4) || starts_with_vec(&tr, &v6) || starts_with_vec(&tr, &lo)
}

/// Whether the line ends the managed section.
fn ends_block_exec(line: &Vec<char>) -> (r: bool)
    ensures
        r == ends_block(line@),
{
    let tr = trim_vec(line);
    let hash = str_to_chars("#");
    tr.len() > 0 && !starts_with_vec(&tr, &hash) && !is_route_line_exec(line)
}

/// Whether blocking the given domains drops this line.
fn line_removed(line: &Vec<char>, ds: &Vec<Vec<char>>) -> (r: bool)
    ensures
        r == removed_by_block(line@, ds.deep_view()),
{
    let marker_vec = str_to_chars("# Focus app blocked sites");
    if contains_vec(line, &marker_vec) {
        return true;
    }
    let ann = str_to_chars("# Focus");
    if contains_vec(line, &ann) {
        return true;
    }
    if !is_route_line_exec(line) {
        return false;
    }
    let tr = trim_vec(line);
    let n: usize = ds.len();
    let mut i: usize = 0;
    while i < n
        invariant
            i <= n,
            n == ds@.len(),
            tr@ == trim(line@),
            is_route_line(line@),
            forall|k: int| 0 <= k < i ==> !has_sub(trim(line@), ds.deep_view()[k]),
        decreases n - i,
    {
        if contains_vec(&tr, &ds[i]) {
            proof {
                assert(has_sub(trim(line@), ds.deep_view()[i as int]));
                assert(mentions_any(line@, ds.deep_view()));
            }
            return true;
        }
        i = i + 1;
    }
    proof {
        assert(!mentions_any(line@, ds.deep_view()));
    }
    false
}

/// Collect the canonical domains of the sites, dropping unparseable ones.
fn collect_domains(sites: &Vec<String>) -> (r: Vec<Vec<char>>)
    ensures
        r.deep_view() == nonempty_domains(sites.deep_view()),
{
    let n: usize = sites.len();
    let mut out: Vec<Vec<char>> = Vec::new();
    let mut i: usize = 0;
    proof {
        assert(out.deep_view() =~~= nonempty_domains(sites.deep_view().take(0)));
    }
    while i < n
        invariant
            i <= n,
            n == sites@.len(),
            out.deep_view() == nonempty_domains(sites.deep_view().take(i as int)),
        decreases n - i,
    {
        let cs = str_to_chars(sites[i].as_str());
        let d = canon_domain_vec(&cs);
        if d.len() > 0 {
            crate::text::push_line(&mut out, d);
        }
        i = i + 1;
        proof {
            let sv = sites.deep_view();
            assert(sv.take(i as int).drop_last() =~~= sv.take(i as int - 1));
            assert(sv.take(i as int).last() == sv[i as int - 1]);
            assert(sv[i as int - 1] == sites@[i as int - 1]@);
        }
    }
    proof {
        assert(sites.deep_view().take(n as int) =~~= sites.deep_view());
    }
    out
}

impl HostsDocument {
    /// Split a hosts-file text into its lines.
    pub fn parse(content: &str) -> (r: HostsDocument)
        ensures
            r@ == split_lines(content@),
    {
        let cs = str_to_chars(content);
        HostsDocument { lines: split_lines_vec(&cs) }
    }

    /// Join the lines back into one text, newline-separated.
    pub fn render(&self) -> (r: String)
        ensures
            r@ == join_lines(self@),
    {
        let cs = join_lines_vec(&self.lines);
        chars_to_string(&cs)
    }

    /// The number of lines.
    pub fn len(&self) -> (r: usize)
        ensures
            r == self@.len(),
    {
        self.lines.len()
    }
}

/// Rebuild the document so the given sites are blocked: drop every previously
/// managed line and every null-route line mentioning a domain about to be
/// blocked, then append the marker and four null-route lines per distinct,
/// parseable domain, in first-appearance order. An empty site list leaves the
/// document untouched.
pub fn block_sites(doc: &HostsDocument, sites: &Vec<String>) -> (r: HostsDocument)
    ensures
        sites@.len() == 0 ==> r@ == doc@,
        sites@.len() > 0 ==> r@ == block_result(doc@, sites.deep_view()),
{
    let n: usize = doc.lines.len();
    if sites.len() == 0 {
        let mut out: Vec<Vec<char>> = Vec::new();
        let mut i: usize = 0;
        while i < n
            invariant
                i <= n,
                n == doc.lines@.len(),
                out.deep_view() == doc@.take(i as int),
            decreases n - i,
        {
            let ghost prev = out.deep_view();
            crate::text::push_line(&mut out, clone_chars(&doc.lines[i]));
            i = i + 1;
            proof {
                assert(prev.push(doc@[i as int - 1]) =~~= doc@.take(i as int));
            }
        }
        proof {
            assert(doc@.take(n as int) =~~= doc@);
        }
        return HostsDocument { lines: out };
    }
    let ds = collect_domains(sites);
    let ghost dsv = ds.deep_view();
    let mut out: Vec<Vec<char>> = Vec::new();
    let mut i: usize = 0;
    proof {
        assert(out.deep_view() =~~= kept_lines(doc@.take(0), dsv));
    }
    while i < n
        invariant
            i <= n,
            n == doc.lines@.len(),
            dsv == ds.deep_view(),
            out.deep_view() == kept_lines(doc@.take(i as int), dsv),
        decreases n - i,
    {
        let line = &doc.lines[i];
        let keep = !line_removed(line, &ds);
        if keep {
            crate::text::push_line(&mut out, clone_chars(line));
        }
        i = i + 1;
        proof {
            assert(doc@.take(i as int).drop_last() =~~= doc@.take(i as int - 1));
            assert(doc@.take(i as int).last() == doc@[i as int - 1]);
        }
    }
    proof {
        assert(doc@.take(n as int) =~~= doc@);
    }
    let ghost kept = out.deep_view();
    let marker_vec = str_to_chars("# Focus app blocked sites");
    crate::text::push_line(&mut out, marker_vec);
    proof {
        assert(kept.push(marker()) =~~= kept + seq![marker()]);
    }
    let m: usize = sites.len();
    let mut added: Vec<Vec<char>> = Vec::new();
    let ghost mut emitted: Seq<Seq<char>> = Seq::empty();
    let mut j: usize = 0;
    let prefix_v4 = str_to_chars("0.0.0.0 ");
    let prefix_v6 = str_to_chars("::1 ");
    let prefix_v4w = str_to_chars("0.0.0.0 www.");
    let prefix_v6w = str_to_chars("::1 www.");
    proof {
        assert(sites.deep_view().skip(0) =~~= sites.deep_view());
        assert(out.deep_view() =~~= kept + seq![marker()] + emitted);
    }
    while j < m
        invariant
            j <= m,
            m == sites@.len(),
            prefix_v4@ == "0.0.0.0 "@,
            prefix_v6@ == "::1 "@,
            prefix_v4w@ == "0.0.0.0 www."@,
            prefix_v6w@ == "::1 www."@,
            out.deep_view() == kept + seq![marker()] + emitted,
            route_lines_from(sites.deep_view(), Seq::empty()) == emitted + route_lines_from(
                sites.deep_view().skip(j as int),
                added.deep_view(),
            ),
        decreases m - j,
    {
        let cs = str_to_chars(sites[j].as_str());
        let d = canon_domain_vec(&cs);
        let ghost dv = d@;
        proof {
            assert(sites.deep_view().skip(j as int)[0] == sites@[j as int]@);
        }
        if d.len() > 0 && !contains_line(&added, &d) {
            let l1 = concat_chars(&prefix_v4, &d);
            let l2 = concat_chars(&prefix_v6, &d);
            let l3 = concat_chars(&prefix_v4w, &d);
            let l4 = concat_chars(&prefix_v6w, &d);
            crate::text::push_line(&mut out, l1);
            crate::text::push_line(&mut out, l2);
            crate::text::push_line(&mut out, l3);
            crate::text::push_line(&mut out, l4);
            crate::text::push_line(&mut added, d);
            proof {
                emitted = emitted + four_lines(dv);
                assert(out.deep_view() =~~= kept + seq![marker()] + emitted);
            }
        }
        j = j + 1;
        proof {
            let sv = sites.deep_view();
            assert(sv.skip(j as int - 1).drop_first() =~~= sv.skip(j as int));
        }
    }
    proof {
        assert(sites.deep_view().skip(m as int) =~~= Seq::<Seq<char>>::empty());
        assert(route_lines_from(sites.deep_view(), Seq::empty()) == emitted);
        assert(out.deep_view() =~~= block_result(doc@, sites.deep_view()));
    }
    HostsDocument { lines: out }
}

/// Remove the managed section and every annotated line from the document:
/// the marker line, the null-route lines that follow it up to the first line
/// that is neither blank, a comment, nor a null-route line, and any line
/// carrying the annotation elsewhere.
pub fn unblock_sites(doc: &HostsDocument) -> (r: HostsDocument)
    ensures
        r@ == unblock_result(doc@),
{
    let n: usize = doc.lines.len();
    let marker_vec = str_to_chars("# Focus app blocked sites");
    let ann = str_to_chars("# Focus");
    let mut out: Vec<Vec<char>> = Vec::new();
    let mut in_block = false;
    let mut i: usize = 0;
    proof {
        assert(doc@.skip(0) =~~= doc@);
        assert(out.deep_view() + unblock_from(doc@, false) =~~= unblock_result(doc@));
    }
    while i < n
        invariant
            i <= n,
            n == doc.lines@.len(),
            marker_vec@ == marker(),
            ann@ == annotation(),
            unblock_result(doc@) == out.deep_view() + unblock_from(doc@.skip(i as int), in_block),
        decreases n - i,
    {
        let ghost prev = out.deep_view();
        let ghost rest = doc@.skip(i as int);
        let line = &doc.lines[i];
        proof {
            assert(rest[0] == doc@[i as int]);
            assert(rest.drop_first() =~~= doc@.skip(i as int + 1));
        }
        if contains_vec(line, &marker_vec) {
            in_block = true;
        } else if in_block && !ends_block_exec(line) {
        } else {
            in_block = false;
            if contains_vec(line, &ann) {
            } else {
                crate::text::push_line(&mut out, clone_chars(line));
                proof {
                    assert(prev.push(doc@[i as int]) =~~= prev + seq![doc@[i as int]]);
                }
            }
        }
        i = i + 1;
    }
    proof {
        assert(doc@.skip(n as int) =~~= Seq::<Seq<char>>::empty());
        assert(out.deep_view() =~~= unblock_result(doc@));
    }
    HostsDocument { lines: out }
}

/// The marker line carries the annotation, which is its own prefix.
proof fn lemma_marker_has_annotation(line: Seq<char>)
    requires
        has_marker(line),
    ensures
        has_annotation(line),
{
    reveal_strlit("# Focus app blocked sites");
    reveal_strlit("# Focus");
    assert(starts_with(marker(), annotation())) by {
        assert(marker().subrange(0, 7) =~= annotation());
    }
    let i = choose|i: int| contains_at(line, marker(), i);
    crate::text::lemma_contains_prefix(line, marker(), annotation(), i);
}

/// A line without ASCII uppercase letters carries neither the marker nor the
/// annotation: both contain an uppercase letter.
proof fn lemma_no_upper_no_annotation(line: Seq<char>)
    requires
        forall|j: int| 0 <= j < line.len() ==> !crate::text::is_upper(#[trigger] line[j]),
    ensures
        !has_marker(line),
        !has_annotation(line),
{
    reveal_strlit("# Focus");
    if has_annotation(line) {
        let i = choose|i: int| contains_at(line, annotation(), i);
        assert(line.subrange(i, i + 7)[2] == line[i + 2]);
        assert(crate::text::is_upper(line[i + 2]));
        assert(false);
    }
    if has_marker(line) {
        lemma_marker_has_annotation(line);
        assert(false);
    }
}

/// A document none of whose lines blocking would drop is kept whole.
proof fn lemma_kept_lines_all(doc: Seq<Seq<char>>, ds: Seq<Seq<char>>)
    requires
        forall|i: int| 0 <= i < doc.len() ==> !removed_by_block(#[trigger] doc[i], ds),
    ensures
        kept_lines(doc, ds) == doc,
    decreases doc.len(),
{
    if doc.len() > 0 {
        assert(forall|i: int| 0 <= i < doc.len() - 1 ==> #[trigger] doc.drop_last()[i] == doc[i]);
        lemma_kept_lines_all(doc.drop_last(), ds);
        assert(kept_lines(doc, ds) =~~= doc);
    }
}

/// A document all of whose lines blocking drops is emptied.
proof fn lemma_kept_lines_none(doc: Seq<Seq<char>>, ds: Seq<Seq<char>>)
    requires
        forall|i: int| 0 <= i < doc.len() ==> removed_by_block(#[trigger] doc[i], ds),
    ensures
        kept_lines(doc, ds) == Seq::<Seq<char>>::empty(),
    decreases doc.len(),
{
    if doc.len() > 0 {
        assert(forall|i: int| 0 <= i < doc.len() - 1 ==> #[trigger] doc.drop_last()[i] == doc[i]);
        lemma_kept_lines_none(doc.drop_last(), ds);
    }
}

/// Blocking's filter works line by line, so it distributes over concatenation.
proof fn lemma_kept_lines_append(a: Seq<Seq<char>>, b: Seq<Seq<char>>, ds: Seq<Seq<char>>)
    ensures
        kept_lines(a + b, ds) == kept_lines(a, ds) + kept_lines(b, ds),
    decreases b.len(),
{
    if b.len() == 0 {
        assert(a + b =~~= a);
        assert(kept_lines(a, ds) + kept_lines(b, ds) =~~= kept_lines(a, ds));
    } else {
        assert((a + b).drop_last() =~~= a + b.drop_last());
        assert((a + b).last() == b.last());
        lemma_kept_lines_append(a, b.drop_last(), ds);
        assert(kept_lines(a + b, ds) =~~= kept_lines(a, ds) + kept_lines(b, ds));
    }
}

/// No line that blocking keeps would be dropped by blocking again.
proof fn lemma_kept_lines_sub(doc: Seq<Seq<char>>, ds: Seq<Seq<char>>)
    ensures
        forall|i: int|
            0 <= i < kept_lines(doc, ds).len() ==> !removed_by_block(
                #[trigger] kept_lines(doc, ds)[i],
                ds,
            ),
    decreases doc.len(),
{
    if doc.len() > 0 {
        lemma_kept_lines_sub(doc.drop_last(), ds);
        let prefix = kept_lines(doc.drop_last(), ds);
        assert forall|i: int|
            0 <= i < kept_lines(doc, ds).len() implies !removed_by_block(
            #[trigger] kept_lines(doc, ds)[i],
            ds,
        ) by {
            if !removed_by_block(doc.last(), ds) {
                if i < prefix.len() {
                    assert(kept_lines(doc, ds)[i] == prefix[i]);
                } else {
                    assert(kept_lines(doc, ds)[i] == doc.last());
                }
            }
        }
    }
}

/// A prefix of annotation-free lines passes through the unblock scan intact.
proof fn lemma_unblock_prefix(a: Seq<Seq<char>>, b: Seq<Seq<char>>)
    requires
        forall|i: int| 0 <= i < a.len() ==> !has_annotation(#[trigger] a[i]),
    ensures
        unblock_from(a + b, false) == a + unblock_from(b, false),
    decreases a.len(),
{
    if a.len() == 0 {
        assert(a + b =~~= b);
        assert(a + unblock_from(b, false) =~~= unblock_from(b, false));
    } else {
        let line = a[0];
        assert((a + b)[0] == line);
        if has_marker(line) {
            lemma_marker_has_annotation(line);
        }
        assert((a + b).drop_first() =~~= a.drop_first() + b);
        assert(forall|i: int|
            0 <= i < a.len() - 1 ==> #[trigger] a.drop_first()[i] == a[i + 1]);
        lemma_unblock_prefix(a.drop_first(), b);
        assert(seq![line] + (a.drop_first() + unblock_from(b, false)) =~~= a + unblock_from(
            b,
            false,
        ));
    }
}

/// Marker-free null-route lines inside the managed section are all consumed.
proof fn lemma_unblock_routes(r: Seq<Seq<char>>)
    requires
        forall|i: int|
            0 <= i < r.len() ==> is_route_line(#[trigger] r[i]) && !has_marker(r[i]),
    ensures
        unblock_from(r, true) == Seq::<Seq<char>>::empty(),
    decreases r.len(),
{
    if r.len() > 0 {
        assert(forall|i: int| 0 <= i < r.len() - 1 ==> #[trigger] r.drop_first()[i] == r[i + 1]);
        lemma_unblock_routes(r.drop_first());
    }
}

/// The marker line itself contains the marker.
proof fn lemma_marker_is_marker()
    ensures
        has_marker(marker()),
{
    assert(marker().subrange(0, marker().len() as int) =~= marker());
    assert(contains_at(marker(), marker(), 0));
}

/// Scanning the marker line enters the managed section and drops the line.
proof fn lemma_unblock_marker_section(r: Seq<Seq<char>>)
    ensures
        unblock_from(seq![marker()] + r, false) == unblock_from(r, true),
{
    lemma_marker_is_marker();
    assert((seq![marker()] + r)[0] == marker());
    assert((seq![marker()] + r).drop_first() =~~= r);
}

/// Every null-route line written for a domain is recognized as one.
proof fn lemma_four_lines_are_routes(d: Seq<char>)
    requires
        d.len() > 0,
    ensures
        forall|k: int|
            0 <= k < four_lines(d).len() ==> is_route_line(#[trigger] four_lines(d)[k]),
{
    reveal_strlit("0.0.0.0 ");
    reveal_strlit("::1 ");
    reveal_strlit("0.0.0.0 www.");
    reveal_strlit("::1 www.");
    reveal_strlit("0.0.0.0");
    reveal_strlit("::1");
    let p4 = "0.0.0.0"@;
    let p6 = "::1"@;
    let l0 = "0.0.0.0 "@ + d;
    let l1 = "::1 "@ + d;
    let l2 = "0.0.0.0 www."@ + d;
    let l3 = "::1 www."@ + d;
    assert(starts_with(l0, p4)) by {
        assert(l0.subrange(0, 7) =~= p4);
    }
    assert(starts_with(l1, p6)) by {
        assert(l1.subrange(0, 3) =~= p6);
    }
    assert(starts_with(l2, p4)) by {
        assert(l2.subrange(0, 7) =~= p4);
    }
    assert(starts_with(l3, p6)) by {
        assert(l3.subrange(0, 3) =~= p6);
    }
    crate::text::lemma_trim_preserves_prefix(l0, p4);
    crate::text::lemma_trim_preserves_prefix(l1, p6);
    crate::text::lemma_trim_preserves_prefix(l2, p4);
    crate::text::lemma_trim_preserves_prefix(l3, p6);
}

/// Null-route lines for a case-folded domain carry no marker or annotation.
proof fn lemma_four_lines_no_annotation(d: Seq<char>)
    requires
        forall|i: int| 0 <= i < d.len() ==> !crate::text::is_upper(#[trigger] d[i]),
    ensures
        forall|k: int|
            0 <= k < four_lines(d).len() ==> !has_marker(#[trigger] four_lines(d)[k])
                && !has_annotation(four_lines(d)[k]),
{
    reveal_strlit("0.0.0.0 ");
    reveal_strlit("::1 ");
    reveal_strlit("0.0.0.0 www.");
    reveal_strlit("::1 www.");
    assert forall|k: int|
        0 <= k < four_lines(d).len() implies !has_marker(#[trigger] four_lines(d)[k])
        && !has_annotation(four_lines(d)[k]) by {
        let line = four_lines(d)[k];
        assert(forall|j: int| 0 <= j < line.len() ==> !crate::text::is_upper(#[trigger] line[j]));
        lemma_no_upper_no_annotation(line);
    }
}

/// A domain with no whitespace is mentioned, verbatim, by each of its
/// null-route lines even after trimming.
proof fn lemma_four_lines_mention(d: Seq<char>)
    requires
        d.len() > 0,
        forall|i: int| 0 <= i < d.len() ==> !crate::text::is_ws(#[trigger] d[i]),
    ensures
        forall|k: int|
            0 <= k < four_lines(d).len() ==> has_sub(trim(#[trigger] four_lines(d)[k]), d),
{
    reveal_strlit("0.0.0.0 ");
    reveal_strlit("::1 ");
    reveal_strlit("0.0.0.0 www.");
    reveal_strlit("::1 www.");
    assert forall|k: int|
        0 <= k < four_lines(d).len() implies has_sub(trim(#[trigger] four_lines(d)[k]), d) by {
        let line = four_lines(d)[k];
        assert(!crate::text::is_ws(line[0]));
        assert(line[line.len() - 1] == d[d.len() - 1]);
        crate::text::lemma_trim_id(line);
        let at = line.len() - d.len();
        assert(line.subrange(at, at + d.len() as int) =~= d);
        assert(contains_at(line, d, at));
    }
}

/// A site whose canonical domain is non-empty contributes that domain to the
/// collected domain list.
proof fn lemma_nonempty_domains_contains(sites: Seq<Seq<char>>, j: int)
    requires
        0 <= j < sites.len(),
        canon_domain(sites[j]).len() > 0,
    ensures
        nonempty_domains(sites).contains(canon_domain(sites[j])),
    decreases sites.len(),
{
    let d = canon_domain(sites[j]);
    if j == sites.len() - 1 {
        let prefix = nonempty_domains(sites.drop_last());
        assert(nonempty_domains(sites)[prefix.len() as int] == d);
    } else {
        assert(sites.drop_last()[j] == sites[j]);
        lemma_nonempty_domains_contains(sites.drop_last(), j);
        let prefix = nonempty_domains(sites.drop_last());
        let w = choose|w: int| 0 <= w < prefix.len() && prefix[w] == d;
        assert(nonempty_domains(sites)[w] == d);
    }
}

/// The domain contains no whitespace. Every domain a reasonable input yields
/// satisfies this; a raw site string with inner spaces need not.
pub open spec fn domain_has_no_ws(d: Seq<char>) -> bool {
    forall|i: int| 0 <= i < d.len() ==> !crate::text::is_ws(#[trigger] d[i])
}

/// The domains the appended section actually names, in first-appearance
/// order: each distinct, non-empty canonical domain once.
pub open spec fn added_domains(sites: Seq<Seq<char>>, added: Seq<Seq<char>>) -> Seq<Seq<char>>
    decreases sites.len(),
{
    if sites.len() == 0 {
        Seq::empty()
    } else {
        let d = canon_domain(sites[0]);
        if d.len() > 0 && !added.contains(d) {
            seq![d] + added_domains(sites.drop_first(), added.push(d))
        } else {
            added_domains(sites.drop_first(), added)
        }
    }
}

/// How many lines of the document carry the marker.
pub open spec fn count_marker_lines(doc: Seq<Seq<char>>) -> nat
    decreases doc.len(),
{
    if doc.len() == 0 {
        0
    } else {
        count_marker_lines(doc.drop_last()) + if has_marker(doc.last()) {
            1nat
        } else {
            0nat
        }
    }
}

/// Every appended line is a marker-free null-route line.
proof fn lemma_routes_are_routes(sites: Seq<Seq<char>>, added: Seq<Seq<char>>)
    ensures
        forall|i: int|
            0 <= i < route_lines_from(sites, added).len() ==> is_route_line(
                #[trigger] route_lines_from(sites, added)[i],
            ) && !has_marker(route_lines_from(sites, added)[i]),
    decreases sites.len(),
{
    if sites.len() > 0 {
        let d = canon_domain(sites[0]);
        if d.len() > 0 && !added.contains(d) {
            lemma_four_lines_are_routes(d);
            crate::domain::lemma_canon_domain_no_upper(sites[0]);
            lemma_four_lines_no_annotation(d);
            lemma_routes_are_routes(sites.drop_first(), added.push(d));
            assert forall|i: int|
                0 <= i < route_lines_from(sites, added).len() implies is_route_line(
                #[trigger] route_lines_from(sites, added)[i],
            ) && !has_marker(route_lines_from(sites, added)[i]) by {
                let fl = four_lines(d);
                let rest = route_lines_from(sites.drop_first(), added.push(d));
                if i < fl.len() {
                    assert(route_lines_from(sites, added)[i] == fl[i]);
                } else {
                    assert(route_lines_from(sites, added)[i] == rest[i - fl.len()]);
                }
            }
        } else {
            lemma_routes_are_routes(sites.drop_first(), added);
            assert forall|i: int|
                0 <= i < route_lines_from(sites, added).len() implies is_route_line(
                #[trigger] route_lines_from(sites, added)[i],
            ) && !has_marker(route_lines_from(sites, added)[i]) by {
                let rest = route_lines_from(sites.drop_first(), added);
                assert(route_lines_from(sites, added)[i] == rest[i]);
            }
        }
    }
}

/// When every site's domain is whitespace-free and stands in the given domain
/// list, blocking those domains again drops every appended line.
proof fn lemma_routes_removed(sites: Seq<Seq<char>>, added: Seq<Seq<char>>, ds: Seq<Seq<char>>)
    requires
        forall|j: int|
            0 <= j < sites.len() ==> (canon_domain(#[trigger] sites[j]).len() > 0 ==> ds.contains(
                canon_domain(sites[j]),
            )),
        forall|j: int| 0 <= j < sites.len() ==> domain_has_no_ws(canon_domain(#[trigger] sites[j])),
    ensures
        forall|i: int|
            0 <= i < route_lines_from(sites, added).len() ==> removed_by_block(
                #[trigger] route_lines_from(sites, added)[i],
                ds,
            ),
    decreases sites.len(),
{
    if sites.len() > 0 {
        let d = canon_domain(sites[0]);
        assert(forall|j: int|
            0 <= j < sites.len() - 1 ==> #[trigger] sites.drop_first()[j] == sites[j + 1]);
        if d.len() > 0 && !added.contains(d) {
            lemma_four_lines_are_routes(d);
            lemma_four_lines_mention(d);
            lemma_routes_removed(sites.drop_first(), added.push(d), ds);
            assert forall|i: int|
                0 <= i < route_lines_from(sites, added).len() implies removed_by_block(
                #[trigger] route_lines_from(sites, added)[i],
                ds,
            ) by {
                let fl = four_lines(d);
                let rest = route_lines_from(sites.drop_first(), added.push(d));
                let w = choose|w: int| 0 <= w < ds.len() && ds[w] == d;
                if i < fl.len() {
                    assert(route_lines_from(sites, added)[i] == fl[i]);
                    assert(has_sub(trim(fl[i]), ds[w]));
                    assert(mentions_any(fl[i], ds));
                } else {
                    assert(route_lines_from(sites, added)[i] == rest[i - fl.len()]);
                }
            }
        } else {
            lemma_routes_removed(sites.drop_first(), added, ds);
            assert forall|i: int|
                0 <= i < route_lines_from(sites, added).len() implies removed_by_block(
                #[trigger] route_lines_from(sites, added)[i],
                ds,
            ) by {
                let rest = route_lines_from(sites.drop_first(), added);
                assert(route_lines_from(sites, added)[i] == rest[i]);
            }
        }
    }
}

/// Blocking, then unblocking, restores a document that held no managed lines
/// to begin with: blocking appends exactly one managed section at the end,
/// and unblocking consumes exactly that section.
pub proof fn lemma_block_then_unblock(doc: Seq<Seq<char>>, sites: Seq<Seq<char>>)
    requires
        forall|i: int|
            0 <= i < doc.len() ==> !removed_by_block(#[trigger] doc[i], nonempty_domains(sites)),
    ensures
        unblock_result(block_result(doc, sites)) == doc,
{
    let ds = nonempty_domains(sites);
    let r = route_lines_from(sites, Seq::empty());
    lemma_kept_lines_all(doc, ds);
    assert(block_result(doc, sites) =~~= doc + (seq![marker()] + r));
    lemma_unblock_prefix(doc, seq![marker()] + r);
    lemma_unblock_marker_section(r);
    lemma_routes_are_routes(sites, Seq::empty());
    lemma_unblock_routes(r);
    assert(doc + unblock_from(seq![marker()] + r, false) =~~= doc);
}

/// Blocking the same sites twice produces the very document one block does:
/// the second block removes precisely the section the first appended. In
/// particular the result never holds two marker sections or twice the
/// null-route lines.
pub proof fn lemma_block_twice(doc: Seq<Seq<char>>, sites: Seq<Seq<char>>)
    requires
        forall|k: int| 0 <= k < sites.len() ==> domain_has_no_ws(canon_domain(#[trigger] sites[k])),
    ensures
        block_result(block_result(doc, sites), sites) == block_result(doc, sites),
{
    let ds = nonempty_domains(sites);
    let k0 = kept_lines(doc, ds);
    let r = route_lines_from(sites, Seq::empty());
    let b = block_result(doc, sites);
    assert(b =~~= (k0 + seq![marker()]) + r);
    lemma_kept_lines_append(k0 + seq![marker()], r, ds);
    lemma_kept_lines_append(k0, seq![marker()], ds);
    lemma_kept_lines_sub(doc, ds);
    lemma_kept_lines_all(k0, ds);
    lemma_marker_is_marker();
    lemma_kept_lines_none(seq![marker()], ds);
    assert forall|j: int|
        0 <= j < sites.len() && canon_domain(#[trigger] sites[j]).len() > 0 implies ds.contains(
        canon_domain(sites[j]),
    ) by {
        lemma_nonempty_domains_contains(sites, j);
    }
    lemma_routes_removed(sites, Seq::empty(), ds);
    lemma_kept_lines_none(r, ds);
    assert(kept_lines(b, ds) =~~= k0);
    assert(block_result(b, sites) =~~= b);
}

/// Marker counting works line by line.
proof fn lemma_count_append(a: Seq<Seq<char>>, b: Seq<Seq<char>>)
    ensures
        count_marker_lines(a + b) == count_marker_lines(a) + count_marker_lines(b),
    decreases b.len(),
{
    if b.len() == 0 {
        assert(a + b =~~= a);
    } else {
        assert((a + b).drop_last() =~~= a + b.drop_last());
        assert((a + b).last() == b.last());
        lemma_count_append(a, b.drop_last());
    }
}

/// A document with no marker line counts zero.
proof fn lemma_count_none(doc: Seq<Seq<char>>)
    requires
        forall|i: int| 0 <= i < doc.len() ==> !has_marker(#[trigger] doc[i]),
    ensures
        count_marker_lines(doc) == 0,
    decreases doc.len(),
{
    if doc.len() > 0 {
        assert(forall|i: int| 0 <= i < doc.len() - 1 ==> #[trigger] doc.drop_last()[i] == doc[i]);
        lemma_count_none(doc.drop_last());
    }
}

/// Appended lines are four per distinct domain.
proof fn lemma_route_lines_len(sites: Seq<Seq<char>>, added: Seq<Seq<char>>)
    ensures
        route_lines_from(sites, added).len() == 4 * added_domains(sites, added).len(),
    decreases sites.len(),
{
    if sites.len() > 0 {
        let d = canon_domain(sites[0]);
        if d.len() > 0 && !added.contains(d) {
            lemma_route_lines_len(sites.drop_first(), added.push(d));
        } else {
            lemma_route_lines_len(sites.drop_first(), added);
        }
    }
}

/// The appended section names each domain at most once, and only domains not
/// yet appended.
proof fn lemma_added_domains_distinct(sites: Seq<Seq<char>>, added: Seq<Seq<char>>)
    ensures
        forall|p: int, q: int|
            0 <= p < q < added_domains(sites, added).len() ==> added_domains(sites, added)[p]
                != added_domains(sites, added)[q],
        forall|p: int|
            0 <= p < added_domains(sites, added).len() ==> !added.contains(
                #[trigger] added_domains(sites, added)[p],
            ) && added_domains(sites, added)[p].len() > 0,
    decreases sites.len(),
{
    if sites.len() > 0 {
        let d = canon_domain(sites[0]);
        if d.len() > 0 && !added.contains(d) {
            lemma_added_domains_distinct(sites.drop_first(), added.push(d));
            assert forall|p: int|
                0 <= p < added_domains(sites, added).len() implies !added.contains(
                #[trigger] added_domains(sites, added)[p],
            ) && added_domains(sites, added)[p].len() > 0 by {
                let rest = added_domains(sites.drop_first(), added.push(d));
                if p > 0 {
                    assert(added_domains(sites, added)[p] == rest[p - 1]);
                    if added.contains(rest[p - 1]) {
                        let w = choose|w: int| 0 <= w < added.len() && added[w] == rest[p - 1];
                        assert(added.push(d)[w] == rest[p - 1]);
                    }
                } else {
                    assert(added_domains(sites, added)[p] == d);
                }
            }
            assert forall|p: int, q: int|
                0 <= p < q < added_domains(sites, added).len() implies added_domains(
                sites,
                added,
            )[p] != added_domains(sites, added)[q] by {
                let rest = added_domains(sites.drop_first(), added.push(d));
                assert(added.push(d)[added.len() as int] == d);
                assert(added_domains(sites, added)[q] == rest[q - 1]);
                if p == 0 {
                    assert(added_domains(sites, added)[p] == d);
                    if rest[q - 1] == d {
                        assert(added.push(d).contains(rest[q - 1]));
                    }
                } else {
                    assert(added_domains(sites, added)[p] == rest[p - 1]);
                }
            }
        } else {
            lemma_added_domains_distinct(sites.drop_first(), added);
            assert forall|p: int|
                0 <= p < added_domains(sites, added).len() implies !added.contains(
                #[trigger] added_domains(sites, added)[p],
            ) && added_domains(sites, added)[p].len() > 0 by {
                let rest = added_domains(sites.drop_first(), added);
                assert(added_domains(sites, added)[p] == rest[p]);
            }
            assert forall|p: int, q: int|
                0 <= p < q < added_domains(sites, added).len() implies added_domains(
                sites,
                added,
            )[p] != added_domains(sites, added)[q] by {
                let rest = added_domains(sites.drop_first(), added);
                assert(added_domains(sites, added)[p] == rest[p]);
                assert(added_domains(sites, added)[q] == rest[q]);
            }
        }
    }
}

/// No site's non-empty domain is dropped: each stands among the domains
/// already appended or among those the section appends.
proof fn lemma_added_domains_complete(sites: Seq<Seq<char>>, added: Seq<Seq<char>>, j: int)
    requires
        0 <= j < sites.len(),
        canon_domain(sites[j]).len() > 0,
    ensures
        added.contains(canon_domain(sites[j])) || added_domains(sites, added).contains(
            canon_domain(sites[j]),
        ),
    decreases sites.len(),
{
    let d0 = canon_domain(sites[0]);
    let d = canon_domain(sites[j]);
    let ad = added_domains(sites, added);
    if j == 0 {
        if !added.contains(d) {
            assert(ad[0] == d);
        }
    } else {
        assert(sites.drop_first()[j - 1] == sites[j]);
        if d0.len() > 0 && !added.contains(d0) {
            let rest = added_domains(sites.drop_first(), added.push(d0));
            lemma_added_domains_complete(sites.drop_first(), added.push(d0), j - 1);
            if added.push(d0).contains(d) {
                let w = choose|w: int| 0 <= w < added.push(d0).len() && added.push(d0)[w] == d;
                if w < added.len() {
                    assert(added[w] == d);
                } else {
                    assert(d == d0);
                    assert(ad[0] == d);
                }
            } else {
                let w = choose|w: int| 0 <= w < rest.len() && rest[w] == d;
                assert(ad[w + 1] == d);
            }
        } else {
            lemma_added_domains_complete(sites.drop_first(), added, j - 1);
        }
    }
}

/// One block yields exactly one marker line and exactly four null-route lines
/// per distinct non-empty domain — blocking twice never doubles the section.
pub proof fn lemma_block_section_shape(doc: Seq<Seq<char>>, sites: Seq<Seq<char>>)
    ensures
        count_marker_lines(block_result(doc, sites)) == 1,
        route_lines_from(sites, Seq::empty()).len() == 4 * added_domains(
            sites,
            Seq::empty(),
        ).len(),
        forall|p: int, q: int|
            0 <= p < q < added_domains(sites, Seq::empty()).len() ==> added_domains(
                sites,
                Seq::empty(),
            )[p] != added_domains(sites, Seq::empty())[q],
        forall|j: int|
            0 <= j < sites.len() && canon_domain(#[trigger] sites[j]).len() > 0 ==> added_domains(
                sites,
                Seq::empty(),
            ).contains(canon_domain(sites[j])),
{
    let ds = nonempty_domains(sites);
    let k0 = kept_lines(doc, ds);
    let r = route_lines_from(sites, Seq::empty());
    assert(block_result(doc, sites) =~~= (k0 + seq![marker()]) + r);
    lemma_count_append(k0 + seq![marker()], r);
    lemma_count_append(k0, seq![marker()]);
    lemma_kept_lines_sub(doc, ds);
    lemma_count_none(k0);
    lemma_marker_is_marker();
    assert(count_marker_lines(seq![marker()]) == 1) by {
        lemma_count_none(seq![marker()].drop_last());
        assert(seq![marker()].last() == marker());
    }
    lemma_routes_are_routes(sites, Seq::empty());
    lemma_count_none(r);
    lemma_route_lines_len(sites, Seq::empty());
    lemma_added_domains_distinct(sites, Seq::empty());
    assert forall|j: int|
        0 <= j < sites.len() && canon_domain(#[trigger] sites[j]).len() > 0 implies added_domains(
        sites,
        Seq::empty(),
    ).contains(canon_domain(sites[j])) by {
        lemma_added_domains_complete(sites, Seq::empty(), j);
    }
}

/// The unblock scan never keeps an annotated line, wherever it stood.
proof fn lemma_unblock_no_annotation(doc: Seq<Seq<char>>, in_block: bool)
    ensures
        forall|i: int|
            0 <= i < unblock_from(doc, in_block).len() ==> !has_annotation(
                #[trigger] unblock_from(doc, in_block)[i],
            ),
    decreases doc.len(),
{
    if doc.len() > 0 {
        let line = doc[0];
        let rest = doc.drop_first();
        if has_marker(line) {
            lemma_unblock_no_annotation(rest, true);
            assert forall|i: int|
                0 <= i < unblock_from(doc, in_block).len() implies !has_annotation(
                #[trigger] unblock_from(doc, in_block)[i],
            ) by {
                assert(unblock_from(doc, in_block)[i] == unblock_from(rest, true)[i]);
            }
        } else if in_block && !ends_block(line) {
            lemma_unblock_no_annotation(rest, true);
            assert forall|i: int|
                0 <= i < unblock_from(doc, in_block).len() implies !has_annotation(
                #[trigger] unblock_from(doc, in_block)[i],
            ) by {
                assert(unblock_from(doc, in_block)[i] == unblock_from(rest, true)[i]);
            }
        } else {
            lemma_unblock_no_annotation(rest, false);
            assert forall|i: int|
                0 <= i < unblock_from(doc, in_block).len() implies !has_annotation(
                #[trigger] unblock_from(doc, in_block)[i],
            ) by {
                if has_annotation(line) {
                    assert(unblock_from(doc, in_block)[i] == unblock_from(rest, false)[i]);
                } else if i > 0 {
                    assert(unblock_from(doc, in_block)[i] == unblock_from(rest, false)[i - 1]);
                }
            }
        }
    }
}

/// Unblocking twice in a row converges: the first pass leaves no managed
/// line behind, so the second finds nothing to remove.
pub proof fn lemma_unblock_idempotent(doc: Seq<Seq<char>>)
    ensures
        unblock_result(unblock_result(doc)) == unblock_result(doc),
{
    lemma_unblock_no_annotation(doc, false);
    lemma_unblock_no_block_is_noop(unblock_result(doc));
}

/// Unblocking a document that carries no annotated line anywhere — in
/// particular, no managed section — is a no-op.
pub proof fn lemma_unblock_no_block_is_noop(doc: Seq<Seq<char>>)
    requires
        forall|i: int| 0 <= i < doc.len() ==> !has_annotation(#[trigger] doc[i]),
    ensures
        unblock_result(doc) == doc,
{
    lemma_unblock_prefix(doc, Seq::empty());
    assert(doc + Seq::<Seq<char>>::empty() =~~= doc);
    assert(doc + unblock_from(Seq::empty(), false) =~~= doc);
}

} // verus!
