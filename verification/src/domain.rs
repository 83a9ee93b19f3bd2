//! Domain normalizer: reduces a user-supplied URL or bare host string to a
//! canonical domain — trimmed, case-folded, with any scheme, `www.` prefix,
//! path and port removed. Malformed input degrades to best-effort substring
//! extraction; an empty result is the explicit "unparseable" sentinel that
//! callers filter out.
//!
//! Folding is ASCII: an uppercase letter outside ASCII passes through
//! unchanged, so only ASCII domains — which is what hosts files carry — are
//! guaranteed lowercase on output.

use vstd::prelude::*;

use crate::text::{
    chars_to_string, find_char, find_char_vec, lower, lower_vec, starts_with, starts_with_vec,
    str_to_chars, sub_vec, trim, trim_vec,
};

verus! {

/// Drop the prefix when the sequence begins with it, else leave it alone.
pub open spec fn strip_prefix(s: Seq<char>, p: Seq<char>) -> Seq<char> {
    if starts_with(s, p) {
        s.skip(p.len() as int)
    } else {
        s
    }
}

/// The text before the first occurrence of the character, or all of it.
pub open spec fn cut_at(s: Seq<char>, c: char) -> Seq<char> {
    let i = find_char(s, c);
    if 0 <= i < s.len() {
        s.take(i)
    } else {
        s
    }
}

/// The canonical domain of a raw site string: trim and case-fold, drop one
/// leading `https://` or `http://` scheme, drop one leading `www.`, and keep
/// only the text before the first `/` (path) and the first `:` (port).
pub open spec fn canon_domain(s: Seq<char>) -> Seq<char> {
    let t = lower(trim(s));
    let u = if starts_with(t, "https://"@) {
        strip_prefix(t, "https://"@)
    } else {
        strip_prefix(t, "http://"@)
    };
    let v = strip_prefix(u, "www."@);
    cut_at(cut_at(v, '/'), ':')
}

/// A canonical domain never contains an ASCII uppercase letter: every
/// character of it comes out of the case-folding pass.
pub proof fn lemma_canon_domain_no_upper(s: Seq<char>)
    ensures
        forall|i: int|
            0 <= i < canon_domain(s).len() ==> !crate::text::is_upper(
                #[trigger] canon_domain(s)[i],
            ),
{
    let t = lower(trim(s));
    crate::text::lemma_lower_no_upper(trim(s));
    let u = if starts_with(t, "https://"@) {
        strip_prefix(t, "https://"@)
    } else {
        strip_prefix(t, "http://"@)
    };
    assert(forall|i: int| 0 <= i < u.len() ==> !crate::text::is_upper(#[trigger] u[i]));
    let v = strip_prefix(u, "www."@);
    assert(forall|i: int| 0 <= i < v.len() ==> !crate::text::is_upper(#[trigger] v[i]));
    let w = cut_at(v, '/');
    assert(forall|i: int| 0 <= i < w.len() ==> !crate::text::is_upper(#[trigger] w[i]));
    let x = cut_at(w, ':');
    assert(forall|i: int| 0 <= i < x.len() ==> !crate::text::is_upper(#[trigger] x[i]));
}

/// Keep the text before the first occurrence of the character.
fn cut_vec(s: &Vec<char>, c: char) -> (r: Vec<char>)
    ensures
        r@ == cut_at(s@, c),
{
    match find_char_vec(s, c) {
        Some(i) => sub_vec(s, 0, i),
        None => {
            let r = sub_vec(s, 0, s.len());
            proof {
                assert(s@.subrange(0, s@.len() as int) =~= s@);
            }
            r
        },
    }
}

/// Drop the prefix when the vector begins with it.
fn strip_prefix_vec(s: &Vec<char>, p: &Vec<char>) -> (r: Vec<char>)
    ensures
        r@ == strip_prefix(s@, p@),
{
    if starts_with_vec(s, p) {
        let r = sub_vec(s, p.len(), s.len());
        proof {
            assert(s@.subrange(p@.len() as int, s@.len() as int) =~= s@.skip(p@.len() as int));
        }
        r
    } else {
        let r = sub_vec(s, 0, s.len());
        proof {
            assert(s@.subrange(0, s@.len() as int) =~= s@);
        }
        r
    }
}

/// Normalize a raw site string, given as characters, to its canonical domain.
pub fn canon_domain_vec(cs: &Vec<char>) -> (r: Vec<char>)
    ensures
        r@ == canon_domain(cs@),
{
    let trimmed = trim_vec(cs);
    let t = lower_vec(&trimmed);
    let https = str_to_chars("https://");
    let http = str_to_chars("http://");
    let www = str_to_chars("www.");
    let u = if starts_with_vec(&t, &https) {
        strip_prefix_vec(&t, &https)
    } else {
        strip_prefix_vec(&t, &http)
    };
    let v = strip_prefix_vec(&u, &www);
    let w = cut_vec(&v, '/');
    cut_vec(&w, ':')
}

/// Normalize a raw site string to its canonical domain; an unrecognizable
/// input degrades to a best-effort substring, never an error.
pub fn extract_domain(input: &str) -> (r: String)
    ensures
        r@ == canon_domain(input@),
{
    let cs = str_to_chars(input);
    let x = canon_domain_vec(&cs);
    chars_to_string(&x)
}

} // verus!
