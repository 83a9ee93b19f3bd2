//! Character-sequence utilities shared by the domain normalizer, the hosts
//! document editor, and the process matcher: ASCII lowercasing, whitespace
//! trimming, substring search, and conversions between `String` and `Vec<char>`.
//!
//! Case folding and whitespace are deliberately ASCII throughout: the text
//! this engine reasons about — hosts-file lines, domains, process and
//! executable names — is ASCII, and an ASCII definition lets every contract
//! state the folded result exactly. A character outside ASCII passes through
//! folding and trimming unchanged.

use vstd::prelude::*;

verus! {

/// ASCII uppercase letters are the only characters the engine folds.
pub open spec fn is_upper(c: char) -> bool {
    'A' <= c && c <= 'Z'
}

/// Case-fold one character: ASCII uppercase maps to lowercase, every other
/// character — including non-ASCII letters — stays as it is.
pub open spec fn lower_char(c: char) -> char {
    if is_upper(c) {
        (((c as u8) + 32) as char)
    } else {
        c
    }
}

/// Case-fold a whole sequence of characters.
pub open spec fn lower(s: Seq<char>) -> Seq<char> {
    s.map_values(|c: char| lower_char(c))
}

/// Fold one character to lowercase.
pub fn lower_char_exec(c: char) -> (r: char)
    ensures
        r == lower_char(c),
{
    if 'A' <= c && c <= 'Z' {
        ((c as u8) + 32) as char
    } else {
        c
    }
}

/// Copy the characters of a string slice into a vector.
pub fn str_to_chars(s: &str) -> (r: Vec<char>)
    ensures
        r@ == s@,
{
    let n: usize = s.unicode_len();
    let mut out: Vec<char> = Vec::new();
    let mut i: usize = 0;
    while i < n
        invariant
            i <= n,
            n == s@.len(),
            out@ == s@.subrange(0, i as int),
        decreases n - i,
    {
        out.push(s.get_char(i));
        i = i + 1;
        proof {
            assert(out@ =~= s@.subrange(0, i as int));
        }
    }
    proof {
        assert(out@ =~= s@);
    }
    out
}

/// Relies on `String: FromIterator<char>`: collecting characters yields the
/// string made of exactly those characters, in order.
#[verifier::external_body]
pub fn chars_to_string(v: &Vec<char>) -> (r: String)
    ensures
        r@ == v@,
{
    v.iter().collect()
}

/// Fold a whole vector of characters to lowercase.
pub fn lower_vec(s: &Vec<char>) -> (r: Vec<char>)
    ensures
        r@ == lower(s@),
{
    let n: usize = s.len();
    let mut out: Vec<char> = Vec::new();
    let mut i: usize = 0;
    while i < n
        invariant
            i <= n,
            n == s@.len(),
            out@ == lower(s@.take(i as int)),
        decreases n - i,
    {
        out.push(lower_char_exec(s[i]));
        i = i + 1;
        proof {
            assert(out@ =~= lower(s@.take(i as int)));
        }
    }
    proof {
        assert(s@.take(n as int) =~= s@);
    }
    out
}

/// The ASCII whitespace characters that trimming removes; other characters,
/// non-ASCII spacing included, never count as whitespace here.
pub open spec fn is_ws(c: char) -> bool {
    c == ' ' || c == '\t' || c == '\r' || c == '\n'
}

/// Drop leading whitespace.
pub open spec fn trim_front(s: Seq<char>) -> Seq<char>
    decreases s.len(),
{
    if s.len() > 0 && is_ws(s[0]) {
        trim_front(s.drop_first())
    } else {
        s
    }
}

/// Drop trailing whitespace.
pub open spec fn trim_back(s: Seq<char>) -> Seq<char>
    decreases s.len(),
{
    if s.len() > 0 && is_ws(s[s.len() - 1]) {
        trim_back(s.drop_last())
    } else {
        s
    }
}

/// Drop leading and trailing whitespace.
pub open spec fn trim(s: Seq<char>) -> Seq<char> {
    trim_back(trim_front(s))
}

/// Copy a range of a character vector.
pub fn sub_vec(s: &Vec<char>, from: usize, to: usize) -> (r: Vec<char>)
    requires
        from <= to <= s@.len(),
    ensures
        r@ == s@.subrange(from as int, to as int),
{
    let mut out: Vec<char> = Vec::new();
    let mut i: usize = from;
    while i < to
        invariant
            from <= i <= to <= s@.len(),
            out@ == s@.subrange(from as int, i as int),
        decreases to - i,
    {
        out.push(s[i]);
        i = i + 1;
        proof {
            assert(out@ =~= s@.subrange(from as int, i as int));
        }
    }
    out
}

/// Remove leading and trailing whitespace from a character vector.
pub fn trim_vec(s: &Vec<char>) -> (r: Vec<char>)
    ensures
        r@ == trim(s@),
{
    let n: usize = s.len();
    let mut start: usize = 0;
    proof {
        assert(s@.skip(0) =~= s@);
    }
    while start < n && is_ws_exec(s[start])
        invariant
            start <= n,
            n == s@.len(),
            trim_front(s@) == trim_front(s@.skip(start as int)),
        decreases n - start,
    {
        proof {
            assert(s@.skip(start as int).drop_first() =~= s@.skip(start as int + 1));
        }
        start = start + 1;
    }
    proof {
        if start == n {
            assert(s@.skip(start as int) =~= Seq::<char>::empty());
        }
        // either way, the remainder has no leading whitespace
        assert(trim_front(s@) == s@.skip(start as int));
    }
    let mut end: usize = n;
    while end > start && is_ws_exec(s[end - 1])
        invariant
            start <= end <= n,
            n == s@.len(),
            trim_front(s@) == s@.skip(start as int),
            trim_back(s@.skip(start as int)) == trim_back(s@.subrange(start as int, end as int)),
        decreases end,
    {
        proof {
            let mid = s@.subrange(start as int, end as int);
            assert(mid[mid.len() - 1] == s@[end - 1]);
            assert(mid.drop_last() =~= s@.subrange(start as int, end as int - 1));
        }
        end = end - 1;
    }
    proof {
        let fin = s@.subrange(start as int, end as int);
        if end > start {
            assert(fin[fin.len() - 1] == s@[end - 1]);
        }
        assert(trim_back(fin) == fin);
        assert(s@.skip(start as int) =~= s@.subrange(start as int, n as int));
    }
    sub_vec(s, start, end)
}

/// Whether the character is ASCII whitespace.
pub fn is_ws_exec(c: char) -> (r: bool)
    ensures
        r == is_ws(c),
{
    c == ' ' || c == '\t' || c == '\r' || c == '\n'
}

/// The needle occurs in the haystack starting at position `i`.
pub open spec fn contains_at(s: Seq<char>, p: Seq<char>, i: int) -> bool {
    0 <= i && i + p.len() <= s.len() && s.subrange(i, i + p.len()) == p
}

/// The needle occurs somewhere in the haystack.
pub open spec fn has_sub(s: Seq<char>, p: Seq<char>) -> bool {
    exists|i: int| contains_at(s, p, i)
}

/// The sequence begins with the given prefix.
pub open spec fn starts_with(s: Seq<char>, p: Seq<char>) -> bool {
    p.len() <= s.len() && s.subrange(0, p.len() as int) == p
}

/// Compare the needle against the haystack at one position.
fn match_at(s: &Vec<char>, p: &Vec<char>, at: usize) -> (r: bool)
    requires
        at + p@.len() <= s@.len(),
    ensures
        r == contains_at(s@, p@, at as int),
{
    let m: usize = p.len();
    let n: usize = s.len();
    let mut j: usize = 0;
    while j < m
        invariant
            j <= m,
            m == p@.len(),
            n == s@.len(),
            at + m <= n,
            forall|k: int| 0 <= k < j ==> s@[at + k] == p@[k],
        decreases m - j,
    {
        if s[at + j] != p[j] {
            proof {
                assert(s@.subrange(at as int, at + m) != p@) by {
                    assert(s@.subrange(at as int, at + m)[j as int] != p@[j as int]);
                }
            }
            return false;
        }
        j = j + 1;
    }
    proof {
        assert(s@.subrange(at as int, at + m) =~= p@);
    }
    true
}

/// Whether the prefix begins the vector.
pub fn starts_with_vec(s: &Vec<char>, p: &Vec<char>) -> (r: bool)
    ensures
        r == starts_with(s@, p@),
{
    if p.len() > s.len() {
        return false;
    }
    match_at(s, p, 0)
}

/// Whether the needle occurs anywhere in the haystack.
pub fn contains_vec(s: &Vec<char>, p: &Vec<char>) -> (r: bool)
    ensures
        r == has_sub(s@, p@),
{
    let n: usize = s.len();
    let m: usize = p.len();
    if m > n {
        proof {
            assert(forall|i: int| !contains_at(s@, p@, i));
        }
        return false;
    }
    if m == 0 {
        proof {
            assert(s@.subrange(0, 0) =~= p@);
            assert(contains_at(s@, p@, 0));
        }
        return true;
    }
    let mut i: usize = 0;
    while i <= n - m
        invariant
            1 <= m <= n,
            n == s@.len(),
            m == p@.len(),
            i <= n - m + 1,
            forall|k: int| 0 <= k < i ==> !contains_at(s@, p@, k),
        decreases n + 1 - i,
    {
        if match_at(s, p, i) {
            return true;
        }
        i = i + 1;
    }
    proof {
        assert(forall|k: int| contains_at(s@, p@, k) ==> 0 <= k <= n - m);
    }
    false
}

/// Character-for-character equality of two vectors.
pub fn eq_vec(a: &Vec<char>, b: &Vec<char>) -> (r: bool)
    ensures
        r == (a@ == b@),
{
    let n: usize = a.len();
    if n != b.len() {
        return false;
    }
    let mut i: usize = 0;
    while i < n
        invariant
            i <= n,
            n == a@.len() == b@.len(),
            forall|k: int| 0 <= k < i ==> a@[k] == b@[k],
        decreases n - i,
    {
        if a[i] != b[i] {
            return false;
        }
        i = i + 1;
    }
    proof {
        assert(a@ =~= b@);
    }
    true
}

/// The sequence ends with the given suffix.
pub open spec fn ends_with(s: Seq<char>, p: Seq<char>) -> bool {
    p.len() <= s.len() && s.subrange(s.len() - p.len(), s.len() as int) == p
}

/// Whether the suffix ends the vector.
pub fn ends_with_vec(s: &Vec<char>, p: &Vec<char>) -> (r: bool)
    ensures
        r == ends_with(s@, p@),
{
    let n: usize = s.len();
    let m: usize = p.len();
    if m > n {
        return false;
    }
    match_at(s, p, n - m)
}

/// Index of the first occurrence of the needle, or -1 when absent.
pub open spec fn find_sub(s: Seq<char>, p: Seq<char>) -> int
    decreases s.len(),
{
    if p.len() > s.len() {
        -1
    } else if s.subrange(0, p.len() as int) == p {
        0
    } else if s.len() == p.len() {
        -1
    } else {
        let r = find_sub(s.drop_first(), p);
        if r < 0 {
            -1
        } else {
            r + 1
        }
    }
}

/// `find_sub` returns the first position of the needle, or -1 when the
/// needle does not occur.
pub proof fn lemma_find_sub(s: Seq<char>, p: Seq<char>)
    ensures
        find_sub(s, p) >= 0 ==> {
            &&& contains_at(s, p, find_sub(s, p))
            &&& forall|j: int| 0 <= j < find_sub(s, p) ==> !contains_at(s, p, j)
        },
        find_sub(s, p) < 0 ==> forall|j: int| !contains_at(s, p, j),
    decreases s.len(),
{
    if p.len() > s.len() {
    } else if s.subrange(0, p.len() as int) == p {
    } else if s.len() == p.len() {
        assert(forall|j: int| j >= 1 ==> !contains_at(s, p, j));
    } else {
        lemma_find_sub(s.drop_first(), p);
        let r = find_sub(s.drop_first(), p);
        assert forall|j: int| 1 <= j && contains_at(s, p, j) implies contains_at(
            s.drop_first(),
            p,
            j - 1,
        ) by {
            assert(s.drop_first().subrange(j - 1, j - 1 + p.len()) =~= s.subrange(
                j,
                j + p.len(),
            ));
        }
        assert forall|j: int| 0 <= j && contains_at(s.drop_first(), p, j) implies contains_at(
            s,
            p,
            j + 1,
        ) by {
            assert(s.subrange(j + 1, j + 1 + p.len()) =~= s.drop_first().subrange(
                j,
                j + p.len(),
            ));
        }
    }
}

/// Find the first occurrence of the needle in a vector.
pub fn find_sub_vec(s: &Vec<char>, p: &Vec<char>) -> (r: Option<usize>)
    ensures
        match r {
            Some(i) => i == find_sub(s@, p@) && i + p@.len() <= s@.len(),
            None => find_sub(s@, p@) < 0,
        },
{
    let n: usize = s.len();
    let m: usize = p.len();
    proof {
        lemma_find_sub(s@, p@);
    }
    if m > n {
        return None;
    }
    if m == 0 {
        proof {
            assert(s@.subrange(0, 0) =~= p@);
        }
        return Some(0);
    }
    let mut i: usize = 0;
    while i <= n - m
        invariant
            1 <= m <= n,
            n == s@.len(),
            m == p@.len(),
            i <= n - m + 1,
            forall|k: int| 0 <= k < i ==> !contains_at(s@, p@, k),
        decreases n + 1 - i,
    {
        if match_at(s, p, i) {
            proof {
                lemma_find_sub(s@, p@);
                let r = find_sub(s@, p@);
                if r < 0 {
                    assert(!contains_at(s@, p@, i as int));
                }
                if 0 <= r < i {
                    assert(!contains_at(s@, p@, r));
                }
                if r > i {
                    assert(!contains_at(s@, p@, i as int));
                }
            }
            return Some(i);
        }
        i = i + 1;
    }
    proof {
        lemma_find_sub(s@, p@);
        let r = find_sub(s@, p@);
        if r >= 0 {
            assert(contains_at(s@, p@, r));
            assert(0 <= r <= n - m);
        }
    }
    None
}

/// Index of the first occurrence of the character, or -1 when absent.
pub open spec fn find_char(s: Seq<char>, c: char) -> int
    decreases s.len(),
{
    if s.len() == 0 {
        -1
    } else if s[0] == c {
        0
    } else {
        let r = find_char(s.drop_first(), c);
        if r < 0 {
            -1
        } else {
            r + 1
        }
    }
}

/// `find_char` returns the first position of the character, or -1 when the
/// character does not occur.
pub proof fn lemma_find_char(s: Seq<char>, c: char)
    ensures
        find_char(s, c) >= 0 ==> {
            &&& find_char(s, c) < s.len()
            &&& s[find_char(s, c)] == c
            &&& forall|j: int| 0 <= j < find_char(s, c) ==> s[j] != c
        },
        find_char(s, c) < 0 ==> forall|j: int| 0 <= j < s.len() ==> s[j] != c,
    decreases s.len(),
{
    if s.len() == 0 {
    } else if s[0] == c {
    } else {
        lemma_find_char(s.drop_first(), c);
        let r = find_char(s.drop_first(), c);
        if r >= 0 {
            assert(forall|j: int| 0 <= j < r + 1 ==> s[j] != c) by {
                assert(forall|j: int| 1 <= j < r + 1 ==> s[j] == s.drop_first()[j - 1]);
            }
        } else {
            assert(forall|j: int| 0 <= j < s.len() ==> s[j] != c) by {
                assert(forall|j: int| 1 <= j < s.len() ==> s[j] == s.drop_first()[j - 1]);
            }
        }
    }
}

/// Find the first occurrence of a character in a vector.
pub fn find_char_vec(s: &Vec<char>, c: char) -> (r: Option<usize>)
    ensures
        match r {
            Some(i) => i == find_char(s@, c) && i < s@.len(),
            None => find_char(s@, c) < 0,
        },
{
    let n: usize = s.len();
    let mut i: usize = 0;
    while i < n
        invariant
            i <= n,
            n == s@.len(),
            forall|j: int| 0 <= j < i ==> s@[j] != c,
        decreases n - i,
    {
        if s[i] == c {
            proof {
                lemma_find_char(s@, c);
                let r = find_char(s@, c);
                if r < 0 {
                    assert(s@[i as int] != c);
                }
                if r > i {
                    assert(s@[i as int] != c);
                }
                if 0 <= r < i {
                    assert(s@[r] != c);
                }
            }
            return Some(i);
        }
        i = i + 1;
    }
    proof {
        lemma_find_char(s@, c);
        if find_char(s@, c) >= 0 {
            assert(s@[find_char(s@, c)] != c);
        }
    }
    None
}

/// A vector of lines has as many entries in its deep view.
pub broadcast proof fn lemma_lines_deep_view_len(v: Vec<Vec<char>>)
    ensures
        #[trigger] v.deep_view().len() == v@.len(),
{
}

/// The deep view of a vector of lines is its lines' views.
pub broadcast proof fn lemma_lines_deep_view_index(v: Vec<Vec<char>>, i: int)
    requires
        0 <= i < v@.len(),
    ensures
        #[trigger] v.deep_view()[i] == v@[i]@,
{
    assert(v@[i].deep_view() =~= v@[i]@);
}

/// A vector of strings has as many entries in its deep view.
pub broadcast proof fn lemma_strings_deep_view_len(v: Vec<String>)
    ensures
        #[trigger] v.deep_view().len() == v@.len(),
{
}

/// The deep view of a vector of strings is its strings' views.
pub broadcast proof fn lemma_strings_deep_view_index(v: Vec<String>, i: int)
    requires
        0 <= i < v@.len(),
    ensures
        #[trigger] v.deep_view()[i] == v@[i]@,
{
}

/// The pointwise description of the deep views this library works over.
pub broadcast group group_deep_view_lemmas {
    lemma_lines_deep_view_len,
    lemma_lines_deep_view_index,
    lemma_strings_deep_view_len,
    lemma_strings_deep_view_index,
}

/// Case-folding never yields an ASCII uppercase letter.
pub proof fn lemma_lower_no_upper(s: Seq<char>)
    ensures
        forall|i: int| 0 <= i < lower(s).len() ==> !is_upper(#[trigger] lower(s)[i]),
{
    assert forall|i: int| 0 <= i < lower(s).len() implies !is_upper(#[trigger] lower(s)[i]) by {
        let c = s[i];
        if is_upper(c) {
            assert(lower(s)[i] == (((c as u8) + 32) as char));
        }
    }
}

/// Text with no whitespace at either end is already trimmed.
pub proof fn lemma_trim_id(x: Seq<char>)
    requires
        x.len() > 0,
        !is_ws(x[0]),
        !is_ws(x[x.len() - 1]),
    ensures
        trim(x) == x,
{
    assert(trim_front(x) == x);
    assert(trim_back(x) == x);
}

/// A prefix whose last character is not whitespace survives right-trimming.
pub proof fn lemma_trim_back_preserves_prefix(x: Seq<char>, p: Seq<char>)
    requires
        starts_with(x, p),
        p.len() > 0,
        !is_ws(p[p.len() - 1]),
    ensures
        starts_with(trim_back(x), p),
    decreases x.len(),
{
    if x.len() > 0 && is_ws(x[x.len() - 1]) {
        if x.len() == p.len() {
            assert(x =~= p);
        }
        assert(x.len() > p.len());
        assert(starts_with(x.drop_last(), p)) by {
            assert(x.drop_last().subrange(0, p.len() as int) =~= x.subrange(0, p.len() as int));
        }
        lemma_trim_back_preserves_prefix(x.drop_last(), p);
    }
}

/// A prefix with non-whitespace first and last characters survives trimming.
pub proof fn lemma_trim_preserves_prefix(x: Seq<char>, p: Seq<char>)
    requires
        starts_with(x, p),
        p.len() > 0,
        !is_ws(p[0]),
        !is_ws(p[p.len() - 1]),
    ensures
        starts_with(trim(x), p),
{
    assert(x[0] == p[0]) by {
        assert(x.subrange(0, p.len() as int)[0] == p[0]);
    }
    assert(trim_front(x) == x);
    lemma_trim_back_preserves_prefix(x, p);
}

/// Where a text occurs, so does each of its prefixes.
pub proof fn lemma_contains_prefix(s: Seq<char>, m: Seq<char>, p: Seq<char>, i: int)
    requires
        contains_at(s, m, i),
        starts_with(m, p),
    ensures
        contains_at(s, p, i),
{
    assert(s.subrange(i, i + p.len()) =~= m.subrange(0, p.len() as int)) by {
        assert(forall|k: int|
            0 <= k < m.len() ==> s[i + k] == #[trigger] s.subrange(i, i + m.len())[k]);
    }
}

/// Push one line onto a vector of lines, tracked through the deep view.
pub fn push_line(v: &mut Vec<Vec<char>>, line: Vec<char>)
    ensures
        final(v).deep_view() == old(v).deep_view().push(line@),
        final(v)@.len() == old(v)@.len() + 1,
{
    let ghost lv = line@;
    v.push(line);
    proof {
        assert(v.deep_view() =~~= old(v).deep_view().push(lv));
    }
}

/// The character for one decimal digit.
pub open spec fn dec_digit(d: nat) -> char {
    (((48 + d) as u8) as char)
}

/// The decimal numeral of a natural number, most significant digit first.
pub open spec fn dec_of(n: nat) -> Seq<char>
    decreases n,
{
    if n < 10 {
        seq![dec_digit(n)]
    } else {
        dec_of(n / 10).push(dec_digit(n % 10))
    }
}

/// The decimal numeral of an integer: a sign, then the magnitude's numeral.
pub open spec fn dec_of_int(n: int) -> Seq<char> {
    if n < 0 {
        seq!['-'] + dec_of((-n) as nat)
    } else {
        dec_of(n as nat)
    }
}

/// The character for one decimal digit.
fn digit_char(d: u64) -> (c: char)
    requires
        d < 10,
    ensures
        c == dec_digit(d as nat),
{
    ((48 + d as u8) as char)
}

/// Render an unsigned number in decimal.
pub fn u64_to_dec_chars(n: u64) -> (r: Vec<char>)
    ensures
        r@ == dec_of(n as nat),
    decreases n,
{
    if n < 10 {
        let mut v: Vec<char> = Vec::new();
        v.push(digit_char(n));
        proof {
            assert(v@ =~= seq![dec_digit(n as nat)]);
        }
        v
    } else {
        let mut v = u64_to_dec_chars(n / 10);
        v.push(digit_char(n % 10));
        v
    }
}

/// Render a signed number in decimal.
pub fn i64_to_dec_chars(n: i64) -> (r: Vec<char>)
    ensures
        r@ == dec_of_int(n as int),
{
    if n >= 0 {
        u64_to_dec_chars(n as u64)
    } else {
        let mag: u64 = if n == i64::MIN {
            9223372036854775808u64
        } else {
            (-n) as u64
        };
        let mut v: Vec<char> = Vec::new();
        v.push('-');
        let digits = u64_to_dec_chars(mag);
        append_chars(&mut v, &digits);
        proof {
            assert(v@ =~= seq!['-'] + dec_of((-(n as int)) as nat));
        }
        v
    }
}

/// An ASCII decimal digit.
pub open spec fn is_digit(c: char) -> bool {
    '0' <= c && c <= '9'
}

/// The value of one digit character.
pub open spec fn digit_val(c: char) -> nat {
    ((c as u8) - 48) as nat
}

/// Every character is a digit.
pub open spec fn all_digits(s: Seq<char>) -> bool {
    forall|i: int| 0 <= i < s.len() ==> is_digit(#[trigger] s[i])
}

/// The number a digit string denotes.
pub open spec fn dec_val(s: Seq<char>) -> nat
    decreases s.len(),
{
    if s.len() == 0 {
        0
    } else {
        dec_val(s.drop_last()) * 10 + digit_val(s.last())
    }
}

/// A digit string denotes at least what any of its prefixes does.
proof fn lemma_dec_val_prefix_le(s: Seq<char>, i: int)
    requires
        0 <= i <= s.len(),
    ensures
        dec_val(s.take(i)) <= dec_val(s),
    decreases s.len(),
{
    if i < s.len() {
        assert(s.drop_last().take(i) =~= s.take(i));
        lemma_dec_val_prefix_le(s.drop_last(), i);
    } else {
        assert(s.take(i) =~= s);
    }
}

/// Parse an unsigned decimal numeral: the value when the text is one or more
/// digits and fits, nothing otherwise.
pub fn parse_u64_dec(s: &Vec<char>) -> (r: Option<u64>)
    ensures
        match r {
            Some(v) => s@.len() > 0 && all_digits(s@) && v as nat == dec_val(s@),
            None => s@.len() == 0 || !all_digits(s@) || dec_val(s@) > u64::MAX,
        },
{
    let n: usize = s.len();
    if n == 0 {
        return None;
    }
    let mut acc: u64 = 0;
    let mut i: usize = 0;
    proof {
        assert(s@.take(0) =~= Seq::<char>::empty());
    }
    while i < n
        invariant
            i <= n,
            n == s@.len(),
            all_digits(s@.take(i as int)),
            acc as nat == dec_val(s@.take(i as int)),
        decreases n - i,
    {
        let c = s[i];
        if !('0' <= c && c <= '9') {
            proof {
                assert(!is_digit(s@[i as int]));
            }
            return None;
        }
        let d: u64 = (c as u8 - 48) as u64;
        if acc > (u64::MAX - d) / 10 {
            proof {
                assert(s@.take(i as int + 1).drop_last() =~= s@.take(i as int));
                assert(s@.take(i as int + 1).last() == s@[i as int]);
                assert(dec_val(s@.take(i as int + 1)) > u64::MAX);
                lemma_dec_val_prefix_le(s@, i as int + 1);
            }
            return None;
        }
        acc = acc * 10 + d;
        i = i + 1;
        proof {
            assert(s@.take(i as int).drop_last() =~= s@.take(i as int - 1));
            assert(s@.take(i as int).last() == s@[i as int - 1]);
        }
    }
    proof {
        assert(s@.take(n as int) =~= s@);
    }
    Some(acc)
}

/// Drop one carriage return left at the end of a line.
pub open spec fn strip_cr(line: Seq<char>) -> Seq<char> {
    if line.len() > 0 && line[line.len() - 1] == '\r' {
        line.drop_last()
    } else {
        line
    }
}

/// The lines of a text, in the manner of `str::lines`: split at `'\n'`, drop
/// one `'\r'` at the end of each line, and do not produce a final empty line
/// for a text that ends with `'\n'`.
pub open spec fn split_lines(s: Seq<char>) -> Seq<Seq<char>>
    decreases s.len(),
{
    if s.len() == 0 {
        Seq::empty()
    } else {
        let i = find_char(s, '\n');
        if 0 <= i < s.len() {
            seq![strip_cr(s.take(i))] + split_lines(s.skip(i + 1))
        } else {
            seq![strip_cr(s)]
        }
    }
}

/// Join lines with single `'\n'` separators and no trailing newline.
pub open spec fn join_lines(lines: Seq<Seq<char>>) -> Seq<char>
    decreases lines.len(),
{
    if lines.len() == 0 {
        Seq::empty()
    } else if lines.len() == 1 {
        lines[0]
    } else {
        join_lines(lines.drop_last()) + seq!['\n'] + lines.last()
    }
}

/// Splitting takes the text up to its first newline as the head line.
proof fn lemma_split_lines_step(s: Seq<char>, k: int)
    requires
        0 <= k < s.len(),
        s[k] == '\n',
        forall|j: int| 0 <= j < k ==> s[j] != '\n',
    ensures
        split_lines(s) == seq![strip_cr(s.take(k))] + split_lines(s.skip(k + 1)),
{
    lemma_find_char(s, '\n');
    let r = find_char(s, '\n');
    if r < 0 {
        assert(s[k] != '\n');
    }
    if r < k {
        assert(s[r] != '\n');
    }
    if k < r {
        assert(s[k] != '\n');
    }
}

/// A text without newlines is one line.
proof fn lemma_split_lines_whole(s: Seq<char>)
    requires
        s.len() > 0,
        forall|j: int| 0 <= j < s.len() ==> s[j] != '\n',
    ensures
        split_lines(s) == seq![strip_cr(s)],
{
    lemma_find_char(s, '\n');
    let r = find_char(s, '\n');
    if 0 <= r < s.len() {
        assert(s[r] != '\n');
    }
}

/// Append the characters of one vector to another.
pub fn append_chars(dst: &mut Vec<char>, src: &Vec<char>)
    ensures
        final(dst)@ == old(dst)@ + src@,
{
    let n: usize = src.len();
    let mut i: usize = 0;
    while i < n
        invariant
            i <= n,
            n == src@.len(),
            dst@ == old(dst)@ + src@.take(i as int),
        decreases n - i,
    {
        dst.push(src[i]);
        i = i + 1;
        proof {
            assert(old(dst)@ + src@.take(i as int) =~= (old(dst)@ + src@.take(i as int - 1)).push(
                src@[i as int - 1],
            ));
        }
    }
    proof {
        assert(src@.take(n as int) =~= src@);
    }
}

/// Split a text into its lines.
pub fn split_lines_vec(s: &Vec<char>) -> (r: Vec<Vec<char>>)
    ensures
        r.deep_view() == split_lines(s@),
{
    let n: usize = s.len();
    let mut out: Vec<Vec<char>> = Vec::new();
    let mut pos: usize = 0;
    proof {
        assert(s@.skip(0) =~= s@);
        assert(out.deep_view() + split_lines(s@) =~= split_lines(s@));
    }
    while pos < n
        invariant
            pos <= n,
            n == s@.len(),
            split_lines(s@) == out.deep_view() + split_lines(s@.skip(pos as int)),
        decreases n - pos,
    {
        let ghost prev = out.deep_view();
        let ghost rem = s@.skip(pos as int);
        let mut j: usize = pos;
        while j < n && s[j] != '\n'
            invariant
                pos <= j <= n,
                n == s@.len(),
                forall|k: int| pos <= k < j ==> s@[k] != '\n',
            decreases n - j,
        {
            j = j + 1;
        }
        let mut line: Vec<char> = sub_vec(s, pos, j);
        if line.len() > 0 && line[line.len() - 1] == '\r' {
            line.pop();
        }
        proof {
            assert(forall|k: int| 0 <= k < j - pos ==> rem[k] != '\n');
            if j < n {
                assert(rem[j - pos] == '\n');
                assert(rem.take(j - pos) =~= s@.subrange(pos as int, j as int));
                lemma_split_lines_step(rem, j - pos);
                assert(rem.skip(j - pos + 1) =~= s@.skip(j as int + 1));
                assert(line@ == strip_cr(rem.take(j - pos)));
            } else {
                assert(rem =~= s@.subrange(pos as int, j as int));
                lemma_split_lines_whole(rem);
                assert(line@ == strip_cr(rem));
            }
        }
        out.push(line);
        proof {
            assert(out.deep_view() =~~= prev.push(line@));
        }
        if j < n {
            pos = j + 1;
            proof {
                assert(out.deep_view() + split_lines(s@.skip(pos as int)) =~= split_lines(s@));
            }
        } else {
            pos = n;
            proof {
                assert(s@.skip(n as int) =~= Seq::<char>::empty());
                assert(out.deep_view() + split_lines(s@.skip(pos as int)) =~= split_lines(s@));
            }
        }
    }
    proof {
        assert(s@.skip(n as int) =~= Seq::<char>::empty());
        assert(out.deep_view() =~= out.deep_view() + split_lines(s@.skip(n as int)));
    }
    out
}

/// Join lines back into one text.
pub fn join_lines_vec(lines: &Vec<Vec<char>>) -> (r: Vec<char>)
    ensures
        r@ == join_lines(lines.deep_view()),
{
    let n: usize = lines.len();
    let mut out: Vec<char> = Vec::new();
    if n == 0 {
        return out;
    }
    let first = &lines[0];
    let mut out = sub_vec(first, 0, first.len());
    proof {
        assert(first@.subrange(0, first@.len() as int) =~= first@);
        assert(lines.deep_view().take(1).len() == 1);
        assert(lines.deep_view().take(1)[0] == first@);
    }
    let mut i: usize = 1;
    while i < n
        invariant
            1 <= i <= n,
            n == lines@.len(),
            out@ == join_lines(lines.deep_view().take(i as int)),
        decreases n - i,
    {
        out.push('\n');
        append_chars(&mut out, &lines[i]);
        i = i + 1;
        proof {
            let ld = lines.deep_view();
            assert(ld.take(i as int).drop_last() =~= ld.take(i as int - 1));
            assert(ld.take(i as int).last() == ld[i as int - 1]);
            assert(out@ =~= join_lines(ld.take(i as int - 1)) + seq!['\n'] + ld[i as int - 1]);
        }
    }
    proof {
        assert(lines.deep_view().take(n as int) =~= lines.deep_view());
    }
    out
}

} // verus!
