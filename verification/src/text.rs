//! Character-level text utilities shared by the literal and number parsers.
//!
//! All scanning is done over `Vec<char>` so that every step is verified
//! against the `Seq<char>` view of the source string.

use vstd::prelude::*;
use vstd::string::StrSliceExecFns;

verus! {

/// The characters of a string as a vector, in order.
pub fn chars_of(s: &str) -> (r: Vec<char>)
    ensures
        r@ == s@,
{
    let n = s.unicode_len();
    let mut r: Vec<char> = Vec::new();
    let mut i: usize = 0;
    while i < n
        invariant
            i <= n,
            n == s@.len(),
            r@ == s@.take(i as int),
        decreases n - i,
    {
        let c = s.get_char(i);
        r.push(c);
        proof {
            assert(s@.take(i + 1 as int) =~= s@.take(i as int).push(s@[i as int]));
        }
        i = i + 1;
    }
    proof {
        assert(s@.take(n as int) =~= s@);
    }
    r
}

/// Relies on `String::push`: appends one character to the end of the string.
#[verifier::external_body]
fn push_char(s: &mut String, c: char)
    ensures
        final(s)@ == old(s)@.push(c),
{
    s.push(c);
}

/// A string holding exactly the given characters, in order.
pub fn string_of(v: &Vec<char>) -> (r: String)
    ensures
        r@ == v@,
{
    let mut r = String::new();
    let mut i: usize = 0;
    while i < v.len()
        invariant
            i <= v@.len(),
            r@ == v@.take(i as int),
        decreases v@.len() - i,
    {
        push_char(&mut r, v[i]);
        proof {
            assert(v@.take(i + 1 as int) =~= v@.take(i as int).push(v@[i as int]));
        }
        i = i + 1;
    }
    proof {
        assert(v@.take(v@.len() as int) =~= v@);
    }
    r
}

/// Whether two strings hold the same characters.
pub fn str_eq(a: &str, b: &str) -> (r: bool)
    ensures
        r == (a@ == b@),
{
    let na = a.unicode_len();
    let nb = b.unicode_len();
    if na != nb {
        return false;
    }
    let mut i: usize = 0;
    while i < na
        invariant
            i <= na,
            na == a@.len(),
            na == b@.len(),
            forall|j: int| 0 <= j < i ==> a@[j] == b@[j],
        decreases na - i,
    {
        if a.get_char(i) != b.get_char(i) {
            return false;
        }
        i = i + 1;
    }
    proof {
        assert(a@ =~= b@);
    }
    true
}

/// The characters of `v` from `from` (inclusive) to `to` (exclusive).
pub fn sub_chars(v: &Vec<char>, from: usize, to: usize) -> (r: Vec<char>)
    requires
        from <= to <= v@.len(),
    ensures
        r@ == v@.subrange(from as int, to as int),
{
    let mut r: Vec<char> = Vec::new();
    let mut i: usize = from;
    while i < to
        invariant
            from <= i <= to <= v@.len(),
            r@ == v@.subrange(from as int, i as int),
        decreases to - i,
    {
        r.push(v[i]);
        proof {
            assert(v@.subrange(from as int, i + 1 as int) =~= v@.subrange(
                from as int,
                i as int,
            ).push(v@[i as int]));
        }
        i = i + 1;
    }
    r
}

/// First position at or after `i` where the two-character datatype marker
/// `^^` begins, or the length of `s` if there is none.
pub open spec fn marker_from(s: Seq<char>, i: int) -> int
    recommends
        0 <= i <= s.len(),
    decreases s.len() - i,
    when 0 <= i <= s.len()
{
    if i + 1 >= s.len() {
        s.len() as int
    } else if s[i] == '^' && s[i + 1] == '^' {
        i
    } else {
        marker_from(s, i + 1)
    }
}

pub proof fn lemma_marker_from_bounds(s: Seq<char>, i: int)
    requires
        0 <= i <= s.len(),
    ensures
        i <= marker_from(s, i) <= s.len(),
    decreases s.len() - i,
{
    if i + 1 >= s.len() {
    } else if s[i] == '^' && s[i + 1] == '^' {
    } else {
        lemma_marker_from_bounds(s, i + 1);
    }
}

/// First position at or after `i` that does not hold a double-quote.
pub open spec fn quotes_left(s: Seq<char>, i: int) -> int
    recommends
        0 <= i <= s.len(),
    decreases s.len() - i,
    when 0 <= i <= s.len()
{
    if i < s.len() && s[i] == '"' {
        quotes_left(s, i + 1)
    } else {
        i
    }
}

/// Last position at or before `j`, but not before `lo`, such that every
/// character from there to `j` is a double-quote.
pub open spec fn quotes_right(s: Seq<char>, lo: int, j: int) -> int
    recommends
        0 <= lo <= j <= s.len(),
    decreases j,
    when 0 <= lo <= j <= s.len()
{
    if j > lo && s[j - 1] == '"' {
        quotes_right(s, lo, j - 1)
    } else {
        j
    }
}

/// The lexical part of a literal term, leniently: everything before the
/// first `^^` marker, with all surrounding double-quotes removed.
pub open spec fn lenient_lexical(s: Seq<char>) -> Seq<char> {
    let p = s.take(marker_from(s, 0));
    let lo = quotes_left(p, 0);
    let hi = quotes_right(p, lo, p.len() as int);
    p.subrange(lo, hi)
}

/// The lexical part of a literal term, strictly: everything before the
/// first `^^` marker, which must begin and end with one double-quote.
pub open spec fn strict_lexical(s: Seq<char>) -> Option<Seq<char>> {
    let p = s.take(marker_from(s, 0));
    if p.len() >= 2 && p[0] == '"' && p[p.len() - 1] == '"' {
        Some(p.subrange(1, p.len() - 1))
    } else {
        None
    }
}

/// Position where the first `^^` marker begins, or the length if none.
pub fn find_marker(v: &Vec<char>) -> (r: usize)
    ensures
        r == marker_from(v@, 0),
{
    let n = v.len();
    if n == 0 {
        return 0;
    }
    let mut i: usize = 0;
    while i < n - 1
        invariant
            0 <= i <= n,
            1 <= n == v@.len(),
            marker_from(v@, 0) == marker_from(v@, i as int),
        decreases n - i,
    {
        if v[i] == '^' && v[i + 1] == '^' {
            return i;
        }
        i = i + 1;
    }
    n
}

/// The lexical part of a literal term, leniently (see `lenient_lexical`).
pub fn lexical_lenient(v: &Vec<char>) -> (r: Vec<char>)
    ensures
        r@ == lenient_lexical(v@),
{
    let m = find_marker(v);
    proof {
        lemma_marker_from_bounds(v@, 0);
    }
    let p = sub_chars(v, 0, m);
    proof {
        assert(p@ =~= v@.take(marker_from(v@, 0)));
    }
    let n = p.len();
    let mut lo: usize = 0;
    while lo < n && p[lo] == '"'
        invariant
            0 <= lo <= n,
            n == p@.len(),
            quotes_left(p@, 0) == quotes_left(p@, lo as int),
        decreases n - lo,
    {
        lo = lo + 1;
    }
    let mut hi: usize = n;
    while hi > lo && p[hi - 1] == '"'
        invariant
            lo <= hi <= n,
            n == p@.len(),
            quotes_right(p@, lo as int, n as int) == quotes_right(p@, lo as int, hi as int),
        decreases hi,
    {
        hi = hi - 1;
    }
    sub_chars(&p, lo, hi)
}

/// The lexical part of a literal term, strictly (see `strict_lexical`).
pub fn lexical_strict(v: &Vec<char>) -> (r: Option<Vec<char>>)
    ensures
        (r is Some) == (strict_lexical(v@) is Some),
        r matches Some(x) ==> strict_lexical(v@) == Some(x@),
{
    let m = find_marker(v);
    proof {
        lemma_marker_from_bounds(v@, 0);
    }
    let p = sub_chars(v, 0, m);
    proof {
        assert(p@ =~= v@.take(marker_from(v@, 0)));
    }
    let n = p.len();
    if n >= 2 && p[0] == '"' && p[n - 1] == '"' {
        Some(sub_chars(&p, 1, n - 1))
    } else {
        None
    }
}

} // verus!
