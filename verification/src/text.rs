//! Character-sequence utilities behind the filter: lowercasing and
//! trimming (delegated to the standard library and named abstractly),
//! substring search, and the joined "haystack" a node is matched against.

use vstd::prelude::*;
use vstd::string::*;
use crate::store::{NodeData, NodeView};

verus! {

/// The Unicode lowercasing of a character sequence, as `str::to_lowercase`
/// computes it. The result depends on the characters alone.
pub uninterp spec fn lower_of(s: Seq<char>) -> Seq<char>;

/// `s` with leading and trailing whitespace removed, as `str::trim`
/// computes it. The result depends on the characters alone.
pub uninterp spec fn trim_of(s: Seq<char>) -> Seq<char>;

/// Relies on `str::to_lowercase`: returns the lowercase equivalent of the
/// string, a function of its characters alone; the empty string stays empty.
#[verifier::external_body]
pub(crate) fn lowercase(s: &str) -> (r: String)
    ensures
        r@ == lower_of(s@),
        s@.len() == 0 ==> r@.len() == 0,
{
    s.to_lowercase()
}

/// Relies on `str::trim`: returns a subslice of the string with leading
/// and trailing whitespace removed, a function of its characters alone;
/// the empty string stays empty.
#[verifier::external_body]
pub(crate) fn trim_ws<'a>(s: &'a str) -> (r: &'a str)
    ensures
        r@ == trim_of(s@),
        s@.len() == 0 ==> r@.len() == 0,
{
    s.trim()
}

/// Relies on `String::push`: appends exactly the one character.
#[verifier::external_body]
pub(crate) fn push_char(s: &mut String, c: char)
    ensures
        final(s)@ == old(s)@.push(c),
{
    s.push(c);
}

/// Relies on `String::pop`: removes and returns the last character, or
/// returns nothing and leaves the string alone when it is empty.
#[verifier::external_body]
pub(crate) fn pop_char(s: &mut String) -> (r: Option<char>)
    ensures
        old(s)@.len() == 0 ==> final(s)@ == old(s)@ && r is None,
        old(s)@.len() > 0 ==> final(s)@ == old(s)@.drop_last() && r == Some(old(s)@.last()),
{
    s.pop()
}

/// The characters of `s` as a vector.
pub fn chars_vec(s: &str) -> (r: Vec<char>)
    ensures
        r@ == s@,
{
    let n = s.unicode_len();
    let mut r: Vec<char> = Vec::new();
    let mut i: usize = 0;
    while i < n
        invariant
            i <= n,
            n == s@.len(),
            r@ == s@.subrange(0, i as int),
        decreases n - i,
    {
        let c = s.get_char(i);
        r.push(c);
        i += 1;
        proof {
            assert(r@ =~= s@.subrange(0, i as int));
        }
    }
    proof {
        assert(s@.subrange(0, n as int) =~= s@);
    }
    r
}

/// `needle` occurs in `h` starting at position `i`.
pub open spec fn contains_at(h: Seq<char>, needle: Seq<char>, i: int) -> bool {
    0 <= i && i + needle.len() <= h.len() && h.subrange(i, i + needle.len() as int) == needle
}

/// `needle` occurs somewhere in `h` as a contiguous run.
pub open spec fn contains_seq(h: Seq<char>, needle: Seq<char>) -> bool {
    exists|i: int| contains_at(h, needle, i)
}

/// Whether `needle` occurs in `h` at exactly position `i`.
fn match_at(h: &Vec<char>, needle: &Vec<char>, i: usize) -> (r: bool)
    requires
        i + needle@.len() <= h@.len(),
    ensures
        r <==> contains_at(h@, needle@, i as int),
{
    let nn = needle.len();
    let hlen = h.len();
    let mut k: usize = 0;
    while k < nn
        invariant
            k <= nn,
            nn == needle@.len(),
            hlen == h@.len(),
            i + nn <= hlen,
            forall|t: int| 0 <= t < k ==> h@[i + t] == needle@[t],
        decreases nn - k,
    {
        if h[i + k] != needle[k] {
            proof {
                assert(h@.subrange(i as int, i + nn as int)[k as int] == h@[i + k]);
            }
            return false;
        }
        k += 1;
    }
    proof {
        assert(h@.subrange(i as int, i + nn as int) =~= needle@);
    }
    true
}

/// Substring search: one entry point for every case-insensitive filter
/// and tag test. The empty needle is found everywhere.
pub fn contains_chars(h: &Vec<char>, needle: &Vec<char>) -> (r: bool)
    ensures
        r == contains_seq(h@, needle@),
{
    let hn = h.len();
    let nn = needle.len();
    if nn > hn {
        proof {
            assert forall|i: int| !contains_at(h@, needle@, i) by {}
        }
        return false;
    }
    if nn == 0 {
        proof {
            assert(h@.subrange(0, 0) =~= needle@);
            assert(contains_at(h@, needle@, 0));
        }
        return true;
    }
    let mut i: usize = 0;
    while i <= hn - nn
        invariant
            1 <= nn <= hn,
            hn == h@.len(),
            nn == needle@.len(),
            i <= hn - nn + 1,
            forall|j: int| 0 <= j < i ==> !contains_at(h@, needle@, j),
        decreases hn - i,
    {
        if match_at(h, needle, i) {
            return true;
        }
        i += 1;
    }
    proof {
        assert forall|j: int| !contains_at(h@, needle@, j) by {
            if 0 <= j < i {
            } else if j >= i {
                assert(j + nn > hn);
            }
        }
    }
    false
}

/// The parts joined with `sep` between consecutive parts.
pub open spec fn join_with(parts: Seq<Seq<char>>, sep: Seq<char>) -> Seq<char>
    decreases parts.len(),
{
    if parts.len() == 0 {
        Seq::empty()
    } else if parts.len() == 1 {
        parts[0]
    } else {
        join_with(parts.drop_last(), sep) + sep + parts.last()
    }
}

/// Joins the strings with `sep` between consecutive entries.
pub fn join_strings(parts: &Vec<String>, sep: &str) -> (r: String)
    ensures
        r@ == join_with(parts.deep_view(), sep@),
{
    let mut r = String::new();
    let n = parts.len();
    let ghost dv = parts.deep_view();
    proof {
        assert(dv.len() == parts@.len());
    }
    let mut i: usize = 0;
    while i < n
        invariant
            i <= n,
            n == parts@.len(),
            dv == parts.deep_view(),
            dv.len() == n,
            i == 0 ==> r@.len() == 0,
            i >= 1 ==> r@ == join_with(dv.subrange(0, i as int), sep@),
        decreases n - i,
    {
        if i > 0 {
            r.append(sep);
        }
        r.append(parts[i].as_str());
        proof {
            assert(parts@[i as int].deep_view() == dv[i as int]);
            assert(parts@[i as int]@ == dv[i as int]);
            let pre = dv.subrange(0, i as int);
            let now = dv.subrange(0, i + 1);
            assert(now.drop_last() =~= pre);
            assert(now.last() == dv[i as int]);
            if i == 0 {
                assert(now.len() == 1);
                assert(r@ == now[0]);
            }
        }
        i += 1;
    }
    proof {
        if n > 0 {
            assert(dv.subrange(0, n as int) =~= dv);
        } else {
            assert(r@ =~= join_with(dv, sep@));
        }
    }
    r
}

/// Everything a node is matched against: id, label, span and the joined
/// tags, separated by single spaces.
pub open spec fn hay_of(nd: NodeView) -> Seq<char> {
    nd.id + " "@ + nd.label + " "@ + nd.span + " "@ + join_with(nd.tags, " "@)
}

/// Builds the haystack string for one node.
pub fn build_hay(nd: &NodeData) -> (r: String)
    ensures
        r@ == hay_of(nd@),
{
    let mut r = nd.id.clone();
    r.append(" ");
    r.append(nd.label.as_str());
    r.append(" ");
    r.append(nd.span.as_str());
    r.append(" ");
    let joined = join_strings(&nd.tags, " ");
    r.append(joined.as_str());
    r
}

/// A node matches a (lowercased) query when the query occurs in the
/// lowercased haystack.
pub open spec fn node_matches(nd: NodeView, q: Seq<char>) -> bool {
    contains_seq(lower_of(hay_of(nd)), q)
}

/// Whether the node matches the already-lowercased query `q`.
pub fn node_matches_exec(nd: &NodeData, q: &Vec<char>) -> (r: bool)
    ensures
        r == node_matches(nd@, q@),
{
    let hay = build_hay(nd);
    let low = lowercase(hay.as_str());
    let hv = chars_vec(low.as_str());
    contains_chars(&hv, q)
}

} // verus!
