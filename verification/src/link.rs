//! Continuation parsing for a paginated listing. A response's link header
//! value is a comma-separated list of `<url>; rel="relation"` segments; the
//! segment whose relation is `next` names the page to request next. Absence
//! of such a segment is the normal end of pagination, not an error.

use crate::bytes::{bytes_eq, lemma_split_len, split, split_bytes, trim, trim_bytes, views};
use vstd::prelude::*;
use vstd::slice::{slice_index_get, slice_subrange, slice_to_vec};

verus! {

/// The bytes of `rel="next"`, the relation that marks the continuation.
pub open spec fn rel_next() -> Seq<u8> {
    seq![114u8, 101u8, 108u8, 61u8, 34u8, 110u8, 101u8, 120u8, 116u8, 34u8]
}

/// The bytes of `rel="next"` as a vector.
fn rel_next_bytes() -> (v: Vec<u8>)
    ensures
        v@ == rel_next(),
{
    let mut v: Vec<u8> = Vec::new();
    v.push(114);
    v.push(101);
    v.push(108);
    v.push(61);
    v.push(34);
    v.push(110);
    v.push(101);
    v.push(120);
    v.push(116);
    v.push(34);
    proof {
        assert(v@ =~= rel_next());
    }
    v
}

/// A segment names the continuation when one of its `;`-separated parameter
/// parts (every part after the first, which is the URL) trims to `rel="next"`.
pub open spec fn segment_names_next(seg: Seq<u8>) -> bool {
    exists|k: int| 1 <= k < split(seg, 59).len() && trim(split(seg, 59)[k]) == rel_next()
}

/// One pair of surrounding angle brackets removed, when present.
pub open spec fn strip_brackets(t: Seq<u8>) -> Seq<u8> {
    if t.len() >= 2 && t[0] == 60 && t[t.len() - 1] == 62 {
        t.subrange(1, t.len() - 1)
    } else {
        t
    }
}

/// The URL of a segment: its first `;`-part, trimmed, without brackets.
pub open spec fn segment_url(seg: Seq<u8>) -> Seq<u8> {
    strip_brackets(trim(split(seg, 59)[0]))
}

/// The continuation named by a list of segments: the URL of the first
/// segment that names `rel="next"`, if any.
pub open spec fn next_url_in(segs: Seq<Seq<u8>>) -> Option<Seq<u8>>
    decreases segs.len(),
{
    if segs.len() == 0 {
        None
    } else if segment_names_next(segs[0]) {
        Some(segment_url(segs[0]))
    } else {
        next_url_in(segs.drop_first())
    }
}

/// The continuation in a link header value, whose segments are separated by
/// commas.
pub open spec fn next_url_of(h: Seq<u8>) -> Option<Seq<u8>> {
    next_url_in(split(h, 44))
}

/// Whether one comma-separated segment carries `rel="next"`.
fn segment_is_next(seg: &[u8]) -> (r: bool)
    ensures
        r == segment_names_next(seg@),
{
    let parts = split_bytes(seg, 59);
    let target = rel_next_bytes();
    let mut k: usize = 1;
    while k < parts.len()
        invariant
            1 <= k,
            views(parts@) == split(seg@, 59),
            target@ == rel_next(),
            forall|j: int| 1 <= j < k ==> trim(split(seg@, 59)[j]) != rel_next(),
        decreases parts.len() - k,
    {
        let t = trim_bytes(parts[k].as_slice());
        proof {
            assert(parts@[k as int]@ == split(seg@, 59)[k as int]);
        }
        if bytes_eq(t.as_slice(), target.as_slice()) {
            proof {
                assert(trim(split(seg@, 59)[k as int]) == rel_next());
            }
            return true;
        }
        k = k + 1;
    }
    false
}

/// The URL part of one segment, trimmed, with angle brackets removed.
fn segment_url_bytes(seg: &[u8]) -> (r: Vec<u8>)
    ensures
        r@ == segment_url(seg@),
{
    let parts = split_bytes(seg, 59);
    proof {
        lemma_split_len(seg@, 59);
        assert(parts@.len() == split(seg@, 59).len());
    }
    let first = trim_bytes(parts[0].as_slice());
    proof {
        assert(parts@[0]@ == split(seg@, 59)[0]);
    }
    let n = first.len();
    if n >= 2 && *slice_index_get(first.as_slice(), 0) == 60 && *slice_index_get(
        first.as_slice(),
        n - 1,
    ) == 62 {
        let r = slice_to_vec(slice_subrange(first.as_slice(), 1, n - 1));
        proof {
            assert(r@ =~= segment_url(seg@));
        }
        r
    } else {
        first
    }
}

/// Scans a link header value for the segment whose relation is `rel="next"`
/// and returns that segment's URL: the continuation to request next. Returns
/// `None`, the normal end of pagination, when no segment names `next`.
pub fn parse_next_url(header: &[u8]) -> (r: Option<Vec<u8>>)
    ensures
        match r {
            Some(u) => next_url_of(header@) == Some(u@),
            None => next_url_of(header@) is None,
        },
{
    let segs = split_bytes(header, 44);
    proof {
        assert(split(header@, 44).skip(0) =~~= split(header@, 44));
    }
    let mut i: usize = 0;
    while i < segs.len()
        invariant
            i <= segs.len(),
            views(segs@) == split(header@, 44),
            next_url_of(header@) == next_url_in(split(header@, 44).skip(i as int)),
        decreases segs.len() - i,
    {
        proof {
            assert(segs@[i as int]@ == split(header@, 44)[i as int]);
            assert(split(header@, 44).skip(i as int)[0] == split(header@, 44)[i as int]);
        }
        if segment_is_next(segs[i].as_slice()) {
            let u = segment_url_bytes(segs[i].as_slice());
            return Some(u);
        }
        proof {
            assert(split(header@, 44).skip(i as int).drop_first() =~~= split(header@, 44).skip(
                i as int + 1,
            ));
        }
        i = i + 1;
    }
    None
}

} // verus!
