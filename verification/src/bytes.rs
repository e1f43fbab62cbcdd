//! Byte-sequence scanning primitives: first occurrence of a byte, splitting
//! on a separator, trimming surrounding padding, and equality of slices.
//! These carry the string work of the continuation-link parser.

use vstd::prelude::*;
use vstd::slice::{slice_index_get, slice_subrange, slice_to_vec};

verus! {

/// Bytes treated as removable padding around a token: space and horizontal tab.
pub open spec fn is_space(b: u8) -> bool {
    b == 32 || b == 9
}

/// Index of the first occurrence of `sep` in `s`, or -1 when `s` has none.
pub open spec fn find(s: Seq<u8>, sep: u8) -> int
    decreases s.len(),
{
    if s.len() == 0 {
        -1
    } else if s[0] == sep {
        0
    } else if find(s.drop_first(), sep) < 0 {
        -1
    } else {
        find(s.drop_first(), sep) + 1
    }
}

/// `find` returns -1 or the position of the first occurrence of `sep`.
pub proof fn lemma_find_bounds(s: Seq<u8>, sep: u8)
    ensures
        -1 <= find(s, sep) < s.len(),
        find(s, sep) >= 0 ==> s[find(s, sep)] == sep,
        forall|j: int| 0 <= j < find(s, sep) ==> s[j] != sep,
        find(s, sep) == -1 ==> forall|j: int| 0 <= j < s.len() ==> s[j] != sep,
    decreases s.len(),
{
    if s.len() == 0 {
    } else if s[0] == sep {
    } else {
        lemma_find_bounds(s.drop_first(), sep);
        assert forall|j: int| 0 <= j < find(s, sep) implies s[j] != sep by {
            if j > 0 {
                assert(s.drop_first()[j - 1] == s[j]);
            }
        }
        if find(s, sep) == -1 {
            assert forall|j: int| 0 <= j < s.len() implies s[j] != sep by {
                if j > 0 {
                    assert(s.drop_first()[j - 1] == s[j]);
                }
            }
        }
    }
}

/// The first occurrence determines `find`: a position whose prefix is free of
/// `sep` and that holds `sep` is exactly `find`.
pub proof fn lemma_find_first(s: Seq<u8>, sep: u8, i: int)
    requires
        0 <= i < s.len(),
        s[i] == sep,
        forall|j: int| 0 <= j < i ==> s[j] != sep,
    ensures
        find(s, sep) == i,
    decreases s.len(),
{
    if i == 0 {
    } else {
        assert(s[0] != sep);
        assert(s.drop_first()[i - 1] == s[i]);
        assert forall|j: int| 0 <= j < i - 1 implies s.drop_first()[j] != sep by {
            assert(s.drop_first()[j] == s[j + 1]);
        }
        lemma_find_first(s.drop_first(), sep, i - 1);
    }
}

/// A sequence without `sep` has `find` equal to -1.
pub proof fn lemma_find_absent(s: Seq<u8>, sep: u8)
    requires
        forall|j: int| 0 <= j < s.len() ==> s[j] != sep,
    ensures
        find(s, sep) == -1,
    decreases s.len(),
{
    if s.len() > 0 {
        assert forall|j: int| 0 <= j < s.drop_first().len() implies s.drop_first()[j] != sep by {
            assert(s.drop_first()[j] == s[j + 1]);
        }
        lemma_find_absent(s.drop_first(), sep);
    }
}

/// First occurrence of `sep` in `s`, scanned left to right.
pub fn find_byte(s: &[u8], sep: u8) -> (r: Option<usize>)
    ensures
        match r {
            Some(i) => find(s@, sep) == i as int && i < s@.len(),
            None => find(s@, sep) == -1,
        },
{
    let mut i: usize = 0;
    while i < s.len()
        invariant
            i <= s@.len(),
            forall|j: int| 0 <= j < i ==> s@[j] != sep,
        decreases s@.len() - i,
    {
        if *slice_index_get(s, i) == sep {
            proof {
                lemma_find_first(s@, sep, i as int);
            }
            return Some(i);
        }
        i = i + 1;
    }
    proof {
        lemma_find_absent(s@, sep);
    }
    None
}

/// The views of a sequence of byte vectors.
pub open spec fn views(s: Seq<Vec<u8>>) -> Seq<Seq<u8>> {
    Seq::new(s.len(), |i: int| s[i]@)
}

/// The pieces of `s` between occurrences of `sep`, in order. A sequence
/// without `sep` is one piece; each occurrence of `sep` ends a piece, so the
/// result holds one piece more than `s` holds separators.
pub open spec fn split(s: Seq<u8>, sep: u8) -> Seq<Seq<u8>>
    decreases s.len(),
    via split_decreases
{
    if find(s, sep) < 0 {
        seq![s]
    } else {
        seq![s.take(find(s, sep))] + split(s.skip(find(s, sep) + 1), sep)
    }
}

#[via_fn]
proof fn split_decreases(s: Seq<u8>, sep: u8) {
    lemma_find_bounds(s, sep);
}

/// Splitting yields at least one piece.
pub proof fn lemma_split_len(s: Seq<u8>, sep: u8)
    ensures
        split(s, sep).len() >= 1,
{
    if find(s, sep) < 0 {
        assert(split(s, sep) =~~= seq![s]);
    }
}

/// Splits `s` at every occurrence of `sep`, matching `split`.
pub fn split_bytes(s: &[u8], sep: u8) -> (r: Vec<Vec<u8>>)
    ensures
        views(r@) == split(s@, sep),
    decreases s@.len(),
{
    proof {
        lemma_find_bounds(s@, sep);
    }
    match find_byte(s, sep) {
        None => {
            let mut r: Vec<Vec<u8>> = Vec::new();
            r.push(slice_to_vec(s));
            proof {
                assert(views(r@) =~~= split(s@, sep));
            }
            r
        },
        Some(i) => {
            let n = s.len();
            assert(i < n);
            let head = slice_to_vec(slice_subrange(s, 0, i));
            let tail = slice_subrange(s, i + 1, n);
            let mut rest = split_bytes(tail, sep);
            let mut r: Vec<Vec<u8>> = Vec::new();
            r.push(head);
            r.append(&mut rest);
            proof {
                assert(head@ =~= s@.take(find(s@, sep)));
                assert(tail@ =~= s@.skip(find(s@, sep) + 1));
                assert(views(r@) =~~= split(s@, sep));
            }
            r
        },
    }
}

/// `s` with its leading padding removed.
pub open spec fn trim_start(s: Seq<u8>) -> Seq<u8>
    decreases s.len(),
{
    if s.len() > 0 && is_space(s[0]) {
        trim_start(s.drop_first())
    } else {
        s
    }
}

/// `s` with its trailing padding removed.
pub open spec fn trim_end(s: Seq<u8>) -> Seq<u8>
    decreases s.len(),
{
    if s.len() > 0 && is_space(s[s.len() - 1]) {
        trim_end(s.drop_last())
    } else {
        s
    }
}

/// `s` with padding removed on both sides.
pub open spec fn trim(s: Seq<u8>) -> Seq<u8> {
    trim_end(trim_start(s))
}

/// Dropping a padded prefix: when the first `i` bytes are padding and the
/// byte after them (if any) is not, `trim_start` drops exactly those bytes.
pub proof fn lemma_trim_start_skip(s: Seq<u8>, i: int)
    requires
        0 <= i <= s.len(),
        forall|j: int| 0 <= j < i ==> is_space(s[j]),
        i < s.len() ==> !is_space(s[i]),
    ensures
        trim_start(s) == s.skip(i),
    decreases i,
{
    if i == 0 {
        assert(trim_start(s) =~= s.skip(0));
    } else {
        assert(is_space(s[0]));
        assert forall|j: int| 0 <= j < i - 1 implies is_space(s.drop_first()[j]) by {
            assert(s.drop_first()[j] == s[j + 1]);
        }
        assert(i - 1 < s.drop_first().len() ==> s.drop_first()[i - 1] == s[i]);
        lemma_trim_start_skip(s.drop_first(), i - 1);
        assert(s.drop_first().skip(i - 1) =~= s.skip(i));
    }
}

/// Dropping a padded suffix: when the bytes from `i` on are padding and the
/// byte before them (if any) is not, `trim_end` keeps exactly the first `i`.
pub proof fn lemma_trim_end_take(s: Seq<u8>, i: int)
    requires
        0 <= i <= s.len(),
        forall|j: int| i <= j < s.len() ==> is_space(s[j]),
        i > 0 ==> !is_space(s[i - 1]),
    ensures
        trim_end(s) == s.take(i),
    decreases s.len() - i,
{
    if i == s.len() {
        assert(trim_end(s) =~= s.take(i));
    } else {
        assert(is_space(s[s.len() - 1]));
        assert forall|j: int| i <= j < s.drop_last().len() implies is_space(s.drop_last()[j]) by {
            assert(s.drop_last()[j] == s[j]);
        }
        lemma_trim_end_take(s.drop_last(), i);
        assert(s.drop_last().take(i) =~= s.take(i));
    }
}

/// Tests a byte for padding.
pub fn space_byte(b: u8) -> (r: bool)
    ensures
        r == is_space(b),
{
    b == 32 || b == 9
}

/// Removes padding from both ends of `s`, matching `trim`.
pub fn trim_bytes(s: &[u8]) -> (r: Vec<u8>)
    ensures
        r@ == trim(s@),
{
    let mut a: usize = 0;
    while a < s.len() && space_byte(*slice_index_get(s, a))
        invariant
            a <= s@.len(),
            forall|j: int| 0 <= j < a ==> is_space(s@[j]),
        decreases s@.len() - a,
    {
        a = a + 1;
    }
    let mut b: usize = s.len();
    while b > a && space_byte(*slice_index_get(s, b - 1))
        invariant
            a <= b <= s@.len(),
            forall|j: int| 0 <= j < a ==> is_space(s@[j]),
            forall|j: int| b <= j < s@.len() ==> is_space(s@[j]),
        decreases b,
    {
        b = b - 1;
    }
    proof {
        lemma_trim_start_skip(s@, a as int);
        assert forall|j: int| b - a <= j < s@.skip(a as int).len() implies is_space(
            s@.skip(a as int)[j],
        ) by {
            assert(s@.skip(a as int)[j] == s@[j + a]);
        }
        assert(b - a > 0 ==> s@.skip(a as int)[b - a - 1] == s@[b - 1]);
        lemma_trim_end_take(s@.skip(a as int), b - a);
        assert(s@.skip(a as int).take(b - a) =~= s@.subrange(a as int, b as int));
    }
    slice_to_vec(slice_subrange(s, a, b))
}

/// Byte-for-byte equality of two slices.
pub fn bytes_eq(a: &[u8], b: &[u8]) -> (r: bool)
    ensures
        r == (a@ == b@),
{
    if a.len() != b.len() {
        return false;
    }
    let mut i: usize = 0;
    while i < a.len()
        invariant
            i <= a@.len(),
            a@.len() == b@.len(),
            forall|j: int| 0 <= j < i ==> a@[j] == b@[j],
        decreases a@.len() - i,
    {
        if *slice_index_get(a, i) != *slice_index_get(b, i) {
            assert(a@[i as int] != b@[i as int]);
            return false;
        }
        i = i + 1;
    }
    proof {
        assert(a@ =~= b@);
    }
    true
}

} // verus!
