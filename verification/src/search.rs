//! Text search over the raw bytes of a file, matched byte by byte with or
//! without ASCII case folding.

use vstd::prelude::*;
use crate::bytes::{first_byte, last_byte};

verus! {

/// ASCII upper-case letters mapped to lower case; other bytes unchanged.
pub open spec fn lower_byte(b: u8) -> u8 {
    if 65 <= b <= 90 { (b + 32) as u8 } else { b }
}

/// ASCII lower-case letters mapped to upper case; other bytes unchanged.
pub open spec fn upper_byte(b: u8) -> u8 {
    if 97 <= b <= 122 { (b - 32) as u8 } else { b }
}

/// `a` matches `b`: equal, or equal up to ASCII case when `ci`.
pub open spec fn bytes_match(a: u8, b: u8, ci: bool) -> bool {
    if ci { lower_byte(a) == lower_byte(b) } else { a == b }
}

/// `needle` occurs in `hay` at offset `p`.
pub open spec fn matches_at(hay: Seq<u8>, needle: Seq<u8>, p: int, ci: bool) -> bool {
    &&& 0 <= p
    &&& p + needle.len() <= hay.len()
    &&& forall|j: int| 0 <= j < needle.len() ==> bytes_match(#[trigger] hay[p + j], needle[j], ci)
}

/// Earliest occurrence of `needle` in `hay` starting at or after `from`.
pub open spec fn first_match(hay: Seq<u8>, needle: Seq<u8>, from: int, ci: bool) -> Option<int> {
    if needle.len() == 0 || needle.len() > hay.len() {
        None
    } else if exists|p: int| from <= p && matches_at(hay, needle, p, ci) {
        Some(choose|p: int| from <= p && matches_at(hay, needle, p, ci)
            && forall|q: int| from <= q < p ==> !matches_at(hay, needle, q, ci))
    } else {
        None
    }
}

/// Latest occurrence of `needle` in `hay` that ends at or before `end`.
pub open spec fn last_match(hay: Seq<u8>, needle: Seq<u8>, end: int, ci: bool) -> Option<int> {
    if needle.len() == 0 || needle.len() > end {
        None
    } else if exists|p: int| p + needle.len() <= end && matches_at(hay, needle, p, ci) {
        Some(choose|p: int| p + needle.len() <= end && matches_at(hay, needle, p, ci)
            && forall|q: int| p < q && q + needle.len() <= end ==> !matches_at(hay, needle, q, ci))
    } else {
        None
    }
}

fn to_lower(b: u8) -> (r: u8)
    ensures
        r == lower_byte(b),
{
    if 65 <= b && b <= 90 { b + 32 } else { b }
}

fn to_upper(b: u8) -> (r: u8)
    ensures
        r == upper_byte(b),
{
    if 97 <= b && b <= 122 { b - 32 } else { b }
}

/// Case-(in)sensitive equality of two byte slices.
pub fn eq_at(a: &[u8], b: &[u8], ci: bool) -> (r: bool)
    ensures
        r == (a@.len() == b@.len() && forall|j: int| 0 <= j < a@.len() ==> bytes_match(a@[j], b@[j], ci)),
{
    if a.len() != b.len() {
        return false;
    }
    let mut i: usize = 0;
    while i < a.len()
        invariant
            a@.len() == b@.len(),
            i <= a.len(),
            forall|j: int| 0 <= j < i ==> bytes_match(a@[j], b@[j], ci),
        decreases a.len() - i,
    {
        let same = if ci { to_lower(a[i]) == to_lower(b[i]) } else { a[i] == b[i] };
        if !same {
            return false;
        }
        i = i + 1;
    }
    true
}

proof fn lemma_fold_cases(x: u8, b: u8)
    ensures
        lower_byte(b) == upper_byte(b) ==> (lower_byte(x) == lower_byte(b) <==> x == b),
        lower_byte(b) != upper_byte(b) ==> (lower_byte(x) == lower_byte(b) <==> (x == lower_byte(b) || x == upper_byte(b))),
{
}

/// First index in `slice` whose byte matches `b` (either case if `ci`).
pub fn first_pos(slice: &[u8], b: u8, ci: bool) -> (r: Option<usize>)
    ensures
        match r {
            Some(i) => i < slice@.len() && bytes_match(slice@[i as int], b, ci)
                && forall|j: int| 0 <= j < i ==> !bytes_match(slice@[j], b, ci),
            None => forall|j: int| 0 <= j < slice@.len() ==> !bytes_match(slice@[j], b, ci),
        },
{
    let lo = to_lower(b);
    let up = to_upper(b);
    proof {
        assert forall|x: u8| #![auto] true implies (lower_byte(b) == upper_byte(b) ==> (lower_byte(x) == lower_byte(b) <==> x == b))
            && (lower_byte(b) != upper_byte(b) ==> (lower_byte(x) == lower_byte(b) <==> (x == lower_byte(b) || x == upper_byte(b)))) by {
            lemma_fold_cases(x, b);
        }
    }
    if !ci || lo == up {
        first_byte(b, slice)
    } else {
        match (first_byte(lo, slice), first_byte(up, slice)) {
            (Some(x), Some(y)) => Some(if x < y { x } else { y }),
            (Some(x), None) => Some(x),
            (None, Some(y)) => Some(y),
            (None, None) => None,
        }
    }
}

/// Last index in `slice` whose byte matches `b` (either case if `ci`).
pub fn last_pos(slice: &[u8], b: u8, ci: bool) -> (r: Option<usize>)
    ensures
        match r {
            Some(i) => i < slice@.len() && bytes_match(slice@[i as int], b, ci)
                && forall|j: int| i < j < slice@.len() ==> !bytes_match(slice@[j], b, ci),
            None => forall|j: int| 0 <= j < slice@.len() ==> !bytes_match(slice@[j], b, ci),
        },
{
    let lo = to_lower(b);
    let up = to_upper(b);
    proof {
        assert forall|x: u8| #![auto] true implies (lower_byte(b) == upper_byte(b) ==> (lower_byte(x) == lower_byte(b) <==> x == b))
            && (lower_byte(b) != upper_byte(b) ==> (lower_byte(x) == lower_byte(b) <==> (x == lower_byte(b) || x == upper_byte(b)))) by {
            lemma_fold_cases(x, b);
        }
    }
    if !ci || lo == up {
        last_byte(b, slice)
    } else {
        match (last_byte(lo, slice), last_byte(up, slice)) {
            (Some(x), Some(y)) => Some(if x > y { x } else { y }),
            (Some(x), None) => Some(x),
            (None, Some(y)) => Some(y),
            (None, None) => None,
        }
    }
}


/// `p` is the earliest occurrence of `needle` at or after `from`.
pub open spec fn is_first_match(hay: Seq<u8>, needle: Seq<u8>, from: int, ci: bool, p: int) -> bool {
    &&& from <= p
    &&& matches_at(hay, needle, p, ci)
    &&& forall|q: int| from <= q < p ==> !matches_at(hay, needle, q, ci)
}

/// `p` is the latest occurrence of `needle` ending at or before `end`.
pub open spec fn is_last_match(hay: Seq<u8>, needle: Seq<u8>, end: int, ci: bool, p: int) -> bool {
    &&& p + needle.len() <= end
    &&& matches_at(hay, needle, p, ci)
    &&& forall|q: int| p < q && q + needle.len() <= end ==> !matches_at(hay, needle, q, ci)
}

pub proof fn lemma_first_match_is(hay: Seq<u8>, needle: Seq<u8>, from: int, ci: bool, p: int)
    requires
        needle.len() > 0,
        is_first_match(hay, needle, from, ci, p),
    ensures
        first_match(hay, needle, from, ci) == Some(p),
{
    let c = choose|p: int| from <= p && matches_at(hay, needle, p, ci)
        && forall|q: int| from <= q < p ==> !matches_at(hay, needle, q, ci);
    assert(is_first_match(hay, needle, from, ci, c));
    if c < p {
        assert(!matches_at(hay, needle, c, ci));
    } else if p < c {
        assert(!matches_at(hay, needle, p, ci));
    }
}

pub proof fn lemma_last_match_is(hay: Seq<u8>, needle: Seq<u8>, end: int, ci: bool, p: int)
    requires
        needle.len() > 0,
        is_last_match(hay, needle, end, ci, p),
    ensures
        last_match(hay, needle, end, ci) == Some(p),
{
    let c = choose|p: int| p + needle.len() <= end && matches_at(hay, needle, p, ci)
        && forall|q: int| p < q && q + needle.len() <= end ==> !matches_at(hay, needle, q, ci);
    assert(is_last_match(hay, needle, end, ci, c));
    if c < p {
        assert(!matches_at(hay, needle, p, ci));
    } else if p < c {
        assert(!matches_at(hay, needle, c, ci));
    }
}

/// The result of a search as a mathematical integer.
pub open spec fn found_at(r: Option<usize>) -> Option<int> {
    match r {
        Some(p) => Some(p as int),
        None => None,
    }
}

proof fn lemma_first_byte_blocks(hay: Seq<u8>, needle: Seq<u8>, q: int, ci: bool)
    requires
        needle.len() > 0,
        0 <= q < hay.len() ==> !bytes_match(hay[q], needle[0], ci),
    ensures
        !matches_at(hay, needle, q, ci),
{
    if matches_at(hay, needle, q, ci) {
        assert(bytes_match(hay[q + 0], needle[0], ci));
    }
}

proof fn lemma_window_match(hay: Seq<u8>, needle: Seq<u8>, p: int, ci: bool, w: Seq<u8>)
    requires
        0 <= p,
        p + needle.len() <= hay.len(),
        w == hay.subrange(p, p + needle.len()),
    ensures
        (w.len() == needle.len() && forall|j: int| 0 <= j < w.len() ==> bytes_match(w[j], needle[j], ci))
            <==> matches_at(hay, needle, p, ci),
{
    if matches_at(hay, needle, p, ci) {
        assert forall|j: int| 0 <= j < w.len() implies bytes_match(w[j], needle[j], ci) by {
            assert(w[j] == hay[p + j]);
        }
    }
    if forall|j: int| 0 <= j < w.len() ==> bytes_match(w[j], needle[j], ci) {
        assert forall|j: int| 0 <= j < needle.len() implies bytes_match(#[trigger] hay[p + j], needle[j], ci) by {
            assert(w[j] == hay[p + j]);
        }
    }
}

/// Forward substring search in `hay` starting at byte `from`.
pub fn find_fwd(hay: &[u8], needle: &[u8], from: usize, ci: bool) -> (r: Option<usize>)
    ensures
        found_at(r) == first_match(hay@, needle@, from as int, ci),
{
    if needle.len() == 0 || needle.len() > hay.len() {
        return None;
    }
    let last_start = hay.len() - needle.len();
    let first = needle[0];
    let mut i: usize = if from < last_start + 1 { from } else { last_start + 1 };
    while i <= last_start
        invariant
            needle@.len() > 0,
            last_start == hay@.len() - needle@.len(),
            first == needle@[0],
            i <= last_start + 1,
            last_start < hay.len(),
            hay@.len() == hay.len(),
            needle@.len() == needle.len(),
            from <= i || i == last_start + 1,
            forall|q: int| from <= q < i ==> !matches_at(hay@, needle@, q, ci),
        decreases last_start + 1 - i,
    {
        let window = &hay[i..last_start + 1];
        match first_pos(window, first, ci) {
            Some(rel) => {
                let p = i + rel;
                proof {
                    assert forall|q: int| from <= q < p implies !matches_at(hay@, needle@, q, ci) by {
                        if q >= i {
                            assert(window@[q - i] == hay@[q]);
                            lemma_first_byte_blocks(hay@, needle@, q, ci);
                        }
                    }
                }
                let window_p = &hay[p..p + needle.len()];
                let hit = eq_at(window_p, needle, ci);
                proof {
                    lemma_window_match(hay@, needle@, p as int, ci, window_p@);
                }
                if hit {
                    proof {
                        lemma_first_match_is(hay@, needle@, from as int, ci, p as int);
                    }
                    return Some(p);
                }
                i = p + 1;
            },
            None => {
                proof {
                    assert forall|q: int| from <= q implies !matches_at(hay@, needle@, q, ci) by {
                        if i <= q <= last_start {
                            assert(window@[q - i] == hay@[q]);
                            lemma_first_byte_blocks(hay@, needle@, q, ci);
                        }
                    }
                }
                return None;
            },
        }
    }
    None
}

/// The backward scan from `end` stays within `hay`: the last possible start
/// `end - needle.len()` lies in `hay`, and no byte of `hay` that starts a
/// window running past its end matches the first byte of `needle`. Every
/// `end <= hay.len()` qualifies.
pub open spec fn bwd_in_bounds(hay: Seq<u8>, needle: Seq<u8>, end: int, ci: bool) -> bool {
    needle.len() == 0 || needle.len() > end || {
        &&& end - needle.len() < hay.len()
        &&& forall|q: int| hay.len() - needle.len() < q <= end - needle.len() ==> !bytes_match(#[trigger] hay[q], needle[0], ci)
    }
}

/// Backward substring search: the last occurrence whose end is `<= end`.
pub fn find_bwd(hay: &[u8], needle: &[u8], end: usize, ci: bool) -> (r: Option<usize>)
    requires
        bwd_in_bounds(hay@, needle@, end as int, ci),
    ensures
        found_at(r) == last_match(hay@, needle@, end as int, ci),
{
    if needle.len() == 0 || needle.len() > end {
        return None;
    }
    let first = needle[0];
    let mut hi: usize = end - needle.len();
    loop
        invariant
            needle@.len() > 0,
            needle@.len() <= end,
            bwd_in_bounds(hay@, needle@, end as int, ci),
            hay@.len() == hay.len(),
            needle@.len() == needle.len(),
            first == needle@[0],
            hi < hay.len(),
            hi + needle@.len() <= end,
            forall|q: int| hi < q && q + needle@.len() <= end ==> !matches_at(hay@, needle@, q, ci),
        decreases hi,
    {
        let window = &hay[0..hi + 1];
        match last_pos(window, first, ci) {
            Some(p) => {
                proof {
                    assert forall|q: int| p < q && q + needle@.len() <= end implies !matches_at(hay@, needle@, q, ci) by {
                        if q <= hi {
                            assert(window@[q] == hay@[q]);
                            lemma_first_byte_blocks(hay@, needle@, q, ci);
                        }
                    }
                }
                proof {
                    assert(window@[p as int] == hay@[p as int]);
                    if p + needle@.len() > hay@.len() {
                        assert(!bytes_match(hay@[p as int], needle@[0], ci));
                    }
                }
                let window_p = &hay[p..p + needle.len()];
                let hit = eq_at(window_p, needle, ci);
                proof {
                    lemma_window_match(hay@, needle@, p as int, ci, window_p@);
                }
                if hit {
                    proof {
                        lemma_last_match_is(hay@, needle@, end as int, ci, p as int);
                    }
                    return Some(p);
                }
                if p == 0 {
                    proof {
                        assert forall|q: int| q + needle@.len() <= end implies !matches_at(hay@, needle@, q, ci) by {}
                    }
                    return None;
                }
                hi = p - 1;
            },
            None => {
                proof {
                    assert forall|q: int| q + needle@.len() <= end implies !matches_at(hay@, needle@, q, ci) by {
                        if 0 <= q <= hi {
                            assert(window@[q] == hay@[q]);
                            lemma_first_byte_blocks(hay@, needle@, q, ci);
                        }
                    }
                }
                return None;
            },
        }
    }
}


/// Search direction.
#[derive(Clone, Copy, PartialEq, Eq, Debug, Structural)]
pub enum Direction {
    Forward,
    Backward,
}

} // verus!
