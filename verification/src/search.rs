//! Finding delimiter bytes in the input, by a plain scan or through the
//! vectorized byte-search of the `memchr` crate.  Both report the same fact:
//! the least index at which the wanted byte stands.

use vstd::prelude::*;

use crate::model::find_first;
use crate::model::lemma_find_first_absent;
use crate::model::lemma_find_first_unique;

verus! {

/// Relies on memchr::memchr: it returns the index of the first occurrence of
/// the needle byte in the haystack, or `None` when the byte does not occur.
pub assume_specification [ memchr::memchr ](needle: u8, haystack: &[u8]) -> (r: Option<usize>)
    ensures
        match r {
            Some(i) => i < haystack@.len() && haystack@[i as int] == needle && forall|j: int|
                0 <= j < i ==> haystack@[j] != needle,
            None => forall|j: int| 0 <= j < haystack@.len() ==> haystack@[j] != needle,
        },
;

/// What both searches report of a result for `b` in `buf` at or after
/// `start`.
pub open spec fn found_from(buf: Seq<u8>, start: int, b: u8, r: Option<usize>) -> bool {
    match r {
        Some(i) => start <= i < buf.len() && buf[i as int] == b && forall|j: int|
            start <= j < i ==> buf[j] != b,
        None => forall|j: int| start <= j < buf.len() ==> buf[j] != b,
    }
}

/// The least index at or after `start` holding `b`, by a byte-by-byte scan.
pub fn find_byte_naive(buf: &[u8], start: usize, b: u8) -> (r: Option<usize>)
    requires
        start <= buf@.len(),
    ensures
        found_from(buf@, start as int, b, r),
{
    let n = buf.len();
    let mut i = start;
    while i < n
        invariant
            start <= i <= n,
            n == buf@.len(),
            forall|j: int| start <= j < i ==> buf@[j] != b,
        decreases n - i,
    {
        if buf[i] == b {
            return Some(i);
        }
        i = i + 1;
    }
    None
}

/// The least index at or after `start` holding `b`, by the vectorized
/// search.
pub fn find_byte_vectorized(buf: &[u8], start: usize, b: u8) -> (r: Option<usize>)
    requires
        start <= buf@.len(),
    ensures
        found_from(buf@, start as int, b, r),
{
    let tail = &buf[start..buf.len()];
    match memchr::memchr(b, tail) {
        Some(i) => {
            assert(buf@[start + i] == tail@[i as int]);
            assert(forall|j: int| start <= j < start + i ==> buf@[j] == tail@[j - start]);
            Some(start + i)
        },
        None => {
            assert(forall|j: int| start <= j < buf@.len() ==> buf@[j] == tail@[j - start]);
            None
        },
    }
}

/// Whether two byte runs hold the same bytes.
pub fn bytes_equal(a: &[u8], b: &[u8]) -> (r: bool)
    ensures
        r == (a@ == b@),
{
    let an: usize = a.len();
    let bn: usize = b.len();
    if an != bn {
        return false;
    }
    let mut i: usize = 0;
    while i < an
        invariant
            i <= an,
            an == a@.len(),
            an == b@.len(),
            forall|j: int| 0 <= j < i ==> a@[j] == b@[j],
        decreases an - i,
    {
        if a[i] != b[i] {
            return false;
        }
        i = i + 1;
    }
    proof {
        assert(a@ =~= b@);
    }
    true
}

/// What a search from `start` reports is the first occurrence within the
/// suffix that begins there.
pub proof fn lemma_found_find_first(buf: Seq<u8>, start: int, b: u8, r: Option<usize>)
    requires
        0 <= start <= buf.len(),
        found_from(buf, start, b, r),
    ensures
        find_first(buf.skip(start), b) == match r {
            Some(i) => Some(i - start),
            None => None::<int>,
        },
{
    let suf = buf.skip(start);
    match r {
        Some(i) => {
            assert(suf[i - start] == buf[i as int]);
            assert(forall|j: int| 0 <= j < i - start ==> suf[j] == buf[j + start]);
            lemma_find_first_unique(suf, b, i - start);
        },
        None => {
            assert(forall|j: int| 0 <= j < suf.len() ==> suf[j] == buf[j + start]);
            lemma_find_first_absent(suf, b);
        },
    }
}

} // verus!
