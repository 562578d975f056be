//! Read-only searches over the buffer: the first byte of a kind, the first
//! occurrence of a byte sequence, and how often a byte occurs.

use vstd::prelude::*;
use vstd::slice::slice_subrange;
use crate::chartype::{Chartype, in_class, is_of_type};

verus! {

/// What a scan looks for.
pub enum Stop {
    /// The given byte.
    Byte(u8),
    /// Either of two bytes.
    Either(u8, u8),
    /// A byte of the given class.
    Class(Chartype),
    /// A byte outside the given class.
    NotClass(Chartype),
}

/// Whether a scan for `stop` ends at byte `b`.
pub open spec fn stops_at(stop: Stop, b: u8) -> bool {
    match stop {
        Stop::Byte(x) => b == x,
        Stop::Either(x, y) => b == x || b == y,
        Stop::Class(t) => in_class(b, t),
        Stop::NotClass(t) => !in_class(b, t),
    }
}

/// The first index in `[from, to)` at which a scan for `stop` ends, or `to` where there is none.
pub open spec fn first_stop(s: Seq<u8>, from: int, to: int, stop: Stop) -> int
    decreases to - from,
{
    if from >= to {
        to
    } else if stops_at(stop, s[from]) {
        from
    } else {
        first_stop(s, from + 1, to, stop)
    }
}

/// The result of a scan for `stop` over `[from, to)` of `s`: `None` where the
/// range is empty or out of bounds, or holds no such byte.
pub open spec fn find_in(s: Seq<u8>, from: int, to: int, stop: Stop) -> Option<int> {
    if 0 <= from < to <= s.len() && first_stop(s, from, to, stop) < to {
        Some(first_stop(s, from, to, stop))
    } else {
        None
    }
}

/// The result of a scan for `stop` from `from` to the end of `s`.
pub open spec fn find_from(s: Seq<u8>, from: int, stop: Stop) -> Option<int> {
    find_in(s, from, s.len() as int, stop)
}

/// Whether an exec position stands for a spec position.
pub open spec fn same_pos(r: Option<usize>, p: Option<int>) -> bool {
    match r {
        Some(i) => p == Some(i as int),
        None => p is None,
    }
}

/// `first_stop` lies in `[from, to]`, ends the scan where it is below `to`, and nothing before it does.
pub proof fn lemma_first_stop(s: Seq<u8>, from: int, to: int, stop: Stop)
    requires
        from <= to,
    ensures
        from <= first_stop(s, from, to, stop) <= to,
        first_stop(s, from, to, stop) < to ==> stops_at(stop, s[first_stop(s, from, to, stop)]),
        forall|j: int| from <= j < first_stop(s, from, to, stop) ==> !stops_at(stop, #[trigger] s[j]),
    decreases to - from,
{
    if from < to && !stops_at(stop, s[from]) {
        lemma_first_stop(s, from + 1, to, stop);
    }
}

/// An index with the properties of `first_stop` is `first_stop`.
pub proof fn lemma_first_stop_is(s: Seq<u8>, from: int, to: int, stop: Stop, i: int)
    requires
        from <= i <= to,
        i < to ==> stops_at(stop, s[i]),
        forall|j: int| from <= j < i ==> !stops_at(stop, #[trigger] s[j]),
    ensures
        first_stop(s, from, to, stop) == i,
    decreases to - from,
{
    if from < i {
        assert(!stops_at(stop, s[from]));
        lemma_first_stop_is(s, from + 1, to, stop, i);
    }
}

/// A scan depends only on the bytes of its range.
pub proof fn lemma_first_stop_same(s: Seq<u8>, t: Seq<u8>, from: int, to: int, stop: Stop)
    requires
        forall|j: int| from <= j < to ==> #[trigger] s[j] == t[j],
    ensures
        first_stop(s, from, to, stop) == first_stop(t, from, to, stop),
    decreases to - from,
{
    if from < to {
        assert(s[from] == t[from]);
        if !stops_at(stop, s[from]) {
            lemma_first_stop_same(s, t, from + 1, to, stop);
        }
    }
}

/// `memchr::memchr` returns the index of the first occurrence of `needle` in
/// `haystack`, which is below the length of `haystack`, or `None` where
/// `needle` does not occur.
pub assume_specification[ memchr::memchr ](needle: u8, haystack: &[u8]) -> (r: Option<usize>)
    ensures
        match r {
            Some(i) => i < haystack@.len() && haystack@[i as int] == needle && forall|j: int|
                0 <= j < i ==> haystack@[j] != needle,
            None => forall|j: int| 0 <= j < haystack@.len() ==> haystack@[j] != needle,
        },
;

/// `memchr::memchr2` returns the index of the first byte of `haystack` that
/// is `needle1` or `needle2`, or `None` where neither occurs.
pub assume_specification[ memchr::memchr2 ](needle1: u8, needle2: u8, haystack: &[u8]) -> (r:
    Option<usize>)
    ensures
        match r {
            Some(i) => i < haystack@.len() && (haystack@[i as int] == needle1 || haystack@[i as int]
                == needle2) && forall|j: int|
                0 <= j < i ==> haystack@[j] != needle1 && haystack@[j] != needle2,
            None => forall|j: int|
                0 <= j < haystack@.len() ==> haystack@[j] != needle1 && haystack@[j] != needle2,
        },
;

/// The first position in `[start, end)` of `buf` that holds `target`.
pub fn scan_range_for_char(buf: &Vec<u8>, start: usize, end: usize, target: u8) -> (r: Option<
    usize,
>)
    ensures
        same_pos(r, find_in(buf@, start as int, end as int, Stop::Byte(target))),
{
    if start >= end || end > buf.len() {
        return None;
    }
    let window = slice_subrange(buf.as_slice(), start, end);
    match memchr::memchr(target, window) {
        Some(i) => {
            proof {
                assert forall|j: int| start <= j < start + i implies !stops_at(
                    Stop::Byte(target),
                    #[trigger] buf@[j],
                ) by {
                    assert(window@[j - start] == buf@[j]);
                }
                assert(window@[i as int] == buf@[start + i]);
                lemma_first_stop_is(buf@, start as int, end as int, Stop::Byte(target), start + i);
            }
            Some(start + i)
        },
        None => {
            proof {
                assert forall|j: int| start <= j < end implies !stops_at(
                    Stop::Byte(target),
                    #[trigger] buf@[j],
                ) by {
                    assert(window@[j - start] == buf@[j]);
                }
                lemma_first_stop_is(buf@, start as int, end as int, Stop::Byte(target), end as int);
            }
            None
        },
    }
}

/// The first position at or after `p` that holds `target`.
pub fn scan_until_char(buf: &Vec<u8>, p: usize, target: u8) -> (r: Option<usize>)
    ensures
        same_pos(r, find_from(buf@, p as int, Stop::Byte(target))),
{
    scan_range_for_char(buf, p, buf.len(), target)
}

/// The first position at or after `p` that holds `char1` or `char2`.
pub fn scan_until_one_of_2_chars(buf: &Vec<u8>, p: usize, char1: u8, char2: u8) -> (r: Option<
    usize,
>)
    ensures
        same_pos(r, find_from(buf@, p as int, Stop::Either(char1, char2))),
{
    if p >= buf.len() {
        return None;
    }
    let end = buf.len();
    let window = slice_subrange(buf.as_slice(), p, end);
    let ghost stop = Stop::Either(char1, char2);
    match memchr::memchr2(char1, char2, window) {
        Some(i) => {
            proof {
                assert forall|j: int| p <= j < p + i implies !stops_at(stop, #[trigger] buf@[j]) by {
                    assert(window@[j - p] == buf@[j]);
                }
                assert(window@[i as int] == buf@[p + i]);
                lemma_first_stop_is(buf@, p as int, end as int, stop, p + i);
            }
            Some(p + i)
        },
        None => {
            proof {
                assert forall|j: int| p <= j < end implies !stops_at(stop, #[trigger] buf@[j]) by {
                    assert(window@[j - p] == buf@[j]);
                }
                lemma_first_stop_is(buf@, p as int, end as int, stop, end as int);
            }
            None
        },
    }
}

/// The first position in `[start, end)` of `buf` whose byte is in `chartype`.
pub fn scan_range_for_chartype(buf: &Vec<u8>, start: usize, end: usize, chartype: Chartype) -> (r:
    Option<usize>)
    ensures
        same_pos(r, find_in(buf@, start as int, end as int, Stop::Class(chartype))),
{
    if start >= end || end > buf.len() {
        return None;
    }
    let ghost stop = Stop::Class(chartype);
    let mut i: usize = start;
    while i < end
        invariant
            start <= i <= end <= buf.len(),
            stop == Stop::Class(chartype),
            forall|j: int| start <= j < i ==> !stops_at(stop, #[trigger] buf@[j]),
        decreases end - i,
    {
        if is_of_type(buf[i], chartype) {
            proof {
                lemma_first_stop_is(buf@, start as int, end as int, stop, i as int);
            }
            return Some(i);
        }
        i += 1;
    }
    proof {
        lemma_first_stop_is(buf@, start as int, end as int, stop, end as int);
    }
    None
}

/// The first position at or after `p` whose byte is in `chartype`.
pub fn scan_until_chartype(buf: &Vec<u8>, p: usize, chartype: Chartype) -> (r: Option<usize>)
    ensures
        same_pos(r, find_from(buf@, p as int, Stop::Class(chartype))),
{
    scan_range_for_chartype(buf, p, buf.len(), chartype)
}

/// The first position at or after `p` whose byte is outside `chartype`.
pub fn skip_chartype(buf: &Vec<u8>, p: usize, chartype: Chartype) -> (r: Option<usize>)
    ensures
        same_pos(r, find_from(buf@, p as int, Stop::NotClass(chartype))),
{
    let end = buf.len();
    if p >= end {
        return None;
    }
    let ghost stop = Stop::NotClass(chartype);
    let mut i: usize = p;
    while i < end
        invariant
            p <= i <= end == buf.len(),
            stop == Stop::NotClass(chartype),
            forall|j: int| p <= j < i ==> !stops_at(stop, #[trigger] buf@[j]),
        decreases end - i,
    {
        if !is_of_type(buf[i], chartype) {
            proof {
                lemma_first_stop_is(buf@, p as int, end as int, stop, i as int);
            }
            return Some(i);
        }
        i += 1;
    }
    proof {
        lemma_first_stop_is(buf@, p as int, end as int, stop, end as int);
    }
    None
}

/// Whether `needle` stands in `s` at index `i`.
pub open spec fn occurs_at(s: Seq<u8>, i: int, needle: Seq<u8>) -> bool {
    0 <= i && i + needle.len() <= s.len() && s.subrange(i, i + needle.len()) == needle
}

/// The first index at or after `from` where `needle` stands in `s`.
pub open spec fn first_occurrence(s: Seq<u8>, from: int, needle: Seq<u8>) -> Option<int>
    decreases s.len() - from + 1,
{
    if from < 0 || from + needle.len() > s.len() {
        None
    } else if occurs_at(s, from, needle) {
        Some(from)
    } else {
        first_occurrence(s, from + 1, needle)
    }
}

/// Where the first occurrence is, if there is one.
pub proof fn lemma_first_occurrence(s: Seq<u8>, from: int, needle: Seq<u8>)
    ensures
        first_occurrence(s, from, needle) matches Some(i) ==> from <= i && i + needle.len()
            <= s.len() && occurs_at(s, i, needle),
    decreases s.len() - from + 1,
{
    if !(from < 0 || from + needle.len() > s.len()) && !occurs_at(s, from, needle) {
        lemma_first_occurrence(s, from + 1, needle);
    }
}

/// Calls `kmp::kmp_find` on byte slices. The contract claims that the result is
/// the index of the first place where `needle` stands in `haystack`, and `None`
/// where it stands nowhere.
#[verifier::external_body]
fn find_subsequence(needle: &[u8], haystack: &[u8]) -> (r: Option<usize>)
    ensures
        same_pos(r, first_occurrence(haystack@, 0, needle@)),
{
    kmp::kmp_find(needle, haystack)
}

/// The position just after the first occurrence of `needle` that lies within
/// the `max` bytes from `from` on.
pub open spec fn after_occurrence(s: Seq<u8>, from: int, max: int, needle: Seq<u8>) -> Option<
    int,
> {
    if 0 <= from < s.len() && 0 <= max {
        let to = if from + max < s.len() {
            from + max
        } else {
            s.len() as int
        };
        match first_occurrence(s.subrange(from, to), 0, needle) {
            Some(i) => Some(from + i + needle.len()),
            None => None,
        }
    } else {
        None
    }
}

/// Finds `needle` within the `max` bytes at `p` and returns the position just after it.
pub fn skip_after_slice(buf: &Vec<u8>, p: usize, max: usize, needle: &[u8]) -> (r: Option<usize>)
    ensures
        same_pos(r, after_occurrence(buf@, p as int, max as int, needle@)),
        r matches Some(i) ==> (p + needle@.len() <= i && i <= buf.len()),
{
    let len = buf.len();
    if p >= len {
        return None;
    }
    let to = if len - p > max {
        p + max
    } else {
        len
    };
    let window = slice_subrange(buf.as_slice(), p, to);
    proof {
        lemma_first_occurrence(window@, 0, needle@);
    }
    match find_subsequence(needle, window) {
        Some(pos) => Some(p + pos + needle.len()),
        None => None,
    }
}

/// Whether `pattern` stands in `buf` at position `p`.
pub fn starts_with_at(buf: &Vec<u8>, p: usize, pattern: &[u8]) -> (r: bool)
    ensures
        r == occurs_at(buf@, p as int, pattern@),
{
    let n = pattern.len();
    if p > buf.len() || buf.len() - p < n {
        return false;
    }
    let mut k: usize = 0;
    while k < n
        invariant
            k <= n == pattern@.len(),
            p + n <= buf.len(),
            forall|j: int| 0 <= j < k ==> buf@[p + j] == pattern@[j],
        decreases n - k,
    {
        if buf[p + k] != pattern[k] {
            proof {
                assert(buf@.subrange(p as int, p + n)[k as int] == buf@[p + k]);
            }
            return false;
        }
        k += 1;
    }
    proof {
        assert(buf@.subrange(p as int, p + n) =~= pattern@);
    }
    true
}

/// How often `b` occurs in `s`.
pub open spec fn count_of(s: Seq<u8>, b: u8) -> nat
    decreases s.len(),
{
    if s.len() == 0 {
        0
    } else {
        count_of(s.drop_last(), b) + if s.last() == b {
            1nat
        } else {
            0nat
        }
    }
}

/// Counts what `memchr::memchr_iter` yields. The iterator yields each index of
/// `haystack` that holds `needle`, once; the contract claims that their number
/// is the number of occurrences.
#[verifier::external_body]
pub(crate) fn count_byte(needle: u8, haystack: &[u8]) -> (n: usize)
    ensures
        n == count_of(haystack@, needle),
{
    memchr::memchr_iter(needle, haystack).count()
}

/// A byte occurs in a sequence as often as in its two parts together.
pub proof fn lemma_count_of_parts(s: Seq<u8>, at: int, b: u8)
    requires
        0 <= at <= s.len(),
    ensures
        count_of(s, b) == count_of(s.subrange(0, at), b) + count_of(
            s.subrange(at, s.len() as int),
            b,
        ),
    decreases s.len(),
{
    if at == s.len() {
        assert(s.subrange(0, at) =~= s);
    } else {
        lemma_count_of_parts(s.drop_last(), at, b);
        assert(s.drop_last().subrange(0, at) =~= s.subrange(0, at));
        assert(s.drop_last().subrange(at, s.len() - 1) =~= s.subrange(
            at,
            s.len() as int,
        ).drop_last());
    }
}

/// A byte that a sequence holds occurs in it.
pub proof fn lemma_count_of_held(s: Seq<u8>, i: int, b: u8)
    requires
        0 <= i < s.len(),
        s[i] == b,
    ensures
        count_of(s, b) >= 1,
    decreases s.len(),
{
    if i < s.len() - 1 {
        lemma_count_of_held(s.drop_last(), i, b);
    }
}

} // verus!
