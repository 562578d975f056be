//! In-place rewriting of byte ranges of the buffer: character references,
//! white space of attribute values, line endings and namespace prefixes.
//!
//! Every rewrite reads at or after its read position and writes before it, so
//! the text it produces never grows and the bytes after the text stay as they
//! were.

use vstd::prelude::*;
use vstd::slice::slice_subrange;
use vstd::utf8::{encode_scalar, is_scalar};
use crate::chartype::{Chartype, in_class, is_of_type, is_space};
use crate::entities::{entity_code_point, lookup_entity};
use crate::scan::{
    Stop,
    find_in,
    first_stop,
    lemma_first_stop,
    lemma_first_stop_same,
    scan_range_for_char,
    scan_range_for_chartype,
    stops_at,
};

verus! {

pub const AMPERSAND: u8 = 38;

pub const SEMI_COLON: u8 = 59;

pub const HASH: u8 = 35;

pub const X_CHAR: u8 = 120;

pub const SPACE: u8 = 32;

pub const COLON: u8 = 58;

pub const NEWLINE: u8 = 10;

pub const CARRIAGE_RETURN: u8 = 13;

/// The value above every code point, which stands for a number that is none.
pub const NO_CODE_POINT: u32 = 0x110000;

/// `s` with the bytes from index `at` on replaced by `t`.
#[verifier::opaque]
pub open spec fn overwrite(s: Seq<u8>, at: int, t: Seq<u8>) -> Seq<u8> {
    s.subrange(0, at) + t + s.subrange(at + t.len(), s.len() as int)
}

/// What each index of an overwritten sequence holds.
pub proof fn lemma_overwrite(s: Seq<u8>, at: int, t: Seq<u8>)
    requires
        0 <= at,
        at + t.len() <= s.len(),
    ensures
        overwrite(s, at, t).len() == s.len(),
        forall|k: int| 0 <= k < at ==> #[trigger] overwrite(s, at, t)[k] == s[k],
        forall|k: int| at <= k < at + t.len() ==> #[trigger] overwrite(s, at, t)[k] == t[k - at],
        forall|k: int| at + t.len() <= k < s.len() ==> #[trigger] overwrite(s, at, t)[k] == s[k],
{
    reveal(overwrite);
}

/// A sequence that holds `t` from `at` on, and elsewhere what `s` holds, is `s` overwritten.
pub proof fn lemma_overwrite_is(s: Seq<u8>, at: int, t: Seq<u8>, r: Seq<u8>)
    requires
        0 <= at,
        at + t.len() <= s.len(),
        r.len() == s.len(),
        forall|k: int| 0 <= k < at ==> #[trigger] r[k] == s[k],
        forall|k: int| at <= k < at + t.len() ==> #[trigger] r[k] == t[k - at],
        forall|k: int| at + t.len() <= k < s.len() ==> #[trigger] r[k] == s[k],
    ensures
        r == overwrite(s, at, t),
{
    reveal(overwrite);
    assert(r =~= overwrite(s, at, t));
}

/// Overwriting bytes with themselves changes nothing.
pub proof fn lemma_overwrite_same(s: Seq<u8>, from: int, end: int)
    requires
        0 <= from <= end <= s.len(),
    ensures
        overwrite(s, from, s.subrange(from, end)) == s,
{
    lemma_overwrite_is(s, from, s.subrange(from, end), s);
}

/// Concatenation is associative.
pub proof fn lemma_concat_assoc(a: Seq<u8>, b: Seq<u8>, c: Seq<u8>)
    ensures
        (a + b) + c == a + (b + c),
{
    assert((a + b) + c =~= a + (b + c));
}

/// Copies the bytes of `[from, end)` to position `to`, which is not after `from`.
pub fn move_bytes(buf: &mut Vec<u8>, from: usize, end: usize, to: usize)
    requires
        to <= from <= end <= old(buf).len(),
    ensures
        final(buf)@ == overwrite(old(buf)@, to as int, old(buf)@.subrange(from as int, end as int)),
{
    let n = end - from;
    let mut k: usize = 0;
    while k < n
        invariant
            k <= n,
            n == end - from,
            to <= from <= end <= buf.len(),
            buf.len() == old(buf).len(),
            forall|j: int| to <= j < to + k ==> buf@[j] == old(buf)@[j - to + from],
            forall|j: int| 0 <= j < to ==> buf@[j] == old(buf)@[j],
            forall|j: int| to + k <= j < buf.len() ==> buf@[j] == old(buf)@[j],
        decreases n - k,
    {
        let b = buf[from + k];
        buf[to + k] = b;
        k += 1;
    }
    proof {
        lemma_overwrite_is(
            old(buf)@,
            to as int,
            old(buf)@.subrange(from as int, end as int),
            buf@,
        );
    }
}

/// Whether `c` is an ASCII decimal digit.
pub open spec fn is_digit(c: u8) -> bool {
    48 <= c <= 57
}

/// The value of `c` as a hexadecimal digit, if it is one.
pub open spec fn hex_digit(c: u8) -> Option<nat> {
    if 48 <= c <= 57 {
        Some((c - 48) as nat)
    } else if 65 <= c <= 70 {
        Some((c - 55) as nat)
    } else if 97 <= c <= 102 {
        Some((c - 87) as nat)
    } else {
        None
    }
}

/// The number that the decimal digits of `s` write, bytes that are no digits left out.
pub open spec fn decimal_value(s: Seq<u8>) -> nat
    decreases s.len(),
{
    if s.len() == 0 {
        0
    } else if is_digit(s.last()) {
        decimal_value(s.drop_last()) * 10 + (s.last() - 48) as nat
    } else {
        decimal_value(s.drop_last())
    }
}

/// The number that the hexadecimal digits of `s` write, bytes that are no digits left out.
pub open spec fn hexadecimal_value(s: Seq<u8>) -> nat
    decreases s.len(),
{
    if s.len() == 0 {
        0
    } else {
        match hex_digit(s.last()) {
            Some(d) => hexadecimal_value(s.drop_last()) * 16 + d,
            None => hexadecimal_value(s.drop_last()),
        }
    }
}

/// `v` as a `u32`, with every number above the code points taken to `NO_CODE_POINT`.
pub open spec fn saturated(v: nat) -> u32 {
    if v > 0x10FFFF {
        NO_CODE_POINT
    } else {
        v as u32
    }
}

/// The number that the decimal digits of `s` write, saturated: bytes that
/// are no digits are left out, and what holds no digit writes 0.
pub fn decimal(s: &[u8]) -> (r: u32)
    ensures
        r == saturated(decimal_value(s@)),
{
    let mut acc: u32 = 0;
    let mut i: usize = 0;
    while i < s.len()
        invariant
            i <= s.len(),
            acc == saturated(decimal_value(s@.subrange(0, i as int))),
        decreases s.len() - i,
    {
        let c = s[i];
        proof {
            assert(s@.subrange(0, i + 1).drop_last() =~= s@.subrange(0, i as int));
        }
        if 48 <= c && c <= 57 {
            if acc > 0x10FFFF {
                acc = NO_CODE_POINT;
            } else {
                let v: u32 = acc * 10 + (c - 48) as u32;
                acc = if v > 0x10FFFF {
                    NO_CODE_POINT
                } else {
                    v
                };
            }
        }
        i += 1;
    }
    proof {
        assert(s@.subrange(0, s@.len() as int) =~= s@);
    }
    acc
}

/// The value of `c` as a hexadecimal digit, if it is one.
pub fn hex_val(c: u8) -> (r: Option<u32>)
    ensures
        match r {
            Some(d) => hex_digit(c) == Some(d as nat),
            None => hex_digit(c) is None,
        },
{
    if 48 <= c && c <= 57 {
        Some((c - 48) as u32)
    } else if 65 <= c && c <= 70 {
        Some((c - 55) as u32)
    } else if 97 <= c && c <= 102 {
        Some((c - 87) as u32)
    } else {
        None
    }
}

/// The number that the hexadecimal digits of `s` write, saturated: bytes
/// that are no digits are left out, and what holds no digit writes 0.
pub fn hexadecimal(s: &[u8]) -> (r: u32)
    ensures
        r == saturated(hexadecimal_value(s@)),
{
    let mut acc: u32 = 0;
    let mut i: usize = 0;
    while i < s.len()
        invariant
            i <= s.len(),
            acc == saturated(hexadecimal_value(s@.subrange(0, i as int))),
        decreases s.len() - i,
    {
        proof {
            assert(s@.subrange(0, i + 1).drop_last() =~= s@.subrange(0, i as int));
        }
        if let Some(d) = hex_val(s[i]) {
            if acc > 0x10FFFF {
                acc = NO_CODE_POINT;
            } else {
                let v: u32 = acc * 16 + d;
                acc = if v > 0x10FFFF {
                    NO_CODE_POINT
                } else {
                    v
                };
            }
        }
        i += 1;
    }
    proof {
        assert(s@.subrange(0, s@.len() as int) =~= s@);
    }
    acc
}

/// Whether `code` is a Unicode scalar value.
pub fn is_scalar_value(code: u32) -> (r: bool)
    ensures
        r == is_scalar(code),
{
    code <= 0x10FFFF && !(0xD800 <= code && code <= 0xDFFF)
}

/// Writes the UTF-8 encoding of `code` at position `to` and returns its length.
pub fn write_utf8(buf: &mut Vec<u8>, to: usize, code: u32) -> (n: usize)
    requires
        is_scalar(code),
        to + encode_scalar(code).len() <= old(buf).len(),
    ensures
        n == encode_scalar(code).len(),
        1 <= n <= 4,
        final(buf)@ == overwrite(old(buf)@, to as int, encode_scalar(code)),
{
    let n: usize;
    if code <= 0x7F {
        buf[to] = (code & 0x7F) as u8;
        n = 1;
    } else if code <= 0x7FF {
        buf[to] = 0xC0 | ((code >> 6) & 0x1F) as u8;
        buf[to + 1] = 0x80 | (code & 0x3F) as u8;
        n = 2;
    } else if code <= 0xFFFF {
        buf[to] = 0xE0 | ((code >> 12) & 0x0F) as u8;
        buf[to + 1] = 0x80 | ((code >> 6) & 0x3F) as u8;
        buf[to + 2] = 0x80 | (code & 0x3F) as u8;
        n = 3;
    } else {
        buf[to] = 0xF0 | ((code >> 18) & 0x7) as u8;
        buf[to + 1] = 0x80 | ((code >> 12) & 0x3F) as u8;
        buf[to + 2] = 0x80 | ((code >> 6) & 0x3F) as u8;
        buf[to + 3] = 0x80 | (code & 0x3F) as u8;
        n = 4;
    }
    proof {
        lemma_overwrite_is(old(buf)@, to as int, encode_scalar(code), buf@);
    }
    n
}

/// A character reference read from the buffer.
pub struct CharRef {
    /// The position after the `;` that ends the reference.
    pub next: int,
    /// The code point that the reference stands for.
    pub code: u32,
}

/// The reference whose text starts at `from`, just after its `&`, and ends at
/// the first `;` before `limit`. A text that starts with `#` is a number,
/// hexadecimal after `#x` and decimal otherwise, of which bytes that are no
/// digits are left out, so that a number without any digit is 0; a number
/// without any byte is no reference. Any other text is a name of the entity
/// table.
pub open spec fn reference_at(s: Seq<u8>, from: int, limit: int) -> Option<CharRef> {
    match find_in(s, from, limit, Stop::Byte(SEMI_COLON)) {
        None => None,
        Some(semi) => {
            let found = if s[from] == HASH {
                let hex = s[from + 1] == X_CHAR;
                let digits = if hex {
                    from + 2
                } else {
                    from + 1
                };
                if digits >= semi {
                    None
                } else if hex {
                    Some(saturated(hexadecimal_value(s.subrange(digits, semi))))
                } else {
                    Some(saturated(decimal_value(s.subrange(digits, semi))))
                }
            } else {
                entity_code_point(s.subrange(from, semi))
            };
            match found {
                Some(code) => if is_scalar(code) {
                    Some(CharRef { next: semi + 1, code })
                } else {
                    None
                },
                None => None,
            }
        },
    }
}

/// A reference ends within its limit and is at least as long as its encoding.
pub proof fn lemma_reference_at(s: Seq<u8>, from: int, limit: int)
    ensures
        reference_at(s, from, limit) matches Some(r) ==> from + 3 <= r.next <= limit && limit
            <= s.len() && 0 <= from && is_scalar(r.code) && 1 <= encode_scalar(r.code).len() <= 4,
{
    if let Some(semi) = find_in(s, from, limit, Stop::Byte(SEMI_COLON)) {
        lemma_first_stop(s, from, limit, Stop::Byte(SEMI_COLON));
        if s[from] == HASH {
        } else {
            assert(s.subrange(from, semi).len() == semi - from);
        }
    }
}

/// A reference depends only on the bytes between its start and its limit.
pub proof fn lemma_reference_same(s: Seq<u8>, t: Seq<u8>, from: int, limit: int)
    requires
        s.len() == t.len(),
        forall|j: int| from <= j < limit ==> #[trigger] s[j] == t[j],
    ensures
        reference_at(s, from, limit) == reference_at(t, from, limit),
{
    let stop = Stop::Byte(SEMI_COLON);
    lemma_first_stop_same(s, t, from, limit, stop);
    if let Some(semi) = find_in(s, from, limit, stop) {
        lemma_first_stop(s, from, limit, stop);
        assert(s[from] == t[from]);
        assert(s.subrange(from, semi) =~= t.subrange(from, semi));
        if s[from] == HASH {
            assert(s[from + 1] == t[from + 1]);
            assert(s.subrange(from + 1, semi) =~= t.subrange(from + 1, semi));
            if from + 2 <= semi {
                assert(s.subrange(from + 2, semi) =~= t.subrange(from + 2, semi));
            }
        }
    }
}

/// Translates the reference whose text starts at `from`, just after its `&`,
/// and ends before `limit`: writes its UTF-8 encoding at `to` and returns the
/// position after the reference and the position after what was written.
/// Where there is no reference the buffer is left as it was.
pub fn translate_sequence(buf: &mut Vec<u8>, from: usize, to: usize, limit: usize) -> (r: Option<
    (usize, usize),
>)
    requires
        to < from,
        limit <= old(buf).len(),
    ensures
        match reference_at(old(buf)@, from as int, limit as int) {
            Some(cr) => r == Some((cr.next as usize, (to + encode_scalar(cr.code).len()) as usize))
                && final(buf)@ == overwrite(old(buf)@, to as int, encode_scalar(cr.code)),
            None => r is None && final(buf)@ == old(buf)@,
        },
{
    proof {
        lemma_reference_at(buf@, from as int, limit as int);
        if from <= limit {
            lemma_first_stop(buf@, from as int, limit as int, Stop::Byte(SEMI_COLON));
        }
    }
    let end = match scan_range_for_char(buf, from, limit, SEMI_COLON) {
        Some(end) => end,
        None => {
            return None;
        },
    };
    let found: Option<u32> = if buf[from] == HASH {
        let hex = buf[from + 1] == X_CHAR;
        let digits = if hex {
            from + 2
        } else {
            from + 1
        };
        if digits >= end {
            None
        } else if hex {
            Some(hexadecimal(slice_subrange(buf.as_slice(), digits, end)))
        } else {
            Some(decimal(slice_subrange(buf.as_slice(), digits, end)))
        }
    } else {
        lookup_entity(slice_subrange(buf.as_slice(), from, end))
    };
    match found {
        Some(code) => {
            if is_scalar_value(code) {
                let n = write_utf8(buf, to, code);
                Some((end + 1, to + n))
            } else {
                None
            }
        },
        None => None,
    }
}

/// The position after what the `&` at `pos` starts: after its reference, or after the `&` alone.
pub open spec fn amp_next(s: Seq<u8>, pos: int, end: int) -> int {
    match reference_at(s, pos + 1, end) {
        Some(r) => r.next,
        None => pos + 1,
    }
}

/// What the `&` at `pos` stands for: the encoding of its reference, or the `&` itself.
pub open spec fn amp_piece(s: Seq<u8>, pos: int, end: int) -> Seq<u8> {
    match reference_at(s, pos + 1, end) {
        Some(r) => encode_scalar(r.code),
        None => seq![AMPERSAND],
    }
}

/// What an `&` stands for is no longer than what it starts, which ends within the range.
pub proof fn lemma_amp(s: Seq<u8>, pos: int, end: int)
    requires
        0 <= pos < end <= s.len(),
    ensures
        pos < amp_next(s, pos, end) <= end,
        1 <= amp_piece(s, pos, end).len() <= amp_next(s, pos, end) - pos,
{
    lemma_reference_at(s, pos + 1, end);
}

/// The text of `[from, end)` with its character references replaced. An `&`
/// that starts no reference stands for itself.
pub open spec fn pcdata_text(s: Seq<u8>, from: int, end: int) -> Seq<u8>
    decreases end - from,
{
    if from >= end {
        Seq::empty()
    } else if s[from] == AMPERSAND {
        if amp_next(s, from, end) > from {
            amp_piece(s, from, end) + pcdata_text(s, amp_next(s, from, end), end)
        } else {
            Seq::empty()
        }
    } else {
        seq![s[from]] + pcdata_text(s, from + 1, end)
    }
}

/// Bytes before the next `&` stand for themselves.
pub proof fn lemma_pcdata_run(s: Seq<u8>, from: int, mid: int, end: int)
    requires
        0 <= from <= mid <= end <= s.len(),
        forall|j: int| from <= j < mid ==> #[trigger] s[j] != AMPERSAND,
    ensures
        pcdata_text(s, from, end) == s.subrange(from, mid) + pcdata_text(s, mid, end),
    decreases mid - from,
{
    if from < mid {
        lemma_pcdata_run(s, from + 1, mid, end);
        assert(s[from] != AMPERSAND);
        assert(seq![s[from]] + (s.subrange(from + 1, mid) + pcdata_text(s, mid, end))
            =~= s.subrange(from, mid) + pcdata_text(s, mid, end));
    } else {
        assert(s.subrange(from, mid) + pcdata_text(s, mid, end) =~= pcdata_text(s, mid, end));
    }
}

/// The text of a range is no longer than the range.
pub proof fn lemma_pcdata_len(s: Seq<u8>, from: int, end: int)
    requires
        0 <= from <= end <= s.len(),
    ensures
        pcdata_text(s, from, end).len() <= end - from,
    decreases end - from,
{
    if from < end {
        if s[from] == AMPERSAND {
            lemma_amp(s, from, end);
            lemma_pcdata_len(s, amp_next(s, from, end), end);
        } else {
            lemma_pcdata_len(s, from + 1, end);
        }
    }
}

/// The text of a range depends only on the bytes of the range.
pub proof fn lemma_pcdata_same(s: Seq<u8>, t: Seq<u8>, from: int, end: int)
    requires
        s.len() == t.len(),
        0 <= from,
        end <= s.len(),
        forall|j: int| from <= j < end ==> #[trigger] s[j] == t[j],
    ensures
        pcdata_text(s, from, end) == pcdata_text(t, from, end),
    decreases end - from,
{
    if from < end {
        assert(s[from] == t[from]);
        if s[from] == AMPERSAND {
            lemma_reference_same(s, t, from + 1, end);
            lemma_amp(s, from, end);
            lemma_pcdata_same(s, t, amp_next(s, from, end), end);
        } else {
            lemma_pcdata_same(s, t, from + 1, end);
        }
    }
}

/// A text without `&` stands for itself.
pub proof fn lemma_pcdata_plain(s: Seq<u8>, from: int, end: int)
    requires
        0 <= from <= end <= s.len(),
        forall|j: int| from <= j < end ==> #[trigger] s[j] != AMPERSAND,
    ensures
        pcdata_text(s, from, end) == s.subrange(from, end),
{
    lemma_pcdata_run(s, from, end, end);
    assert(s.subrange(from, end) + pcdata_text(s, end, end) =~= s.subrange(from, end));
}

/// What a rewrite that has put `emitted` at `start` leaves of the bytes from `from` on,
/// which it has not reached: the bytes themselves, and so every scan and reference among them.
pub proof fn lemma_unread(orig: Seq<u8>, start: int, emitted: Seq<u8>, from: int, end: int)
    requires
        0 <= start,
        start + emitted.len() <= from <= end <= orig.len(),
    ensures
        overwrite(orig, start, emitted).len() == orig.len(),
        overwrite(orig, start, emitted).subrange(from, end) == orig.subrange(from, end),
        forall|stop: Stop| #[trigger]
            first_stop(overwrite(orig, start, emitted), from, end, stop) == first_stop(
                orig,
                from,
                end,
                stop,
            ),
        from < end ==> overwrite(orig, start, emitted)[from] == orig[from],
        from < end ==> amp_next(overwrite(orig, start, emitted), from, end) == amp_next(
            orig,
            from,
            end,
        ),
        from < end ==> amp_piece(overwrite(orig, start, emitted), from, end) == amp_piece(
            orig,
            from,
            end,
        ),
{
    let buf = overwrite(orig, start, emitted);
    lemma_overwrite(orig, start, emitted);
    assert(buf.subrange(from, end) =~= orig.subrange(from, end));
    assert forall|stop: Stop| #[trigger]
        first_stop(buf, from, end, stop) == first_stop(orig, from, end, stop) by {
        lemma_first_stop_same(buf, orig, from, end, stop);
    }
    if from < end {
        lemma_reference_same(buf, orig, from + 1, end);
    }
}

/// What one more step of a rewrite leaves: the text so far grows by `piece`,
/// which now stands in the buffer where the text ended.
pub proof fn lemma_emit(orig: Seq<u8>, start: int, emitted: Seq<u8>, piece: Seq<u8>)
    requires
        0 <= start,
        start + emitted.len() + piece.len() <= orig.len(),
    ensures
        overwrite(overwrite(orig, start, emitted), start + emitted.len(), piece) == overwrite(
            orig,
            start,
            emitted + piece,
        ),
{
    let before = overwrite(orig, start, emitted);
    lemma_overwrite(orig, start, emitted);
    lemma_overwrite(before, start + emitted.len(), piece);
    lemma_overwrite_is(
        orig,
        start,
        emitted + piece,
        overwrite(before, start + emitted.len(), piece),
    );
}

/// Copies the bytes of `[from, end)` to position `to`, unless they are there already.
fn copy_run(buf: &mut Vec<u8>, from: usize, end: usize, to: usize)
    requires
        to <= from <= end <= old(buf).len(),
    ensures
        final(buf)@ == overwrite(old(buf)@, to as int, old(buf)@.subrange(from as int, end as int)),
{
    if from != to {
        move_bytes(buf, from, end, to);
    } else {
        proof {
            lemma_overwrite_same(buf@, from as int, end as int);
        }
    }
}

/// Writes at `to` what the `&` at `pos` stands for, and returns the position
/// after what the `&` starts and the position after what was written.
fn emit_reference(buf: &mut Vec<u8>, pos: usize, to: usize, end: usize) -> (r: (usize, usize))
    requires
        to <= pos < end <= old(buf).len(),
    ensures
        r.0 == amp_next(old(buf)@, pos as int, end as int),
        r.1 == to + amp_piece(old(buf)@, pos as int, end as int).len(),
        final(buf)@ == overwrite(
            old(buf)@,
            to as int,
            amp_piece(old(buf)@, pos as int, end as int),
        ),
{
    proof {
        lemma_amp(buf@, pos as int, end as int);
    }
    match translate_sequence(buf, pos + 1, to, end) {
        Some(r) => r,
        None => {
            buf[to] = AMPERSAND;
            proof {
                lemma_overwrite_is(old(buf)@, to as int, seq![AMPERSAND], buf@);
            }
            (pos + 1, to + 1)
        },
    }
}

/// Replaces the character references of `[start, end)` in place and returns
/// the end of the text, which starts at `start`.
pub fn parse_pcdata(buf: &mut Vec<u8>, start: usize, end: usize) -> (new_end: usize)
    requires
        start <= end <= old(buf).len(),
    ensures
        start <= new_end <= end,
        new_end == start + pcdata_text(old(buf)@, start as int, end as int).len(),
        final(buf)@ == overwrite(
            old(buf)@,
            start as int,
            pcdata_text(old(buf)@, start as int, end as int),
        ),
{
    let ghost orig = buf@;
    let ghost mut emitted: Seq<u8> = Seq::empty();
    let mut from = start;
    let mut to = start;
    proof {
        assert(emitted + pcdata_text(orig, from as int, end as int) =~= pcdata_text(
            orig,
            start as int,
            end as int,
        ));
        lemma_overwrite_is(orig, start as int, emitted, orig);
    }
    while from < end
        invariant
            start <= to <= from <= end <= orig.len(),
            emitted.len() == to - start,
            buf@ == overwrite(orig, start as int, emitted),
            emitted + pcdata_text(orig, from as int, end as int) == pcdata_text(
                orig,
                start as int,
                end as int,
            ),
        decreases end - from,
    {
        let next_pos = match scan_range_for_char(buf, from, end, AMPERSAND) {
            Some(p) => p,
            None => end,
        };
        proof {
            let stop = Stop::Byte(AMPERSAND);
            lemma_unread(orig, start as int, emitted, from as int, end as int);
            lemma_first_stop(orig, from as int, end as int, stop);
            assert(next_pos == first_stop(orig, from as int, end as int, stop));
            assert forall|j: int| from <= j < next_pos implies #[trigger] orig[j] != AMPERSAND by {
                assert(!stops_at(stop, orig[j]));
            }
            lemma_pcdata_run(orig, from as int, next_pos as int, end as int);
        }
        if next_pos > from {
            let ghost run = orig.subrange(from as int, next_pos as int);
            proof {
                lemma_unread(orig, start as int, emitted, from as int, next_pos as int);
            }
            copy_run(buf, from, next_pos, to);
            proof {
                lemma_emit(orig, start as int, emitted, run);
                lemma_concat_assoc(emitted, run, pcdata_text(orig, next_pos as int, end as int));
                emitted = emitted + run;
            }
            to = to + (next_pos - from);
        }
        if next_pos >= end {
            from = end;
        } else {
            proof {
                lemma_unread(orig, start as int, emitted, next_pos as int, end as int);
                lemma_amp(orig, next_pos as int, end as int);
            }
            let (new_from, new_to) = emit_reference(buf, next_pos, to, end);
            proof {
                let piece = amp_piece(orig, next_pos as int, end as int);
                lemma_emit(orig, start as int, emitted, piece);
                lemma_concat_assoc(emitted, piece, pcdata_text(orig, new_from as int, end as int));
                emitted = emitted + piece;
            }
            from = new_from;
            to = new_to;
        }
    }
    proof {
        assert(emitted + Seq::<u8>::empty() =~= emitted);
    }
    to
}

/// The separator that a pending white space leaves before what follows it.
pub open spec fn gap(pending: bool) -> Seq<u8> {
    if pending {
        seq![SPACE]
    } else {
        Seq::empty()
    }
}

/// The value of an attribute written in `[from, end)`: character references
/// replaced as in text, each run of white space turned into one space, and
/// white space at either end left out. `started` says that something of the
/// value came before `from`, `pending` that white space came since.
pub open spec fn attr_value(s: Seq<u8>, from: int, end: int, started: bool, pending: bool) -> Seq<
    u8,
>
    decreases end - from,
{
    if from >= end {
        Seq::empty()
    } else if is_space(s[from]) {
        attr_value(s, from + 1, end, started, started)
    } else if s[from] == AMPERSAND {
        if amp_next(s, from, end) > from {
            gap(pending) + amp_piece(s, from, end) + attr_value(
                s,
                amp_next(s, from, end),
                end,
                true,
                false,
            )
        } else {
            Seq::empty()
        }
    } else {
        gap(pending) + seq![s[from]] + attr_value(s, from + 1, end, true, false)
    }
}

/// Bytes before the next `&` or white space stand for themselves.
pub proof fn lemma_attr_run(s: Seq<u8>, from: int, mid: int, end: int, started: bool, pending: bool)
    requires
        0 <= from < mid <= end <= s.len(),
        forall|j: int| from <= j < mid ==> !in_class(#[trigger] s[j], Chartype::ParseAtrNorm),
    ensures
        attr_value(s, from, end, started, pending) == gap(pending) + s.subrange(from, mid)
            + attr_value(s, mid, end, true, false),
    decreases mid - from,
{
    assert(!in_class(s[from], Chartype::ParseAtrNorm));
    if from + 1 < mid {
        lemma_attr_run(s, from + 1, mid, end, true, false);
        assert(gap(pending) + seq![s[from]] + (gap(false) + s.subrange(from + 1, mid) + attr_value(
            s,
            mid,
            end,
            true,
            false,
        )) =~= gap(pending) + s.subrange(from, mid) + attr_value(s, mid, end, true, false));
    } else {
        assert(seq![s[from]] =~= s.subrange(from, mid));
    }
}

/// A value without `&` and white space stands for itself.
pub proof fn lemma_attr_plain(s: Seq<u8>, from: int, end: int)
    requires
        0 <= from <= end <= s.len(),
        forall|j: int| from <= j < end ==> !in_class(#[trigger] s[j], Chartype::ParseAtrNorm),
    ensures
        attr_value(s, from, end, false, false) == s.subrange(from, end),
{
    if from < end {
        lemma_attr_run(s, from, end, end, false, false);
        assert(gap(false) + s.subrange(from, end) + attr_value(s, end, end, true, false)
            =~= s.subrange(from, end));
    } else {
        assert(s.subrange(from, end) =~= Seq::<u8>::empty());
    }
}

/// A value is no longer than its range and the space that pending white
/// space leaves together.
pub proof fn lemma_attr_len(s: Seq<u8>, from: int, end: int, started: bool, pending: bool)
    requires
        0 <= from <= end <= s.len(),
    ensures
        attr_value(s, from, end, started, pending).len() <= end - from + gap(pending).len(),
    decreases end - from,
{
    if from < end {
        if is_space(s[from]) {
            lemma_attr_len(s, from + 1, end, started, started);
        } else if s[from] == AMPERSAND {
            lemma_amp(s, from, end);
            lemma_attr_len(s, amp_next(s, from, end), end, true, false);
        } else {
            lemma_attr_len(s, from + 1, end, true, false);
        }
    }
}

/// Writes the space that pending white space leaves, if any, and returns the new end of the text.
fn emit_gap(buf: &mut Vec<u8>, to: usize, pending: bool) -> (new_to: usize)
    requires
        to + 1 <= old(buf).len(),
    ensures
        new_to == to + gap(pending).len(),
        final(buf)@ == overwrite(old(buf)@, to as int, gap(pending)),
{
    if pending {
        buf[to] = SPACE;
        proof {
            lemma_overwrite_is(old(buf)@, to as int, gap(pending), buf@);
        }
        to + 1
    } else {
        proof {
            lemma_overwrite_is(old(buf)@, to as int, gap(pending), buf@);
        }
        to
    }
}

/// Normalizes the attribute value written in `[start, end)` in place and
/// returns the end of the value, which starts at `start`.
pub fn normalize_attribute_value(buf: &mut Vec<u8>, start: usize, end: usize) -> (new_end: usize)
    requires
        start <= end <= old(buf).len(),
    ensures
        start <= new_end <= end,
        new_end == start + attr_value(old(buf)@, start as int, end as int, false, false).len(),
        final(buf)@ == overwrite(
            old(buf)@,
            start as int,
            attr_value(old(buf)@, start as int, end as int, false, false),
        ),
{
    let ghost orig = buf@;
    let ghost mut emitted: Seq<u8> = Seq::empty();
    let mut from = start;
    let mut to = start;
    let mut pending = false;
    proof {
        assert(emitted + attr_value(orig, from as int, end as int, false, false) =~= attr_value(
            orig,
            start as int,
            end as int,
            false,
            false,
        ));
        lemma_overwrite_is(orig, start as int, emitted, orig);
    }
    while from < end
        invariant
            start <= to <= from <= end <= orig.len(),
            pending ==> start < to < from,
            emitted.len() == to - start,
            buf@ == overwrite(orig, start as int, emitted),
            emitted + attr_value(orig, from as int, end as int, to != start, pending)
                == attr_value(orig, start as int, end as int, false, false),
        decreases end - from,
    {
        let next_pos = match scan_range_for_chartype(buf, from, end, Chartype::ParseAtrNorm) {
            Some(p) => p,
            None => end,
        };
        proof {
            let stop = Stop::Class(Chartype::ParseAtrNorm);
            lemma_unread(orig, start as int, emitted, from as int, end as int);
            lemma_first_stop(orig, from as int, end as int, stop);
            assert(next_pos == first_stop(orig, from as int, end as int, stop));
            assert forall|j: int| from <= j < next_pos implies !in_class(
                #[trigger] orig[j],
                Chartype::ParseAtrNorm,
            ) by {
                assert(!stops_at(stop, orig[j]));
            }
            assert(next_pos < end ==> stops_at(stop, orig[next_pos as int]));
        }
        if next_pos > from {
            let ghost run = orig.subrange(from as int, next_pos as int);
            let ghost rest = attr_value(orig, next_pos as int, end as int, true, false);
            let gap_to = emit_gap(buf, to, pending);
            proof {
                lemma_attr_run(orig, from as int, next_pos as int, end as int, to != start, pending);
                lemma_emit(orig, start as int, emitted, gap(pending));
                lemma_unread(
                    orig,
                    start as int,
                    emitted + gap(pending),
                    from as int,
                    next_pos as int,
                );
            }
            copy_run(buf, from, next_pos, gap_to);
            proof {
                lemma_emit(orig, start as int, emitted + gap(pending), run);
                lemma_concat_assoc(emitted + gap(pending), run, rest);
                lemma_concat_assoc(emitted, gap(pending), run + rest);
                lemma_concat_assoc(gap(pending), run, rest);
                emitted = emitted + gap(pending) + run;
            }
            to = gap_to + (next_pos - from);
            pending = false;
        }
        proof {
            lemma_unread(orig, start as int, emitted, next_pos as int, end as int);
        }
        if next_pos >= end {
            from = end;
        } else if buf[next_pos] == AMPERSAND {
            let gap_to = emit_gap(buf, to, pending);
            proof {
                lemma_emit(orig, start as int, emitted, gap(pending));
                lemma_unread(
                    orig,
                    start as int,
                    emitted + gap(pending),
                    next_pos as int,
                    end as int,
                );
                lemma_amp(orig, next_pos as int, end as int);
            }
            let (new_from, new_to) = emit_reference(buf, next_pos, gap_to, end);
            proof {
                let piece = amp_piece(orig, next_pos as int, end as int);
                let rest = attr_value(orig, new_from as int, end as int, true, false);
                lemma_emit(orig, start as int, emitted + gap(pending), piece);
                lemma_concat_assoc(emitted + gap(pending), piece, rest);
                lemma_concat_assoc(emitted, gap(pending), piece + rest);
                lemma_concat_assoc(gap(pending), piece, rest);
                emitted = emitted + gap(pending) + piece;
            }
            from = new_from;
            to = new_to;
            pending = false;
        } else {
            pending = to != start;
            from = next_pos + 1;
        }
    }
    proof {
        assert(emitted + Seq::<u8>::empty() =~= emitted);
    }
    to
}

/// The position after the line ending that the carriage return at `pos` starts.
pub open spec fn line_end_next(s: Seq<u8>, pos: int, end: int) -> int {
    if pos + 1 < end && s[pos + 1] == NEWLINE {
        pos + 2
    } else {
        pos + 1
    }
}

/// The text of `[from, end)` with each carriage return, and the line feed
/// that follows it if there is one, replaced by one line feed.
pub open spec fn line_text(s: Seq<u8>, from: int, end: int) -> Seq<u8>
    decreases end - from,
{
    if from >= end {
        Seq::empty()
    } else if s[from] == CARRIAGE_RETURN {
        seq![NEWLINE] + line_text(s, line_end_next(s, from, end), end)
    } else {
        seq![s[from]] + line_text(s, from + 1, end)
    }
}

/// Bytes before the next carriage return stand for themselves.
pub proof fn lemma_line_run(s: Seq<u8>, from: int, mid: int, end: int)
    requires
        0 <= from <= mid <= end <= s.len(),
        forall|j: int| from <= j < mid ==> #[trigger] s[j] != CARRIAGE_RETURN,
    ensures
        line_text(s, from, end) == s.subrange(from, mid) + line_text(s, mid, end),
    decreases mid - from,
{
    if from < mid {
        lemma_line_run(s, from + 1, mid, end);
        assert(s[from] != CARRIAGE_RETURN);
        assert(seq![s[from]] + (s.subrange(from + 1, mid) + line_text(s, mid, end))
            =~= s.subrange(from, mid) + line_text(s, mid, end));
    } else {
        assert(s.subrange(from, mid) + line_text(s, mid, end) =~= line_text(s, mid, end));
    }
}

/// The text of a range is no longer than the range.
pub proof fn lemma_line_len(s: Seq<u8>, from: int, end: int)
    requires
        0 <= from <= end <= s.len(),
    ensures
        line_text(s, from, end).len() <= end - from,
    decreases end - from,
{
    if from < end {
        if s[from] == CARRIAGE_RETURN {
            lemma_line_len(s, line_end_next(s, from, end), end);
        } else {
            lemma_line_len(s, from + 1, end);
        }
    }
}

/// The text of a range depends only on the bytes of the range.
pub proof fn lemma_line_same(s: Seq<u8>, t: Seq<u8>, from: int, end: int)
    requires
        s.len() == t.len(),
        0 <= from,
        end <= s.len(),
        forall|j: int| from <= j < end ==> #[trigger] s[j] == t[j],
    ensures
        line_text(s, from, end) == line_text(t, from, end),
    decreases end - from,
{
    if from < end {
        assert(s[from] == t[from]);
        if from + 1 < end {
            assert(s[from + 1] == t[from + 1]);
        }
        if s[from] == CARRIAGE_RETURN {
            lemma_line_same(s, t, line_end_next(s, from, end), end);
        } else {
            lemma_line_same(s, t, from + 1, end);
        }
    }
}

/// Replaces the line endings of `[start, end)` in place and returns the end
/// of the text, which starts at `start`.
pub fn normalize_line_endings(buf: &mut Vec<u8>, start: usize, end: usize) -> (new_end: usize)
    requires
        start <= end <= old(buf).len(),
    ensures
        start <= new_end <= end,
        new_end == start + line_text(old(buf)@, start as int, end as int).len(),
        final(buf)@ == overwrite(
            old(buf)@,
            start as int,
            line_text(old(buf)@, start as int, end as int),
        ),
{
    let ghost orig = buf@;
    let ghost mut emitted: Seq<u8> = Seq::empty();
    let mut from = start;
    let mut to = start;
    proof {
        assert(emitted + line_text(orig, from as int, end as int) =~= line_text(
            orig,
            start as int,
            end as int,
        ));
        lemma_overwrite_is(orig, start as int, emitted, orig);
    }
    while from < end
        invariant
            start <= to <= from <= end <= orig.len(),
            emitted.len() == to - start,
            buf@ == overwrite(orig, start as int, emitted),
            emitted + line_text(orig, from as int, end as int) == line_text(
                orig,
                start as int,
                end as int,
            ),
        decreases end - from,
    {
        let next_pos = match scan_range_for_char(buf, from, end, CARRIAGE_RETURN) {
            Some(p) => p,
            None => end,
        };
        proof {
            let stop = Stop::Byte(CARRIAGE_RETURN);
            lemma_unread(orig, start as int, emitted, from as int, end as int);
            lemma_first_stop(orig, from as int, end as int, stop);
            assert(next_pos == first_stop(orig, from as int, end as int, stop));
            assert forall|j: int| from <= j < next_pos implies #[trigger] orig[j]
                != CARRIAGE_RETURN by {
                assert(!stops_at(stop, orig[j]));
            }
            lemma_line_run(orig, from as int, next_pos as int, end as int);
        }
        if next_pos > from {
            let ghost run = orig.subrange(from as int, next_pos as int);
            proof {
                lemma_unread(orig, start as int, emitted, from as int, next_pos as int);
            }
            copy_run(buf, from, next_pos, to);
            proof {
                lemma_emit(orig, start as int, emitted, run);
                lemma_concat_assoc(emitted, run, line_text(orig, next_pos as int, end as int));
                emitted = emitted + run;
            }
            to = to + (next_pos - from);
        }
        if next_pos >= end {
            from = end;
        } else {
            proof {
                lemma_unread(orig, start as int, emitted, next_pos as int, end as int);
                if next_pos + 1 < end {
                    lemma_unread(orig, start as int, emitted, next_pos + 1, end as int);
                }
            }
            let new_from = if next_pos + 1 < end && buf[next_pos + 1] == NEWLINE {
                next_pos + 2
            } else {
                next_pos + 1
            };
            let ghost before = buf@;
            buf[to] = NEWLINE;
            proof {
                let piece = seq![NEWLINE];
                lemma_overwrite_is(before, to as int, piece, buf@);
                lemma_emit(orig, start as int, emitted, piece);
                lemma_concat_assoc(emitted, piece, line_text(orig, new_from as int, end as int));
                emitted = emitted + piece;
            }
            to = to + 1;
            from = new_from;
        }
    }
    proof {
        assert(emitted + Seq::<u8>::empty() =~= emitted);
    }
    to
}

/// The end of `[start, end)` once the white space at its end is left out.
pub open spec fn trimmed_end(s: Seq<u8>, start: int, end: int) -> int
    decreases end - start,
{
    if start < end && is_space(s[end - 1]) {
        trimmed_end(s, start, end - 1)
    } else {
        end
    }
}

/// The trimmed end of a range depends only on the bytes of the range.
pub proof fn lemma_trimmed_end_same(s: Seq<u8>, t: Seq<u8>, start: int, end: int)
    requires
        0 <= start,
        end <= s.len() == t.len(),
        forall|j: int| start <= j < end ==> #[trigger] s[j] == t[j],
    ensures
        trimmed_end(s, start, end) == trimmed_end(t, start, end),
    decreases end - start,
{
    if start < end {
        assert(s[end - 1] == t[end - 1]);
        if is_space(s[end - 1]) {
            lemma_trimmed_end_same(s, t, start, end - 1);
        }
    }
}

/// The end of `[start, end)` once the white space at its end is left out.
pub fn trim_the_ending_whitespaces(buf: &Vec<u8>, start: usize, end: usize) -> (new_end: usize)
    requires
        start <= end <= buf.len(),
    ensures
        start <= new_end <= end,
        new_end == trimmed_end(buf@, start as int, end as int),
{
    let mut e = end;
    while e > start && is_of_type(buf[e - 1], Chartype::Space)
        invariant
            start <= e <= end <= buf.len(),
            trimmed_end(buf@, start as int, e as int) == trimmed_end(
                buf@,
                start as int,
                end as int,
            ),
        decreases e - start,
    {
        e -= 1;
    }
    e
}

/// The name written in `[start, end)` without its namespace prefix: what
/// follows the first `:`, or all of it where it holds none.
pub open spec fn local_name(s: Seq<u8>, start: int, end: int) -> Seq<u8> {
    match find_in(s, start, end, Stop::Byte(COLON)) {
        Some(colon) => s.subrange(colon + 1, end),
        None => s.subrange(start, end),
    }
}

/// A name without `:` stands for itself.
pub proof fn lemma_local_name_plain(s: Seq<u8>, start: int, end: int)
    requires
        0 <= start <= end <= s.len(),
        forall|j: int| start <= j < end ==> #[trigger] s[j] != COLON,
    ensures
        local_name(s, start, end) == s.subrange(start, end),
{
    lemma_first_stop(s, start, end, Stop::Byte(COLON));
}

/// A name without its prefix is no longer than with it.
pub proof fn lemma_local_name(s: Seq<u8>, start: int, end: int)
    requires
        0 <= start <= end <= s.len(),
    ensures
        local_name(s, start, end).len() <= end - start,
{
    lemma_first_stop(s, start, end, Stop::Byte(COLON));
}

/// A name depends only on the bytes of its range.
pub proof fn lemma_local_name_same(s: Seq<u8>, t: Seq<u8>, start: int, end: int)
    requires
        0 <= start <= end <= s.len(),
        s.len() == t.len(),
        forall|j: int| start <= j < end ==> #[trigger] s[j] == t[j],
    ensures
        local_name(s, start, end) == local_name(t, start, end),
        s.subrange(start, end) == t.subrange(start, end),
{
    let stop = Stop::Byte(COLON);
    lemma_first_stop(s, start, end, stop);
    lemma_first_stop_same(s, t, start, end, stop);
    assert(s.subrange(start, end) =~= t.subrange(start, end));
    if let Some(colon) = find_in(s, start, end, stop) {
        assert(s.subrange(colon + 1, end) =~= t.subrange(colon + 1, end));
    }
}

/// Moves the name written in `[start, end)` over its namespace prefix and
/// returns the end of the name, which starts at `start`.
pub fn remove_namespace_prefix(buf: &mut Vec<u8>, start: usize, end: usize) -> (new_end: usize)
    requires
        start <= end <= old(buf).len(),
    ensures
        start <= new_end <= end,
        new_end == start + local_name(old(buf)@, start as int, end as int).len(),
        final(buf)@ == overwrite(
            old(buf)@,
            start as int,
            local_name(old(buf)@, start as int, end as int),
        ),
{
    proof {
        lemma_first_stop(buf@, start as int, end as int, Stop::Byte(COLON));
    }
    match scan_range_for_char(buf, start, end, COLON) {
        Some(colon) => {
            move_bytes(buf, colon + 1, end, start);
            start + (end - colon - 1)
        },
        None => {
            proof {
                lemma_overwrite_same(buf@, start as int, end as int);
            }
            end
        },
    }
}

} // verus!
