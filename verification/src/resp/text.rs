//! Decimal numbers as they appear on the wire: how an integer is written in
//! ASCII digits and how a run of bytes is read back as one.

use vstd::prelude::*;
use vstd::string::StringSliceAdditionalSpecFns;
use vstd::string::StringExecFns;
use vstd::utf8::{
    decode_utf8,
    encode_utf8,
    encode_utf8_decode_utf8,
    encode_utf8_valid_utf8,
    is_char_boundary,
    is_char_boundary_iff_not_is_continuation_byte,
    is_char_boundary_start_end_of_seq,
    valid_utf8,
    valid_utf8_split,
};

verus! {

/// The byte `0`, the least digit.
pub const ZERO: u8 = 48;

/// The byte `9`, the greatest digit.
pub const NINE: u8 = 57;

/// The byte `-`, the sign of a negative number.
pub const MINUS: u8 = 45;

/// The byte `+`, the sign that a number may carry.
pub const PLUS: u8 = 43;

/// Whether `b` is an ASCII decimal digit.
pub open spec fn is_digit(b: u8) -> bool {
    ZERO <= b <= NINE
}

/// Whether every byte of `s` is an ASCII decimal digit.
pub open spec fn all_digits(s: Seq<u8>) -> bool {
    forall|i: int| 0 <= i < s.len() ==> is_digit(#[trigger] s[i])
}

/// The number that a run of digits denotes, most significant digit first.
pub open spec fn digits_value(s: Seq<u8>) -> nat
    decreases s.len(),
{
    if s.len() == 0 {
        0
    } else {
        digits_value(s.drop_last()) * 10 + (s.last() - ZERO) as nat
    }
}

/// The digits of `n` without leading zeros; zero is the single digit `0`.
pub open spec fn decimal_digits(n: nat) -> Seq<u8>
    decreases n,
{
    if n < 10 {
        seq![(ZERO + n) as u8]
    } else {
        decimal_digits(n / 10).push((ZERO + n % 10) as u8)
    }
}

/// The decimal text of `n`: a minus sign for negative numbers, then the
/// digits of the magnitude.
pub open spec fn decimal(n: int) -> Seq<u8> {
    if n < 0 {
        seq![MINUS] + decimal_digits((-n) as nat)
    } else {
        decimal_digits(n as nat)
    }
}

/// The digits of a signed decimal text: what follows an optional leading
/// `+` or `-`.
pub open spec fn unsigned_part(s: Seq<u8>) -> Seq<u8> {
    if s.len() > 0 && (s[0] == MINUS || s[0] == PLUS) {
        s.skip(1)
    } else {
        s
    }
}

/// The integer that a signed decimal text denotes, ignoring any bound on
/// its size.
pub open spec fn signed_value(s: Seq<u8>) -> int {
    if s.len() > 0 && s[0] == MINUS {
        -(digits_value(unsigned_part(s)) as int)
    } else {
        digits_value(unsigned_part(s)) as int
    }
}

/// Reads a signed 64-bit integer: an optional `+` or `-`, then one or more
/// digits, whose value fits the type. Anything else is no number.
pub open spec fn parse_decimal(s: Seq<u8>) -> Option<i64> {
    if unsigned_part(s).len() > 0 && all_digits(unsigned_part(s)) && i64::MIN <= signed_value(s)
        <= i64::MAX {
        Some(signed_value(s) as i64)
    } else {
        None
    }
}

/// A run of digits denotes at least what any of its prefixes denotes.
pub proof fn lemma_digits_value_monotone(s: Seq<u8>, k: int)
    requires
        all_digits(s),
        0 <= k <= s.len(),
    ensures
        digits_value(s.subrange(0, k)) <= digits_value(s),
    decreases s.len(),
{
    if k == s.len() {
        assert(s.subrange(0, k) =~= s);
    } else {
        let front = s.drop_last();
        assert(all_digits(front)) by {
            assert forall|i: int| 0 <= i < front.len() implies is_digit(#[trigger] front[i]) by {
                assert(front[i] == s[i]);
            }
        }
        lemma_digits_value_monotone(front, k);
        assert(front.subrange(0, k) =~= s.subrange(0, k));
        assert(is_digit(s[s.len() - 1]));
    }
}

/// What one more digit adds to the value of a run.
pub proof fn lemma_digits_value_push(s: Seq<u8>, d: u8)
    ensures
        digits_value(s.push(d)) == digits_value(s) * 10 + (d - ZERO) as nat,
{
    assert(s.push(d).drop_last() =~= s);
}

/// The digits written for `n` are digits, at least one of them, and read
/// back as `n`.
pub proof fn lemma_decimal_digits(n: nat)
    ensures
        decimal_digits(n).len() > 0,
        all_digits(decimal_digits(n)),
        digits_value(decimal_digits(n)) == n,
    decreases n,
{
    if n < 10 {
        let s = seq![(ZERO + n) as u8];
        assert(s.drop_last() =~= Seq::<u8>::empty());
        assert(digits_value(s.drop_last()) == 0);
        assert(s.last() == (ZERO + n) as u8);
    } else {
        lemma_decimal_digits(n / 10);
        let front = decimal_digits(n / 10);
        let d = (ZERO + n % 10) as u8;
        lemma_digits_value_push(front, d);
        assert forall|i: int| 0 <= i < front.push(d).len() implies is_digit(
            #[trigger] front.push(d)[i],
        ) by {
            if i < front.len() {
                assert(front.push(d)[i] == front[i]);
            }
        }
    }
}

/// The decimal text of a 64-bit integer reads back as that integer.
pub proof fn lemma_parse_decimal_of_decimal(n: i64)
    ensures
        parse_decimal(decimal(n as int)) == Some(n),
{
    if n < 0 {
        let m = (-n) as nat;
        lemma_decimal_digits(m);
        let s = decimal(n as int);
        assert(s[0] == MINUS);
        assert(s.skip(1) =~= decimal_digits(m));
    } else {
        lemma_decimal_digits(n as nat);
        let s = decimal(n as int);
        assert(is_digit(s[0]));
    }
}

/// A decimal text is never empty and holds only digits and the minus sign.
pub proof fn lemma_decimal_bytes(n: int)
    ensures
        decimal(n).len() > 0,
        forall|i: int| 0 <= i < decimal(n).len() ==> (is_digit(#[trigger] decimal(n)[i]) || decimal(n)[i] == MINUS),
{
    if n < 0 {
        lemma_decimal_digits((-n) as nat);
        let digits = decimal_digits((-n) as nat);
        assert forall|i: int| 0 <= i < decimal(n).len() implies (is_digit(#[trigger] decimal(n)[i])
            || decimal(n)[i] == MINUS) by {
            if i > 0 {
                assert(decimal(n)[i] == digits[i - 1]);
            }
        }
    } else {
        lemma_decimal_digits(n as nat);
    }
}

/// Appends the digits of `n` to `out`.
pub fn push_digits(out: &mut Vec<u8>, n: u64)
    ensures
        final(out)@ == old(out)@ + decimal_digits(n as nat),
    decreases n,
{
    if n >= 10 {
        push_digits(out, n / 10);
        let d: u8 = ZERO + (n % 10) as u8;
        out.push(d);
        assert(out@ =~= old(out)@ + decimal_digits(n as nat));
    } else {
        let d: u8 = ZERO + n as u8;
        out.push(d);
        assert(out@ =~= old(out)@ + decimal_digits(n as nat));
    }
}

/// Appends the decimal text of `n` to `out`.
pub fn push_decimal(out: &mut Vec<u8>, n: i64)
    ensures
        final(out)@ == old(out)@ + decimal(n as int),
{
    if n < 0 {
        out.push(MINUS);
        let magnitude: u64 = if n == i64::MIN {
            9223372036854775808u64
        } else {
            (-n) as u64
        };
        push_digits(out, magnitude);
        assert(out@ =~= old(out)@ + decimal(n as int));
    } else {
        push_digits(out, n as u64);
    }
}

/// Reads the bytes of `text` from `start` up to `end` as a signed 64-bit
/// integer.
pub fn read_decimal(text: &[u8], start: usize, end: usize) -> (r: Option<i64>)
    requires
        start <= end <= text@.len(),
    ensures
        r == parse_decimal(text@.subrange(start as int, end as int)),
{
    let ghost s = text@.subrange(start as int, end as int);
    let mut i: usize = start;
    let mut negative = false;
    if start < end && (text[start] == MINUS || text[start] == PLUS) {
        negative = text[start] == MINUS;
        i = start + 1;
    }
    let ghost body = unsigned_part(s);
    let first: usize = i;
    assert(body =~= text@.subrange(first as int, end as int));
    if i == end {
        return None;
    }
    let limit: u64 = if negative {
        9223372036854775808u64
    } else {
        9223372036854775807u64
    };
    let mut acc: u64 = 0;
    assert(body.subrange(0, 0) =~= Seq::<u8>::empty());
    while i < end
        invariant
            start <= first <= i <= end <= text@.len(),
            s == text@.subrange(start as int, end as int),
            body == unsigned_part(s),
            body == text@.subrange(first as int, end as int),
            negative == (s.len() > 0 && s[0] == MINUS),
            all_digits(body.subrange(0, i - first)),
            acc == digits_value(body.subrange(0, i - first)),
            acc <= limit,
            limit == if negative { 9223372036854775808u64 } else { 9223372036854775807u64 },
        decreases end - i,
    {
        let b = text[i];
        let ghost seen = body.subrange(0, i - first);
        let ghost next = body.subrange(0, i - first + 1);
        assert(body[i - first] == b);
        assert(next =~= seen.push(b));
        if !(ZERO <= b && b <= NINE) {
            return None;
        }
        let d: u64 = (b - ZERO) as u64;
        proof {
            lemma_digits_value_push(seen, b);
            assert forall|j: int| 0 <= j < next.len() implies is_digit(#[trigger] next[j]) by {
                if j < seen.len() {
                    assert(next[j] == seen[j]);
                }
            }
        }
        if acc > (limit - d) / 10 {
            proof {
                if all_digits(body) {
                    lemma_digits_value_monotone(body, i - first + 1);
                }
            }
            return None;
        }
        acc = acc * 10 + d;
        i = i + 1;
    }
    assert(body.subrange(0, i - first) =~= body);
    if negative {
        if acc == 9223372036854775808u64 {
            Some(i64::MIN)
        } else {
            Some(-(acc as i64))
        }
    } else {
        Some(acc as i64)
    }
}

/// Tells whether two texts are the same, character by character.
pub fn same_text(a: &str, b: &str) -> (r: bool)
    ensures
        r == (a@ == b@),
{
    let x = a.as_bytes();
    let y = b.as_bytes();
    proof {
        encode_utf8_decode_utf8(a@);
        encode_utf8_decode_utf8(b@);
    }
    if x.len() != y.len() {
        return false;
    }
    let mut i: usize = 0;
    while i < x.len()
        invariant
            i <= x@.len(),
            x@.len() == y@.len(),
            x@ == a.spec_bytes(),
            y@ == b.spec_bytes(),
            forall|j: int| 0 <= j < i ==> x@[j] == y@[j],
        decreases x.len() - i,
    {
        if x[i] != y[i] {
            return false;
        }
        i = i + 1;
    }
    assert(x@ =~= y@);
    true
}

/// A character boundary of a text is one of each prefix that reaches it,
/// where the prefix ends on a boundary too.
pub proof fn lemma_boundary_in_prefix(bytes: Seq<u8>, lo: int, hi: int)
    requires
        valid_utf8(bytes),
        0 <= lo <= hi <= bytes.len(),
        is_char_boundary(bytes, lo),
        is_char_boundary(bytes, hi),
    ensures
        valid_utf8(bytes.subrange(0, hi)),
        is_char_boundary(bytes.subrange(0, hi), lo),
{
    let prefix = bytes.subrange(0, hi);
    valid_utf8_split(bytes, hi);
    if lo == hi {
        is_char_boundary_start_end_of_seq(prefix);
    } else {
        is_char_boundary_iff_not_is_continuation_byte(bytes, lo);
        is_char_boundary_iff_not_is_continuation_byte(prefix, lo);
        assert(prefix[lo] == bytes[lo]);
    }
}

/// The bytes from `lo` up to `hi` of `text`, as a text of their own.
pub fn slice_text(text: &str, lo: usize, hi: usize) -> (r: String)
    requires
        lo <= hi <= text.spec_bytes().len(),
        is_char_boundary(text.spec_bytes(), lo as int),
        is_char_boundary(text.spec_bytes(), hi as int),
    ensures
        r@ == decode_utf8(text.spec_bytes().subrange(lo as int, hi as int)),
{
    let ghost bytes = text.spec_bytes();
    proof {
        encode_utf8_valid_utf8(text@);
        lemma_boundary_in_prefix(bytes, lo as int, hi as int);
    }
    let (head, _) = text.split_at(hi);
    let (_, middle) = head.split_at(lo);
    proof {
        assert(middle.spec_bytes() =~= bytes.subrange(lo as int, hi as int));
        encode_utf8_decode_utf8(middle@);
    }
    middle.to_owned()
}

/// A byte offset kept within a text of `len` bytes: a negative one counts
/// as zero, and one behind the end as the end.
pub open spec fn clamp_offset(offset: i64, len: nat) -> int {
    if offset < 0 {
        0
    } else if offset > len {
        len as int
    } else {
        offset as int
    }
}

/// The bytes from `start` up to `end` of `text` as a text. Both bounds are
/// kept within the text, and an end before the start gives the empty text.
/// There is no such text where a bound would cut a character in two.
pub open spec fn range_of(text: Seq<char>, start: i64, end: i64) -> Option<Seq<char>> {
    let bytes = encode_utf8(text);
    let lo = clamp_offset(start, bytes.len());
    let hi = if clamp_offset(end, bytes.len()) < lo {
        lo
    } else {
        clamp_offset(end, bytes.len())
    };
    if is_char_boundary(bytes, lo) && is_char_boundary(bytes, hi) {
        Some(decode_utf8(bytes.subrange(lo, hi)))
    } else {
        None
    }
}

/// A run of `n` spaces.
pub open spec fn spaces(n: nat) -> Seq<char> {
    Seq::new(n, |i: int| ' ')
}

/// The text `before` with `patch` written over it from the byte offset
/// `at` on: what stands before `at` stays, padded with spaces where the
/// text is shorter than that; then comes `patch`; then what stood behind
/// the bytes that `patch` covers. There is no such text where `patch`
/// would begin or end inside a character.
pub open spec fn overwrite(before: Seq<char>, at: nat, patch: Seq<char>) -> Option<Seq<char>> {
    let bytes = encode_utf8(before);
    let len = bytes.len() as int;
    let head_end = if at < len {
        at as int
    } else {
        len
    };
    let tail_start = if at + encode_utf8(patch).len() < len {
        (at + encode_utf8(patch).len()) as int
    } else {
        len
    };
    if is_char_boundary(bytes, head_end) && is_char_boundary(bytes, tail_start) {
        Some(
            decode_utf8(bytes.subrange(0, head_end)) + spaces((at - head_end) as nat) + patch
                + decode_utf8(bytes.subrange(tail_start, len)),
        )
    } else {
        None
    }
}

/// Keeps a byte offset within a text of `len` bytes.
pub fn clamp_to(offset: i64, len: usize) -> (r: usize)
    ensures
        r == clamp_offset(offset, len as nat),
{
    if offset < 0 {
        0
    } else if offset as u64 > len as u64 {
        len
    } else {
        offset as usize
    }
}

/// Cuts the bytes from `start` up to `end` out of `text`.
pub fn range_text(text: &str, start: i64, end: i64) -> (r: Option<String>)
    ensures
        match range_of(text@, start, end) {
            Some(part) => r is Some && r->Some_0@ == part,
            None => r is None,
        },
{
    let len = text.as_bytes().len();
    let lo = clamp_to(start, len);
    let upper = clamp_to(end, len);
    let hi = if upper < lo {
        lo
    } else {
        upper
    };
    if text.is_char_boundary(lo) && text.is_char_boundary(hi) {
        Some(slice_text(text, lo, hi))
    } else {
        None
    }
}

/// Writes `patch` over `before` from the byte offset `at` on.
pub fn overwrite_text(before: &str, at: u64, patch: &str) -> (r: Option<String>)
    ensures
        match overwrite(before@, at as nat, patch@) {
            Some(joined) => r is Some && r->Some_0@ == joined,
            None => r is None,
        },
{
    let len = before.as_bytes().len();
    let width = patch.as_bytes().len();
    let head_end: usize = if at < len as u64 {
        at as usize
    } else {
        len
    };
    let tail_start: usize = if at < len as u64 && width < len - (at as usize) {
        at as usize + width
    } else {
        len
    };
    if !before.is_char_boundary(head_end) || !before.is_char_boundary(tail_start) {
        return None;
    }
    proof {
        encode_utf8_valid_utf8(before@);
        is_char_boundary_start_end_of_seq(before.spec_bytes());
    }
    let mut joined = slice_text(before, 0, head_end);
    let ghost head = joined@;
    let pad: u64 = at - head_end as u64;
    let mut i: u64 = 0;
    assert(head + spaces(0) =~= head);
    while i < pad
        invariant
            i <= pad,
            joined@ == head + spaces(i as nat),
        decreases pad - i,
    {
        proof {
            reveal_strlit(" ");
            assert(" "@ =~= seq![' ']);
            assert(head + spaces(i as nat) + seq![' '] =~= head + spaces((i + 1) as nat));
        }
        joined.append(" ");
        i = i + 1;
    }
    joined.append(patch);
    let tail = slice_text(before, tail_start, len);
    joined.append(tail.as_str());
    Some(joined)
}

} // verus!
