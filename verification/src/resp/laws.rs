//! What holds of the codec as a whole: decoding looks at no byte behind the
//! frame, a cut frame is incomplete and never malformed, frames in a row
//! come back in order, and decoding undoes encoding.

use vstd::prelude::*;
use vstd::utf8::{encode_utf8, encode_utf8_decode_utf8, encode_utf8_valid_utf8};
use crate::resp::lines::{
    crlf,
    crlf_at,
    first_crlf,
    lemma_first_crlf,
    lemma_first_crlf_cut,
    lemma_first_crlf_is,
    lemma_first_crlf_local,
    no_crlf,
    CR,
    LF,
};
use crate::resp::protocol::{
    decode,
    decode_items,
    encode,
    encode_all,
    lemma_decode_bounds,
    lemma_decode_items_bounds,
    DecodeError,
    Frame,
    ARRAY,
    BULK,
};
use crate::resp::text::{
    decimal,
    is_digit,
    lemma_decimal_bytes,
    lemma_parse_decimal_of_decimal,
    parse_decimal,
    MINUS,
};

verus! {

/// Whether `t` starts with the same `n` bytes as `s`.
pub open spec fn agree(s: Seq<u8>, t: Seq<u8>, n: int) -> bool {
    n <= s.len() && n <= t.len() && forall|i: int| 0 <= i < n ==> s[i] == t[i]
}

/// Decoding looks at no byte behind the frame that it finds: bytes that
/// start with the same frame decode to it too.
pub proof fn lemma_decode_local(s: Seq<u8>, t: Seq<u8>)
    requires
        decode(s) is Ok,
        agree(s, t, decode(s)->Ok_0.1),
    ensures
        decode(t) == decode(s),
    decreases s.len(), 0nat,
{
    lemma_decode_bounds(s);
    lemma_first_crlf(s.skip(1));
    let k = first_crlf(s.skip(1))->Some_0;
    let header = k + 3;
    assert(s[0] == t[0]);
    assert(first_crlf(t.skip(1)) == Some(k)) by {
        assert forall|j: int| 0 <= j < k + 2 implies s.skip(1)[j] == t.skip(1)[j] by {
            assert(s.skip(1)[j] == s[j + 1]);
            assert(t.skip(1)[j] == t[j + 1]);
        }
        lemma_first_crlf_local(s.skip(1), t.skip(1), k);
    }
    assert(s.subrange(1, 1 + k) =~= t.subrange(1, 1 + k));
    if s[0] == BULK {
        let len = parse_decimal(s.subrange(1, 1 + k))->Some_0 as int;
        if len >= 0 {
            assert(s.subrange(header, header + len) =~= t.subrange(header, header + len));
        }
    } else if s[0] == ARRAY {
        let count = parse_decimal(s.subrange(1, 1 + k))->Some_0;
        if count >= 0 {
            let used = decode_items(s.skip(header), count as nat)->Ok_0.1;
            assert(agree(s.skip(header), t.skip(header), used)) by {
                assert forall|i: int| 0 <= i < used implies s.skip(header)[i] == t.skip(header)[i] by {
                    assert(s.skip(header)[i] == s[header + i]);
                    assert(t.skip(header)[i] == t[header + i]);
                }
            }
            lemma_decode_items_local(s.skip(header), t.skip(header), count as nat);
        }
    }
}

/// A run of items is decoded from its own bytes alone.
pub proof fn lemma_decode_items_local(s: Seq<u8>, t: Seq<u8>, count: nat)
    requires
        decode_items(s, count) is Ok,
        agree(s, t, decode_items(s, count)->Ok_0.1),
    ensures
        decode_items(t, count) == decode_items(s, count),
    decreases s.len(), count,
{
    if count > 0 {
        lemma_decode_bounds(s);
        let used = decode(s)->Ok_0.1;
        lemma_decode_items_bounds(s.skip(used), (count - 1) as nat);
        let more = decode_items(s.skip(used), (count - 1) as nat)->Ok_0.1;
        lemma_decode_local(s, t);
        assert(agree(s.skip(used), t.skip(used), more)) by {
            assert forall|i: int| 0 <= i < more implies s.skip(used)[i] == t.skip(used)[i] by {
                assert(s.skip(used)[i] == s[used + i]);
                assert(t.skip(used)[i] == t[used + i]);
            }
        }
        lemma_decode_items_local(s.skip(used), t.skip(used), (count - 1) as nat);
    }
}

/// Whether `r` is the failure that asks for more bytes.
pub open spec fn is_incomplete<T>(r: Result<T, DecodeError>) -> bool {
    r is Err && r->Err_0 is Incomplete
}

/// A frame that is cut short is incomplete, never malformed: if `s` starts
/// with a frame, every prefix of `s` that ends inside that frame (the empty
/// one too) asks for more bytes.
pub proof fn lemma_decode_prefix(s: Seq<u8>, len: int)
    requires
        decode(s) is Ok,
        0 <= len < decode(s)->Ok_0.1,
    ensures
        is_incomplete(decode(s.subrange(0, len))),
    decreases s.len(), 0nat,
{
    lemma_decode_bounds(s);
    lemma_first_crlf(s.skip(1));
    let p = s.subrange(0, len);
    let k = first_crlf(s.skip(1))->Some_0;
    let header = k + 3;
    if len == 0 {
    } else if len < header {
        assert(p[0] == s[0]);
        assert(p.skip(1) =~= s.skip(1).subrange(0, len - 1));
        lemma_first_crlf_cut(s.skip(1), k, len - 1);
    } else {
        assert(p[0] == s[0]);
        assert(first_crlf(p.skip(1)) == Some(k)) by {
            assert forall|j: int| 0 <= j < k + 2 implies s.skip(1)[j] == p.skip(1)[j] by {
                assert(s.skip(1)[j] == s[j + 1]);
                assert(p.skip(1)[j] == p[j + 1]);
            }
            lemma_first_crlf_local(s.skip(1), p.skip(1), k);
        }
        assert(s.subrange(1, 1 + k) =~= p.subrange(1, 1 + k));
        if s[0] == ARRAY {
            let count = parse_decimal(s.subrange(1, 1 + k))->Some_0;
            assert(p.skip(header) =~= s.skip(header).subrange(0, len - header));
            lemma_decode_items_prefix(s.skip(header), count as nat, len - header);
        }
    }
}

/// A run of items that is cut short is incomplete, never malformed.
pub proof fn lemma_decode_items_prefix(s: Seq<u8>, count: nat, len: int)
    requires
        decode_items(s, count) is Ok,
        0 <= len < decode_items(s, count)->Ok_0.1,
    ensures
        is_incomplete(decode_items(s.subrange(0, len), count)),
    decreases s.len(), count,
{
    if count > 0 {
        lemma_decode_bounds(s);
        lemma_decode_items_bounds(s, count);
        let p = s.subrange(0, len);
        let used = decode(s)->Ok_0.1;
        if len < used {
            lemma_decode_prefix(s, len);
        } else {
            assert(agree(s, p, used));
            lemma_decode_local(s, p);
            assert(p.skip(used) =~= s.skip(used).subrange(0, len - used));
            lemma_decode_items_prefix(s.skip(used), (count - 1) as nat, len - used);
        }
    }
}

/// Frames that stand in a row come back in order: where `a` and `b` are
/// each the bytes of one frame, decoding `a + b` finds the frame of `a`,
/// and decoding again behind it finds the frame of `b`.
pub proof fn lemma_decode_pipelined(a: Seq<u8>, b: Seq<u8>)
    requires
        decode(a) is Ok,
        decode(a)->Ok_0.1 == a.len(),
        decode(b) is Ok,
    ensures
        decode(a + b) == decode(a),
        decode((a + b).skip(decode(a + b)->Ok_0.1)) == decode(b),
{
    assert(agree(a, a + b, a.len() as int));
    lemma_decode_local(a, a + b);
    assert((a + b).skip(a.len() as int) =~= b);
}

/// Whether decoding can give `f` back from its wire form: a status or
/// error text holds no line terminator, which would end its line early, and
/// the lengths and counts that headers carry fit a signed 64-bit integer.
pub open spec fn wire_safe(f: Frame) -> bool
    decreases f,
{
    match f {
        Frame::SimpleStatus(s) => no_crlf(encode_utf8(s)),
        Frame::Error(s) => no_crlf(encode_utf8(s)),
        Frame::Integer(_) => true,
        Frame::BulkData(Some(s)) => encode_utf8(s).len() <= i64::MAX,
        Frame::BulkData(None) => true,
        Frame::Array(items) => items.len() <= i64::MAX && forall|i: int|
            0 <= i < items.len() ==> wire_safe(#[trigger] items[i]),
    }
}

/// A line without terminator inside, followed by one, ends there.
pub proof fn lemma_line_end(line: Seq<u8>, rest: Seq<u8>)
    requires
        no_crlf(line),
    ensures
        first_crlf(line + crlf() + rest) == Some(line.len() as int),
{
    let s = line + crlf() + rest;
    let n = line.len() as int;
    assert(s[n] == CR && s[n + 1] == LF);
    assert forall|j: int| 0 <= j < n implies !#[trigger] crlf_at(s, j) by {
        if j + 1 < n {
            assert(s[j] == line[j] && s[j + 1] == line[j + 1]);
            assert(!crlf_at(line, j));
        }
    }
    lemma_first_crlf_is(s, n);
}

/// A decimal text holds no line terminator.
pub proof fn lemma_decimal_no_crlf(n: int)
    ensures
        no_crlf(decimal(n)),
{
    lemma_decimal_bytes(n);
    assert forall|j: int| !#[trigger] crlf_at(decimal(n), j) by {
        if 0 <= j < decimal(n).len() {
            assert(is_digit(decimal(n)[j]) || decimal(n)[j] == MINUS);
        }
    }
}

/// Decoding undoes encoding: the wire form of a frame decodes to that
/// frame and to its whole length.
pub proof fn lemma_decode_encode(f: Frame)
    requires
        wire_safe(f),
    ensures
        decode(encode(f)) == Ok::<(Frame, int), DecodeError>((f, encode(f).len() as int)),
    decreases f,
{
    let s = encode(f);
    match f {
        Frame::SimpleStatus(text) => {
            let line = encode_utf8(text);
            lemma_line_end(line, Seq::empty());
            assert(s.skip(1) =~= line + crlf() + Seq::<u8>::empty());
            assert(s.subrange(1, 1 + line.len() as int) =~= line);
            encode_utf8_valid_utf8(text);
            encode_utf8_decode_utf8(text);
        },
        Frame::Error(text) => {
            let line = encode_utf8(text);
            lemma_line_end(line, Seq::empty());
            assert(s.skip(1) =~= line + crlf() + Seq::<u8>::empty());
            assert(s.subrange(1, 1 + line.len() as int) =~= line);
            encode_utf8_valid_utf8(text);
            encode_utf8_decode_utf8(text);
        },
        Frame::Integer(n) => {
            let line = decimal(n as int);
            lemma_decimal_no_crlf(n as int);
            lemma_line_end(line, Seq::empty());
            assert(s.skip(1) =~= line + crlf() + Seq::<u8>::empty());
            assert(s.subrange(1, 1 + line.len() as int) =~= line);
            lemma_parse_decimal_of_decimal(n);
        },
        Frame::BulkData(Some(text)) => {
            let payload = encode_utf8(text);
            let line = decimal(payload.len() as int);
            let header = line.len() as int + 3;
            lemma_decimal_no_crlf(payload.len() as int);
            lemma_line_end(line, payload + crlf());
            assert(s.skip(1) =~= line + crlf() + (payload + crlf()));
            assert(s.subrange(1, 1 + line.len() as int) =~= line);
            lemma_parse_decimal_of_decimal(payload.len() as i64);
            assert(s.subrange(header, header + payload.len() as int) =~= payload);
            encode_utf8_valid_utf8(text);
            encode_utf8_decode_utf8(text);
        },
        Frame::BulkData(None) => {
            let line = decimal(-1);
            lemma_decimal_no_crlf(-1);
            lemma_line_end(line, Seq::empty());
            assert(s.skip(1) =~= line + crlf() + Seq::<u8>::empty());
            assert(s.subrange(1, 1 + line.len() as int) =~= line);
            lemma_parse_decimal_of_decimal(-1i64);
        },
        Frame::Array(items) => {
            let line = decimal(items.len() as int);
            let header = line.len() as int + 3;
            lemma_decimal_no_crlf(items.len() as int);
            lemma_line_end(line, encode_all(items));
            assert(s.skip(1) =~= line + crlf() + encode_all(items));
            assert(s.subrange(1, 1 + line.len() as int) =~= line);
            lemma_parse_decimal_of_decimal(items.len() as i64);
            assert(s.skip(header) =~= encode_all(items));
            lemma_decode_items_encode_all(items);
        },
    }
}

/// The wire has a second form for an array without items, a negative
/// count: an array header whose count is negative decodes to the empty
/// array and takes the header alone, so that the two forms come back as
/// one value.
pub proof fn lemma_negative_count_is_empty_array(count: i64, tail: Seq<u8>)
    requires
        count < 0,
    ensures
        decode(seq![ARRAY] + decimal(count as int) + crlf() + tail) == Ok::<
            (Frame, int),
            DecodeError,
        >((Frame::Array(Seq::empty()), (decimal(count as int).len() + 3) as int)),
        encode(Frame::Array(Seq::empty())) == seq![ARRAY] + decimal(0) + crlf(),
{
    let line = decimal(count as int);
    let s = seq![ARRAY] + line + crlf() + tail;
    lemma_decimal_no_crlf(count as int);
    lemma_line_end(line, tail);
    assert(s.skip(1) =~= line + crlf() + tail);
    assert(s.subrange(1, 1 + line.len() as int) =~= line);
    lemma_parse_decimal_of_decimal(count);
    assert(encode(Frame::Array(Seq::empty())) =~= seq![ARRAY] + decimal(0) + crlf());
}

/// Decoding as many items as were encoded in a row gives them all back.
pub proof fn lemma_decode_items_encode_all(items: Seq<Frame>)
    requires
        forall|i: int| 0 <= i < items.len() ==> wire_safe(#[trigger] items[i]),
    ensures
        decode_items(encode_all(items), items.len()) == Ok::<(Seq<Frame>, int), DecodeError>(
            (items, encode_all(items).len() as int),
        ),
    decreases items,
{
    if items.len() == 0 {
        assert(items =~= Seq::<Frame>::empty());
    } else {
        let first = encode(items[0]);
        let rest = items.drop_first();
        let s = encode_all(items);
        lemma_decode_encode(items[0]);
        lemma_decode_bounds(first);
        assert(agree(first, s, first.len() as int));
        lemma_decode_local(first, s);
        assert(s.skip(first.len() as int) =~= encode_all(rest));
        assert forall|i: int| 0 <= i < rest.len() implies wire_safe(#[trigger] rest[i]) by {
            assert(rest[i] == items[i + 1]);
        }
        lemma_decode_items_encode_all(rest);
        assert(seq![items[0]] + rest =~= items);
    }
}

} // verus!
