//! The values that travel over the wire and their mathematical model.

use vstd::prelude::*;
use vstd::slice::slice_subrange;
use vstd::utf8::{decode_utf8, encode_utf8, valid_utf8};
use crate::resp::lines::{crlf, crlf_at, find_crlf, first_crlf, lemma_first_crlf, CR, LF};
use crate::resp::text::{decimal, parse_decimal, push_decimal, push_digits, read_decimal};

verus! {

/// The type byte `+` of a status.
pub const STATUS: u8 = 43;

/// The type byte `-` of an error.
pub const FAILURE: u8 = 45;

/// The type byte `:` of an integer.
pub const INTEGER: u8 = 58;

/// The type byte `$` of a bulk string.
pub const BULK: u8 = 36;

/// The type byte `*` of an array.
pub const ARRAY: u8 = 42;

/// One unit of the wire protocol, as executable data.
#[derive(Debug)]
pub enum RespType {
    SimpleString(String),
    Error(String),
    Integer(i64),
    /// `None` is the null bulk string.
    BulkString(Option<String>),
    Array(Vec<RespType>),
}

/// The mathematical value of a [`RespType`]: texts are sequences of
/// characters and arrays are sequences of frames.
pub enum Frame {
    SimpleStatus(Seq<char>),
    Error(Seq<char>),
    Integer(i64),
    BulkData(Option<Seq<char>>),
    Array(Seq<Frame>),
}

/// The value of a frame. An array has the values of its items, in their
/// order; the test on the index only shows that each item is a part of the
/// array, so that the definition is well-founded.
pub open spec fn frame_of(r: RespType) -> Frame
    decreases r,
{
    match r {
        RespType::SimpleString(s) => Frame::SimpleStatus(s@),
        RespType::Error(s) => Frame::Error(s@),
        RespType::Integer(n) => Frame::Integer(n),
        RespType::BulkString(Some(s)) => Frame::BulkData(Some(s@)),
        RespType::BulkString(None) => Frame::BulkData(None),
        RespType::Array(items) => Frame::Array(
            Seq::new(
                items@.len(),
                |i: int|
                    if 0 <= i < items@.len() {
                        frame_of(items@[i])
                    } else {
                        Frame::BulkData(None)
                    },
            ),
        ),
    }
}

impl View for RespType {
    type V = Frame;

    open spec fn view(&self) -> Frame {
        frame_of(*self)
    }
}

impl Clone for RespType {
    fn clone(&self) -> (res: Self)
        ensures
            res@ == self@,
        decreases self,
    {
        match self {
            RespType::SimpleString(s) => RespType::SimpleString(s.clone()),
            RespType::Error(s) => RespType::Error(s.clone()),
            RespType::Integer(n) => RespType::Integer(*n),
            RespType::BulkString(Some(s)) => RespType::BulkString(Some(s.clone())),
            RespType::BulkString(None) => RespType::BulkString(None),
            RespType::Array(items) => {
                let res = RespType::Array(clone_items(items));
                proof {
                    lemma_array_view(self);
                    lemma_array_view(&res);
                }
                res
            },
        }
    }
}

/// Copies a list of frames, element by element.
fn clone_items(items: &Vec<RespType>) -> (copy: Vec<RespType>)
    ensures
        views_of(copy@) == views_of(items@),
    decreases items,
{
    let mut copy: Vec<RespType> = Vec::new();
    let mut i: usize = 0;
    while i < items.len()
        invariant
            i <= items.len(),
            copy@.len() == i,
            forall|j: int| 0 <= j < i ==> copy@[j]@ == items@[j]@,
        decreases items.len() - i,
    {
        copy.push(items[i].clone());
        i += 1;
    }
    assert(views_of(copy@) =~= views_of(items@));
    copy
}

/// The text of a frame that is a bulk string and not the null one.
pub open spec fn bulk_text(frame: Frame) -> Option<Seq<char>> {
    match frame {
        Frame::BulkData(Some(text)) => Some(text),
        _ => None,
    }
}

/// The model of an optional frame.
pub open spec fn frame_opt(r: Option<RespType>) -> Option<Frame> {
    match r {
        Some(frame) => Some(frame@),
        None => None,
    }
}

/// The model of a frame or a message of failure.
pub open spec fn reply_of(r: Result<RespType, String>) -> Result<Frame, Seq<char>> {
    match r {
        Ok(frame) => Ok(frame@),
        Err(message) => Err(message@),
    }
}

/// The model of a plain value or a message of failure.
pub open spec fn outcome_of<T>(r: Result<T, String>) -> Result<T, Seq<char>> {
    match r {
        Ok(value) => Ok(value),
        Err(message) => Err(message@),
    }
}

/// Why a buffer does not yet hold a whole frame.
#[derive(Debug, Clone, Copy, PartialEq, Eq, Structural)]
pub enum Shortfall {
    /// The buffer is empty.
    EmptyInput,
    /// The first line has no terminator yet.
    NoLineEnd,
    /// The bulk string announced by the header is not all there.
    BulkString,
}

/// Why a buffer can never become a frame.
#[derive(Debug, Clone, Copy, PartialEq, Eq, Structural)]
pub enum Defect {
    /// The first byte is none of the five type bytes.
    UnknownType,
    /// A text is not valid UTF-8.
    InvalidText,
    /// A number, length or count is not a decimal integer.
    InvalidNumber,
    /// A bulk string is not followed by a line terminator.
    MissingLineEnd,
}

/// The two ways in which decoding fails: more bytes are needed, or the
/// bytes are wrong.
#[derive(Debug, Clone, Copy, PartialEq, Eq, Structural)]
pub enum DecodeError {
    Incomplete(Shortfall),
    Malformed(Defect),
}

impl DecodeError {
    /// The text that describes this failure.
    pub open spec fn message_text(self) -> Seq<char> {
        match self {
            DecodeError::Incomplete(Shortfall::EmptyInput) => "Empty input"@,
            DecodeError::Incomplete(Shortfall::NoLineEnd) => "No CRLF found"@,
            DecodeError::Incomplete(Shortfall::BulkString) => "Incomplete bulk string"@,
            DecodeError::Malformed(Defect::UnknownType) => "Unknown RESP type byte"@,
            DecodeError::Malformed(Defect::InvalidText) => "Invalid UTF-8 text"@,
            DecodeError::Malformed(Defect::InvalidNumber) => "Invalid integer"@,
            DecodeError::Malformed(Defect::MissingLineEnd) => "Missing CRLF after bulk string"@,
        }
    }

    /// Describes this failure in words.
    pub fn message(&self) -> (r: String)
        ensures
            r@ == self.message_text(),
    {
        match self {
            DecodeError::Incomplete(Shortfall::EmptyInput) => "Empty input".to_owned(),
            DecodeError::Incomplete(Shortfall::NoLineEnd) => "No CRLF found".to_owned(),
            DecodeError::Incomplete(Shortfall::BulkString) => "Incomplete bulk string".to_owned(),
            DecodeError::Malformed(Defect::UnknownType) => "Unknown RESP type byte".to_owned(),
            DecodeError::Malformed(Defect::InvalidText) => "Invalid UTF-8 text".to_owned(),
            DecodeError::Malformed(Defect::InvalidNumber) => "Invalid integer".to_owned(),
            DecodeError::Malformed(Defect::MissingLineEnd) => "Missing CRLF after bulk string".to_owned(),
        }
    }

    /// Tells whether more bytes may still complete the frame.
    pub fn is_incomplete(&self) -> (r: bool)
        ensures
            r == (*self is Incomplete),
    {
        match self {
            DecodeError::Incomplete(_) => true,
            DecodeError::Malformed(_) => false,
        }
    }
}

/// The wire form of a frame.
pub open spec fn encode(f: Frame) -> Seq<u8>
    decreases f,
{
    match f {
        Frame::SimpleStatus(s) => seq![STATUS] + encode_utf8(s) + crlf(),
        Frame::Error(s) => seq![FAILURE] + encode_utf8(s) + crlf(),
        Frame::Integer(n) => seq![INTEGER] + decimal(n as int) + crlf(),
        Frame::BulkData(Some(s)) => seq![BULK] + decimal(encode_utf8(s).len() as int) + crlf()
            + encode_utf8(s) + crlf(),
        Frame::BulkData(None) => seq![BULK] + decimal(-1) + crlf(),
        Frame::Array(items) => seq![ARRAY] + decimal(items.len() as int) + crlf() + encode_all(
            items,
        ),
    }
}

/// The wire forms of the frames of `items`, one after the other.
pub open spec fn encode_all(items: Seq<Frame>) -> Seq<u8>
    decreases items,
{
    if items.len() == 0 {
        Seq::empty()
    } else {
        encode(items[0]) + encode_all(items.drop_first())
    }
}

/// The values of a list of frames.
pub open spec fn views_of(items: Seq<RespType>) -> Seq<Frame> {
    items.map_values(|r: RespType| r@)
}

/// The value of an array is the array of the values of its items.
pub proof fn lemma_array_view(r: &RespType)
    requires
        r is Array,
    ensures
        r@ == Frame::Array(views_of(r->Array_0@)),
{
    let items = r->Array_0;
    let a = r@->Array_0;
    assert(a.len() == items@.len());
    assert(a =~= views_of(items@));
}

/// Appending one frame to a list appends its wire form.
pub proof fn lemma_encode_all_push(items: Seq<Frame>, last: Frame)
    ensures
        encode_all(items.push(last)) == encode_all(items) + encode(last),
    decreases items.len(),
{
    let all = items.push(last);
    if items.len() == 0 {
        assert(all.drop_first() =~= Seq::<Frame>::empty());
        assert(encode_all(all) =~= encode(last) + encode_all(all.drop_first()));
        assert(encode_all(items) + encode(last) =~= encode(last));
        assert(encode_all(all.drop_first()) =~= Seq::<u8>::empty());
    } else {
        lemma_encode_all_push(items.drop_first(), last);
        assert(all.drop_first() =~= items.drop_first().push(last));
        assert(encode_all(all) =~= encode_all(items) + encode(last));
    }
}

/// Appends the bytes of `src` to `out`.
pub fn append_bytes(out: &mut Vec<u8>, src: &[u8])
    ensures
        final(out)@ == old(out)@ + src@,
{
    let mut i: usize = 0;
    while i < src.len()
        invariant
            i <= src@.len(),
            out@ == old(out)@ + src@.subrange(0, i as int),
        decreases src.len() - i,
    {
        out.push(src[i]);
        i = i + 1;
        assert(out@ =~= old(out)@ + src@.subrange(0, i as int));
    }
    assert(src@.subrange(0, i as int) =~= src@);
}

/// Appends a line terminator to `out`.
fn append_crlf(out: &mut Vec<u8>)
    ensures
        final(out)@ == old(out)@ + crlf(),
{
    out.push(CR);
    out.push(LF);
    assert(out@ =~= old(out)@ + crlf());
}

/// Appends the wire form of `resp` to `out`.
fn write_frame(resp: &RespType, out: &mut Vec<u8>)
    ensures
        final(out)@ == old(out)@ + encode(resp@),
    decreases resp,
{
    match resp {
        RespType::SimpleString(s) => {
            out.push(STATUS);
            append_bytes(out, s.as_str().as_bytes());
            append_crlf(out);
            assert(out@ =~= old(out)@ + encode(resp@));
        },
        RespType::Error(s) => {
            out.push(FAILURE);
            append_bytes(out, s.as_str().as_bytes());
            append_crlf(out);
            assert(out@ =~= old(out)@ + encode(resp@));
        },
        RespType::Integer(n) => {
            out.push(INTEGER);
            push_decimal(out, *n);
            append_crlf(out);
            assert(out@ =~= old(out)@ + encode(resp@));
        },
        RespType::BulkString(Some(s)) => {
            let bytes = s.as_str().as_bytes();
            out.push(BULK);
            push_digits(out, bytes.len() as u64);
            append_crlf(out);
            append_bytes(out, bytes);
            append_crlf(out);
            assert(out@ =~= old(out)@ + encode(resp@));
        },
        RespType::BulkString(None) => {
            out.push(BULK);
            push_decimal(out, -1);
            append_crlf(out);
            assert(out@ =~= old(out)@ + encode(resp@));
        },
        RespType::Array(items) => {
            out.push(ARRAY);
            push_digits(out, items.len() as u64);
            append_crlf(out);
            write_frames(items, out);
            proof {
                lemma_array_view(resp);
            }
            assert(out@ =~= old(out)@ + encode(resp@));
        },
    }
}

/// Appends the wire forms of `items` to `out`, in order.
fn write_frames(items: &Vec<RespType>, out: &mut Vec<u8>)
    ensures
        final(out)@ == old(out)@ + encode_all(views_of(items@)),
    decreases items,
{
    let ghost frames = views_of(items@);
    let mut i: usize = 0;
    assert(frames.subrange(0, 0) =~= Seq::<Frame>::empty());
    while i < items.len()
        invariant
            i <= items@.len(),
            frames == views_of(items@),
            out@ == old(out)@ + encode_all(frames.subrange(0, i as int)),
        decreases items.len() - i,
    {
        write_frame(&items[i], out);
        proof {
            lemma_encode_all_push(frames.subrange(0, i as int), frames[i as int]);
            assert(frames.subrange(0, i + 1) =~= frames.subrange(0, i as int).push(
                frames[i as int],
            ));
        }
        i = i + 1;
        assert(out@ =~= old(out)@ + encode_all(frames.subrange(0, i as int)));
    }
    assert(frames.subrange(0, i as int) =~= frames);
}

/// Encodes a frame for the wire. Every frame has a wire form.
pub fn serialize(resp: &RespType) -> (out: Vec<u8>)
    ensures
        out@ == encode(resp@),
{
    let mut out: Vec<u8> = Vec::new();
    write_frame(resp, &mut out);
    assert(out@ =~= encode(resp@));
    out
}

/// Whether `b` is one of the five type bytes `+`, `-`, `:`, `$` and `*`.
pub open spec fn is_type_byte(b: u8) -> bool {
    b == STATUS || b == FAILURE || b == INTEGER || b == BULK || b == ARRAY
}

/// What decoding makes of the bytes `s`: the frame that stands at their
/// start with the number of bytes it takes, or the reason why there is none.
///
/// The first byte tells the type, and the line behind it, up to the first
/// line terminator, holds the text of a status or an error, the number of an
/// integer, the length of a bulk string or the count of an array. A
/// negative count is the empty array. The items of an array follow its
/// header, and the first of them that fails is the failure of the array.
///
/// A header never reaches beyond the bytes ([`lemma_decode_bounds`]); the
/// test in the array case says so where the definition needs it to be
/// well-founded.
pub open spec fn decode(s: Seq<u8>) -> Result<(Frame, int), DecodeError>
    decreases s.len(), 0nat,
{
    if s.len() == 0 {
        Err(DecodeError::Incomplete(Shortfall::EmptyInput))
    } else if !is_type_byte(s[0]) {
        Err(DecodeError::Malformed(Defect::UnknownType))
    } else {
        match first_crlf(s.skip(1)) {
            None => Err(DecodeError::Incomplete(Shortfall::NoLineEnd)),
            Some(k) => {
                let line = s.subrange(1, 1 + k);
                let header = k + 3;
                if s[0] == STATUS {
                    decode_text(line, header, true)
                } else if s[0] == FAILURE {
                    decode_text(line, header, false)
                } else {
                    match parse_decimal(line) {
                        None => Err(DecodeError::Malformed(Defect::InvalidNumber)),
                        Some(n) => if s[0] == INTEGER {
                            Ok((Frame::Integer(n), header))
                        } else if s[0] == BULK {
                            decode_bulk(s, header, n as int)
                        } else if n < 0 {
                            Ok((Frame::Array(Seq::empty()), header))
                        } else if header > s.len() {
                            Err(DecodeError::Incomplete(Shortfall::NoLineEnd))
                        } else {
                            match decode_items(s.skip(header), n as nat) {
                                Ok((items, used)) => Ok((Frame::Array(items), header + used)),
                                Err(e) => Err(e),
                            }
                        },
                    }
                }
            },
        }
    }
}

/// A status or error line: its text must be valid UTF-8.
pub open spec fn decode_text(line: Seq<u8>, header: int, status: bool) -> Result<
    (Frame, int),
    DecodeError,
> {
    if !valid_utf8(line) {
        Err(DecodeError::Malformed(Defect::InvalidText))
    } else if status {
        Ok((Frame::SimpleStatus(decode_utf8(line)), header))
    } else {
        Ok((Frame::Error(decode_utf8(line)), header))
    }
}

/// A bulk string whose header takes `header` bytes and announces `len`
/// bytes: a negative length is the null bulk string; otherwise the text and
/// its line terminator must all be there before either is looked at.
pub open spec fn decode_bulk(s: Seq<u8>, header: int, len: int) -> Result<
    (Frame, int),
    DecodeError,
> {
    if len < 0 {
        Ok((Frame::BulkData(None), header))
    } else if s.len() < header + len + 2 {
        Err(DecodeError::Incomplete(Shortfall::BulkString))
    } else if !valid_utf8(s.subrange(header, header + len)) {
        Err(DecodeError::Malformed(Defect::InvalidText))
    } else if !(s[header + len] == CR && s[header + len + 1] == LF) {
        Err(DecodeError::Malformed(Defect::MissingLineEnd))
    } else {
        Ok((Frame::BulkData(Some(decode_utf8(s.subrange(header, header + len)))), header + len + 2))
    }
}

/// Decodes `count` frames that stand one after the other at the start of
/// `s`, and says how many bytes they take together. The first failure is
/// the failure of the whole.
///
/// A frame takes at least one byte and no more than there are
/// ([`lemma_decode_bounds`]), so the last branch is never taken; the test
/// before it makes the definition well-founded.
pub open spec fn decode_items(s: Seq<u8>, count: nat) -> Result<(Seq<Frame>, int), DecodeError>
    decreases s.len(), count,
{
    if count == 0 {
        Ok((Seq::empty(), 0))
    } else {
        match decode(s) {
            Err(e) => Err(e),
            Ok((first, used)) => if 0 < used <= s.len() {
                match decode_items(s.skip(used), (count - 1) as nat) {
                    Err(e) => Err(e),
                    Ok((rest, more)) => Ok((seq![first] + rest, used + more)),
                }
            } else {
                Err(DecodeError::Malformed(Defect::UnknownType))
            },
        }
    }
}

/// A decoded frame starts with a type byte and a terminated line, and
/// takes at least these bytes and no more than there are.
pub proof fn lemma_decode_bounds(s: Seq<u8>)
    ensures
        decode(s) is Ok ==> {
            &&& s.len() > 0
            &&& is_type_byte(s[0])
            &&& first_crlf(s.skip(1)) is Some
            &&& 3 <= first_crlf(s.skip(1))->Some_0 + 3 <= decode(s)->Ok_0.1 <= s.len()
        },
    decreases s.len(), 0nat,
{
    if s.len() > 0 && is_type_byte(s[0]) {
        lemma_first_crlf(s.skip(1));
        if let Some(k) = first_crlf(s.skip(1)) {
            let header = k + 3;
            if let Some(n) = parse_decimal(s.subrange(1, 1 + k)) {
                if s[0] == ARRAY && n >= 0 {
                    lemma_decode_items_bounds(s.skip(header), n as nat);
                }
            }
        }
    }
}

/// Decoded items are as many as were asked for and take no more bytes than
/// there are.
pub proof fn lemma_decode_items_bounds(s: Seq<u8>, count: nat)
    ensures
        decode_items(s, count) is Ok ==> {
            &&& 0 <= decode_items(s, count)->Ok_0.1 <= s.len()
            &&& decode_items(s, count)->Ok_0.0.len() == count
        },
    decreases s.len(), count,
{
    if count > 0 {
        lemma_decode_bounds(s);
        if let Ok((first, used)) = decode(s) {
            lemma_decode_items_bounds(s.skip(used), (count - 1) as nat);
        }
    }
}

/// Reads bytes as UTF-8 text.
///
/// Trusted: this is `std::str::from_utf8`. The standard library documents
/// that it succeeds exactly on valid UTF-8 and then yields the text that
/// the bytes encode.
#[verifier::external_body]
fn utf8_text(bytes: &[u8]) -> (r: Option<&str>)
    ensures
        match r {
            Some(text) => valid_utf8(bytes@) && text@ == decode_utf8(bytes@),
            None => !valid_utf8(bytes@),
        },
{
    match std::str::from_utf8(bytes) {
        Ok(text) => Some(text),
        Err(_) => None,
    }
}

/// Splits off the first line of `input`: the bytes before its first line
/// terminator, and the number of bytes that line and terminator take.
pub fn parse_line(input: &[u8]) -> (r: Result<(&[u8], usize), DecodeError>)
    ensures
        match first_crlf(input@) {
            Some(k) => r is Ok && r->Ok_0.0@ == input@.subrange(0, k) && r->Ok_0.1 == k + 2,
            None => r == Err::<(&[u8], usize), DecodeError>(
                DecodeError::Incomplete(Shortfall::NoLineEnd),
            ),
        },
{
    let total = input.len();
    match find_crlf(input) {
        Some(pos) => {
            proof {
                lemma_first_crlf(input@);
                assert(crlf_at(input@, pos as int));
                assert(pos + 2 <= total);
            }
            Ok((slice_subrange(input, 0, pos), pos + 2))
        },
        None => Err(DecodeError::Incomplete(Shortfall::NoLineEnd)),
    }
}

/// The model of what `deserialize` returns.
pub open spec fn decoded(r: Result<(RespType, usize), DecodeError>) -> Result<
    (Frame, int),
    DecodeError,
> {
    match r {
        Ok((frame, used)) => Ok((frame@, used as int)),
        Err(e) => Err(e),
    }
}

/// The model of what decoding a run of items returns.
pub open spec fn decoded_items(r: Result<(Vec<RespType>, usize), DecodeError>) -> Result<
    (Seq<Frame>, int),
    DecodeError,
> {
    match r {
        Ok((items, used)) => Ok((views_of(items@), used as int)),
        Err(e) => Err(e),
    }
}

/// The outcome of a run of items of which `done` are decoded, from `used`
/// bytes, when decoding the others gives `rest`.
pub open spec fn decode_more(
    done: Seq<Frame>,
    used: int,
    rest: Result<(Seq<Frame>, int), DecodeError>,
) -> Result<(Seq<Frame>, int), DecodeError> {
    match rest {
        Ok((items, more)) => Ok((done + items, used + more)),
        Err(e) => Err(e),
    }
}

/// Decodes the frame at the start of `input` and says how many bytes it
/// takes, so that the caller can go on behind it.
pub fn deserialize(input: &[u8]) -> (r: Result<(RespType, usize), DecodeError>)
    ensures
        decoded(r) == decode(input@),
    decreases input@.len(), 0nat,
{
    if input.len() == 0 {
        return Err(DecodeError::Incomplete(Shortfall::EmptyInput));
    }
    let tag = input[0];
    if !(tag == STATUS || tag == FAILURE || tag == INTEGER || tag == BULK || tag == ARRAY) {
        return Err(DecodeError::Malformed(Defect::UnknownType));
    }
    let tail = slice_subrange(input, 1, input.len());
    assert(tail@ =~= input@.skip(1));
    proof {
        lemma_first_crlf(tail@);
    }
    let (line, n) = match parse_line(tail) {
        Ok(found) => found,
        Err(e) => {
            return Err(e);
        },
    };
    let header: usize = 1 + n;
    assert(line@ =~= input@.subrange(1, header - 2));
    if tag == STATUS {
        match utf8_text(line) {
            Some(text) => Ok((RespType::SimpleString(text.to_owned()), header)),
            None => Err(DecodeError::Malformed(Defect::InvalidText)),
        }
    } else if tag == FAILURE {
        match utf8_text(line) {
            Some(text) => Ok((RespType::Error(text.to_owned()), header)),
            None => Err(DecodeError::Malformed(Defect::InvalidText)),
        }
    } else {
        let number = match read_decimal(line, 0, line.len()) {
            Some(number) => number,
            None => {
                assert(line@.subrange(0, line@.len() as int) =~= line@);
                return Err(DecodeError::Malformed(Defect::InvalidNumber));
            },
        };
        assert(line@.subrange(0, line@.len() as int) =~= line@);
        if tag == INTEGER {
            Ok((RespType::Integer(number), header))
        } else if tag == BULK {
            if number < 0 {
                return Ok((RespType::BulkString(None), header));
            }
            let available: usize = input.len() - header;
            if available < 2 || number as u64 > (available - 2) as u64 {
                return Err(DecodeError::Incomplete(Shortfall::BulkString));
            }
            let len: usize = number as usize;
            let payload = slice_subrange(input, header, header + len);
            match utf8_text(payload) {
                None => Err(DecodeError::Malformed(Defect::InvalidText)),
                Some(text) => {
                    if input[header + len] != CR || input[header + len + 1] != LF {
                        Err(DecodeError::Malformed(Defect::MissingLineEnd))
                    } else {
                        Ok((RespType::BulkString(Some(text.to_owned())), header + len + 2))
                    }
                },
            }
        } else {
            if number < 0 {
                let empty: Vec<RespType> = Vec::new();
                let frame = RespType::Array(empty);
                proof {
                    lemma_array_view(&frame);
                    assert(views_of(empty@) =~= Seq::<Frame>::empty());
                }
                return Ok((frame, header));
            }
            let rest = slice_subrange(input, header, input.len());
            assert(rest@ =~= input@.skip(header as int));
            match read_items(rest, number as u64) {
                Ok((items, used)) => {
                    proof {
                        lemma_decode_items_bounds(rest@, number as nat);
                    }
                    let frame = RespType::Array(items);
                    proof {
                        lemma_array_view(&frame);
                    }
                    Ok((frame, header + used))
                },
                Err(e) => Err(e),
            }
        }
    }
}

/// Decodes `count` frames that stand one after the other at the start of
/// `input`.
fn read_items(input: &[u8], count: u64) -> (r: Result<(Vec<RespType>, usize), DecodeError>)
    ensures
        decoded_items(r) == decode_items(input@, count as nat),
    decreases input@.len(), 1nat,
{
    let mut items: Vec<RespType> = Vec::new();
    let mut offset: usize = 0;
    let mut left: u64 = count;
    assert(input@.skip(0) =~= input@);
    assert(views_of(items@) =~= Seq::<Frame>::empty());
    assert(decode_more(views_of(items@), 0, decode_items(input@, count as nat)) =~= decode_items(
        input@,
        count as nat,
    )) by {
        if let Ok((all, n)) = decode_items(input@, count as nat) {
            assert(Seq::<Frame>::empty() + all =~= all);
        }
    }
    while left > 0
        invariant
            offset <= input@.len(),
            decode_items(input@, count as nat) == decode_more(
                views_of(items@),
                offset as int,
                decode_items(input@.skip(offset as int), left as nat),
            ),
        decreases left,
    {
        let rest = slice_subrange(input, offset, input.len());
        assert(rest@ =~= input@.skip(offset as int));
        proof {
            lemma_decode_bounds(rest@);
        }
        match deserialize(rest) {
            Err(e) => {
                return Err(e);
            },
            Ok((item, used)) => {
                let ghost done = views_of(items@);
                let ghost after = decode_items(rest@.skip(used as int), (left - 1) as nat);
                assert(rest@.skip(used as int) =~= input@.skip(offset + used));
                items.push(item);
                assert(views_of(items@) =~= done.push(item@));
                proof {
                    if let Ok((more, n)) = after {
                        assert(done + (seq![item@] + more) =~= done.push(item@) + more);
                    }
                }
                offset = offset + used;
                left = left - 1;
            },
        }
    }
    assert(views_of(items@) + Seq::<Frame>::empty() =~= views_of(items@));
    Ok((items, offset))
}

} // verus!
