//! Line terminators: where the first `\r\n` of a byte sequence stands.

use vstd::prelude::*;

verus! {

/// The byte `\r`, the first of a line terminator.
pub const CR: u8 = 13;

/// The byte `\n`, the second of a line terminator.
pub const LF: u8 = 10;

/// The two bytes that end a line.
pub open spec fn crlf() -> Seq<u8> {
    seq![CR, LF]
}

/// Whether a line terminator starts at index `i` of `s`.
pub open spec fn crlf_at(s: Seq<u8>, i: int) -> bool {
    0 <= i && i + 1 < s.len() && s[i] == CR && s[i + 1] == LF
}

/// Whether `i` is the least index of `s` at which a line terminator starts.
pub open spec fn is_first_crlf(s: Seq<u8>, i: int) -> bool {
    crlf_at(s, i) && forall|j: int| 0 <= j < i ==> !#[trigger] crlf_at(s, j)
}

/// Whether `s` holds no line terminator at all.
pub open spec fn no_crlf(s: Seq<u8>) -> bool {
    forall|j: int| !#[trigger] crlf_at(s, j)
}

/// The index of the first line terminator of `s`, if it has one.
pub open spec fn first_crlf(s: Seq<u8>) -> Option<int> {
    if exists|i: int| is_first_crlf(s, i) {
        Some(choose|i: int| is_first_crlf(s, i))
    } else {
        None
    }
}

/// The least index with a line terminator is the first one.
pub proof fn lemma_first_crlf_is(s: Seq<u8>, i: int)
    requires
        is_first_crlf(s, i),
    ensures
        first_crlf(s) == Some(i),
{
    let c = choose|k: int| is_first_crlf(s, k);
    assert(is_first_crlf(s, c));
    if c < i {
        assert(!crlf_at(s, c));
    }
    if i < c {
        assert(!crlf_at(s, i));
    }
}

/// A sequence without line terminators has no first one.
pub proof fn lemma_first_crlf_none(s: Seq<u8>)
    requires
        no_crlf(s),
    ensures
        first_crlf(s) is None,
{
    assert forall|i: int| !is_first_crlf(s, i) by {
        assert(!crlf_at(s, i));
    }
}

/// Below any line terminator there is a least one.
proof fn lemma_least_crlf(s: Seq<u8>, i: int) -> (k: int)
    requires
        crlf_at(s, i),
    ensures
        is_first_crlf(s, k),
        k <= i,
    decreases i,
{
    if exists|j: int| 0 <= j < i && crlf_at(s, j) {
        let j = choose|j: int| 0 <= j < i && crlf_at(s, j);
        lemma_least_crlf(s, j)
    } else {
        i
    }
}

/// What `first_crlf` says: its result is the least index with a line
/// terminator, and it is absent exactly when there is none.
pub proof fn lemma_first_crlf(s: Seq<u8>)
    ensures
        match first_crlf(s) {
            Some(i) => is_first_crlf(s, i),
            None => no_crlf(s),
        },
{
    if first_crlf(s) is None {
        assert forall|j: int| !#[trigger] crlf_at(s, j) by {
            if crlf_at(s, j) {
                let k = lemma_least_crlf(s, j);
                assert(is_first_crlf(s, k));
            }
        }
    }
}

/// The first line terminator depends only on the bytes up to its end: a
/// sequence that agrees with `s` that far has the same one.
pub proof fn lemma_first_crlf_local(s: Seq<u8>, t: Seq<u8>, i: int)
    requires
        first_crlf(s) == Some(i),
        t.len() >= i + 2,
        forall|j: int| 0 <= j < i + 2 ==> s[j] == t[j],
    ensures
        first_crlf(t) == Some(i),
{
    lemma_first_crlf(s);
    assert(crlf_at(t, i));
    assert forall|j: int| 0 <= j < i implies !#[trigger] crlf_at(t, j) by {
        assert(!crlf_at(s, j));
    }
    lemma_first_crlf_is(t, i);
}

/// A prefix that ends before the first line terminator is complete holds
/// no line terminator.
pub proof fn lemma_first_crlf_cut(s: Seq<u8>, i: int, len: int)
    requires
        first_crlf(s) == Some(i),
        0 <= len < i + 2,
        len <= s.len(),
    ensures
        first_crlf(s.subrange(0, len)) is None,
{
    lemma_first_crlf(s);
    let p = s.subrange(0, len);
    assert forall|j: int| !#[trigger] crlf_at(p, j) by {
        if crlf_at(p, j) {
            assert(p[j] == s[j] && p[j + 1] == s[j + 1]);
            assert(crlf_at(s, j));
        }
    }
    lemma_first_crlf_none(p);
}

/// Finds the first line terminator of `input`.
pub fn find_crlf(input: &[u8]) -> (r: Option<usize>)
    ensures
        match r {
            Some(i) => first_crlf(input@) == Some(i as int),
            None => first_crlf(input@) is None,
        },
{
    let len = input.len();
    if len < 2 {
        proof {
            lemma_first_crlf_none(input@);
        }
        return None;
    }
    let mut i: usize = 0;
    while i < len - 1
        invariant
            len == input@.len(),
            len >= 2,
            forall|j: int| 0 <= j < i ==> !#[trigger] crlf_at(input@, j),
        decreases len - i,
    {
        if input[i] == CR && input[i + 1] == LF {
            proof {
                lemma_first_crlf_is(input@, i as int);
            }
            return Some(i);
        }
        i = i + 1;
    }
    proof {
        lemma_first_crlf_none(input@);
    }
    None
}

} // verus!
