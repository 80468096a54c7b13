//! Equality of frames: two frames are equal when their values are.

use vstd::prelude::*;
use vstd::std_specs::cmp::PartialEqSpecImpl;
use crate::resp::protocol::{lemma_array_view, views_of, RespType};

verus! {

/// Tells whether two frames have the same value.
pub fn same_frame(a: &RespType, b: &RespType) -> (r: bool)
    ensures
        r == (a@ == b@),
    decreases a,
{
    match a {
        RespType::SimpleString(x) => match b {
            RespType::SimpleString(y) => *x == *y,
            _ => false,
        },
        RespType::Error(x) => match b {
            RespType::Error(y) => *x == *y,
            _ => false,
        },
        RespType::Integer(x) => match b {
            RespType::Integer(y) => *x == *y,
            _ => false,
        },
        RespType::BulkString(Some(x)) => match b {
            RespType::BulkString(Some(y)) => *x == *y,
            _ => false,
        },
        RespType::BulkString(None) => match b {
            RespType::BulkString(None) => true,
            _ => false,
        },
        RespType::Array(x) => match b {
            RespType::Array(y) => {
                proof {
                    lemma_array_view(a);
                    lemma_array_view(b);
                }
                same_frames(x, y)
            },
            _ => false,
        },
    }
}

/// Tells whether two lists of frames have the same values in the same
/// order.
fn same_frames(a: &Vec<RespType>, b: &Vec<RespType>) -> (r: bool)
    ensures
        r == (views_of(a@) == views_of(b@)),
    decreases a,
{
    if a.len() != b.len() {
        assert(views_of(a@).len() != views_of(b@).len());
        return false;
    }
    let mut i: usize = 0;
    while i < a.len()
        invariant
            i <= a@.len(),
            a@.len() == b@.len(),
            forall|j: int| 0 <= j < i ==> a@[j]@ == b@[j]@,
        decreases a.len() - i,
    {
        if !same_frame(&a[i], &b[i]) {
            assert(views_of(a@)[i as int] != views_of(b@)[i as int]);
            return false;
        }
        i = i + 1;
    }
    assert(views_of(a@) =~= views_of(b@));
    true
}

impl PartialEq for RespType {
    fn eq(&self, other: &Self) -> (r: bool) {
        same_frame(self, other)
    }
}

impl PartialEqSpecImpl for RespType {
    open spec fn obeys_eq_spec() -> bool {
        true
    }

    open spec fn eq_spec(&self, other: &Self) -> bool {
        self@ == other@
    }
}

impl Eq for RespType {

}

} // verus!
