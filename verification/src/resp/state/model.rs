//! The store as a mathematical object: a finite map from keys to slots,
//! and what expiry does to it.

use vstd::prelude::*;
use vstd::utf8::encode_utf8;
use crate::resp::protocol::{bulk_text, Frame};
use crate::resp::text::{overwrite, range_of};

verus! {

/// What the store holds for one key: a value and, where the key is to
/// expire, the time of its expiry in milliseconds since the epoch.
pub struct Slot {
    pub value: Frame,
    pub expires_at: Option<i128>,
}

/// The contents of a store.
pub type StoreModel = Map<Seq<char>, Slot>;

/// Whether a slot is due at the time `now`: it has an expiry time, and that
/// time is not after `now`.
pub open spec fn is_due(slot: Slot, now: u64) -> bool {
    slot.expires_at is Some && slot.expires_at->Some_0 <= now
}

/// Whether `key` is there for a reader at the time `now`: present and not
/// due.
pub open spec fn is_live(m: StoreModel, key: Seq<char>, now: u64) -> bool {
    m.contains_key(key) && !is_due(m[key], now)
}

/// The time at which `key` expires, if it is there and is to expire. A key
/// without such a time is read the same at every time.
pub open spec fn deadline_in(m: StoreModel, key: Seq<char>) -> Option<i128> {
    if m.contains_key(key) {
        m[key].expires_at
    } else {
        None
    }
}

/// Whether `key` is there and is to expire. What is done to a key that is
/// not to expire does not depend on the time.
pub open spec fn has_deadline(m: StoreModel, key: Seq<char>) -> bool {
    deadline_in(m, key) is Some
}

/// Lazy expiry of one key: the store without `key` where `key` is due at
/// the time `now`, and the store itself where it is not.
pub open spec fn purge(m: StoreModel, key: Seq<char>, now: u64) -> StoreModel {
    if m.contains_key(key) && is_due(m[key], now) {
        m.remove(key)
    } else {
        m
    }
}

/// The time at which a key expires that is given `ttl_ms` milliseconds at
/// the time `now`: that many milliseconds after `now`. A time to live below
/// zero gives a time before `now`, at which the key is due at once.
pub open spec fn deadline_ms(now: u64, ttl_ms: i64) -> i128 {
    (now + ttl_ms) as i128
}

/// The time at which a key expires that is given `seconds` seconds at the
/// time `now`: a thousand milliseconds after `now` for each of them.
pub open spec fn deadline_secs(now: u64, seconds: u64) -> i128 {
    (now + seconds * 1000) as i128
}

/// The whole seconds from the time `now` to the time `at`: zero where `at`
/// is not after `now`, and the greatest number that the answer can hold
/// where they are more than that.
pub open spec fn seconds_left(at: i128, now: u64) -> u64 {
    if at <= now {
        0
    } else if (at - now) / 1000 > u64::MAX {
        u64::MAX
    } else {
        ((at - now) / 1000) as u64
    }
}

/// What an operation that needs the time answers where the clock fails.
pub open spec fn clock_failure() -> Seq<char> {
    "Failed to get current time"@
}

/// Whether `keys` lists the keys of `m`, each once.
pub open spec fn lists_keys(keys: Seq<Seq<char>>, m: StoreModel) -> bool {
    keys.no_duplicates() && forall|key: Seq<char>| keys.contains(key) <==> m.contains_key(key)
}

/// The expiry time that a write gives a key: none without a time to
/// live, and otherwise that many milliseconds after `now`.
pub open spec fn expiry_of(ttl: Option<i64>, now: u64) -> Option<i128> {
    match ttl {
        Some(ttl_ms) => Some(deadline_ms(now, ttl_ms)),
        None => None,
    }
}

/// Reading a key at the time `now`: the key expires if it is due, and the
/// reader gets the value that is then there, if any.
pub open spec fn get_model(m: StoreModel, key: Seq<char>, now: u64) -> (StoreModel, Option<Frame>) {
    let live = purge(m, key, now);
    (
        live,
        if live.contains_key(key) {
            Some(live[key].value)
        } else {
            None
        },
    )
}

/// Writing a key at the time `now`: value and expiry both replace what was
/// there, so that a write without a time to live clears the expiry.
pub open spec fn set_model(
    m: StoreModel,
    key: Seq<char>,
    value: Frame,
    ttl: Option<i64>,
    now: u64,
) -> StoreModel {
    m.insert(key, Slot { value, expires_at: expiry_of(ttl, now) })
}

/// Asking for a key at the time `now`: the key expires if it is due, and
/// the answer says whether it is then there.
pub open spec fn exists_model(m: StoreModel, key: Seq<char>, now: u64) -> (StoreModel, bool) {
    let live = purge(m, key, now);
    (live, live.contains_key(key))
}

/// A slot with another value and the same expiry.
pub open spec fn with_value(slot: Slot, value: Frame) -> Slot {
    Slot { value, expires_at: slot.expires_at }
}

/// A slot with the same value and another expiry.
pub open spec fn with_expiry(slot: Slot, expires_at: Option<i128>) -> Slot {
    Slot { value: slot.value, expires_at }
}

/// Deleting a key, whether it is there or not.
pub open spec fn del_model(m: StoreModel, key: Seq<char>) -> StoreModel {
    m.remove(key)
}

/// Counting a key up or down by `delta` at the time `now`. A key that is
/// absent or due starts from zero and gets no expiry; an integer that is
/// there keeps its expiry. A value that is no integer, or a result that no
/// 64-bit integer holds, is a failure that changes nothing.
pub open spec fn step_model(m: StoreModel, key: Seq<char>, delta: int, now: u64) -> (
    StoreModel,
    Result<i64, Seq<char>>,
) {
    let live = purge(m, key, now);
    if !live.contains_key(key) {
        (
            live.insert(key, Slot { value: Frame::Integer(delta as i64), expires_at: None }),
            Ok(delta as i64),
        )
    } else {
        match live[key].value {
            Frame::Integer(n) => if i64::MIN <= n + delta <= i64::MAX {
                (
                    live.insert(key, with_value(live[key], Frame::Integer((n + delta) as i64))),
                    Ok((n + delta) as i64),
                )
            } else {
                (live, Err("Value is out of range"@))
            },
            _ => (live, Err("Value is not an integer"@)),
        }
    }
}

/// Giving a key `seconds` seconds to live at the time `now`.
pub open spec fn expire_model(m: StoreModel, key: Seq<char>, seconds: u64, now: u64) -> (
    StoreModel,
    Result<(), Seq<char>>,
) {
    let live = purge(m, key, now);
    if live.contains_key(key) {
        (live.insert(key, with_expiry(live[key], Some(deadline_secs(now, seconds)))), Ok(()))
    } else {
        (live, Err("Key does not exist"@))
    }
}

/// The whole seconds that a key has left at the time `now`: none where it
/// does not expire, and zero where it is due.
pub open spec fn ttl_model(m: StoreModel, key: Seq<char>, now: u64) -> Result<
    Option<u64>,
    Seq<char>,
> {
    if !m.contains_key(key) {
        Err("Key does not exist"@)
    } else {
        match m[key].expires_at {
            None => Ok(None),
            Some(at) => Ok(Some(seconds_left(at, now))),
        }
    }
}

/// Taking the expiry off a key at the time `now`.
pub open spec fn persist_model(m: StoreModel, key: Seq<char>, now: u64) -> (
    StoreModel,
    Result<(), Seq<char>>,
) {
    let live = purge(m, key, now);
    if live.contains_key(key) {
        (live.insert(key, with_expiry(live[key], None)), Ok(()))
    } else {
        (live, Err("Key does not exist"@))
    }
}

/// The name of the kind of a value.
pub open spec fn kind_name(value: Frame) -> Seq<char> {
    match value {
        Frame::SimpleStatus(_) => "string"@,
        Frame::Integer(_) => "integer"@,
        Frame::BulkData(_) => "bulk_string"@,
        Frame::Array(_) => "array"@,
        Frame::Error(_) => "error"@,
    }
}

/// Asking for the kind of a key's value at the time `now`.
pub open spec fn type_of_model(m: StoreModel, key: Seq<char>, now: u64) -> (
    StoreModel,
    Result<Frame, Seq<char>>,
) {
    let live = purge(m, key, now);
    if live.contains_key(key) {
        (live, Ok(Frame::SimpleStatus(kind_name(live[key].value))))
    } else {
        (live, Err("Key does not exist"@))
    }
}

/// Moving what `old_key` holds to `new_key` at the time `now`, value and
/// expiry, over whatever `new_key` held.
pub open spec fn rename_model(m: StoreModel, old_key: Seq<char>, new_key: Seq<char>, now: u64) -> (
    StoreModel,
    Result<(), Seq<char>>,
) {
    let live = purge(m, old_key, now);
    if live.contains_key(old_key) {
        (live.remove(old_key).insert(new_key, live[old_key]), Ok(()))
    } else {
        (live, Err("Key does not exist"@))
    }
}

/// Moving what `old_key` holds to `new_key` at the time `now`, unless
/// `new_key` holds something.
pub open spec fn rename_if_exists_model(
    m: StoreModel,
    old_key: Seq<char>,
    new_key: Seq<char>,
    now: u64,
) -> (StoreModel, Result<(), Seq<char>>) {
    let live = purge(purge(m, old_key, now), new_key, now);
    if !live.contains_key(old_key) {
        (live, Err("Old key does not exist"@))
    } else if live.contains_key(new_key) {
        (live, Err("New key already exists"@))
    } else {
        (live.remove(old_key).insert(new_key, live[old_key]), Ok(()))
    }
}

/// Putting the text `text` in place of a key's value at the time `now`, and
/// handing out the value that was there. The key keeps its expiry.
pub open spec fn get_set_model(m: StoreModel, key: Seq<char>, text: Seq<char>, now: u64) -> (
    StoreModel,
    Result<Frame, Seq<char>>,
) {
    let live = purge(m, key, now);
    if live.contains_key(key) {
        (
            live.insert(key, with_value(live[key], Frame::BulkData(Some(text)))),
            Ok(live[key].value),
        )
    } else {
        (live, Err("Key does not exist"@))
    }
}

/// A length as an integer frame, kept within the range of the frame.
pub open spec fn length_frame(n: nat) -> Frame {
    Frame::Integer(
        if n > i64::MAX {
            i64::MAX
        } else {
            n as i64
        },
    )
}

/// Appending `text` to a key's text at the time `now`. A key that is
/// absent or due gets `text` as its value and no expiry; a bulk string that
/// is there grows and keeps its expiry, the null one counting as empty.
/// The answer is the new length in bytes.
pub open spec fn append_model(m: StoreModel, key: Seq<char>, text: Seq<char>, now: u64) -> (
    StoreModel,
    Result<Frame, Seq<char>>,
) {
    let live = purge(m, key, now);
    if !live.contains_key(key) {
        (
            live.insert(key, Slot { value: Frame::BulkData(Some(text)), expires_at: None }),
            Ok(length_frame(encode_utf8(text).len())),
        )
    } else {
        match live[key].value {
            Frame::BulkData(existing) => {
                let joined = match existing {
                    Some(before) => before + text,
                    None => text,
                };
                (
                    live.insert(key, with_value(live[key], Frame::BulkData(Some(joined)))),
                    Ok(length_frame(encode_utf8(joined).len())),
                )
            },
            _ => (live, Err("Key exists but is not a bulk string"@)),
        }
    }
}

/// Reading the bytes from `start` up to `end` of a key's text at the time
/// `now`.
pub open spec fn get_range_model(m: StoreModel, key: Seq<char>, start: i64, end: i64, now: u64) -> (
    StoreModel,
    Result<Frame, Seq<char>>,
) {
    let live = purge(m, key, now);
    if live.contains_key(key) && bulk_text(live[key].value) is Some {
        match range_of(bulk_text(live[key].value)->Some_0, start, end) {
            Some(part) => (live, Ok(Frame::BulkData(Some(part)))),
            None => (live, Err("Range does not fall on character boundaries"@)),
        }
    } else {
        (live, Err("Key does not exist or is not a bulk string"@))
    }
}

/// Writing `text` over a key's text from the byte `offset` on, at the time
/// `now`; a negative offset counts as zero. A key that is absent or due, or
/// holds the null bulk string, counts as the empty text. The key keeps its
/// expiry if it had one. The answer is the new length in bytes.
pub open spec fn set_range_model(
    m: StoreModel,
    key: Seq<char>,
    offset: i64,
    text: Seq<char>,
    now: u64,
) -> (StoreModel, Result<Frame, Seq<char>>) {
    let live = purge(m, key, now);
    let at = if offset < 0 {
        0nat
    } else {
        offset as nat
    };
    if live.contains_key(key) && !(live[key].value is BulkData) {
        (live, Err("Key exists but is not a bulk string"@))
    } else {
        let before = if live.contains_key(key) && bulk_text(live[key].value) is Some {
            bulk_text(live[key].value)->Some_0
        } else {
            Seq::empty()
        };
        let expires_at = if live.contains_key(key) {
            live[key].expires_at
        } else {
            None
        };
        match overwrite(before, at, text) {
            None => (live, Err("Offset does not fall on a character boundary"@)),
            Some(joined) => (
                live.insert(key, Slot { value: Frame::BulkData(Some(joined)), expires_at }),
                Ok(length_frame(encode_utf8(joined).len())),
            ),
        }
    }
}

} // verus!
