//! What holds of the commands and the store together: a write is read
//! back, a key that is due is as good as absent, a request that is short
//! of arguments or has the wrong kind of key fails and changes nothing,
//! and what is done to a key that is not to expire does not depend on the
//! time.

use vstd::prelude::*;
use crate::resp::command_dispatcher::{
    dispatch_model,
    needs_clock,
    resolve,
    Handler,
    Registration,
};
use crate::resp::commands::{
    echo_model,
    get_needs_clock,
    get_outcome,
    set_needs_clock,
    set_outcome,
    uppercase,
};
use crate::resp::protocol::{bulk_text, Frame};
use crate::resp::state::model::{
    append_model,
    exists_model,
    get_model,
    get_range_model,
    get_set_model,
    has_deadline,
    is_due,
    persist_model,
    rename_if_exists_model,
    rename_model,
    set_range_model,
    step_model,
    ttl_model,
    type_of_model,
    Slot,
    StoreModel,
};

verus! {

/// The frame that names `key`.
pub open spec fn key_frame(key: Seq<char>) -> Frame {
    Frame::BulkData(Some(key))
}

/// What `SET` has written, `GET` reads: after `SET key value`, which is
/// answered with `OK`, `GET key` answers `value` at any time and leaves
/// the store as it is.
pub proof fn lemma_set_then_get(m: StoreModel, key: Seq<char>, value: Frame, now: u64, later: u64)
    ensures
        set_outcome(m, seq![key_frame(key), value], now).1 == Ok::<Frame, Seq<char>>(
            Frame::SimpleStatus("OK"@),
        ),
        get_outcome(set_outcome(m, seq![key_frame(key), value], now).0, seq![key_frame(key)], later)
            == (set_outcome(m, seq![key_frame(key), value], now).0, Ok::<Frame, Seq<char>>(value)),
{
}

/// `GET` of a key that the store does not hold answers the null bulk
/// string and leaves the store as it is.
pub proof fn lemma_get_absent(m: StoreModel, key: Seq<char>, now: u64)
    requires
        !m.contains_key(key),
    ensures
        get_outcome(m, seq![key_frame(key)], now) == (
            m,
            Ok::<Frame, Seq<char>>(Frame::BulkData(None)),
        ),
{
}

/// A key that was written with a time to live is read back before its
/// time is over, and is gone from then on: after `SET key value PX ttl_ms`
/// at the time `now`, the store holds the key with the expiry time
/// `now + ttl_ms`. `GET key` answers `value` at every time before that and
/// leaves the store as it is; from that time on it answers the null bulk
/// string, the key counts as absent, and the read or check itself takes it
/// out of the store.
pub proof fn lemma_ttl_expiry(
    m: StoreModel,
    key: Seq<char>,
    value: Frame,
    option: Seq<char>,
    ttl_ms: i64,
    now: u64,
    later: u64,
)
    requires
        uppercase(option) == "PX"@,
        ttl_ms >= 0,
    ensures
        ({
            let args = seq![key_frame(key), value, key_frame(option), Frame::Integer(ttl_ms)];
            let written = set_outcome(m, args, now).0;
            &&& set_outcome(m, args, now).1 == Ok::<Frame, Seq<char>>(Frame::SimpleStatus("OK"@))
            &&& written == m.insert(key, Slot { value, expires_at: Some((now + ttl_ms) as i128) })
            &&& written[key].expires_at->Some_0 == now + ttl_ms
            &&& later < now + ttl_ms ==> get_outcome(written, seq![key_frame(key)], later) == (
                written,
                Ok::<Frame, Seq<char>>(value),
            )
            &&& later >= now + ttl_ms ==> {
                &&& get_outcome(written, seq![key_frame(key)], later) == (
                    written.remove(key),
                    Ok::<Frame, Seq<char>>(Frame::BulkData(None)),
                )
                &&& exists_model(written, key, later) == (written.remove(key), false)
                &&& !written.remove(key).contains_key(key)
            }
        }),
{
}

/// A key that is due is as good as absent: a reader and a check find what
/// they would find if the key had been deleted, and leave the store without
/// it.
pub proof fn lemma_due_is_absent(m: StoreModel, key: Seq<char>, now: u64)
    requires
        m.contains_key(key),
        is_due(m[key], now),
    ensures
        get_model(m, key, now) == (m.remove(key), None::<Frame>),
        exists_model(m, key, now) == (m.remove(key), false),
        get_model(m, key, now) == get_model(m.remove(key), key, now),
        exists_model(m, key, now) == exists_model(m.remove(key), key, now),
{
    assert(m.remove(key).remove(key) =~= m.remove(key));
}

/// A key that is not due is there for every reader, and reading it
/// changes nothing.
pub proof fn lemma_live_is_read(m: StoreModel, key: Seq<char>, now: u64)
    requires
        m.contains_key(key),
        !is_due(m[key], now),
    ensures
        get_model(m, key, now) == (m, Some(m[key].value)),
        exists_model(m, key, now) == (m, true),
{
}

/// Requests that are short of arguments or name their key by the wrong
/// kind of frame fail with a message and change nothing: `ECHO` without
/// arguments, `SET` with fewer than two, `SET` whose key is no bulk
/// string, `GET` without arguments.
pub proof fn lemma_argument_failures(m: StoreModel, args: Seq<Frame>, now: u64)
    ensures
        args.len() == 0 ==> echo_model(args) == Err::<Frame, Seq<char>>(
            "ECHO requires at least one argument"@,
        ),
        args.len() < 2 ==> set_outcome(m, args, now) == (
            m,
            Err::<Frame, Seq<char>>("SET requires at least two arguments"@),
        ),
        args.len() >= 2 && bulk_text(args[0]) is None ==> set_outcome(m, args, now) == (
            m,
            Err::<Frame, Seq<char>>("SET key must be a bulk string"@),
        ),
        args.len() == 0 ==> get_outcome(m, args, now) == (
            m,
            Err::<Frame, Seq<char>>("GET requires at least one argument"@),
        ),
{
}

/// The same through the registry: where `SET` and `GET` are registered
/// under the names given, a `SET` with `PX ttl_ms` at the time `now` is
/// answered with `OK` and leaves the key with the expiry time
/// `now + ttl_ms`; a `GET` at a time before that answers the value and
/// leaves the store, and with it the expiry time, as it is.
pub proof fn lemma_ttl_through_dispatch(
    table: Seq<Registration>,
    set_name: Seq<char>,
    get_name: Seq<char>,
    m: StoreModel,
    key: Seq<char>,
    value: Frame,
    option: Seq<char>,
    ttl_ms: i64,
    now: u64,
    later: u64,
)
    requires
        resolve(table, uppercase(set_name)) == Some(Handler::Write),
        resolve(table, uppercase(get_name)) == Some(Handler::Read),
        uppercase(option) == "PX"@,
        ttl_ms >= 0,
        now <= later < now + ttl_ms,
    ensures
        ({
            let args = seq![key_frame(key), value, key_frame(option), Frame::Integer(ttl_ms)];
            let (written, answer) = dispatch_model(
                table,
                uppercase(set_name),
                set_name,
                m,
                args,
                now,
            );
            &&& answer == Ok::<Frame, Seq<char>>(Frame::SimpleStatus("OK"@))
            &&& written.contains_key(key)
            &&& written[key] == (Slot { value, expires_at: Some((now + ttl_ms) as i128) })
            &&& dispatch_model(
                table,
                uppercase(get_name),
                get_name,
                written,
                seq![key_frame(key)],
                later,
            ) == (written, Ok::<Frame, Seq<char>>(value))
        }),
{
}

/// What is done to a key that is not to expire does not depend on the
/// time: every operation on one key gives the same store and the same
/// answer at any two times.
pub proof fn lemma_no_deadline_no_time(m: StoreModel, key: Seq<char>, a: u64, b: u64)
    requires
        !has_deadline(m, key),
    ensures
        get_model(m, key, a) == get_model(m, key, b),
        exists_model(m, key, a) == exists_model(m, key, b),
        ttl_model(m, key, a) == ttl_model(m, key, b),
        persist_model(m, key, a) == persist_model(m, key, b),
        type_of_model(m, key, a) == type_of_model(m, key, b),
        forall|delta: int| step_model(m, key, delta, a) == step_model(m, key, delta, b),
        forall|text: Seq<char>| append_model(m, key, text, a) == append_model(m, key, text, b),
        forall|text: Seq<char>| get_set_model(m, key, text, a) == get_set_model(m, key, text, b),
        forall|start: i64, end: i64|
            get_range_model(m, key, start, end, a) == get_range_model(m, key, start, end, b),
        forall|offset: i64, text: Seq<char>|
            set_range_model(m, key, offset, text, a) == set_range_model(m, key, offset, text, b),
        forall|new_key: Seq<char>|
            rename_model(m, key, new_key, a) == rename_model(m, key, new_key, b),
        forall|new_key: Seq<char>|
            !has_deadline(m, new_key) ==> rename_if_exists_model(m, key, new_key, a)
                == rename_if_exists_model(m, key, new_key, b),
{
}

/// A command whose outcome does not depend on the time gives the same
/// store and the same answer at any two times: `PING` and `ECHO` always,
/// `SET` where it gives no time to live or fails, `GET` where it fails or
/// reads a key that is not to expire, and a name that is not registered.
pub proof fn lemma_no_clock_no_time(
    table: Seq<Registration>,
    upper: Seq<char>,
    name: Seq<char>,
    m: StoreModel,
    args: Seq<Frame>,
    a: u64,
    b: u64,
)
    ensures
        !set_needs_clock(args) ==> set_outcome(m, args, a) == set_outcome(m, args, b),
        !get_needs_clock(m, args) ==> get_outcome(m, args, a) == get_outcome(m, args, b),
        !needs_clock(resolve(table, upper), m, args) ==> dispatch_model(
            table,
            upper,
            name,
            m,
            args,
            a,
        ) == dispatch_model(table, upper, name, m, args, b),
{
}

} // verus!
