//! What the server makes of the bytes that a connection delivers: which
//! bytes are a request, what is written back, and when the connection waits
//! or closes.

use vstd::prelude::*;
use vstd::slice::slice_subrange;
use crate::resp::command_dispatcher::{
    dispatch_model,
    needs_clock,
    resolve,
    CommandDispatcher,
    Registration,
};
use crate::resp::commands::uppercase;
use crate::resp::laws::{agree, lemma_decode_local};
use crate::resp::protocol::{
    append_bytes,
    bulk_text,
    decode,
    deserialize,
    encode,
    lemma_array_view,
    lemma_decode_bounds,
    reply_of,
    serialize,
    views_of,
    DecodeError,
    Frame,
    RespType,
};
use crate::resp::state::default_server_state::DefaultServerState;
use crate::resp::state::model::{clock_failure, StoreModel};

verus! {

/// What is to be done after a look at the bytes that a connection has
/// delivered.
pub enum Step {
    /// A request was run: `bytes` are to be written, and the first `used`
    /// bytes of the input are done with.
    Reply { bytes: Vec<u8>, used: usize },
    /// A frame was read that is no request: nothing is written, and the
    /// first `used` bytes of the input are done with.
    Skip { used: usize },
    /// The input ends inside a frame: more bytes are needed.
    Wait,
    /// The input can never be a frame: the connection is to be closed.
    Close,
}

/// The model of a [`Step`].
pub enum StepModel {
    Reply { bytes: Seq<u8>, used: int },
    Skip { used: int },
    Wait,
    Close,
}

impl View for Step {
    type V = StepModel;

    open spec fn view(&self) -> StepModel {
        match self {
            Step::Reply { bytes, used } => StepModel::Reply { bytes: bytes@, used: *used as int },
            Step::Skip { used } => StepModel::Skip { used: *used as int },
            Step::Wait => StepModel::Wait,
            Step::Close => StepModel::Close,
        }
    }
}

/// The request that a frame carries: an array that is not empty and whose
/// first item is a bulk string names a command, and the other items are the
/// arguments.
pub open spec fn request_of(frame: Frame) -> Option<(Seq<char>, Seq<Frame>)> {
    match frame {
        Frame::Array(items) => if items.len() > 0 && bulk_text(items[0]) is Some {
            Some((bulk_text(items[0])->Some_0, items.skip(1)))
        } else {
            None
        },
        _ => None,
    }
}

/// The frame that answers a request: what the command returned, and its
/// message as an error frame where it failed.
pub open spec fn answer(outcome: Result<Frame, Seq<char>>) -> Frame {
    match outcome {
        Ok(frame) => frame,
        Err(message) => Frame::Error(message),
    }
}

/// What the server does with the bytes `input` at the time `now`: it waits
/// where they end inside a frame, closes where they are malformed, skips a
/// frame that is no request, and else runs the request and answers it.
pub open spec fn respond_model(
    table: Seq<Registration>,
    m: StoreModel,
    input: Seq<u8>,
    now: u64,
) -> (StoreModel, StepModel) {
    match decode(input) {
        Err(DecodeError::Incomplete(_)) => (m, StepModel::Wait),
        Err(DecodeError::Malformed(_)) => (m, StepModel::Close),
        Ok((frame, used)) => match request_of(frame) {
            None => (m, StepModel::Skip { used }),
            Some((name, args)) => {
                let (after, outcome) = dispatch_model(table, uppercase(name), name, m, args, now);
                (after, StepModel::Reply { bytes: encode(answer(outcome)), used })
            },
        },
    }
}

/// Whether what the server does with `input` on the store `m` depends on
/// the time: it does where a request stands at the start of `input` whose
/// command depends on the time.
pub open spec fn request_needs_clock(
    table: Seq<Registration>,
    m: StoreModel,
    input: Seq<u8>,
) -> bool {
    decode(input) is Ok && request_of(decode(input)->Ok_0.0) is Some && needs_clock(
        resolve(table, uppercase(request_of(decode(input)->Ok_0.0)->Some_0.0)),
        m,
        request_of(decode(input)->Ok_0.0)->Some_0.1,
    )
}

/// The bytes of the input that a step is done with, where it is done with
/// any.
pub open spec fn used_by(step: StepModel) -> Option<int> {
    match step {
        StepModel::Reply { bytes, used } => Some(used),
        StepModel::Skip { used } => Some(used),
        _ => None,
    }
}

/// Takes a frame apart as a request: the name of the command and its
/// arguments.
pub fn split_request(frame: RespType) -> (r: Option<(String, Vec<RespType>)>)
    ensures
        match request_of(frame@) {
            Some((name, args)) => r is Some && r->Some_0.0@ == name && views_of(r->Some_0.1@)
                == args,
            None => r is None,
        },
{
    proof {
        if frame is Array {
            lemma_array_view(&frame);
        }
    }
    match frame {
        RespType::Array(items) => {
            let mut items = items;
            if items.len() == 0 {
                return None;
            }
            let ghost all = views_of(items@);
            let first = items.remove(0);
            assert(first@ == all[0]);
            assert(views_of(items@) =~= all.skip(1));
            match first {
                RespType::BulkString(Some(name)) => Some((name, items)),
                _ => None,
            }
        },
        _ => None,
    }
}

/// The bytes that answer a request.
pub fn write_answer(outcome: Result<RespType, String>) -> (bytes: Vec<u8>)
    ensures
        bytes@ == encode(answer(reply_of(outcome))),
{
    match outcome {
        Ok(frame) => serialize(&frame),
        Err(message) => serialize(&RespType::Error(message)),
    }
}

/// Looks at the bytes `input` of a connection at the time `now` and runs
/// the request at their start, if there is one. A step that is done with
/// bytes is done with at least one and with no more than there are.
pub fn respond_at(
    dispatcher: &CommandDispatcher,
    state: &mut DefaultServerState,
    input: &[u8],
    now: u64,
) -> (step: Step)
    ensures
        (final(state)@, step@) == respond_model(dispatcher.commands@, old(state)@, input@, now),
        used_by(step@) is Some ==> 0 < used_by(step@)->Some_0 <= input@.len(),
{
    proof {
        lemma_decode_bounds(input@);
    }
    match deserialize(input) {
        Err(DecodeError::Incomplete(_)) => Step::Wait,
        Err(DecodeError::Malformed(_)) => Step::Close,
        Ok((frame, used)) => match split_request(frame) {
            None => Step::Skip { used },
            Some((name, args)) => {
                let outcome = dispatcher.dispatch_at(name.as_str(), args, state, now);
                Step::Reply { bytes: write_answer(outcome), used }
            },
        },
    }
}

/// Looks at the bytes `input` of a connection and runs the request at
/// their start, if there is one. The clock is read only where what the
/// request does depends on the time; there the request runs at the time
/// that the clock gives, and without a clock it is answered with a failure
/// and the store stays as it is. A step that is done with bytes is done
/// with at least one and with no more than there are.
pub fn respond(dispatcher: &CommandDispatcher, state: &mut DefaultServerState, input: &[u8]) -> (step:
    Step)
    ensures
        ({
            &&& request_needs_clock(dispatcher.commands@, old(state)@, input@)
            &&& final(state)@ == old(state)@
            &&& step@ == (StepModel::Reply {
                bytes: encode(Frame::Error(clock_failure())),
                used: decode(input@)->Ok_0.1,
            })
        }) || exists|now: u64|
            (final(state)@, step@) == #[trigger] respond_model(
                dispatcher.commands@,
                old(state)@,
                input@,
                now,
            ),
        !request_needs_clock(dispatcher.commands@, old(state)@, input@) ==> (final(state)@, step@)
            == respond_model(dispatcher.commands@, old(state)@, input@, 0),
        used_by(step@) is Some ==> 0 < used_by(step@)->Some_0 <= input@.len(),
{
    proof {
        lemma_decode_bounds(input@);
    }
    match deserialize(input) {
        Err(DecodeError::Incomplete(_)) => {
            assert((state@, StepModel::Wait) == respond_model(
                dispatcher.commands@,
                old(state)@,
                input@,
                0,
            ));
            Step::Wait
        },
        Err(DecodeError::Malformed(_)) => {
            assert((state@, StepModel::Close) == respond_model(
                dispatcher.commands@,
                old(state)@,
                input@,
                0,
            ));
            Step::Close
        },
        Ok((frame, used)) => match split_request(frame) {
            None => {
                assert((state@, StepModel::Skip { used: used as int }) == respond_model(
                    dispatcher.commands@,
                    old(state)@,
                    input@,
                    0,
                ));
                Step::Skip { used }
            },
            Some((name, args)) => {
                let ghost wanted = views_of(args@);
                let ghost handler = resolve(dispatcher.commands@, uppercase(name@));
                let outcome = dispatcher.dispatch(name.as_str(), args, state);
                let step = Step::Reply { bytes: write_answer(outcome), used };
                proof {
                    if !needs_clock(handler, old(state)@, wanted) {
                        assert((state@, step@) == respond_model(
                            dispatcher.commands@,
                            old(state)@,
                            input@,
                            0,
                        ));
                    } else if !(state@ == old(state)@ && reply_of(outcome) == Err::<
                        Frame,
                        Seq<char>,
                    >(clock_failure())) {
                        let now = choose|now: u64|
                            (state@, reply_of(outcome)) == #[trigger] dispatch_model(
                                dispatcher.commands@,
                                uppercase(name@),
                                name@,
                                old(state)@,
                                wanted,
                                now,
                            );
                        assert((state@, step@) == respond_model(
                            dispatcher.commands@,
                            old(state)@,
                            input@,
                            now,
                        ));
                    }
                }
                step
            },
        },
    }
}

/// What came of all the bytes that a connection has delivered so far.
pub struct Drained {
    /// The answers to the requests that were run, in the order of the
    /// requests.
    pub replies: Vec<u8>,
    /// The number of bytes of the input that are done with.
    pub used: usize,
    /// Whether the connection is to be closed.
    pub close: bool,
}

/// The model of a [`Drained`], together with the store afterwards.
pub struct DrainModel {
    pub store: StoreModel,
    pub replies: Seq<u8>,
    pub used: int,
    pub close: bool,
}

/// A drain that begins with `used` bytes, answered by `bytes`, and goes on
/// as `rest`.
pub open spec fn drain_after(bytes: Seq<u8>, used: int, rest: DrainModel) -> DrainModel {
    DrainModel {
        store: rest.store,
        replies: bytes + rest.replies,
        used: used + rest.used,
        close: rest.close,
    }
}

/// What the server does with all of the bytes `input` at the time `now`:
/// it takes frame after frame and answers request after request, in the
/// order in which they stand, until the input ends, ends inside a frame,
/// or is malformed.
///
/// A frame takes at least one byte and no more than there are, so the
/// branches that test for this are never left by their `else`; the tests
/// make the definition well-founded.
pub open spec fn drain_model(
    table: Seq<Registration>,
    m: StoreModel,
    input: Seq<u8>,
    now: u64,
) -> DrainModel
    decreases input.len(),
{
    let (after, step) = respond_model(table, m, input, now);
    match step {
        StepModel::Wait => DrainModel { store: m, replies: Seq::empty(), used: 0, close: false },
        StepModel::Close => DrainModel { store: m, replies: Seq::empty(), used: 0, close: true },
        StepModel::Skip { used } => if 0 < used <= input.len() {
            drain_after(Seq::empty(), used, drain_model(table, after, input.skip(used), now))
        } else {
            DrainModel { store: m, replies: Seq::empty(), used: 0, close: true }
        },
        StepModel::Reply { bytes, used } => if 0 < used <= input.len() {
            drain_after(bytes, used, drain_model(table, after, input.skip(used), now))
        } else {
            DrainModel { store: m, replies: Seq::empty(), used: 0, close: true }
        },
    }
}

/// Runs all the requests that the bytes `input` of a connection hold, in
/// their order, at the time `now`.
pub fn drain_at(
    dispatcher: &CommandDispatcher,
    state: &mut DefaultServerState,
    input: &[u8],
    now: u64,
) -> (r: Drained)
    ensures
        (DrainModel { store: final(state)@, replies: r.replies@, used: r.used as int, close: r.close })
            == drain_model(dispatcher.commands@, old(state)@, input@, now),
        r.used <= input@.len(),
{
    let mut replies: Vec<u8> = Vec::new();
    let mut offset: usize = 0;
    let ghost table = dispatcher.commands@;
    let ghost whole = drain_model(table, old(state)@, input@, now);
    assert(input@.skip(0) =~= input@);
    assert(drain_after(replies@, 0, whole) == whole) by {
        assert(Seq::<u8>::empty() + whole.replies =~= whole.replies);
    }
    loop
        invariant
            offset <= input@.len(),
            table == dispatcher.commands@,
            whole == drain_model(table, old(state)@, input@, now),
            whole == drain_after(
                replies@,
                offset as int,
                drain_model(table, state@, input@.skip(offset as int), now),
            ),
        decreases input@.len() - offset,
    {
        let rest = slice_subrange(input, offset, input.len());
        assert(rest@ =~= input@.skip(offset as int));
        let ghost before = state@;
        let ghost done = replies@;
        proof {
            lemma_decode_bounds(rest@);
        }
        match respond_at(dispatcher, state, rest, now) {
            Step::Wait => {
                assert(done + Seq::<u8>::empty() =~= done);
                return Drained { replies, used: offset, close: false };
            },
            Step::Close => {
                assert(done + Seq::<u8>::empty() =~= done);
                return Drained { replies, used: offset, close: true };
            },
            Step::Skip { used } => {
                assert(rest@.skip(used as int) =~= input@.skip(offset + used));
                assert(done + (Seq::<u8>::empty() + drain_model(
                    table,
                    state@,
                    rest@.skip(used as int),
                    now,
                ).replies) =~= done + drain_model(
                    table,
                    state@,
                    rest@.skip(used as int),
                    now,
                ).replies);
                offset = offset + used;
            },
            Step::Reply { bytes, used } => {
                assert(rest@.skip(used as int) =~= input@.skip(offset + used));
                append_bytes(&mut replies, bytes.as_slice());
                assert(done + (bytes@ + drain_model(
                    table,
                    state@,
                    rest@.skip(used as int),
                    now,
                ).replies) =~= (done + bytes@) + drain_model(
                    table,
                    state@,
                    rest@.skip(used as int),
                    now,
                ).replies);
                offset = offset + used;
            },
        }
    }
}

/// Answers come in the order of the requests: where `a` is the bytes of
/// one request and `b` those of another, the server answers `a + b` with
/// the answer to `a` followed by the answer to `b`, the second request
/// running on the store that the first one left.
pub proof fn lemma_replies_in_order(
    table: Seq<Registration>,
    m: StoreModel,
    a: Seq<u8>,
    b: Seq<u8>,
    now: u64,
)
    requires
        respond_model(table, m, a, now).1 is Reply,
        respond_model(table, m, a, now).1->Reply_used == a.len(),
        respond_model(table, respond_model(table, m, a, now).0, b, now).1 is Reply,
        respond_model(table, respond_model(table, m, a, now).0, b, now).1->Reply_used == b.len(),
    ensures
        drain_model(table, m, a + b, now) == (DrainModel {
            store: respond_model(table, respond_model(table, m, a, now).0, b, now).0,
            replies: respond_model(table, m, a, now).1->Reply_bytes + respond_model(
                table,
                respond_model(table, m, a, now).0,
                b,
                now,
            ).1->Reply_bytes,
            used: (a.len() + b.len()) as int,
            close: false,
        }),
{
    let (m1, first) = respond_model(table, m, a, now);
    let (m2, second) = respond_model(table, m1, b, now);
    lemma_decode_bounds(a);
    lemma_decode_bounds(b);
    assert(agree(a, a + b, a.len() as int));
    lemma_decode_local(a, a + b);
    assert(respond_model(table, m, a + b, now) == (m1, first));
    assert((a + b).skip(a.len() as int) =~= b);
    assert(b.skip(b.len() as int) =~= Seq::<u8>::empty());
    let end = drain_model(table, m2, Seq::<u8>::empty(), now);
    assert(end == DrainModel { store: m2, replies: Seq::empty(), used: 0, close: false });
    let tail = drain_model(table, m1, b, now);
    assert(tail == drain_after(second->Reply_bytes, b.len() as int, end));
    assert(second->Reply_bytes + Seq::<u8>::empty() =~= second->Reply_bytes);
    assert(drain_model(table, m, a + b, now) == drain_after(
        first->Reply_bytes,
        a.len() as int,
        tail,
    ));
}

} // verus!
