//! The commands: what each one makes of its arguments and of the store.

use vstd::prelude::*;
use vstd::utf8::encode_utf8;
use crate::resp::protocol::{bulk_text, reply_of, views_of, Frame, RespType};
use crate::resp::state::default_server_state::{current_time_ms, DefaultServerState};
use crate::resp::state::model::{clock_failure, get_model, has_deadline, set_model, StoreModel};
use crate::resp::text::{parse_decimal, read_decimal, same_text};

verus! {

/// A command of the server: it has a name, and it makes a frame, or a
/// message of failure, of its arguments and of the store.
pub trait Command: Send + Sync + 'static {
    fn name(&self) -> &str;

    fn execute(&self, args: &[RespType], state: &mut DefaultServerState) -> Result<
        RespType,
        String,
    >;
}

/// The text of `text` in upper case, as Unicode defines it for each
/// character.
pub uninterp spec fn uppercase(text: Seq<char>) -> Seq<char>;

/// Puts a text in upper case.
///
/// Trusted: this is `str::to_uppercase`, whose result depends on the text
/// alone; the contract gives that result its name and says no more.
#[verifier::external_body]
pub(crate) fn to_upper(text: &str) -> (r: String)
    ensures
        r@ == uppercase(text@),
{
    text.to_uppercase()
}

/// `PING`: answers `PONG`, whatever the arguments.
pub struct Ping;

impl Command for Ping {
    fn name(&self) -> (r: &str)
        ensures
            r@ == "PING"@,
    {
        "PING"
    }

    fn execute(&self, args: &[RespType], state: &mut DefaultServerState) -> (r: Result<
        RespType,
        String,
    >)
        ensures
            reply_of(r) == Ok::<Frame, Seq<char>>(Frame::SimpleStatus("PONG"@)),
            final(state)@ == old(state)@,
    {
        Ok(RespType::SimpleString("PONG".to_owned()))
    }
}

/// What `ECHO` answers: its first argument where that is a bulk string or
/// a status, unchanged.
pub open spec fn echo_model(args: Seq<Frame>) -> Result<Frame, Seq<char>> {
    if args.len() < 1 {
        Err("ECHO requires at least one argument"@)
    } else {
        match args[0] {
            Frame::BulkData(Some(text)) => Ok(Frame::BulkData(Some(text))),
            Frame::SimpleStatus(text) => Ok(Frame::SimpleStatus(text)),
            _ => Err("ECHO argument must be a string"@),
        }
    }
}

/// `ECHO`: answers its first argument.
pub struct Echo;

impl Command for Echo {
    fn name(&self) -> (r: &str)
        ensures
            r@ == "ECHO"@,
    {
        "ECHO"
    }

    fn execute(&self, args: &[RespType], state: &mut DefaultServerState) -> (r: Result<
        RespType,
        String,
    >)
        ensures
            reply_of(r) == echo_model(views_of(args@)),
            final(state)@ == old(state)@,
    {
        if args.len() < 1 {
            Err("ECHO requires at least one argument".to_owned())
        } else {
            match &args[0] {
                RespType::BulkString(Some(value)) => Ok(RespType::BulkString(Some(value.clone()))),
                RespType::SimpleString(value) => Ok(RespType::SimpleString(value.clone())),
                _ => Err("ECHO argument must be a string".to_owned()),
            }
        }
    }
}

/// The time to live that the frame `amount` gives, in milliseconds: an
/// integer, or a bulk string that reads as one, and not negative.
pub open spec fn ttl_amount(amount: Frame) -> Result<i64, Seq<char>> {
    let number = match amount {
        Frame::Integer(n) => Some(n),
        Frame::BulkData(Some(text)) => parse_decimal(encode_utf8(text)),
        _ => None,
    };
    match number {
        None => Err("PX value must be an integer"@),
        Some(n) => if n < 0 {
            Err("TTL must be non-negative"@)
        } else {
            Ok(n)
        },
    }
}

/// The time to live that an option of `SET` selects, where `upper` is the
/// option's name in upper case: `PX` is the only option there is.
pub open spec fn ttl_option(upper: Option<Seq<char>>, amount: Frame) -> Result<i64, Seq<char>> {
    if upper == Some("PX"@) {
        ttl_amount(amount)
    } else {
        Err("invalid SET option"@)
    }
}

/// The name of an option in upper case, where the frame is a bulk string.
pub open spec fn option_name(token: Frame) -> Option<Seq<char>> {
    match bulk_text(token) {
        Some(text) => Some(uppercase(text)),
        None => None,
    }
}

/// What `SET` makes of its arguments: the key and the time to live, if
/// one is given. It needs a key and a value; the key is a bulk string. A
/// third and fourth argument together select a time to live.
pub open spec fn set_arguments(args: Seq<Frame>) -> Result<(Seq<char>, Option<i64>), Seq<char>> {
    if args.len() < 2 {
        Err("SET requires at least two arguments"@)
    } else if bulk_text(args[0]) is None {
        Err("SET key must be a bulk string"@)
    } else if args.len() < 4 {
        Ok((bulk_text(args[0])->Some_0, None))
    } else {
        match ttl_option(option_name(args[2]), args[3]) {
            Err(message) => Err(message),
            Ok(ttl_ms) => Ok((bulk_text(args[0])->Some_0, Some(ttl_ms))),
        }
    }
}

/// What `SET` does at the time `now`: where its arguments are in order it
/// writes the value under the key and answers `OK`, and else it fails and
/// the store stays as it is.
pub open spec fn set_outcome(m: StoreModel, args: Seq<Frame>, now: u64) -> (
    StoreModel,
    Result<Frame, Seq<char>>,
) {
    match set_arguments(args) {
        Err(message) => (m, Err(message)),
        Ok((key, ttl)) => (set_model(m, key, args[1], ttl, now), Ok(Frame::SimpleStatus("OK"@))),
    }
}

/// Whether what `SET` does with `args` depends on the time: it does where
/// the arguments are in order and give a time to live.
pub open spec fn set_needs_clock(args: Seq<Frame>) -> bool {
    set_arguments(args) is Ok && set_arguments(args)->Ok_0.1 is Some
}

/// Reads the time to live that the frame `amount` gives.
pub fn read_ttl_amount(amount: &RespType) -> (r: Result<i64, String>)
    ensures
        match ttl_amount(amount@) {
            Ok(n) => r == Ok::<i64, String>(n),
            Err(message) => r is Err && r->Err_0@ == message,
        },
{
    let number = match amount {
        RespType::Integer(n) => Some(*n),
        RespType::BulkString(Some(text)) => {
            let bytes = text.as_str().as_bytes();
            assert(bytes@.subrange(0, bytes@.len() as int) =~= bytes@);
            read_decimal(bytes, 0, bytes.len())
        },
        _ => None,
    };
    match number {
        None => Err("PX value must be an integer".to_owned()),
        Some(n) => if n < 0 {
            Err("TTL must be non-negative".to_owned())
        } else {
            Ok(n)
        },
    }
}

/// Reads the time to live that an option of `SET` selects, where `upper`
/// is the option's name in upper case, if the option is a bulk string.
pub fn read_ttl_option(upper: Option<&str>, amount: &RespType) -> (r: Result<i64, String>)
    ensures
        match ttl_option(
            match upper {
                Some(text) => Some(text@),
                None => None,
            },
            amount@,
        ) {
            Ok(n) => r == Ok::<i64, String>(n),
            Err(message) => r is Err && r->Err_0@ == message,
        },
{
    let is_px = match upper {
        Some(text) => same_text(text, "PX"),
        None => false,
    };
    if is_px {
        read_ttl_amount(amount)
    } else {
        Err("invalid SET option".to_owned())
    }
}

/// Reads the arguments of `SET`: the key and the time to live, if one is
/// given.
pub fn read_set_arguments(args: &[RespType]) -> (r: Result<(String, Option<i64>), String>)
    ensures
        match set_arguments(views_of(args@)) {
            Ok((key, ttl)) => r is Ok && r->Ok_0.0@ == key && r->Ok_0.1 == ttl,
            Err(message) => r is Err && r->Err_0@ == message,
        },
{
    if args.len() < 2 {
        return Err("SET requires at least two arguments".to_owned());
    }
    let key = match &args[0] {
        RespType::BulkString(Some(key)) => key.clone(),
        _ => {
            return Err("SET key must be a bulk string".to_owned());
        },
    };
    if args.len() < 4 {
        return Ok((key, None));
    }
    let upper = match &args[2] {
        RespType::BulkString(Some(token)) => Some(to_upper(token.as_str())),
        _ => None,
    };
    let chosen = match &upper {
        Some(text) => read_ttl_option(Some(text.as_str()), &args[3]),
        None => read_ttl_option(None, &args[3]),
    };
    match chosen {
        Ok(ttl_ms) => Ok((key, Some(ttl_ms))),
        Err(message) => Err(message),
    }
}

/// `SET key value [PX milliseconds]`: writes a key.
pub struct SetCommand;

impl SetCommand {
    /// Runs `SET` at the time `now`.
    pub fn execute_at(&self, args: &[RespType], state: &mut DefaultServerState, now: u64) -> (r:
        Result<RespType, String>)
        ensures
            (final(state)@, reply_of(r)) == set_outcome(old(state)@, views_of(args@), now),
    {
        match read_set_arguments(args) {
            Err(message) => Err(message),
            Ok((key, ttl)) => {
                state.set_at(key, args[1].clone(), ttl, now);
                Ok(RespType::SimpleString("OK".to_owned()))
            },
        }
    }
}

impl Command for SetCommand {
    fn name(&self) -> (r: &str)
        ensures
            r@ == "SET"@,
    {
        "SET"
    }

    /// Runs `SET`. Arguments that are not in order fail, and a write
    /// without a time to live is made, without a look at the clock. A time to
    /// live counts from the time that the clock gives; without a clock such
    /// a write fails and the store stays as it is.
    fn execute(&self, args: &[RespType], state: &mut DefaultServerState) -> (r: Result<
        RespType,
        String,
    >)
        ensures
            ({
                &&& set_needs_clock(views_of(args@))
                &&& final(state)@ == old(state)@
                &&& reply_of(r) == Err::<Frame, Seq<char>>(clock_failure())
            }) || exists|now: u64|
                (final(state)@, reply_of(r)) == #[trigger] set_outcome(
                    old(state)@,
                    views_of(args@),
                    now,
                ),
            !set_needs_clock(views_of(args@)) ==> (final(state)@, reply_of(r)) == set_outcome(
                old(state)@,
                views_of(args@),
                0,
            ),
    {
        match read_set_arguments(args) {
            Err(message) => {
                let r = Err(message);
                assert((state@, reply_of(r)) == set_outcome(old(state)@, views_of(args@), 0));
                r
            },
            Ok((key, ttl)) => {
                let now = match ttl {
                    None => 0,
                    Some(_) => match current_time_ms() {
                        Some(now) => now,
                        None => {
                            return Err("Failed to get current time".to_owned());
                        },
                    },
                };
                state.set_at(key, args[1].clone(), ttl, now);
                let r = Ok(RespType::SimpleString("OK".to_owned()));
                assert((state@, reply_of(r)) == set_outcome(old(state)@, views_of(args@), now));
                r
            },
        }
    }
}

/// The key that `GET` is to read: it takes one argument, the key, a bulk
/// string.
pub open spec fn get_argument(args: Seq<Frame>) -> Result<Seq<char>, Seq<char>> {
    if args.len() < 1 {
        Err("GET requires at least one argument"@)
    } else if args.len() > 1 {
        Err("GET requires exactly one argument"@)
    } else if bulk_text(args[0]) is None {
        Err("GET key must be a bulk string"@)
    } else {
        Ok(bulk_text(args[0])->Some_0)
    }
}

/// What `GET` does at the time `now`: where its argument is in order it
/// reads the key, and a key that is absent or due reads as the null bulk
/// string; else it fails and the store stays as it is.
pub open spec fn get_outcome(m: StoreModel, args: Seq<Frame>, now: u64) -> (
    StoreModel,
    Result<Frame, Seq<char>>,
) {
    match get_argument(args) {
        Err(message) => (m, Err(message)),
        Ok(key) => {
            let (after, found) = get_model(m, key, now);
            (
                after,
                match found {
                    Some(value) => Ok(value),
                    None => Ok(Frame::BulkData(None)),
                },
            )
        },
    }
}

/// Whether what `GET` does with `args` depends on the time: it does where
/// the argument is in order and names a key that is to expire.
pub open spec fn get_needs_clock(m: StoreModel, args: Seq<Frame>) -> bool {
    get_argument(args) is Ok && has_deadline(m, get_argument(args)->Ok_0)
}

/// Reads the argument of `GET`: the key.
pub fn read_get_argument(args: &[RespType]) -> (r: Result<&str, String>)
    ensures
        match get_argument(views_of(args@)) {
            Ok(key) => r is Ok && r->Ok_0@ == key,
            Err(message) => r is Err && r->Err_0@ == message,
        },
{
    if args.len() < 1 {
        return Err("GET requires at least one argument".to_owned());
    }
    if args.len() > 1 {
        return Err("GET requires exactly one argument".to_owned());
    }
    match &args[0] {
        RespType::BulkString(Some(key)) => Ok(key.as_str()),
        _ => Err("GET key must be a bulk string".to_owned()),
    }
}

/// `GET key`: reads a key.
pub struct Get;

impl Get {
    /// Runs `GET` at the time `now`.
    pub fn execute_at(&self, args: &[RespType], state: &mut DefaultServerState, now: u64) -> (r:
        Result<RespType, String>)
        ensures
            (final(state)@, reply_of(r)) == get_outcome(old(state)@, views_of(args@), now),
    {
        match read_get_argument(args) {
            Err(message) => Err(message),
            Ok(key) => match state.get_at(key, now) {
                Some(value) => Ok(value),
                None => Ok(RespType::BulkString(None)),
            },
        }
    }
}

impl Command for Get {
    fn name(&self) -> (r: &str)
        ensures
            r@ == "GET"@,
    {
        "GET"
    }

    /// Runs `GET`. An argument that is not in order fails, and a key that
    /// is absent or not to expire is read, without a look at the clock. A
    /// key that is to expire is read at the time that the clock gives;
    /// without a clock the command fails and the store stays as it is.
    fn execute(&self, args: &[RespType], state: &mut DefaultServerState) -> (r: Result<
        RespType,
        String,
    >)
        ensures
            ({
                &&& get_needs_clock(old(state)@, views_of(args@))
                &&& final(state)@ == old(state)@
                &&& reply_of(r) == Err::<Frame, Seq<char>>(clock_failure())
            }) || exists|now: u64|
                (final(state)@, reply_of(r)) == #[trigger] get_outcome(
                    old(state)@,
                    views_of(args@),
                    now,
                ),
            !get_needs_clock(old(state)@, views_of(args@)) ==> (final(state)@, reply_of(r))
                == get_outcome(old(state)@, views_of(args@), 0),
    {
        let needs_time = match read_get_argument(args) {
            Ok(key) => state.deadline_of(key).is_some(),
            Err(_) => false,
        };
        let now = if needs_time {
            match current_time_ms() {
                Some(now) => now,
                None => {
                    return Err("Failed to get current time".to_owned());
                },
            }
        } else {
            0
        };
        let r = self.execute_at(args, state, now);
        assert((state@, reply_of(r)) == get_outcome(old(state)@, views_of(args@), now));
        r
    }
}

} // verus!
