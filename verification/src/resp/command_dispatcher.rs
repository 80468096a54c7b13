//! The registry of commands, and how a request finds its handler.

use vstd::prelude::*;
use vstd::string::StringExecFns;
use crate::resp::commands::{
    echo_model,
    get_needs_clock,
    get_outcome,
    read_get_argument,
    read_set_arguments,
    set_needs_clock,
    set_outcome,
    to_upper,
    uppercase,
    Command,
    Echo,
    Get,
    Ping,
    SetCommand,
};
use crate::resp::protocol::{reply_of, views_of, Frame, RespType};
use crate::resp::state::default_server_state::{current_time_ms, DefaultServerState};
use crate::resp::state::model::{clock_failure, StoreModel};
use crate::resp::text::same_text;

verus! {

/// The commands that can be registered.
#[derive(Debug, Clone, Copy, PartialEq, Eq, Structural)]
pub enum Handler {
    /// `PING`.
    Ping,
    /// `ECHO`.
    Echo,
    /// `SET`, which writes a key.
    Write,
    /// `GET`, which reads a key.
    Read,
}

/// One line of the registry: a name in upper case and the command that
/// answers to it.
pub struct Registration {
    pub name: String,
    pub handler: Handler,
}

/// The registry of commands.
pub struct CommandDispatcher {
    pub commands: Vec<Registration>,
}

/// Whether the line `i` of `table` is the first with the name `name`.
pub open spec fn registered_at(table: Seq<Registration>, name: Seq<char>, i: int) -> bool {
    0 <= i < table.len() && table[i].name@ == name && forall|j: int|
        0 <= j < i ==> (#[trigger] table[j]).name@ != name
}

/// The command that `table` holds for `name`: that of the first line with
/// this name.
pub open spec fn resolve(table: Seq<Registration>, name: Seq<char>) -> Option<Handler> {
    if exists|i: int| registered_at(table, name, i) {
        Some(table[choose|i: int| registered_at(table, name, i)].handler)
    } else {
        None
    }
}

/// What the command `handler` does with `args` on the store `m` at the
/// time `now`: the store afterwards, and the answer.
pub open spec fn run(handler: Handler, m: StoreModel, args: Seq<Frame>, now: u64) -> (
    StoreModel,
    Result<Frame, Seq<char>>,
) {
    match handler {
        Handler::Ping => (m, Ok(Frame::SimpleStatus("PONG"@))),
        Handler::Echo => (m, echo_model(args)),
        Handler::Write => set_outcome(m, args, now),
        Handler::Read => get_outcome(m, args, now),
    }
}

/// What a request does, where `upper` is the name `name` in upper case: the
/// registered command runs, and a name that is not registered is answered
/// with a failure that quotes it as it was given.
pub open spec fn dispatch_model(
    table: Seq<Registration>,
    upper: Seq<char>,
    name: Seq<char>,
    m: StoreModel,
    args: Seq<Frame>,
    now: u64,
) -> (StoreModel, Result<Frame, Seq<char>>) {
    match resolve(table, upper) {
        Some(handler) => run(handler, m, args, now),
        None => (m, Err("Unknown command: "@ + name)),
    }
}

/// The first line with a name is the one that `resolve` finds.
proof fn lemma_resolve_is(table: Seq<Registration>, name: Seq<char>, i: int)
    requires
        registered_at(table, name, i),
    ensures
        resolve(table, name) == Some(table[i].handler),
{
    let c = choose|c: int| registered_at(table, name, c);
    if c < i {
        assert(table[c].name@ != name);
    }
    if i < c {
        assert(table[i].name@ != name);
    }
}

impl CommandDispatcher {
    /// The registry of the four commands `ECHO`, `PING`, `SET` and `GET`.
    pub fn new() -> (r: Self)
        ensures
            r.commands@.len() == 4,
            resolve(r.commands@, "ECHO"@) == Some(Handler::Echo),
            resolve(r.commands@, "PING"@) == Some(Handler::Ping),
            resolve(r.commands@, "SET"@) == Some(Handler::Write),
            resolve(r.commands@, "GET"@) == Some(Handler::Read),
            forall|name: Seq<char>|
                name != "ECHO"@ && name != "PING"@ && name != "SET"@ && name != "GET"@ ==> resolve(
                    r.commands@,
                    name,
                ) is None,
    {
        let mut commands: Vec<Registration> = Vec::new();
        commands.push(Registration { name: Echo.name().to_owned(), handler: Handler::Echo });
        commands.push(Registration { name: Ping.name().to_owned(), handler: Handler::Ping });
        commands.push(Registration { name: SetCommand.name().to_owned(), handler: Handler::Write });
        commands.push(Registration { name: Get.name().to_owned(), handler: Handler::Read });
        proof {
            reveal_strlit("ECHO");
            reveal_strlit("PING");
            reveal_strlit("SET");
            reveal_strlit("GET");
            let table = commands@;
            assert("ECHO"@ != "PING"@ && "ECHO"@ != "SET"@ && "ECHO"@ != "GET"@) by {
                assert("ECHO"@.len() == 4 && "SET"@.len() == 3 && "GET"@.len() == 3);
                assert("ECHO"@[0] == 'E' && "PING"@[0] == 'P');
            }
            assert("PING"@ != "SET"@ && "PING"@ != "GET"@ && "SET"@ != "GET"@) by {
                assert("PING"@.len() == 4 && "SET"@.len() == 3 && "GET"@.len() == 3);
                assert("SET"@[0] == 'S' && "GET"@[0] == 'G');
            }
            assert(registered_at(table, "ECHO"@, 0));
            assert(registered_at(table, "PING"@, 1));
            assert(registered_at(table, "SET"@, 2));
            assert(registered_at(table, "GET"@, 3));
            lemma_resolve_is(table, "ECHO"@, 0);
            lemma_resolve_is(table, "PING"@, 1);
            lemma_resolve_is(table, "SET"@, 2);
            lemma_resolve_is(table, "GET"@, 3);
        }
        CommandDispatcher { commands }
    }

    /// Finds the command that is registered under `upper`.
    pub fn find_handler(&self, upper: &str) -> (r: Option<Handler>)
        ensures
            r == resolve(self.commands@, upper@),
    {
        let mut i: usize = 0;
        while i < self.commands.len()
            invariant
                i <= self.commands@.len(),
                forall|j: int| 0 <= j < i ==> (#[trigger] self.commands@[j]).name@ != upper@,
            decreases self.commands.len() - i,
        {
            if same_text(self.commands[i].name.as_str(), upper) {
                proof {
                    lemma_resolve_is(self.commands@, upper@, i as int);
                }
                return Some(self.commands[i].handler);
            }
            i = i + 1;
        }
        None
    }

    /// Runs the request `command_name` with `args` at the time `now`, where
    /// `upper` is what `command_name` is in upper case.
    pub fn dispatch_resolved(
        &self,
        upper: &str,
        command_name: &str,
        args: Vec<RespType>,
        state: &mut DefaultServerState,
        now: u64,
    ) -> (r: Result<RespType, String>)
        ensures
            (final(state)@, reply_of(r)) == dispatch_model(
                self.commands@,
                upper@,
                command_name@,
                old(state)@,
                views_of(args@),
                now,
            ),
    {
        match self.find_handler(upper) {
            Some(Handler::Ping) => Ping.execute(args.as_slice(), state),
            Some(Handler::Echo) => Echo.execute(args.as_slice(), state),
            Some(Handler::Write) => SetCommand.execute_at(args.as_slice(), state, now),
            Some(Handler::Read) => Get.execute_at(args.as_slice(), state, now),
            None => {
                let mut message = "Unknown command: ".to_owned();
                message.append(command_name);
                Err(message)
            },
        }
    }

    /// Runs the request `command_name` with `args` at the time `now`. The
    /// name is looked up in upper case, so that it resolves whatever its
    /// case.
    pub fn dispatch_at(
        &self,
        command_name: &str,
        args: Vec<RespType>,
        state: &mut DefaultServerState,
        now: u64,
    ) -> (r: Result<RespType, String>)
        ensures
            (final(state)@, reply_of(r)) == dispatch_model(
                self.commands@,
                uppercase(command_name@),
                command_name@,
                old(state)@,
                views_of(args@),
                now,
            ),
    {
        let upper = to_upper(command_name);
        self.dispatch_resolved(upper.as_str(), command_name, args, state, now)
    }

    /// Runs the request `command_name` with `args`. The clock is read only
    /// where what the command does depends on the time; there the command
    /// runs at the time that the clock gives, and without a clock it fails
    /// and the store stays as it is.
    pub fn dispatch(
        &self,
        command_name: &str,
        args: Vec<RespType>,
        state: &mut DefaultServerState,
    ) -> (r: Result<RespType, String>)
        ensures
            ({
                &&& needs_clock(
                    resolve(self.commands@, uppercase(command_name@)),
                    old(state)@,
                    views_of(args@),
                )
                &&& final(state)@ == old(state)@
                &&& reply_of(r) == Err::<Frame, Seq<char>>(clock_failure())
            }) || exists|now: u64|
                (final(state)@, reply_of(r)) == #[trigger] dispatch_model(
                    self.commands@,
                    uppercase(command_name@),
                    command_name@,
                    old(state)@,
                    views_of(args@),
                    now,
                ),
            !needs_clock(
                resolve(self.commands@, uppercase(command_name@)),
                old(state)@,
                views_of(args@),
            ) ==> (final(state)@, reply_of(r)) == dispatch_model(
                self.commands@,
                uppercase(command_name@),
                command_name@,
                old(state)@,
                views_of(args@),
                0,
            ),
    {
        let upper = to_upper(command_name);
        let handler = self.find_handler(upper.as_str());
        let needs_time = match handler {
            Some(Handler::Write) => match read_set_arguments(args.as_slice()) {
                Ok((_, ttl)) => ttl.is_some(),
                Err(_) => false,
            },
            Some(Handler::Read) => match read_get_argument(args.as_slice()) {
                Ok(key) => state.deadline_of(key).is_some(),
                Err(_) => false,
            },
            _ => false,
        };
        let now = if needs_time {
            match current_time_ms() {
                Some(now) => now,
                None => {
                    return Err("Failed to get current time".to_owned());
                },
            }
        } else {
            0
        };
        let r = self.dispatch_resolved(upper.as_str(), command_name, args, state, now);
        assert((state@, reply_of(r)) == dispatch_model(
            self.commands@,
            uppercase(command_name@),
            command_name@,
            old(state)@,
            views_of(args@),
            now,
        ));
        r
    }
}

/// Whether what the command `handler` does with `args` on the store `m`
/// depends on the time: `SET` where it gives a time to live, and `GET`
/// where it reads a key that is to expire.
pub open spec fn needs_clock(handler: Option<Handler>, m: StoreModel, args: Seq<Frame>) -> bool {
    match handler {
        Some(Handler::Write) => set_needs_clock(args),
        Some(Handler::Read) => get_needs_clock(m, args),
        _ => false,
    }
}

} // verus!
