use codecrafters_redis::resp::command_dispatcher::{CommandDispatcher, Handler, Registration};
use codecrafters_redis::resp::commands::{
    read_get_argument, read_set_arguments, read_ttl_amount, read_ttl_option, Command, Echo, Get,
    Ping, SetCommand,
};
use codecrafters_redis::resp::protocol::RespType;
use codecrafters_redis::resp::state::default_server_state::DefaultServerState;

fn bulk(text: &str) -> RespType {
    RespType::BulkString(Some(text.to_string()))
}

fn ok() -> Result<RespType, String> {
    Ok(RespType::SimpleString("OK".to_string()))
}

#[test]
fn the_registry_holds_the_four_commands() {
    let dispatcher = CommandDispatcher::new();
    assert_eq!(dispatcher.commands.len(), 4);
    assert_eq!(dispatcher.find_handler("PING"), Some(Handler::Ping));
    assert_eq!(dispatcher.find_handler("ECHO"), Some(Handler::Echo));
    assert_eq!(dispatcher.find_handler("SET"), Some(Handler::Write));
    assert_eq!(dispatcher.find_handler("GET"), Some(Handler::Read));
    assert_eq!(dispatcher.find_handler("ping"), None);
    assert_eq!(dispatcher.find_handler("DEL"), None);
    assert_eq!(dispatcher.find_handler(""), None);
}

#[test]
fn commands_know_their_names() {
    assert_eq!(Ping.name(), "PING");
    assert_eq!(Echo.name(), "ECHO");
    assert_eq!(SetCommand.name(), "SET");
    assert_eq!(Get.name(), "GET");
}

#[test]
fn dispatch_finds_a_command_whatever_its_case() {
    let dispatcher = CommandDispatcher::new();
    let mut state = DefaultServerState::default();
    let pong = Ok(RespType::SimpleString("PONG".to_string()));
    assert_eq!(dispatcher.dispatch("PING", vec![], &mut state), pong);
    assert_eq!(dispatcher.dispatch("ping", vec![], &mut state), pong);
    assert_eq!(dispatcher.dispatch("PiNg", vec![], &mut state), pong);
    assert_eq!(
        dispatcher.dispatch("echo", vec![bulk("hi")], &mut state),
        Ok(bulk("hi"))
    );
    assert_eq!(
        dispatcher.dispatch("set", vec![bulk("k"), bulk("v")], &mut state),
        ok()
    );
    assert_eq!(
        dispatcher.dispatch("Get", vec![bulk("k")], &mut state),
        Ok(bulk("v"))
    );
}

#[test]
fn dispatch_quotes_an_unknown_name_as_given() {
    let dispatcher = CommandDispatcher::new();
    let mut state = DefaultServerState::default();
    assert_eq!(
        dispatcher.dispatch("flushall", vec![], &mut state),
        Err("Unknown command: flushall".to_string())
    );
    assert_eq!(
        dispatcher.dispatch_at("Nope", vec![bulk("x")], &mut state, 0),
        Err("Unknown command: Nope".to_string())
    );
    assert_eq!(
        dispatcher.dispatch("", vec![], &mut state),
        Err("Unknown command: ".to_string())
    );
    assert_eq!(
        dispatcher.dispatch_resolved("PING", "whatever", vec![], &mut state, 0),
        Ok(RespType::SimpleString("PONG".to_string()))
    );
    assert_eq!(
        dispatcher.dispatch_resolved("ping", "PING", vec![], &mut state, 0),
        Err("Unknown command: PING".to_string())
    );
}

#[test]
fn dispatch_goes_by_the_first_line_with_a_name() {
    let dispatcher = CommandDispatcher {
        commands: vec![
            Registration { name: "HELLO".to_string(), handler: Handler::Ping },
            Registration { name: "HELLO".to_string(), handler: Handler::Echo },
            Registration { name: "SAY".to_string(), handler: Handler::Echo },
        ],
    };
    let mut state = DefaultServerState::default();
    assert_eq!(
        dispatcher.dispatch("hello", vec![bulk("x")], &mut state),
        Ok(RespType::SimpleString("PONG".to_string()))
    );
    assert_eq!(
        dispatcher.dispatch("say", vec![bulk("x")], &mut state),
        Ok(bulk("x"))
    );
    assert_eq!(
        dispatcher.dispatch("PING", vec![], &mut state),
        Err("Unknown command: PING".to_string())
    );
}

#[test]
fn dispatch_runs_set_and_get_at_the_given_time() {
    let dispatcher = CommandDispatcher::new();
    let mut state = DefaultServerState::default();
    let args = vec![bulk("k"), bulk("v"), bulk("px"), bulk("100")];
    assert_eq!(dispatcher.dispatch_at("SET", args, &mut state, 1_000), ok());
    assert_eq!(
        dispatcher.dispatch_at("GET", vec![bulk("k")], &mut state, 1_000),
        Ok(bulk("v"))
    );
    assert_eq!(
        dispatcher.dispatch_at("GET", vec![bulk("k")], &mut state, 1_099),
        Ok(bulk("v"))
    );
    assert_eq!(
        dispatcher.dispatch_at("GET", vec![bulk("k")], &mut state, 1_150),
        Ok(RespType::BulkString(None))
    );
    assert!(!state.exists_at("k", 0));
}

#[test]
fn set_with_px_takes_a_number_or_a_numeric_text() {
    let mut state = DefaultServerState::default();
    let cmd = SetCommand;
    let args = vec![bulk("k"), bulk("v"), bulk("PX"), RespType::Integer(100)];
    assert_eq!(cmd.execute_at(&args, &mut state, 1_000), ok());
    assert_eq!(state.ttl_at("k", 1_000), Ok(Some(0)));
    assert!(state.exists_at("k", 1_099));
    assert!(!state.exists_at("k", 1_100));
    let args = vec![bulk("k"), bulk("v"), bulk("Px"), bulk("2500")];
    assert_eq!(cmd.execute_at(&args, &mut state, 1_000), ok());
    assert_eq!(state.ttl_at("k", 1_000), Ok(Some(2)));
    let args = vec![bulk("k"), bulk("v"), bulk("px"), bulk("0")];
    assert_eq!(cmd.execute_at(&args, &mut state, 1_000), ok());
    assert!(!state.exists_at("k", 1_000));
    let args = vec![bulk("k"), bulk("v"), bulk("PX"), bulk("+7"), bulk("extra")];
    assert_eq!(cmd.execute_at(&args, &mut state, 1_000), ok());
    assert!(state.exists_at("k", 1_006));
    assert!(!state.exists_at("k", 1_007));
}

#[test]
fn set_without_px_clears_the_expiry() {
    let mut state = DefaultServerState::default();
    let cmd = SetCommand;
    let args = vec![bulk("k"), bulk("v"), bulk("PX"), bulk("100")];
    assert_eq!(cmd.execute_at(&args, &mut state, 1_000), ok());
    let args = vec![bulk("k"), RespType::Integer(5)];
    assert_eq!(cmd.execute_at(&args, &mut state, 1_050), ok());
    assert_eq!(state.ttl_at("k", 1_050), Ok(None));
    assert_eq!(state.get_at("k", 9_000), Some(RespType::Integer(5)));
}

#[test]
fn set_rejects_a_bad_option_and_changes_nothing() {
    let mut state = DefaultServerState::default();
    let cmd = SetCommand;
    state.set_at("k".to_string(), bulk("old"), None, 0);
    let cases: Vec<(Vec<RespType>, &str)> = vec![
        (
            vec![bulk("k"), bulk("v"), bulk("PX"), bulk("-1")],
            "TTL must be non-negative",
        ),
        (
            vec![bulk("k"), bulk("v"), bulk("PX"), RespType::Integer(-100)],
            "TTL must be non-negative",
        ),
        (
            vec![bulk("k"), bulk("v"), bulk("PX"), bulk("soon")],
            "PX value must be an integer",
        ),
        (
            vec![bulk("k"), bulk("v"), bulk("PX"), bulk("")],
            "PX value must be an integer",
        ),
        (
            vec![bulk("k"), bulk("v"), bulk("PX"), bulk("99999999999999999999")],
            "PX value must be an integer",
        ),
        (
            vec![bulk("k"), bulk("v"), bulk("PX"), RespType::BulkString(None)],
            "PX value must be an integer",
        ),
        (
            vec![bulk("k"), bulk("v"), bulk("PX"), RespType::SimpleString("5".to_string())],
            "PX value must be an integer",
        ),
        (
            vec![bulk("k"), bulk("v"), bulk("EX"), bulk("100")],
            "invalid SET option",
        ),
        (
            vec![bulk("k"), bulk("v"), bulk(""), bulk("100")],
            "invalid SET option",
        ),
        (
            vec![bulk("k"), bulk("v"), RespType::Integer(1), bulk("100")],
            "invalid SET option",
        ),
        (
            vec![bulk("k"), bulk("v"), RespType::SimpleString("PX".to_string()), bulk("100")],
            "invalid SET option",
        ),
        (
            vec![RespType::Integer(1), bulk("v")],
            "SET key must be a bulk string",
        ),
        (
            vec![RespType::BulkString(None), bulk("v")],
            "SET key must be a bulk string",
        ),
        (
            vec![RespType::SimpleString("k".to_string()), bulk("v")],
            "SET key must be a bulk string",
        ),
        (
            vec![RespType::Array(vec![]), bulk("v"), bulk("PX"), bulk("1")],
            "SET key must be a bulk string",
        ),
        (vec![bulk("k")], "SET requires at least two arguments"),
    ];
    for (args, message) in cases {
        assert_eq!(
            cmd.execute_at(&args, &mut state, 1_000),
            Err(message.to_string()),
            "{:?}",
            args
        );
        assert_eq!(state.get_at("k", 1_000), Some(bulk("old")));
        assert_eq!(state.ttl_at("k", 1_000), Ok(None));
    }
}

#[test]
fn get_wants_one_key() {
    let mut state = DefaultServerState::default();
    let cmd = Get;
    state.set_at("k".to_string(), RespType::Integer(7), None, 0);
    assert_eq!(cmd.execute_at(&[bulk("k")], &mut state, 0), Ok(RespType::Integer(7)));
    assert_eq!(
        cmd.execute_at(&[bulk("k"), bulk("k")], &mut state, 0),
        Err("GET requires exactly one argument".to_string())
    );
    assert_eq!(
        cmd.execute_at(&[RespType::Integer(1)], &mut state, 0),
        Err("GET key must be a bulk string".to_string())
    );
    assert_eq!(
        cmd.execute_at(&[RespType::BulkString(None)], &mut state, 0),
        Err("GET key must be a bulk string".to_string())
    );
    assert_eq!(
        cmd.execute_at(&[], &mut state, 0),
        Err("GET requires at least one argument".to_string())
    );
}

#[test]
fn echo_answers_a_status_as_a_status() {
    let mut state = DefaultServerState::default();
    let status = RespType::SimpleString("hi".to_string());
    assert_eq!(Echo.execute(&[status.clone()], &mut state), Ok(status));
    for other in [
        RespType::BulkString(None),
        RespType::Error("e".to_string()),
        RespType::Array(vec![bulk("x")]),
    ] {
        assert_eq!(
            Echo.execute(&[other], &mut state),
            Err("ECHO argument must be a string".to_string())
        );
    }
    assert_eq!(state.get_at("hi", 0), None);
}

#[test]
fn ping_ignores_its_arguments() {
    let mut state = DefaultServerState::default();
    assert_eq!(
        Ping.execute(&[bulk("x"), RespType::Integer(1)], &mut state),
        Ok(RespType::SimpleString("PONG".to_string()))
    );
}

#[test]
fn the_option_reader_goes_by_the_upper_case_name() {
    assert_eq!(read_ttl_option(Some("PX"), &bulk("15")), Ok(15));
    assert_eq!(read_ttl_option(Some("PX"), &RespType::Integer(0)), Ok(0));
    assert_eq!(
        read_ttl_option(Some("px"), &bulk("15")),
        Err("invalid SET option".to_string())
    );
    assert_eq!(
        read_ttl_option(Some("PXX"), &bulk("15")),
        Err("invalid SET option".to_string())
    );
    assert_eq!(
        read_ttl_option(None, &bulk("15")),
        Err("invalid SET option".to_string())
    );
    assert_eq!(
        read_ttl_option(Some("EX"), &bulk("nonsense")),
        Err("invalid SET option".to_string())
    );
    assert_eq!(read_ttl_amount(&bulk("9223372036854775807")), Ok(i64::MAX));
    assert_eq!(
        read_ttl_amount(&bulk("-9223372036854775808")),
        Err("TTL must be non-negative".to_string())
    );
    assert_eq!(
        read_ttl_amount(&bulk(" 5")),
        Err("PX value must be an integer".to_string())
    );
    assert_eq!(
        read_ttl_amount(&RespType::Array(vec![])),
        Err("PX value must be an integer".to_string())
    );
}

#[test]
fn the_arguments_of_set_are_read() {
    assert_eq!(
        read_set_arguments(&[bulk("k"), bulk("v")]),
        Ok(("k".to_string(), None))
    );
    assert_eq!(
        read_set_arguments(&[bulk("k"), RespType::Integer(1), RespType::Integer(60)]),
        Ok(("k".to_string(), None))
    );
    assert_eq!(
        read_set_arguments(&[bulk("k"), bulk("v"), bulk("px"), bulk("100")]),
        Ok(("k".to_string(), Some(100)))
    );
    assert_eq!(
        read_set_arguments(&[bulk("k"), bulk("v"), bulk("PX"), RespType::Integer(0)]),
        Ok(("k".to_string(), Some(0)))
    );
    assert_eq!(
        read_set_arguments(&[bulk("k")]),
        Err("SET requires at least two arguments".to_string())
    );
    assert_eq!(
        read_set_arguments(&[RespType::Integer(1), bulk("v"), bulk("PX"), bulk("1")]),
        Err("SET key must be a bulk string".to_string())
    );
    assert_eq!(
        read_set_arguments(&[bulk("k"), bulk("v"), bulk("EX"), bulk("1")]),
        Err("invalid SET option".to_string())
    );
    assert_eq!(
        read_set_arguments(&[bulk("k"), bulk("v"), bulk("PX"), bulk("-1")]),
        Err("TTL must be non-negative".to_string())
    );
}

#[test]
fn the_argument_of_get_is_read() {
    assert_eq!(read_get_argument(&[bulk("k")]), Ok("k"));
    assert_eq!(read_get_argument(&[bulk("")]), Ok(""));
    assert_eq!(
        read_get_argument(&[]),
        Err("GET requires at least one argument".to_string())
    );
    assert_eq!(
        read_get_argument(&[bulk("k"), bulk("l")]),
        Err("GET requires exactly one argument".to_string())
    );
    assert_eq!(
        read_get_argument(&[RespType::SimpleString("k".to_string())]),
        Err("GET key must be a bulk string".to_string())
    );
}

#[test]
fn commands_that_ask_no_time_run_through_the_plain_functions() {
    let dispatcher = CommandDispatcher::new();
    let mut state = DefaultServerState::default();
    assert_eq!(
        SetCommand.execute(&[bulk("k")], &mut state),
        Err("SET requires at least two arguments".to_string())
    );
    assert_eq!(
        SetCommand.execute(&[bulk("k"), bulk("v"), bulk("EX"), bulk("1")], &mut state),
        Err("invalid SET option".to_string())
    );
    assert_eq!(SetCommand.execute(&[bulk("k"), bulk("v")], &mut state), ok());
    assert_eq!(Get.execute(&[bulk("k")], &mut state), Ok(bulk("v")));
    assert_eq!(
        Get.execute(&[bulk("absent")], &mut state),
        Ok(RespType::BulkString(None))
    );
    assert_eq!(
        Get.execute(&[RespType::Integer(1)], &mut state),
        Err("GET key must be a bulk string".to_string())
    );
    assert_eq!(
        dispatcher.dispatch("get", vec![bulk("k"), bulk("k")], &mut state),
        Err("GET requires exactly one argument".to_string())
    );
    assert_eq!(
        dispatcher.dispatch("set", vec![bulk("k"), bulk("w"), bulk("px"), bulk("100000")], &mut state),
        ok()
    );
    assert_eq!(
        dispatcher.dispatch("get", vec![bulk("k")], &mut state),
        Ok(bulk("w"))
    );
}
