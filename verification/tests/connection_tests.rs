use codecrafters_redis::resp::command_dispatcher::CommandDispatcher;
use codecrafters_redis::resp::connection::{
    drain_at, respond, respond_at, split_request, write_answer, Step,
};
use codecrafters_redis::resp::protocol::RespType;
use codecrafters_redis::resp::state::default_server_state::DefaultServerState;

fn bulk(text: &str) -> RespType {
    RespType::BulkString(Some(text.to_string()))
}

/// Sends `req` to a server with `state` and hands back what it writes.
fn send_and_receive(
    dispatcher: &CommandDispatcher,
    state: &mut DefaultServerState,
    req: &[u8],
) -> Vec<u8> {
    match respond(dispatcher, state, req) {
        Step::Reply { bytes, used } => {
            assert_eq!(used, req.len());
            bytes
        }
        _ => panic!("no reply"),
    }
}

#[test]
fn test_ping_e2e() {
    let dispatcher = CommandDispatcher::new();
    let mut state = DefaultServerState::default();
    let response = send_and_receive(&dispatcher, &mut state, b"*1\r\n$4\r\nPING\r\n");
    assert_eq!(response, b"+PONG\r\n");
}

#[test]
fn test_echo_e2e() {
    let dispatcher = CommandDispatcher::new();
    let mut state = DefaultServerState::default();
    let response = send_and_receive(
        &dispatcher,
        &mut state,
        b"*2\r\n$4\r\nECHO\r\n$13\r\nHello, World!\r\n",
    );
    assert_eq!(response, b"$13\r\nHello, World!\r\n");
}

#[test]
fn simultaneous_connections() {
    let dispatcher = CommandDispatcher::new();
    let mut state = DefaultServerState::default();
    let response1 = send_and_receive(&dispatcher, &mut state, b"*1\r\n$4\r\nPING\r\n");
    let response2 = send_and_receive(&dispatcher, &mut state, b"*1\r\n$4\r\nPING\r\n");
    assert_eq!(response1, b"+PONG\r\n");
    assert_eq!(response2, b"+PONG\r\n");
}

#[test]
fn test_multiple_commands() {
    let dispatcher = CommandDispatcher::new();
    let mut state = DefaultServerState::default();
    let response = send_and_receive(&dispatcher, &mut state, b"*1\r\n$4\r\nPING\r\n");
    assert_eq!(response, b"+PONG\r\n");
    let response = send_and_receive(
        &dispatcher,
        &mut state,
        b"*2\r\n$4\r\nECHO\r\n$13\r\nHello, World!\r\n",
    );
    assert_eq!(response, b"$13\r\nHello, World!\r\n");
    let response = send_and_receive(&dispatcher, &mut state, b"*1\r\n$4\r\nPING\r\n");
    assert_eq!(response, b"+PONG\r\n");
}

#[test]
fn set_and_get_over_the_wire() {
    let dispatcher = CommandDispatcher::new();
    let mut state = DefaultServerState::default();
    let response = send_and_receive(
        &dispatcher,
        &mut state,
        b"*3\r\n$3\r\nSET\r\n$3\r\nkey\r\n$5\r\nvalue\r\n",
    );
    assert_eq!(response, b"+OK\r\n");
    let response = send_and_receive(&dispatcher, &mut state, b"*2\r\n$3\r\nGET\r\n$3\r\nkey\r\n");
    assert_eq!(response, b"$5\r\nvalue\r\n");
    let response = send_and_receive(&dispatcher, &mut state, b"*2\r\n$3\r\nget\r\n$5\r\nnever\r\n");
    assert_eq!(response, b"$-1\r\n");
}

#[test]
fn failures_are_answered_and_do_not_close() {
    let dispatcher = CommandDispatcher::new();
    let mut state = DefaultServerState::default();
    let response = send_and_receive(&dispatcher, &mut state, b"*1\r\n$4\r\nECHO\r\n");
    assert_eq!(response, b"-ECHO requires at least one argument\r\n");
    let response = send_and_receive(&dispatcher, &mut state, b"*2\r\n$3\r\nSET\r\n$1\r\nk\r\n");
    assert_eq!(response, b"-SET requires at least two arguments\r\n");
    let response = send_and_receive(&dispatcher, &mut state, b"*3\r\n$3\r\nSET\r\n:1\r\n$1\r\nv\r\n");
    assert_eq!(response, b"-SET key must be a bulk string\r\n");
    let response = send_and_receive(&dispatcher, &mut state, b"*1\r\n$5\r\nhello\r\n");
    assert_eq!(response, b"-Unknown command: hello\r\n");
    let response = send_and_receive(
        &dispatcher,
        &mut state,
        b"*5\r\n$3\r\nSET\r\n$1\r\nk\r\n$1\r\nv\r\n$2\r\nPX\r\n$2\r\n-5\r\n",
    );
    assert_eq!(response, b"-TTL must be non-negative\r\n");
    let response = send_and_receive(&dispatcher, &mut state, b"*1\r\n$4\r\nPING\r\n");
    assert_eq!(response, b"+PONG\r\n");
}

#[test]
fn a_cut_request_waits() {
    let dispatcher = CommandDispatcher::new();
    let mut state = DefaultServerState::default();
    let request = b"*3\r\n$3\r\nSET\r\n$3\r\nkey\r\n$5\r\nvalue\r\n";
    for cut in 0..request.len() {
        assert!(matches!(
            respond_at(&dispatcher, &mut state, &request[..cut], 0),
            Step::Wait
        ));
        assert!(matches!(
            respond(&dispatcher, &mut state, &request[..cut]),
            Step::Wait
        ));
    }
    assert_eq!(state.get_at("key", 0), None);
}

#[test]
fn malformed_input_closes() {
    let dispatcher = CommandDispatcher::new();
    let mut state = DefaultServerState::default();
    for input in [&b"PING\r\n"[..], b"*x\r\n", b"*1\r\n$4\r\nPINGPONG", b"*1\r\n$1\r\n\xff\r\n"] {
        assert!(matches!(
            respond_at(&dispatcher, &mut state, input, 0),
            Step::Close
        ));
        assert!(matches!(respond(&dispatcher, &mut state, input), Step::Close));
    }
}

#[test]
fn a_frame_that_is_no_request_is_skipped() {
    let dispatcher = CommandDispatcher::new();
    let mut state = DefaultServerState::default();
    let cases: [(&[u8], usize); 6] = [
        (b"+PING\r\n", 7),
        (b":1\r\n", 4),
        (b"$4\r\nPING\r\n", 10),
        (b"*0\r\n", 4),
        (b"*-1\r\n", 5),
        (b"*1\r\n+PING\r\nrest", 11),
    ];
    for (input, length) in cases {
        match respond_at(&dispatcher, &mut state, input, 0) {
            Step::Skip { used } => assert_eq!(used, length),
            _ => panic!("not skipped"),
        }
        match respond(&dispatcher, &mut state, input) {
            Step::Skip { used } => assert_eq!(used, length),
            _ => panic!("not skipped"),
        }
    }
}

#[test]
fn a_request_is_taken_apart() {
    assert_eq!(
        split_request(RespType::Array(vec![bulk("ECHO"), bulk("a"), RespType::Integer(2)])),
        Some(("ECHO".to_string(), vec![bulk("a"), RespType::Integer(2)]))
    );
    assert_eq!(
        split_request(RespType::Array(vec![bulk("ping")])),
        Some(("ping".to_string(), vec![]))
    );
    assert_eq!(split_request(RespType::Array(vec![])), None);
    assert_eq!(
        split_request(RespType::Array(vec![RespType::BulkString(None), bulk("a")])),
        None
    );
    assert_eq!(split_request(bulk("PING")), None);
    assert_eq!(split_request(RespType::Integer(1)), None);
}

#[test]
fn answers_are_written_as_frames() {
    assert_eq!(write_answer(Ok(bulk("hi"))), b"$2\r\nhi\r\n");
    assert_eq!(write_answer(Ok(RespType::BulkString(None))), b"$-1\r\n");
    assert_eq!(write_answer(Err("bad".to_string())), b"-bad\r\n");
}

#[test]
fn requests_in_a_row_are_answered_in_order() {
    let dispatcher = CommandDispatcher::new();
    let mut state = DefaultServerState::default();
    let input = b"*1\r\n$4\r\nPING\r\n*2\r\n$4\r\nECHO\r\n$1\r\nx\r\n";
    let drained = drain_at(&dispatcher, &mut state, input, 0);
    assert_eq!(drained.replies, b"+PONG\r\n$1\r\nx\r\n");
    assert_eq!(drained.used, input.len());
    assert!(!drained.close);
}

#[test]
fn a_drain_stops_inside_a_cut_request() {
    let dispatcher = CommandDispatcher::new();
    let mut state = DefaultServerState::default();
    let input = b"*3\r\n$3\r\nSET\r\n$1\r\nk\r\n$1\r\nv\r\n+skipped\r\n*2\r\n$3\r\nGET\r\n$1\r\nk\r\n*1\r\n$4\r\nPI";
    let drained = drain_at(&dispatcher, &mut state, input, 0);
    assert_eq!(drained.replies, b"+OK\r\n$1\r\nv\r\n");
    assert_eq!(drained.used, input.len() - 10);
    assert!(!drained.close);
    let drained = drain_at(&dispatcher, &mut state, b"", 0);
    assert_eq!(drained.replies, b"");
    assert_eq!(drained.used, 0);
    assert!(!drained.close);
}

#[test]
fn a_drain_closes_at_malformed_input() {
    let dispatcher = CommandDispatcher::new();
    let mut state = DefaultServerState::default();
    let input = b"*1\r\n$4\r\nPING\r\n!\r\n*1\r\n$4\r\nPING\r\n";
    let drained = drain_at(&dispatcher, &mut state, input, 0);
    assert_eq!(drained.replies, b"+PONG\r\n");
    assert_eq!(drained.used, 14);
    assert!(drained.close);
}

#[test]
fn a_drain_runs_every_request_at_the_given_time() {
    let dispatcher = CommandDispatcher::new();
    let mut state = DefaultServerState::default();
    let set = b"*5\r\n$3\r\nSET\r\n$1\r\nk\r\n$1\r\nv\r\n$2\r\npx\r\n$3\r\n100\r\n*2\r\n$3\r\nGET\r\n$1\r\nk\r\n";
    let drained = drain_at(&dispatcher, &mut state, set, 1_000);
    assert_eq!(drained.replies, b"+OK\r\n$1\r\nv\r\n");
    let get = b"*2\r\n$3\r\nGET\r\n$1\r\nk\r\n";
    let drained = drain_at(&dispatcher, &mut state, get, 1_099);
    assert_eq!(drained.replies, b"$1\r\nv\r\n");
    let drained = drain_at(&dispatcher, &mut state, get, 1_150);
    assert_eq!(drained.replies, b"$-1\r\n");
    assert!(!state.exists_at("k", 0));
}
