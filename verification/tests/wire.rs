use engram::resp::{ProtocolError, Request, Value};
use engram::server::{is_search, Connections, Next};
use engram::text;

#[test]
fn replies_are_encoded() {
    assert_eq!(Value::Simple("OK".to_string()).encode(), b"+OK\r\n");
    assert_eq!(Value::Error("ERR x".to_string()).encode(), b"-ERR x\r\n");
    assert_eq!(Value::Integer(1).encode(), b":1\r\n");
    assert_eq!(Value::Integer(i64::MIN).encode(), b":-9223372036854775808\r\n");
    assert_eq!(Value::Bulk(b"a\r\nb".to_vec()).encode(), b"$4\r\na\r\nb\r\n");
    assert_eq!(
        Value::Array(vec![Value::Bulk(b"k".to_vec()), Value::Array(vec![])]).encode(),
        b"*2\r\n$1\r\nk\r\n*0\r\n"
    );
}

fn command(data: &[u8]) -> (Vec<Vec<u8>>, usize) {
    match Request::parse(data) {
        Ok(Request::Command { argv, consumed }) => (argv, consumed),
        _ => panic!("expected a command"),
    }
}

#[test]
fn requests_are_parsed() {
    let data = b"*2\r\n$4\r\nVADD\r\n$3\r\na\r\n\r\nrest";
    let (argv, consumed) = command(data);
    assert_eq!(argv, vec![b"VADD".to_vec(), b"a\r\n".to_vec()]);
    assert_eq!(consumed, data.len() - 4);
}

#[test]
fn every_cut_request_is_incomplete() {
    let data = b"*2\r\n$4\r\nVADD\r\n$3\r\nabc\r\n";
    for n in 0..data.len() {
        assert!(matches!(Request::parse(&data[..n]), Ok(Request::Incomplete)), "{n}");
    }
    assert_eq!(command(data).1, data.len());
}

#[test]
fn empty_requests_are_recognised() {
    assert!(matches!(Request::parse(b"*0\r\nx"), Ok(Request::Empty { consumed: 4 })));
    assert!(matches!(Request::parse(b"\r\n"), Ok(Request::Empty { consumed: 2 })));
    assert!(matches!(Request::parse(b"\r"), Ok(Request::Incomplete)));
}

fn protocol_error(data: &[u8]) -> ProtocolError {
    match Request::parse(data) {
        Err(e) => e,
        Ok(_) => panic!("expected an error"),
    }
}

#[test]
fn broken_requests_are_errors() {
    assert_eq!(protocol_error(b"PING\r\n"), ProtocolError::ExpectedArray);
    assert_eq!(protocol_error(b"\rx"), ProtocolError::ExpectedArray);
    assert_eq!(protocol_error(b"*x\r\n"), ProtocolError::InvalidCount);
    assert_eq!(protocol_error(b"*1\r\n:1\r\n"), ProtocolError::ExpectedBulk);
    assert_eq!(protocol_error(b"*1\r\n$-1\r\n"), ProtocolError::InvalidLength);
    assert_eq!(protocol_error(b"*1\r\n$1\r\nabc"), ProtocolError::UnterminatedBulk);
    assert_eq!(
        ProtocolError::ExpectedArray.message(),
        "ERR Protocol error: expected '*'"
    );
}

#[test]
fn numbers_are_parsed_and_written() {
    assert_eq!(text::parse_usize(b"0"), Some(0));
    assert_eq!(text::parse_usize(b"+17"), Some(17));
    assert_eq!(text::parse_usize(b"00042"), Some(42));
    for bad in ["", "+", "-1", "1 ", "1x", "++1", "99999999999999999999999999"] {
        assert_eq!(text::parse_usize(bad.as_bytes()), None, "{bad}");
    }
    let most = usize::MAX.to_string();
    assert_eq!(text::parse_usize(most.as_bytes()), Some(usize::MAX));
    for n in [0u64, 9, 10, 99, 100, 1234567890, u64::MAX] {
        let mut s = String::from("n=");
        text::push_decimal(&mut s, n);
        assert_eq!(s, format!("n={n}"));
    }
}

#[test]
fn words_are_spelled_in_either_case() {
    assert!(is_search(b"VSEARCH"));
    assert!(is_search(b"vSearch"));
    assert!(!is_search(b"VSEARCHX"));
    assert!(!text::spells(b"@etric", "`etric"));
}

fn request(words: &[&str]) -> Vec<u8> {
    let items = words.iter().map(|w| Value::Bulk(w.as_bytes().to_vec())).collect();
    Value::Array(items).encode()
}

fn served(next: Next) -> Vec<Vec<u8>> {
    match next {
        Next::Serve { argv } => argv,
        _ => panic!("expected a command to serve"),
    }
}

#[test]
fn commands_are_served_one_after_the_other() {
    let mut conns = Connections::new();
    conns.accept(5);
    let mut bytes = request(&["VINFO", "a"]);
    bytes.extend_from_slice(b"\r\n*0\r\n");
    bytes.extend(request(&["VINFO", "b"]));
    // The bytes arrive split in the middle of the second command.
    let (one, two) = bytes.split_at(bytes.len() - 3);
    conns.receive(5, one);
    assert_eq!(served(conns.next(5))[1], b"a");
    assert!(matches!(conns.next(5), Next::Wait));
    conns.receive(5, two);
    assert_eq!(served(conns.next(5))[1], b"b");
    assert!(matches!(conns.next(5), Next::Wait));
}

#[test]
fn busy_connection_waits_for_its_search() {
    let mut conns = Connections::new();
    conns.accept(5);
    conns.accept(6);
    let mut bytes = request(&["VSEARCH", "i", "q", "1"]);
    bytes.extend(request(&["VINFO", "i"]));
    conns.receive(5, &bytes);
    let id = match conns.next(5) {
        Next::Search { conn_id, argv } => {
            assert_eq!(argv.len(), 4);
            conn_id
        }
        _ => panic!("expected a search"),
    };
    assert!(matches!(conns.next(5), Next::Wait));
    // Another connection is not held up.
    conns.receive(6, &request(&["VINFO", "j"]));
    assert_eq!(served(conns.next(6))[1], b"j");

    assert!(conns.awaits(5, id));
    assert!(!conns.awaits(5, id + 1));
    assert!(!conns.awaits(6, id));
    conns.resume(5);
    assert!(!conns.awaits(5, id));
    assert_eq!(served(conns.next(5))[1], b"i");
}

#[test]
fn stale_result_is_not_delivered_to_a_newer_connection() {
    let mut conns = Connections::new();
    conns.accept(5);
    conns.receive(5, &request(&["VSEARCH", "i", "q", "1"]));
    let old = match conns.next(5) {
        Next::Search { conn_id, .. } => conn_id,
        _ => panic!("expected a search"),
    };
    conns.close(5);
    assert!(!conns.awaits(5, old));
    conns.accept(5);
    conns.receive(5, &request(&["VSEARCH", "i", "q", "1"]));
    let new = match conns.next(5) {
        Next::Search { conn_id, .. } => conn_id,
        _ => panic!("expected a search"),
    };
    assert_ne!(old, new);
    assert!(!conns.awaits(5, old));
    assert!(conns.awaits(5, new));
}

#[test]
fn connection_that_breaks_the_protocol_is_dropped() {
    let mut conns = Connections::new();
    conns.accept(5);
    conns.receive(5, b"PING\r\n");
    match conns.next(5) {
        Next::Fail { reply } => assert_eq!(
            reply,
            Value::Error("ERR Protocol error: expected '*'".to_string())
        ),
        _ => panic!("expected a failure"),
    }
    conns.receive(5, &request(&["VINFO", "i"]));
    assert!(matches!(conns.next(5), Next::Wait));
}

#[test]
fn closed_connection_is_awaited_nowhere_again() {
    let search = request(&["VSEARCH", "mem", "x", "3"]);
    let mut connections = Connections::new();
    connections.accept(5);
    connections.receive(5, &search);
    let id = match connections.next(5) {
        Next::Search { conn_id, .. } => conn_id,
        _ => panic!("expected a search"),
    };
    assert!(connections.awaits(5, id));
    connections.close(5);
    for fd in [5, 6, 5] {
        connections.accept(fd);
        connections.receive(fd, &search);
        assert!(matches!(connections.next(fd), Next::Search { .. }));
        assert!(!connections.awaits(fd, id));
        connections.resume(fd);
        assert!(!connections.awaits(fd, id));
    }
}
