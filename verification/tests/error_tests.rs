use http_server::error::{ConnError, Error, ParseError};

#[test]
fn error_values() {
    let e = Error::Bind {
        addr: "127.0.0.1:80".to_string(),
        source: std::io::Error::new(std::io::ErrorKind::AddrInUse, "in use"),
    };
    assert!(matches!(e, Error::Bind { ref addr, .. } if addr == "127.0.0.1:80"));
    let c = ConnError::WorkerGone(3);
    assert!(matches!(c, ConnError::WorkerGone(3)));
    let p = ParseError::StatusCode(42);
    assert!(format!("{:?}", p).contains("42"));
}

#[test]
fn server_error_messages() {
    let io = || std::io::Error::new(std::io::ErrorKind::Other, "boom");
    let bind = Error::Bind { addr: "127.0.0.1:80".to_string(), source: io() };
    assert_eq!(bind.message(), "failed to bind 127.0.0.1:80");
    assert_eq!(Error::ConfigureListener(io()).message(), "failed to configure listener");
    assert_eq!(Error::CreatePoll(io()).message(), "failed to create poll instance");
    let spawn = Error::SpawnWorker { id: 12, source: io() };
    assert_eq!(spawn.message(), "failed to spawn worker 12");
    assert_eq!(Error::Accept(io()).message(), "failed to accept connection");
    assert_eq!(Error::Poll(io()).message(), "failed to poll for events");
}

#[test]
fn connection_error_messages() {
    let io = || std::io::Error::new(std::io::ErrorKind::Other, "boom");
    assert_eq!(ConnError::SetNonblocking(io()).message(), "failed to set non-blocking mode");
    assert_eq!(ConnError::WorkerGone(3).message(), "worker 3 has shut down");
    assert_eq!(ConnError::WorkerGone(0).message(), "worker 0 has shut down");
    assert_eq!(ConnError::Register(io()).message(), "failed to register with poll");
    assert_eq!(ConnError::Read(io()).message(), "read failed");
    assert_eq!(ConnError::Write(io()).message(), "write failed");
}

#[test]
fn parse_error_messages() {
    assert_eq!(
        ParseError::IncompleteHead.message(),
        "headers are not terminated by a blank line"
    );
    let bad = std::str::from_utf8(&[0xffu8]).unwrap_err();
    assert_eq!(ParseError::NotUtf8(bad).message(), "headers are not valid UTF-8");
    assert_eq!(
        ParseError::StatusLine("a\"b".to_string()).message(),
        "malformed status line: \"a\\\"b\""
    );
    assert_eq!(ParseError::StatusCode(42).message(), "42 is not a valid status code");
    assert_eq!(
        ParseError::HeaderLine("no colon".to_string()).message(),
        "malformed header line: \"no colon\""
    );
}

#[test]
fn utf8_error_converts_to_not_utf8() {
    let bad = std::str::from_utf8(&[b'a', 0xffu8]).unwrap_err();
    let e = ParseError::from(bad);
    match e {
        ParseError::NotUtf8(inner) => {
            assert_eq!(inner.valid_up_to(), 1);
            assert_eq!(inner, bad);
        }
        _ => panic!("expected NotUtf8"),
    }
}
