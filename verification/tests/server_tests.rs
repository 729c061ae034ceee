use http_server::error::report;
use http_server::server::listener::{AcceptAction, AcceptOutcome, Dispatcher, ACCEPT_BACKOFF_MS};
use http_server::server::worker::{
    on_poll, on_read, ConnState, HandleResult, PollAction, PollOutcome, ReadAction, ReadOutcome,
    Worker,
};
use http_server::server::{Server, THREAD_POOL_SIZE};

#[test]
fn server_address() {
    let s = Server::new("127.0.0.1", 8080);
    assert_eq!(s.host(), "127.0.0.1");
    assert_eq!(s.port(), 8080);
    assert_eq!(s.address(), "127.0.0.1:8080");
    assert_eq!(Server::new("localhost", 0).address(), "localhost:0");
    assert_eq!(THREAD_POOL_SIZE, 4);
}

#[test]
fn report_joins_the_chain() {
    let chain = vec!["read failed".to_string(), "Connection reset by peer".to_string()];
    assert_eq!(report(&chain), "read failed: Connection reset by peer");
    assert_eq!(report(&vec!["worker 3 has shut down".to_string()]), "worker 3 has shut down");
    assert_eq!(report(&vec!["a".to_string(), "b".to_string(), "c".to_string()]), "a: b: c");
    assert_eq!(report(&Vec::new()), "");
}

#[test]
fn round_robin_dispatch() {
    let mut d = Dispatcher::new(THREAD_POOL_SIZE);
    let mut targets = Vec::new();
    for _ in 0..9 {
        match d.on_accept(AcceptOutcome::Accepted) {
            AcceptAction::Dispatch(i) => targets.push(i),
            _ => panic!("an accepted connection is dispatched"),
        }
    }
    assert_eq!(targets, vec![0, 1, 2, 3, 0, 1, 2, 3, 0]);
}

#[test]
fn accept_errors() {
    let mut d = Dispatcher::new(2);
    assert_eq!(d.on_accept(AcceptOutcome::WouldBlock), AcceptAction::Backoff);
    assert_eq!(d.on_accept(AcceptOutcome::Interrupted), AcceptAction::Retry);
    assert_eq!(d.on_accept(AcceptOutcome::ConnectionAborted), AcceptAction::Retry);
    assert_eq!(d.on_accept(AcceptOutcome::Accepted), AcceptAction::Dispatch(0));
    assert_eq!(d.on_accept(AcceptOutcome::Failed), AcceptAction::Stop);
    assert_eq!(d.on_accept(AcceptOutcome::Accepted), AcceptAction::Dispatch(1));
    assert_eq!(ACCEPT_BACKOFF_MS, 50);
}

#[test]
fn poll_decisions() {
    assert_eq!(on_poll(PollOutcome::Ready), PollAction::HandleEvents);
    assert_eq!(on_poll(PollOutcome::Interrupted), PollAction::Retry);
    assert_eq!(on_poll(PollOutcome::Failed), PollAction::Stop);
}

#[test]
fn read_decisions() {
    assert_eq!(on_read(ReadOutcome::Data(5)), ReadAction::Echo(5));
    assert_eq!(on_read(ReadOutcome::Data(0)), ReadAction::Done(ConnState::Closed));
    assert_eq!(on_read(ReadOutcome::WouldBlock), ReadAction::Done(ConnState::Open));
    assert_eq!(on_read(ReadOutcome::Interrupted), ReadAction::Retry);
    assert_eq!(on_read(ReadOutcome::Failed), ReadAction::Fail);
}

#[test]
fn worker_bookkeeping() {
    let mut w = Worker::new();
    let t0 = w.assign_token().unwrap();
    let t1 = w.assign_token().unwrap();
    assert_eq!((t0, t1), (0, 1));
    // only the token handed out last can be registered
    assert!(!w.register(t0));
    assert!(w.register(t1));
    assert!(!w.register(t1));
    assert!(w.serves(t1, true));
    assert!(!w.serves(t1, false));
    assert!(!w.serves(t0, true));
    assert!(!w.finish(t1, HandleResult::Open));
    assert!(w.serves(t1, true));
    assert!(w.finish(t1, HandleResult::Closed));
    assert!(!w.serves(t1, true));
    assert!(!w.finish(t1, HandleResult::Failed));
    let t2 = w.assign_token().unwrap();
    assert_eq!(t2, 2);
    assert!(w.register(t2));
    assert!(w.finish(t2, HandleResult::Failed));
    assert!(!w.serves(t2, true));
}
