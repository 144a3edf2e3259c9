use ci_system::addr::{Ipv4Addr, SocketAddrV4};
use ci_system::common::{exchange_result, Exchange, Request, Response};
use ci_system::dispatcher::{route, DirectReply, RequestRoute, ResultStore, Server};

fn runner(port: u16) -> SocketAddrV4 {
    SocketAddrV4::new(Ipv4Addr::new(127, 0, 0, 1), port)
}

fn dispatch(server: &mut Server, commit: &str) {
    let reply = server.handle_request(Request::Dispatch(commit.to_string()));
    assert!(matches!(reply, Response::Okay));
}

#[test]
fn new_server_is_empty_and_alive() {
    let server = Server::new();
    assert!(server.alive());
    assert!(server.runners().is_empty());
    assert!(server.pending_commits().is_empty());
    assert_eq!(server.dispatched_runner(&"abc".to_string()), None);
}

#[test]
fn every_request_is_answered_okay() {
    let mut server = Server::new();
    for request in [
        Request::Status,
        Request::Update("c1".to_string()),
        Request::Register(runner(9000)),
        Request::Dispatch("c1".to_string()),
    ] {
        assert!(matches!(server.handle_request(request), Response::Okay));
    }
    assert_eq!(server.runners(), &vec![runner(9000)]);
    assert_eq!(server.pending_commits(), vec!["c1".to_string()]);
}

#[test]
fn a_commit_waits_once() {
    let mut server = Server::new();
    dispatch(&mut server, "c1");
    dispatch(&mut server, "c2");
    dispatch(&mut server, "c1");
    assert_eq!(server.pending_commits(), vec!["c1".to_string(), "c2".to_string()]);
}

#[test]
fn registering_twice_keeps_both_entries() {
    let mut server = Server::new();
    server.handle_request(Request::Register(runner(1)));
    server.handle_request(Request::Register(runner(1)));
    assert_eq!(server.runners().len(), 2);
}

#[test]
fn a_round_hands_out_until_the_runner_is_busy() {
    let mut server = Server::new();
    server.handle_request(Request::Register(runner(9000)));
    server.handle_request(Request::Register(runner(9001)));
    dispatch(&mut server, "c1");
    dispatch(&mut server, "c2");
    dispatch(&mut server, "c3");

    let mut round = server.begin_round(runner(9000));
    assert_eq!(round.next_offer(), Some("c1".to_string()));
    server.on_dispatch_reply(&mut round, &Response::Okay);
    assert_eq!(round.next_offer(), Some("c2".to_string()));
    server.on_dispatch_reply(&mut round, &Response::Error("Busy".to_string()));
    assert_eq!(round.next_offer(), None);
    server.end_round(round);

    assert_eq!(server.pending_commits(), vec!["c2".to_string(), "c3".to_string()]);
    assert_eq!(server.dispatched_runner(&"c1".to_string()), Some("127.0.0.1:9000".to_string()));
    assert_eq!(server.dispatched_runner(&"c2".to_string()), None);

    // the next runner is offered what is left
    let mut round = server.begin_round(runner(9001));
    assert_eq!(round.next_offer(), Some("c2".to_string()));
    server.on_dispatch_reply(&mut round, &Response::Okay);
    assert_eq!(round.next_offer(), Some("c3".to_string()));
    server.on_dispatch_reply(&mut round, &Response::Okay);
    assert_eq!(round.next_offer(), None);
    server.end_round(round);
    assert!(server.pending_commits().is_empty());
    assert_eq!(server.dispatched_runner(&"c3".to_string()), Some("127.0.0.1:9001".to_string()));
}

#[test]
fn a_commit_handed_out_before_is_not_offered_again() {
    let mut server = Server::new();
    server.handle_request(Request::Register(runner(1)));
    server.handle_request(Request::Register(runner(2)));
    dispatch(&mut server, "c1");
    let mut round = server.begin_round(runner(1));
    server.on_dispatch_reply(&mut round, &Response::Okay);
    server.end_round(round);
    // the same commit is sent again: it waits, but nobody is offered it
    dispatch(&mut server, "c1");
    assert_eq!(server.pending_commits(), vec!["c1".to_string()]);
    let round = server.begin_round(runner(2));
    assert_eq!(round.next_offer(), None);
    assert_eq!(server.dispatched_runner(&"c1".to_string()), Some("127.0.0.1:1".to_string()));
}

#[test]
fn dead_runners_are_dropped() {
    let mut server = Server::new();
    for p in [1, 2, 1, 3] {
        server.handle_request(Request::Register(runner(p)));
    }
    server.remove_dead_runners(&vec![runner(1), runner(7)]);
    assert_eq!(server.runners(), &vec![runner(2), runner(3)]);
    server.remove_dead_runners(&vec![]);
    assert_eq!(server.runners(), &vec![runner(2), runner(3)]);
}

#[test]
fn direct_mode_refuses_commits_without_runners() {
    let mut server = Server::new();
    match server.handle_request_direct(Request::Dispatch("c1".to_string())) {
        DirectReply::Reply(Response::Error(m)) => assert_eq!(m, "No runners available"),
        other => panic!("unexpected {:?}", other),
    }
    assert!(matches!(
        server.handle_request_direct(Request::Update("c1".to_string())),
        DirectReply::Silent
    ));
    assert!(matches!(
        server.handle_request_direct(Request::Status),
        DirectReply::Reply(Response::Okay)
    ));
    assert!(matches!(
        server.handle_request_direct(Request::Register(runner(5))),
        DirectReply::Reply(Response::Okay)
    ));
    match server.handle_request_direct(Request::Dispatch("c1".to_string())) {
        DirectReply::DispatchTest(c) => assert_eq!(c, "c1"),
        other => panic!("unexpected {:?}", other),
    }
    assert!(server.pending_commits().is_empty());
}

#[test]
fn direct_mode_records_and_removes() {
    let mut server = Server::new();
    dispatch(&mut server, "c1");
    dispatch(&mut server, "c2");
    server.record_dispatch(&"c1".to_string(), runner(4));
    server.record_dispatch(&"c1".to_string(), runner(5));
    assert_eq!(server.dispatched_runner(&"c1".to_string()), Some("127.0.0.1:5".to_string()));
    assert_eq!(server.pending_commits(), vec!["c2".to_string()]);
    server.handle_request(Request::Register(runner(4)));
    server.handle_request(Request::Register(runner(5)));
    server.remove_runner_at(0);
    assert_eq!(server.runners(), &vec![runner(5)]);
}

#[test]
fn any_readable_answer_counts_as_okay() {
    assert!(matches!(exchange_result(Exchange::Answered(Response::Okay)), Some(Response::Okay)));
    assert!(matches!(
        exchange_result(Exchange::Answered(Response::Error("x".to_string()))),
        Some(Response::Okay)
    ));
    assert!(exchange_result(Exchange::Unreachable).is_none());
    assert!(exchange_result(Exchange::Unreadable).is_none());
}

#[test]
fn a_round_adds_nothing_and_loses_nothing() {
    let mut server = Server::new();
    server.handle_request(Request::Register(runner(1)));
    server.handle_request(Request::Register(runner(2)));
    for c in ["a", "b", "c"] {
        dispatch(&mut server, c);
    }
    let mut round = server.begin_round(runner(2));
    server.on_dispatch_reply(&mut round, &Response::Okay);
    server.on_dispatch_reply(&mut round, &Response::Okay);
    server.on_dispatch_reply(&mut round, &Response::Error("Busy".to_string()));
    server.end_round(round);
    // every commit still waits or is recorded, for the runner visited
    assert_eq!(server.pending_commits(), vec!["c".to_string()]);
    assert_eq!(server.dispatched_runner(&"a".to_string()), Some("127.0.0.1:2".to_string()));
    assert_eq!(server.dispatched_runner(&"b".to_string()), Some("127.0.0.1:2".to_string()));
    assert_eq!(server.runners(), &vec![runner(1), runner(2)]);
    assert!(server.alive());
    // removing dead runners keeps the records
    server.remove_dead_runners(&vec![runner(2)]);
    assert_eq!(server.runners(), &vec![runner(1)]);
    assert_eq!(server.dispatched_runner(&"a".to_string()), Some("127.0.0.1:2".to_string()));
    assert_eq!(server.pending_commits(), vec!["c".to_string()]);
}

#[test]
fn direct_mode_hands_out_only_after_an_okay_status() {
    let mut server = Server::new();
    dispatch(&mut server, "c1");
    dispatch(&mut server, "c2");
    let c1 = "c1".to_string();
    assert!(!server.on_status_reply(&c1, runner(3), &Response::Error("Busy".to_string())));
    assert_eq!(server.dispatched_runner(&c1), None);
    assert_eq!(server.pending_commits(), vec!["c1".to_string(), "c2".to_string()]);
    assert!(server.on_status_reply(&c1, runner(4), &Response::Okay));
    assert_eq!(server.dispatched_runner(&c1), Some("127.0.0.1:4".to_string()));
    assert_eq!(server.pending_commits(), vec!["c2".to_string()]);
    assert!(matches!(
        server.handle_request_direct(Request::Results("c1".to_string(), "ok".to_string())),
        DirectReply::Silent
    ));
}

#[test]
fn requests_are_routed() {
    assert!(matches!(route(Request::Status), RequestRoute::Answer(Response::Okay)));
    assert!(matches!(route(Request::Update("x".to_string())), RequestRoute::Answer(Response::Okay)));
    assert!(matches!(route(Request::Register(runner(1))), RequestRoute::Server(Request::Register(_))));
    assert!(matches!(route(Request::Dispatch("x".to_string())), RequestRoute::Server(Request::Dispatch(_))));
    match route(Request::Results("c9".to_string(), "3 passed".to_string())) {
        RequestRoute::Results(c, o) => {
            assert_eq!(c, "c9");
            assert_eq!(o, "3 passed");
        }
        other => panic!("unexpected {:?}", other),
    }
}

#[test]
fn results_are_kept_by_commit_in_files_of_their_own() {
    let mut store = ResultStore::new();
    assert_eq!(store.output_of(&"c1".to_string()), None);
    let f1 = store.record("c1".to_string(), "first".to_string());
    let f2 = store.record("c2".to_string(), "second".to_string());
    assert_eq!(f1, "TestResults-c1.txt");
    assert_eq!(f2, "TestResults-c2.txt");
    assert_eq!(store.output_of(&"c1".to_string()), Some("first".to_string()));
    let again = store.record("c1".to_string(), "rerun".to_string());
    assert_eq!(again, "TestResults-c1.txt");
    assert_eq!(store.output_of(&"c1".to_string()), Some("rerun".to_string()));
    assert_eq!(store.output_of(&"c2".to_string()), Some("second".to_string()));
}

#[test]
fn the_dispatcher_state_ignores_results() {
    let mut server = Server::new();
    let reply = server.handle_request(Request::Results("c".to_string(), "out".to_string()));
    assert!(matches!(reply, Response::Okay));
    assert!(server.pending_commits().is_empty());
    assert!(server.runners().is_empty());
}
