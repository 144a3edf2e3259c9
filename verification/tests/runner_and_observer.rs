use ci_system::addr::{Ipv4Addr, SocketAddrV4};
use ci_system::common::{Request, Response};
use ci_system::observer::{ConfigError, DispatcherConfig, DispatcherConnection};
use ci_system::observer;
use ci_system::repo_observer::{observer_step, ObserverAction, ObserverEvent};
use ci_system::test_runner::{
    dispatcher_alive_after, dispatcher_alive_from_last_check, handle_request, run_tests_plan,
    RunnerAction, TestRunner,
};

fn args(list: &[&str]) -> Vec<String> {
    list.iter().map(|s| s.to_string()).collect()
}

fn runner_config() -> TestRunner {
    TestRunner {
        dispatcher_socket: SocketAddrV4::new(Ipv4Addr::new(127, 0, 0, 1), 8888),
        test_runner_socket: SocketAddrV4::new(Ipv4Addr::new(127, 0, 0, 1), 10030),
        repository_path: "/tmp/repo".to_string(),
    }
}

#[test]
fn runner_answers_status_by_busyness() {
    match handle_request(true, Request::Status) {
        RunnerAction::Reply(Response::Error(m)) => assert_eq!(m, "Busy"),
        other => panic!("unexpected {:?}", other),
    }
    assert!(matches!(handle_request(false, Request::Status), RunnerAction::Reply(Response::Okay)));
}

#[test]
fn runner_tests_dispatched_commits_and_refuses_the_rest() {
    match handle_request(false, Request::Dispatch("abc123".to_string())) {
        RunnerAction::RunTests(c) => assert_eq!(c, "abc123"),
        other => panic!("unexpected {:?}", other),
    }
    assert!(matches!(handle_request(true, Request::Dispatch("x".to_string())), RunnerAction::RunTests(_)));
    assert!(matches!(handle_request(false, Request::Update("x".to_string())), RunnerAction::Exit));
    let addr = SocketAddrV4::new(Ipv4Addr::new(1, 2, 3, 4), 5);
    assert!(matches!(handle_request(false, Request::Register(addr)), RunnerAction::Exit));
}

#[test]
fn dispatcher_watch() {
    assert!(dispatcher_alive_after(true, &Response::Okay));
    assert!(!dispatcher_alive_after(true, &Response::Error("down".to_string())));
    assert!(!dispatcher_alive_after(false, &Response::Okay));
    assert!(dispatcher_alive_from_last_check(&Response::Okay));
    assert!(!dispatcher_alive_from_last_check(&Response::Error(String::new())));
}

#[test]
fn test_plan_for_a_commit() {
    let plan = run_tests_plan(&runner_config(), "abc".to_string());
    assert_eq!(plan.update_program, "./test_runner.sh");
    assert_eq!(plan.update_args, args(&["/tmp/repo", "abc"]));
    assert_eq!(plan.test_program, "cargo");
    assert_eq!(plan.test_args, args(&["test", "--manifest-path=/tmp/repo/Cargo.toml"]));
    assert_eq!(plan.results_file, "TestResults.txt");
}

#[test]
fn observer_steps() {
    assert_eq!(observer_step(&ObserverEvent::ScriptRan(true)), ObserverAction::CheckCommitFile);
    assert_eq!(observer_step(&ObserverEvent::ScriptRan(false)), ObserverAction::Exit);
    assert_eq!(observer_step(&ObserverEvent::CommitFile(true)), ObserverAction::CheckStatus);
    assert_eq!(observer_step(&ObserverEvent::CommitFile(false)), ObserverAction::Sleep);
    assert_eq!(
        observer_step(&ObserverEvent::StatusAnswer(Response::Okay)),
        ObserverAction::DispatchCommit
    );
    assert_eq!(
        observer_step(&ObserverEvent::StatusAnswer(Response::Error("down".to_string()))),
        ObserverAction::Exit
    );
    assert_eq!(
        observer_step(&ObserverEvent::DispatchAnswer(Response::Error("x".to_string()))),
        ObserverAction::Sleep
    );
    assert_eq!(observer_step(&ObserverEvent::Woke), ObserverAction::RunScript);
}

#[test]
fn config_defaults() {
    let a = args(&["observer"]);
    assert_eq!(DispatcherConfig::check_args(&a, &Some("/repo".to_string())), None);
    let c = DispatcherConfig::build(&a, Some("/repo".to_string()));
    assert_eq!(c.socket, SocketAddrV4::new(Ipv4Addr::new(127, 0, 0, 1), 8080));
    assert_eq!(c.repository_path, "/repo");
    let empty: Vec<String> = Vec::new();
    let c = DispatcherConfig::build(&empty, Some("/r".to_string()));
    assert_eq!(c.socket.port, 8080);
}

#[test]
fn config_from_arguments() {
    let a = args(&["observer", "10.1.2.3", "9000", "/work/repo"]);
    assert_eq!(DispatcherConfig::check_args(&a, &None), None);
    let c = DispatcherConfig::build(&a, None);
    assert_eq!(c.socket, SocketAddrV4::new(Ipv4Addr::new(10, 1, 2, 3), 9000));
    assert_eq!(c.repository_path, "/work/repo");
    let a = args(&["observer", "10.1.2.3.7", "+9000", "/work/repo", "extra"]);
    let c = DispatcherConfig::build(&a, None);
    assert_eq!(c.socket, SocketAddrV4::new(Ipv4Addr::new(10, 1, 2, 3), 9000));
}

#[test]
fn config_errors_in_order() {
    assert_eq!(
        DispatcherConfig::check_args(&args(&["o", "1.2.3", "x"]), &None),
        Some(ConfigError::BadHost)
    );
    assert_eq!(
        DispatcherConfig::check_args(&args(&["o", "1.2.3.4", "70000"]), &None),
        Some(ConfigError::BadPort)
    );
    assert_eq!(
        DispatcherConfig::check_args(&args(&["o", "1.2.3.4", "80"]), &None),
        Some(ConfigError::MissingRepositoryPath)
    );
    assert_eq!(DispatcherConfig::check_args(&args(&["o", "1.2.3.4", "80"]), &Some(String::new())), None);
}

#[test]
fn config_with_default_path() {
    let c = DispatcherConfig::build_with_default_path(&args(&["o", "1.2.3.4"]));
    assert_eq!(c.socket, SocketAddrV4::new(Ipv4Addr::new(1, 2, 3, 4), 8080));
    assert!(c.repository_path.ends_with("test_repo_clone_obs"));
}

#[test]
fn connection_keeps_its_socket() {
    let s = SocketAddrV4::new(Ipv4Addr::new(127, 0, 0, 1), 8080);
    assert_eq!(DispatcherConnection::new(s).dispatcher_socket, s);
}

#[test]
fn observer_treats_any_answer_as_okay() {
    assert_eq!(
        observer::exchange_result(observer::Exchange::Answered(observer::Response::Error)),
        Some(observer::Response::Okay)
    );
    assert_eq!(
        observer::exchange_result(observer::Exchange::Answered(observer::Response::Okay)),
        Some(observer::Response::Okay)
    );
    assert_eq!(observer::exchange_result(observer::Exchange::Unreachable), None);
    assert_eq!(observer::exchange_result(observer::Exchange::Unreadable), None);
}

#[test]
fn runner_exits_on_results() {
    assert!(matches!(
        handle_request(false, Request::Results("c".to_string(), String::new())),
        RunnerAction::Exit
    ));
}
