//! A test runner: it answers the dispatcher's status checks, runs the tests of
//! the commits it is given, and watches whether the dispatcher is still up.

use vstd::prelude::*;
use crate::addr::SocketAddrV4;
use crate::common::{Request, Response};

verus! {

/// Where a test runner finds the dispatcher, where it listens itself, and
/// where its clone of the repository under test lives.
#[derive(Debug)]
pub struct TestRunner {
    pub dispatcher_socket: SocketAddrV4,
    pub test_runner_socket: SocketAddrV4,
    pub repository_path: String,
}

/// What a test runner does with one request it received.
#[derive(Debug)]
pub enum RunnerAction {
    /// Answer with this response.
    Reply(Response),
    /// Run the tests of this commit, answer `Okay`, then send what the tests
    /// printed to the dispatcher as [`Request::Results`].
    RunTests(String),
    /// Stop the program: the request is not one a runner serves.
    Exit,
}

/// The decision for one request: a status check is answered `Okay`, or
/// `Error("Busy")` while the runner is busy; a commit to test is tested; any
/// other request stops the runner.
pub fn handle_request(busy: bool, request: Request) -> (action: RunnerAction)
    ensures
        match request {
            Request::Status => if busy {
                action matches RunnerAction::Reply(Response::Error(m)) && m@ == "Busy"@
            } else {
                action matches RunnerAction::Reply(Response::Okay)
            },
            Request::Dispatch(commit) => action matches RunnerAction::RunTests(c) && c@ == commit@,
            _ => action is Exit,
        },
{
    match request {
        Request::Status => {
            if busy {
                RunnerAction::Reply(Response::Error(String::from_str("Busy")))
            } else {
                RunnerAction::Reply(Response::Okay)
            }
        },
        Request::Dispatch(commit) => RunnerAction::RunTests(commit),
        _ => RunnerAction::Exit,
    }
}

/// Whether the dispatcher counts as up after one status check: an `Error`
/// answer marks it down, and nothing marks it up again.
pub open spec fn alive_after(alive: bool, status: Response) -> bool {
    alive && status is Okay
}

/// An `Okay` answer leaves the watcher's view as it was; an `Error` answer
/// marks the dispatcher down.
pub proof fn lemma_alive_after_cases(alive: bool, message: String)
    ensures
        alive_after(alive, Response::Okay) == alive,
        alive_after(alive, Response::Error(message)) == false,
{
}

/// The watcher's step after one status check of the dispatcher.
pub fn dispatcher_alive_after(alive: bool, status: &Response) -> (r: bool)
    ensures
        r == alive_after(alive, *status),
        r == (alive && *status is Okay),
{
    match status {
        Response::Okay => alive,
        Response::Error(_) => false,
    }
}

/// Once the dispatcher counts as down, no later status check brings it back.
pub proof fn lemma_down_stays_down(statuses: Seq<Response>)
    ensures
        statuses.fold_left(false, |alive: bool, status: Response| alive_after(alive, status)) == false,
    decreases statuses.len(),
{
    if statuses.len() > 0 {
        lemma_down_stays_down(statuses.drop_last());
    }
}


/// A test runner's own address.
#[derive(Debug)]
pub struct TestRunnerServer {
    pub socket: SocketAddrV4,
}

/// A watcher that trusts the last check only: the dispatcher counts as up exactly when
/// its last status check was answered `Okay`.
pub fn dispatcher_alive_from_last_check(status: &Response) -> (r: bool)
    ensures
        r == status is Okay,
{
    match status {
        Response::Okay => true,
        Response::Error(_) => false,
    }
}

/// The two programs run to test a commit, with their arguments, and the file
/// that keeps what the tests printed.
pub struct TestPlan {
    /// The script that brings the runner's clone to the commit.
    pub update_program: String,
    pub update_args: Vec<String>,
    /// The program that runs the tests.
    pub test_program: String,
    pub test_args: Vec<String>,
    /// Where the test output is written.
    pub results_file: String,
}

/// `--manifest-path=<repository>/Cargo.toml`.
pub open spec fn manifest_path_argument(repository_path: Seq<char>) -> Seq<char> {
    "--manifest-path="@ + repository_path + "/Cargo.toml"@
}

/// The manifest argument is the text `--manifest-path=`, then the
/// repository path exactly as given, whatever characters it holds, then
/// `/Cargo.toml`: nothing is quoted or escaped, since the argument reaches
/// cargo without a shell.
pub proof fn lemma_manifest_path_argument_shape(repository_path: Seq<char>)
    ensures
        manifest_path_argument(repository_path).len() == repository_path.len() + 27,
        manifest_path_argument(repository_path).take(16) == "--manifest-path="@,
        manifest_path_argument(repository_path).subrange(16, 16 + repository_path.len() as int) == repository_path,
        manifest_path_argument(repository_path).skip(16 + repository_path.len() as int) == "/Cargo.toml"@,
{
    reveal_strlit("--manifest-path=");
    reveal_strlit("/Cargo.toml");
    let m = manifest_path_argument(repository_path);
    assert(m.take(16) =~= "--manifest-path="@);
    assert(m.subrange(16, 16 + repository_path.len() as int) =~= repository_path);
    assert(m.skip(16 + repository_path.len() as int) =~= "/Cargo.toml"@);
}

/// What a runner does to test `commit_id`: `./test_runner.sh <repository>
/// <commit>`, then `cargo test --manifest-path=<repository>/Cargo.toml`, whose
/// output goes to `TestResults.txt`.
pub fn run_tests_plan(runner: &TestRunner, commit_id: String) -> (plan: TestPlan)
    ensures
        plan.update_program@ == "./test_runner.sh"@,
        plan.update_args@.len() == 2,
        plan.update_args@[0]@ == runner.repository_path@,
        plan.update_args@[1]@ == commit_id@,
        plan.test_program@ == "cargo"@,
        plan.test_args@.len() == 2,
        plan.test_args@[0]@ == "test"@,
        plan.test_args@[1]@ == manifest_path_argument(runner.repository_path@),
        plan.test_args@[1]@ == "--manifest-path="@ + runner.repository_path@ + "/Cargo.toml"@,
        plan.results_file@ == "TestResults.txt"@,
{
    let mut update_args: Vec<String> = Vec::new();
    update_args.push(runner.repository_path.clone());
    update_args.push(commit_id);
    let mut manifest = String::from_str("--manifest-path=");
    manifest.append(runner.repository_path.as_str());
    manifest.append("/Cargo.toml");
    let mut test_args: Vec<String> = Vec::new();
    test_args.push(String::from_str("test"));
    test_args.push(manifest);
    TestPlan {
        update_program: String::from_str("./test_runner.sh"),
        update_args,
        test_program: String::from_str("cargo"),
        test_args,
        results_file: String::from_str("TestResults.txt"),
    }
}

} // verus!
