//! The dispatcher: it keeps the test runners that registered, the commits
//! waiting to be tested and the runner each commit went to, and hands the
//! waiting commits out to the runners.

use vstd::prelude::*;
use crate::addr::SocketAddrV4;
use crate::common::{Request, Response};
use crate::text::{find_string, strings};

verus! {

/// The commits of a dispatch record, in order.
pub open spec fn record_commits(d: Seq<(String, String)>) -> Seq<Seq<char>> {
    d.map_values(|e: (String, String)| e.0@)
}

/// Which runner each commit of a dispatch record went to.
pub open spec fn record_map(d: Seq<(String, String)>) -> Map<Seq<char>, Seq<char>> {
    Map::new(
        |c: Seq<char>| record_commits(d).contains(c),
        |c: Seq<char>| d[record_commits(d).index_of(c)].1@,
    )
}

/// What the dispatcher knows.
pub struct ServerView {
    /// Whether the dispatcher still serves.
    pub alive: bool,
    /// The runners that registered and were not found dead, in order.
    pub runners: Seq<SocketAddrV4>,
    /// For each commit handed out, the address of the runner that took it.
    pub dispatched: Map<Seq<char>, Seq<char>>,
    /// The commits waiting for a runner, each once, in the order they are
    /// offered.
    pub pending: Seq<Seq<char>>,
}

/// Which part of the dispatcher serves a request.
#[derive(Debug)]
pub enum RequestRoute {
    /// The request is answered at once, with this response, and touches no
    /// state.
    Answer(Response),
    /// The request changes the runners or the waiting commits: see
    /// [`Server::handle_request`].
    Server(Request),
    /// Test results to keep: see [`ResultStore::record`].
    Results(String, String),
}

/// Where a request goes: status checks and updates are answered `Okay` at
/// once; registrations and commits to test go to the dispatcher's state; test
/// results go to the result store.
pub fn route(request: Request) -> (r: RequestRoute)
    ensures
        match request {
            Request::Status => r matches RequestRoute::Answer(Response::Okay),
            Request::Update(_) => r matches RequestRoute::Answer(Response::Okay),
            Request::Results(commit, output) => r matches RequestRoute::Results(c, o) && c@ == commit@
                && o@ == output@,
            _ => r == RequestRoute::Server(request),
        },
{
    match request {
        Request::Status => RequestRoute::Answer(Response::Okay),
        Request::Update(_) => RequestRoute::Answer(Response::Okay),
        Request::Results(commit, output) => RequestRoute::Results(commit, output),
        _ => RequestRoute::Server(request),
    }
}

/// A request answered at once leaves the dispatcher's state as it is, and
/// the state would have answered it `Okay` too.
pub proof fn lemma_answered_requests_touch_nothing(s: ServerView, request: Request)
    requires
        request is Status || request is Update,
    ensures
        after_request(s, request) == s,
{
}

/// The file the dispatcher keeps a commit's test results in.
pub open spec fn results_file_name(commit: Seq<char>) -> Seq<char> {
    "TestResults-"@ + commit + ".txt"@
}

/// A result file's name is `TestResults-`, then the commit exactly as
/// given, then `.txt`; so two commits never share a file.
pub proof fn lemma_results_file_name_shape(commit: Seq<char>, other: Seq<char>)
    ensures
        results_file_name(commit).len() == commit.len() + 16,
        results_file_name(commit).take(12) == "TestResults-"@,
        results_file_name(commit).subrange(12, 12 + commit.len() as int) == commit,
        results_file_name(commit).skip(12 + commit.len() as int) == ".txt"@,
        results_file_name(commit) == results_file_name(other) ==> commit == other,
{
    reveal_strlit("TestResults-");
    reveal_strlit(".txt");
    let f = results_file_name(commit);
    assert(f.take(12) =~= "TestResults-"@);
    assert(f.subrange(12, 12 + commit.len() as int) =~= commit);
    assert(f.skip(12 + commit.len() as int) =~= ".txt"@);
    let g = results_file_name(other);
    if f == g {
        assert(g.subrange(12, 12 + other.len() as int) =~= other);
        assert(commit =~= other);
    }
}

/// The test results the dispatcher gathered, by commit.
pub struct ResultStore {
    entries: Vec<(String, String)>,
}

impl View for ResultStore {
    type V = Map<Seq<char>, Seq<char>>;

    open spec fn view(&self) -> Map<Seq<char>, Seq<char>> {
        self.results()
    }
}

impl ResultStore {
    pub closed spec fn results(&self) -> Map<Seq<char>, Seq<char>> {
        record_map(self.entries@)
    }

    /// No commit has two entries.
    pub closed spec fn wf(&self) -> bool {
        record_commits(self.entries@).no_duplicates()
    }

    pub fn new() -> (s: ResultStore)
        ensures
            s.wf(),
            s@ == Map::<Seq<char>, Seq<char>>::empty(),
    {
        let s = ResultStore { entries: Vec::new() };
        assert(s@ =~= Map::<Seq<char>, Seq<char>>::empty());
        s
    }

    /// Keeps the results of `commit`, replacing earlier ones, and names the
    /// file to write them to.
    pub fn record(&mut self, commit: String, output: String) -> (file: String)
        requires
            old(self).wf(),
        ensures
            final(self).wf(),
            final(self)@ == old(self)@.insert(commit@, output@),
            file@ == results_file_name(commit@),
            file@ == "TestResults-"@ + commit@ + ".txt"@,
    {
        let mut file = String::from_str("TestResults-");
        file.append(commit.as_str());
        file.append(".txt");
        let ghost d0 = self.entries@;
        match find_record(&self.entries, &commit) {
            Some(i) => {
                let entry = (commit, output);
                proof {
                    lemma_record_update(d0, i as int, entry);
                }
                self.entries.set(i, entry);
            },
            None => {
                let entry = (commit, output);
                proof {
                    lemma_record_push(d0, entry);
                }
                self.entries.push(entry);
            },
        }
        file
    }

    /// The results kept for `commit`, if any.
    pub fn output_of(&self, commit: &String) -> (r: Option<String>)
        requires
            self.wf(),
        ensures
            r is Some <==> self@.contains_key(commit@),
            r matches Some(o) ==> o@ == self@[commit@],
    {
        let ghost d = self.entries@;
        match find_record(&self.entries, commit) {
            Some(i) => {
                proof {
                    let k = record_commits(d).index_of(commit@);
                    assert(record_commits(d)[i as int] == commit@);
                    assert(0 <= k < d.len() && record_commits(d)[k] == commit@);
                    assert(k == i);
                }
                Some(self.entries[i].1.clone())
            },
            None => None,
        }
    }
}

/// The dispatcher's state.
pub struct Server {
    alive: bool,
    runners: Vec<SocketAddrV4>,
    dispatched_commits: Vec<(String, String)>,
    pending_commits: Vec<String>,
}

/// The state after one request: a runner that registers is added at the end
/// of the list, a commit to test joins the waiting commits unless it is there
/// already, and nothing else changes.
pub open spec fn after_request(s: ServerView, request: Request) -> ServerView {
    match request {
        Request::Register(runner) => ServerView { runners: s.runners.push(runner), ..s },
        Request::Dispatch(commit) => if s.pending.contains(commit@) {
            s
        } else {
            ServerView { pending: s.pending.push(commit@), ..s }
        },
        _ => s,
    }
}

impl View for Server {
    type V = ServerView;

    open spec fn view(&self) -> ServerView {
        self.state()
    }
}

impl Server {
    pub closed spec fn state(&self) -> ServerView {
        ServerView {
            alive: self.alive,
            runners: self.runners@,
            dispatched: record_map(self.dispatched_commits@),
            pending: strings(self.pending_commits@),
        }
    }

    /// No commit waits twice and no commit is recorded twice.
    pub closed spec fn wf(&self) -> bool {
        &&& strings(self.pending_commits@).no_duplicates()
        &&& record_commits(self.dispatched_commits@).no_duplicates()
    }

    /// A well-formed dispatcher has each waiting commit once.
    pub proof fn lemma_pending_unique(&self)
        requires
            self.wf(),
        ensures
            self@.pending.no_duplicates(),
    {
    }

    /// A dispatcher that serves, with no runner and no commit.
    pub fn new() -> (s: Server)
        ensures
            s.wf(),
            s@.alive,
            s@.runners == Seq::<SocketAddrV4>::empty(),
            s@.dispatched == Map::<Seq<char>, Seq<char>>::empty(),
            s@.pending == Seq::<Seq<char>>::empty(),
    {
        let s = Server {
            alive: true,
            runners: Vec::new(),
            dispatched_commits: Vec::new(),
            pending_commits: Vec::new(),
        };
        assert(s@.dispatched =~= Map::<Seq<char>, Seq<char>>::empty());
        assert(s@.pending =~= Seq::<Seq<char>>::empty());
        s
    }

    pub fn alive(&self) -> (b: bool)
        ensures
            b == self@.alive,
    {
        self.alive
    }

    pub fn runners(&self) -> (r: &Vec<SocketAddrV4>)
        ensures
            r@ == self@.runners,
    {
        &self.runners
    }

    /// Answers one request: the dispatcher answers every request with `Okay`.
    pub fn handle_request(&mut self, request: Request) -> (reply: Response)
        requires
            old(self).wf(),
        ensures
            final(self).wf(),
            final(self)@ == after_request(old(self)@, request),
            reply is Okay,
            final(self)@.dispatched == old(self)@.dispatched,
            final(self)@.alive == old(self)@.alive,
            old(self)@.runners.is_prefix_of(final(self)@.runners),
            forall|c: Seq<char>| #[trigger] old(self)@.pending.contains(c) ==> final(self)@.pending.contains(c),
            request is Register ==> final(self)@.pending == old(self)@.pending
                && final(self)@.runners == old(self)@.runners.push(request->Register_0),
            request is Dispatch ==> final(self)@.runners == old(self)@.runners
                && final(self)@.pending.contains(request->Dispatch_0@)
                && forall|c: Seq<char>| c != request->Dispatch_0@ ==> (#[trigger] final(self)@.pending.contains(c)
                    <==> old(self)@.pending.contains(c)),
            !(request is Register) && !(request is Dispatch) ==> final(self)@ == old(self)@,
    {
        proof {
            lemma_requests_lose_nothing(old(self)@, request);
            if request is Register {
                lemma_register_only_appends(old(self)@, request->Register_0);
            } else if request is Dispatch {
                lemma_dispatch_request_queues(old(self)@, request->Dispatch_0);
            } else {
                lemma_other_requests_change_nothing(old(self)@, request);
            }
        }
        match request {
            Request::Register(runner) => {
                self.runners.push(runner);
            },
            Request::Dispatch(commit) => {
                let ghost c = commit@;
                match find_string(&self.pending_commits, &commit) {
                    Some(_) => {
                        assert(strings(self.pending_commits@).contains(c)) by {
                            let i = choose|i: int| 0 <= i < self.pending_commits@.len() && self.pending_commits@[i]@ == c;
                            assert(strings(self.pending_commits@)[i] == c);
                        }
                    },
                    None => {
                        let ghost before = self.pending_commits@;
                        self.pending_commits.push(commit);
                        assert(strings(self.pending_commits@) =~= strings(before).push(c));
                    },
                }
            },
            _ => {},
        }
        Response::Okay
    }

    /// Drops from the runner list every runner that `dead` names.
    pub fn remove_dead_runners(&mut self, dead: &Vec<SocketAddrV4>)
        requires
            old(self).wf(),
        ensures
            final(self).wf(),
            final(self)@ == (ServerView {
                runners: old(self)@.runners.filter(|r: SocketAddrV4| !dead@.contains(r)),
                ..old(self)@
            }),
            dispatch_progress(old(self)@, final(self)@),
    {
        proof {
            lemma_removal_progress(old(self)@, dead@);
        }
        let ghost keep = |r: SocketAddrV4| !dead@.contains(r);
        let n = self.runners.len();
        let mut kept: Vec<SocketAddrV4> = Vec::new();
        let mut i: usize = 0;
        assert(self.runners@.take(0) =~= Seq::<SocketAddrV4>::empty());
        while i < n
            invariant
                n == self.runners@.len(),
                i <= n,
                kept@ == self.runners@.take(i as int).filter(keep),
                keep == (|r: SocketAddrV4| !dead@.contains(r)),
            decreases n - i,
        {
            let r = self.runners[i];
            let is_dead = contains_addr(dead, &r);
            proof {
                self.runners@.take(i as int).lemma_filter_push(r, keep);
                assert(self.runners@.take(i + 1) =~= self.runners@.take(i as int).push(r));
            }
            if !is_dead {
                kept.push(r);
            }
            i = i + 1;
        }
        assert(self.runners@.take(n as int) =~= self.runners@);
        self.runners = kept;
        assert(self@ =~= (ServerView {
            runners: old(self)@.runners.filter(|r: SocketAddrV4| !dead@.contains(r)),
            ..old(self)@
        }));
    }

    /// Starts a visit to `runner`: the commits to offer it are the waiting
    /// ones that were not handed out yet, in waiting order.
    pub fn begin_round(&self, runner: SocketAddrV4) -> (round: RunnerRound)
        requires
            self.wf(),
            self@.runners.contains(runner),
        ensures
            round@.start == self@,
            round@.runner == runner,
            round@.runner_name == runner.text(),
            round@.offers == offers_of(self@),
            forall|c: Seq<char>| #[trigger] round@.offers.contains(c) <==> (self@.pending.contains(c)
                && !self@.dispatched.contains_key(c)),
            round@.offers.no_duplicates(),
            is_sublist(round@.offers, self@.pending),
            round@.next == 0,
            round@.accepted == Seq::<Seq<char>>::empty(),
            !round@.stopped,
            round_valid(self@, round@),
    {
        let ghost s = self@;
        proof {
            lemma_offers_are_fresh_waiting(self@);
        }
        let ghost fresh = |c: Seq<char>| !s.dispatched.contains_key(c);
        let ghost pend = strings(self.pending_commits@);
        let n = self.pending_commits.len();
        let mut offers: Vec<String> = Vec::new();
        let mut i: usize = 0;
        assert(pend.take(0) =~= Seq::<Seq<char>>::empty());
        while i < n
            invariant
                n == self.pending_commits@.len(),
                pend == strings(self.pending_commits@),
                pend.no_duplicates(),
                s == self@,
                fresh == (|c: Seq<char>| !s.dispatched.contains_key(c)),
                i <= n,
                strings(offers@) == pend.take(i as int).filter(fresh),
                strings(offers@).no_duplicates(),
                forall|k: int|
                    0 <= k < offers@.len() ==> exists|j: int|
                        0 <= j < i && #[trigger] strings(offers@)[k] == pend[j],
                forall|k: int|
                    0 <= k < offers@.len() ==> fresh(#[trigger] strings(offers@)[k]),
            decreases n - i,
        {
            let c = &self.pending_commits[i];
            let found = find_record(&self.dispatched_commits, c);
            let ghost before = strings(offers@);
            proof {
                pend.take(i as int).lemma_filter_push(pend[i as int], fresh);
                assert(pend.take(i + 1) =~= pend.take(i as int).push(pend[i as int]));
                assert(pend[i as int] == c@);
            }
            if found.is_none() {
                proof {
                    assert(!s.dispatched.contains_key(c@));
                    assert forall|k: int| 0 <= k < before.len() implies before[k] != c@ by {
                        let j = choose|j: int| 0 <= j < i && before[k] == pend[j];
                        assert(pend[j] != pend[i as int]);
                    }
                }
                offers.push(c.clone());
                proof {
                    assert(strings(offers@) =~= before.push(c@));
                    assert forall|k: int| 0 <= k < offers@.len() implies exists|j: int|
                        0 <= j < i + 1 && #[trigger] strings(offers@)[k] == pend[j] by {
                        if k < before.len() {
                            let j = choose|j: int| 0 <= j < i && before[k] == pend[j];
                            assert(strings(offers@)[k] == pend[j]);
                        } else {
                            assert(strings(offers@)[k] == pend[i as int]);
                        }
                    }
                }
            } else {
                proof {
                    let k = found.unwrap();
                    assert(record_commits(self.dispatched_commits@)[k as int] == c@);
                    assert(s.dispatched.contains_key(c@));
                }
            }
            i = i + 1;
        }
        assert(pend.take(n as int) =~= pend);
        let round = RunnerRound {
            runner,
            runner_name: runner.to_string(),
            offers,
            next: 0,
            accepted: Vec::new(),
            stopped: false,
            start: Ghost(self@),
        };
        proof {
            let r = round@;
            assert(r.accepted =~= r.offers.take(0));
            assert forall|c: Seq<char>| #[trigger] s.dispatched.contains_key(c) <==> (
            r.start.dispatched.contains_key(c) || r.accepted.contains(c)) by {}
            assert forall|i: int| 0 <= i < r.offers.len() implies s.pending.contains(
                #[trigger] r.offers[i],
            ) && !s.dispatched.contains_key(r.offers[i]) by {
                let j = choose|j: int| 0 <= j < n && r.offers[i] == pend[j];
                assert(fresh(r.offers[i]));
            }
        }
        round
    }

    /// Takes the runner's answer to the commit just offered to it.  If it
    /// took the commit, the commit is recorded as handed to this runner; if it
    /// is busy, the visit ends.
    pub fn on_dispatch_reply(&mut self, round: &mut RunnerRound, reply: &Response)
        requires
            old(self).wf(),
            old(round)@.has_offer(),
        ensures
            final(self).wf(),
            reply is Okay ==> {
                let c = old(round)@.offers[old(round)@.next];
                &&& final(self)@ == (ServerView {
                    dispatched: old(self)@.dispatched.insert(c, old(round)@.runner_name),
                    ..old(self)@
                })
                &&& final(round)@ == (RunnerRoundView {
                    next: old(round)@.next + 1,
                    accepted: old(round)@.accepted.push(c),
                    ..old(round)@
                })
            },
            reply is Error ==> final(self)@ == old(self)@ && final(round)@ == (RunnerRoundView {
                stopped: true,
                ..old(round)@
            }),
            round_valid(old(self)@, old(round)@) ==> round_valid(final(self)@, final(round)@),
            round_valid(old(self)@, old(round)@) ==> old(self)@.dispatched.submap_of(
                final(self)@.dispatched,
            ),
    {
        let ghost s0 = self@;
        let ghost r0 = round@;
        match reply {
            Response::Okay => {
                let commit = round.offers[round.next].clone();
                let entry = (commit.clone(), round.runner_name.clone());
                let ghost d0 = self.dispatched_commits@;
                match find_record(&self.dispatched_commits, &commit) {
                    Some(i) => {
                        proof {
                            lemma_record_update(d0, i as int, entry);
                        }
                        self.dispatched_commits.set(i, entry);
                    },
                    None => {
                        proof {
                            lemma_record_push(d0, entry);
                        }
                        self.dispatched_commits.push(entry);
                    },
                }
                let ghost a0 = round.accepted@;
                let offer_count = round.offers.len();
                assert(round.next < offer_count);
                round.accepted.push(commit);
                round.next = round.next + 1;
                proof {
                    assert(strings(round.accepted@) =~= strings(a0).push(r0.offers[r0.next]));
                    assert(self@ =~= (ServerView {
                        dispatched: s0.dispatched.insert(r0.offers[r0.next], r0.runner_name),
                        ..s0
                    }));
                    assert(round@ =~= (RunnerRoundView {
                        next: r0.next + 1,
                        accepted: r0.accepted.push(r0.offers[r0.next]),
                        ..r0
                    }));
                    if round_valid(s0, r0) {
                        let c = r0.offers[r0.next];
                        let s1 = self@;
                        let r1 = round@;
                        assert(r1.accepted =~= r1.offers.take(r1.next));
                        assert forall|i: int| r1.next <= i < r1.offers.len() implies s1.pending.contains(
                            #[trigger] r1.offers[i],
                        ) && !s1.dispatched.contains_key(r1.offers[i]) by {
                            assert(r0.offers[i] != c);
                        }
                        assert forall|i: int| 0 <= i < r1.next implies s1.pending.contains(
                            #[trigger] r1.offers[i],
                        ) && s1.dispatched.contains_key(r1.offers[i]) && s1.dispatched[r1.offers[i]]
                            == r1.runner_name by {
                            if i < r0.next {
                                assert(r0.offers[i] != c);
                            }
                        }
                        assert(s0.dispatched.submap_of(s1.dispatched));
                        assert(!r0.start.dispatched.contains_key(c));
                        assert forall|c2: Seq<char>| #[trigger] s1.dispatched.contains_key(c2) <==> (
                        r1.start.dispatched.contains_key(c2) || r1.accepted.contains(c2)) by {
                            if c2 == c {
                                assert(r1.accepted[r0.accepted.len() as int] == c);
                            } else {
                                if r1.accepted.contains(c2) {
                                    let j = choose|j: int| 0 <= j < r1.accepted.len() && r1.accepted[j] == c2;
                                    assert(r0.accepted[j] == c2);
                                }
                                if r0.accepted.contains(c2) {
                                    let j = choose|j: int| 0 <= j < r0.accepted.len() && r0.accepted[j] == c2;
                                    assert(r1.accepted[j] == c2);
                                }
                            }
                        }
                        assert forall|k: Seq<char>| #[trigger] r1.start.dispatched.contains_key(k) implies s1.dispatched.contains_key(k)
                            && s1.dispatched[k] == r1.start.dispatched[k] by {
                            assert(k != c);
                            assert(s0.dispatched.contains_key(k));
                        }
                        assert(r1.start.dispatched.submap_of(s1.dispatched));
                    }
                }
            },
            Response::Error(_) => {
                round.stopped = true;
                assert(round@ =~= (RunnerRoundView { stopped: true, ..r0 }));
            },
        }
    }

    /// Ends a visit: the commits the runner took stop waiting.
    pub fn end_round(&mut self, round: RunnerRound)
        requires
            old(self).wf(),
        ensures
            final(self).wf(),
            final(self)@ == after_round(old(self)@, round@),
            round_valid(old(self)@, round@) ==> dispatch_progress(round@.start, final(self)@),
            final(self)@.runners == old(self)@.runners,
            final(self)@.dispatched == old(self)@.dispatched,
            final(self)@.alive == old(self)@.alive,
            forall|c: Seq<char>| #[trigger] final(self)@.pending.contains(c) <==> (old(self)@.pending.contains(c)
                && !round@.accepted.contains(c)),
            is_sublist(final(self)@.pending, old(self)@.pending),
    {
        proof {
            lemma_visit_end_changes_only_waiting(old(self)@, round@);
        }
        let kept = without_strings(&self.pending_commits, &round.accepted);
        self.pending_commits = kept;
        assert(self@ =~= after_round(old(self)@, round@));
        proof {
            if round_valid(old(self)@, round@) {
                lemma_visit_progress(old(self)@, round@);
            }
        }
    }

    /// The runner recorded for `commit`, if it was handed out.
    pub fn dispatched_runner(&self, commit: &String) -> (r: Option<String>)
        requires
            self.wf(),
        ensures
            r is Some <==> self@.dispatched.contains_key(commit@),
            r matches Some(name) ==> name@ == self@.dispatched[commit@],
    {
        let ghost d = self.dispatched_commits@;
        match find_record(&self.dispatched_commits, commit) {
            Some(i) => {
                proof {
                    assert(record_commits(d)[i as int] == commit@);
                    let k = record_commits(d).index_of(commit@);
                    assert(0 <= k < d.len() && record_commits(d)[k] == commit@);
                    assert(k == i);
                }
                Some(self.dispatched_commits[i].1.clone())
            },
            None => None,
        }
    }

    /// The commits waiting, in waiting order.
    pub fn pending_commits(&self) -> (r: Vec<String>)
        ensures
            strings(r@) == self@.pending,
    {
        self.pending_commits.clone()
    }

    /// The answer to one request when commits are handed to the runners
    /// directly rather than queued: a status check is
    /// answered `Okay`; an update gets no answer; a runner that registers is
    /// added and answered `Okay`; a commit to test is refused with
    /// `Error("No runners available")` while no runner is registered, and
    /// otherwise is handed straight to the runners (see
    /// [`Server::on_status_reply`]), nothing else changing first; test
    /// results, which this mode does not keep, get no answer.
    pub fn handle_request_direct(&mut self, request: Request) -> (reply: DirectReply)
        requires
            old(self).wf(),
        ensures
            final(self).wf(),
            match request {
                Request::Status => reply matches DirectReply::Reply(Response::Okay)
                    && final(self)@ == old(self)@,
                Request::Update(_) => reply is Silent && final(self)@ == old(self)@,
                Request::Results(_, _) => reply is Silent && final(self)@ == old(self)@,
                Request::Register(runner) => reply matches DirectReply::Reply(Response::Okay)
                    && final(self)@ == (ServerView { runners: old(self)@.runners.push(runner), ..old(self)@ }),
                Request::Dispatch(commit) => final(self)@ == old(self)@ && if old(self)@.runners.len() == 0 {
                    reply matches DirectReply::Reply(Response::Error(m)) && m@ == "No runners available"@
                } else {
                    reply matches DirectReply::DispatchTest(c) && c@ == commit@
                },
            },
    {
        match request {
            Request::Status => DirectReply::Reply(Response::Okay),
            Request::Update(_) => DirectReply::Silent,
            Request::Results(_, _) => DirectReply::Silent,
            Request::Register(runner) => {
                self.runners.push(runner);
                DirectReply::Reply(Response::Okay)
            },
            Request::Dispatch(commit) => {
                if self.runners.len() == 0 {
                    DirectReply::Reply(Response::Error(String::from_str("No runners available")))
                } else {
                    DirectReply::DispatchTest(commit)
                }
            },
        }
    }

    /// The record, in direct mode, of a commit that `runner` took: the
    /// commit is recorded for the runner (replacing an earlier record) and
    /// stops waiting.
    pub fn record_dispatch(&mut self, commit: &String, runner: SocketAddrV4)
        requires
            old(self).wf(),
        ensures
            final(self).wf(),
            final(self)@ == (ServerView {
                dispatched: old(self)@.dispatched.insert(commit@, runner.text()),
                pending: old(self)@.pending.filter(|c: Seq<char>| c != commit@),
                ..old(self)@
            }),
    {
        let entry = (commit.clone(), runner.to_string());
        let ghost d0 = self.dispatched_commits@;
        match find_record(&self.dispatched_commits, commit) {
            Some(i) => {
                proof {
                    lemma_record_update(d0, i as int, entry);
                }
                self.dispatched_commits.set(i, entry);
            },
            None => {
                proof {
                    lemma_record_push(d0, entry);
                }
                self.dispatched_commits.push(entry);
            },
        }
        let mut gone: Vec<String> = Vec::new();
        gone.push(commit.clone());
        let kept = without_strings(&self.pending_commits, &gone);
        self.pending_commits = kept;
        proof {
            let f1 = |c: Seq<char>| !strings(gone@).contains(c);
            let f2 = |c: Seq<char>| c != commit@;
            assert(strings(gone@) =~= seq![commit@]);
            assert forall|c: Seq<char>| #[trigger] f1(c) == f2(c) by {
                if c == commit@ {
                    assert(strings(gone@)[0] == c);
                }
            }
            assert(f1 =~= f2);
        }
        assert(self@ =~= (ServerView {
            dispatched: old(self)@.dispatched.insert(commit@, runner.text()),
            pending: old(self)@.pending.filter(|c: Seq<char>| c != commit@),
            ..old(self)@
        }));
    }

    /// Direct mode's step for one runner asked whether it is free before
    /// `commit` is handed to it: a runner that answers `Okay` is sent the
    /// commit, which is recorded for it and stops waiting; any other answer
    /// changes nothing and the next runner is tried.
    pub fn on_status_reply(&mut self, commit: &String, runner: SocketAddrV4, status: &Response) -> (sent: bool)
        requires
            old(self).wf(),
        ensures
            final(self).wf(),
            sent == (*status is Okay),
            sent ==> final(self)@ == (ServerView {
                dispatched: old(self)@.dispatched.insert(commit@, runner.text()),
                pending: old(self)@.pending.filter(|c: Seq<char>| c != commit@),
                ..old(self)@
            }),
            !sent ==> final(self)@ == old(self)@,
    {
        match status {
            Response::Okay => {
                self.record_dispatch(commit, runner);
                true
            },
            Response::Error(_) => false,
        }
    }

    /// The removal, in direct mode, of the runner at position `i`, which
    /// could not be reached.
    pub fn remove_runner_at(&mut self, i: usize)
        requires
            old(self).wf(),
            i < old(self)@.runners.len(),
        ensures
            final(self).wf(),
            final(self)@ == (ServerView { runners: old(self)@.runners.remove(i as int), ..old(self)@ }),
    {
        self.runners.remove(i);
        assert(self@ =~= (ServerView { runners: old(self)@.runners.remove(i as int), ..old(self)@ }));
    }
}

/// How the dispatcher answers a request in direct mode.
#[derive(Debug)]
pub enum DirectReply {
    /// Answer with this response.
    Reply(Response),
    /// Give no answer.
    Silent,
    /// Hand this commit to the first runner that reports itself free.
    DispatchTest(String),
}

/// The strings of `v` that are not in `drop`, in order.
fn without_strings(v: &Vec<String>, drop: &Vec<String>) -> (kept: Vec<String>)
    requires
        strings(v@).no_duplicates(),
    ensures
        strings(kept@) == strings(v@).filter(|c: Seq<char>| !strings(drop@).contains(c)),
        strings(kept@).no_duplicates(),
{
    let ghost gone = |c: Seq<char>| !strings(drop@).contains(c);
    let ghost pend = strings(v@);
    let n = v.len();
    let mut kept: Vec<String> = Vec::new();
    let mut i: usize = 0;
    assert(pend.take(0) =~= Seq::<Seq<char>>::empty());
    while i < n
        invariant
            n == v@.len(),
            pend == strings(v@),
            pend.no_duplicates(),
            gone == (|c: Seq<char>| !strings(drop@).contains(c)),
            i <= n,
            strings(kept@) == pend.take(i as int).filter(gone),
            strings(kept@).no_duplicates(),
            forall|k: int|
                0 <= k < kept@.len() ==> exists|j: int|
                    0 <= j < i && #[trigger] strings(kept@)[k] == pend[j],
        decreases n - i,
    {
        let c = &v[i];
        let found = find_string(drop, c);
        let ghost before = strings(kept@);
        proof {
            pend.take(i as int).lemma_filter_push(pend[i as int], gone);
            assert(pend.take(i + 1) =~= pend.take(i as int).push(pend[i as int]));
            assert(pend[i as int] == c@);
        }
        if found.is_none() {
            proof {
                assert forall|k: int| 0 <= k < before.len() implies before[k] != c@ by {
                    let j = choose|j: int| 0 <= j < i && before[k] == pend[j];
                    assert(pend[j] != pend[i as int]);
                }
            }
            kept.push(c.clone());
            proof {
                assert(strings(kept@) =~= before.push(c@));
                assert forall|k: int| 0 <= k < kept@.len() implies exists|j: int|
                    0 <= j < i + 1 && #[trigger] strings(kept@)[k] == pend[j] by {
                    if k < before.len() {
                        let j = choose|j: int| 0 <= j < i && before[k] == pend[j];
                        assert(strings(kept@)[k] == pend[j]);
                    } else {
                        assert(strings(kept@)[k] == pend[i as int]);
                    }
                }
            }
        } else {
            proof {
                let k = found.unwrap();
                assert(strings(drop@)[k as int] == c@);
            }
        }
        i = i + 1;
    }
    assert(pend.take(n as int) =~= pend);
    kept
}

/// What the dispatcher knows of its visit to one runner.
pub struct RunnerRoundView {
    /// The runner visited.
    pub runner: SocketAddrV4,
    /// Its address as recorded for the commits it takes.
    pub runner_name: Seq<char>,
    /// The commits to offer it, in order.
    pub offers: Seq<Seq<char>>,
    /// How many offers were taken so far.
    pub next: int,
    /// The offers it took.
    pub accepted: Seq<Seq<char>>,
    /// Whether it answered that it is busy.
    pub stopped: bool,
    /// The dispatcher's state when the visit began.
    pub start: ServerView,
}

impl RunnerRoundView {
    /// There is a commit to offer: the runner took every earlier one and
    /// offers are left.
    pub open spec fn has_offer(self) -> bool {
        !self.stopped && 0 <= self.next < self.offers.len()
    }
}

/// One visit of the dispatcher to a runner that it could reach.
pub struct RunnerRound {
    runner: SocketAddrV4,
    runner_name: String,
    offers: Vec<String>,
    next: usize,
    accepted: Vec<String>,
    stopped: bool,
    start: Ghost<ServerView>,
}

impl View for RunnerRound {
    type V = RunnerRoundView;

    open spec fn view(&self) -> RunnerRoundView {
        self.state()
    }
}

impl RunnerRound {
    pub closed spec fn state(&self) -> RunnerRoundView {
        RunnerRoundView {
            runner: self.runner,
            runner_name: self.runner_name@,
            offers: strings(self.offers@),
            next: self.next as int,
            accepted: strings(self.accepted@),
            stopped: self.stopped,
            start: self.start@,
        }
    }

    pub fn runner(&self) -> (r: SocketAddrV4)
        ensures
            r == self@.runner,
    {
        self.runner
    }

    /// The commit to send the runner now, if any.
    pub fn next_offer(&self) -> (r: Option<String>)
        ensures
            r is Some <==> self@.has_offer(),
            r matches Some(c) ==> c@ == self@.offers[self@.next],
    {
        if !self.stopped && self.next < self.offers.len() {
            Some(self.offers[self.next].clone())
        } else {
            None
        }
    }
}

/// The commits that wait and were not handed out yet, in waiting order.
pub open spec fn offers_of(s: ServerView) -> Seq<Seq<char>> {
    s.pending.filter(|c: Seq<char>| !s.dispatched.contains_key(c))
}

/// A visit that agrees with the dispatcher's state: it visits a registered
/// runner; its offers are the commits that waited and were not handed out
/// when it began; since then only the commits taken so far were recorded,
/// each for this runner, and they are the first offers; every offer still to
/// come waits and was not handed out.
pub open spec fn round_valid(s: ServerView, r: RunnerRoundView) -> bool {
    &&& r.runner_name == r.runner.text()
    &&& r.start.runners.contains(r.runner)
    &&& r.offers == offers_of(r.start)
    &&& s.alive == r.start.alive
    &&& s.runners == r.start.runners
    &&& s.pending == r.start.pending
    &&& r.start.dispatched.submap_of(s.dispatched)
    &&& forall|c: Seq<char>| #[trigger]
        s.dispatched.contains_key(c) <==> (r.start.dispatched.contains_key(c)
            || r.accepted.contains(c))
    &&& 0 <= r.next <= r.offers.len()
    &&& r.offers.no_duplicates()
    &&& r.accepted == r.offers.take(r.next)
    &&& forall|i: int|
        r.next <= i < r.offers.len() ==> s.pending.contains(#[trigger] r.offers[i])
            && !s.dispatched.contains_key(r.offers[i])
    &&& forall|i: int|
        0 <= i < r.next ==> s.pending.contains(#[trigger] r.offers[i])
            && s.dispatched.contains_key(r.offers[i]) && s.dispatched[r.offers[i]]
            == r.runner_name
}

/// The state after a visit ends: the commits the runner took stop waiting.
pub open spec fn after_round(s: ServerView, r: RunnerRoundView) -> ServerView {
    ServerView { pending: s.pending.filter(|c: Seq<char>| !r.accepted.contains(c)), ..s }
}

/// A visit loses no commit: a commit that waited still waits after the visit
/// unless the runner took it, and a commit the runner took is recorded as
/// handed to that runner.
pub proof fn lemma_round_loses_no_commit(s: ServerView, r: RunnerRoundView, c: Seq<char>)
    requires
        round_valid(s, r),
        s.pending.contains(c),
    ensures
        after_round(s, r).pending.contains(c) <==> !r.accepted.contains(c),
        r.accepted.contains(c) ==> after_round(s, r).dispatched.contains_key(c)
            && after_round(s, r).dispatched[c] == r.runner_name,
{
    let keep = |x: Seq<char>| !r.accepted.contains(x);
    let i = choose|i: int| 0 <= i < s.pending.len() && s.pending[i] == c;
    if !r.accepted.contains(c) {
        s.pending.lemma_filter_contains(keep, i);
    } else {
        let j = choose|j: int| 0 <= j < r.accepted.len() && r.accepted[j] == c;
        assert(r.offers[j] == c);
        if after_round(s, r).pending.contains(c) {
            let k = choose|k: int| 0 <= k < s.pending.filter(keep).len() && s.pending.filter(keep)[k] == c;
            s.pending.lemma_filter_pred(keep, k);
        }
    }
}

/// `a` is `b` with some of its items left out, the others in order.
pub open spec fn is_sublist<A>(a: Seq<A>, b: Seq<A>) -> bool {
    exists|keep: spec_fn(A) -> bool| #[trigger] b.filter(keep) == a
}

/// What redistributing commits may do to the dispatcher's state, from `s0`
/// to `s1`: serving goes on as before; runners are only dropped; no commit
/// starts waiting; every record stays; each new record is for a commit that
/// waited and names a runner of the list; every waiting commit still waits
/// or is recorded; a commit stops waiting only when it is newly recorded; and
/// a commit that was already handed out keeps waiting, or not, as before.
pub open spec fn dispatch_progress(s0: ServerView, s1: ServerView) -> bool {
    &&& s1.alive == s0.alive
    &&& is_sublist(s1.runners, s0.runners)
    &&& forall|c: Seq<char>| #[trigger] s1.pending.contains(c) ==> s0.pending.contains(c)
    &&& s0.dispatched.submap_of(s1.dispatched)
    &&& forall|k: Seq<char>|
        #[trigger] s1.dispatched.contains_key(k) && !s0.dispatched.contains_key(k) ==> {
            &&& s0.pending.contains(k)
            &&& exists|i: int| 0 <= i < s0.runners.len() && s1.dispatched[k] == s0.runners[i].text()
        }
    &&& forall|c: Seq<char>|
        #[trigger] s0.pending.contains(c) ==> s1.pending.contains(c) || s1.dispatched.contains_key(c)
    &&& forall|c: Seq<char>|
        #[trigger] s0.pending.contains(c) && !s1.pending.contains(c) ==> !s0.dispatched.contains_key(c)
            && s1.dispatched.contains_key(c)
    &&& forall|c: Seq<char>|
        #[trigger] s0.dispatched.contains_key(c) ==> (s1.pending.contains(c) <==> s0.pending.contains(c))
}

proof fn lemma_filter_all<A>(s: Seq<A>, keep: spec_fn(A) -> bool)
    requires
        forall|x: A| #[trigger] keep(x),
    ensures
        s.filter(keep) == s,
    decreases s.len(),
{
    reveal(Seq::filter);
    if s.len() > 0 {
        lemma_filter_all(s.drop_last(), keep);
        assert(s.drop_last().push(s.last()) =~= s);
    }
}

proof fn lemma_filter_filter<A>(s: Seq<A>, f: spec_fn(A) -> bool, g: spec_fn(A) -> bool)
    ensures
        s.filter(f).filter(g) == s.filter(|x: A| f(x) && g(x)),
    decreases s.len(),
{
    reveal(Seq::filter);
    if s.len() > 0 {
        lemma_filter_filter(s.drop_last(), f, g);
        let fg = |x: A| f(x) && g(x);
        if f(s.last()) {
            s.drop_last().filter(f).lemma_filter_push(s.last(), g);
        }
    }
}

/// Redistribution may leave the state as it is.
pub proof fn lemma_progress_reflexive(s: ServerView)
    ensures
        dispatch_progress(s, s),
{
    let all = |x: SocketAddrV4| true;
    lemma_filter_all(s.runners, all);
    assert(s.runners.filter(all) == s.runners);
}

/// Two stretches of redistribution make one.
pub proof fn lemma_progress_transitive(s0: ServerView, s1: ServerView, s2: ServerView)
    requires
        dispatch_progress(s0, s1),
        dispatch_progress(s1, s2),
    ensures
        dispatch_progress(s0, s2),
{
    let f = choose|keep: spec_fn(SocketAddrV4) -> bool| #[trigger] s0.runners.filter(keep) == s1.runners;
    let g = choose|keep: spec_fn(SocketAddrV4) -> bool| #[trigger] s1.runners.filter(keep) == s2.runners;
    assert(is_sublist(s1.runners, s0.runners));
    lemma_filter_filter(s0.runners, f, g);
    let fg = |x: SocketAddrV4| f(x) && g(x);
    assert(s0.runners.filter(fg) == s2.runners);
    assert(is_sublist(s2.runners, s0.runners));
    assert(s0.dispatched.submap_of(s2.dispatched)) by {
        assert forall|k: Seq<char>| #[trigger] s0.dispatched.contains_key(k) implies s2.dispatched.contains_key(k)
            && s2.dispatched[k] == s0.dispatched[k] by {
            assert(s1.dispatched.contains_key(k));
        }
    }
    assert forall|k: Seq<char>|
        #[trigger] s2.dispatched.contains_key(k) && !s0.dispatched.contains_key(k) implies {
            &&& s0.pending.contains(k)
            &&& exists|i: int| 0 <= i < s0.runners.len() && s2.dispatched[k] == s0.runners[i].text()
        } by {
        if s1.dispatched.contains_key(k) {
            let i = choose|i: int| 0 <= i < s0.runners.len() && s1.dispatched[k] == s0.runners[i].text();
            assert(s2.dispatched[k] == s0.runners[i].text());
        } else {
            let i = choose|i: int| 0 <= i < s1.runners.len() && s2.dispatched[k] == s1.runners[i].text();
            assert(s0.runners.filter(f).contains(s1.runners[i]));
            s0.runners.lemma_filter_contains_rev(f, s1.runners[i]);
            let j = choose|j: int| 0 <= j < s0.runners.len() && s0.runners[j] == s1.runners[i];
            assert(s2.dispatched[k] == s0.runners[j].text());
        }
    }
    assert forall|c: Seq<char>| #[trigger] s0.pending.contains(c) implies s2.pending.contains(c)
        || s2.dispatched.contains_key(c) by {
        if s1.pending.contains(c) {
        } else {
            assert(s1.dispatched.contains_key(c));
        }
    }
    assert forall|c: Seq<char>| #[trigger] s0.pending.contains(c) && !s2.pending.contains(c) implies !s0.dispatched.contains_key(c)
        && s2.dispatched.contains_key(c) by {
        if s1.pending.contains(c) {
            assert(!s1.dispatched.contains_key(c));
        } else {
            assert(s1.dispatched.contains_key(c));
        }
    }
    assert forall|c: Seq<char>| #[trigger] s0.dispatched.contains_key(c) implies (s2.pending.contains(
        c,
    ) <==> s0.pending.contains(c)) by {
        assert(s1.dispatched.contains_key(c));
    }
}

/// A whole redistribution pass, as the states after each of its steps (a
/// visit to one runner, or the removal of dead runners), is one stretch of
/// redistribution from its first state to its last.
pub proof fn lemma_pass_progress(states: Seq<ServerView>)
    requires
        states.len() >= 1,
        forall|i: int| 0 <= i < states.len() - 1 ==> dispatch_progress(#[trigger] states[i], states[i + 1]),
    ensures
        dispatch_progress(states[0], states.last()),
    decreases states.len(),
{
    if states.len() == 1 {
        lemma_progress_reflexive(states[0]);
    } else {
        let front = states.drop_last();
        assert forall|i: int| 0 <= i < front.len() - 1 implies dispatch_progress(#[trigger] front[i], front[i + 1]) by {
            assert(dispatch_progress(states[i], states[i + 1]));
        }
        lemma_pass_progress(front);
        assert(dispatch_progress(states[states.len() - 2], states[states.len() - 1]));
        lemma_progress_transitive(states[0], front.last(), states.last());
    }
}

/// A visit to one runner is a stretch of redistribution from the state it
/// began in; each commit it recorded is one the runner took, recorded for that
/// runner; and it offered no commit that was already handed out.
pub proof fn lemma_visit_progress(s: ServerView, r: RunnerRoundView)
    requires
        round_valid(s, r),
    ensures
        dispatch_progress(r.start, after_round(s, r)),
        forall|k: Seq<char>|
            #[trigger] after_round(s, r).dispatched.contains_key(k) && !r.start.dispatched.contains_key(k)
                ==> r.accepted.contains(k) && after_round(s, r).dispatched[k] == r.runner.text(),
        forall|c: Seq<char>| #[trigger] r.start.dispatched.contains_key(c) ==> !r.offers.contains(c),
{
    let e = after_round(s, r);
    let st = r.start;
    let fresh = |c: Seq<char>| !st.dispatched.contains_key(c);
    let keep = |x: Seq<char>| !r.accepted.contains(x);
    lemma_progress_reflexive(st);
    assert(e.runners == st.runners);
    assert forall|c: Seq<char>| #[trigger] st.dispatched.contains_key(c) implies !r.offers.contains(c) by {
        if r.offers.contains(c) {
            let j = choose|j: int| 0 <= j < r.offers.len() && r.offers[j] == c;
            st.pending.lemma_filter_pred(fresh, j);
        }
    }
    assert forall|x: Seq<char>| #[trigger] r.accepted.contains(x) implies r.offers.contains(x) && s.dispatched.contains_key(x)
        && s.dispatched[x] == r.runner_name && st.pending.contains(x) by {
        let j = choose|j: int| 0 <= j < r.accepted.len() && r.accepted[j] == x;
        assert(r.offers[j] == x);
    }
    assert forall|c: Seq<char>| #[trigger] e.pending.contains(c) implies st.pending.contains(c) by {
        st.pending.lemma_filter_contains_rev(keep, c);
    }
    assert forall|k: Seq<char>|
        #[trigger] e.dispatched.contains_key(k) && !st.dispatched.contains_key(k) implies {
            &&& st.pending.contains(k)
            &&& exists|i: int| 0 <= i < st.runners.len() && e.dispatched[k] == st.runners[i].text()
        } by {
        assert(r.accepted.contains(k));
        let i = choose|i: int| 0 <= i < st.runners.len() && st.runners[i] == r.runner;
        assert(e.dispatched[k] == st.runners[i].text());
    }
    assert forall|c: Seq<char>| #[trigger] st.pending.contains(c) implies e.pending.contains(c)
        || e.dispatched.contains_key(c) by {
        lemma_round_loses_no_commit(s, r, c);
    }
    assert forall|c: Seq<char>| #[trigger] st.pending.contains(c) && !e.pending.contains(c) implies !st.dispatched.contains_key(c)
        && e.dispatched.contains_key(c) by {
        lemma_round_loses_no_commit(s, r, c);
        assert(r.offers.contains(c));
    }
    assert forall|c: Seq<char>| #[trigger] st.dispatched.contains_key(c) implies (e.pending.contains(
        c,
    ) <==> st.pending.contains(c)) by {
        assert(!r.offers.contains(c));
        assert(!r.accepted.contains(c));
        if st.pending.contains(c) {
            lemma_round_loses_no_commit(s, r, c);
        }
    }
}

/// Dropping dead runners is a stretch of redistribution.
pub proof fn lemma_removal_progress(s: ServerView, dead: Seq<SocketAddrV4>)
    ensures
        dispatch_progress(
            s,
            ServerView { runners: s.runners.filter(|r: SocketAddrV4| !dead.contains(r)), ..s },
        ),
{
    let keep = |r: SocketAddrV4| !dead.contains(r);
    assert(s.runners.filter(keep) == s.runners.filter(keep));
}

/// During a redistribution pass that began in `s0`, a visit never offers a
/// commit that was already handed out in `s0`.
pub proof fn lemma_handed_out_never_offered(s0: ServerView, s: ServerView, r: RunnerRoundView, c: Seq<char>)
    requires
        dispatch_progress(s0, r.start),
        round_valid(s, r),
        s0.dispatched.contains_key(c),
    ensures
        !r.offers.contains(c),
{
    lemma_visit_progress(s, r);
}

/// A commit sent to the dispatcher to be tested waits afterwards.
pub proof fn lemma_dispatch_request_waits(s: ServerView, commit: String)
    ensures
        after_request(s, Request::Dispatch(commit)).pending.contains(commit@),
{
    if !s.pending.contains(commit@) {
        assert(s.pending.push(commit@)[s.pending.len() as int] == commit@);
    }
}

/// Filtering a list without repetitions gives a list without repetitions.
pub proof fn lemma_filter_no_duplicates<A>(s: Seq<A>, keep: spec_fn(A) -> bool)
    requires
        s.no_duplicates(),
    ensures
        s.filter(keep).no_duplicates(),
    decreases s.len(),
{
    reveal(Seq::filter);
    if s.len() > 0 {
        let front = s.drop_last();
        assert(front.no_duplicates());
        lemma_filter_no_duplicates(front, keep);
        if keep(s.last()) {
            let f = front.filter(keep);
            assert(!f.contains(s.last())) by {
                if f.contains(s.last()) {
                    front.lemma_filter_contains_rev(keep, s.last());
                    let i = choose|i: int| 0 <= i < front.len() && front[i] == s.last();
                    assert(s[i] == s[s.len() - 1]);
                }
            }
            assert forall|i: int, j: int|
                0 <= i < f.push(s.last()).len() && 0 <= j < f.push(s.last()).len() && i != j implies
                f.push(s.last())[i] != f.push(s.last())[j] by {
                if i == f.len() {
                    assert(f.contains(f[j]));
                } else if j == f.len() {
                    assert(f.contains(f[i]));
                }
            }
        }
    }
}

/// Registering a runner appends it to the runner list and changes nothing
/// else: the waiting commits, the records and the serving flag stay.
pub proof fn lemma_register_only_appends(s: ServerView, runner: SocketAddrV4)
    ensures
        after_request(s, Request::Register(runner)).runners == s.runners.push(runner),
        after_request(s, Request::Register(runner)).pending == s.pending,
        after_request(s, Request::Register(runner)).dispatched == s.dispatched,
        after_request(s, Request::Register(runner)).alive == s.alive,
{
}

/// A commit to test joins the end of the waiting commits unless it already
/// waits; no other commit starts or stops waiting, and the runners, the
/// records and the serving flag stay.
pub proof fn lemma_dispatch_request_queues(s: ServerView, commit: String)
    ensures
        ({
            let t = after_request(s, Request::Dispatch(commit));
            &&& t.runners == s.runners
            &&& t.dispatched == s.dispatched
            &&& t.alive == s.alive
            &&& t.pending.contains(commit@)
            &&& forall|c: Seq<char>| c != commit@ ==> (#[trigger] t.pending.contains(c) <==> s.pending.contains(c))
            &&& s.pending.is_prefix_of(t.pending)
            &&& t.pending.len() == s.pending.len() + if s.pending.contains(commit@) { 0int } else { 1int }
            &&& s.pending.no_duplicates() ==> t.pending.no_duplicates()
        }),
{
    let t = after_request(s, Request::Dispatch(commit));
    lemma_dispatch_request_waits(s, commit);
    if !s.pending.contains(commit@) {
        assert forall|c: Seq<char>| c != commit@ implies (#[trigger] t.pending.contains(c) <==> s.pending.contains(c)) by {
            if t.pending.contains(c) {
                let i = choose|i: int| 0 <= i < t.pending.len() && t.pending[i] == c;
                assert(i < s.pending.len());
                assert(s.pending[i] == c);
            }
            if s.pending.contains(c) {
                let i = choose|i: int| 0 <= i < s.pending.len() && s.pending[i] == c;
                assert(t.pending[i] == c);
            }
        }
    } else {
        assert(s.pending.is_prefix_of(s.pending)) by {
            assert(s.pending.take(s.pending.len() as int) =~= s.pending);
        }
    }
}

/// Status checks, updates and test results leave the dispatcher's state as
/// it is.
pub proof fn lemma_other_requests_change_nothing(s: ServerView, request: Request)
    requires
        !(request is Register),
        !(request is Dispatch),
    ensures
        after_request(s, request) == s,
{
}

/// No request drops a runner, a waiting commit or a record: the runner list
/// only grows at its end, a waiting commit still waits, and the records and
/// the serving flag stay.
pub proof fn lemma_requests_lose_nothing(s: ServerView, request: Request)
    ensures
        s.runners.is_prefix_of(after_request(s, request).runners),
        forall|c: Seq<char>| #[trigger] s.pending.contains(c) ==> after_request(s, request).pending.contains(c),
        after_request(s, request).dispatched == s.dispatched,
        after_request(s, request).alive == s.alive,
{
    assert(s.runners.take(s.runners.len() as int) =~= s.runners);
    match request {
        Request::Register(r) => {
            assert(s.runners.push(r).take(s.runners.len() as int) =~= s.runners);
        },
        Request::Dispatch(c) => {
            lemma_dispatch_request_queues(s, c);
            assert forall|x: Seq<char>| #[trigger] s.pending.contains(x) implies after_request(s, request).pending.contains(x) by {
                if x != c@ {
                    assert(after_request(s, Request::Dispatch(c)).pending.contains(x) <==> s.pending.contains(x));
                }
            }
        },
        _ => {},
    }
}

/// Ending a visit changes only the waiting commits: the runners, the records
/// and the serving flag stay; a commit waits afterwards exactly when it
/// waited before and the runner did not take it; the waiting order is kept.
pub proof fn lemma_visit_end_changes_only_waiting(s: ServerView, r: RunnerRoundView)
    ensures
        after_round(s, r).runners == s.runners,
        after_round(s, r).dispatched == s.dispatched,
        after_round(s, r).alive == s.alive,
        forall|c: Seq<char>| #[trigger] after_round(s, r).pending.contains(c) <==> (s.pending.contains(c)
            && !r.accepted.contains(c)),
        is_sublist(after_round(s, r).pending, s.pending),
        s.pending.no_duplicates() ==> after_round(s, r).pending.no_duplicates(),
{
    let keep = |x: Seq<char>| !r.accepted.contains(x);
    assert forall|c: Seq<char>| #[trigger] after_round(s, r).pending.contains(c) <==> (s.pending.contains(c)
        && !r.accepted.contains(c)) by {
        if after_round(s, r).pending.contains(c) {
            s.pending.lemma_filter_contains_rev(keep, c);
            let k = choose|k: int| 0 <= k < s.pending.filter(keep).len() && s.pending.filter(keep)[k] == c;
            s.pending.lemma_filter_pred(keep, k);
        }
        if s.pending.contains(c) && !r.accepted.contains(c) {
            let i = choose|i: int| 0 <= i < s.pending.len() && s.pending[i] == c;
            s.pending.lemma_filter_contains(keep, i);
        }
    }
    assert(s.pending.filter(keep) == after_round(s, r).pending);
    if s.pending.no_duplicates() {
        lemma_filter_no_duplicates(s.pending, keep);
    }
}

/// The commits offered to a runner are exactly those that wait and were not
/// handed out, each once, in waiting order.
pub proof fn lemma_offers_are_fresh_waiting(s: ServerView)
    ensures
        forall|c: Seq<char>| #[trigger] offers_of(s).contains(c) <==> (s.pending.contains(c)
            && !s.dispatched.contains_key(c)),
        is_sublist(offers_of(s), s.pending),
        s.pending.no_duplicates() ==> offers_of(s).no_duplicates(),
{
    let fresh = |c: Seq<char>| !s.dispatched.contains_key(c);
    assert forall|c: Seq<char>| #[trigger] offers_of(s).contains(c) <==> (s.pending.contains(c)
        && !s.dispatched.contains_key(c)) by {
        if offers_of(s).contains(c) {
            s.pending.lemma_filter_contains_rev(fresh, c);
            let k = choose|k: int| 0 <= k < s.pending.filter(fresh).len() && s.pending.filter(fresh)[k] == c;
            s.pending.lemma_filter_pred(fresh, k);
        }
        if s.pending.contains(c) && !s.dispatched.contains_key(c) {
            let i = choose|i: int| 0 <= i < s.pending.len() && s.pending[i] == c;
            s.pending.lemma_filter_contains(fresh, i);
        }
    }
    assert(s.pending.filter(fresh) == offers_of(s));
    if s.pending.no_duplicates() {
        lemma_filter_no_duplicates(s.pending, fresh);
    }
}

/// A commit offered to a runner waits and was never handed out before: no
/// commit is given to two runners.
pub proof fn lemma_offer_is_fresh(s: ServerView, r: RunnerRoundView)
    requires
        round_valid(s, r),
        r.has_offer(),
    ensures
        s.pending.contains(r.offers[r.next]),
        !s.dispatched.contains_key(r.offers[r.next]),
{
}

/// A runner that answered busy is offered nothing more in this visit.
pub proof fn lemma_busy_runner_gets_nothing(r: RunnerRoundView)
    requires
        r.stopped,
    ensures
        !r.has_offer(),
{
}

/// Adding a new commit at the end of a dispatch record.
proof fn lemma_record_push(d: Seq<(String, String)>, e: (String, String))
    requires
        record_commits(d).no_duplicates(),
        !record_commits(d).contains(e.0@),
    ensures
        record_commits(d.push(e)).no_duplicates(),
        record_map(d.push(e)) == record_map(d).insert(e.0@, e.1@),
{
    let d2 = d.push(e);
    assert(record_commits(d2) =~= record_commits(d).push(e.0@));
    let m = record_map(d).insert(e.0@, e.1@);
    assert forall|c: Seq<char>| #[trigger] record_map(d2).contains_key(c) <==> m.contains_key(c) by {
        if record_commits(d).contains(c) {
            let i = choose|i: int| 0 <= i < record_commits(d).len() && record_commits(d)[i] == c;
            assert(record_commits(d2)[i] == c);
        }
        if c == e.0@ {
            assert(record_commits(d2)[d.len() as int] == c);
        }
        if record_commits(d2).contains(c) {
            let i = choose|i: int| 0 <= i < record_commits(d2).len() && record_commits(d2)[i] == c;
            if i < d.len() {
                assert(record_commits(d)[i] == c);
            }
        }
    }
    assert forall|c: Seq<char>| #[trigger] record_map(d2).contains_key(c) implies record_map(d2)[c]
        == m[c] by {
        let k2 = record_commits(d2).index_of(c);
        assert(0 <= k2 < d2.len() && record_commits(d2)[k2] == c);
        if c == e.0@ {
            assert(k2 == d.len()) by {
                if k2 < d.len() {
                    assert(record_commits(d)[k2] == c);
                }
            }
        } else {
            let k = record_commits(d).index_of(c);
            assert(record_commits(d).contains(c)) by {
                assert(k2 < d.len());
                assert(record_commits(d)[k2] == c);
            }
            assert(0 <= k < d.len() && record_commits(d)[k] == c);
            assert(k == k2) by {
                assert(record_commits(d2)[k] == c);
                assert(record_commits(d2)[k2] == c);
            }
        }
    }
    assert(record_map(d2) =~= m);
}

/// Giving a recorded commit another runner.
proof fn lemma_record_update(d: Seq<(String, String)>, i: int, e: (String, String))
    requires
        record_commits(d).no_duplicates(),
        0 <= i < d.len(),
        d[i].0@ == e.0@,
    ensures
        record_commits(d.update(i, e)).no_duplicates(),
        record_map(d.update(i, e)) == record_map(d).insert(e.0@, e.1@),
{
    let d2 = d.update(i, e);
    assert(record_commits(d2) =~= record_commits(d));
    let m = record_map(d).insert(e.0@, e.1@);
    assert(record_commits(d).contains(e.0@)) by {
        assert(record_commits(d)[i] == e.0@);
    }
    assert forall|c: Seq<char>| #[trigger] record_map(d2).contains_key(c) implies record_map(d2)[c]
        == m[c] by {
        let k = record_commits(d).index_of(c);
        assert(0 <= k < d.len() && record_commits(d)[k] == c);
        if c == e.0@ {
            assert(k == i) by {
                assert(record_commits(d)[i] == c);
            }
        }
    }
    assert(record_map(d2) =~= m);
}

/// Where `c` first stands in a dispatch record, if it does.
fn find_record(d: &Vec<(String, String)>, c: &String) -> (r: Option<usize>)
    ensures
        r matches Some(i) ==> i < d@.len() && d@[i as int].0@ == c@ && forall|k: int|
            0 <= k < i ==> d@[k].0@ != c@,
        r is None ==> !record_commits(d@).contains(c@),
{
    let n = d.len();
    let mut i: usize = 0;
    while i < n
        invariant
            n == d@.len(),
            i <= n,
            forall|k: int| 0 <= k < i ==> d@[k].0@ != c@,
        decreases n - i,
    {
        if d[i].0 == *c {
            return Some(i);
        }
        i = i + 1;
    }
    assert(!record_commits(d@).contains(c@)) by {
        if record_commits(d@).contains(c@) {
            let k = choose|k: int| 0 <= k < record_commits(d@).len() && record_commits(d@)[k] == c@;
            assert(d@[k].0@ == c@);
        }
    }
    None
}

/// Whether `a` is in `v`.
fn contains_addr(v: &Vec<SocketAddrV4>, a: &SocketAddrV4) -> (b: bool)
    ensures
        b == v@.contains(*a),
{
    let n = v.len();
    let mut i: usize = 0;
    while i < n
        invariant
            n == v@.len(),
            i <= n,
            forall|k: int| 0 <= k < i ==> v@[k] != *a,
        decreases n - i,
    {
        if v[i] == *a {
            return true;
        }
        i = i + 1;
    }
    false
}

} // verus!
