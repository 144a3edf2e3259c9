# ci_system

A small continuous-integration system made of three programs that talk over
TCP with JSON messages:

* the **repository observer** runs an update script on a clone of the
  repository and, when the script leaves a commit id behind, hands the commit
  to the dispatcher;
* the **dispatcher** keeps the test runners that registered and the commits
  waiting to be tested, hands each waiting commit to a runner that is free,
  records which runner took it, and drops runners it can no longer reach;
* a **test runner** answers status checks, runs the tests of the commits it is
  given, writes their output to `TestResults.txt` and sends it to the
  dispatcher, which keeps the results of each commit in a file of its own
  (`TestResults-<commit>.txt`) in its working directory.

## Layout

* `src/` — the library, verified with Verus: every decision the programs make.
  * `text` — decimal numbers and separators: parsing as `str::parse` does,
    writing, splitting;
  * `addr` — IPv4 socket addresses, their writing and the reading of hosts;
  * `common` — the messages, and what a sender makes of an answer;
  * `dispatcher` — the dispatcher's state, the routing of requests, the
    store of test results, its visits to the runners with the laws that hold
    over a whole redistribution pass, and the direct mode that hands commits
    out at once;
  * `test_runner` — a runner's answers, its watch over the dispatcher and the
    commands it runs;
  * `repo_observer` — the observer's loop as a step function;
  * `observer` — the script observer's configuration from plain arguments.
* `app/` — the programs: sockets, threads, processes, files, command-line
  options and JSON. The first argument picks the program:
  `dispatcher`, `direct_dispatcher`, `test_runner`, `repo_observer` or
  `script_observer`.
* `tests/` — tests of the library on concrete values.
