//! The script-driven repository observer: its configuration comes
//! from plain command-line arguments, and it speaks a two-request protocol
//! with the dispatcher.

use vstd::prelude::*;
use crate::addr::{host_of, ip_text, lemma_host_round_trip, parse_host, Ipv4Addr, SocketAddrV4};
use crate::text::{
    chars_of, decimal, lemma_parse_decimal, lemma_parse_unsigned_range, parse_u16, parse_unsigned, strings,
};

verus! {

/// A request from this observer to the dispatcher.
#[derive(Debug)]
pub enum Request {
    CheckStatus,
    Update(String),
}

/// The dispatcher's answer. On the wire the first variant is written `Ok`.
#[derive(Debug, PartialEq, Eq, Structural)]
pub enum Response {
    Okay,
    Error,
}

/// What became of one request sent to the dispatcher.
#[derive(Debug)]
pub enum Exchange {
    /// No connection could be made.
    Unreachable,
    /// The request went out but no answer could be read back.
    Unreadable,
    /// The dispatcher answered.
    Answered(Response),
}

/// What the observer makes of an exchange: any answer that could be read
/// counts as `Okay`, whatever it said; without one the observer stops
/// (`None`).
pub fn exchange_result(exchange: Exchange) -> (r: Option<Response>)
    ensures
        r is Some <==> exchange is Answered,
        r matches Some(answer) ==> answer == Response::Okay,
{
    match exchange {
        Exchange::Answered(_) => Some(Response::Okay),
        _ => None,
    }
}

/// Where the dispatcher listens and where the repository to watch lives.
#[derive(Debug)]
pub struct DispatcherConfig {
    pub socket: SocketAddrV4,
    pub repository_path: String,
}

/// Why command-line arguments give no configuration.
#[derive(Debug, PartialEq, Eq, Structural)]
pub enum ConfigError {
    /// The host argument does not have four dot-separated octets.
    BadHost,
    /// The port argument does not read as a `u16`.
    BadPort,
    /// No repository argument, and no repository path to fall back on.
    MissingRepositoryPath,
}

/// The text of an optional string.
pub open spec fn opt_text(o: Option<String>) -> Option<Seq<char>> {
    match o {
        Some(s) => Some(s@),
        None => None,
    }
}

/// The first problem with the arguments `args` (the program name first, then
/// host, port and repository path, each optional), checked in that order.
pub open spec fn config_error(args: Seq<Seq<char>>, fallback: Option<Seq<char>>) -> Option<
    ConfigError,
> {
    if args.len() > 1 && host_of(args[1]) is None {
        Some(ConfigError::BadHost)
    } else if args.len() > 2 && parse_unsigned(args[2], 65535) is None {
        Some(ConfigError::BadPort)
    } else if args.len() <= 3 && fallback is None {
        Some(ConfigError::MissingRepositoryPath)
    } else {
        None
    }
}

/// The dispatcher host: the host argument, or `127.0.0.1` without one.
pub open spec fn config_host(args: Seq<Seq<char>>) -> Ipv4Addr {
    if args.len() > 1 {
        host_of(args[1]).unwrap()
    } else {
        Ipv4Addr { a: 127, b: 0, c: 0, d: 1 }
    }
}

/// The dispatcher port: the port argument, or 8080 without one.
pub open spec fn config_port(args: Seq<Seq<char>>) -> u16 {
    if args.len() > 2 {
        parse_unsigned(args[2], 65535).unwrap() as u16
    } else {
        8080
    }
}

/// The repository path: the repository argument, or the fallback.
pub open spec fn config_repository(args: Seq<Seq<char>>, fallback: Option<Seq<char>>) -> Seq<
    char,
> {
    if args.len() > 3 {
        args[3]
    } else {
        fallback.unwrap()
    }
}

/// The repository watched when the arguments name none and no other path is given.
pub open spec fn default_repository_path() -> Seq<char> {
    "/Users/juliankozlowski/Desktop/Studia/Rust/continous_integration_tool/src/repo_observer/test_repo_clone_obs"@
}

impl DispatcherConfig {
    /// The first problem that [`DispatcherConfig::build`] would meet with
    /// these arguments, if any.
    pub fn check_args(args: &Vec<String>, fallback: &Option<String>) -> (r: Option<ConfigError>)
        ensures
            r == config_error(strings(args@), opt_text(*fallback)),
    {
        let ghost a = strings(args@);
        if args.len() > 1 {
            assert(a[1] == args@[1]@);
            if parse_host(args[1].as_str()).is_none() {
                return Some(ConfigError::BadHost);
            }
        }
        if args.len() > 2 {
            assert(a[2] == args@[2]@);
            let port = chars_of(args[2].as_str());
            if parse_u16(&port).is_none() {
                return Some(ConfigError::BadPort);
            }
        }
        if args.len() <= 3 && fallback.is_none() {
            return Some(ConfigError::MissingRepositoryPath);
        }
        None
    }

    /// Reads the configuration from the arguments: the program name, then
    /// the dispatcher host (`127.0.0.1` without one), the dispatcher port
    /// (8080 without one) and the repository path (`fallback` without one).
    pub fn build(args: &Vec<String>, fallback: Option<String>) -> (c: DispatcherConfig)
        requires
            config_error(strings(args@), opt_text(fallback)) is None,
        ensures
            c.socket.ip == config_host(strings(args@)),
            c.socket.port == config_port(strings(args@)),
            c.repository_path@ == config_repository(strings(args@), opt_text(fallback)),
            args@.len() > 1 ==> host_of(args@[1]@) == Some(c.socket.ip),
            args@.len() <= 1 ==> c.socket.ip == (Ipv4Addr { a: 127, b: 0, c: 0, d: 1 }),
            args@.len() > 2 ==> parse_unsigned(args@[2]@, 65535) == Some(c.socket.port as int),
            args@.len() <= 2 ==> c.socket.port == 8080,
            args@.len() > 3 ==> c.repository_path@ == args@[3]@,
            args@.len() <= 3 ==> opt_text(fallback) == Some(c.repository_path@),
    {
        proof {
            lemma_settings_come_from_their_arguments(strings(args@), opt_text(fallback));
        }
        let ghost a = strings(args@);
        let ip = if args.len() > 1 {
            assert(a[1] == args@[1]@);
            match parse_host(args[1].as_str()) {
                Some(ip) => ip,
                None => Ipv4Addr::new(127, 0, 0, 1),
            }
        } else {
            Ipv4Addr::new(127, 0, 0, 1)
        };
        let port: u16 = if args.len() > 2 {
            assert(a[2] == args@[2]@);
            let text = chars_of(args[2].as_str());
            match parse_u16(&text) {
                Some(p) => p,
                None => 8080,
            }
        } else {
            8080
        };
        let repository_path = if args.len() > 3 {
            assert(a[3] == args@[3]@);
            args[3].clone()
        } else {
            match fallback {
                Some(path) => path,
                None => String::new(),
            }
        };
        DispatcherConfig { socket: SocketAddrV4::new(ip, port), repository_path }
    }

    /// As [`DispatcherConfig::build`], with [`default_repository_path`] as the repository
    /// path when the arguments name none.
    pub fn build_with_default_path(args: &Vec<String>) -> (c: DispatcherConfig)
        requires
            config_error(strings(args@), Some(default_repository_path())) is None,
        ensures
            c.socket.ip == config_host(strings(args@)),
            c.socket.port == config_port(strings(args@)),
            c.repository_path@ == config_repository(strings(args@), Some(default_repository_path())),
    {
        let path = String::from_str(
            "/Users/juliankozlowski/Desktop/Studia/Rust/continous_integration_tool/src/repo_observer/test_repo_clone_obs",
        );
        DispatcherConfig::build(args, Some(path))
    }
}

/// Which problem the arguments have, stated case by case: a host argument
/// that does not read is the first problem; then a port argument that does
/// not read; then a missing repository with nothing to fall back on.
pub proof fn lemma_config_errors(args: Seq<Seq<char>>, fallback: Option<Seq<char>>)
    ensures
        config_error(args, fallback) == Some(ConfigError::BadHost) <==> (args.len() > 1 && host_of(args[1]) is None),
        config_error(args, fallback) == Some(ConfigError::BadPort) <==> (!(args.len() > 1 && host_of(args[1]) is None)
            && args.len() > 2 && parse_unsigned(args[2], 65535) is None),
        config_error(args, fallback) == Some(ConfigError::MissingRepositoryPath) <==> (
        !(args.len() > 1 && host_of(args[1]) is None) && !(args.len() > 2 && parse_unsigned(args[2], 65535) is None)
            && args.len() <= 3 && fallback is None),
        config_error(args, fallback) is None <==> ((args.len() > 1 ==> host_of(args[1]) is Some) && (args.len() > 2
            ==> parse_unsigned(args[2], 65535) is Some) && (args.len() <= 3 ==> fallback is Some)),
{
}

/// Each setting comes from its own argument whenever that argument is there,
/// however many arguments follow: the host from the second, the port from
/// the third, the repository from the fourth; without it, the host is
/// `127.0.0.1`, the port 8080 and the repository the fallback.
pub proof fn lemma_settings_come_from_their_arguments(args: Seq<Seq<char>>, fallback: Option<Seq<char>>)
    requires
        config_error(args, fallback) is None,
    ensures
        args.len() > 1 ==> host_of(args[1]) == Some(config_host(args)),
        args.len() <= 1 ==> config_host(args) == (Ipv4Addr { a: 127, b: 0, c: 0, d: 1 }),
        args.len() > 2 ==> parse_unsigned(args[2], 65535) == Some(config_port(args) as int),
        args.len() <= 2 ==> config_port(args) == 8080,
        args.len() > 3 ==> config_repository(args, fallback) == args[3],
        args.len() <= 3 ==> Some(config_repository(args, fallback)) == fallback,
{
    if args.len() > 2 {
        lemma_parse_unsigned_range(args[2], 65535);
    }
}

/// Arguments written from a host, a port and a repository path read back
/// as exactly those.
pub proof fn lemma_written_arguments_read_back(
    program: Seq<char>,
    ip: Ipv4Addr,
    port: u16,
    repository: Seq<char>,
    fallback: Option<Seq<char>>,
)
    ensures
        ({
            let args = seq![program, ip_text(ip), decimal(port as nat), repository];
            &&& config_error(args, fallback) is None
            &&& config_host(args) == ip
            &&& config_port(args) == port
            &&& config_repository(args, fallback) == repository
        }),
{
    let args = seq![program, ip_text(ip), decimal(port as nat), repository];
    lemma_host_round_trip(ip);
    lemma_parse_decimal(port as nat, 65535);
    assert(args[1] == ip_text(ip));
    assert(args[2] == decimal(port as nat));
}

/// How the observer reaches the dispatcher.
#[derive(Debug)]
pub struct DispatcherConnection {
    pub dispatcher_socket: SocketAddrV4,
}

impl DispatcherConnection {
    pub fn new(dispatcher_socket: SocketAddrV4) -> (c: DispatcherConnection)
        ensures
            c.dispatcher_socket == dispatcher_socket,
    {
        DispatcherConnection { dispatcher_socket }
    }
}

} // verus!
