//! A small continuous-integration system: a repository observer, a dispatcher
//! and test runners that talk to each other over TCP.  This library holds the
//! decisions each of them makes; the programs around it do the networking.

pub mod text;
pub mod addr;
pub mod common;
pub mod dispatcher;
pub mod test_runner;
pub mod repo_observer;
pub mod observer;
