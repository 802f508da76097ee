//! `dispatch`: SSH batch operations on many servers.
//!
//! Commands run and files are managed on many hosts at once, through the system
//! `ssh` and `scp`. This crate holds everything that is decided on the way, and
//! proves it: which hosts a list of patterns means, what each of them is asked to
//! run, how an operation goes on after each reply, and what is reported of it.
//! It opens no connection and touches no file. Each operation comes in the same
//! parts:
//!
//! - a builder, made by [`Dispatch`], that collects the options;
//! - a plan, made by the builder, that names the hosts and what to do on each;
//! - functions from what came back to the next step or to the result of one host;
//! - an aggregate result, keyed by host.
//!
//! | module | |
//! |---|---|
//! | [`client`] | the client and its operations |
//! | [`config`], [`conn`] | configuration, and how to connect and run a script |
//! | [`inventory`] | aliases, groups and the resolution of patterns |
//! | [`exec`] | commands |
//! | [`transfer`], [`update`], [`content`] | copy and fetch, update, write and read |
//! | [`mesh`] | scripts that set up trust between hosts |
//! | [`outcome`], [`error`] | what results have in common, and errors |
//! | [`shell`], [`paths`], [`codec`] | quoting, paths, base64 and checksums |
//! | [`text`], [`number`], [`ordered`] | strings, numerals and an ordered map |

pub mod client;
pub mod codec;
pub mod config;
pub mod conn;
pub mod content;
pub mod error;
pub mod exec;
pub mod inventory;
pub mod mesh;
pub mod number;
pub mod ordered;
pub mod outcome;
pub mod paths;
pub mod shell;
pub mod text;
pub mod transfer;
pub mod update;

pub use client::Dispatch;
pub use config::{Config, HostKeyChecking, Timeout};
pub use content::{ReadBuilder, ReadHostResult, ReadResult, WriteBuilder};
pub use error::Error;
pub use exec::{ExecBuilder, ExecResult, HostResult, StreamType};
pub use inventory::Inventory;
pub use transfer::{CopyBuilder, FetchBuilder, TransferHostResult, TransferResult};
pub use update::{UpdateBuilder, UpdateHostResult, UpdatePhase, UpdateResult};
