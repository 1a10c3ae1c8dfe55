//! A rolling logfile appender: the decisions behind rotating a growing
//! `current` file into numbered, retained history files.
//!
//! - `args`: the command line and the configuration it yields.
//! - `naming`: the names `{prefix}{index}.log` and their strict parse.
//! - `manager`: the retention manager, which numbers rotated files and
//!   chooses which old ones go.
//! - `rotator`: the engine that decides, read by read, where the input is
//!   split and when `current` is rotated, with the laws that it loses no
//!   byte.
pub mod args;
pub mod manager;
pub mod naming;
pub mod rotator;
