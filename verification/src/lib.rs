//! Decisions of an allow-list garbage collector for systemd-coredump dumps.

pub mod check;
pub mod config;
pub mod ctl;
pub mod daemon;
pub mod document;
pub mod dump;
pub mod duration;
pub mod find;
pub mod journal;
pub mod path;
pub mod pattern;
pub mod policy;
pub mod quota;
pub mod retain;
pub mod scan;
pub mod sd;
pub mod text;
