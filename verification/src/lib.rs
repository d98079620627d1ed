//! Core of a local bridge that inspects and manipulates OS-level state:
//! a typed registry value codec, a symbolic hive resolver, a registry key
//! store, and a process directory built on a two-phase snapshot protocol.
//!
//! The transport that carries requests to these operations, and the OS
//! calls themselves, live outside this crate; everything here is plain
//! logic over plain values, stated in contracts and proved.

pub mod codec;
pub mod errors;
pub mod hive;
pub mod process;
pub mod snapshot;
pub mod spawn;
pub mod store;
pub mod strseq;
pub mod text;
