//! A key-value store that keeps its state in a command log.
//!
//! Every change of the store is a command. A command is appended to the log
//! as one line before it is applied to the index in memory, and opening a
//! store replays the whole log into a fresh index. The library works on the
//! bytes of the log file and leaves the file itself to its caller: it is
//! given the bytes that the file holds, and hands out the bytes that are to
//! be written at its end.
//!
//! - `command`: the commands, and what each does to the index.
//! - `json`: the calls into `serde_json` that quote and unquote a string.
//! - `frame`: the line of a command around its quoted strings.
//! - `codec`: commands to lines and back.
//! - `log`: the log as lines closed by newlines.
//! - `index`: the index in memory.
//! - `kv`: the store.
//! - `error`: what can go wrong.

pub mod codec;
pub mod command;
pub mod error;
pub mod frame;
pub mod index;
pub mod json;
pub mod kv;
pub mod log;

pub use command::Command;
pub use error::KvError;
pub use index::Index;
pub use kv::KvStore;
pub use log::CommandLog;
