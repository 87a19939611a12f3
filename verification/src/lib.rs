//! A background pipeline that turns queued text snippets into spoken audio:
//! it drains an inbox of text files in filename order, wraps each text in a
//! speech-markup envelope, synthesizes it, and plays the results back
//! sequentially, exactly once, with at most one instance per host.
//!
//! This crate holds the verified core: the markup sanitizer, the
//! lexicographic ordering of the inbox queue, and the pipeline state machine
//! with its single-instance gate and termination condition. The surrounding
//! process (directory I/O, the remote synthesis call, the audio device) lives
//! outside the library and only feeds it plain values.

mod guard;
mod model;
mod order;
mod pipeline;
mod sanitize;

pub use guard::guard_allows_start;
pub use order::lex_le_bytes;
pub use order::sort_names;
pub use pipeline::Phase;
pub use pipeline::Pipeline;
pub use pipeline::Step;
pub use pipeline::POLL_INTERVAL_MS;
pub use sanitize::escape_text;
pub use sanitize::process_text;
