//! A chain of byte buffers that is handed to a vectored write without copying.
//!
//! [`LinkedBytes`] keeps frozen chunks (`bytes::Bytes`, `faststr::FastStr`) and
//! detached fragments of its growable tail (`bytes::BytesMut`) in order, and
//! builds the ordered list of non-empty byte ranges that a `writev`-style sink
//! takes. [`advance`] is the step of the write loop: it drops from that list
//! the bytes that one sink call accepted.
mod buffers;
mod chain;
mod node;
mod scatter;

pub use buffers::{filled_bytes, frozen_bytes, room_of, string_bytes};
pub use chain::LinkedBytes;
pub use node::Node;
pub use scatter::{
    advance, capped_calls, capped_run, ceil_div, consumed, drained, drop_empty, fits, greedy_run,
    lemma_capped_calls_bound, lemma_capped_sink_calls, lemma_consumed_shrinks,
    lemma_drain_in_order, lemma_drain_sends_all, lemma_drop_empty_keeps_content, lemma_greedy_sink_calls, lemma_joined_length, pieces,
    sent, total_len,
    WriteError,
};
