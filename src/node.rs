//! One segment of a chain.
use bytes::{Bytes, BytesMut};
use faststr::FastStr;
use vstd::prelude::*;

use crate::buffers::{buf_slice, filled_bytes, frozen_bytes, frozen_slice, string_bytes, string_slice};

verus! {

/// A segment: a byte source that the chain holds without copying it.
pub enum Node {
    /// A frozen chunk.
    Bytes(Bytes),
    /// A detached fragment of the chain's growable tail.
    BytesMut(BytesMut),
    /// An interned string.
    FastStr(FastStr),
}

impl View for Node {
    type V = Seq<u8>;

    open spec fn view(&self) -> Seq<u8> {
        match self {
            Node::Bytes(b) => frozen_bytes(*b),
            Node::BytesMut(b) => filled_bytes(*b),
            Node::FastStr(s) => string_bytes(*s),
        }
    }
}

impl Node {
    /// The segment's content as one contiguous slice.
    pub fn as_slice(&self) -> (r: &[u8])
        ensures
            r@ == self@,
    {
        match self {
            Node::Bytes(b) => frozen_slice(b),
            Node::BytesMut(b) => buf_slice(b),
            Node::FastStr(s) => string_slice(s),
        }
    }
}

} // verus!
