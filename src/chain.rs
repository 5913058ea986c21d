//! The chain: frozen segments in order, followed by one growable tail.
use std::collections::VecDeque;

use bytes::{Bytes, BytesMut};
use faststr::FastStr;
use vstd::prelude::*;
use vstd::seq_lib::lemma_flatten_concat;

use crate::buffers::{
    buf_capacity, buf_clear, buf_extend, buf_reserve, buf_slice, buf_split, buf_unsplit,
    buf_with_capacity, filled_bytes, frozen_bytes, room_of, string_bytes,
};
use crate::node::Node;
use crate::scatter::{drop_empty, lemma_drop_empty_keeps_content, pieces};

verus! {

const DEFAULT_BUFFER_SIZE: usize = 8192;

const DEFAULT_DEQUE_SIZE: usize = 16;

/// An ordered chain of byte segments plus a growable tail that is always last.
///
/// Its content is the segments' bytes in order, then the tail's bytes.
pub struct LinkedBytes {
    bytes: BytesMut,
    list: VecDeque<Node>,
}

impl View for LinkedBytes {
    type V = Seq<u8>;

    open spec fn view(&self) -> Seq<u8> {
        self.segments().flatten() + self.tail()
    }
}

impl LinkedBytes {
    /// The segments, in order.
    pub closed spec fn nodes(&self) -> Seq<Node> {
        self.list@
    }

    /// The growable tail.
    pub closed spec fn tail_buf(&self) -> BytesMut {
        self.bytes
    }

    /// The content of each segment, in order.
    pub open spec fn segments(&self) -> Seq<Seq<u8>> {
        self.nodes().map_values(|n: Node| n@)
    }

    /// The bytes written into the tail.
    pub open spec fn tail(&self) -> Seq<u8> {
        filled_bytes(self.tail_buf())
    }

    /// The first segment, if any, is a detached fragment of the tail, and the
    /// whole content fits in one allocation.
    pub open spec fn wf(&self) -> bool {
        &&& self.nodes().len() > 0 ==> self.nodes()[0] is BytesMut
        &&& self@.len() <= isize::MAX
    }

    /// `after` keeps the nodes of `before` and follows them with a detached
    /// fragment that holds `tail`.
    pub open spec fn detaches(before: Seq<Node>, after: Seq<Node>, tail: Seq<u8>) -> bool {
        &&& after.len() > before.len()
        &&& after.subrange(0, before.len() as int) == before
        &&& after[before.len() as int] is BytesMut
        &&& after[before.len() as int]@ == tail
    }

    /// An empty chain whose tail starts with room for 8192 bytes.
    pub fn new() -> (r: Self)
        ensures
            r.wf(),
            r.nodes().len() == 0,
            r.tail() == Seq::<u8>::empty(),
            room_of(r.tail_buf()) >= 8192,
    {
        Self::with_capacity(DEFAULT_BUFFER_SIZE)
    }

    /// An empty chain whose tail starts with room for `cap` bytes.
    pub fn with_capacity(cap: usize) -> (r: Self)
        requires
            cap <= isize::MAX,
        ensures
            r.wf(),
            r.nodes().len() == 0,
            r.tail() == Seq::<u8>::empty(),
            room_of(r.tail_buf()) >= cap,
    {
        let bytes = buf_with_capacity(cap);
        let list = VecDeque::with_capacity(DEFAULT_DEQUE_SIZE);
        let r = LinkedBytes { bytes, list };
        assert(r.segments() =~= Seq::<Seq<u8>>::empty());
        r
    }

    /// The growable tail.
    pub fn bytes(&self) -> (r: &BytesMut)
        ensures
            *r == self.tail_buf(),
    {
        &self.bytes
    }

    /// The growable tail, open for writing; the segments stay as they are.
    pub fn bytes_mut(&mut self) -> (r: &mut BytesMut)
        ensures
            *r == old(self).tail_buf(),
            final(self).nodes() == old(self).nodes(),
            final(self).tail_buf() == *final(r),
    {
        &mut self.bytes
    }

    /// Makes room in the tail for `additional` more bytes.
    pub fn reserve(&mut self, additional: usize)
        requires
            old(self).wf(),
            old(self)@.len() + additional <= isize::MAX,
        ensures
            final(self).wf(),
            final(self).nodes() == old(self).nodes(),
            final(self).tail() == old(self).tail(),
            room_of(final(self).tail_buf()) >= final(self).tail().len() + additional,
    {
        buf_reserve(&mut self.bytes, additional);
    }

    /// The total length: the segments' lengths plus the tail's.
    pub fn len(&self) -> (r: usize)
        requires
            self.wf(),
        ensures
            r == self@.len(),
    {
        let ghost segs = self.segments();
        let n = self.list.len();
        let mut total: usize = 0;
        let mut i: usize = 0;
        proof {
            assert(segs.take(0) =~= Seq::<Seq<u8>>::empty());
        }
        while i < n
            invariant
                segs == self.segments(),
                n == segs.len(),
                self.wf(),
                i <= n,
                total == segs.take(i as int).flatten().len(),
            decreases n - i,
        {
            let piece = self.list[i].as_slice();
            proof {
                assert(segs.take(i + 1) =~= segs.take(i as int).push(segs[i as int]));
                segs.take(i as int).lemma_flatten_push(segs[i as int]);
                lemma_flatten_concat(segs.take(i + 1), segs.skip(i + 1));
                assert(segs.take(i + 1) + segs.skip(i + 1) =~= segs);
            }
            total = total + piece.len();
            i = i + 1;
        }
        assert(segs.take(n as int) =~= segs);
        total + buf_slice(&self.bytes).len()
    }

    /// Whether the chain holds no byte.
    pub fn is_empty(&self) -> (r: bool)
        requires
            self.wf(),
        ensures
            r == (self@.len() == 0),
    {
        self.len() == 0
    }

    /// Appends `data` to the tail; no segment is made.
    pub fn append_bytes(&mut self, data: &[u8])
        requires
            old(self).wf(),
            old(self)@.len() + data@.len() <= isize::MAX,
        ensures
            final(self).wf(),
            final(self).nodes() == old(self).nodes(),
            final(self).tail() == old(self).tail() + data@,
            final(self)@ == old(self)@ + data@,
    {
        buf_extend(&mut self.bytes, data);
        assert(self@ =~= old(self)@ + data@);
    }

    /// Detaches the tail's bytes as a segment and pushes `node` after it.
    fn push_after_tail(&mut self, node: Node)
        requires
            old(self).wf(),
            old(self)@.len() + node@.len() <= isize::MAX,
        ensures
            final(self).wf(),
            final(self).nodes().len() == old(self).nodes().len() + 2,
            Self::detaches(old(self).nodes(), final(self).nodes(), old(self).tail()),
            final(self).nodes().last() == node,
            final(self).segments() == old(self).segments().push(old(self).tail()).push(node@),
            final(self).tail() == Seq::<u8>::empty(),
            final(self)@ == old(self)@ + node@,
    {
        let prev = buf_split(&mut self.bytes);
        self.list.push_back(Node::BytesMut(prev));
        self.list.push_back(node);
        assert(self.nodes().subrange(0, old(self).nodes().len() as int) =~= old(self).nodes());
        let ghost mid = old(self).segments().push(old(self).tail());
        assert(self.segments() =~= mid.push(node@));
        proof {
            old(self).segments().lemma_flatten_push(old(self).tail());
            mid.lemma_flatten_push(node@);
        }
        assert(self@ =~= old(self)@ + node@);
    }

    /// Freezes the tail and appends `bytes` after it, without copying it.
    pub fn insert(&mut self, bytes: Bytes)
        requires
            old(self).wf(),
            old(self)@.len() + frozen_bytes(bytes).len() <= isize::MAX,
        ensures
            final(self).wf(),
            final(self).nodes().len() == old(self).nodes().len() + 2,
            Self::detaches(old(self).nodes(), final(self).nodes(), old(self).tail()),
            final(self).nodes().last() == Node::Bytes(bytes),
            final(self).segments() == old(self).segments().push(old(self).tail()).push(
                frozen_bytes(bytes),
            ),
            final(self).tail() == Seq::<u8>::empty(),
            final(self)@ == old(self)@ + frozen_bytes(bytes),
    {
        self.push_after_tail(Node::Bytes(bytes));
    }

    /// Freezes the tail and appends `fast_str` after it, without copying it.
    pub fn insert_faststr(&mut self, fast_str: FastStr)
        requires
            old(self).wf(),
            old(self)@.len() + string_bytes(fast_str).len() <= isize::MAX,
        ensures
            final(self).wf(),
            final(self).nodes().len() == old(self).nodes().len() + 2,
            Self::detaches(old(self).nodes(), final(self).nodes(), old(self).tail()),
            final(self).nodes().last() == Node::FastStr(fast_str),
            final(self).segments() == old(self).segments().push(old(self).tail()).push(
                string_bytes(fast_str),
            ),
            final(self).tail() == Seq::<u8>::empty(),
            final(self)@ == old(self)@ + string_bytes(fast_str),
    {
        self.push_after_tail(Node::FastStr(fast_str));
    }
    /// Detaches the tail's bytes as a segment of its own; returns its index.
    pub fn split(&mut self) -> (r: usize)
        requires
            old(self).wf(),
        ensures
            final(self).wf(),
            final(self).nodes().len() == old(self).nodes().len() + 1,
            Self::detaches(old(self).nodes(), final(self).nodes(), old(self).tail()),
            final(self).segments() == old(self).segments().push(old(self).tail()),
            final(self).tail() == Seq::<u8>::empty(),
            final(self)@ == old(self)@,
            r == old(self).nodes().len(),
    {
        let prev = buf_split(&mut self.bytes);
        self.list.push_back(Node::BytesMut(prev));
        assert(self.nodes().subrange(0, old(self).nodes().len() as int) =~= old(self).nodes());
        assert(self.segments() =~= old(self).segments().push(old(self).tail()));
        proof {
            old(self).segments().lemma_flatten_push(old(self).tail());
        }
        assert(self@ =~= old(self)@);
        self.list.len() - 1
    }

    /// The scatter view: one range per non-empty segment, in order, then the
    /// tail if it is non-empty. Together the ranges hold the chain's content.
    pub fn io_slice(&self) -> (r: Vec<&[u8]>)
        ensures
            pieces(r@) == drop_empty(self.segments().push(self.tail())),
            pieces(r@).flatten() == self@,
            r@.len() <= self.nodes().len() + 1,
            forall|i: int| 0 <= i < r@.len() ==> #[trigger] r@[i]@.len() > 0,
    {
        let ghost segs = self.segments();
        let n = self.list.len();
        let mut out: Vec<&[u8]> = Vec::with_capacity(n);
        let mut i: usize = 0;
        proof {
            assert(segs.take(0) =~= Seq::<Seq<u8>>::empty());
            assert(pieces(out@) =~= Seq::<Seq<u8>>::empty());
        }
        while i < n
            invariant
                segs == self.segments(),
                n == segs.len(),
                i <= n,
                pieces(out@) == drop_empty(segs.take(i as int)),
            decreases n - i,
        {
            let piece = self.list[i].as_slice();
            let ghost before = out@;
            assert(segs.take(i + 1).drop_last() =~= segs.take(i as int));
            if piece.len() > 0 {
                out.push(piece);
                assert(pieces(out@) =~= pieces(before).push(piece@));
            }
            i = i + 1;
        }
        assert(segs.take(n as int) =~= segs);
        let tail = buf_slice(&self.bytes);
        let ghost before = out@;
        assert(segs.push(self.tail()).drop_last() =~= segs);
        if tail.len() > 0 {
            out.push(tail);
            assert(pieces(out@) =~= pieces(before).push(tail@));
        }
        proof {
            let all = segs.push(self.tail());
            lemma_drop_empty_keeps_content(all);
            segs.lemma_flatten_push(self.tail());
            assert forall|i: int| 0 <= i < out@.len() implies #[trigger] out@[i]@.len() > 0 by {
                assert(pieces(out@)[i] == out@[i]@);
            }
        }
        out
    }

    /// Drains every segment and the tail back into one buffer that becomes
    /// the tail, emptied. Detached fragments are merged in place where they
    /// are adjacent in memory; frozen chunks and strings are let go. The tail
    /// keeps at least the room it had; with no segments it is cleared in place.
    pub fn reset(&mut self)
        requires
            old(self).wf(),
        ensures
            final(self).wf(),
            final(self).nodes().len() == 0,
            final(self).tail() == Seq::<u8>::empty(),
            final(self)@ == Seq::<u8>::empty(),
            room_of(final(self).tail_buf()) >= room_of(old(self).tail_buf()),
            old(self).nodes().len() == 0 ==> room_of(final(self).tail_buf()) == room_of(
                old(self).tail_buf(),
            ),
    {
        let room = buf_capacity(&self.bytes);
        if self.list.len() == 0 {
            buf_clear(&mut self.bytes);
            assert(self.segments() =~= Seq::<Seq<u8>>::empty());
            assert(self@ =~= Seq::<u8>::empty());
            return;
        }
        proof {
            let segs = self.segments();
            assert(segs.flatten() == segs[0] + segs.drop_first().flatten());
        }
        let first = self.list.pop_front();
        assert(self.segments() =~= old(self).segments().drop_first());
        // The first segment is always a detached fragment (see `wf`).
        let mut head = match first {
            Some(Node::BytesMut(b)) => b,
            _ => buf_with_capacity(0),
        };
        while self.list.len() > 0
            invariant
                self.bytes == old(self).bytes,
                filled_bytes(head).len() + self.segments().flatten().len() + self.tail().len()
                    <= isize::MAX,
            decreases self.list@.len(),
        {
            let ghost segs = self.segments();
            assert(segs.flatten() == segs[0] + segs.drop_first().flatten());
            let node = self.list.pop_front();
            assert(self.segments() =~= segs.drop_first());
            match node {
                Some(Node::BytesMut(next)) => buf_unsplit(&mut head, next),
                _ => {},
            }
        }
        assert(self.segments() =~= Seq::<Seq<u8>>::empty());
        core::mem::swap(&mut self.bytes, &mut head);
        buf_unsplit(&mut self.bytes, head);
        buf_clear(&mut self.bytes);
        // The old tail may have been copied rather than absorbed: win its room back.
        buf_reserve(&mut self.bytes, room);
        assert(self@ =~= Seq::<u8>::empty());
    }

    /// The segments, in order.
    pub fn iter_list(&self) -> (r: Vec<&Node>)
        ensures
            r@.len() == self.nodes().len(),
            forall|i: int| 0 <= i < r@.len() ==> *#[trigger] r@[i] == self.nodes()[i],
    {
        let n = self.list.len();
        let mut out: Vec<&Node> = Vec::with_capacity(n);
        let mut i: usize = 0;
        while i < n
            invariant
                n == self.nodes().len(),
                i <= n,
                out@.len() == i,
                forall|k: int| 0 <= k < i ==> *#[trigger] out@[k] == self.nodes()[k],
            decreases n - i,
        {
            out.push(&self.list[i]);
            i = i + 1;
        }
        out
    }

    /// Gives up the chain: its segments in order, then the tail as a last
    /// detached fragment.
    pub fn into_iter_list(self) -> (r: Vec<Node>)
        ensures
            r@ == self.nodes().push(Node::BytesMut(self.tail_buf())),
    {
        let ghost all = self.nodes().push(Node::BytesMut(self.tail_buf()));
        let mut list = self.list;
        list.push_back(Node::BytesMut(self.bytes));
        let mut out: Vec<Node> = Vec::with_capacity(list.len());
        while list.len() > 0
            invariant
                out@ + list@ == all,
            decreases list@.len(),
        {
            let ghost before = out@;
            let ghost rest = list@;
            match list.pop_front() {
                Some(node) => {
                    out.push(node);
                    assert(out@ + list@ =~= before + rest);
                },
                None => {},
            }
        }
        assert(out@ + list@ =~= out@);
        out
    }
}

impl Default for LinkedBytes {
    fn default() -> (r: Self)
        ensures
            r.wf(),
            r.nodes().len() == 0,
            r.tail() == Seq::<u8>::empty(),
            room_of(r.tail_buf()) >= 8192,
    {
        Self::new()
    }
}

} // verus!
