//! The outside buffer types, the names of what they hold, and the calls made on them.
use bytes::{Bytes, BytesMut};
use faststr::FastStr;
use vstd::prelude::*;

verus! {

#[verifier::external_type_specification]
#[verifier::external_body]
pub struct ExBytes(Bytes);

#[verifier::external_type_specification]
#[verifier::external_body]
pub struct ExBytesMut(BytesMut);

#[verifier::external_type_specification]
#[verifier::external_body]
pub struct ExFastStr(FastStr);

/// The bytes that a frozen chunk holds.
pub uninterp spec fn frozen_bytes(b: Bytes) -> Seq<u8>;

/// The bytes written so far into a growable buffer.
pub uninterp spec fn filled_bytes(b: BytesMut) -> Seq<u8>;

/// How many bytes a growable buffer can hold without reallocating.
pub uninterp spec fn room_of(b: BytesMut) -> nat;

/// The UTF-8 bytes of an interned string.
pub uninterp spec fn string_bytes(s: FastStr) -> Seq<u8>;

/// Relies on `BytesMut::with_capacity`: the new buffer holds no bytes and can
/// hold at least `cap` bytes without reallocating. The allocation panics above
/// `isize::MAX` bytes.
#[verifier::external_body]
pub(crate) fn buf_with_capacity(cap: usize) -> (r: BytesMut)
    requires
        cap <= isize::MAX,
    ensures
        filled_bytes(r) == Seq::<u8>::empty(),
        room_of(r) >= cap,
{
    BytesMut::with_capacity(cap)
}

/// Relies on `BytesMut::capacity`: the bytes the buffer can hold without
/// reallocating. A buffer lies within one allocation, which never exceeds
/// `isize::MAX` bytes.
#[verifier::external_body]
pub(crate) fn buf_capacity(b: &BytesMut) -> (r: usize)
    ensures
        r == room_of(*b),
        r <= isize::MAX,
{
    b.capacity()
}

/// Relies on `<BytesMut as AsRef<[u8]>>::as_ref`: the slice is the buffer's content.
#[verifier::external_body]
pub(crate) fn buf_slice(b: &BytesMut) -> (r: &[u8])
    ensures
        r@ == filled_bytes(*b),
{
    b.as_ref()
}

/// Relies on `<Bytes as AsRef<[u8]>>::as_ref`: the slice is the chunk's content.
#[verifier::external_body]
pub(crate) fn frozen_slice(b: &Bytes) -> (r: &[u8])
    ensures
        r@ == frozen_bytes(*b),
{
    b.as_ref()
}

/// Relies on `<FastStr as AsRef<[u8]>>::as_ref`: the slice is the string's bytes.
#[verifier::external_body]
pub(crate) fn string_slice(s: &FastStr) -> (r: &[u8])
    ensures
        r@ == string_bytes(*s),
{
    AsRef::<[u8]>::as_ref(s)
}

/// Relies on `BytesMut::reserve`: the content stays as it is, and there is
/// room for at least `additional` more bytes. It panics only when the new
/// capacity overflows, which the bound rules out.
#[verifier::external_body]
pub(crate) fn buf_reserve(b: &mut BytesMut, additional: usize)
    requires
        filled_bytes(*old(b)).len() + additional <= isize::MAX,
    ensures
        filled_bytes(*final(b)) == filled_bytes(*old(b)),
        room_of(*final(b)) >= filled_bytes(*final(b)).len() + additional,
{
    b.reserve(additional)
}

/// Relies on `BytesMut::extend_from_slice`: the bytes are appended, growing
/// the buffer when needed.
#[verifier::external_body]
pub(crate) fn buf_extend(b: &mut BytesMut, data: &[u8])
    requires
        filled_bytes(*old(b)).len() + data@.len() <= isize::MAX,
    ensures
        filled_bytes(*final(b)) == filled_bytes(*old(b)) + data@,
{
    b.extend_from_slice(data)
}

/// Relies on `BytesMut::split`: the returned buffer takes the whole content,
/// and the buffer left behind is empty.
#[verifier::external_body]
pub(crate) fn buf_split(b: &mut BytesMut) -> (r: BytesMut)
    ensures
        filled_bytes(r) == filled_bytes(*old(b)),
        filled_bytes(*final(b)) == Seq::<u8>::empty(),
{
    b.split()
}

/// Relies on `BytesMut::unsplit`: the other buffer's content follows this
/// one's, absorbed in place when the two are adjacent, copied otherwise.
#[verifier::external_body]
pub(crate) fn buf_unsplit(b: &mut BytesMut, other: BytesMut)
    requires
        filled_bytes(*old(b)).len() + filled_bytes(other).len() <= isize::MAX,
    ensures
        filled_bytes(*final(b)) == filled_bytes(*old(b)) + filled_bytes(other),
{
    b.unsplit(other)
}

/// Relies on `BytesMut::clear`: the content is removed, the capacity kept.
#[verifier::external_body]
pub(crate) fn buf_clear(b: &mut BytesMut)
    ensures
        filled_bytes(*final(b)) == Seq::<u8>::empty(),
        room_of(*final(b)) == room_of(*old(b)),
{
    b.clear()
}

} // verus!
