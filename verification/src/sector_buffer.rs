//! Region bytes held in memory on a sector boundary.
use vstd::prelude::*;

use aligned_vec::{AVec, ConstAlign};

verus! {

/// Bytes of a region file, held in an `aligned_vec::AVec` that starts on a
/// sector boundary in memory.
#[verifier::external_body]
pub struct SectorBuffer {
    data: AVec<u8, ConstAlign<4096>>,
}

/// The bytes that a buffer holds.
pub uninterp spec fn sector_buffer_bytes(b: SectorBuffer) -> Seq<u8>;

impl View for SectorBuffer {
    type V = Seq<u8>;

    open spec fn view(&self) -> Seq<u8> {
        sector_buffer_bytes(*self)
    }
}

impl SectorBuffer {
    /// A buffer holding a copy of `bytes`.
    pub fn copy_from(bytes: &[u8]) -> (r: Self)
        ensures
            r@ == bytes@,
    {
        Self::from_slice(bytes)
    }

    /// The bytes held.
    pub fn bytes(&self) -> (r: &[u8])
        ensures
            r@ == self@,
    {
        self.as_slice()
    }

    /// `AVec::with_capacity`: an empty vector with room for `capacity` bytes.
    /// It panics above `isize::MAX` bytes, which `requires` leaves out.
    #[verifier::external_body]
    pub(crate) fn with_capacity(capacity: usize) -> (r: Self)
        requires
            capacity <= isize::MAX,
        ensures
            sector_buffer_bytes(r) == Seq::<u8>::empty(),
    {
        SectorBuffer { data: AVec::with_capacity(4096, capacity) }
    }

    /// `AVec::from_slice`: a vector holding a copy of `bytes`.
    #[verifier::external_body]
    pub(crate) fn from_slice(bytes: &[u8]) -> (r: Self)
        ensures
            sector_buffer_bytes(r) == bytes@,
    {
        SectorBuffer { data: AVec::from_slice(4096, bytes) }
    }

    /// `AVec::len`: the number of bytes held.
    #[verifier::external_body]
    pub(crate) fn len(&self) -> (r: usize)
        ensures
            r == sector_buffer_bytes(*self).len(),
    {
        self.data.len()
    }

    /// `AVec::as_slice`: the bytes held.
    #[verifier::external_body]
    pub(crate) fn as_slice(&self) -> (r: &[u8])
        ensures
            r@ == sector_buffer_bytes(*self),
    {
        self.data.as_slice()
    }

    /// `AVec::resize`: truncates to `new_len` bytes, or appends copies of
    /// `value` up to `new_len`. Growing panics above `isize::MAX` bytes, which
    /// `requires` leaves out.
    #[verifier::external_body]
    pub(crate) fn resize(&mut self, new_len: usize, value: u8)
        requires
            new_len <= isize::MAX,
        ensures
            sector_buffer_bytes(*final(self)) == if new_len > sector_buffer_bytes(*old(self)).len() {
                sector_buffer_bytes(*old(self)) + Seq::new(
                    (new_len - sector_buffer_bytes(*old(self)).len()) as nat,
                    |i: int| value,
                )
            } else {
                sector_buffer_bytes(*old(self)).take(new_len as int)
            },
    {
        self.data.resize(new_len, value)
    }

    /// Assignment through `AVec`'s `DerefMut`: byte `i` becomes `value`.
    #[verifier::external_body]
    pub(crate) fn set(&mut self, i: usize, value: u8)
        requires
            i < sector_buffer_bytes(*old(self)).len(),
        ensures
            sector_buffer_bytes(*final(self)) == sector_buffer_bytes(*old(self)).update(
                i as int,
                value,
            ),
    {
        self.data[i] = value;
    }
}

} // verus!
