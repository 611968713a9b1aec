//! The raw 32-byte account identifier, independent of any text rendering.
use vstd::prelude::*;

verus! {

/// A raw account identifier: exactly 32 bytes. The same bytes can be
/// rendered under any network's text format.
pub struct RawAccountId {
    bytes: Vec<u8>,
}

impl View for RawAccountId {
    type V = Seq<u8>;

    closed spec fn view(&self) -> Seq<u8> {
        self.bytes@
    }
}

impl RawAccountId {
    /// Well-formed: the identifier holds exactly 32 bytes.
    pub open spec fn wf(&self) -> bool {
        self@.len() == 32
    }

    pub fn new(bytes: Vec<u8>) -> (r: RawAccountId)
        requires
            bytes@.len() == 32,
        ensures
            r@ == bytes@,
            r.wf(),
    {
        RawAccountId { bytes }
    }

    pub fn as_slice(&self) -> (r: &[u8])
        ensures
            r@ == self@,
    {
        self.bytes.as_slice()
    }

    pub fn byte_at(&self, i: usize) -> (r: u8)
        requires
            i < self@.len(),
        ensures
            r == self@[i as int],
    {
        self.bytes[i]
    }
}

} // verus!
