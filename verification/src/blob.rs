//! Immutable content-addressed byte buffers and an append-only builder.

use vstd::prelude::*;

verus! {

/// An immutable, independently owned byte sequence, abstracted as the
/// sequence of bytes it holds.
pub struct Blob {
    bytes: Vec<u8>,
}

impl View for Blob {
    type V = Seq<u8>;

    closed spec fn view(&self) -> Seq<u8> {
        self.bytes@
    }
}

impl Blob {
    /// Copies the given bytes into a new owned blob.
    pub fn new(bytes: &[u8]) -> (b: Blob)
        ensures
            b@ == bytes@,
    {
        Blob { bytes: vstd::slice::slice_to_vec(bytes) }
    }

    /// The blob with no bytes.
    pub fn empty() -> (b: Blob)
        ensures
            b@ == Seq::<u8>::empty(),
    {
        Blob { bytes: Vec::new() }
    }

    /// Borrows the blob's bytes.
    pub fn as_bytes(&self) -> (r: &[u8])
        ensures
            r@ == self@,
    {
        self.bytes.as_slice()
    }
}

/// An append-only accumulator of bytes, frozen once into a `Blob`.
pub struct Builder {
    bytes: Vec<u8>,
}

impl View for Builder {
    type V = Seq<u8>;

    closed spec fn view(&self) -> Seq<u8> {
        self.bytes@
    }
}

impl Builder {
    /// A builder holding no bytes yet.
    pub fn new() -> (b: Builder)
        ensures
            b@ == Seq::<u8>::empty(),
    {
        Builder { bytes: Vec::new() }
    }

    /// Consumes the builder, freezing its accumulated bytes into a blob.
    pub fn blob(self) -> (b: Blob)
        ensures
            b@ == self@,
    {
        Blob { bytes: self.bytes }
    }

    /// Appends one byte.
    pub fn push(&mut self, byte: u8)
        ensures
            final(self)@ == old(self)@.push(byte),
    {
        self.bytes.push(byte);
    }

    /// Appends all of the given bytes, in order.
    pub fn extend(&mut self, bytes: &[u8])
        ensures
            final(self)@ == old(self)@ + bytes@,
    {
        self.bytes.extend_from_slice(bytes);
    }
}

} // verus!
