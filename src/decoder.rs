//! The interface that both wire formats share.
use vstd::prelude::*;

use crate::bitpacked::{BitPackedDecoder, decoded};
use crate::error::DecodeError;
use crate::value::{DecoderResult, Val};
use crate::versioned::VersionedDecoder;

verus! {

/// A decoder walks a type table against a cursor over bytes.
pub trait Decoder: Sized {
    /// The cursor can be read from.
    spec fn ready(&self) -> bool;

    /// Where the cursor stands, in the format's own unit.
    spec fn cursor(&self) -> nat;

    /// What decoding type `id` from the cursor gives, and where it ends.
    spec fn expected(&self, id: int, allowed: bool) -> Result<(Val, nat), DecodeError>;

    /// The number of bits consumed.
    spec fn bits_used(&self) -> nat;

    /// Every byte has been taken.
    spec fn at_end(&self) -> bool;

    /// The number of entries of the type table.
    spec fn type_count(&self) -> nat;

    /// Decodes one node of type `typeid`; with `allowed` false, structs and
    /// choices are read but not kept.
    fn instance(&mut self, typeid: u8, allowed: bool) -> (r: Result<DecoderResult, DecodeError>)
        requires
            old(self).ready(),
        ensures
            decoded(r, old(self).expected(typeid as int, allowed), final(self).cursor()),
            r is Ok ==> final(self).ready(),
            typeid >= old(self).type_count() ==> *final(self) == *old(self),
    ;

    fn used_bits(&self) -> (r: usize)
        requires
            self.ready(),
        ensures
            r == self.bits_used(),
    ;

    /// True once every byte has been taken.
    fn done(&self) -> (r: bool)
        requires
            self.ready(),
        ensures
            r == self.at_end(),
    ;
}

impl<'a> Decoder for BitPackedDecoder<'a> {
    open spec fn ready(&self) -> bool {
        self.buffer.wf()
    }

    open spec fn cursor(&self) -> nat {
        self.buffer.bit_pos()
    }

    open spec fn expected(&self, id: int, allowed: bool) -> Result<(Val, nat), DecodeError> {
        self.spec_instance(id, allowed)
    }

    open spec fn bits_used(&self) -> nat {
        self.buffer.bit_pos()
    }

    open spec fn at_end(&self) -> bool {
        self.buffer.position() >= self.buffer.bytes().len()
    }

    open spec fn type_count(&self) -> nat {
        self.schema().len()
    }

    fn instance(&mut self, typeid: u8, allowed: bool) -> (r: Result<DecoderResult, DecodeError>) {
        BitPackedDecoder::instance(self, typeid, allowed)
    }

    fn used_bits(&self) -> (r: usize) {
        self.buffer.used_bits()
    }

    fn done(&self) -> (r: bool) {
        self.buffer.done()
    }
}

impl<'a> Decoder for VersionedDecoder<'a> {
    open spec fn ready(&self) -> bool {
        self.wf()
    }

    open spec fn cursor(&self) -> nat {
        self.at()
    }

    open spec fn expected(&self, id: int, allowed: bool) -> Result<(Val, nat), DecodeError> {
        self.spec_instance(id, allowed)
    }

    open spec fn bits_used(&self) -> nat {
        self.buffer.bit_pos()
    }

    open spec fn at_end(&self) -> bool {
        self.buffer.position() >= self.buffer.bytes().len()
    }

    open spec fn type_count(&self) -> nat {
        self.schema().len()
    }

    fn instance(&mut self, typeid: u8, allowed: bool) -> (r: Result<DecoderResult, DecodeError>) {
        VersionedDecoder::instance(self, typeid, allowed)
    }

    fn used_bits(&self) -> (r: usize) {
        self.buffer.used_bits()
    }

    fn done(&self) -> (r: bool) {
        self.buffer.done()
    }
}

} // verus!
