//! Values that know how to write themselves to a bit stream and read
//! themselves back.
use vstd::prelude::*;
use crate::bitreader::{bits_at, parsed_pos, parsed_result, BitReader, Parsed, ReadError};
use crate::bitwriter::{emits_words, BitWriter};

verus! {

/// A value that can be written to a `BitWriter`.
pub trait BitWritable {
    /// The bits the value adds to a stream whose chunk width is `chunk`.
    spec fn encoding(&self, chunk: u32) -> Seq<bool>;

    /// Whether the value can be written with chunk width `chunk`.
    spec fn writable(&self, chunk: u32) -> bool;

    /// Appends the value's bits to the writer's stream.
    fn write(&self, writer: &mut BitWriter)
        requires
            old(writer).wf(),
            self.writable(old(writer).chunk_size()),
            old(writer).written() + self.encoding(old(writer).chunk_size()).len() <= u64::MAX,
        ensures
            final(writer).wf(),
            final(writer).stream() == old(writer).stream() + self.encoding(old(writer).chunk_size()),
            final(writer).written() == old(writer).written() + self.encoding(old(writer).chunk_size()).len(),
            final(writer).chunk_size() == old(writer).chunk_size(),
            emits_words(old(writer).output(), final(writer).output()),
            final(writer).pending().len() < 64,
            old(writer).unflushed() ==> final(writer).unflushed(),
    ;
}

/// A value that can be read from a `BitReader`.
pub trait BitReadable: Sized {
    /// What reading a value at `pos` of `stream` with chunk width `chunk`
    /// gives.
    spec fn parse(stream: Seq<bool>, pos: nat, chunk: u32) -> Parsed<Self>;

    /// Reads a value at the reader's position.
    fn read(reader: &mut BitReader) -> (r: Result<Self, ReadError>)
        requires
            old(reader).wf(),
            !(Self::parse(old(reader).stream(), old(reader).pos(), old(reader).chunk_size()) is Overflow),
        ensures
            final(reader).wf(),
            final(reader).input() == old(reader).input(),
            final(reader).chunk_size() == old(reader).chunk_size(),
            r == parsed_result(Self::parse(old(reader).stream(), old(reader).pos(), old(reader).chunk_size())),
            final(reader).pos() == parsed_pos(
                Self::parse(old(reader).stream(), old(reader).pos(), old(reader).chunk_size()),
                old(reader).stream().len(),
            ),
    ;
}

impl BitWritable for bool {
    open spec fn encoding(&self, chunk: u32) -> Seq<bool> {
        seq![*self]
    }

    open spec fn writable(&self, chunk: u32) -> bool {
        true
    }

    fn write(&self, writer: &mut BitWriter) {
        proof {
            crate::bits::lemma_low_bits_of_flag(*self);
        }
        writer.write_bits(1, if *self { 1 } else { 0 });
    }
}

impl BitReadable for bool {
    open spec fn parse(stream: Seq<bool>, pos: nat, chunk: u32) -> Parsed<bool> {
        match bits_at(stream, pos, 1) {
            Ok(x) => Parsed::Value(x == 1, pos + 1),
            Err(_) => Parsed::End,
        }
    }

    fn read(reader: &mut BitReader) -> (r: Result<bool, ReadError>) {
        let v = reader.read_bits(1)?;
        Ok(v == 1)
    }
}

} // verus!
