//! Reading unsigned integers of any bit width back out of a byte stream.
use vstd::prelude::*;
use crate::bit_traits::BitReadable;
use crate::bits::{bit, bit_u8, bytes_bits, lemma_bit_of_zero, lemma_one_shl_pos, lemma_bits_eq, lemma_extract, lemma_or_shifted, lemma_value_of_bits,
    lemma_value_of_low_bits, low_bits, mask, num_words, padded_bits, value_of, zeros};
use crate::bitwriter::varint_bits;

verus! {

/// Why a read failed.
#[derive(Debug, Clone, Copy, PartialEq, Eq)]
pub enum ReadError {
    /// The input ended before the bits asked for.
    EndOfInput,
}

/// Why a compressed input could not be decoded.
#[derive(Debug, Clone, Copy, PartialEq, Eq)]
pub enum DecodeError {
    /// The input ended inside its header.
    EndOfInput,
    /// The input holds what no encoder writes and the decoding code cannot
    /// follow: a reference to a dictionary entry not yet made, a count past
    /// 64 bits, or a total that overflows.
    CorruptInput,
}

/// Whether `n` bits can be read at position `pos` of a stream of `total`
/// bits: the masks of the unpacking loop are built from shifts that must stay
/// below the word width, unless the input ends before such a shift.
pub open spec fn read_fits(pos: nat, n: nat, total: nat) -> bool {
    if pos % 64 == 0 {
        n < 64 || pos == total
    } else {
        n + pos % 64 < 128 || pos + 64 - pos % 64 == total
    }
}

/// What reading `n` bits at `pos` gives: the number they stand for (its low
/// 64 bits), or the end of the input.
pub open spec fn bits_at(stream: Seq<bool>, pos: nat, n: nat) -> Result<u64, ReadError> {
    if pos + n <= stream.len() {
        Ok(value_of(stream.subrange(pos as int, (pos + n) as int)))
    } else {
        Err(ReadError::EndOfInput)
    }
}

/// Where the reader stands after reading `n` bits at `pos`: past them, or at
/// the end of the stream when it was too short.
pub open spec fn pos_after(stream: Seq<bool>, pos: nat, n: nat) -> nat {
    if pos + n <= stream.len() {
        pos + n
    } else {
        stream.len()
    }
}

/// What parsing a value at a position of a bit stream gives.
pub enum Parsed<T> {
    /// The value, and the position just past its bits.
    Value(T, nat),
    /// The stream ends before the value does.
    End,
    /// The value's chunks run past the 64 bits of the result word; the
    /// reading code cannot shift that far.
    Overflow,
}

/// What a read returns for a parse outcome: the value, or the end of input.
pub open spec fn parsed_result<T>(p: Parsed<T>) -> Result<T, ReadError> {
    match p {
        Parsed::Value(v, _) => Ok(v),
        _ => Err(ReadError::EndOfInput),
    }
}

/// Where a read leaves the reader for a parse outcome in a stream of `total`
/// bits: past the value, or at the end.
pub open spec fn parsed_pos<T>(p: Parsed<T>, total: nat) -> nat {
    match p {
        Parsed::Value(_, q) => q,
        _ => total,
    }
}

/// Parsing, at `pos`, the chunks of a value written with continuation bits,
/// from chunk number `k` on, with the chunks before it already gathered in
/// `acc`.
pub open spec fn varint_parse(s: Seq<bool>, pos: nat, c: nat, k: nat, acc: u64) -> Parsed<u64>
    decreases s.len() - pos,
{
    if pos + 1 + c > s.len() {
        Parsed::End
    } else if k * c >= 64 {
        Parsed::Overflow
    } else {
        let v = value_of(s.subrange(pos + 1 as int, (pos + 1 + c) as int));
        let acc2 = acc | (v << ((k * c) as u64));
        if !s[pos as int] {
            Parsed::Value(acc2, pos + 1 + c)
        } else {
            varint_parse(s, pos + 1 + c, c, k + 1, acc2)
        }
    }
}

/// Reads bits back in the order a `BitWriter` packs them.
///
/// The input is taken eight bytes at a time as a little-endian word; the last
/// word is padded with zero bytes, so the zero bits up to its end are read as
/// any other bits.
pub struct BitReader {
    data: Vec<u8>,
    word: usize,
    buffer: u64,
    bit_pos: u32,
    bits_read: u64,
    default_chunk_size: u32,
}

impl BitReader {
    /// The stream holds whole words, at least one.
    pub proof fn lemma_stream_len(&self)
        ensures
            self.stream().len() == 64 * num_words(self.input().len()),
            self.stream().len() >= 64,
    {
    }

    /// The position never passes the end of the stream.
    pub proof fn lemma_pos_in_stream(&self)
        requires
            self.wf(),
        ensures
            self.pos() <= self.stream().len(),
    {
        self.lemma_wf();
    }

    /// The bytes the reader was made from.
    pub closed spec fn input(&self) -> Seq<u8> {
        self.data@
    }

    /// The bits the reader offers, padding included.
    pub open spec fn stream(&self) -> Seq<bool> {
        padded_bits(self.input())
    }

    /// The count of bits read so far, which is the position in the stream.
    pub closed spec fn pos(&self) -> nat {
        self.bits_read as nat
    }

    /// The index of the word the reader holds: it has loaded one more word
    /// than this.
    pub closed spec fn word_index(&self) -> nat {
        self.word as nat
    }

    /// The chunk width used by values that encode themselves in chunks.
    pub closed spec fn chunk_size(&self) -> u32 {
        self.default_chunk_size
    }

    /// The buffer holds the word the position is in.
    pub closed spec fn wf(&self) -> bool {
        &&& self.word < num_words(self.data@.len())
        &&& self.bit_pos <= 64
        &&& self.bits_read == 64 * self.word + self.bit_pos
        &&& forall|j: int| 0 <= j < 64 ==> #[trigger] bit(self.buffer, j) == self.stream()[64 * self.word + j]
        &&& 8 * self.data@.len() + 64 <= u64::MAX
    }

    proof fn lemma_wf(&self)
        requires
            self.wf(),
        ensures
            self.stream().len() == 64 * num_words(self.data@.len()),
            self.pos() <= self.stream().len(),
            self.pos() < self.stream().len() ==> self.bit_pos < 64 || self.word + 1 < num_words(self.data@.len()),
    {
    }

    /// The word of index `k`, from its eight bytes, zero-padded.
    fn word_at(data: &Vec<u8>, k: usize) -> (w: u64)
        requires
            k < num_words(data@.len()),
        ensures
            forall|j: int| 0 <= j < 64 ==> #[trigger] bit(w, j) == padded_bits(data@)[64 * k + j],
    {
        let len = data.len();
        let ghost s = padded_bits(data@);
        assert(s.len() == 64 * num_words(len as nat));
        let base: usize = if len == 0 { 0 } else { 8 * k };
        assert(len == 0 ==> k == 0);
        assert(base <= len);
        let mut w: u64 = 0;
        let mut j: usize = 0;
        assert forall|i: int| 0 <= i < 64 implies #[trigger] bit(w, i) == (i < 8 * j && s[64 * k + i]) by {
            let ii = i as u64;
            lemma_bit_of_zero(ii);
        }
        while j < 8 && j < len - base
            invariant
                base == 8 * k,
                base <= len == data@.len(),
                j <= 8,
                s == padded_bits(data@),
                s.len() == 64 * num_words(len as nat),
                k < num_words(len as nat),
                forall|i: int| 0 <= i < 64 ==> #[trigger] bit(w, i) == (i < 8 * j && s[64 * k + i]),
            decreases 8 - j,
        {
            let byte = data[base + j];
            let off: u64 = 8 * j as u64;
            proof {
                assert forall|i: int| off <= i < 64 implies !#[trigger] bit(w, i) by {}
                crate::bits::lemma_high_zero(w, off);
                lemma_or_shifted(w, byte as u64, off);
            }
            let ghost old_w = w;
            w = w | ((byte as u64) << off);
            proof {
                assert forall|i: int| 0 <= i < 64 implies #[trigger] bit(w, i) == (i < 8 * (j + 1) && s[64 * k + i]) by {
                    if i >= 8 * j && i < 8 * j + 8 {
                        let m = (i - 8 * j) as u64;
                        assert(m < 8 ==> (((byte as u64) >> m) & 1 == 1) == ((byte >> (m as u8)) & 1 == 1)) by (bit_vector);
                        let p = 64 * k + i;
                        assert(p / 8 == base + j);
                        assert(p % 8 == i - 8 * j);
                        assert(p < 8 * len);
                        assert(s[p] == bytes_bits(data@)[p]);
                    } else if i >= 8 * j + 8 {
                        let m = (i - 8 * j) as u64;
                        assert(8 <= m < 64 ==> ((byte as u64) >> m) & 1 == 0) by (bit_vector);
                    }
                }
            }
            j = j + 1;
        }
        proof {
            assert forall|i: int| 0 <= i < 64 implies #[trigger] bit(w, i) == s[64 * k + i] by {
                if i >= 8 * j {
                    let p = 64 * k + i;
                    assert(p >= 8 * len);
                    assert(s[p] == zeros((64 * num_words(len as nat) - 8 * len) as nat)[p - 8 * len]);
                }
            }
        }
        w
    }

    /// A reader over `input`; the chunk width defaults to 10.
    pub fn new(input: Vec<u8>, default_chunk_size: Option<u32>) -> (r: Self)
        requires
            8 * input@.len() + 64 <= u64::MAX,
        ensures
            r.wf(),
            r.input() == input@,
            r.pos() == 0,
            r.chunk_size() == (match default_chunk_size {
                Some(c) => c,
                None => 10u32,
            }),
    {
        let buffer = Self::word_at(&input, 0);
        let default_chunk_size = match default_chunk_size {
            Some(c) => c,
            None => 10,
        };
        BitReader { data: input, word: 0, buffer, bit_pos: 0, bits_read: 0, default_chunk_size }
    }

    /// The count of bits read so far.
    pub fn bits_read(&self) -> (r: u64)
        ensures
            r == self.pos(),
    {
        self.bits_read
    }

    /// How many bits of the word in the buffer have been read: 64 once it
    /// is used up. The position is that many bits into the word.
    pub fn bit_pos(&self) -> (r: u32)
        requires
            self.wf(),
        ensures
            r <= 64,
            self.pos() == 64 * self.word_index() + r,
            self.word_index() < num_words(self.input().len()),
    {
        self.bit_pos
    }

    /// The word in the buffer: the eight bytes of the input at the word's
    /// place, little-endian, padded with zero bytes past the end.
    pub fn buffer(&self) -> (r: u64)
        requires
            self.wf(),
        ensures
            forall|j: int| 0 <= j < 64 ==> #[trigger] bit(r, j) == self.stream()[64 * self.word_index() + j],
    {
        self.buffer
    }

    /// The chunk width used by values that encode themselves in chunks.
    pub fn default_chunk_size(&self) -> (r: u32)
        ensures
            r == self.chunk_size(),
    {
        self.default_chunk_size
    }

    /// Sets the chunk width used by values that encode themselves in chunks.
    pub fn set_default_chunk_size(&mut self, c: u32)
        ensures
            final(self).chunk_size() == c,
            final(self).input() == old(self).input(),
            final(self).pos() == old(self).pos(),
            old(self).wf() ==> final(self).wf(),
    {
        self.default_chunk_size = c;
    }

    /// Reads `bits` bits as an unsigned number, least significant bit first;
    /// of more than 64 bits the low 64 are kept.
    ///
    /// Fails when the stream ends first, and then stands at its end.
    pub fn read_bits(&mut self, bits: u32) -> (r: Result<u64, ReadError>)
        requires
            old(self).wf(),
            read_fits(old(self).pos(), bits as nat, old(self).stream().len()),
        ensures
            final(self).wf(),
            final(self).input() == old(self).input(),
            final(self).chunk_size() == old(self).chunk_size(),
            r == bits_at(old(self).stream(), old(self).pos(), bits as nat),
            final(self).pos() == pos_after(old(self).stream(), old(self).pos(), bits as nat),
    {
        let ghost s = old(self).stream();
        let ghost pos0 = old(self).pos();
        let ghost total = s.len();
        proof {
            self.lemma_wf();
        }
        let len = self.data.len();
        let avail: usize = len / 8 + if len % 8 == 0 { 0 } else { 1 };
        let mut bits_remaining = bits;
        let mut value: u64 = 0;
        assert forall|j: int| 0 <= j < 64 implies #[trigger] bit(value, j) == (j < 0 && s[pos0 + j]) by {
            let jj = j as u64;
            lemma_bit_of_zero(jj);
        }
        while bits_remaining > 0
            invariant
                self.wf(),
                self.data@ == old(self).data@,
                len == self.data@.len(),
                avail == len / 8 + if len % 8 == 0 { 0int } else { 1int },
                self.default_chunk_size == old(self).default_chunk_size,
                s == self.stream(),
                s == old(self).stream(),
                pos0 == old(self).pos(),
                total == s.len(),
                total == 64 * num_words(len as nat),
                bits_remaining <= bits,
                self.pos() == pos0 + (bits - bits_remaining),
                pos0 + bits <= total ==> self.pos() <= total,
                forall|j: int| 0 <= j < 64 ==> #[trigger] bit(value, j) == (j < bits - bits_remaining && s[pos0 + j]),
                bits_remaining == bits ==> read_fits(pos0, bits as nat, total),
                (bits_remaining > 0 && bits_remaining < bits) ==> {
                    &&& self.bit_pos == 64
                    &&& bits - bits_remaining < 64
                    &&& (bits_remaining < 64 || 64 * (self.word + 1) == total)
                },
            decreases bits_remaining,
        {
            if self.bit_pos >= 64 {
                let next = self.word + 1;
                if next >= avail {
                    proof {
                        assert(next >= num_words(len as nat));
                        assert(self.pos() == total);
                        assert(pos0 + bits > total);
                        assert(s == old(self).stream());
                        assert(pos0 == old(self).pos());
                    }
                    return Err(ReadError::EndOfInput);
                }
                self.buffer = Self::word_at(&self.data, next);
                self.word = next;
                self.bit_pos = 0;
            }
            let bits_to_read = if 64 - self.bit_pos < bits_remaining {
                64 - self.bit_pos
            } else {
                bits_remaining
            };
            assert(bits_to_read < 64);
            let offset = bits - bits_remaining;
            assert(offset < 64);
            proof {
                lemma_one_shl_pos(bits_to_read as u64);
            }
            let mask: u64 = ((1u64 << bits_to_read) - 1) << self.bit_pos;
            let extracted = (self.buffer & mask) >> self.bit_pos;
            proof {
                lemma_extract(self.buffer, self.bit_pos as u64, bits_to_read as u64);
                assert forall|j: int| offset <= j < 64 implies !#[trigger] bit(value, j) by {}
                crate::bits::lemma_high_zero(value, offset as u64);
                lemma_or_shifted(value, extracted, offset as u64);
            }
            let ghost bp = self.bit_pos;
            let ghost old_value = value;
            value = value | (extracted << offset);
            bits_remaining = bits_remaining - bits_to_read;
            self.bit_pos = self.bit_pos + bits_to_read;
            self.bits_read = self.bits_read + bits_to_read as u64;
            proof {
                assert forall|j: int| 0 <= j < 64 implies #[trigger] bit(value, j) == (j < bits - bits_remaining && s[pos0 + j]) by {
                    if offset <= j < bits - bits_remaining {
                        assert(bit(self.buffer, bp + (j - offset)) == s[64 * self.word + bp + (j - offset)]);
                    }
                }
            }
        }
        proof {
            lemma_value_of_bits(s.subrange(pos0 as int, (pos0 + bits) as int));
            assert forall|j: int| 0 <= j < 64 implies bit(value, j) == bit(value_of(s.subrange(pos0 as int, (pos0 + bits) as int)), j) by {}
            lemma_bits_eq(value, value_of(s.subrange(pos0 as int, (pos0 + bits) as int)));
        }
        Ok(value)
    }

    /// Bit `i` of the stream.
    fn stream_bit(&self, i: u64) -> (b: bool)
        requires
            self.wf(),
            i < self.stream().len(),
        ensures
            b == self.stream()[i as int],
    {
        let byte_index = i / 8;
        if byte_index < self.data.len() as u64 {
            let byte = self.data[byte_index as usize];
            let r = (i % 8) as u8;
            assert(i / 8 == byte_index && i % 8 == r);
            ((byte >> r) & 1) == 1
        } else {
            false
        }
    }

    /// Whether a value written with continuation bits, read at the current
    /// position with chunks of `data_bits_per_chunk` bits, would run past the
    /// 64 bits of the result word before it ends; nothing is read.
    pub fn continuation_read_overflows(&self, data_bits_per_chunk: u32) -> (r: bool)
        requires
            self.wf(),
        ensures
            r == varint_parse(self.stream(), self.pos(), data_bits_per_chunk as nat, 0, 0) is Overflow,
    {
        let ghost s = self.stream();
        let c = data_bits_per_chunk as u64;
        let len = self.data.len() as u64;
        let words: u64 = if len == 0 { 1 } else { len / 8 + if len % 8 == 0 { 0 } else { 1 } };
        let total: u64 = 64 * words;
        proof {
            self.lemma_wf();
        }
        assert(total == s.len());
        let mut p: u64 = self.bits_read;
        let mut kc: u64 = 0;
        let ghost mut k: nat = 0;
        let ghost mut acc: u64 = 0;
        loop
            invariant
                s == self.stream(),
                self.wf(),
                total == s.len(),
                c == data_bits_per_chunk,
                p <= total,
                kc == k * c,
                kc < 64 + c,
                c < 0x1_0000_0000,
                (varint_parse(s, self.pos(), c as nat, 0, 0) is Overflow) == (varint_parse(s, p as nat, c as nat, k, acc) is Overflow),
            decreases total - p,
        {
            if c + 1 > total - p {
                return false;
            }
            if kc >= 64 {
                return true;
            }
            if !self.stream_bit(p) {
                return false;
            }
            proof {
                acc = acc | (value_of(s.subrange(p + 1, p + 1 + c)) << kc);
                assert((k + 1) * c == k * c + c) by (nonlinear_arith);
                k = k + 1;
            }
            p = p + 1 + c;
            kc = kc + c;
        }
    }

    /// Reads a value that knows its own encoding.
    pub fn read<T: BitReadable>(&mut self) -> (r: Result<T, ReadError>)
        requires
            old(self).wf(),
            !(T::parse(old(self).stream(), old(self).pos(), old(self).chunk_size()) is Overflow),
        ensures
            final(self).wf(),
            final(self).input() == old(self).input(),
            final(self).chunk_size() == old(self).chunk_size(),
            r == parsed_result(T::parse(old(self).stream(), old(self).pos(), old(self).chunk_size())),
            final(self).pos() == parsed_pos(
                T::parse(old(self).stream(), old(self).pos(), old(self).chunk_size()),
                old(self).stream().len(),
            ),
    {
        T::read(self)
    }

    /// Reads a value written in chunks of `data_bits_per_chunk` bits, each
    /// led by a continuation bit; reading stops after a chunk whose
    /// continuation bit is clear.
    ///
    /// Fails when the stream ends first, and then stands at its end.
    pub fn read_bits_with_continuation_bit(&mut self, data_bits_per_chunk: u32) -> (r: Result<u64, ReadError>)
        requires
            old(self).wf(),
            data_bits_per_chunk < 64,
            !(varint_parse(old(self).stream(), old(self).pos(), data_bits_per_chunk as nat, 0, 0) is Overflow),
        ensures
            final(self).wf(),
            final(self).input() == old(self).input(),
            final(self).chunk_size() == old(self).chunk_size(),
            r == parsed_result(varint_parse(old(self).stream(), old(self).pos(), data_bits_per_chunk as nat, 0, 0)),
            final(self).pos() == parsed_pos(
                varint_parse(old(self).stream(), old(self).pos(), data_bits_per_chunk as nat, 0, 0),
                old(self).stream().len(),
            ),
    {
        let c = data_bits_per_chunk;
        let ghost s = old(self).stream();
        let ghost target = varint_parse(s, old(self).pos(), c as nat, 0, 0);
        let mut return_value: u64 = 0;
        let mut bits_read: u32 = 0;
        let ghost mut k: nat = 0;
        proof {
            lemma_one_shl_pos(c as u64);
        }
        let mask: u64 = (1u64 << c) - 1;
        proof {
            self.lemma_wf();
        }
        loop
            invariant
                self.wf(),
                self.stream() == s,
                s == old(self).stream(),
                c == data_bits_per_chunk,
                target == varint_parse(old(self).stream(), old(self).pos(), c as nat, 0, 0),
                self.input() == old(self).input(),
                self.chunk_size() == old(self).chunk_size(),
                c < 64,
                mask == ((1u64 << c) - 1) as u64,
                bits_read == k * c,
                bits_read < 128,
                target == varint_parse(s, self.pos(), c as nat, k, return_value),
                !(target is Overflow),
            decreases s.len() - self.pos(),
        {
            proof {
                self.lemma_wf();
            }
            let ghost p0 = self.pos();
            let continuation_bit = match self.read::<bool>() {
                Ok(b) => b,
                Err(_) => {
                    proof {
                        assert(varint_parse(s, p0, c as nat, k, return_value) is End);
                        assert(target is End);
                        assert(self.pos() == s.len());
                    }
                    return Err(ReadError::EndOfInput);
                }
            };
            let value = match self.read_bits(c) {
                Ok(v) => v,
                Err(_) => {
                    proof {
                        assert(varint_parse(s, p0, c as nat, k, return_value) is End);
                        assert(target is End);
                        assert(self.pos() == s.len());
                    }
                    return Err(ReadError::EndOfInput);
                }
            };
            proof {
                assert(s.subrange(p0 as int, (p0 + 1) as int) =~= seq![s[p0 as int]]);
                crate::bits::lemma_value_of_single(s[p0 as int]);
                lemma_value_of_bits(s.subrange((p0 + 1) as int, (p0 + 1 + c) as int));
                assert(value >> (c as u64) == 0) by {
                    assert forall|j: int| c <= j < 64 implies !#[trigger] bit(value, j) by {}
                    crate::bits::lemma_high_zero(value, c as u64);
                }
                assert(value >> (c as u64) == 0 && c < 64 ==> value & ((1u64 << c) - 1) as u64 == value) by (bit_vector);
            }
            assert(bits_read < 64);
            return_value = return_value | ((value & mask) << bits_read);
            bits_read = bits_read + c;
            proof {
                assert((k + 1) * c == k * c + c) by (nonlinear_arith);
                k = k + 1;
            }
            if !continuation_bit {
                return Ok(return_value);
            }
        }
    }
}

proof fn lemma_chunk_join(v: u64, kc: u64, c: u64)
    requires
        kc < 64,
        0 < c < 64,
    ensures
        (v >> kc) >> c == 0 ==> (v & mask(kc)) | (((v >> kc) & mask(c)) << kc) == v,
        (v >> kc) >> c > 0 ==> kc + c < 64,
        kc + c < 64 ==> (v & mask(kc)) | (((v >> kc) & mask(c)) << kc) == v & mask((kc + c) as u64),
        kc + c < 64 ==> (v >> kc) >> c == v >> ((kc + c) as u64),
{
    assert(kc < 64 && 0 < c < 64 && (v >> kc) >> c == 0 ==> (v & ((1u64 << kc) - 1) as u64) | (((v >> kc) & ((1u64 << c) - 1) as u64) << kc) == v) by (bit_vector);
    assert(kc < 64 && 0 < c < 64 && (v >> kc) >> c > 0 ==> kc + c < 64) by (bit_vector);
    assert(kc < 64 && 0 < c < 64 && kc + c < 64 ==> (v & ((1u64 << kc) - 1) as u64) | (((v >> kc) & ((1u64 << c) - 1) as u64) << kc) == v & ((1u64 << (kc + c) as u64) - 1) as u64) by (bit_vector);
    if kc + c < 64 {
        crate::bits::lemma_shr_shr(v, kc, c);
    }
}

proof fn lemma_varint_roundtrip_from(s: Seq<bool>, pos: nat, v: u64, c: nat, k: nat)
    requires
        0 < c < 64,
        k * c < 64,
        k == 0 || v >> ((k * c) as u64) > 0,
        pos + varint_bits(v >> ((k * c) as u64), c as u64).len() <= s.len(),
        s.subrange(pos as int, (pos + varint_bits(v >> ((k * c) as u64), c as u64).len()) as int)
            == varint_bits(v >> ((k * c) as u64), c as u64),
    ensures
        varint_parse(s, pos, c, k, v & mask((k * c) as u64)) == Parsed::Value(
            v,
            pos + varint_bits(v >> ((k * c) as u64), c as u64).len(),
        ),
    decreases 64 - k * c,
{
    let kc = (k * c) as u64;
    let cc = c as u64;
    let w = v >> kc;
    let bits = varint_bits(w, cc);
    let rest = w >> cc;
    lemma_chunk_join(v, kc, cc);
    lemma_value_of_low_bits(w, c);
    assert(s.subrange((pos + 1) as int, (pos + 1 + c) as int) =~= low_bits(w, c)) by {
        assert(bits.subrange(1int, (1 + c) as int) =~= low_bits(w, c));
    }
    assert(s[pos as int] == (rest > 0)) by {
        assert(bits[0] == s.subrange(pos as int, (pos + bits.len()) as int)[0]);
    }
    assert(w & mask(cc) == w & mask(if c >= 64 { 64u64 } else { c as u64 }));
    if rest > 0 {
        assert((k + 1) * c == k * c + c) by (nonlinear_arith);
        let nk = ((k + 1) * c) as u64;
        assert(nk == kc + cc);
        let tail = varint_bits(rest, cc);
        assert(bits == seq![true] + low_bits(w, c) + tail);
        assert(s.subrange((pos + 1 + c) as int, (pos + 1 + c + tail.len()) as int) =~= tail) by {
            assert(bits.subrange((1 + c) as int, (1 + c + tail.len()) as int) =~= tail);
        }
        lemma_varint_roundtrip_from(s, pos + 1 + c, v, c, k + 1);
    } else {
        assert(bits == seq![false] + low_bits(w, c));
    }
}

/// Reading back a value written with continuation bits gives the value, and
/// leaves the reader right after its bits.
pub proof fn lemma_varint_roundtrip(s: Seq<bool>, pos: nat, v: u64, c: nat)
    requires
        0 < c < 64,
        pos + varint_bits(v, c as u64).len() <= s.len(),
        s.subrange(pos as int, (pos + varint_bits(v, c as u64).len()) as int) == varint_bits(v, c as u64),
    ensures
        varint_parse(s, pos, c, 0, 0) == Parsed::Value(v, pos + varint_bits(v, c as u64).len()),
{
    assert(v >> 0u64 == v && v & mask(0) == 0) by (bit_vector);
    assert(0 * c == 0);
    lemma_varint_roundtrip_from(s, pos, v, c, 0);
}

/// Bits written as a number, once flushed to bytes, read back as that number
/// cut to its low `n` bits, wherever they stand in the stream.
pub proof fn lemma_bits_roundtrip(bytes: Seq<u8>, before: Seq<bool>, v: u64, n: nat, after: Seq<bool>)
    requires
        bytes_bits(bytes) == before + low_bits(v, n) + after,
    ensures
        bits_at(padded_bits(bytes), before.len(), n) == Ok::<u64, ReadError>(
            v & mask(if n >= 64 { 64u64 } else { n as u64 }),
        ),
{
    let s = padded_bits(bytes);
    assert(s.subrange(before.len() as int, (before.len() + n) as int) =~= low_bits(v, n));
    lemma_value_of_low_bits(v, n);
}

/// The bits of numbers written one after the other, each given as a value
/// and the count of its low bits written.
pub open spec fn numbers_bits(vals: Seq<(u64, nat)>) -> Seq<bool>
    decreases vals.len(),
{
    if vals.len() == 0 {
        Seq::empty()
    } else {
        numbers_bits(vals.drop_last()) + low_bits(vals.last().0, vals.last().1)
    }
}

/// The bits of the first numbers begin the bits of all of them.
proof fn lemma_numbers_bits_prefix(vals: Seq<(u64, nat)>, k: nat)
    requires
        k <= vals.len(),
    ensures
        numbers_bits(vals.take(k as int)).len() <= numbers_bits(vals).len(),
        numbers_bits(vals).subrange(0, numbers_bits(vals.take(k as int)).len() as int) == numbers_bits(vals.take(k as int)),
    decreases vals.len(),
{
    if k == vals.len() {
        assert(vals.take(k as int) =~= vals);
        assert(numbers_bits(vals).subrange(0, numbers_bits(vals).len() as int) =~= numbers_bits(vals));
    } else {
        let d = vals.drop_last();
        lemma_numbers_bits_prefix(d, k);
        assert(d.take(k as int) =~= vals.take(k as int));
        let p = numbers_bits(vals.take(k as int));
        assert(numbers_bits(vals).subrange(0, p.len() as int) =~= numbers_bits(d).subrange(0, p.len() as int));
    }
}

/// Numbers written one after the other and flushed to bytes read back in
/// turn: the number at place `i`, read where the bits of the numbers before
/// it end, is that number cut to its width.
pub proof fn lemma_numbers_roundtrip(bytes: Seq<u8>, vals: Seq<(u64, nat)>, i: nat, after: Seq<bool>)
    requires
        bytes_bits(bytes) == numbers_bits(vals) + after,
        i < vals.len(),
    ensures
        bits_at(padded_bits(bytes), numbers_bits(vals.take(i as int)).len(), vals[i as int].1) == Ok::<u64, ReadError>(
            vals[i as int].0 & mask(if vals[i as int].1 >= 64 { 64u64 } else { vals[i as int].1 as u64 }),
        ),
{
    let before = numbers_bits(vals.take(i as int));
    let mid = low_bits(vals[i as int].0, vals[i as int].1);
    let t1 = vals.take(i + 1 as int);
    assert(t1.drop_last() =~= vals.take(i as int));
    assert(numbers_bits(t1) == before + mid);
    lemma_numbers_bits_prefix(vals, i + 1);
    let all = numbers_bits(vals);
    let tail = all.subrange(numbers_bits(t1).len() as int, all.len() as int);
    assert(all =~= numbers_bits(t1) + tail);
    assert(bytes_bits(bytes) =~= before + mid + (tail + after));
    lemma_bits_roundtrip(bytes, before, vals[i as int].0, vals[i as int].1, tail + after);
}

/// A value parsed with continuation bits ends after where it starts.
pub proof fn lemma_varint_advances(s: Seq<bool>, pos: nat, c: nat, k: nat, acc: u64)
    ensures
        varint_parse(s, pos, c, k, acc) matches Parsed::Value(_, q) ==> pos < q <= s.len(),
    decreases s.len() - pos,
{
    if pos + 1 + c <= s.len() && k * c < 64 {
        let v = value_of(s.subrange(pos + 1 as int, (pos + 1 + c) as int));
        let acc2 = acc | (v << ((k * c) as u64));
        if s[pos as int] {
            lemma_varint_advances(s, pos + 1 + c, c, k + 1, acc2);
        }
    }
}

} // verus!
