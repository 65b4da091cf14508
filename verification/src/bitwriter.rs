//! Packing unsigned integers of any bit width into a byte stream.
use vstd::prelude::*;
use crate::bit_traits::BitWritable;
use crate::bits::{bit, bit_length, chunks_for, lemma_bit_length_shr, lemma_bit_length_zero, byte_padding, bytes_bits, lemma_one_shl_pos, lemma_shift_by_zero, lemma_shr_smaller, le_bytes, lemma_bits_eq, lemma_bytes_bits_add, lemma_le_bytes_bits, lemma_value_of_bits, low_bits, lemma_extract, value_of, zeros};

verus! {

/// Whether `n` bits can be written when `pending` bits wait in the word
/// buffer: the masks of the packing loop are built from shifts that must stay
/// below the word width.
pub open spec fn write_fits(pending: nat, n: nat) -> bool {
    if pending == 0 {
        n < 64
    } else {
        n + pending < 128
    }
}

/// How many bytes `flush` emits for `pending` bits in the word buffer: as
/// many as hold them.
pub open spec fn flush_len(pending: nat) -> nat {
    (pending + 7) / 8
}

/// `after` is `before` followed by whole eight-byte words: a word leaves the
/// buffer only once it is full.
pub open spec fn emits_words(before: Seq<u8>, after: Seq<u8>) -> bool {
    &&& before.len() <= after.len()
    &&& after.subrange(0, before.len() as int) == before
    &&& (after.len() - before.len()) % 8 == 0
}

/// Emitting whole words, then whole words again, emits whole words.
pub proof fn lemma_emits_words_trans(a: Seq<u8>, b: Seq<u8>, c: Seq<u8>)
    requires
        emits_words(a, b),
        emits_words(b, c),
    ensures
        emits_words(a, c),
{
    assert(c.subrange(0, a.len() as int) =~= c.subrange(0, b.len() as int).subrange(0, a.len() as int));
}

/// What a writer has emitted is fixed by what it had emitted before and its
/// whole stream: from the same bytes, emitting whole words and keeping fewer
/// than 64 bits waiting, the same stream leaves the same bytes and the same
/// waiting bits.
pub proof fn lemma_split_determined(before: Seq<u8>, b1: Seq<u8>, p1: Seq<bool>, b2: Seq<u8>, p2: Seq<bool>)
    requires
        emits_words(before, b1),
        emits_words(before, b2),
        p1.len() < 64,
        p2.len() < 64,
        bytes_bits(b1) + p1 == bytes_bits(b2) + p2,
    ensures
        b1 == b2,
        p1 == p2,
{
    let n1 = (b1.len() - before.len()) / 8;
    let n2 = (b2.len() - before.len()) / 8;
    assert((bytes_bits(b1) + p1).len() == 8 * b1.len() + p1.len());
    assert((bytes_bits(b2) + p2).len() == 8 * b2.len() + p2.len());
    assert(b1.len() == b2.len());
    assert(bytes_bits(b1) =~= (bytes_bits(b1) + p1).subrange(0, 8 * b1.len() as int));
    assert(bytes_bits(b2) =~= (bytes_bits(b2) + p2).subrange(0, 8 * b2.len() as int));
    crate::bits::lemma_bytes_bits_injective(b1, b2);
    assert(p1 =~= (bytes_bits(b1) + p1).subrange(8 * b1.len() as int, (8 * b1.len() + p1.len()) as int));
    assert(p2 =~= (bytes_bits(b2) + p2).subrange(8 * b2.len() as int, (8 * b2.len() + p2.len()) as int));
}

/// Emitting nothing emits whole words.
pub proof fn lemma_emits_words_refl(a: Seq<u8>)
    ensures
        emits_words(a, a),
{
    assert(a.subrange(0, a.len() as int) =~= a);
}

/// The bits that encode `v` in chunks of `c` bits: each chunk is a
/// continuation bit, set when more chunks follow, then the next `c` low bits
/// of the value.
pub open spec fn varint_bits(v: u64, c: u64) -> Seq<bool>
    decreases v,
{
    let rest = v >> c;
    if 0 < c && rest > 0 {
        proof {
            lemma_shr_smaller(v, c);
        }
        seq![true] + low_bits(v, c as nat) + varint_bits(rest, c)
    } else {
        seq![rest > 0] + low_bits(v, c as nat)
    }
}

/// A value written in chunks of `c` bits takes `c + 1` bits per chunk, and
/// as many chunks as its bits fill, at least one.
pub proof fn lemma_varint_len(v: u64, c: u64)
    requires
        0 < c < 64,
    ensures
        varint_bits(v, c).len() == (c + 1) * if bit_length(v) == 0 { 1 } else { chunks_for(bit_length(v), c as nat) },
    decreases v,
{
    let rest = v >> c;
    let bl = bit_length(v);
    lemma_bit_length_shr(v, c);
    lemma_bit_length_zero(rest);
    if rest > 0 {
        lemma_shr_smaller(v, c);
        lemma_varint_len(rest, c);
        let n = chunks_for((bl - c) as nat, c as nat);
        vstd::arithmetic::div_mod::lemma_div_plus_one((bl - c + c - 1) as int, c as int);
        assert(chunks_for(bl, c as nat) == 1 + n);
        assert(varint_bits(v, c) == seq![true] + low_bits(v, c as nat) + varint_bits(rest, c));
        assert((c + 1) * (n + 1) == (c + 1) * n + (c + 1)) by (nonlinear_arith);
        assert(bit_length(rest) == bl - c);
        assert(bl > 0);
        assert(varint_bits(rest, c).len() == (c + 1) * n);
        assert(varint_bits(v, c).len() == 1 + c + (c + 1) * n);
        let k = if bit_length(v) == 0 { 1 } else { chunks_for(bit_length(v), c as nat) };
        assert(k == n + 1);
        assert((c + 1) * k == (c + 1) * (n + 1));
    } else {
        assert(varint_bits(v, c) == seq![rest > 0] + low_bits(v, c as nat));
        if bl > 0 {
            let b = bl as int;
            let cc = c as int;
            assert((b + cc - 1) / cc == 1) by (nonlinear_arith)
                requires
                    0 < b <= cc,
            ;
            assert(chunks_for(bl, c as nat) == 1);
        }
        assert(varint_bits(v, c).len() == c + 1);
        let k = if bit_length(v) == 0 { 1 } else { chunks_for(bit_length(v), c as nat) };
        assert(k == 1);
        assert((c + 1) * k == c + 1);
    }
}

/// Packs bits into bytes, least significant bit first.
///
/// Bits gather in a 64-bit word; each full word is emitted as eight
/// little-endian bytes, and `flush` emits the bytes of the last, partial word.
pub struct BitWriter {
    bytes: Vec<u8>,
    bits_written: u64,
    buffer: u64,
    bit_pos: u32,
    default_chunk_size: u32,
}

impl BitWriter {
    /// The bytes emitted so far.
    pub closed spec fn output(&self) -> Seq<u8> {
        self.bytes@
    }

    /// The bits that wait in the word buffer, not yet emitted.
    pub closed spec fn pending(&self) -> Seq<bool> {
        low_bits(self.buffer, self.bit_pos as nat)
    }

    /// The whole bit stream: the emitted bytes' bits, then the pending ones.
    pub open spec fn stream(&self) -> Seq<bool> {
        bytes_bits(self.output()) + self.pending()
    }

    /// The count of bits written since the writer was made.
    pub closed spec fn written(&self) -> u64 {
        self.bits_written
    }

    /// The chunk width used by values that encode themselves in chunks.
    pub closed spec fn chunk_size(&self) -> u32 {
        self.default_chunk_size
    }

    /// The word buffer holds fewer than 64 bits and nothing above them.
    pub closed spec fn wf(&self) -> bool {
        &&& self.bit_pos < 64
        &&& self.buffer >> (self.bit_pos as u64) == 0
    }

    /// No flush has come yet: the stream holds exactly the bits written, and
    /// only whole words have left the buffer.
    pub open spec fn unflushed(&self) -> bool {
        &&& self.stream().len() == self.written()
        &&& self.output().len() % 8 == 0
    }

    /// Before any flush, the bits waiting in the buffer number the bits
    /// written modulo 64, and the bytes emitted are the whole words of them.
    pub proof fn lemma_unflushed_split(&self)
        requires
            self.wf(),
            self.unflushed(),
        ensures
            self.pending().len() == self.written() % 64,
            self.output().len() == 8 * (self.written() / 64),
    {
        let w = self.written() as int;
        let o = self.output().len() as int;
        let p = self.bit_pos as int;
        assert(self.stream().len() == 8 * o + p);
        assert(w == 64 * (o / 8) + p);
        vstd::arithmetic::div_mod::lemma_fundamental_div_mod_converse(w, 64, o / 8, p);
    }

    proof fn lemma_pending_len(&self)
        ensures
            self.pending().len() == self.bit_pos,
    {
    }

    /// A writer with nothing written; the chunk width defaults to 10.
    pub fn new(default_chunk_size: Option<u32>) -> (w: Self)
        ensures
            w.wf(),
            w.output() == Seq::<u8>::empty(),
            w.pending() == Seq::<bool>::empty(),
            w.stream() == Seq::<bool>::empty(),
            w.written() == 0,
            w.unflushed(),
            w.chunk_size() == (match default_chunk_size {
                Some(c) => c,
                None => 10u32,
            }),
    {
        let default_chunk_size = match default_chunk_size {
            Some(c) => c,
            None => 10,
        };
        let w = BitWriter { bytes: Vec::new(), bits_written: 0, buffer: 0, bit_pos: 0, default_chunk_size };
        proof {
            lemma_shift_by_zero(0);
            assert(w.pending() =~= Seq::<bool>::empty());
            assert(bytes_bits(w.output()) =~= Seq::<bool>::empty());
            assert(w.stream() =~= Seq::<bool>::empty());
        }
        w
    }

    /// The count of bits written since the writer was made.
    pub fn bits_written(&self) -> (r: u64)
        ensures
            r == self.written(),
    {
        self.bits_written
    }

    /// The chunk width used by values that encode themselves in chunks.
    pub fn default_chunk_size(&self) -> (r: u32)
        ensures
            r == self.chunk_size(),
    {
        self.default_chunk_size
    }

    /// Sets the chunk width used by values that encode themselves in chunks.
    pub fn set_default_chunk_size(&mut self, c: u32)
        ensures
            final(self).chunk_size() == c,
            final(self).output() == old(self).output(),
            final(self).pending() == old(self).pending(),
            final(self).written() == old(self).written(),
            old(self).wf() ==> final(self).wf(),
    {
        self.default_chunk_size = c;
    }

    /// The bytes emitted so far.
    pub fn bytes(&self) -> (r: &[u8])
        ensures
            r@ == self.output(),
    {
        self.bytes.as_slice()
    }

    /// Gives up the writer and returns the bytes it emitted.
    pub fn into_bytes(self) -> (r: Vec<u8>)
        ensures
            r@ == self.output(),
    {
        self.bytes
    }

    /// Appends the eight little-endian bytes of a word to the output.
    fn emit_word(&mut self, word: u64, count: usize)
        requires
            count <= 8,
        ensures
            final(self).bytes@ == old(self).bytes@ + le_bytes(word).take(count as int),
            final(self).bits_written == old(self).bits_written,
            final(self).buffer == old(self).buffer,
            final(self).bit_pos == old(self).bit_pos,
            final(self).default_chunk_size == old(self).default_chunk_size,
    {
        let mut i: usize = 0;
        while i < count
            invariant
                i <= count <= 8,
                self.bytes@ == old(self).bytes@ + le_bytes(word).take(i as int),
                self.bits_written == old(self).bits_written,
                self.buffer == old(self).buffer,
                self.bit_pos == old(self).bit_pos,
                self.default_chunk_size == old(self).default_chunk_size,
            decreases count - i,
        {
            let shift: u64 = 8 * i as u64;
            let b: u8 = ((word >> shift) & 0xff) as u8;
            self.bytes.push(b);
            assert(le_bytes(word).take(i + 1) =~= le_bytes(word).take(i as int).push(b));
            i = i + 1;
        }
    }

    /// Writes the `bits` low bits of `value`, least significant first; past
    /// the 64 bits of `value` the stream gets zero bits.
    pub fn write_bits(&mut self, bits: u32, value: u64)
        requires
            old(self).wf(),
            bits < 64 || write_fits(old(self).pending().len(), bits as nat),
            old(self).written() + bits <= u64::MAX,
        ensures
            final(self).wf(),
            final(self).stream() == old(self).stream() + low_bits(value, bits as nat),
            final(self).written() == old(self).written() + bits,
            final(self).chunk_size() == old(self).chunk_size(),
            emits_words(old(self).output(), final(self).output()),
            final(self).pending().len() < 64,
            old(self).unflushed() ==> final(self).unflushed(),
    {
        proof {
            old(self).lemma_pending_len();
            lemma_emits_words_refl(old(self).output());
        }
        let mut bits_remaining = bits;
        while bits_remaining > 0
            invariant
                self.wf(),
                bits_remaining <= bits,
                self.stream() == old(self).stream() + low_bits(value, (bits - bits_remaining) as nat),
                self.bits_written == old(self).bits_written + (bits - bits_remaining),
                old(self).bits_written + bits <= u64::MAX,
                write_fits(self.bit_pos as nat, bits_remaining as nat),
                bits_remaining > 0 ==> bits - bits_remaining < 64,
                (bits_remaining > 0 && bits_remaining < bits) ==> self.bit_pos == 0,
                self.default_chunk_size == old(self).default_chunk_size,
                emits_words(old(self).bytes@, self.bytes@),
            decreases bits_remaining,
        {
            let bits_to_write = if 64 - self.bit_pos < bits_remaining {
                64 - self.bit_pos
            } else {
                bits_remaining
            };
            let offset = bits - bits_remaining;
            assert(bits_to_write < 64);
            proof {
                lemma_one_shl_pos(bits_to_write as u64);
            }
            let mask: u64 = ((1u64 << bits_to_write) - 1) << offset;
            let extracted = (value & mask) >> offset;
            let ghost old_stream = self.stream();
            let ghost old_pending = self.pending();
            let ghost bp = self.bit_pos;
            let ghost old_buffer = self.buffer;
            proof {
                lemma_extract(value, offset as u64, bits_to_write as u64);
                lemma_merge(old_buffer, extracted, bp as u64, bits_to_write as u64);
            }
            self.buffer = self.buffer | (extracted << self.bit_pos);
            bits_remaining = bits_remaining - bits_to_write;
            self.bits_written = self.bits_written + bits_to_write as u64;
            self.bit_pos = self.bit_pos + bits_to_write;
            proof {
                let done = (bits - bits_remaining) as nat;
                let before = (offset) as nat;
                let chunk = low_bits(value, done).subrange(before as int, done as int);
                assert(self.pending() =~= old_pending + chunk);
                assert(low_bits(value, done) =~= low_bits(value, before) + chunk);
                assert(self.stream() =~= bytes_bits(self.bytes@) + (old_pending + chunk));
                assert(old_stream == bytes_bits(self.bytes@) + old_pending);
                assert(self.stream() =~= old_stream + chunk);
                assert(old_stream == old(self).stream() + low_bits(value, before));
                assert(self.stream() =~= old(self).stream() + low_bits(value, done));
            }
            if self.bit_pos == 64 {
                let word = self.buffer;
                let ghost before_bytes = self.bytes@;
                self.emit_word(word, 8);
                proof {
                    assert(emits_words(before_bytes, self.bytes@)) by {
                        assert(self.bytes@.subrange(0, before_bytes.len() as int) =~= before_bytes);
                    }
                    lemma_emits_words_trans(old(self).bytes@, before_bytes, self.bytes@);
                    lemma_le_bytes_bits(word);
                    lemma_bytes_bits_add(before_bytes, le_bytes(word));
                    assert(le_bytes(word).take(8) =~= le_bytes(word));
                    assert(low_bits(word, 64) =~= low_bits(word, 64));
                }
                self.buffer = 0;
                self.bit_pos = 0;
                proof {
                    lemma_shift_by_zero(0);
                    assert(self.pending() =~= Seq::<bool>::empty());
                    assert(self.stream() =~= bytes_bits(self.bytes@));
                }
            }
        }
    }
}

/// Or-ing a `k`-bit chunk in above the `bp` bits of a buffer.
proof fn lemma_merge(buffer: u64, e: u64, bp: u64, k: u64)
    requires
        bp + k <= 64,
        bp < 64,
        buffer >> bp == 0,
        e >> k == 0,
    ensures
        ({
            let nb = buffer | (e << bp);
            &&& (bp + k < 64 ==> nb >> (bp + k) as u64 == 0)
            &&& forall|j: int| 0 <= j < 64 ==> #[trigger] bit(nb, j) == if j < bp {
                bit(buffer, j)
            } else if j < bp + k {
                bit(e, j - bp)
            } else {
                false
            }
        }),
{
    let nb = buffer | (e << bp);
    assert(bp + k < 64 && bp < 64 && buffer >> bp == 0 && e >> k == 0 ==> (buffer | (e << bp)) >> (bp + k) as u64 == 0) by (bit_vector);
    assert forall|j: int| 0 <= j < 64 implies #[trigger] bit(nb, j) == if j < bp {
        bit(buffer, j)
    } else if j < bp + k {
        bit(e, j - bp)
    } else {
        false
    } by {
        let jj = j as u64;
        assert(bp + k <= 64 && bp < 64 && jj < 64 && buffer >> bp == 0 && e >> k == 0 ==>
            ((buffer | (e << bp)) >> jj) & 1 == (if jj < bp { (buffer >> jj) & 1 } else if jj < bp + k { (e >> (jj - bp) as u64) & 1 } else { 0 })) by (bit_vector);
    }
}

impl BitWriter {
    proof fn lemma_buffer_is_pending_value(&self)
        requires
            self.wf(),
        ensures
            value_of(self.pending()) == self.buffer,
            forall|j: int| self.bit_pos <= j < 64 ==> !#[trigger] bit(self.buffer, j),
    {
        let p = self.pending();
        lemma_value_of_bits(p);
        let b = self.buffer;
        let bp = self.bit_pos as u64;
        assert forall|j: int| self.bit_pos <= j < 64 implies !#[trigger] bit(b, j) by {
            let jj = j as u64;
            assert(bp <= jj < 64 && b >> bp == 0 ==> (b >> jj) & 1 == 0) by (bit_vector);
        }
        assert forall|j: int| 0 <= j < 64 implies bit(value_of(p), j) == bit(b, j) by {}
        lemma_bits_eq(value_of(p), b);
    }

    /// Emits the bytes that hold the bits waiting in the word buffer, as many
    /// as those bits fill, and empties it; the last byte is filled with zero
    /// bits. With nothing waiting it emits nothing.
    pub fn flush(&mut self)
        requires
            old(self).wf(),
        ensures
            final(self).wf(),
            final(self).output() == old(self).output() + le_bytes(value_of(old(self).pending())).take(
                flush_len(old(self).pending().len()) as int,
            ),
            final(self).pending() == Seq::<bool>::empty(),
            final(self).written() == old(self).written(),
            final(self).chunk_size() == old(self).chunk_size(),
            bytes_bits(final(self).output()) == old(self).stream() + zeros(byte_padding(old(self).stream().len())),
    {
        proof {
            self.lemma_buffer_is_pending_value();
        }
        let count = (self.bit_pos + 7) / 8;
        let word = self.buffer;
        let ghost before_bytes = self.bytes@;
        let ghost old_stream = self.stream();
        let ghost bp = self.bit_pos;
        self.emit_word(word, count as usize);
        self.buffer = 0;
        self.bit_pos = 0;
        proof {
            lemma_shift_by_zero(0);
            assert(self.pending() =~= Seq::<bool>::empty());
            let k = count as int;
            let emitted = le_bytes(word).take(k);
            lemma_bytes_bits_add(before_bytes, emitted);
            lemma_le_bytes_bits(word);
            assert(bytes_bits(emitted) =~= low_bits(word, 64).take(8 * k));
            let pad = byte_padding(old_stream.len());
            assert(old_stream.len() == 8 * before_bytes.len() + bp);
            assert(8 * k == bp + pad);
            assert(low_bits(word, 64).take(8 * k) =~= low_bits(word, bp as nat) + zeros(pad));
            assert(bytes_bits(self.bytes@) =~= old_stream + zeros(pad));
        }
    }
}

impl BitWriter {
    /// Writes a value that knows its own encoding.
    pub fn write<T: BitWritable>(&mut self, value: &T)
        requires
            old(self).wf(),
            value.writable(old(self).chunk_size()),
            old(self).written() + value.encoding(old(self).chunk_size()).len() <= u64::MAX,
        ensures
            final(self).wf(),
            final(self).stream() == old(self).stream() + value.encoding(old(self).chunk_size()),
            final(self).written() == old(self).written() + value.encoding(old(self).chunk_size()).len(),
            final(self).chunk_size() == old(self).chunk_size(),
            emits_words(old(self).output(), final(self).output()),
            final(self).pending().len() < 64,
            old(self).unflushed() ==> final(self).unflushed(),
    {
        value.write(self)
    }

    /// Writes `value` in chunks of `data_bits_per_chunk` bits, each chunk
    /// led by a continuation bit that is set when more chunks follow.
    pub fn write_bits_with_continuation_bit(&mut self, data_bits_per_chunk: u32, value: u64)
        requires
            old(self).wf(),
            data_bits_per_chunk < 64,
            data_bits_per_chunk > 0 || value == 0,
            old(self).written() + varint_bits(value, data_bits_per_chunk as u64).len() <= u64::MAX,
        ensures
            final(self).wf(),
            final(self).stream() == old(self).stream() + varint_bits(value, data_bits_per_chunk as u64),
            final(self).written() == old(self).written() + varint_bits(value, data_bits_per_chunk as u64).len(),
            final(self).chunk_size() == old(self).chunk_size(),
            emits_words(old(self).output(), final(self).output()),
            final(self).pending().len() < 64,
            old(self).unflushed() ==> final(self).unflushed(),
    {
        proof {
            lemma_emits_words_refl(old(self).output());
        }
        let c = data_bits_per_chunk;
        let ghost cc = c as u64;
        let ghost target = old(self).stream() + varint_bits(value, cc);
        let ghost target_len = old(self).written() + varint_bits(value, cc).len();
        let mut value = value;
        proof {
            lemma_one_shl_pos(c as u64);
        }
        let mask: u64 = (1u64 << c) - 1;
        assert(self.stream() + varint_bits(value, cc) == target);
        loop
            invariant_except_break
                self.wf(),
                self.stream() + varint_bits(value, cc) == target,
                self.written() + varint_bits(value, cc).len() == target_len,
                c == 0 ==> value == 0,
            invariant
                c < 64,
                cc == c as u64,
                mask == ((1u64 << c) - 1) as u64,
                target_len <= u64::MAX,
                self.default_chunk_size == old(self).default_chunk_size,
                emits_words(old(self).output(), self.output()),
            ensures
                self.wf(),
                self.stream() == target,
                self.written() == target_len,
            decreases value,
        {
            let chunk = value & mask;
            let ghost v0 = value;
            value = value >> c;
            let continuation_bit = value > 0;
            proof {
                if c == 0 {
                    lemma_shift_by_zero(v0);
                    assert(!continuation_bit);
                }
                assert(low_bits(chunk, cc as nat) =~= low_bits(v0, cc as nat)) by {
                    assert forall|j: int| 0 <= j < cc implies bit(chunk, j) == bit(v0, j) by {
                        let jj = j as u64;
                        assert(jj < cc && cc < 64 ==> ((v0 & ((1u64 << cc) - 1) as u64) >> jj) & 1 == (v0 >> jj) & 1) by (bit_vector);
                    }
                }
                assert(low_bits(if continuation_bit { 1u64 } else { 0u64 }, 1) =~= seq![continuation_bit]) by {
                    lemma_shift_by_zero(0);
                }
                if c > 0 && continuation_bit {
                    assert(varint_bits(v0, cc) == seq![true] + low_bits(v0, cc as nat) + varint_bits(value, cc));
                } else {
                    assert(varint_bits(v0, cc) == seq![continuation_bit] + low_bits(v0, cc as nat));
                }
            }
            let ghost out0 = self.output();
            self.write_bits(1, if continuation_bit { 1 } else { 0 });
            let ghost out1 = self.output();
            self.write_bits(c, chunk);
            proof {
                lemma_emits_words_trans(old(self).output(), out0, out1);
                lemma_emits_words_trans(old(self).output(), out1, self.output());
                if c > 0 && continuation_bit {
                    if v0 >> cc > 0 {
                        lemma_shr_smaller(v0, cc);
                    }
                    assert(self.stream() + varint_bits(value, cc) =~= target);
                    assert(varint_bits(v0, cc).len() == 1 + cc + varint_bits(value, cc).len());
                } else {
                    assert(self.stream() =~= target);
                }
            }
            if !continuation_bit {
                break;
            }
        }
    }
}

} // verus!
