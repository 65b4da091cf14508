//! LZ78 compression: the input is cut into phrases, each a dictionary entry
//! followed by one more byte, and every phrase becomes a pair of the entry's
//! index and that byte.
use vstd::prelude::*;
use crate::bit_traits::{BitReadable, BitWritable};
use crate::bitreader::{bits_at, lemma_varint_advances, lemma_varint_roundtrip, varint_parse, BitReader, DecodeError, Parsed, ReadError};
use crate::bitwriter::{lemma_emits_words_trans, lemma_varint_len, varint_bits, BitWriter};
use crate::bits::{bit_length, chunks_for, lemma_bit_length_shr, lemma_bit_length_zero, byte_padding, bytes_bits, lemma_value_of_low_bits, lemma_value_of_single, lemma_value_of_zeros, low_bits, mask, num_words, padded_bits, value_of, zeros};

verus! {

/// One step of an LZ78 encoding.
#[derive(Debug, Clone, Copy, PartialEq, Eq)]
pub struct Pair {
    /// The index of the longest matching prefix in the dictionary (0 for none).
    pub index: u64,
    /// The byte that ended the match; `None` only for a last phrase that was
    /// itself in the dictionary.
    pub symbol: Option<u8>,
}

/// The bits of a pair: its index in chunks of `chunk` bits with continuation
/// bits, then a flag telling whether a byte follows, then the byte.
pub open spec fn pair_bits(index: u64, symbol: Option<u8>, chunk: u32) -> Seq<bool> {
    varint_bits(index, chunk as u64) + match symbol {
        Some(s) => seq![true] + low_bits(s as u64, 8),
        None => seq![false],
    }
}

impl Pair {
    /// A pair of an index and a byte.
    pub fn new(index: u64, symbol: Option<u8>) -> (p: Self)
        ensures
            p.index == index,
            p.symbol == symbol,
    {
        Self { index, symbol }
    }
}

impl BitWritable for Pair {
    open spec fn encoding(&self, chunk: u32) -> Seq<bool> {
        pair_bits(self.index, self.symbol, chunk)
    }

    open spec fn writable(&self, chunk: u32) -> bool {
        chunk < 64 && (chunk > 0 || self.index == 0)
    }

    fn write(&self, writer: &mut BitWriter) {
        let chunk = writer.default_chunk_size();
        writer.write_bits_with_continuation_bit(chunk, self.index);
        let ghost out1 = writer.output();
        if let Some(symbol) = self.symbol {
            writer.write(&true);
            let ghost out2 = writer.output();
            proof {
                crate::bits::lemma_low_bits_of_flag(true);
                lemma_emits_words_trans(old(writer).output(), out1, out2);
            }
            writer.write_bits(8, symbol as u64);
            proof {
                lemma_emits_words_trans(old(writer).output(), out2, writer.output());
            }
        } else {
            writer.write(&false);
            proof {
                lemma_emits_words_trans(old(writer).output(), out1, writer.output());
            }
        }
        proof {
            let old_stream = old(writer).stream();
            let v = varint_bits(self.index, chunk as u64);
            match self.symbol {
                Some(s) => {
                    assert(final(writer).stream() =~= old_stream + self.encoding(chunk));
                }
                None => {
                    assert(final(writer).stream() =~= old_stream + self.encoding(chunk));
                }
            }
        }
    }
}

impl BitReadable for Pair {
    open spec fn parse(stream: Seq<bool>, pos: nat, chunk: u32) -> Parsed<Pair> {
        if chunk >= 64 {
            Parsed::Overflow
        } else {
            match varint_parse(stream, pos, chunk as nat, 0, 0) {
                Parsed::Value(index, p) => match bits_at(stream, p, 1) {
                    Ok(flag) => if flag == 1 {
                        match bits_at(stream, p + 1, 8) {
                            Ok(x) => Parsed::Value(Pair { index, symbol: Some(x as u8) }, p + 9),
                            Err(_) => Parsed::End,
                        }
                    } else {
                        Parsed::Value(Pair { index, symbol: None }, p + 1)
                    },
                    Err(_) => Parsed::End,
                },
                Parsed::End => Parsed::End,
                Parsed::Overflow => Parsed::Overflow,
            }
        }
    }

    fn read(reader: &mut BitReader) -> (r: Result<Pair, ReadError>) {
        let chunk = reader.default_chunk_size();
        let index = reader.read_bits_with_continuation_bit(chunk)?;
        let mut symbol: Option<u8> = None;
        if reader.read::<bool>()? {
            let x = reader.read_bits(8)?;
            symbol = Some(x as u8);
        }
        Ok(Pair::new(index, symbol))
    }
}

/// How many dictionary entries, the empty root included, the codec keeps
/// before it starts over with an empty dictionary.
pub const MAX_DICT_SIZE: usize = 1048576;

/// The chunk width of pair indices: the 21 bits of the largest index
/// (`MAX_DICT_SIZE` has bit 20 set), times two, over four and a half, rounded
/// down.
pub const PAIR_CHUNK_SIZE: u32 = 9;

/// The phrase of dictionary node `i`: empty for the root 0, else entry `i - 1`.
pub open spec fn entry(dict: Seq<Seq<u8>>, i: nat) -> Seq<u8> {
    if i == 0 {
        Seq::<u8>::empty()
    } else {
        dict[i - 1]
    }
}

/// The node of a phrase that the dictionary holds.
pub open spec fn node_of(dict: Seq<Seq<u8>>, w: Seq<u8>) -> nat {
    ((choose|i: int| 0 <= i < dict.len() && dict[i] == w) + 1) as nat
}

/// The dictionary after a new phrase: emptied once it is full.
pub open spec fn grow(dict: Seq<Seq<u8>>, w: Seq<u8>) -> Seq<Seq<u8>> {
    if dict.len() + 1 >= MAX_DICT_SIZE - 1 {
        Seq::<Seq<u8>>::empty()
    } else {
        dict.push(w)
    }
}

/// The pairs the encoder emits for `rest`, with dictionary `dict` and the
/// bytes matched so far being the phrase of node `node`: the match grows
/// while the dictionary holds it; a byte that ends it makes a pair and a new
/// entry; a match left at the end makes a pair without a byte.
pub open spec fn lz78_pairs_from(dict: Seq<Seq<u8>>, node: nat, rest: Seq<u8>) -> Seq<Pair>
    decreases rest.len(),
{
    if rest.len() == 0 {
        if node == 0 {
            Seq::<Pair>::empty()
        } else {
            seq![Pair { index: node as u64, symbol: None }]
        }
    } else {
        let w = entry(dict, node).push(rest[0]);
        if dict.contains(w) {
            lz78_pairs_from(dict, node_of(dict, w), rest.drop_first())
        } else {
            seq![Pair { index: node as u64, symbol: Some(rest[0]) }] + lz78_pairs_from(
                grow(dict, w),
                0,
                rest.drop_first(),
            )
        }
    }
}

/// The pairs LZ78 makes of `input`.
pub open spec fn lz78_pairs(input: Seq<u8>) -> Seq<Pair> {
    lz78_pairs_from(Seq::<Seq<u8>>::empty(), 0, input)
}

/// The bits of a sequence of pairs, one after the other.
pub open spec fn pairs_bits(pairs: Seq<Pair>, chunk: u32) -> Seq<bool>
    decreases pairs.len(),
{
    if pairs.len() == 0 {
        Seq::<bool>::empty()
    } else {
        pair_bits(pairs[0].index, pairs[0].symbol, chunk) + pairs_bits(pairs.drop_first(), chunk)
    }
}

/// The bit stream of an LZ78 encoding: nothing for no input, else the chunk
/// width in six bits, then the pairs.
pub open spec fn lz78_bits(input: Seq<u8>) -> Seq<bool> {
    if input.len() == 0 {
        Seq::<bool>::empty()
    } else {
        low_bits(PAIR_CHUNK_SIZE as u64, 6) + pairs_bits(lz78_pairs(input), PAIR_CHUNK_SIZE)
    }
}

/// Every entry is a nonempty phrase whose prefix without its last byte is the
/// root's or another entry's, and no phrase is there twice.
pub open spec fn dict_ok(dict: Seq<Seq<u8>>) -> bool {
    &&& dict.len() + 1 < MAX_DICT_SIZE
    &&& forall|i: int| 0 <= i < dict.len() ==> #[trigger] dict[i].len() > 0
    &&& forall|i: int| 0 <= i < dict.len() ==> #[trigger] dict[i].len() == 1 || dict.contains(dict[i].drop_last())
    &&& forall|i: int, k: int| 0 <= i < dict.len() && 0 <= k < dict.len() && i != k ==> dict[i] != dict[k]
}

/// The trie of child links stands for the dictionary: the link of node `j`
/// for byte `b` is zero when the dictionary lacks the phrase of `j` followed
/// by `b`, and else the node of that phrase.
pub open spec fn trie_ok(children: Seq<u32>, dict: Seq<Seq<u8>>) -> bool {
    &&& children.len() == 256 * (dict.len() + 1)
    &&& forall|j: int, b: int| 0 <= j <= dict.len() && 0 <= b < 256 ==> {
        let c = #[trigger] children[256 * j + b];
        &&& (c == 0 <==> !dict.contains(entry(dict, j as nat).push(b as u8)))
        &&& (c != 0 ==> c <= dict.len() && entry(dict, c as nat) == entry(dict, j as nat).push(b as u8))
    }
}

proof fn lemma_entry_injective(dict: Seq<Seq<u8>>, j: nat, k: nat)
    requires
        dict_ok(dict),
        j <= dict.len(),
        k <= dict.len(),
        entry(dict, j) == entry(dict, k),
    ensures
        j == k,
{
    if j != 0 && k != 0 {
        assert(dict[j - 1] == dict[k - 1]);
    } else if j != 0 {
        assert(dict[j - 1].len() > 0);
    } else if k != 0 {
        assert(dict[k - 1].len() > 0);
    }
}

proof fn lemma_pairs_bits_cons(p: Pair, rest: Seq<Pair>, chunk: u32)
    ensures
        pairs_bits(seq![p] + rest, chunk) == pair_bits(p.index, p.symbol, chunk) + pairs_bits(rest, chunk),
{
    assert((seq![p] + rest).drop_first() =~= rest);
    assert((seq![p] + rest)[0] == p);
}

/// Adding the phrase of node `curr` followed by `b`, which the dictionary
/// lacks, keeps its entries nonempty, closed under dropping the last byte,
/// and distinct.
proof fn lemma_dict_add(dict: Seq<Seq<u8>>, curr: nat, b: u8)
    requires
        dict_ok(dict),
        curr <= dict.len(),
        !dict.contains(entry(dict, curr).push(b)),
    ensures
        ({
            let nd = dict.push(entry(dict, curr).push(b));
            &&& forall|i: int| 0 <= i < nd.len() ==> #[trigger] nd[i].len() > 0
            &&& forall|i: int| 0 <= i < nd.len() ==> #[trigger] nd[i].len() == 1 || nd.contains(nd[i].drop_last())
            &&& forall|i: int, k: int| 0 <= i < nd.len() && 0 <= k < nd.len() && i != k ==> nd[i] != nd[k]
        }),
        dict_ok(grow(dict, entry(dict, curr).push(b))),
{
    let w = entry(dict, curr).push(b);
    let nd = dict.push(w);
    let n = dict.len();
    assert forall|i: int| 0 <= i < nd.len() implies #[trigger] nd[i].len() == 1 || nd.contains(nd[i].drop_last()) by {
        if i < n {
            if nd[i].len() != 1 {
                let y = dict[i].drop_last();
                assert(dict.contains(y));
                let k = choose|k: int| 0 <= k < dict.len() && dict[k] == y;
                assert(nd[k] == y);
            }
        } else {
            assert(nd[i] == w);
            assert(w.drop_last() =~= entry(dict, curr));
            if curr != 0 {
                assert(nd[curr - 1] == entry(dict, curr));
            }
        }
    }
    assert forall|i: int, k: int| 0 <= i < nd.len() && 0 <= k < nd.len() && i != k implies nd[i] != nd[k] by {
        if i == n {
            assert(dict[k] != w);
        } else if k == n {
            assert(dict[i] != w);
        }
    }
}

/// Adding the phrase of node `curr` followed by `b` as a new node keeps the
/// trie and the dictionary in step.
proof fn lemma_trie_add(children: Seq<u32>, dict: Seq<Seq<u8>>, curr: nat, b: u8)
    requires
        trie_ok(children, dict),
        dict_ok(dict),
        curr <= dict.len(),
        !dict.contains(entry(dict, curr).push(b)),
    ensures
        ({
            let w = entry(dict, curr).push(b);
            let nd = dict.push(w);
            let nc = children.update(256 * curr + b, (dict.len() + 1) as u32) + Seq::new(256, |k: int| 0u32);
            &&& trie_ok(nc, nd)
            &&& forall|i: int| 0 <= i < nd.len() ==> #[trigger] nd[i].len() > 0
            &&& forall|i: int| 0 <= i < nd.len() ==> #[trigger] nd[i].len() == 1 || nd.contains(nd[i].drop_last())
            &&& forall|i: int, k: int| 0 <= i < nd.len() && 0 <= k < nd.len() && i != k ==> nd[i] != nd[k]
        }),
{
    let w = entry(dict, curr).push(b);
    let nd = dict.push(w);
    let n = dict.len();
    let nc = children.update(256 * curr + b, (n + 1) as u32) + Seq::new(256, |k: int| 0u32);
    assert forall|j: int| 0 <= j <= n implies #[trigger] entry(nd, j as nat) == entry(dict, j as nat) by {}
    assert(entry(nd, (n + 1) as nat) == w);
    assert forall|j: int, bb: int| 0 <= j <= nd.len() && 0 <= bb < 256 implies {
        let c = #[trigger] nc[256 * j + bb];
        &&& (c == 0 <==> !nd.contains(entry(nd, j as nat).push(bb as u8)))
        &&& (c != 0 ==> c <= nd.len() && entry(nd, c as nat) == entry(nd, j as nat).push(bb as u8))
    } by {
        let c = nc[256 * j + bb];
        if j == n + 1 {
            assert(c == 0);
            let x = w.push(bb as u8);
            if nd.contains(x) {
                let k = choose|k: int| 0 <= k < nd.len() && nd[k] == x;
                if k < n {
                    assert(dict[k] == x);
                    assert(x.drop_last() =~= w);
                    assert(dict.contains(w));
                } else {
                    assert(nd[k].len() == w.len());
                }
            }
        } else if j == curr && bb == b {
            assert(c == n + 1);
            assert(nd[n as int] == w);
        } else {
            let old_c = children[256 * j + bb];
            assert(c == old_c);
            let x = entry(dict, j as nat).push(bb as u8);
            assert(entry(nd, j as nat).push(bb as u8) == x);
            if x == w {
                assert(x.drop_last() =~= entry(dict, j as nat));
                assert(w.drop_last() =~= entry(dict, curr));
                lemma_entry_injective(dict, j as nat, curr);
                assert(x[x.len() - 1] == bb as u8);
                assert(false);
            }
            if old_c == 0 {
                if nd.contains(x) {
                    let k = choose|k: int| 0 <= k < nd.len() && nd[k] == x;
                    if k < n {
                        assert(dict.contains(x));
                    }
                }
            } else {
                let kk = (old_c - 1) as int;
                assert(nd[kk] == dict[kk]);
                assert(nd.contains(x));
            }
        }
    }
    lemma_dict_add(dict, curr, b);
}

/// Encodes `input` with LZ78 and returns the bytes.
///
/// The bytes hold the bits of `lz78_bits(input)` in order, least significant
/// bit of each byte first, and zero bits to fill the last byte; no input
/// gives no bytes.
pub fn encode(input: &[u8]) -> (r: Vec<u8>)
    requires
        lz78_bits(input@).len() <= u64::MAX,
    ensures
        bytes_bits(r@) == lz78_bits(input@) + zeros(byte_padding(lz78_bits(input@).len())),
{
    let mut writer = BitWriter::new(Some(PAIR_CHUNK_SIZE));
    let ghost total = lz78_bits(input@);
    if input.len() == 0 {
        writer.flush();
        proof {
            assert(bytes_bits(writer.output()) =~= total + zeros(0));
        }
        return writer.into_bytes();
    }
    writer.write_bits(6, PAIR_CHUNK_SIZE as u64);
    let mut children: Vec<u32> = Vec::new();
    children.resize(256, 0);
    let mut node_count: usize = 1;
    let mut curr: usize = 0;
    let ghost mut dict: Seq<Seq<u8>> = Seq::empty();
    proof {
        assert(input@.subrange(0, input@.len() as int) =~= input@);
        assert(writer.stream() =~= low_bits(PAIR_CHUNK_SIZE as u64, 6));
        assert forall|j: int, b: int| 0 <= j <= dict.len() && 0 <= b < 256 implies {
            let c = #[trigger] children@[256 * j + b];
            &&& (c == 0 <==> !dict.contains(entry(dict, j as nat).push(b as u8)))
            &&& (c != 0 ==> c <= dict.len() && entry(dict, c as nat) == entry(dict, j as nat).push(b as u8))
        } by {
            assert(children@[256 * j + b] == 0);
        }
    }
    let mut i: usize = 0;
    while i < input.len()
        invariant
            writer.wf(),
            writer.written() == writer.stream().len(),
            writer.chunk_size() == PAIR_CHUNK_SIZE,
            trie_ok(children@, dict),
            dict_ok(dict),
            node_count == dict.len() + 1,
            curr <= dict.len(),
            i <= input.len(),
            total == lz78_bits(input@),
            total.len() <= u64::MAX,
            writer.stream() + pairs_bits(
                lz78_pairs_from(dict, curr as nat, input@.subrange(i as int, input@.len() as int)),
                PAIR_CHUNK_SIZE,
            ) == total,
        decreases input.len() - i,
    {
        let b = input[i];
        let ghost rest = input@.subrange(i as int, input@.len() as int);
        let ghost w = entry(dict, curr as nat).push(b);
        assert(rest[0] == b);
        assert(rest.drop_first() =~= input@.subrange(i + 1, input@.len() as int));
        let child = children[256 * curr + b as usize];
        if child != 0 {
            proof {
                assert(dict.contains(w));
                let k = choose|k: int| 0 <= k < dict.len() && dict[k] == w;
                assert(dict[child - 1] == w);
                assert(k == child - 1);
            }
            curr = child as usize;
        } else {
            let ghost old_children = children@;
            let ghost old_stream = writer.stream();
            let ghost grown = grow(dict, w);
            let next = node_count;
            children.set(256 * curr + b as usize, next as u32);
            let len = children.len();
            children.resize(len + 256, 0);
            node_count = node_count + 1;
            let pair = Pair { index: curr as u64, symbol: Some(b) };
            proof {
                lemma_trie_add(old_children, dict, curr as nat, b);
                assert(children@ =~= old_children.update(256 * curr + b, (dict.len() + 1) as u32) + Seq::new(256, |k: int| 0u32));
                lemma_pairs_bits_cons(pair, lz78_pairs_from(grow(dict, w), 0, rest.drop_first()), PAIR_CHUNK_SIZE);
                assert(lz78_pairs_from(dict, curr as nat, rest) == seq![pair] + lz78_pairs_from(grow(dict, w), 0, rest.drop_first()));
                assert(old_stream + pair_bits(pair.index, pair.symbol, PAIR_CHUNK_SIZE) + pairs_bits(lz78_pairs_from(grow(dict, w), 0, rest.drop_first()), PAIR_CHUNK_SIZE) =~= total);
            }
            writer.write(&pair);
            curr = 0;
            proof {
                dict = dict.push(w);
            }
            if node_count >= MAX_DICT_SIZE {
                children.truncate(0);
                children.resize(256, 0);
                node_count = 1;
                proof {
                    dict = Seq::empty();
                    assert forall|j: int, bb: int| 0 <= j <= dict.len() && 0 <= bb < 256 implies {
                        let c = #[trigger] children@[256 * j + bb];
                        &&& (c == 0 <==> !dict.contains(entry(dict, j as nat).push(bb as u8)))
                        &&& (c != 0 ==> c <= dict.len() && entry(dict, c as nat) == entry(dict, j as nat).push(bb as u8))
                    } by {
                        assert(children@[256 * j + bb] == 0);
                    }
                }
            }
            proof {
                assert(dict =~= grown);
            }
        }
        i = i + 1;
    }
    if curr != 0 {
        let pair = Pair { index: curr as u64, symbol: None };
        proof {
            lemma_pairs_bits_cons(pair, Seq::<Pair>::empty(), PAIR_CHUNK_SIZE);
        }
        writer.write(&pair);
    }
    writer.flush();
    writer.into_bytes()
}

/// A pair parsed from a stream ends after where it starts.
pub proof fn lemma_pair_parse_advances(s: Seq<bool>, pos: nat, chunk: u32)
    ensures
        <Pair as BitReadable>::parse(s, pos, chunk) matches Parsed::Value(_, q) ==> pos < q <= s.len(),
{
    lemma_varint_advances(s, pos, chunk as nat, 0, 0);
}

/// The bytes a pair stands for: the entry it refers to, then its byte.
pub open spec fn phrase_of(dict: Seq<Seq<u8>>, pair: Pair) -> Seq<u8> {
    entry(dict, pair.index as nat) + match pair.symbol {
        Some(x) => seq![x],
        None => Seq::<u8>::empty(),
    }
}

/// Decoding the pairs from `pos` on, with dictionary `dict` and the bytes
/// `out` decoded so far: pairs are read until the stream ends, each adding
/// its phrase to the output and the dictionary.
pub open spec fn lz78_decode_from(s: Seq<bool>, pos: nat, chunk: u32, dict: Seq<Seq<u8>>, out: Seq<u8>) -> Result<
    Seq<u8>,
    DecodeError,
>
    decreases s.len() - pos,
{
    match <Pair as BitReadable>::parse(s, pos, chunk) {
        Parsed::Overflow => Err(DecodeError::CorruptInput),
        Parsed::End => Ok(out),
        Parsed::Value(pair, p) => {
            if pair.index > dict.len() {
                Err(DecodeError::CorruptInput)
            } else {
                proof {
                    lemma_pair_parse_advances(s, pos, chunk);
                }
                let phrase = phrase_of(dict, pair);
                lz78_decode_from(s, p, chunk, grow(dict, phrase), out + phrase)
            }
        }
    }
}

/// What decoding the bytes `input` gives: the chunk width from the first six
/// bits, then the pairs after them.
pub open spec fn lz78_decode(input: Seq<u8>) -> Result<Seq<u8>, DecodeError> {
    let s = padded_bits(input);
    lz78_decode_from(s, 6, value_of(s.subrange(0, 6)) as u32, Seq::<Seq<u8>>::empty(), Seq::<u8>::empty())
}

/// Decodes an LZ78 encoding.
///
/// Fails with `CorruptInput` where the input refers to a dictionary entry
/// not yet made, or holds an index whose chunks run past 64 bits.
pub fn decode(input: Vec<u8>) -> (r: Result<Vec<u8>, DecodeError>)
    requires
        8 * input@.len() + 64 <= u64::MAX,
    ensures
        match r {
            Ok(v) => lz78_decode(input@) == Ok::<Seq<u8>, DecodeError>(v@),
            Err(e) => lz78_decode(input@) == Err::<Seq<u8>, DecodeError>(e),
        },
{
    let ghost inp = input@;
    let mut reader = BitReader::new(input, None);
    let ghost s = reader.stream();
    proof {
        reader.lemma_stream_len();
    }
    match reader.read_bits(6) {
        Ok(chunk_size) => {
            proof {
                crate::bits::lemma_value_of_bits(s.subrange(0, 6));
                crate::bits::lemma_high_zero(chunk_size, 6);
                assert(chunk_size >> 6u64 == 0 ==> chunk_size < 64) by (bit_vector);
            }
            reader.set_default_chunk_size(chunk_size as u32);
        },
        Err(_) => {
            return Ok(Vec::new());
        },
    }
    let chunk = reader.default_chunk_size();
    let mut output: Vec<u8> = Vec::new();
    let mut dictionary: Vec<Vec<u8>> = Vec::new();
    assert(dictionary.deep_view() =~= Seq::<Seq<u8>>::empty());
    assert(output@ =~= Seq::<u8>::empty());
    loop
        invariant
            reader.wf(),
            reader.stream() == s,
            inp == input@,
            s == padded_bits(inp),
            reader.chunk_size() == chunk,
            chunk < 64,
            lz78_decode(inp) == lz78_decode_from(s, reader.pos(), chunk, dictionary.deep_view(), output@),
            dictionary.len() < MAX_DICT_SIZE,
        ensures
            lz78_decode(inp) == Ok::<Seq<u8>, DecodeError>(output@),
        decreases s.len() - reader.pos(),
    {
        if reader.continuation_read_overflows(chunk) {
            return Err(DecodeError::CorruptInput);
        }
        let ghost pos0 = reader.pos();
        let ghost dict = dictionary.deep_view();
        let pair = match reader.read::<Pair>() {
            Ok(p) => p,
            Err(_) => {
                break;
            },
        };
        proof {
            lemma_pair_parse_advances(s, pos0, chunk);
        }
        if pair.index > dictionary.len() as u64 {
            return Err(DecodeError::CorruptInput);
        }
        let mut buffer: Vec<u8> = Vec::new();
        if pair.index > 0 {
            let k = (pair.index - 1) as usize;
            let src = &dictionary[k];
            let mut j: usize = 0;
            while j < src.len()
                invariant
                    j <= src.len(),
                    buffer@ == src@.take(j as int),
                decreases src.len() - j,
            {
                buffer.push(src[j]);
                assert(src@.take(j + 1) =~= src@.take(j as int).push(src@[j as int]));
                j = j + 1;
            }
            proof {
                assert(src@.take(src@.len() as int) =~= src@);
                assert(dict[k as int] =~= src@);
            }
        }
        if let Some(symbol) = pair.symbol {
            buffer.push(symbol);
        }
        proof {
            assert(buffer@ =~= phrase_of(dict, pair));
        }
        let ghost old_out = output@;
        let mut j: usize = 0;
        while j < buffer.len()
            invariant
                j <= buffer.len(),
                output@ == old_out + buffer@.take(j as int),
            decreases buffer.len() - j,
        {
            output.push(buffer[j]);
            assert(buffer@.take(j + 1) =~= buffer@.take(j as int).push(buffer@[j as int]));
            j = j + 1;
        }
        proof {
            assert(buffer@.take(buffer@.len() as int) =~= buffer@);
        }
        let ghost phrase = buffer@;
        assert(buffer.deep_view() =~= phrase);
        let ghost before = dictionary.deep_view();
        dictionary.push(buffer);
        proof {
            assert(before =~= dict);
            assert(dictionary.deep_view() =~= dict.push(phrase));
        }
        if dictionary.len() >= MAX_DICT_SIZE - 1 {
            dictionary.clear();
            proof {
                assert(dictionary.deep_view() =~= Seq::<Seq<u8>>::empty());
            }
        }
        proof {
            assert(dictionary.deep_view() =~= grow(dict, phrase));
        }
    }
    Ok(output)
}

/// Reading back a pair gives the pair, and leaves the reader right after
/// its bits.
pub proof fn lemma_pair_roundtrip(s: Seq<bool>, pos: nat, index: u64, symbol: Option<u8>, chunk: u32)
    requires
        0 < chunk < 64,
        pos + pair_bits(index, symbol, chunk).len() <= s.len(),
        s.subrange(pos as int, (pos + pair_bits(index, symbol, chunk).len()) as int) == pair_bits(index, symbol, chunk),
    ensures
        <Pair as BitReadable>::parse(s, pos, chunk) == Parsed::Value(
            Pair { index, symbol },
            pos + pair_bits(index, symbol, chunk).len(),
        ),
{
    let bits = pair_bits(index, symbol, chunk);
    let v = varint_bits(index, chunk as u64);
    let q = pos + v.len();
    assert(s.subrange(pos as int, q as int) =~= v) by {
        assert(bits.subrange(0, v.len() as int) =~= v);
    }
    lemma_varint_roundtrip(s, pos, index, chunk as nat);
    match symbol {
        Some(x) => {
            assert(s.subrange(q as int, (q + 1) as int) =~= seq![true]) by {
                assert(bits.subrange(v.len() as int, (v.len() + 1) as int) =~= seq![true]);
            }
            lemma_value_of_single(true);
            assert(s.subrange((q + 1) as int, (q + 9) as int) =~= low_bits(x as u64, 8)) by {
                assert(bits.subrange((v.len() + 1) as int, (v.len() + 9) as int) =~= low_bits(x as u64, 8));
            }
            lemma_value_of_low_bits(x as u64, 8);
            let xx = x as u64;
            assert(((xx & mask(8)) as u8) == x) by {
                assert(xx < 256 ==> ((xx & ((1u64 << 8u64) - 1) as u64) as u8) == xx as u8) by (bit_vector);
            }
        },
        None => {
            assert(s.subrange(q as int, (q + 1) as int) =~= seq![false]) by {
                assert(bits.subrange(v.len() as int, (v.len() + 1) as int) =~= seq![false]);
            }
            lemma_value_of_single(false);
        },
    }
}

/// Zero bits at the end decode to nothing: they parse as pairs of index
/// zero without a byte, until too few are left for a pair.
proof fn lemma_decode_zeros(s: Seq<bool>, pos: nat, chunk: u32, dict: Seq<Seq<u8>>, out: Seq<u8>)
    requires
        chunk < 64,
        pos <= s.len(),
        forall|i: int| pos <= i < s.len() ==> !#[trigger] s[i],
    ensures
        lz78_decode_from(s, pos, chunk, dict, out) == Ok::<Seq<u8>, DecodeError>(out),
    decreases s.len() - pos,
{
    let c = chunk as nat;
    if pos + 1 + c <= s.len() {
        assert(s.subrange(pos + 1 as int, (pos + 1 + c) as int) =~= zeros(c));
        lemma_value_of_zeros(c);
        assert(0 * c == 0);
        assert((0u64 | (0u64 << 0u64)) == 0) by (bit_vector);
        let q = pos + 1 + c;
        assert(varint_parse(s, pos, c, 0, 0) == Parsed::<u64>::Value(0, q));
        if q + 1 <= s.len() {
            assert(s.subrange(q as int, (q + 1) as int) =~= seq![false]);
            lemma_value_of_single(false);
            let pair = Pair { index: 0, symbol: None };
            assert(<Pair as BitReadable>::parse(s, pos, chunk) == Parsed::Value(pair, q + 1));
            assert(phrase_of(dict, pair) =~= Seq::<u8>::empty());
            assert(out + phrase_of(dict, pair) =~= out);
            lemma_decode_zeros(s, q + 1, chunk, grow(dict, phrase_of(dict, pair)), out);
        }
    }
}

/// Decoding the bits of the pairs the encoder makes from a state gives the
/// bytes matched in that state followed by the rest of the input.
#[verifier::spinoff_prover]
proof fn lemma_decode_pairs(s: Seq<bool>, pos: nat, dict: Seq<Seq<u8>>, node: nat, rest: Seq<u8>, out: Seq<u8>)
    requires
        dict_ok(dict),
        node <= dict.len(),
        pos <= s.len(),
        s.subrange(pos as int, s.len() as int) == pairs_bits(lz78_pairs_from(dict, node, rest), PAIR_CHUNK_SIZE) + zeros(
            (s.len() - pos - pairs_bits(lz78_pairs_from(dict, node, rest), PAIR_CHUNK_SIZE).len()) as nat,
        ),
    ensures
        lz78_decode_from(s, pos, PAIR_CHUNK_SIZE, dict, out) == Ok::<Seq<u8>, DecodeError>(out + entry(dict, node) + rest),
    decreases rest.len(),
{
    let pairs = lz78_pairs_from(dict, node, rest);
    let pb = pairs_bits(pairs, PAIR_CHUNK_SIZE);
    if rest.len() == 0 {
        if node == 0 {
            assert forall|i: int| pos <= i < s.len() implies !#[trigger] s[i] by {
                assert(s.subrange(pos as int, s.len() as int)[i - pos] == s[i]);
            }
            lemma_decode_zeros(s, pos, PAIR_CHUNK_SIZE, dict, out);
            assert(out + entry(dict, node) + rest =~= out);
        } else {
            let pair = Pair { index: node as u64, symbol: None };
            lemma_pairs_bits_cons(pair, Seq::<Pair>::empty(), PAIR_CHUNK_SIZE);
            assert(pairs =~= seq![pair] + Seq::<Pair>::empty());
            let l = pair_bits(pair.index, pair.symbol, PAIR_CHUNK_SIZE).len();
            assert(s.subrange(pos as int, (pos + l) as int) =~= pair_bits(pair.index, pair.symbol, PAIR_CHUNK_SIZE)) by {
                assert(s.subrange(pos as int, (pos + l) as int) =~= s.subrange(pos as int, s.len() as int).subrange(0, l as int));
            }
            lemma_pair_roundtrip(s, pos, pair.index, pair.symbol, PAIR_CHUNK_SIZE);
            assert forall|i: int| pos + l <= i < s.len() implies !#[trigger] s[i] by {
                assert(s.subrange(pos as int, s.len() as int)[i - pos] == s[i]);
            }
            lemma_decode_zeros(s, pos + l, PAIR_CHUNK_SIZE, grow(dict, phrase_of(dict, pair)), out + phrase_of(dict, pair));
            assert(phrase_of(dict, pair) =~= entry(dict, node));
            assert(out + entry(dict, node) + rest =~= out + phrase_of(dict, pair));
        }
    } else {
        let b = rest[0];
        let w = entry(dict, node).push(b);
        if dict.contains(w) {
            let n2 = node_of(dict, w);
            let k = choose|i: int| 0 <= i < dict.len() && dict[i] == w;
            assert(entry(dict, n2) == w);
            lemma_decode_pairs(s, pos, dict, n2, rest.drop_first(), out);
            assert(out + entry(dict, n2) + rest.drop_first() =~= out + entry(dict, node) + rest);
        } else {
            let pair = Pair { index: node as u64, symbol: Some(b) };
            let tail = lz78_pairs_from(grow(dict, w), 0, rest.drop_first());
            lemma_pairs_bits_cons(pair, tail, PAIR_CHUNK_SIZE);
            let pbits = pair_bits(pair.index, pair.symbol, PAIR_CHUNK_SIZE);
            let l = pbits.len();
            let tb = pairs_bits(tail, PAIR_CHUNK_SIZE);
            assert(pairs == seq![pair] + tail);
            assert(pb == pbits + tb);
            let sub = s.subrange(pos as int, s.len() as int);
            assert(sub.len() == pb.len() + (s.len() - pos - pb.len()));
            assert(pos + l <= s.len());
            assert(s.subrange(pos as int, (pos + l) as int) =~= pbits) by {
                assert(s.subrange(pos as int, (pos + l) as int) =~= sub.subrange(0, l as int));
            }
            lemma_pair_roundtrip(s, pos, pair.index, pair.symbol, PAIR_CHUNK_SIZE);
            lemma_dict_add(dict, node, b);
            assert(phrase_of(dict, pair) =~= w);
            assert(s.subrange((pos + l) as int, s.len() as int) =~= tb + zeros((s.len() - (pos + l) - tb.len()) as nat)) by {
                assert(s.subrange((pos + l) as int, s.len() as int) =~= sub.subrange(l as int, sub.len() as int));
            }
            lemma_decode_pairs(s, pos + l, grow(dict, w), 0, rest.drop_first(), out + w);
            assert(out + w + entry(grow(dict, w), 0) + rest.drop_first() =~= out + entry(dict, node) + rest);
        }
    }
}

/// Decoding what `encode` gives back gives back the input.
pub proof fn lemma_lz78_roundtrip(input: Seq<u8>, encoded: Seq<u8>)
    requires
        bytes_bits(encoded) == lz78_bits(input) + zeros(byte_padding(lz78_bits(input).len())),
    ensures
        lz78_decode(encoded) == Ok::<Seq<u8>, DecodeError>(input),
{
    let s = padded_bits(encoded);
    let bits = lz78_bits(input);
    let extra = (64 * num_words(encoded.len()) - 8 * encoded.len()) as nat;
    let z = byte_padding(bits.len()) + extra;
    assert(s =~= bits + zeros(z));
    if input.len() == 0 {
        assert(s.subrange(0, 6) =~= zeros(6));
        lemma_value_of_zeros(6);
        assert forall|i: int| 6 <= i < s.len() implies !#[trigger] s[i] by {}
        lemma_decode_zeros(s, 6, 0, Seq::<Seq<u8>>::empty(), Seq::<u8>::empty());
        assert(Seq::<u8>::empty() =~= input);
    } else {
        assert(s.subrange(0, 6) =~= low_bits(PAIR_CHUNK_SIZE as u64, 6));
        lemma_value_of_low_bits(PAIR_CHUNK_SIZE as u64, 6);
        assert((9u64 & ((1u64 << 6u64) - 1) as u64) == 9) by (bit_vector);
        let pb = pairs_bits(lz78_pairs(input), PAIR_CHUNK_SIZE);
        assert(s.subrange(6, s.len() as int) =~= pb + zeros((s.len() - 6 - pb.len()) as nat));
        assert forall|i: int, k: int| 0 <= i < 0 && 0 <= k < 0 && i != k implies Seq::<Seq<u8>>::empty()[i] != Seq::<Seq<u8>>::empty()[k] by {}
        lemma_decode_pairs(s, 6, Seq::<Seq<u8>>::empty(), 0, input, Seq::<u8>::empty());
        assert(Seq::<u8>::empty() + entry(Seq::<Seq<u8>>::empty(), 0) + input =~= input);
    }
}

/// A pair whose index is below two to the 20, as every index of a
/// dictionary of `MAX_DICT_SIZE` entries is, takes at most 39 bits.
pub proof fn lemma_pair_bits_len(index: u64, symbol: Option<u8>)
    requires
        index < 0x10_0000,
    ensures
        pair_bits(index, symbol, PAIR_CHUNK_SIZE).len() <= 39,
{
    lemma_varint_len(index, 9);
    lemma_bit_length_shr(index, 20);
    assert(index < 0x10_0000 ==> index >> 20u64 == 0) by (bit_vector);
    lemma_bit_length_zero(index >> 20u64);
    let bl = bit_length(index);
    assert(bl <= 20);
    assert(chunks_for(bl, 9) <= 3);
}

proof fn lemma_pairs_from_len(dict: Seq<Seq<u8>>, node: nat, rest: Seq<u8>)
    requires
        dict.len() + 1 < MAX_DICT_SIZE,
        node <= dict.len(),
    ensures
        pairs_bits(lz78_pairs_from(dict, node, rest), PAIR_CHUNK_SIZE).len() <= 39 * (rest.len() + 1),
    decreases rest.len(),
{
    if rest.len() == 0 {
        if node != 0 {
            let p = Pair { index: node as u64, symbol: None };
            lemma_pairs_bits_cons(p, Seq::empty(), PAIR_CHUNK_SIZE);
            assert(seq![p] + Seq::<Pair>::empty() =~= seq![p]);
            lemma_pair_bits_len(node as u64, None);
        }
    } else {
        let w = entry(dict, node).push(rest[0]);
        if dict.contains(w) {
            let k = choose|i: int| 0 <= i < dict.len() && dict[i] == w;
            lemma_pairs_from_len(dict, node_of(dict, w), rest.drop_first());
        } else {
            let p = Pair { index: node as u64, symbol: Some(rest[0]) };
            lemma_pairs_from_len(grow(dict, w), 0, rest.drop_first());
            lemma_pairs_bits_cons(p, lz78_pairs_from(grow(dict, w), 0, rest.drop_first()), PAIR_CHUNK_SIZE);
            lemma_pair_bits_len(node as u64, Some(rest[0]));
        }
    }
}

/// The encoding of `input` takes at most 39 bits for each byte, and 45 more:
/// so every input of fewer than 2^58 bytes meets the bound of `encode`.
pub proof fn lemma_lz78_bits_len(input: Seq<u8>)
    ensures
        lz78_bits(input).len() <= 6 + 39 * (input.len() + 1),
{
    if input.len() > 0 {
        lemma_pairs_from_len(Seq::<Seq<u8>>::empty(), 0, input);
    }
}

/// A pair written to a stream and flushed to bytes reads back as that pair
/// from a reader over the bytes, which then stands right after it.
pub proof fn lemma_pair_bytes_roundtrip(
    bytes: Seq<u8>,
    before: Seq<bool>,
    index: u64,
    symbol: Option<u8>,
    chunk: u32,
    after: Seq<bool>,
)
    requires
        0 < chunk < 64,
        bytes_bits(bytes) == before + pair_bits(index, symbol, chunk) + after,
    ensures
        <Pair as BitReadable>::parse(padded_bits(bytes), before.len(), chunk) == Parsed::Value(
            Pair { index, symbol },
            before.len() + pair_bits(index, symbol, chunk).len(),
        ),
{
    let s = padded_bits(bytes);
    let bits = pair_bits(index, symbol, chunk);
    assert(s.subrange(before.len() as int, (before.len() + bits.len()) as int) =~= bits);
    lemma_pair_roundtrip(s, before.len(), index, symbol, chunk);
}

/// Plain LZ78 reading of pairs, with a dictionary that never starts over:
/// each pair stands for the phrase of the earlier pair its index names (none
/// for index 0) followed by its byte, and that phrase joins the dictionary.
pub open spec fn lz78_expand(phrases: Seq<Seq<u8>>, pairs: Seq<Pair>) -> Seq<u8>
    decreases pairs.len(),
{
    if pairs.len() == 0 {
        Seq::empty()
    } else {
        let p = pairs[0];
        let base = if p.index == 0 { Seq::<u8>::empty() } else { phrases[p.index - 1] };
        let phrase = match p.symbol {
            Some(x) => base.push(x),
            None => base,
        };
        phrase + lz78_expand(phrases.push(phrase), pairs.drop_first())
    }
}

/// A dictionary with room left takes a new phrase at its end: it starts over
/// only once it holds 2^20 - 2 phrases.
pub proof fn lemma_dictionary_grows(dict: Seq<Seq<u8>>, w: Seq<u8>)
    ensures
        dict.len() < 1048574 ==> grow(dict, w) == dict.push(w),
        dict.len() >= 1048574 ==> grow(dict, w).len() == 0,
{
}

proof fn lemma_expand_from(dict: Seq<Seq<u8>>, node: nat, rest: Seq<u8>)
    requires
        node <= dict.len(),
        dict.len() + lz78_pairs_from(dict, node, rest).len() < 1048575,
    ensures
        lz78_expand(dict, lz78_pairs_from(dict, node, rest)) == entry(dict, node) + rest,
    decreases rest.len(),
{
    let pairs = lz78_pairs_from(dict, node, rest);
    if rest.len() == 0 {
        if node == 0 {
            assert(entry(dict, node) + rest =~= Seq::<u8>::empty());
        } else {
            let p = Pair { index: node as u64, symbol: None };
            assert(pairs == seq![p]);
            assert(pairs.drop_first() =~= Seq::<Pair>::empty());
            assert(entry(dict, node) + rest =~= entry(dict, node));
            assert(pairs[0] == p);
            assert(entry(dict, node) == dict[node - 1]);
            assert(lz78_expand(dict.push(entry(dict, node)), pairs.drop_first()) == Seq::<u8>::empty());
            assert(lz78_expand(dict, pairs) =~= entry(dict, node) + Seq::<u8>::empty());
        }
    } else {
        let w = entry(dict, node).push(rest[0]);
        let r = rest.drop_first();
        if dict.contains(w) {
            let k = choose|i: int| 0 <= i < dict.len() && dict[i] == w;
            let n2 = node_of(dict, w);
            assert(entry(dict, n2) == w);
            lemma_expand_from(dict, n2, r);
            assert(w + r =~= entry(dict, node) + rest);
        } else {
            let p = Pair { index: node as u64, symbol: Some(rest[0]) };
            let tail = lz78_pairs_from(grow(dict, w), 0, r);
            assert(pairs == seq![p] + tail);
            assert(pairs[0] == p);
            assert(pairs.drop_first() =~= tail);
            assert(grow(dict, w) == dict.push(w));
            lemma_expand_from(dict.push(w), 0, r);
            assert(entry(dict.push(w), 0) + r =~= r);
            if node > 0 {
                assert(entry(dict, node) == dict[node - 1]);
            }
            assert(w + r =~= entry(dict, node) + rest);
        }
    }
}

/// The pairs of an encoding are an LZ78 parse of the input: read the plain
/// way, each pair naming the phrase of an earlier pair and adding one byte,
/// they spell the input, as long as there are fewer than 2^20 - 1 of them
/// (past that the dictionary starts over).
pub proof fn lemma_lz78_pairs_spell_input(input: Seq<u8>)
    requires
        lz78_pairs(input).len() < 1048575,
    ensures
        lz78_expand(Seq::<Seq<u8>>::empty(), lz78_pairs(input)) == input,
{
    lemma_expand_from(Seq::<Seq<u8>>::empty(), 0, input);
    assert(entry(Seq::<Seq<u8>>::empty(), 0) + input =~= input);
}

} // verus!
