//! The mathematical model of bit streams shared by the writer and the reader.
//!
//! Bits are numbered from the least significant end: the first bit of a stream
//! is bit 0 of its first byte, and a word of eight bytes holds them in
//! little-endian order.
use vstd::prelude::*;
use vstd::arithmetic::power2::pow2;

verus! {

/// Bit `i` (counted from the least significant end) of a 64-bit word.
pub open spec fn bit(v: u64, i: int) -> bool {
    0 <= i < 64 && (v >> (i as u64)) & 1 == 1
}

/// Bit `i` of a byte.
pub open spec fn bit_u8(b: u8, i: int) -> bool {
    0 <= i < 8 && (b >> (i as u8)) & 1 == 1
}

/// The first `n` bits of `v`; positions from 64 on are zero bits.
pub open spec fn low_bits(v: u64, n: nat) -> Seq<bool> {
    Seq::new(n, |j: int| bit(v, j))
}

/// The bits of a byte sequence, eight per byte, least significant first.
pub open spec fn bytes_bits(s: Seq<u8>) -> Seq<bool> {
    Seq::new(8 * s.len(), |i: int| bit_u8(s[i / 8], i % 8))
}

/// `n` zero bits.
pub open spec fn zeros(n: nat) -> Seq<bool> {
    Seq::new(n, |j: int| false)
}

/// The number a bit sequence stands for, least significant bit first, cut to
/// its low 64 bits.
pub open spec fn value_of(s: Seq<bool>) -> u64
    decreases s.len(),
{
    if s.len() == 0 {
        0
    } else {
        (value_of(s.drop_first()) << 1u64) | (if s[0] { 1u64 } else { 0u64 })
    }
}

/// The eight little-endian bytes of a word.
pub open spec fn le_bytes(v: u64) -> Seq<u8> {
    Seq::new(8, |i: int| ((v >> (8 * i) as u64) & 0xff) as u8)
}

/// How many 64-bit words a reader makes of `len` bytes: the last one padded
/// with zero bytes, and one word of zeros for no bytes at all.
pub open spec fn num_words(len: nat) -> nat {
    if len == 0 { 1 } else { ((len + 7) / 8) as nat }
}

/// The bits a reader offers for `data`: its bytes' bits, then zero bits up to
/// the end of the last word.
pub open spec fn padded_bits(data: Seq<u8>) -> Seq<bool> {
    bytes_bits(data) + zeros((64 * num_words(data.len()) - 8 * data.len()) as nat)
}

/// The bit length of `v`: one more than its base-2 logarithm, and 0 for 0.
pub open spec fn bit_length(v: u64) -> nat
    decreases v,
{
    if v == 0 {
        0
    } else {
        1 + bit_length(v / 2)
    }
}

/// The chunks of `c` bits that `n` bits fill.
pub open spec fn chunks_for(n: nat, c: nat) -> nat {
    ((n + c - 1) / c as int) as nat
}

/// Shifting right by `k` takes `k` bits off the bit length.
pub proof fn lemma_bit_length_shr(v: u64, k: u64)
    requires
        k < 64,
    ensures
        bit_length(v >> k) == if bit_length(v) > k { (bit_length(v) - k) as nat } else { 0 },
    decreases k,
{
    if k == 0 {
        lemma_shift_by_zero(v);
    } else {
        lemma_bit_length_shr(v, (k - 1) as u64);
        let x = v >> ((k - 1) as u64);
        lemma_shr_shr(v, (k - 1) as u64, 1);
        assert(x >> 1u64 == x / 2) by (bit_vector);
    }
}

/// Only zero has bit length zero.
pub proof fn lemma_bit_length_zero(v: u64)
    ensures
        (bit_length(v) == 0) == (v == 0),
{
}

/// The bit length counts the bits up to the highest set one, as the
/// leading zeros tell: at most 64.
pub proof fn lemma_bit_length(v: u64)
    ensures
        bit_length(v) == 64 - vstd::std_specs::bits::u64_leading_zeros(v),
        bit_length(v) <= 64,
    decreases v,
{
    reveal(vstd::std_specs::bits::u64_leading_zeros);
    if v > 0 {
        lemma_bit_length(v / 2);
    }
}

/// The number of zero bits that fill the last byte of `n` bits.
pub open spec fn byte_padding(n: nat) -> nat {
    ((8 - n % 8) % 8) as nat
}

/// A mask of the `n` low bits.
pub open spec fn mask(n: u64) -> u64 {
    if n >= 64 { 0xffff_ffff_ffff_ffffu64 } else { ((1u64 << n) - 1) as u64 }
}

/// No bit of zero is set.
pub proof fn lemma_bit_of_zero(j: u64)
    by (bit_vector)
    ensures
        (0u64 >> j) & 1 == 0,
{
}

/// Shifting by zero changes nothing, and the bits at 0 of one and zero.
pub proof fn lemma_shift_by_zero(v: u64)
    by (bit_vector)
    ensures
        v >> 0u64 == v,
        0u64 >> 0u64 == 0,
        (1u64 >> 0u64) & 1 == 1,
        (0u64 >> 0u64) & 1 == 0,
{
}

/// A one shifted left below the word width is positive.
pub proof fn lemma_one_shl_pos(c: u64)
    by (bit_vector)
    requires
        c < 64,
    ensures
        1u64 << c >= 1,
{
}

/// Shifting right by a positive amount makes a nonzero result smaller.
pub proof fn lemma_shr_smaller(v: u64, c: u64)
    by (bit_vector)
    requires
        0 < c,
        v >> c > 0,
    ensures
        v >> c < v,
{
}

proof fn lemma_shift_step(x: u64, k: u64)
    requires
        k < 64,
    ensures
        x >> k == ((x >> (k + 1) as u64) << 1u64) | ((x >> k) & 1),
{
    assert(k < 64 ==> x >> k == ((x >> (k + 1) as u64) << 1u64) | ((x >> k) & 1)) by (bit_vector);
}

proof fn lemma_bits_eq_from(x: u64, y: u64, k: int)
    requires
        0 <= k <= 64,
        forall|j: int| k <= j < 64 ==> bit(x, j) == bit(y, j),
    ensures
        x >> (k as u64) == y >> (k as u64),
    decreases 64 - k,
{
    if k == 64 {
        assert(x >> 64u64 == 0 && y >> 64u64 == 0) by (bit_vector);
    } else {
        lemma_bits_eq_from(x, y, k + 1);
        lemma_shift_step(x, k as u64);
        lemma_shift_step(y, k as u64);
        assert(bit(x, k) == bit(y, k));
        let kk = k as u64;
        assert((x >> kk) & 1 == 1 || (x >> kk) & 1 == 0) by (bit_vector);
        assert((y >> kk) & 1 == 1 || (y >> kk) & 1 == 0) by (bit_vector);
    }
}

/// Two words with the same 64 bits are equal.
pub proof fn lemma_bits_eq(x: u64, y: u64)
    requires
        forall|j: int| 0 <= j < 64 ==> bit(x, j) == bit(y, j),
    ensures
        x == y,
{
    lemma_bits_eq_from(x, y, 0);
    assert(x >> 0u64 == x && y >> 0u64 == y) by (bit_vector);
}

/// The bits of `value_of(s)` are the first 64 entries of `s`, then zeros.
pub proof fn lemma_value_of_bits(s: Seq<bool>)
    ensures
        forall|j: int| 0 <= j < 64 ==> #[trigger] bit(value_of(s), j) == (j < s.len() && s[j]),
    decreases s.len(),
{
    if s.len() == 0 {
        assert forall|j: int| 0 <= j < 64 implies #[trigger] bit(value_of(s), j) == (j < s.len() && s[j]) by {
            let jj = j as u64;
            lemma_bit_of_zero(jj);
        }
    } else {
        let r = s.drop_first();
        lemma_value_of_bits(r);
        let x = value_of(r);
        let b: u64 = if s[0] { 1u64 } else { 0u64 };
        assert forall|j: int| 0 <= j < 64 implies #[trigger] bit(value_of(s), j) == (j < s.len() && s[j]) by {
            let jj = j as u64;
            assert(b <= 1);
            if j == 0 {
                assert(b <= 1 ==> (((x << 1u64) | b) >> 0u64) & 1 == b) by (bit_vector);
            } else {
                assert(b <= 1 && 0 < jj < 64 ==> (((x << 1u64) | b) >> jj) & 1 == (x >> (jj - 1) as u64) & 1) by (bit_vector);
                assert(bit(x, j - 1) == (j - 1 < r.len() && r[j - 1]));
            }
        }
    }
}

/// Shifting right twice shifts by the sum.
pub proof fn lemma_shr_shr(v: u64, a: u64, b: u64)
    requires
        a < 64,
        b < 64,
        a + b < 64,
    ensures
        (v >> a) >> b == v >> ((a + b) as u64),
{
    vstd::bits::lemma_u64_shr_is_div(v, a);
    vstd::bits::lemma_u64_shr_is_div(v >> a, b);
    vstd::bits::lemma_u64_shr_is_div(v, (a + b) as u64);
    vstd::arithmetic::power2::lemma_pow2_adds(a as nat, b as nat);
    vstd::arithmetic::power2::lemma_pow2_pos(a as nat);
    vstd::arithmetic::power2::lemma_pow2_pos(b as nat);
    vstd::arithmetic::div_mod::lemma_div_denominator(v as int, pow2(a as nat) as int, pow2(b as nat) as int);
}

/// The one bit of a flag written as a number.
pub proof fn lemma_low_bits_of_flag(b: bool)
    ensures
        low_bits(if b { 1u64 } else { 0u64 }, 1) == seq![b],
{
    lemma_shift_by_zero(0);
    assert(low_bits(if b { 1u64 } else { 0u64 }, 1) =~= seq![b]);
}

/// Fewer than 64 bits stand for a number below two to their count.
pub proof fn lemma_value_of_short(s: Seq<bool>)
    requires
        s.len() < 64,
    ensures
        value_of(s) < (1u64 << (s.len() as u64)),
    decreases s.len(),
{
    if s.len() == 0 {
        assert(0u64 < (1u64 << 0u64)) by (bit_vector);
    } else {
        let r = s.drop_first();
        lemma_value_of_short(r);
        let x = value_of(r);
        let m = r.len() as u64;
        let b: u64 = if s[0] { 1u64 } else { 0u64 };
        assert(x < (1u64 << m) && b <= 1 && m < 63 ==> ((x << 1u64) | b) < (1u64 << ((m + 1) as u64))) by (bit_vector);
    }
}

/// Two bytes with the same eight bits are equal.
proof fn lemma_byte_bits_eq(x: u8, y: u8)
    by (bit_vector)
    requires
        ((x >> 0u8) & 1 == 1) == ((y >> 0u8) & 1 == 1),
        ((x >> 1u8) & 1 == 1) == ((y >> 1u8) & 1 == 1),
        ((x >> 2u8) & 1 == 1) == ((y >> 2u8) & 1 == 1),
        ((x >> 3u8) & 1 == 1) == ((y >> 3u8) & 1 == 1),
        ((x >> 4u8) & 1 == 1) == ((y >> 4u8) & 1 == 1),
        ((x >> 5u8) & 1 == 1) == ((y >> 5u8) & 1 == 1),
        ((x >> 6u8) & 1 == 1) == ((y >> 6u8) & 1 == 1),
        ((x >> 7u8) & 1 == 1) == ((y >> 7u8) & 1 == 1),
    ensures
        x == y,
{
}

/// Byte sequences with the same bits are equal.
pub proof fn lemma_bytes_bits_injective(a: Seq<u8>, b: Seq<u8>)
    requires
        bytes_bits(a) == bytes_bits(b),
    ensures
        a == b,
{
    assert(bytes_bits(a).len() == 8 * a.len());
    assert forall|k: int| 0 <= k < a.len() implies a[k] == b[k] by {
        assert forall|i: int| 0 <= i < 8 implies bit_u8(a[k], i) == bit_u8(b[k], i) by {
            let idx = 8 * k + i;
            assert(idx / 8 == k && idx % 8 == i);
            assert(b.len() == a.len());
            assert(idx < 8 * a.len());
            assert(bytes_bits(a)[idx] == bit_u8(a[idx / 8], idx % 8));
            assert(bytes_bits(b)[idx] == bit_u8(b[idx / 8], idx % 8));
        }
        assert(bit_u8(a[k], 0) == bit_u8(b[k], 0));
        assert(bit_u8(a[k], 1) == bit_u8(b[k], 1));
        assert(bit_u8(a[k], 2) == bit_u8(b[k], 2));
        assert(bit_u8(a[k], 3) == bit_u8(b[k], 3));
        assert(bit_u8(a[k], 4) == bit_u8(b[k], 4));
        assert(bit_u8(a[k], 5) == bit_u8(b[k], 5));
        assert(bit_u8(a[k], 6) == bit_u8(b[k], 6));
        assert(bit_u8(a[k], 7) == bit_u8(b[k], 7));
        lemma_byte_bits_eq(a[k], b[k]);
    }
    assert(a =~= b);
}

/// The low `b` bits of a number are those of the number cut to `b` bits.
pub proof fn lemma_low_bits_masked(v: u64, b: u64)
    requires
        b < 64,
    ensures
        low_bits(v & mask(b), b as nat) == low_bits(v, b as nat),
{
    assert forall|j: int| 0 <= j < b implies bit(v & mask(b), j) == bit(v, j) by {
        let jj = j as u64;
        assert(jj < b && b < 64 ==> ((v & ((1u64 << b) - 1) as u64) >> jj) & 1 == (v >> jj) & 1) by (bit_vector);
    }
    assert(low_bits(v & mask(b), b as nat) =~= low_bits(v, b as nat));
}

/// The low `a` bits of `x` followed by the low `b` bits of `y` are the low
/// `a + b` bits of the two cut and joined into one number.
pub proof fn lemma_low_bits_concat(x: u64, y: u64, a: u64, b: u64)
    requires
        a < 64,
        b < 64,
        a + b <= 64,
    ensures
        low_bits(x, a as nat) + low_bits(y, b as nat) == low_bits(
            (x & mask(a)) | ((y & mask(b)) << a),
            (a + b) as nat,
        ),
{
    let z = (x & mask(a)) | ((y & mask(b)) << a);
    assert forall|j: int| 0 <= j < a + b implies #[trigger] bit(z, j) == (if j < a { bit(x, j) } else { bit(y, j - a) }) by {
        let jj = j as u64;
        assert(a < 64 && b < 64 && jj < a + b && jj < 64 ==> ((((x & ((1u64 << a) - 1) as u64) | ((y & ((1u64 << b) - 1) as u64) << a)) >> jj) & 1
            == (if jj < a { (x >> jj) & 1 } else { (y >> (jj - a) as u64) & 1 }))) by (bit_vector);
    }
    assert(low_bits(x, a as nat) + low_bits(y, b as nat) =~= low_bits(z, (a + b) as nat));
}

/// Zero bits stand for zero.
pub proof fn lemma_value_of_zeros(n: nat)
    ensures
        value_of(zeros(n)) == 0,
{
    lemma_value_of_bits(zeros(n));
    assert forall|j: int| 0 <= j < 64 implies bit(value_of(zeros(n)), j) == bit(0, j) by {
        let jj = j as u64;
        lemma_bit_of_zero(jj);
    }
    lemma_bits_eq(value_of(zeros(n)), 0);
}

/// One bit stands for one or zero.
pub proof fn lemma_value_of_single(b: bool)
    ensures
        value_of(seq![b]) == if b { 1u64 } else { 0u64 },
{
    assert(seq![b].drop_first() =~= Seq::<bool>::empty());
    assert(seq![b][0] == b);
    assert(value_of(Seq::<bool>::empty()) == 0);
    let x: u64 = if b { 1u64 } else { 0u64 };
    assert(x <= 1 ==> (0u64 << 1u64) | x == x) by (bit_vector);
}

/// A word is determined by the bits `value_of` reads back.
pub proof fn lemma_value_of_low_bits(v: u64, n: nat)
    ensures
        value_of(low_bits(v, n)) == v & mask(if n >= 64 { 64u64 } else { n as u64 }),
{
    let s = low_bits(v, n);
    lemma_value_of_bits(s);
    let m: u64 = if n >= 64 { 64u64 } else { n as u64 };
    let w = v & mask(m);
    assert forall|j: int| 0 <= j < 64 implies bit(value_of(s), j) == bit(w, j) by {
        let jj = j as u64;
        if m == 64 {
            assert(mask(m) == 0xffff_ffff_ffff_ffffu64);
            assert(((v & 0xffff_ffff_ffff_ffffu64) >> jj) & 1 == (v >> jj) & 1) by (bit_vector);
        } else {
            assert(m < 64 && jj < 64 ==> ((v & ((1u64 << m) - 1) as u64) >> jj) & 1 == (if jj < m { (v >> jj) & 1 } else { 0 })) by (bit_vector);
        }
    }
    lemma_bits_eq(value_of(s), w);
}

/// Concatenation of byte sequences concatenates their bits.
pub proof fn lemma_bytes_bits_add(a: Seq<u8>, b: Seq<u8>)
    ensures
        bytes_bits(a + b) == bytes_bits(a) + bytes_bits(b),
{
    let l = bytes_bits(a + b);
    let r = bytes_bits(a) + bytes_bits(b);
    assert forall|i: int| 0 <= i < l.len() implies l[i] == r[i] by {
        if i >= 8 * a.len() {
            assert((i - 8 * a.len()) / 8 == i / 8 - a.len());
            assert((i - 8 * a.len()) % 8 == i % 8);
        }
    }
    assert(l =~= r);
}

/// The bits of the little-endian bytes of a word are the word's bits.
pub proof fn lemma_le_bytes_bits(v: u64)
    ensures
        bytes_bits(le_bytes(v)) == low_bits(v, 64),
{
    let l = bytes_bits(le_bytes(v));
    assert forall|i: int| 0 <= i < 64 implies l[i] == bit(v, i) by {
        let q = i / 8;
        let r = i % 8;
        assert(0 <= q < 8 && 0 <= r < 8 && i == 8 * q + r);
        let qq = q as u64;
        let rr = r as u64;
        let byte = ((v >> (8 * qq) as u64) & 0xff) as u8;
        assert(le_bytes(v)[q] == byte);
        assert(qq < 8 && rr < 8 ==> (((((v >> (8 * qq) as u64) & 0xff) as u8)) >> (rr as u8)) & 1 == (((v >> (8 * qq + rr) as u64) & 1) as u8)) by (bit_vector);
        assert(((v >> (8 * qq + rr) as u64) & 1) <= 1) by (bit_vector);
        assert((8 * qq + rr) as u64 == i as u64);
        assert(l[i] == bit_u8(byte, r));
    }
    assert(l =~= low_bits(v, 64));
}

/// The `k` bits of `value` from `offset` on, as the packing loop cuts them out.
pub proof fn lemma_extract(value: u64, offset: u64, k: u64)
    requires
        offset < 64,
        k < 64,
    ensures
        ({
            let e = (value & (((1u64 << k) - 1) as u64) << offset) >> offset;
            &&& e >> k == 0
            &&& forall|j: int| 0 <= j < 64 ==> #[trigger] bit(e, j) == (j < k && bit(value, offset + j))
        }),
{
    let e = (value & (((1u64 << k) - 1) as u64) << offset) >> offset;
    assert(offset < 64 && k < 64 ==> ((value & (((1u64 << k) - 1) as u64) << offset) >> offset) >> k == 0) by (bit_vector);
    assert forall|j: int| 0 <= j < 64 implies #[trigger] bit(e, j) == (j < k && bit(value, offset + j)) by {
        let jj = j as u64;
        assert(offset < 64 && k < 64 && jj < 64 ==> (((value & (((1u64 << k) - 1) as u64) << offset) >> offset) >> jj) & 1
            == (if jj < k && offset + jj < 64 { (value >> (offset + jj) as u64) & 1 } else { 0 })) by (bit_vector);
        if jj < k && offset + jj < 64 {
            assert((offset + jj) as u64 == (offset + j) as u64);
        }
    }
}

/// Or-ing a chunk in above the `off` low bits of a word keeps those bits and
/// puts the chunk's bits after them; what passes bit 63 is cut off.
pub proof fn lemma_or_shifted(v: u64, e: u64, off: u64)
    requires
        off < 64,
        v >> off == 0,
    ensures
        forall|j: int| 0 <= j < 64 ==> #[trigger] bit(v | (e << off), j) == if j < off {
            bit(v, j)
        } else {
            bit(e, j - off)
        },
{
    assert forall|j: int| 0 <= j < 64 implies #[trigger] bit(v | (e << off), j) == if j < off {
        bit(v, j)
    } else {
        bit(e, j - off)
    } by {
        let jj = j as u64;
        assert(off < 64 && jj < 64 && v >> off == 0 ==> ((v | (e << off)) >> jj) & 1 == (if jj < off { (v >> jj) & 1 } else { (e >> (jj - off) as u64) & 1 })) by (bit_vector);
    }
}

/// A word whose bits from `k` on are zero has nothing above bit `k`.
pub proof fn lemma_high_zero(v: u64, k: u64)
    requires
        k <= 64,
        forall|j: int| k <= j < 64 ==> !#[trigger] bit(v, j),
    ensures
        v >> k == 0,
{
    assert forall|j: int| 0 <= j < 64 implies bit(v >> k, j) == bit(0, j) by {
        let jj = j as u64;
        lemma_bit_of_zero(jj);
        assert(k <= 64 && jj < 64 ==> ((v >> k) >> jj) & 1 == (if jj + k < 64 { (v >> (jj + k) as u64) & 1 } else { 0 })) by (bit_vector);
        if j + k < 64 {
            assert(!bit(v, j + k));
            assert((jj + k) as u64 == (j + k) as u64);
        }
    }
    lemma_bits_eq(v >> k, 0);
}

} // verus!
