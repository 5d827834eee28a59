//! Most-significant-bit-first views of byte sequences.

use vstd::prelude::*;

verus! {

/// Bit `k` (0 = most significant) of a byte.
pub open spec fn bit_of_byte(b: u8, k: int) -> bool {
    (b >> ((7 - k) as u8)) & 1u8 == 1u8
}

/// The bits of a byte sequence, most significant bit of each byte first.
pub open spec fn bits_of_bytes(s: Seq<u8>) -> Seq<bool> {
    Seq::new(8 * s.len(), |i: int| bit_of_byte(s[i / 8], i % 8))
}

/// The low `n` bits of `b`, oldest (highest) first.
pub open spec fn low_bits(b: u8, n: int) -> Seq<bool> {
    Seq::new(n as nat, |j: int| (b >> ((n - 1 - j) as u8)) & 1u8 == 1u8)
}

/// A bit sequence followed by zeros up to the next whole byte.
pub open spec fn pad_to_bytes(bits: Seq<bool>) -> Seq<bool> {
    let extra = if bits.len() % 8 == 0 {
        0
    } else {
        8 - bits.len() % 8
    };
    bits + Seq::new(extra as nat, |j: int| false)
}

/// Number of bytes needed to hold `n` bits.
pub open spec fn bytes_for_bits(n: int) -> int {
    if n % 8 == 0 {
        n / 8
    } else {
        n / 8 + 1
    }
}

/// Bit `8 * b + t` is bit `t` of byte `b`.
pub proof fn lemma_index_split(b: int, t: int)
    requires
        0 <= b,
        0 <= t < 8,
    ensures
        (8 * b + t) / 8 == b,
        (8 * b + t) % 8 == t,
{
    assert((8 * b + t) / 8 == b && (8 * b + t) % 8 == t) by (nonlinear_arith)
        requires
            0 <= b,
            0 <= t < 8,
    ;
}

/// Appending a byte appends its eight bits.
pub proof fn lemma_bits_push(s: Seq<u8>, b: u8)
    ensures
        bits_of_bytes(s.push(b)) == bits_of_bytes(s) + Seq::new(8, |k: int| bit_of_byte(b, k)),
{
    let l = bits_of_bytes(s.push(b));
    let r = bits_of_bytes(s) + Seq::new(8, |k: int| bit_of_byte(b, k));
    assert forall|i: int| 0 <= i < l.len() implies l[i] == r[i] by {
        lemma_index_split(i / 8, i % 8);
        if i < 8 * s.len() {
            assert(i / 8 < s.len()) by (nonlinear_arith)
                requires
                    0 <= i < 8 * s.len(),
            ;
        } else {
            assert(i / 8 == s.len()) by (nonlinear_arith)
                requires
                    8 * s.len() <= i < 8 * s.len() + 8,
            ;
        }
    }
    assert(l =~= r);
}

/// Shifting a bit into a partial byte appends that bit.
pub proof fn lemma_low_bits_shift_in(b: u8, n: u8, x: u8)
    requires
        n < 8,
        x <= 1,
    ensures
        low_bits(((b << 1u8) | x), (n + 1) as int) == low_bits(b, n as int).push(x == 1),
{
    let nb: u8 = (b << 1u8) | x;
    let l = low_bits(nb, (n + 1) as int);
    let r = low_bits(b, n as int).push(x == 1);
    assert forall|j: int| 0 <= j < l.len() implies l[j] == r[j] by {
        if j < n {
            let jj = j as u8;
            assert((((b << 1u8) | x) >> ((n - jj) as u8)) & 1u8 == (b >> ((n - 1u8 - jj) as u8)) & 1u8)
                by (bit_vector)
                requires
                    jj < n,
                    n < 8,
                    x <= 1,
            ;
        } else {
            assert((((b << 1u8) | x) >> 0u8) & 1u8 == x) by (bit_vector)
                requires
                    x <= 1,
            ;
        }
    }
    assert(l =~= r);
}

/// A full partial byte is exactly the byte's bits.
pub proof fn lemma_low_bits_full(b: u8)
    ensures
        low_bits(b, 8) == Seq::new(8, |k: int| bit_of_byte(b, k)),
{
    assert(low_bits(b, 8) =~= Seq::new(8, |k: int| bit_of_byte(b, k)));
}

/// Shifting a partial byte of `n` bits to the top pads it with zeros.
pub proof fn lemma_low_bits_pad(b: u8, n: u8)
    requires
        0 < n < 8,
    ensures
        Seq::new(8, |k: int| bit_of_byte(b << ((8 - n) as u8), k)) == low_bits(b, n as int)
            + Seq::new((8 - n) as nat, |j: int| false),
{
    let l = Seq::new(8, |k: int| bit_of_byte(b << ((8 - n) as u8), k));
    let r = low_bits(b, n as int) + Seq::new((8 - n) as nat, |j: int| false);
    assert forall|k: int| 0 <= k < 8 implies l[k] == r[k] by {
        let kk = k as u8;
        if k < n {
            assert(((b << ((8u8 - n) as u8)) >> ((7u8 - kk) as u8)) & 1u8 == (b >> ((n - 1u8 - kk) as u8)) & 1u8)
                by (bit_vector)
                requires
                    kk < n,
                    n < 8,
            ;
        } else {
            assert(((b << ((8u8 - n) as u8)) >> ((7u8 - kk) as u8)) & 1u8 == 0u8) by (bit_vector)
                requires
                    n <= kk,
                    kk < 8,
                    0 < n,
            ;
        }
    }
    assert(l =~= r);
}

/// Setting bit `k` of a byte changes that bit only.
pub proof fn lemma_set_bit(b: u8, k: u8, t: u8)
    requires
        k < 8,
        t < 8,
    ensures
        bit_of_byte(b | (1u8 << (7 - k) as u8), t as int) == (t == k || bit_of_byte(b, t as int)),
{
    assert(((b | (1u8 << ((7u8 - k) as u8))) >> ((7u8 - t) as u8)) & 1u8 == 1u8 <==> (t == k || (b
        >> ((7u8 - t) as u8)) & 1u8 == 1u8)) by (bit_vector)
        requires
            k < 8,
            t < 8,
    ;
}

/// Reads bit `i` of a byte slice, most significant bit of each byte first.
pub fn get_bit(s: &[u8], i: usize) -> (bit: u8)
    requires
        i < 8 * s@.len(),
    ensures
        bit <= 1,
        (bit == 1) == bits_of_bytes(s@)[i as int],
{
    assert(i / 8 < s@.len()) by (nonlinear_arith)
        requires
            i < 8 * s@.len(),
    ;
    let byte = s[i / 8];
    let shift: u8 = 7 - (i % 8) as u8;
    let bit = (byte >> shift) & 1;
    assert(bit <= 1) by (bit_vector)
        requires
            bit == (byte >> shift) & 1,
    ;
    bit
}

/// A run of zero bytes is a run of zero bits.
pub proof fn lemma_bits_of_zeros(n: nat)
    ensures
        bits_of_bytes(Seq::new(n, |j: int| 0u8)) == Seq::new(8 * n, |j: int| false),
{
    assert forall|k: int| 0 <= k < 8 implies !bit_of_byte(0u8, k) by {
        let kk = k as u8;
        assert((0u8 >> ((7 - kk) as u8)) & 1u8 == 0u8) by (bit_vector);
    }
    let z = Seq::new(n, |j: int| 0u8);
    assert forall|i: int| 0 <= i < 8 * n implies !#[trigger] bits_of_bytes(z)[i] by {
        assert(0 <= i / 8 < n && 0 <= i % 8 < 8) by (nonlinear_arith)
            requires
                0 <= i < 8 * n,
        ;
    }
    assert(bits_of_bytes(z) =~= Seq::new(8 * n, |j: int| false));
}

/// Clearing bit `k` of a byte changes that bit only.
pub proof fn lemma_clear_bit(b: u8, k: u8, t: u8)
    requires
        k < 8,
        t < 8,
    ensures
        bit_of_byte(b & !(1u8 << (7 - k) as u8), t as int) == (t != k && bit_of_byte(b, t as int)),
{
    assert(((b & !(1u8 << ((7u8 - k) as u8))) >> ((7u8 - t) as u8)) & 1u8 == 1u8 <==> (t != k && (
    b >> ((7u8 - t) as u8)) & 1u8 == 1u8)) by (bit_vector)
        requires
            k < 8,
            t < 8,
    ;
}

/// Writes bit `i` (most significant bit of each byte first) of a byte vector.
pub fn write_bit(v: &mut Vec<u8>, i: usize, bit: bool)
    requires
        i < 8 * old(v)@.len(),
    ensures
        final(v)@.len() == old(v)@.len(),
        bits_of_bytes(final(v)@) == bits_of_bytes(old(v)@).update(i as int, bit),
{
    let ghost len = old(v)@.len();
    assert(i / 8 < len) by (nonlinear_arith)
        requires
            i < 8 * len,
    ;
    let pos = i / 8;
    let k: u8 = (i % 8) as u8;
    let byte = v[pos];
    let mask: u8 = 1u8 << (7 - k);
    let nb = if bit {
        byte | mask
    } else {
        byte & !mask
    };
    v.set(pos, nb);
    let ghost l = bits_of_bytes(v@);
    let ghost r = bits_of_bytes(old(v)@).update(i as int, bit);
    assert forall|j: int| 0 <= j < l.len() implies l[j] == r[j] by {
        assert(0 <= j / 8 < len && 0 <= j % 8 < 8) by (nonlinear_arith)
            requires
                0 <= j < 8 * len,
        ;
        if j / 8 == pos as int {
            lemma_set_bit(byte, k, (j % 8) as u8);
            lemma_clear_bit(byte, k, (j % 8) as u8);
            assert(j == i <==> j % 8 == k as int) by (nonlinear_arith)
                requires
                    j / 8 == i / 8,
                    k == i % 8,
                    0 <= j,
            ;
        } else {
            assert(j != i);
        }
    }
    assert(l =~= r);
}

/// Reads bit `i` (most significant bit of each byte first) of a byte vector.
pub fn read_vec_bit(v: &Vec<u8>, i: usize) -> (bit: bool)
    requires
        i < 8 * v@.len(),
    ensures
        bit == bits_of_bytes(v@)[i as int],
{
    assert(i / 8 < v@.len()) by (nonlinear_arith)
        requires
            i < 8 * v@.len(),
    ;
    let byte = v[i / 8];
    let shift: u8 = 7 - (i % 8) as u8;
    (byte >> shift) & 1 == 1
}

} // verus!
