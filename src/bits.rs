//! Most-significant-bit-first bit streams over byte buffers.
use vstd::arithmetic::div_mod::lemma_mod_breakdown;
use vstd::prelude::*;

verus! {

/// Bit `i` of a byte sequence, counting from the most significant bit of the first byte.
pub open spec fn bit_of(bytes: Seq<u8>, i: int) -> bool {
    (bytes[i / 8] >> ((7 - i % 8) as u8)) & 1u8 == 1u8
}

/// All bits of a byte sequence, most significant bit of each byte first.
pub open spec fn bits_of_bytes(bytes: Seq<u8>) -> Seq<bool> {
    Seq::new((8 * bytes.len()) as nat, |i: int| bit_of(bytes, i))
}

/// A bit sequence followed by zero bits up to the next byte boundary.
pub open spec fn padded(bits: Seq<bool>) -> Seq<bool> {
    bits + Seq::new(((8 - bits.len() % 8) % 8) as nat, |i: int| false)
}

pub open spec fn two_pow(n: nat) -> nat
    decreases n,
{
    if n == 0 {
        1
    } else {
        2 * two_pow((n - 1) as nat)
    }
}

/// The `n`-bit field of `v`, most significant bit first.
pub open spec fn field_bits(v: nat, n: nat) -> Seq<bool>
    decreases n,
{
    if n == 0 {
        Seq::empty()
    } else {
        field_bits(v / 2, (n - 1) as nat).push(v % 2 == 1)
    }
}

/// The unsigned value of the `n` bits starting at `pos`, most significant bit first.
pub open spec fn field_value(bits: Seq<bool>, pos: int, n: nat) -> nat
    decreases n,
{
    if n == 0 {
        0
    } else {
        2 * field_value(bits, pos, (n - 1) as nat) + (if bits[pos + n - 1] {
            1nat
        } else {
            0nat
        })
    }
}

pub proof fn lemma_two_pow_mono(a: nat, b: nat)
    requires
        a <= b,
    ensures
        1 <= two_pow(a) <= two_pow(b),
    decreases b,
{
    if b > 0 {
        if b > a {
            lemma_two_pow_mono(a, (b - 1) as nat);
        } else {
            lemma_two_pow_mono((a - 1) as nat, (b - 1) as nat);
        }
    }
}

pub proof fn lemma_field_value_bound(bits: Seq<bool>, pos: int, n: nat)
    ensures
        field_value(bits, pos, n) < two_pow(n),
    decreases n,
{
    if n > 0 {
        lemma_field_value_bound(bits, pos, (n - 1) as nat);
    }
}

/// Reading back an `n`-bit field yields the value written, reduced to `n` bits.
pub proof fn lemma_field_round_trip(bits: Seq<bool>, pos: int, v: nat, n: nat)
    requires
        0 <= pos,
        pos + n <= bits.len(),
        bits.subrange(pos, pos + n) == field_bits(v, n),
    ensures
        field_bits(v, n).len() == n,
        field_value(bits, pos, n) == v % two_pow(n),
    decreases n,
{
    if n == 0 {
    } else {
        let m = (n - 1) as nat;
        lemma_field_bits_len(v / 2, m);
        assert(field_bits(v, n).subrange(0, m as int) =~= field_bits(v / 2, m));
        assert(bits.subrange(pos, pos + m) =~= bits.subrange(pos, pos + n).subrange(0, m as int));
        lemma_field_round_trip(bits, pos, v / 2, m);
        assert(bits[pos + n - 1] == bits.subrange(pos, pos + n)[n - 1]);
        lemma_two_pow_mono(0, m);
        lemma_mod_breakdown(v as int, 2, two_pow(m) as int);
    }
}

pub proof fn lemma_field_bits_len(v: nat, n: nat)
    ensures
        field_bits(v, n).len() == n,
    decreases n,
{
    if n > 0 {
        lemma_field_bits_len(v / 2, (n - 1) as nat);
    }
}

proof fn lemma_set_bit(x: u8, k: u8, j: u8)
    requires
        k < 8,
        j < 8,
    ensures
        ((x | (0x80u8 >> k)) >> (7 - j) as u8) & 1u8 == (if j == k {
            1u8
        } else {
            (x >> (7 - j) as u8) & 1u8
        }),
{
    assert(((x | (0x80u8 >> k)) >> (7 - j) as u8) & 1u8 == (if j == k {
        1u8
    } else {
        (x >> (7 - j) as u8) & 1u8
    })) by (bit_vector)
        requires
            k < 8,
            j < 8,
    ;
}

proof fn lemma_zero_bits(j: u8)
    requires
        j < 8,
    ensures
        (0u8 >> (7 - j) as u8) & 1u8 == 0u8,
{
    assert((0u8 >> (7 - j) as u8) & 1u8 == 0u8) by (bit_vector)
        requires
            j < 8,
    ;
}

/// A growing bit stream; bits past `bit_len` in the last byte are kept at zero.
pub struct BitWriter {
    pub bytes: Vec<u8>,
    pub bit_len: usize,
}

impl BitWriter {
    pub open spec fn wf(&self) -> bool {
        &&& self.bytes@.len() == (self.bit_len as int + 7) / 8
        &&& forall|i: int|
            self.bit_len <= i < 8 * self.bytes@.len() ==> !#[trigger] bit_of(self.bytes@, i)
    }

    /// The bits written so far.
    pub open spec fn view(&self) -> Seq<bool> {
        bits_of_bytes(self.bytes@).subrange(0, self.bit_len as int)
    }

    pub fn new() -> (w: BitWriter)
        ensures
            w.wf(),
            w@ == Seq::<bool>::empty(),
            w.bit_len == 0,
    {
        let w = BitWriter { bytes: Vec::new(), bit_len: 0 };
        assert(w@ =~= Seq::<bool>::empty());
        w
    }

    pub fn push_bit(&mut self, b: bool)
        requires
            old(self).wf(),
            old(self).bit_len < usize::MAX - 8,
        ensures
            final(self).wf(),
            final(self)@ == old(self)@.push(b),
            final(self).bit_len == old(self).bit_len + 1,
    {
        let ghost old_bytes = self.bytes@;
        let k = self.bit_len % 8;
        if k == 0 {
            self.bytes.push(0u8);
            assert forall|i: int| 0 <= i < 8 * old_bytes.len() implies bit_of(self.bytes@, i)
                == bit_of(old_bytes, i) by {
                assert(self.bytes@[i / 8] == old_bytes[i / 8]);
            }
            assert forall|i: int| 8 * old_bytes.len() <= i < 8 * self.bytes@.len() implies !bit_of(
                self.bytes@,
                i,
            ) by {
                assert(i / 8 == old_bytes.len());
                lemma_zero_bits((i % 8) as u8);
            }
        }
        let ghost mid = self.bytes@;
        if b {
            let last = self.bytes.len() - 1;
            let x = self.bytes[last];
            self.bytes.set(last, x | (0x80u8 >> (k as u8)));
            assert forall|i: int| 0 <= i < 8 * mid.len() implies bit_of(self.bytes@, i) == (if i
                == self.bit_len {
                true
            } else {
                bit_of(mid, i)
            }) by {
                if i / 8 == last {
                    lemma_set_bit(x, k as u8, (i % 8) as u8);
                } else {
                    assert(self.bytes@[i / 8] == mid[i / 8]);
                }
            }
        }
        self.bit_len = self.bit_len + 1;
        assert(self@ =~= old(self)@.push(b));
    }

    /// Appends the low `n` bits of `v`, most significant first.
    pub fn write_bits(&mut self, v: u32, n: usize)
        requires
            old(self).wf(),
            old(self).bit_len + n < usize::MAX - 8,
        ensures
            final(self).wf(),
            final(self)@ == old(self)@ + field_bits(v as nat, n as nat),
            final(self).bit_len == old(self).bit_len + n,
        decreases n,
    {
        if n == 0 {
            assert(self@ =~= old(self)@ + field_bits(v as nat, n as nat));
            return ;
        }
        self.write_bits(v / 2, n - 1);
        self.push_bit(v % 2 == 1);
        assert(self@ =~= old(self)@ + field_bits(v as nat, n as nat));
    }

    /// The finished byte buffer: the bits written, zero-padded to a whole byte.
    pub fn into_bytes(self) -> (r: Vec<u8>)
        requires
            self.wf(),
        ensures
            bits_of_bytes(r@) == padded(self@),
    {
        let ghost bits = self@;
        proof {
            let all = bits_of_bytes(self.bytes@);
            assert(all =~= padded(bits)) by {
                assert(all.len() == padded(bits).len());
                assert forall|i: int| 0 <= i < all.len() implies all[i] == padded(bits)[i] by {
                    if i >= self.bit_len {
                        assert(!bit_of(self.bytes@, i));
                    }
                }
            }
        }
        self.bytes
    }
}

/// Reads the `n`-bit field at bit position `pos`.
pub fn read_bits(bytes: &Vec<u8>, pos: usize, n: usize) -> (r: u32)
    requires
        n <= 16,
        pos + n <= 8 * bytes@.len(),
        pos + n <= usize::MAX,
    ensures
        r as nat == field_value(bits_of_bytes(bytes@), pos as int, n as nat),
{
    let ghost bits = bits_of_bytes(bytes@);
    let mut r: u32 = 0;
    let mut j: usize = 0;
    while j < n
        invariant
            j <= n <= 16,
            pos + n <= 8 * bytes@.len(),
            pos + n <= usize::MAX,
            bits == bits_of_bytes(bytes@),
            r as nat == field_value(bits, pos as int, j as nat),
        decreases n - j,
    {
        let p = pos + j;
        let bit = (bytes[p / 8] >> ((7 - p % 8) as u8)) & 1u8;
        proof {
            lemma_field_value_bound(bits, pos as int, j as nat);
            lemma_two_pow_mono(j as nat, 15);
            reveal_with_fuel(two_pow, 16);
            assert(two_pow(15) == 32768);
            assert(bits[p as int] == bit_of(bytes@, p as int));
        }
        r = r * 2 + if bit == 1u8 {
            1u32
        } else {
            0u32
        };
        j = j + 1;
    }
    r
}

} // verus!
