//! The SPB image codec: a lossless, bit-packed, predictive encoding of 24-bit pixels.
//!
//! A stream holds a 16-bit width, a 16-bit height and then one stream per channel.
//! Each channel stream is a literal first sample followed by chunks of a 3-bit header
//! and a payload that together give the next four samples.
use vstd::arithmetic::div_mod::{
    lemma_fundamental_div_mod, lemma_fundamental_div_mod_converse, lemma_small_mod,
};
use crate::bits::{
    bit_of, bits_of_bytes, field_bits, field_value, lemma_field_bits_len, lemma_field_round_trip,
    lemma_field_value_bound, lemma_two_pow_mono, padded, read_bits,
    two_pow, BitWriter,
};
use vstd::prelude::*;

verus! {

/// A width x height grid of three-byte pixels, row-major.
pub struct Image {
    pub pixel_buffer: Vec<[u8; 3]>,
    pub width: u16,
    pub height: u16,
}

impl Image {
    pub open spec fn wf(&self) -> bool {
        self.pixel_buffer@.len() == self.width as nat * self.height as nat
    }
}

/// The 1-based position of the highest set bit of `v`; zero for zero.
pub open spec fn spec_min_bits(v: nat) -> nat
    decreases v,
{
    if v == 0 {
        0
    } else {
        1 + spec_min_bits(v / 2)
    }
}

/// Whether moving from `prev` to `s` is coded as an addition.
pub open spec fn step_add(prev: u8, s: u8) -> bool {
    prev < s
}

/// The magnitude coded for moving from `prev` to `s`; additions carry an implicit extra one.
pub open spec fn step_mag(prev: u8, s: u8) -> nat {
    if prev < s {
        (s - prev - 1) as nat
    } else {
        (prev - s) as nat
    }
}

/// The field that codes the move from `prev` to `s`: magnitude, then the add flag.
pub open spec fn step_code(prev: u8, s: u8) -> nat {
    2 * step_mag(prev, s) + if step_add(prev, s) {
        1nat
    } else {
        0nat
    }
}

pub open spec fn max_nat(a: nat, b: nat) -> nat {
    if a < b {
        b
    } else {
        a
    }
}

/// The widest magnitude, in bits, among the four moves of a chunk.
pub open spec fn chunk_max_bits(prev: u8, q: Seq<u8>) -> nat {
    max_nat(
        max_nat(spec_min_bits(step_mag(prev, q[0])), spec_min_bits(step_mag(q[0], q[1]))),
        max_nat(spec_min_bits(step_mag(q[1], q[2])), spec_min_bits(step_mag(q[2], q[3]))),
    )
}

/// Whether any of the four moves of a chunk is an addition.
pub open spec fn chunk_any_add(prev: u8, q: Seq<u8>) -> bool {
    step_add(prev, q[0]) || step_add(q[0], q[1]) || step_add(q[1], q[2]) || step_add(q[2], q[3])
}

/// The 3-bit header the encoder chooses for the four samples `q` after `prev`.
pub open spec fn chunk_header(prev: u8, q: Seq<u8>) -> nat {
    let mb = chunk_max_bits(prev, q);
    if mb == 0 {
        if chunk_any_add(prev, q) {
            7
        } else {
            0
        }
    } else if mb == 1 {
        7
    } else if mb <= 6 {
        (mb - 1) as nat
    } else {
        6
    }
}

/// The four move fields of a chunk, each `w` bits wide.
pub open spec fn chunk_codes(prev: u8, q: Seq<u8>, w: nat) -> Seq<bool> {
    field_bits(step_code(prev, q[0]), w) + field_bits(step_code(q[0], q[1]), w) + field_bits(
        step_code(q[1], q[2]),
        w,
    ) + field_bits(step_code(q[2], q[3]), w)
}

/// The bits the encoder emits for the four samples `q` after `prev`.
pub open spec fn chunk_bits(prev: u8, q: Seq<u8>) -> Seq<bool> {
    let h = chunk_header(prev, q);
    let mb = chunk_max_bits(prev, q);
    if h == 0 {
        field_bits(0, 3)
    } else if h == 6 {
        field_bits(6, 3) + (field_bits(q[0] as nat, 8) + field_bits(q[1] as nat, 8)
            + field_bits(q[2] as nat, 8) + field_bits(q[3] as nat, 8))
    } else if h == 7 {
        field_bits(7, 3) + (field_bits(mb, 1) + chunk_codes(prev, q, mb + 1))
    } else {
        field_bits(h, 3) + chunk_codes(prev, q, mb + 1)
    }
}

/// The chunks coding samples `i, i + 4, ...` below `n` of `s`, the sample before `i` being `prev`.
pub open spec fn encode_run(s: Seq<u8>, prev: u8, i: nat, n: nat) -> Seq<bool>
    decreases n + 4 - i,
{
    if i >= n {
        Seq::empty()
    } else {
        chunk_bits(prev, s.subrange(i as int, i + 4 as int)) + encode_run(s, s[i + 3 as int], i + 4, n)
    }
}

/// A channel stream for the first `n` samples of `s`.
pub open spec fn encode_channel(s: Seq<u8>, n: nat) -> Seq<bool> {
    field_bits(s[0] as nat, 8) + encode_run(s, s[0], 1, n)
}

/// The stream position of pixel `i` of a `w`-wide grid: odd rows run right to left.
pub open spec fn serpentine(w: nat, i: nat) -> nat {
    let y = i / w;
    let x = i % w;
    if y % 2 == 1 {
        (y * w + (w - 1 - x)) as nat
    } else {
        i
    }
}

/// The samples of channel `c` in stream order, followed by four copies of the last one.
pub open spec fn channel_samples(img: Image, c: int) -> Seq<u8> {
    let n = img.pixel_buffer@.len();
    let w = img.width as nat;
    Seq::new(
        n + 4,
        |i: int|
            if i < n {
                img.pixel_buffer@[serpentine(w, i as nat) as int][c]
            } else {
                img.pixel_buffer@[serpentine(w, (n - 1) as nat) as int][c]
            },
    )
}

/// The bits of the SPB stream of an image.
pub open spec fn spb_encode_bits(img: Image) -> Seq<bool> {
    let n = img.pixel_buffer@.len();
    field_bits(img.width as nat, 16) + field_bits(img.height as nat, 16) + encode_channel(
        channel_samples(img, 0),
        n,
    ) + encode_channel(channel_samples(img, 1), n) + encode_channel(channel_samples(img, 2), n)
}

// Decoding.
/// The sample after `prev` given a move field `k`: its low bit adds, the rest is the magnitude.
pub open spec fn apply_code(prev: u8, k: nat) -> u8 {
    if k % 2 == 1 {
        ((prev + k / 2 + 1) % 256) as u8
    } else {
        ((prev - k / 2) % 256) as u8
    }
}

/// The four samples given by four `w`-bit move fields at `pos`.
pub open spec fn decode_codes(bits: Seq<bool>, pos: int, w: nat, prev: u8) -> Seq<u8> {
    let a = apply_code(prev, field_value(bits, pos, w));
    let b = apply_code(a, field_value(bits, pos + w, w));
    let c = apply_code(b, field_value(bits, pos + 2 * w, w));
    let d = apply_code(c, field_value(bits, pos + 3 * w, w));
    seq![a, b, c, d]
}

/// The number of bits of the chunk at `pos`.
pub open spec fn chunk_len(bits: Seq<bool>, pos: int) -> int {
    let h = field_value(bits, pos, 3);
    if h == 0 {
        3
    } else if h == 6 {
        35
    } else if h == 7 {
        4 + 4 * (field_value(bits, pos + 3, 1) + 1) as int
    } else {
        3 + 4 * (h + 2) as int
    }
}

/// Whether the chunk at `pos` lies wholly within `bits`.
pub open spec fn chunk_fits(bits: Seq<bool>, pos: int) -> bool {
    &&& pos + 3 <= bits.len()
    &&& (field_value(bits, pos, 3) == 7 ==> pos + 4 <= bits.len())
    &&& pos + chunk_len(bits, pos) <= bits.len()
}

/// The four samples given by the chunk at `pos`, the sample before it being `prev`.
pub open spec fn decode_chunk(bits: Seq<bool>, pos: int, prev: u8) -> Seq<u8> {
    let h = field_value(bits, pos, 3);
    if h == 0 {
        seq![prev, prev, prev, prev]
    } else if h == 6 {
        seq![
            field_value(bits, pos + 3, 8) as u8,
            field_value(bits, pos + 11, 8) as u8,
            field_value(bits, pos + 19, 8) as u8,
            field_value(bits, pos + 27, 8) as u8,
        ]
    } else if h == 7 {
        decode_codes(bits, pos + 4, field_value(bits, pos + 3, 1) + 1, prev)
    } else {
        decode_codes(bits, pos + 3, h + 2, prev)
    }
}

/// Chunks from `pos` until `remaining` more samples are produced, with the bit position after them;
/// `None` where the bits run out.
#[verifier::opaque]
pub open spec fn decode_run(bits: Seq<bool>, pos: int, prev: u8, remaining: int) -> Option<
    (Seq<u8>, int),
>
    decreases remaining + 4,
{
    if remaining <= 0 {
        Some((Seq::empty(), pos))
    } else if !chunk_fits(bits, pos) {
        None
    } else {
        let c = decode_chunk(bits, pos, prev);
        match decode_run(bits, pos + chunk_len(bits, pos), c[3], remaining - 4) {
            Some((rest, p)) => Some((c + rest, p)),
            None => None,
        }
    }
}

/// A channel stream of `n` samples at `pos`: the samples (with any scratch past `n`) and the
/// bit position after the stream.
pub open spec fn decode_channel(bits: Seq<bool>, pos: int, n: nat) -> Option<(Seq<u8>, int)> {
    if pos + 8 > bits.len() {
        None
    } else {
        let first = field_value(bits, pos, 8) as u8;
        match decode_run(bits, pos + 8, first, n - 1) {
            Some((rest, p)) => Some((seq![first] + rest, p)),
            None => None,
        }
    }
}

/// The pixels of a `w`-wide grid of `n` pixels whose channel streams are `c0`, `c1`, `c2`.
pub open spec fn pixels_of_channels(
    w: nat,
    n: nat,
    c0: Seq<u8>,
    c1: Seq<u8>,
    c2: Seq<u8>,
) -> Seq<[u8; 3]> {
    Seq::new(
        n,
        |j: int|
            {
                let s = serpentine(w, j as nat) as int;
                [c0[s], c1[s], c2[s]]
            },
    )
}

/// The image an SPB stream describes, as (width, height, pixels); `None` where it is cut short.
pub open spec fn spb_decode(bytes: Seq<u8>) -> Option<(u16, u16, Seq<[u8; 3]>)> {
    let bits = bits_of_bytes(bytes);
    if bits.len() < 32 {
        None
    } else {
        let w = field_value(bits, 0, 16);
        let h = field_value(bits, 16, 16);
        let n = w * h;
        match decode_channel(bits, 32, n) {
            None => None,
            Some((c0, p0)) => match decode_channel(bits, p0, n) {
                None => None,
                Some((c1, p1)) => match decode_channel(bits, p1, n) {
                    None => None,
                    Some((c2, p2)) => Some((w as u16, h as u16, pixels_of_channels(w, n, c0, c1, c2))),
                },
            },
        }
    }
}

// Encoding.
proof fn lemma_min_bits_bound(v: nat, k: nat)
    requires
        v < two_pow(k),
    ensures
        spec_min_bits(v) <= k,
        v < two_pow(spec_min_bits(v)),
    decreases v,
{
    if v > 0 {
        lemma_min_bits_bound(v / 2, (k - 1) as nat);
    }
}

proof fn lemma_two_pow_8()
    ensures
        two_pow(8) == 256,
        two_pow(3) == 8,
        two_pow(1) == 2,
{
    reveal_with_fuel(two_pow, 9);
}

/// The number of bits needed to write `value`.
fn min_bits(value: u8) -> (r: u8)
    ensures
        r as nat == spec_min_bits(value as nat),
        r <= 8,
{
    proof {
        lemma_two_pow_8();
        lemma_min_bits_bound(value as nat, 8);
    }
    if value == 0 {
        return 0;
    }
    let ghost initial = value;
    let mut value = value;
    let mut bits: u8 = 1;
    value = value / 2;
    while value != 0
        invariant
            bits as nat + spec_min_bits(value as nat) == spec_min_bits(initial as nat),
            spec_min_bits(initial as nat) <= 8,
        decreases value,
    {
        value = value / 2;
        bits = bits + 1;
    }
    bits
}

/// One coded move: whether it adds, and its magnitude.
#[derive(Clone, Copy)]
struct SpbDifference {
    add_difference: bool,
    difference: u8,
}

/// The four moves of a chunk and the width, in bits, of the widest magnitude.
struct SpbDifferences {
    differences: [SpbDifference; 4],
    bits_to_read: u8,
}

/// The four kinds of chunk.
enum SpbHeader {
    Stamp4,
    ReadBits(SpbDifferences),
    Read4,
    ReadBitPlusOne(SpbDifferences),
}

spec fn chunk_prev(prev: u8, q: Seq<u8>, k: int) -> u8 {
    if k == 0 {
        prev
    } else {
        q[k - 1]
    }
}

spec fn differences_match(d: SpbDifferences, prev: u8, q: Seq<u8>) -> bool {
    &&& d.bits_to_read as nat == chunk_max_bits(prev, q)
    &&& forall|k: int|
        0 <= k < 4 ==> {
            &&& (#[trigger] d.differences@[k]).add_difference == step_add(chunk_prev(prev, q, k), q[k])
            &&& d.differences@[k].difference as nat == step_mag(chunk_prev(prev, q, k), q[k])
        }
}

spec fn window_samples(bytes: [[u8; 3]; 4], channel: int) -> Seq<u8> {
    seq![bytes[0][channel], bytes[1][channel], bytes[2][channel], bytes[3][channel]]
}

/// Chooses the chunk kind for four samples of one channel after `last_byte`.
fn bit_distances(last_byte: u8, channel: usize, bytes: &[[u8; 3]; 4]) -> (r: SpbHeader)
    requires
        channel < 3,
    ensures
        ({
            let q = window_samples(*bytes, channel as int);
            match r {
                SpbHeader::Stamp4 => chunk_header(last_byte, q) == 0,
                SpbHeader::Read4 => chunk_header(last_byte, q) == 6,
                SpbHeader::ReadBitPlusOne(d) => chunk_header(last_byte, q) == 7
                    && differences_match(d, last_byte, q),
                SpbHeader::ReadBits(d) => 1 <= chunk_header(last_byte, q) <= 5
                    && differences_match(d, last_byte, q),
            }
        }),
{
    let ghost q = window_samples(*bytes, channel as int);
    let ghost prev0 = last_byte;
    let mut last_byte = last_byte;
    let mut differences: [SpbDifference; 4] = [SpbDifference { add_difference: false, difference: 0 }; 4];
    let mut max_bits_to_read: u8 = 0;
    let mut implicit_add = false;
    let mut i: usize = 0;
    while i < 4
        invariant
            i <= 4,
            channel < 3,
            q == window_samples(*bytes, channel as int),
            last_byte == chunk_prev(prev0, q, i as int),
            max_bits_to_read <= 8,
            forall|k: int|
                0 <= k < i ==> {
                    &&& (#[trigger] differences@[k]).add_difference == step_add(chunk_prev(prev0, q, k), q[k])
                    &&& differences@[k].difference as nat == step_mag(chunk_prev(prev0, q, k), q[k])
                },
            max_bits_to_read as nat == (if i == 0 {
                0
            } else if i == 1 {
                spec_min_bits(step_mag(prev0, q[0]))
            } else if i == 2 {
                max_nat(spec_min_bits(step_mag(prev0, q[0])), spec_min_bits(step_mag(q[0], q[1])))
            } else if i == 3 {
                max_nat(
                    max_nat(spec_min_bits(step_mag(prev0, q[0])), spec_min_bits(step_mag(q[0], q[1]))),
                    spec_min_bits(step_mag(q[1], q[2])),
                )
            } else {
                chunk_max_bits(prev0, q)
            }),
            implicit_add == (if i == 0 {
                false
            } else if i == 1 {
                step_add(prev0, q[0])
            } else if i == 2 {
                step_add(prev0, q[0]) || step_add(q[0], q[1])
            } else if i == 3 {
                step_add(prev0, q[0]) || step_add(q[0], q[1]) || step_add(q[1], q[2])
            } else {
                chunk_any_add(prev0, q)
            }),
        decreases 4 - i,
    {
        let channel_byte = bytes[i][channel];
        let add_difference: bool = last_byte < channel_byte;
        let difference = if add_difference {
            implicit_add = true;
            channel_byte - last_byte - 1
        } else {
            last_byte - channel_byte
        };
        last_byte = channel_byte;
        let bits = min_bits(difference);
        if bits > max_bits_to_read {
            max_bits_to_read = bits;
        }
        differences[i] = SpbDifference { add_difference, difference };
        i = i + 1;
    }
    if max_bits_to_read == 0 {
        if implicit_add {
            SpbHeader::ReadBitPlusOne(SpbDifferences { differences, bits_to_read: max_bits_to_read })
        } else {
            SpbHeader::Stamp4
        }
    } else if max_bits_to_read == 1 {
        SpbHeader::ReadBitPlusOne(SpbDifferences { differences, bits_to_read: max_bits_to_read })
    } else if max_bits_to_read <= 6 {
        SpbHeader::ReadBits(SpbDifferences { differences, bits_to_read: max_bits_to_read })
    } else {
        SpbHeader::Read4
    }
}

proof fn lemma_chunk_bits_len(prev: u8, q: Seq<u8>)
    requires
        q.len() == 4,
    ensures
        chunk_bits(prev, q).len() <= 35,
{
    let mb = chunk_max_bits(prev, q);
    let h = chunk_header(prev, q);
    lemma_field_bits_len(h, 3);
    lemma_field_bits_len(mb, 1);
    lemma_field_bits_len(q[0] as nat, 8);
    lemma_field_bits_len(q[1] as nat, 8);
    lemma_field_bits_len(q[2] as nat, 8);
    lemma_field_bits_len(q[3] as nat, 8);
    lemma_field_bits_len(step_code(prev, q[0]), mb + 1);
    lemma_field_bits_len(step_code(q[0], q[1]), mb + 1);
    lemma_field_bits_len(step_code(q[1], q[2]), mb + 1);
    lemma_field_bits_len(step_code(q[2], q[3]), mb + 1);
}

/// Writes the four move fields of a chunk, each `width` bits wide.
fn write_codes(bitstream: &mut BitWriter, d: &SpbDifferences, width: usize, Ghost(prev): Ghost<u8>, Ghost(q): Ghost<Seq<u8>>)
    requires
        old(bitstream).wf(),
        old(bitstream).bit_len + 32 < usize::MAX - 8,
        width <= 8,
        differences_match(*d, prev, q),
    ensures
        final(bitstream).wf(),
        final(bitstream)@ == old(bitstream)@ + chunk_codes(prev, q, width as nat),
        final(bitstream).bit_len == old(bitstream).bit_len + 4 * width,
{
    let ghost start = bitstream@;
    let mut k: usize = 0;
    while k < 4
        invariant
            k <= 4,
            width <= 8,
            differences_match(*d, prev, q),
            bitstream.wf(),
            bitstream.bit_len == old(bitstream).bit_len + k * width,
            old(bitstream).bit_len + 32 < usize::MAX - 8,
            bitstream@ == start + (if k == 0 {
                Seq::<bool>::empty()
            } else if k == 1 {
                field_bits(step_code(prev, q[0]), width as nat)
            } else if k == 2 {
                field_bits(step_code(prev, q[0]), width as nat) + field_bits(step_code(q[0], q[1]), width as nat)
            } else if k == 3 {
                field_bits(step_code(prev, q[0]), width as nat) + field_bits(step_code(q[0], q[1]), width as nat)
                    + field_bits(step_code(q[1], q[2]), width as nat)
            } else {
                chunk_codes(prev, q, width as nat)
            }),
        decreases 4 - k,
    {
        let diff = d.differences[k];
        let code: u32 = (diff.difference as u32) * 2 + if diff.add_difference {
            1u32
        } else {
            0u32
        };
        let ghost before = bitstream@;
        bitstream.write_bits(code, width);
        assert(code as nat == step_code(chunk_prev(prev, q, k as int), q[k as int]));
        if k == 0 {
            assert(bitstream@ =~= start + field_bits(step_code(prev, q[0]), width as nat));
        } else if k == 1 {
            assert(bitstream@ =~= start + (field_bits(step_code(prev, q[0]), width as nat) + field_bits(step_code(q[0], q[1]), width as nat)));
        } else if k == 2 {
            assert(bitstream@ =~= start + (field_bits(step_code(prev, q[0]), width as nat) + field_bits(step_code(q[0], q[1]), width as nat)
                    + field_bits(step_code(q[1], q[2]), width as nat)));
        } else {
            assert(bitstream@ =~= start + chunk_codes(prev, q, width as nat));
        }
        k = k + 1;
    }
}

/// Writes the chunk for four samples of one channel after `last_byte`.
fn write_chunk(bitstream: &mut BitWriter, last_byte: u8, channel: usize, window: &[[u8; 3]; 4])
    requires
        old(bitstream).wf(),
        old(bitstream).bit_len + 40 < usize::MAX - 8,
        channel < 3,
    ensures
        final(bitstream).wf(),
        final(bitstream)@ == old(bitstream)@ + chunk_bits(last_byte, window_samples(*window, channel as int)),
        final(bitstream).bit_len <= old(bitstream).bit_len + 35,
{
    let ghost q = window_samples(*window, channel as int);
    let ghost start = bitstream@;
    proof {
        lemma_chunk_bits_len(last_byte, q);
    }
    match bit_distances(last_byte, channel, window) {
        SpbHeader::Stamp4 => {
            bitstream.write_bits(0, 3);
        },
        SpbHeader::Read4 => {
            bitstream.write_bits(6, 3);
            bitstream.write_bits(window[0][channel] as u32, 8);
            bitstream.write_bits(window[1][channel] as u32, 8);
            bitstream.write_bits(window[2][channel] as u32, 8);
            bitstream.write_bits(window[3][channel] as u32, 8);
            assert(bitstream@ =~= start + chunk_bits(last_byte, q));
        },
        SpbHeader::ReadBitPlusOne(differences) => {
            bitstream.write_bits(7, 3);
            let ghost mid = bitstream@;
            bitstream.write_bits(differences.bits_to_read as u32, 1);
            let width = (differences.bits_to_read + 1) as usize;
            write_codes(bitstream, &differences, width, Ghost(last_byte), Ghost(q));
            assert(bitstream@ =~= start + chunk_bits(last_byte, q));
        },
        SpbHeader::ReadBits(differences) => {
            bitstream.write_bits((differences.bits_to_read - 1) as u32, 3);
            let width = (differences.bits_to_read + 1) as usize;
            write_codes(bitstream, &differences, width, Ghost(last_byte), Ghost(q));
            assert(bitstream@ =~= start + chunk_bits(last_byte, q));
        },
    }
}

proof fn lemma_serpentine_bound(w: nat, h: nat, i: nat)
    requires
        w > 0,
        i < w * h,
    ensures
        serpentine(w, i) < w * h,
{
    let y = i / w;
    let x = i % w;
    assert(i == y * w + x) by (nonlinear_arith)
        requires
            w > 0,
            y == i / w,
            x == i % w,
    ;
    assert(y < h) by (nonlinear_arith)
        requires
            i == y * w + x,
            0 <= x,
            i < w * h,
            w > 0,
            y >= 0,
    ;
    assert(y * w + w <= w * h) by (nonlinear_arith)
        requires
            y < h,
            w > 0,
    ;
}

/// The stream position of pixel `i` of a `width`-wide grid.
fn serpentine_index(width: usize, i: usize) -> (r: usize)
    requires
        width > 0,
        i + width < usize::MAX,
    ensures
        r as nat == serpentine(width as nat, i as nat),
{
    let y = i / width;
    let x = i % width;
    if y % 2 == 1 {
        proof {
            assert(y * width + x == i && y * width + width - 1 - x < i + width) by (nonlinear_arith)
                requires
                    width > 0,
                    y == i / width,
                    x == i % width,
            ;
        }
        y * width + (width - 1 - x)
    } else {
        i
    }
}

/// Writes the stream of one channel whose samples, padded, are `s`.
fn write_channel(bitstream: &mut BitWriter, samples: &Vec<[u8; 3]>, channel: usize, n: usize, Ghost(s): Ghost<Seq<u8>>)
    requires
        old(bitstream).wf(),
        old(bitstream).bit_len + 10 * n + 60 < usize::MAX - 8,
        channel < 3,
        n >= 1,
        samples@.len() == n + 4,
        s.len() == n + 4,
        forall|j: int| 0 <= j < n + 4 ==> #[trigger] s[j] == samples@[j][channel as int],
    ensures
        final(bitstream).wf(),
        final(bitstream)@ == old(bitstream)@ + encode_channel(s, n as nat),
        final(bitstream).bit_len <= old(bitstream).bit_len + 10 * n + 60,
{
    let ghost before = bitstream@;
    let first = samples[0][channel];
    bitstream.write_bits(first as u32, 8);
    let mut last_data_byte = first;
    let mut i: usize = 1;
    proof {
        assert(s[0] == first);
        assert(bitstream@ + encode_run(s, last_data_byte, 1, n as nat) =~= before + encode_channel(s, n as nat));
    }
    while i < n
        invariant
            1 <= i <= n + 3,
            channel < 3,
            samples@.len() == n + 4,
            s.len() == n + 4,
            forall|j: int| 0 <= j < n + 4 ==> #[trigger] s[j] == samples@[j][channel as int],
            last_data_byte == s[i - 1],
            bitstream.wf(),
            old(bitstream).bit_len + 10 * n + 60 < usize::MAX - 8,
            bitstream.bit_len <= old(bitstream).bit_len + 8 + 10 * (i - 1),
            bitstream@ + encode_run(s, last_data_byte, i as nat, n as nat) == before + encode_channel(s, n as nat),
        decreases n + 4 - i,
    {
        let window: [[u8; 3]; 4] = [samples[i], samples[i + 1], samples[i + 2], samples[i + 3]];
        let ghost pre = bitstream@;
        proof {
            assert(window_samples(window, channel as int) =~= s.subrange(i as int, i + 4));
        }
        write_chunk(bitstream, last_data_byte, channel, &window);
        proof {
            assert(bitstream@ + encode_run(s, s[i + 3], (i + 4) as nat, n as nat) =~= pre + encode_run(s, last_data_byte, i as nat, n as nat));
        }
        last_data_byte = samples[i + 3][channel];
        i = i + 4;
    }
    proof {
        assert(encode_run(s, last_data_byte, i as nat, n as nat) == Seq::<bool>::empty());
        assert(bitstream@ =~= before + encode_channel(s, n as nat));
    }
}

/// The bits of the image header and of the channel streams before channel `c`.
pub open spec fn channels_before(img: Image, c: int) -> Seq<bool> {
    let n = img.pixel_buffer@.len();
    let hdr = field_bits(img.width as nat, 16) + field_bits(img.height as nat, 16);
    if c == 0 {
        hdr
    } else if c == 1 {
        hdr + encode_channel(channel_samples(img, 0), n)
    } else if c == 2 {
        hdr + encode_channel(channel_samples(img, 0), n) + encode_channel(channel_samples(img, 1), n)
    } else {
        spb_encode_bits(img)
    }
}

/// Encodes an image as an SPB stream.
pub fn encode_spb(image: &Image) -> (r: Vec<u8>)
    requires
        image.wf(),
        image.pixel_buffer@.len() >= 1,
        40 * image.pixel_buffer@.len() + 1000 < usize::MAX,
    ensures
        bits_of_bytes(r@) == padded(spb_encode_bits(*image)),
{
    let n = image.pixel_buffer.len();
    let width = image.width as usize;
    proof {
        assert(width > 0 && width <= n) by (nonlinear_arith)
            requires
                n == width * (image.height as nat),
                n >= 1,
        ;
    }
    // Pixels in stream order: odd rows run right to left; then four copies of the last one,
    // which let the final chunk read past the end.
    let mut samples: Vec<[u8; 3]> = Vec::new();
    let mut i: usize = 0;
    while i < n
        invariant
            i <= n,
            n == image.pixel_buffer@.len(),
            image.wf(),
            width == image.width as usize,
            width > 0,
            width <= n,
            40 * n + 1000 < usize::MAX,
            samples@.len() == i,
            forall|j: int|
                0 <= j < i ==> #[trigger] samples@[j] == image.pixel_buffer@[serpentine(width as nat, j as nat) as int],
        decreases n - i,
    {
        let idx = serpentine_index(width, i);
        proof {
            lemma_serpentine_bound(width as nat, image.height as nat, i as nat);
        }
        samples.push(image.pixel_buffer[idx]);
        i = i + 1;
    }
    let last_pixel = samples[n - 1];
    samples.push(last_pixel);
    samples.push(last_pixel);
    samples.push(last_pixel);
    samples.push(last_pixel);
    assert forall|c: int, j: int| 0 <= c < 3 && 0 <= j < n + 4 implies #[trigger] channel_samples(*image, c)[j] == samples@[j][c] by {}

    let mut bitstream = BitWriter::new();
    bitstream.write_bits(image.width as u32, 16);
    bitstream.write_bits(image.height as u32, 16);
    assert(bitstream@ =~= channels_before(*image, 0));
    let ghost budget: int = 10 * n + 60;
    let mut channel: usize = 0;
    while channel < 3
        invariant
            channel <= 3,
            n == image.pixel_buffer@.len(),
            n >= 1,
            40 * n + 1000 < usize::MAX,
            budget == 10 * n + 60,
            samples@.len() == n + 4,
            forall|c: int, j: int| 0 <= c < 3 && 0 <= j < n + 4 ==> #[trigger] channel_samples(*image, c)[j] == samples@[j][c],
            bitstream.wf(),
            bitstream@ == channels_before(*image, channel as int),
            channel == 0 ==> bitstream.bit_len <= 32,
            channel == 1 ==> bitstream.bit_len <= 32 + budget,
            channel == 2 ==> bitstream.bit_len <= 32 + 2 * budget,
            channel == 3 ==> bitstream.bit_len <= 32 + 3 * budget,
        decreases 3 - channel,
    {
        let ghost s = channel_samples(*image, channel as int);
        let ghost before = bitstream@;
        write_channel(&mut bitstream, &samples, channel, n, Ghost(s));
        assert(bitstream@ =~= channels_before(*image, channel + 1));
        channel = channel + 1;
    }
    bitstream.into_bytes()
}

// Decoding.
/// Four copies of the previous sample.
fn header_stamp4(last_byte: u8) -> (r: [u8; 4])
    ensures
        r@ == seq![last_byte, last_byte, last_byte, last_byte],
{
    let r = [last_byte; 4];
    assert(r@ =~= seq![last_byte, last_byte, last_byte, last_byte]);
    r
}

/// Four literal 8-bit samples at `pos`.
fn header_read4(buffer: &Vec<u8>, pos: &mut usize) -> (r: [u8; 4])
    requires
        *old(pos) + 32 <= 8 * buffer@.len(),
        *old(pos) + 32 <= usize::MAX,
    ensures
        ({
            let bits = bits_of_bytes(buffer@);
            let p = *old(pos) as int;
            r@ == seq![
                field_value(bits, p, 8) as u8,
                field_value(bits, p + 8, 8) as u8,
                field_value(bits, p + 16, 8) as u8,
                field_value(bits, p + 24, 8) as u8,
            ]
        }),
        *final(pos) == *old(pos) + 32,
{
    let p = *pos;
    let a = read_bits(buffer, p, 8) as u8;
    let b = read_bits(buffer, p + 8, 8) as u8;
    let c = read_bits(buffer, p + 16, 8) as u8;
    let d = read_bits(buffer, p + 24, 8) as u8;
    *pos = p + 32;
    let r = [a, b, c, d];
    assert(r@ =~= seq![a, b, c, d]);
    r
}

/// The sample after `prev` given the move field `k`.
fn apply_move(prev: u8, k: u32) -> (r: u8)
    requires
        k < 256,
    ensures
        r == apply_code(prev, k as nat),
{
    if k % 2 == 1 {
        ((prev as u32 + k / 2 + 1) % 256) as u8
    } else {
        ((prev as u32 + 256 - k / 2) % 256) as u8
    }
}

/// Four samples given by four `bits_to_read`-bit move fields at `pos`.
fn header_bit_compressed(bits_to_read: u8, last_byte: u8, buffer: &Vec<u8>, pos: &mut usize) -> (r: [u8; 4])
    requires
        1 <= bits_to_read <= 7,
        *old(pos) + 4 * bits_to_read <= 8 * buffer@.len(),
        *old(pos) + 4 * bits_to_read <= usize::MAX,
    ensures
        r@ == decode_codes(bits_of_bytes(buffer@), *old(pos) as int, bits_to_read as nat, last_byte),
        *final(pos) == *old(pos) + 4 * bits_to_read,
{
    let ghost bits = bits_of_bytes(buffer@);
    let n = bits_to_read as usize;
    let p = *pos;
    proof {
        lemma_two_pow_8();
        lemma_two_pow_mono(n as nat, 8);
        lemma_field_value_bound(bits, p as int, n as nat);
        lemma_field_value_bound(bits, p + n, n as nat);
        lemma_field_value_bound(bits, p + 2 * n, n as nat);
        lemma_field_value_bound(bits, p + 3 * n, n as nat);
    }
    let a = apply_move(last_byte, read_bits(buffer, p, n));
    let b = apply_move(a, read_bits(buffer, p + n, n));
    let c = apply_move(b, read_bits(buffer, p + 2 * n, n));
    let d = apply_move(c, read_bits(buffer, p + 3 * n, n));
    *pos = p + 4 * n;
    let r = [a, b, c, d];
    assert(r@ =~= seq![a, b, c, d]);
    r
}

/// Decodes the chunk at `pos`, or `None` where it does not fit in the buffer.
fn decode_one_chunk(buffer: &Vec<u8>, pos: &mut usize, last_byte: u8) -> (r: Option<[u8; 4]>)
    requires
        8 * buffer@.len() <= usize::MAX,
        *old(pos) <= 8 * buffer@.len(),
    ensures
        ({
            let bits = bits_of_bytes(buffer@);
            let p = *old(pos) as int;
            match r {
                None => !chunk_fits(bits, p),
                Some(c) => chunk_fits(bits, p) && c@ == decode_chunk(bits, p, last_byte) && *final(pos) == p
                    + chunk_len(bits, p),
            }
        }),
{
    let ghost bits = bits_of_bytes(buffer@);
    let total = buffer.len() * 8;
    let p = *pos;
    if total - p < 3 {
        return None;
    }
    let header = read_bits(buffer, p, 3);
    if header == 0 {
        *pos = p + 3;
        Some(header_stamp4(last_byte))
    } else if header == 6 {
        if total - p < 35 {
            return None;
        }
        *pos = p + 3;
        Some(header_read4(buffer, pos))
    } else if header == 7 {
        if total - p < 4 {
            return None;
        }
        let extra = read_bits(buffer, p + 3, 1);
        proof {
            lemma_two_pow_8();
            lemma_field_value_bound(bits, p + 3, 1);
        }
        let width = (extra + 1) as u8;
        if total - p < 4 + 4 * (width as usize) {
            return None;
        }
        *pos = p + 4;
        Some(header_bit_compressed(width, last_byte, buffer, pos))
    } else {
        proof {
            lemma_two_pow_8();
            lemma_field_value_bound(bits, p as int, 3);
        }
        let width = (header + 2) as u8;
        if total - p < 3 + 4 * (width as usize) {
            return None;
        }
        *pos = p + 3;
        Some(header_bit_compressed(width, last_byte, buffer, pos))
    }
}

/// `out` followed by the samples of a decoded run.
spec fn prepend(out: Seq<u8>, r: Option<(Seq<u8>, int)>) -> Option<(Seq<u8>, int)> {
    match r {
        Some((rest, p)) => Some((out + rest, p)),
        None => None,
    }
}

proof fn lemma_decode_run_step(bits: Seq<bool>, q: int, prev: u8, remaining: int, out: Seq<u8>)
    ensures
        remaining <= 0 ==> decode_run(bits, q, prev, remaining) == Some((Seq::<u8>::empty(), q)),
        remaining > 0 && !chunk_fits(bits, q) ==> decode_run(bits, q, prev, remaining) is None,
        remaining > 0 && chunk_fits(bits, q) ==> prepend(out, decode_run(bits, q, prev, remaining)) == prepend(
            out + decode_chunk(bits, q, prev),
            decode_run(bits, q + chunk_len(bits, q), decode_chunk(bits, q, prev)[3], remaining - 4),
        ),
{
    reveal(decode_run);
    let c = decode_chunk(bits, q, prev);
    match decode_run(bits, q + chunk_len(bits, q), c[3], remaining - 4) {
        Some((rest, p)) => {
            assert(out + c + rest =~= out + (c + rest));
        },
        None => {},
    }
}

proof fn lemma_decode_run_end(bits: Seq<bool>, pos: int, prev: u8, remaining: int)
    requires
        pos <= bits.len(),
    ensures
        decode_run(bits, pos, prev, remaining) matches Some((rest, p)) ==> p <= bits.len(),
    decreases remaining + 4,
{
    reveal(decode_run);
    if remaining > 0 && chunk_fits(bits, pos) {
        let c = decode_chunk(bits, pos, prev);
        lemma_decode_run_end(bits, pos + chunk_len(bits, pos), c[3], remaining - 4);
    }
}

proof fn lemma_decode_run_len(bits: Seq<bool>, pos: int, prev: u8, remaining: int)
    ensures
        decode_run(bits, pos, prev, remaining) matches Some((rest, p)) ==> rest.len() >= remaining,
    decreases remaining + 4,
{
    reveal(decode_run);
    if remaining > 0 && chunk_fits(bits, pos) {
        let c = decode_chunk(bits, pos, prev);
        lemma_decode_run_len(bits, pos + chunk_len(bits, pos), c[3], remaining - 4);
    }
}

/// Decodes the stream of one channel of `n` samples at `pos`.
#[verifier::rlimit(40)]
fn decode_channel_at(buffer: &Vec<u8>, pos: &mut usize, n: usize) -> (r: Option<Vec<u8>>)
    requires
        8 * buffer@.len() <= usize::MAX,
        *old(pos) <= 8 * buffer@.len(),
        n < usize::MAX - 8,
    ensures
        match decode_channel(bits_of_bytes(buffer@), *old(pos) as int, n as nat) {
            None => r is None,
            Some((c, p)) => r matches Some(v) && v@ == c && *final(pos) == p && p <= 8 * buffer@.len(),
        },
{
    let ghost bits = bits_of_bytes(buffer@);
    let ghost p0 = *pos as int;
    let total = buffer.len() * 8;
    if total - *pos < 8 {
        return None;
    }
    proof {
        lemma_two_pow_8();
        lemma_field_value_bound(bits, p0, 8);
        lemma_decode_run_end(bits, p0 + 8, field_value(bits, p0, 8) as u8, n - 1);
    }
    let first = read_bits(buffer, *pos, 8) as u8;
    *pos = *pos + 8;
    let mut out: Vec<u8> = Vec::new();
    out.push(first);
    let mut last_byte = first;
    let mut i: usize = 1;
    proof {
        assert(out@ =~= seq![first]);
        assert(first == field_value(bits, p0, 8) as u8);
    }
    while i < n
        invariant
            1 <= i <= n + 3,
            n < usize::MAX - 8,
            8 * buffer@.len() <= usize::MAX,
            total == 8 * buffer@.len(),
            bits == bits_of_bytes(buffer@),
            *pos <= total,
            out@.len() > 0,
            last_byte == out@.last(),
            p0 == *old(pos) as int,
            decode_channel(bits, p0, n as nat) == prepend(out@, decode_run(bits, *pos as int, last_byte, n - i)),
        decreases n + 4 - i,
    {
        let ghost q = *pos as int;
        let chunk = match decode_one_chunk(buffer, pos, last_byte) {
            Some(c) => c,
            None => {
                proof {
                    lemma_decode_run_step(bits, q, last_byte, n - i, out@);
                    assert(decode_run(bits, q, last_byte, n - i) is None);
                    assert(decode_channel(bits, p0, n as nat) is None);
                }
                return None;
            },
        };
        proof {
            lemma_decode_run_step(bits, q, last_byte, n - i, out@);
        }
        let ghost before_out = out@;
        out.push(chunk[0]);
        out.push(chunk[1]);
        out.push(chunk[2]);
        out.push(chunk[3]);
        assert(out@ =~= before_out + chunk@);
        last_byte = chunk[3];
        i = i + 4;
    }
    proof {
        lemma_decode_run_step(bits, *pos as int, last_byte, n - i, out@);
        assert(out@ + Seq::<u8>::empty() =~= out@);
    }
    Some(out)
}

proof fn lemma_decode_channel_len(bits: Seq<bool>, pos: int, n: nat)
    ensures
        decode_channel(bits, pos, n) matches Some((c, p)) ==> c.len() >= n,
{
    if pos + 8 <= bits.len() {
        lemma_decode_run_len(bits, pos + 8, field_value(bits, pos, 8) as u8, n - 1);
    }
}

/// Why an SPB stream could not be decoded.
#[derive(Debug, PartialEq, Eq, Structural)]
pub enum SpbError {
    /// The stream ends before the image it describes is complete.
    NotEnoughData,
}

/// Decodes an SPB stream into its image.
pub fn decode_spb(buffer: Vec<u8>) -> (r: Result<Image, SpbError>)
    requires
        8 * buffer@.len() <= usize::MAX,
    ensures
        match r {
            Ok(img) => spb_decode(buffer@) == Some((img.width, img.height, img.pixel_buffer@)),
            Err(_) => spb_decode(buffer@) is None,
        },
{
    let ghost bits = bits_of_bytes(buffer@);
    if buffer.len() < 4 {
        return Err(SpbError::NotEnoughData);
    }
    let w = read_bits(&buffer, 0, 16);
    let h = read_bits(&buffer, 16, 16);
    proof {
        lemma_field_value_bound(bits, 0, 16);
        lemma_field_value_bound(bits, 16, 16);
        reveal_with_fuel(two_pow, 17);
        assert(w * h <= 65535 * 65535 && (w * h > 0 ==> w > 0)) by (nonlinear_arith)
            requires
                w < 65536,
                h < 65536,
        ;
    }
    let width = w as usize;
    let n = (w as usize) * (h as usize);
    let mut pos: usize = 32;
    let c0 = match decode_channel_at(&buffer, &mut pos, n) {
        Some(c) => c,
        None => {
            return Err(SpbError::NotEnoughData);
        },
    };
    let ghost p0 = pos;
    let c1 = match decode_channel_at(&buffer, &mut pos, n) {
        Some(c) => c,
        None => {
            return Err(SpbError::NotEnoughData);
        },
    };
    let ghost p1 = pos;
    let c2 = match decode_channel_at(&buffer, &mut pos, n) {
        Some(c) => c,
        None => {
            return Err(SpbError::NotEnoughData);
        },
    };
    proof {
        lemma_decode_channel_len(bits, 32, n as nat);
        lemma_decode_channel_len(bits, p0 as int, n as nat);
        lemma_decode_channel_len(bits, p1 as int, n as nat);
    }
    let mut pixel_buffer: Vec<[u8; 3]> = Vec::new();
    let mut j: usize = 0;
    while j < n
        invariant
            j <= n,
            n == w * h,
            width == w,
            n > 0 ==> width > 0,
            width < 65536,
            c0@.len() >= n,
            c1@.len() >= n,
            c2@.len() >= n,
            n <= 65535 * 65535,
            pixel_buffer@.len() == j,
            forall|k: int| 0 <= k < j ==> #[trigger] pixel_buffer@[k] == pixels_of_channels(width as nat, n as nat, c0@, c1@, c2@)[k],
        decreases n - j,
    {
        let s = serpentine_index(width, j);
        proof {
            lemma_serpentine_bound(width as nat, h as nat, j as nat);
        }
        pixel_buffer.push([c0[s], c1[s], c2[s]]);
        j = j + 1;
    }
    assert(pixel_buffer@ =~= pixels_of_channels(width as nat, n as nat, c0@, c1@, c2@));
    Ok(Image { pixel_buffer, width: w as u16, height: h as u16 })
}

// Round trip.
proof fn lemma_byte_from_bits(x: u8, y: u8)
    requires
        (x >> 7u8) & 1u8 == (y >> 7u8) & 1u8,
        (x >> 6u8) & 1u8 == (y >> 6u8) & 1u8,
        (x >> 5u8) & 1u8 == (y >> 5u8) & 1u8,
        (x >> 4u8) & 1u8 == (y >> 4u8) & 1u8,
        (x >> 3u8) & 1u8 == (y >> 3u8) & 1u8,
        (x >> 2u8) & 1u8 == (y >> 2u8) & 1u8,
        (x >> 1u8) & 1u8 == (y >> 1u8) & 1u8,
        (x >> 0u8) & 1u8 == (y >> 0u8) & 1u8,
    ensures
        x == y,
{
    assert(x == y) by (bit_vector)
        requires
            (x >> 7u8) & 1u8 == (y >> 7u8) & 1u8,
            (x >> 6u8) & 1u8 == (y >> 6u8) & 1u8,
            (x >> 5u8) & 1u8 == (y >> 5u8) & 1u8,
            (x >> 4u8) & 1u8 == (y >> 4u8) & 1u8,
            (x >> 3u8) & 1u8 == (y >> 3u8) & 1u8,
            (x >> 2u8) & 1u8 == (y >> 2u8) & 1u8,
            (x >> 1u8) & 1u8 == (y >> 1u8) & 1u8,
            (x >> 0u8) & 1u8 == (y >> 0u8) & 1u8,
    ;
}

proof fn lemma_same_bit(a: Seq<u8>, b: Seq<u8>, i: int)
    requires
        bits_of_bytes(a) == bits_of_bytes(b),
        0 <= i < 8 * a.len(),
    ensures
        bit_of(a, i) == bit_of(b, i),
{
    assert(bits_of_bytes(a).len() == 8 * a.len());
    assert(bits_of_bytes(b).len() == 8 * b.len());
    assert(bits_of_bytes(a)[i] == bit_of(a, i));
    assert(bits_of_bytes(b)[i] == bit_of(b, i));
}

/// Bytes are determined by their bits.
pub proof fn lemma_bits_of_bytes_injective(a: Seq<u8>, b: Seq<u8>)
    requires
        bits_of_bytes(a) == bits_of_bytes(b),
    ensures
        a == b,
{
    assert(bits_of_bytes(a).len() == 8 * a.len());
    assert(bits_of_bytes(b).len() == 8 * b.len());
    assert(a.len() == b.len());
    assert forall|k: int| 0 <= k < a.len() implies a[k] == b[k] by {
        lemma_fundamental_div_mod_converse(8 * k + 0, 8, k, 0);
        lemma_same_bit(a, b, 8 * k + 0);
        lemma_fundamental_div_mod_converse(8 * k + 1, 8, k, 1);
        lemma_same_bit(a, b, 8 * k + 1);
        lemma_fundamental_div_mod_converse(8 * k + 2, 8, k, 2);
        lemma_same_bit(a, b, 8 * k + 2);
        lemma_fundamental_div_mod_converse(8 * k + 3, 8, k, 3);
        lemma_same_bit(a, b, 8 * k + 3);
        lemma_fundamental_div_mod_converse(8 * k + 4, 8, k, 4);
        lemma_same_bit(a, b, 8 * k + 4);
        lemma_fundamental_div_mod_converse(8 * k + 5, 8, k, 5);
        lemma_same_bit(a, b, 8 * k + 5);
        lemma_fundamental_div_mod_converse(8 * k + 6, 8, k, 6);
        lemma_same_bit(a, b, 8 * k + 6);
        lemma_fundamental_div_mod_converse(8 * k + 7, 8, k, 7);
        lemma_same_bit(a, b, 8 * k + 7);
        let x = a[k];
        let y = b[k];
        assert((x >> 7u8) & 1u8 == 1u8 <==> (y >> 7u8) & 1u8 == 1u8);
        assert((x >> 7u8) & 1u8 <= 1u8 && (y >> 7u8) & 1u8 <= 1u8) by (bit_vector);
        assert((x >> 6u8) & 1u8 <= 1u8 && (y >> 6u8) & 1u8 <= 1u8) by (bit_vector);
        assert((x >> 5u8) & 1u8 <= 1u8 && (y >> 5u8) & 1u8 <= 1u8) by (bit_vector);
        assert((x >> 4u8) & 1u8 <= 1u8 && (y >> 4u8) & 1u8 <= 1u8) by (bit_vector);
        assert((x >> 3u8) & 1u8 <= 1u8 && (y >> 3u8) & 1u8 <= 1u8) by (bit_vector);
        assert((x >> 2u8) & 1u8 <= 1u8 && (y >> 2u8) & 1u8 <= 1u8) by (bit_vector);
        assert((x >> 1u8) & 1u8 <= 1u8 && (y >> 1u8) & 1u8 <= 1u8) by (bit_vector);
        assert((x >> 0u8) & 1u8 <= 1u8 && (y >> 0u8) & 1u8 <= 1u8) by (bit_vector);
        lemma_byte_from_bits(x, y);
    }
    assert(a =~= b);
}

/// The bytes of the SPB stream of an image.
pub open spec fn spb_bytes(img: Image) -> Seq<u8> {
    choose|b: Seq<u8>| bits_of_bytes(b) == padded(spb_encode_bits(img))
}

proof fn lemma_split(bits: Seq<bool>, pos: int, a: Seq<bool>, b: Seq<bool>)
    requires
        0 <= pos,
        pos + a.len() + b.len() <= bits.len(),
        bits.subrange(pos, pos + a.len() + b.len()) == a + b,
    ensures
        bits.subrange(pos, pos + a.len()) == a,
        bits.subrange(pos + a.len(), pos + a.len() + b.len()) == b,
{
    assert(bits.subrange(pos, pos + a.len()) =~= (a + b).subrange(0, a.len() as int));
    assert(bits.subrange(pos + a.len(), pos + a.len() + b.len()) =~= (a + b).subrange(
        a.len() as int,
        (a.len() + b.len()) as int,
    ));
}

proof fn lemma_read_field(bits: Seq<bool>, pos: int, v: nat, n: nat)
    requires
        0 <= pos,
        pos + n <= bits.len(),
        bits.subrange(pos, pos + n) == field_bits(v, n),
        v < two_pow(n),
    ensures
        field_value(bits, pos, n) == v,
{
    lemma_field_round_trip(bits, pos, v, n);
    lemma_small_mod(v, two_pow(n));
}

proof fn lemma_chunk_codes_len(prev: u8, q: Seq<u8>, w: nat)
    ensures
        chunk_codes(prev, q, w).len() == 4 * w,
{
    lemma_field_bits_len(step_code(prev, q[0]), w);
    lemma_field_bits_len(step_code(q[0], q[1]), w);
    lemma_field_bits_len(step_code(q[1], q[2]), w);
    lemma_field_bits_len(step_code(q[2], q[3]), w);
}

proof fn lemma_min_bits_zero(v: nat)
    ensures
        spec_min_bits(v) == 0 <==> v == 0,
{
}

/// A move field fits in one bit more than the chunk's widest magnitude, and decodes to its sample.
proof fn lemma_step_code(prev: u8, s: u8, mb: nat)
    requires
        spec_min_bits(step_mag(prev, s)) <= mb,
    ensures
        step_code(prev, s) < two_pow(mb + 1),
        apply_code(prev, step_code(prev, s)) == s,
{
    lemma_two_pow_8();
    lemma_min_bits_bound(step_mag(prev, s), 8);
    lemma_two_pow_mono(spec_min_bits(step_mag(prev, s)), mb);
    let c = step_code(prev, s);
    assert(c % 2 == (if step_add(prev, s) { 1nat } else { 0nat }));
    assert(c / 2 == step_mag(prev, s));
}

proof fn lemma_codes_round_trip(bits: Seq<bool>, pos: int, prev: u8, q: Seq<u8>, w: nat)
    requires
        q.len() == 4,
        w >= 1,
        spec_min_bits(step_mag(prev, q[0])) < w,
        spec_min_bits(step_mag(q[0], q[1])) < w,
        spec_min_bits(step_mag(q[1], q[2])) < w,
        spec_min_bits(step_mag(q[2], q[3])) < w,
        0 <= pos,
        pos + 4 * w <= bits.len(),
        bits.subrange(pos, pos + 4 * w) == chunk_codes(prev, q, w),
    ensures
        chunk_codes(prev, q, w).len() == 4 * w,
        decode_codes(bits, pos, w, prev) == q,
{
    let a = field_bits(step_code(prev, q[0]), w);
    let b = field_bits(step_code(q[0], q[1]), w);
    let c = field_bits(step_code(q[1], q[2]), w);
    let d = field_bits(step_code(q[2], q[3]), w);
    lemma_field_bits_len(step_code(prev, q[0]), w);
    lemma_field_bits_len(step_code(q[0], q[1]), w);
    lemma_field_bits_len(step_code(q[1], q[2]), w);
    lemma_field_bits_len(step_code(q[2], q[3]), w);
    lemma_split(bits, pos, a + b + c, d);
    lemma_split(bits, pos, a + b, c);
    lemma_split(bits, pos, a, b);
    let m = (w - 1) as nat;
    lemma_step_code(prev, q[0], m);
    lemma_step_code(q[0], q[1], m);
    lemma_step_code(q[1], q[2], m);
    lemma_step_code(q[2], q[3], m);
    lemma_read_field(bits, pos, step_code(prev, q[0]), w);
    lemma_read_field(bits, pos + w, step_code(q[0], q[1]), w);
    lemma_read_field(bits, pos + 2 * w, step_code(q[1], q[2]), w);
    lemma_read_field(bits, pos + 3 * w, step_code(q[2], q[3]), w);
    assert(decode_codes(bits, pos, w, prev) =~= q);
}

/// Decoding the bits the encoder emits for a chunk gives back its four samples.
#[verifier::rlimit(40)]
proof fn lemma_chunk_round_trip(bits: Seq<bool>, pos: int, prev: u8, q: Seq<u8>)
    requires
        q.len() == 4,
        0 <= pos,
        pos + chunk_bits(prev, q).len() <= bits.len(),
        bits.subrange(pos, pos + chunk_bits(prev, q).len()) == chunk_bits(prev, q),
    ensures
        chunk_fits(bits, pos),
        chunk_len(bits, pos) == chunk_bits(prev, q).len(),
        decode_chunk(bits, pos, prev) == q,
{
    let h = chunk_header(prev, q);
    let mb = chunk_max_bits(prev, q);
    lemma_two_pow_8();
    lemma_field_bits_len(h, 3);
    let hb = field_bits(h, 3);
    let rest = chunk_bits(prev, q).subrange(3, chunk_bits(prev, q).len() as int);
    assert(chunk_bits(prev, q) =~= hb + rest);
    lemma_split(bits, pos, hb, rest);
    lemma_read_field(bits, pos, h, 3);
    if h == 0 {
        lemma_min_bits_zero(step_mag(prev, q[0]));
        lemma_min_bits_zero(step_mag(q[0], q[1]));
        lemma_min_bits_zero(step_mag(q[1], q[2]));
        lemma_min_bits_zero(step_mag(q[2], q[3]));
        assert(decode_chunk(bits, pos, prev) =~= q);
    } else if h == 6 {
        let a = field_bits(q[0] as nat, 8);
        let b = field_bits(q[1] as nat, 8);
        let c = field_bits(q[2] as nat, 8);
        let d = field_bits(q[3] as nat, 8);
        lemma_field_bits_len(q[0] as nat, 8);
        lemma_field_bits_len(q[1] as nat, 8);
        lemma_field_bits_len(q[2] as nat, 8);
        lemma_field_bits_len(q[3] as nat, 8);
        assert(rest == a + b + c + d);
        lemma_split(bits, pos + 3, a + b + c, d);
        lemma_split(bits, pos + 3, a + b, c);
        lemma_split(bits, pos + 3, a, b);
        lemma_read_field(bits, pos + 3, q[0] as nat, 8);
        lemma_read_field(bits, pos + 11, q[1] as nat, 8);
        lemma_read_field(bits, pos + 19, q[2] as nat, 8);
        lemma_read_field(bits, pos + 27, q[3] as nat, 8);
        assert(decode_chunk(bits, pos, prev) =~= q);
    } else if h == 7 {
        let fb = field_bits(mb, 1);
        let codes = chunk_codes(prev, q, mb + 1);
        lemma_field_bits_len(mb, 1);
        lemma_chunk_codes_len(prev, q, mb + 1);
        assert(rest == fb + codes);
        lemma_split(bits, pos + 3, fb, codes);
        lemma_read_field(bits, pos + 3, mb, 1);
        lemma_codes_round_trip(bits, pos + 4, prev, q, mb + 1);
    } else {
        let codes = chunk_codes(prev, q, mb + 1);
        lemma_chunk_codes_len(prev, q, mb + 1);
        assert(rest == codes);
        lemma_codes_round_trip(bits, pos + 3, prev, q, mb + 1);
    }
}

/// The index one past the last sample that chunks from `i` produce, for `n` samples.
pub open spec fn run_end(i: nat, n: nat) -> nat
    decreases n + 4 - i,
{
    if i >= n {
        i
    } else {
        run_end(i + 4, n)
    }
}

#[verifier::rlimit(100)]
proof fn lemma_run_round_trip(bits: Seq<bool>, pos: int, s: Seq<u8>, prev: u8, i: nat, n: nat)
    requires
        s.len() >= n + 3,
        i <= n + 3,
        0 <= pos,
        pos + encode_run(s, prev, i, n).len() <= bits.len(),
        bits.subrange(pos, pos + encode_run(s, prev, i, n).len()) == encode_run(s, prev, i, n),
    ensures
        i <= run_end(i, n),
        i < n ==> run_end(i, n) <= n + 3,
        decode_run(bits, pos, prev, n - i) == Some((s.subrange(i as int, run_end(i, n) as int), pos + encode_run(s, prev, i, n).len())),
    decreases n + 4 - i,
{
    lemma_decode_run_step(bits, pos, prev, n - i, Seq::empty());
    if i >= n {
        assert(s.subrange(i as int, i as int) =~= Seq::<u8>::empty());
    } else {
        let q = s.subrange(i as int, i + 4 as int);
        let cb = chunk_bits(prev, q);
        let tail = encode_run(s, s[i + 3 as int], i + 4, n);
        lemma_split(bits, pos, cb, tail);
        lemma_chunk_round_trip(bits, pos, prev, q);
        assert(q[3] == s[i + 3 as int]);
        lemma_run_round_trip(bits, pos + cb.len(), s, s[i + 3 as int], i + 4, n);
        let r = decode_run(bits, pos + cb.len(), s[i + 3 as int], n - i - 4);
        assert(Seq::<u8>::empty() + q =~= q);
        assert(Seq::<u8>::empty() + s.subrange(i as int, run_end(i, n) as int) =~= s.subrange(i as int, run_end(i, n) as int));
        assert(q + s.subrange(i + 4 as int, run_end(i + 4, n) as int) =~= s.subrange(i as int, run_end(i, n) as int));
    }
}

proof fn lemma_channel_round_trip(bits: Seq<bool>, pos: int, s: Seq<u8>, n: nat)
    requires
        n >= 1,
        s.len() == n + 4,
        0 <= pos,
        pos + encode_channel(s, n).len() <= bits.len(),
        bits.subrange(pos, pos + encode_channel(s, n).len()) == encode_channel(s, n),
    ensures
        n <= run_end(1, n) <= n + 4,
        decode_channel(bits, pos, n) == Some((s.subrange(0, run_end(1, n) as int), pos + encode_channel(s, n).len())),
{
    lemma_two_pow_8();
    let first = field_bits(s[0] as nat, 8);
    let run = encode_run(s, s[0], 1, n);
    lemma_field_bits_len(s[0] as nat, 8);
    lemma_split(bits, pos, first, run);
    lemma_read_field(bits, pos, s[0] as nat, 8);
    lemma_run_round_trip(bits, pos + 8, s, s[0], 1, n);
    lemma_run_end_bound(1, n);
    assert(seq![s[0]] + s.subrange(1, run_end(1, n) as int) =~= s.subrange(0, run_end(1, n) as int));
}

proof fn lemma_run_end_bound(i: nat, n: nat)
    ensures
        n <= run_end(i, n) || i > n,
        i <= run_end(i, n),
        i <= n ==> run_end(i, n) <= n + 3,
    decreases n + 4 - i,
{
    if i < n {
        lemma_run_end_bound(i + 4, n);
    }
}

proof fn lemma_serpentine_involution(w: nat, h: nat, i: nat)
    requires
        w > 0,
        i < w * h,
    ensures
        serpentine(w, serpentine(w, i)) == i,
{
    let y = i / w;
    let x = i % w;
    lemma_fundamental_div_mod(i as int, w as int);
    assert(i == y * w + x) by (nonlinear_arith)
        requires
            i == w * y + x,
    ;
    if y % 2 == 1 {
        let j = y * w + (w - 1 - x);
        lemma_fundamental_div_mod_converse(j as int, w as int, y as int, (w - 1 - x) as int);
    }
}

/// Decoding an encoded image gives back its width, height and pixels.
#[verifier::rlimit(100)]
pub proof fn lemma_spb_round_trip(img: Image, bytes: Seq<u8>)
    requires
        img.wf(),
        img.pixel_buffer@.len() >= 1,
        bits_of_bytes(bytes) == padded(spb_encode_bits(img)),
    ensures
        spb_decode(bytes) == Some((img.width, img.height, img.pixel_buffer@)),
{
    let n = img.pixel_buffer@.len();
    let w = img.width as nat;
    let h = img.height as nat;
    let bits = bits_of_bytes(bytes);
    let e = spb_encode_bits(img);
    let fw = field_bits(w, 16);
    let fh = field_bits(h, 16);
    let s0 = channel_samples(img, 0);
    let s1 = channel_samples(img, 1);
    let s2 = channel_samples(img, 2);
    let e0 = encode_channel(s0, n);
    let e1 = encode_channel(s1, n);
    let e2 = encode_channel(s2, n);
    assert(bits.subrange(0, e.len() as int) =~= e);
    lemma_field_bits_len(w, 16);
    lemma_field_bits_len(h, 16);
    lemma_split(bits, 0, fw + fh + e0 + e1, e2);
    lemma_split(bits, 0, fw + fh + e0, e1);
    lemma_split(bits, 0, fw + fh, e0);
    lemma_split(bits, 0, fw, fh);
    reveal_with_fuel(two_pow, 17);
    lemma_read_field(bits, 0, w, 16);
    lemma_read_field(bits, 16, h, 16);
    lemma_channel_round_trip(bits, 32, s0, n);
    lemma_channel_round_trip(bits, 32 + e0.len() as int, s1, n);
    lemma_channel_round_trip(bits, 32 + e0.len() as int + e1.len() as int, s2, n);
    lemma_run_end_bound(1, n);
    lemma_pixels_round_trip(img, run_end(1, n) as int);
}

proof fn lemma_pixels_round_trip(img: Image, end: int)
    requires
        img.wf(),
        img.pixel_buffer@.len() >= 1,
        img.pixel_buffer@.len() <= end <= img.pixel_buffer@.len() + 4,
    ensures
        pixels_of_channels(
            img.width as nat,
            img.pixel_buffer@.len(),
            channel_samples(img, 0).subrange(0, end),
            channel_samples(img, 1).subrange(0, end),
            channel_samples(img, 2).subrange(0, end),
        ) == img.pixel_buffer@,
{
    let n = img.pixel_buffer@.len();
    let w = img.width as nat;
    let h = img.height as nat;
    let c0 = channel_samples(img, 0).subrange(0, end);
    let c1 = channel_samples(img, 1).subrange(0, end);
    let c2 = channel_samples(img, 2).subrange(0, end);
    assert(w > 0) by (nonlinear_arith)
        requires
            n == w * h,
            n >= 1,
    ;
    assert forall|j: int| 0 <= j < n implies #[trigger] pixels_of_channels(w, n, c0, c1, c2)[j]
        == img.pixel_buffer@[j] by {
        lemma_serpentine_bound(w, h, j as nat);
        lemma_serpentine_involution(w, h, j as nat);
        assert(pixels_of_channels(w, n, c0, c1, c2)[j] =~= img.pixel_buffer@[j]);
    }
    assert(pixels_of_channels(w, n, c0, c1, c2) =~= img.pixel_buffer@);
}

} // verus!
