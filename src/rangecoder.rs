//! The binary range decoder of LZMA over one chunk's packed bytes.
//!
//! Reading past the end of the chunk does not stop the decoder: it feeds
//! zero bytes and raises the sticky `exhausted` flag, which the symbol loop
//! turns into a decode error.
use vstd::prelude::*;
use vstd::arithmetic::power2::{pow2, lemma_pow2_unfold, lemma_pow2_strictly_increases, lemma2_to64};
use crate::bigendian::{be32, read_be_u32};

verus! {

/// The largest value an adaptive probability may hold (`1.0` in 11-bit fixed point).
pub const PROB_ONE: u16 = 0x800;

/// The initial, neutral value of every adaptive probability.
pub const PROB_INIT: u16 = 0x400;

#[derive(Clone, Copy, Debug, PartialEq, Eq)]
pub struct RangeDecoder {
    pub code: u32,
    pub range: u32,
    /// Index of the next byte to read in the chunk.
    pub pos: usize,
    /// Set once a byte past the end of the chunk was asked for.
    pub exhausted: bool,
}

/// Every probability of a model is at most `PROB_ONE`.
pub open spec fn probs_valid(probs: Seq<u16>) -> bool {
    forall|i: int| 0 <= i < probs.len() ==> #[trigger] probs[i] <= PROB_ONE
}

/// Whether the decoder's cursor lies within (or just past) the chunk.
pub open spec fn rc_valid(rc: RangeDecoder, data: Seq<u8>) -> bool {
    rc.pos <= data.len()
}

/// The decoder after the five initial bytes of a chunk: the first is
/// ignored, the next four are the big-endian start value of `code`.
pub open spec fn rc_init(data: Seq<u8>) -> RangeDecoder
    recommends
        data.len() >= 5,
{
    RangeDecoder {
        code: be32(data[1], data[2], data[3], data[4]) as u32,
        range: 0xFFFF_FFFF,
        pos: 5,
        exhausted: false,
    }
}

/// Shifts one more byte into `code` once `range` has dropped below 2^24.
pub open spec fn normalize(rc: RangeDecoder, data: Seq<u8>) -> RangeDecoder {
    if rc.range < 0x0100_0000 {
        let (byte, pos, exhausted) = if rc.pos < data.len() {
            (data[rc.pos as int], (rc.pos + 1) as usize, rc.exhausted)
        } else {
            (0u8, rc.pos, true)
        };
        RangeDecoder {
            code: ((rc.code % 0x0100_0000) * 256 + byte) as u32,
            range: (rc.range * 256) as u32,
            pos,
            exhausted,
        }
    } else {
        rc
    }
}

/// One bit decoded with the adaptive probability `p` (of a zero bit):
/// the new decoder, the updated probability and the bit.
pub open spec fn decode_bit_spec(rc: RangeDecoder, p: u16, data: Seq<u8>) -> (RangeDecoder, u16, bool) {
    let bound = (rc.range / 2048) * p;
    if rc.code < bound {
        (
            normalize(RangeDecoder { range: bound as u32, ..rc }, data),
            (p + (PROB_ONE - p) / 32) as u16,
            false,
        )
    } else {
        (
            normalize(RangeDecoder { code: (rc.code - bound) as u32, range: (rc.range - bound) as u32, ..rc }, data),
            (p - p / 32) as u16,
            true,
        )
    }
}

/// One bit decoded with the fixed probability one half.
pub open spec fn direct_bit_spec(rc: RangeDecoder, data: Seq<u8>) -> (RangeDecoder, bool) {
    let half = rc.range / 2;
    if rc.code >= half {
        (normalize(RangeDecoder { code: (rc.code - half) as u32, range: half as u32, ..rc }, data), true)
    } else {
        (normalize(RangeDecoder { range: half as u32, ..rc }, data), false)
    }
}

/// `n` direct bits, most significant first, appended to `acc`.
pub open spec fn direct_bits_spec(rc: RangeDecoder, n: nat, acc: nat, data: Seq<u8>) -> (RangeDecoder, nat)
    decreases n,
{
    if n == 0 {
        (rc, acc)
    } else {
        let (rc1, b) = direct_bit_spec(rc, data);
        direct_bits_spec(rc1, (n - 1) as nat, acc * 2 + if b { 1nat } else { 0 }, data)
    }
}

/// Walks `left` more levels of a bit tree whose probabilities start at
/// `base`, from node `m`; the result is the leaf reached.
pub open spec fn tree_spec(rc: RangeDecoder, probs: Seq<u16>, base: int, m: nat, left: nat, data: Seq<u8>) -> (RangeDecoder, Seq<u16>, nat)
    decreases left,
{
    if left == 0 {
        (rc, probs, m)
    } else {
        let (rc1, p1, b) = decode_bit_spec(rc, probs[base + m], data);
        tree_spec(rc1, probs.update(base + m, p1), base, m * 2 + if b { 1nat } else { 0 }, (left - 1) as nat, data)
    }
}

/// Walks `left` more levels of a bit tree, least significant bit first:
/// each decoded bit adds `weight` to `acc`, and `weight` doubles.
pub open spec fn reverse_tree_spec(
    rc: RangeDecoder,
    probs: Seq<u16>,
    base: int,
    m: nat,
    weight: nat,
    acc: nat,
    left: nat,
    data: Seq<u8>,
) -> (RangeDecoder, Seq<u16>, nat)
    decreases left,
{
    if left == 0 {
        (rc, probs, acc)
    } else {
        let (rc1, p1, b) = decode_bit_spec(rc, probs[base + m], data);
        reverse_tree_spec(
            rc1,
            probs.update(base + m, p1),
            base,
            m * 2 + if b { 1nat } else { 0 },
            weight * 2,
            acc + if b { weight } else { 0 },
            (left - 1) as nat,
            data,
        )
    }
}

impl RangeDecoder {
    /// Starts decoding a chunk; `None` when it holds fewer than five bytes.
    pub fn new(data: &[u8]) -> (r: Option<RangeDecoder>)
        ensures
            data@.len() < 5 ==> r.is_none(),
            data@.len() >= 5 ==> r == Some(rc_init(data@)),
    {
        if data.len() < 5 {
            None
        } else {
            let code = read_be_u32(data, 1);
            Some(RangeDecoder { code, range: 0xFFFF_FFFF, pos: 5, exhausted: false })
        }
    }

    fn normalize(&mut self, data: &[u8])
        requires
            rc_valid(*old(self), data@),
        ensures
            *final(self) == normalize(*old(self), data@),
            rc_valid(*final(self), data@),
    {
        if self.range < 0x0100_0000 {
            let byte: u8 = if self.pos < data.len() {
                let b = data[self.pos];
                self.pos = self.pos + 1;
                b
            } else {
                self.exhausted = true;
                0
            };
            self.code = (self.code % 0x0100_0000) * 256 + byte as u32;
            self.range = self.range * 256;
        }
    }

    /// Decodes one bit with the adaptive probability `prob` and updates it.
    pub fn decode_bit(&mut self, prob: &mut u16, data: &[u8]) -> (b: bool)
        requires
            rc_valid(*old(self), data@),
            *old(prob) <= PROB_ONE,
        ensures
            (*final(self), *final(prob), b) == decode_bit_spec(*old(self), *old(prob), data@),
            rc_valid(*final(self), data@),
            *final(prob) <= PROB_ONE,
    {
        let p = *prob;
        let r = self.range / 2048;
        assert(r * (p as int) <= self.range) by (nonlinear_arith)
            requires
                r == self.range / 2048,
                p <= 2048,
        ;
        let bound: u32 = r * (p as u32);
        if self.code < bound {
            self.range = bound;
            *prob = p + (PROB_ONE - p) / 32;
            self.normalize(data);
            false
        } else {
            self.code = self.code - bound;
            self.range = self.range - bound;
            *prob = p - p / 32;
            self.normalize(data);
            true
        }
    }

    fn decode_direct_bit(&mut self, data: &[u8]) -> (b: bool)
        requires
            rc_valid(*old(self), data@),
        ensures
            (*final(self), b) == direct_bit_spec(*old(self), data@),
            rc_valid(*final(self), data@),
    {
        self.range = self.range / 2;
        if self.code >= self.range {
            self.code = self.code - self.range;
            self.normalize(data);
            true
        } else {
            self.normalize(data);
            false
        }
    }

    /// Decodes `n` bits of probability one half, most significant first.
    pub fn decode_direct_bits(&mut self, n: u32, data: &[u8]) -> (r: u32)
        requires
            rc_valid(*old(self), data@),
            n <= 26,
        ensures
            (*final(self), r as nat) == direct_bits_spec(*old(self), n as nat, 0, data@),
            rc_valid(*final(self), data@),
    {
        let mut acc: u32 = 0;
        let mut i: u32 = 0;
        proof {
            lemma2_to64();
        }
        while i < n
            invariant
                i <= n <= 26,
                acc < pow2(i as nat),
                rc_valid(*self, data@),
                direct_bits_spec(*self, (n - i) as nat, acc as nat, data@)
                    == direct_bits_spec(*old(self), n as nat, 0, data@),
            decreases n - i,
        {
            proof {
                lemma2_to64();
                lemma_pow2_unfold((i + 1) as nat);
                lemma_pow2_strictly_increases(i as nat, 26);
            }
            let b = self.decode_direct_bit(data);
            acc = acc * 2 + if b { 1u32 } else { 0u32 };
            i = i + 1;
        }
        acc
    }

    /// Decodes a `num_bits`-level bit tree over `probs[base..base + 2^num_bits]`,
    /// most significant bit first; returns the leaf index reached.
    pub fn decode_tree(&mut self, probs: &mut Vec<u16>, base: usize, num_bits: u32, data: &[u8]) -> (r: u32)
        requires
            rc_valid(*old(self), data@),
            probs_valid(old(probs)@),
            1 <= num_bits <= 8,
            base + pow2(num_bits as nat) <= old(probs)@.len(),
        ensures
            ({
                let (rc1, p1, m) = tree_spec(*old(self), old(probs)@, base as int, 1, num_bits as nat, data@);
                &&& *final(self) == rc1
                &&& final(probs)@ == p1
                &&& r as nat + pow2(num_bits as nat) == m
            }),
            rc_valid(*final(self), data@),
            probs_valid(final(probs)@),
            final(probs)@.len() == old(probs)@.len(),
            r < pow2(num_bits as nat),
    {
        let mut m: usize = 1;
        let mut i: u32 = 0;
        proof {
            lemma2_to64();
        }
        while i < num_bits
            invariant
                i <= num_bits <= 8,
                pow2(i as nat) <= m < pow2((i + 1) as nat),
                base + pow2(num_bits as nat) <= probs@.len(),
                probs@.len() == old(probs)@.len(),
                rc_valid(*self, data@),
                probs_valid(probs@),
                tree_spec(*self, probs@, base as int, m as nat, (num_bits - i) as nat, data@)
                    == tree_spec(*old(self), old(probs)@, base as int, 1, num_bits as nat, data@),
            decreases num_bits - i,
        {
            proof {
                lemma2_to64();
                lemma_pow2_unfold((i + 1) as nat);
                lemma_pow2_unfold((i + 2) as nat);
                if i + 1 < num_bits {
                    lemma_pow2_strictly_increases((i + 1) as nat, num_bits as nat);
                }
                if num_bits < 8 {
                    lemma_pow2_strictly_increases(num_bits as nat, 8);
                }
                assert(m < pow2(num_bits as nat) <= 256);
            }
            let len = probs.len();
            assert(base + m < len);
            let mut p = probs[base + m];
            let b = self.decode_bit(&mut p, data);
            probs.set(base + m, p);
            m = m * 2 + if b { 1usize } else { 0usize };
            i = i + 1;
        }
        (m - pow2_u32(num_bits) as usize) as u32
    }

    /// Decodes a `num_bits`-level bit tree over `probs[base..]`, least
    /// significant bit first; returns the value it spells.
    pub fn decode_reverse_tree(&mut self, probs: &mut Vec<u16>, base: usize, num_bits: u32, data: &[u8]) -> (r: u32)
        requires
            rc_valid(*old(self), data@),
            probs_valid(old(probs)@),
            1 <= num_bits <= 8,
            base + pow2(num_bits as nat) <= old(probs)@.len(),
        ensures
            ({
                let (rc1, p1, v) = reverse_tree_spec(*old(self), old(probs)@, base as int, 1, 1, 0, num_bits as nat, data@);
                &&& *final(self) == rc1
                &&& final(probs)@ == p1
                &&& r as nat == v
            }),
            rc_valid(*final(self), data@),
            probs_valid(final(probs)@),
            final(probs)@.len() == old(probs)@.len(),
            r < pow2(num_bits as nat),
    {
        let mut m: usize = 1;
        let mut weight: u32 = 1;
        let mut acc: u32 = 0;
        let mut i: u32 = 0;
        proof {
            lemma2_to64();
        }
        while i < num_bits
            invariant
                i <= num_bits <= 8,
                pow2(i as nat) <= m < pow2((i + 1) as nat),
                weight == pow2(i as nat),
                acc < weight,
                base + pow2(num_bits as nat) <= probs@.len(),
                probs@.len() == old(probs)@.len(),
                rc_valid(*self, data@),
                probs_valid(probs@),
                reverse_tree_spec(*self, probs@, base as int, m as nat, weight as nat, acc as nat, (num_bits - i) as nat, data@)
                    == reverse_tree_spec(*old(self), old(probs)@, base as int, 1, 1, 0, num_bits as nat, data@),
            decreases num_bits - i,
        {
            proof {
                lemma2_to64();
                lemma_pow2_unfold((i + 1) as nat);
                lemma_pow2_unfold((i + 2) as nat);
                if i + 1 < num_bits {
                    lemma_pow2_strictly_increases((i + 1) as nat, num_bits as nat);
                }
                if num_bits < 8 {
                    lemma_pow2_strictly_increases(num_bits as nat, 8);
                }
                assert(m < pow2(num_bits as nat) <= 256);
            }
            let len = probs.len();
            assert(base + m < len);
            let mut p = probs[base + m];
            let b = self.decode_bit(&mut p, data);
            probs.set(base + m, p);
            m = m * 2 + if b { 1usize } else { 0usize };
            acc = acc + if b { weight } else { 0u32 };
            weight = weight * 2;
            i = i + 1;
        }
        acc
    }
}

/// `2^n` for the small exponents that LZMA's parameters take.
pub fn pow2_u32(n: u32) -> (r: u32)
    requires
        n <= 31,
    ensures
        r as nat == pow2(n as nat),
{
    proof {
        lemma2_to64();
    }
    let mut r: u32 = 1;
    let mut i: u32 = 0;
    while i < n
        invariant
            i <= n <= 31,
            r as nat == pow2(i as nat),
        decreases n - i,
    {
        proof {
            lemma2_to64();
            lemma_pow2_unfold((i + 1) as nat);
            lemma_pow2_strictly_increases(i as nat, 31);
        }
        r = r * 2;
        i = i + 1;
    }
    r
}

} // verus!
