//! The LZMA symbol decoder: adaptive probability model, 12-state automaton,
//! rep-distance history, and the per-chunk decoding loop.
use vstd::prelude::*;
use vstd::arithmetic::power2::{pow2, lemma_pow2_adds, lemma_pow2_strictly_increases, lemma2_to64};
use crate::rangecoder::{
    RangeDecoder, PROB_INIT, probs_valid, rc_valid, decode_bit_spec, tree_spec, reverse_tree_spec,
    direct_bits_spec, pow2_u32,
};
use crate::lzbuffer::{LzBuffer, copy_allowed, lz_copy};

verus! {

// Offsets of each group of probabilities in the model's single table.
pub const IS_MATCH: usize = 0;
pub const IS_REP: usize = 192;
pub const IS_REP_G0: usize = 204;
pub const IS_REP_G1: usize = 216;
pub const IS_REP_G2: usize = 228;
pub const IS_REP0_LONG: usize = 240;
pub const POS_SLOT: usize = 432;
pub const SPEC_POS: usize = 688;
pub const ALIGN: usize = 803;
pub const LEN_MATCH: usize = 819;
pub const LEN_REP: usize = 1333;
pub const LITERAL: usize = 1847;

/// The distance that marks the end of an LZMA stream; inside an LZMA2 chunk it is an error.
pub const END_MARKER: u64 = 0xFFFF_FFFF;

/// The decoder's state, as the contracts see it.
pub struct DecoderModel {
    pub lc: nat,
    pub lp: nat,
    pub pb: nat,
    pub state: nat,
    pub rep0: u64,
    pub rep1: u64,
    pub rep2: u64,
    pub rep3: u64,
    pub probs: Seq<u16>,
}

/// Number of probabilities for properties `lc` and `lp`.
pub open spec fn model_size(lc: nat, lp: nat) -> nat {
    LITERAL as nat + 0x300 * pow2(lc + lp)
}

pub open spec fn model_wf(d: DecoderModel) -> bool {
    &&& d.lc + d.lp <= 4
    &&& d.pb <= 4
    &&& d.state < 12
    &&& d.probs.len() == model_size(d.lc, d.lp)
    &&& probs_valid(d.probs)
}

/// The model right after a state reset with properties `(lc, lp, pb)`: every
/// probability neutral, automaton in its initial state, rep distances zero.
pub open spec fn reset_model(lc: nat, lp: nat, pb: nat) -> DecoderModel {
    DecoderModel {
        lc,
        lp,
        pb,
        state: 0,
        rep0: 0,
        rep1: 0,
        rep2: 0,
        rep3: 0,
        probs: Seq::new(model_size(lc, lp), |i: int| PROB_INIT),
    }
}

/// The automaton's successor after a literal.
pub open spec fn state_after_literal(s: nat) -> nat {
    if s < 4 { 0 } else if s < 10 { (s - 3) as nat } else { (s - 6) as nat }
}

/// The automaton's successor after a match with a new distance.
pub open spec fn state_after_match(s: nat) -> nat {
    if s < 7 { 7 } else { 10 }
}

/// The automaton's successor after a rep match of full length.
pub open spec fn state_after_rep(s: nat) -> nat {
    if s < 7 { 8 } else { 11 }
}

/// The automaton's successor after a one-byte rep of the last distance.
pub open spec fn state_after_short_rep(s: nat) -> nat {
    if s < 7 { 9 } else { 11 }
}

/// Decodes one bit with probability `idx` of the model.
pub open spec fn model_bit(d: DecoderModel, rc: RangeDecoder, idx: int, data: Seq<u8>) -> (DecoderModel, RangeDecoder, bool) {
    let (rc1, p1, b) = decode_bit_spec(rc, d.probs[idx], data);
    (DecoderModel { probs: d.probs.update(idx, p1), ..d }, rc1, b)
}

/// Decodes a bit tree of the model; the result is the leaf index, less `2^num_bits`.
pub open spec fn model_tree(d: DecoderModel, rc: RangeDecoder, base: int, num_bits: nat, data: Seq<u8>) -> (DecoderModel, RangeDecoder, nat) {
    let (rc1, p1, m) = tree_spec(rc, d.probs, base, 1, num_bits, data);
    (DecoderModel { probs: p1, ..d }, rc1, (m - pow2(num_bits)) as nat)
}

/// Decodes a reversed bit tree of the model.
pub open spec fn model_reverse_tree(d: DecoderModel, rc: RangeDecoder, base: int, num_bits: nat, data: Seq<u8>) -> (DecoderModel, RangeDecoder, nat) {
    let (rc1, p1, v) = reverse_tree_spec(rc, d.probs, base, 1, 1, 0, num_bits, data);
    (DecoderModel { probs: p1, ..d }, rc1, v)
}

/// The position state: the low `pb` bits of the history length.
pub open spec fn pos_state(d: DecoderModel, hist: Seq<u8>) -> nat {
    hist.len() % pow2(d.pb)
}

/// Where the literal coder selected by position and previous byte starts.
pub open spec fn literal_base(d: DecoderModel, hist: Seq<u8>) -> int {
    let prev: nat = if hist.len() == 0 { 0 } else { hist.last() as nat };
    let ctx = (hist.len() % pow2(d.lp)) * pow2(d.lc) + prev / pow2((8 - d.lc) as nat);
    LITERAL as int + 0x300 * ctx
}

/// Plain literal decoding from tree node `sym` up to a full byte (`sym >= 256`).
pub open spec fn literal_plain(d: DecoderModel, rc: RangeDecoder, base: int, sym: nat, data: Seq<u8>) -> (DecoderModel, RangeDecoder, nat)
    decreases (if sym >= 256 { 0 } else { 256 - sym }),
{
    if sym == 0 || sym >= 256 {
        (d, rc, sym)
    } else {
        let (d1, rc1, b) = model_bit(d, rc, base + sym, data);
        literal_plain(d1, rc1, base, sym * 2 + if b { 1nat } else { 0 }, data)
    }
}

/// Matched literal decoding: while the decoded bits agree with those of
/// `mb` (read from bit 7 down), the probabilities used depend on the match bit.
pub open spec fn literal_matched(d: DecoderModel, rc: RangeDecoder, base: int, sym: nat, mb: nat, data: Seq<u8>) -> (DecoderModel, RangeDecoder, nat)
    decreases (if sym >= 256 { 0 } else { 256 - sym }),
{
    if sym == 0 || sym >= 256 {
        (d, rc, sym)
    } else {
        let match_bit: nat = (mb / 128) % 2;
        let (d1, rc1, b) = model_bit(d, rc, base + (1 + match_bit) * 256 + sym, data);
        let bit: nat = if b { 1 } else { 0 };
        if match_bit != bit {
            literal_plain(d1, rc1, base, sym * 2 + bit, data)
        } else {
            literal_matched(d1, rc1, base, sym * 2 + bit, (mb * 2) % 256, data)
        }
    }
}

/// A match length less two, from the length coder at `base`.
pub open spec fn length_spec(d: DecoderModel, rc: RangeDecoder, base: int, ps: nat, data: Seq<u8>) -> (DecoderModel, RangeDecoder, nat) {
    let (d1, rc1, choice) = model_bit(d, rc, base, data);
    if !choice {
        model_tree(d1, rc1, base + 2 + ps * 8, 3, data)
    } else {
        let (d2, rc2, choice2) = model_bit(d1, rc1, base + 1, data);
        if !choice2 {
            let (d3, rc3, v) = model_tree(d2, rc2, base + 130 + ps * 8, 3, data);
            (d3, rc3, v + 8)
        } else {
            let (d3, rc3, v) = model_tree(d2, rc2, base + 258, 8, data);
            (d3, rc3, v + 16)
        }
    }
}

/// A match distance less one, for a match of length `len` plus two.
pub open spec fn distance_spec(d: DecoderModel, rc: RangeDecoder, len: nat, data: Seq<u8>) -> (DecoderModel, RangeDecoder, nat) {
    let len_state: nat = if len > 3 { 3 } else { len };
    let (d1, rc1, slot) = model_tree(d, rc, POS_SLOT + len_state * 64, 6, data);
    if slot < 4 {
        (d1, rc1, slot)
    } else {
        let ndb: nat = (slot / 2 - 1) as nat;
        let base: nat = (2 + slot % 2) * pow2(ndb);
        if slot < 14 {
            let (d2, rc2, v) = model_reverse_tree(d1, rc1, SPEC_POS + base - slot, ndb, data);
            (d2, rc2, base + v)
        } else {
            let (rc2, v) = direct_bits_spec(rc1, (ndb - 4) as nat, 0, data);
            let (d3, rc3, a) = model_reverse_tree(d1, rc2, ALIGN as int, 4, data);
            (d3, rc3, base + v * 16 + a)
        }
    }
}

/// Appends a copy of `len` bytes from distance `dist` when it fits in what
/// the chunk still owes and reaches no further back than the history.
pub open spec fn finish_copy(d: DecoderModel, hist: Seq<u8>, rc: RangeDecoder, dist: nat, len: nat, remaining: nat) -> Option<(DecoderModel, Seq<u8>, RangeDecoder)> {
    if len <= remaining && copy_allowed(hist, dist) {
        Some((d, lz_copy(hist, dist, len), rc))
    } else {
        None
    }
}

/// A literal, once its `is_match` bit (zero) has been decoded.
pub open spec fn literal_symbol(d: DecoderModel, hist: Seq<u8>, rc: RangeDecoder, data: Seq<u8>) -> Option<(DecoderModel, Seq<u8>, RangeDecoder)> {
    let base = literal_base(d, hist);
    if d.state >= 7 {
        if !copy_allowed(hist, (d.rep0 + 1) as nat) {
            None
        } else {
            let mb = hist[hist.len() - (d.rep0 + 1)];
            let (d1, rc1, sym) = literal_matched(d, rc, base, 1, mb as nat, data);
            Some((DecoderModel { state: state_after_literal(d.state), ..d1 }, hist.push((sym - 256) as u8), rc1))
        }
    } else {
        let (d1, rc1, sym) = literal_plain(d, rc, base, 1, data);
        Some((DecoderModel { state: state_after_literal(d.state), ..d1 }, hist.push((sym - 256) as u8), rc1))
    }
}

/// The length and copy of a rep match whose distance is now `d.rep0`.
pub open spec fn rep_tail(d: DecoderModel, hist: Seq<u8>, rc: RangeDecoder, ps: nat, data: Seq<u8>, remaining: nat) -> Option<(DecoderModel, Seq<u8>, RangeDecoder)> {
    let (d1, rc1, len) = length_spec(d, rc, LEN_REP as int, ps, data);
    finish_copy(DecoderModel { state: state_after_rep(d.state), ..d1 }, hist, rc1, (d.rep0 + 1) as nat, len + 2, remaining)
}

/// A rep match, once its `is_match` and `is_rep` bits (both one) have been decoded.
pub open spec fn rep_symbol(d: DecoderModel, hist: Seq<u8>, rc: RangeDecoder, ps: nat, data: Seq<u8>, remaining: nat) -> Option<(DecoderModel, Seq<u8>, RangeDecoder)> {
    let s = d.state;
    let (d1, rc1, g0) = model_bit(d, rc, IS_REP_G0 + s, data);
    if !g0 {
        let (d2, rc2, long) = model_bit(d1, rc1, IS_REP0_LONG + s * 16 + ps, data);
        if !long {
            finish_copy(DecoderModel { state: state_after_short_rep(s), ..d2 }, hist, rc2, (d.rep0 + 1) as nat, 1, remaining)
        } else {
            rep_tail(d2, hist, rc2, ps, data, remaining)
        }
    } else {
        let (d2, rc2, g1) = model_bit(d1, rc1, IS_REP_G1 + s, data);
        if !g1 {
            rep_tail(DecoderModel { rep0: d.rep1, rep1: d.rep0, ..d2 }, hist, rc2, ps, data, remaining)
        } else {
            let (d3, rc3, g2) = model_bit(d2, rc2, IS_REP_G2 + s, data);
            if !g2 {
                rep_tail(DecoderModel { rep0: d.rep2, rep1: d.rep0, rep2: d.rep1, ..d3 }, hist, rc3, ps, data, remaining)
            } else {
                rep_tail(
                    DecoderModel { rep0: d.rep3, rep1: d.rep0, rep2: d.rep1, rep3: d.rep2, ..d3 },
                    hist,
                    rc3,
                    ps,
                    data,
                    remaining,
                )
            }
        }
    }
}

/// A match with a new distance, once its `is_match` (one) and `is_rep` (zero) bits have been decoded.
pub open spec fn match_symbol(d: DecoderModel, hist: Seq<u8>, rc: RangeDecoder, ps: nat, data: Seq<u8>, remaining: nat) -> Option<(DecoderModel, Seq<u8>, RangeDecoder)> {
    let (d1, rc1, len) = length_spec(d, rc, LEN_MATCH as int, ps, data);
    let (d2, rc2, dist) = distance_spec(d1, rc1, len, data);
    if dist == END_MARKER {
        None
    } else {
        finish_copy(
            DecoderModel { state: state_after_match(d.state), rep0: dist as u64, rep1: d.rep0, rep2: d.rep1, rep3: d.rep2, ..d2 },
            hist,
            rc2,
            dist + 1,
            len + 2,
            remaining,
        )
    }
}

/// One symbol: the model, history and range decoder after it, or `None` on a
/// corrupt symbol.
pub open spec fn symbol_spec(d: DecoderModel, hist: Seq<u8>, rc: RangeDecoder, data: Seq<u8>, remaining: nat) -> Option<(DecoderModel, Seq<u8>, RangeDecoder)> {
    let ps = pos_state(d, hist);
    let (d1, rc1, is_match) = model_bit(d, rc, IS_MATCH + d.state * 16 + ps, data);
    if !is_match {
        literal_symbol(d1, hist, rc1, data)
    } else {
        let (d2, rc2, is_rep) = model_bit(d1, rc1, IS_REP + d.state, data);
        if is_rep {
            rep_symbol(d2, hist, rc2, ps, data, remaining)
        } else {
            match_symbol(d2, hist, rc2, ps, data, remaining)
        }
    }
}

/// Decodes symbols until exactly `remaining` more bytes have been produced.
/// `None` when a symbol is corrupt, would overshoot, or needs bytes past the
/// end of the chunk.
pub open spec fn process_spec(d: DecoderModel, hist: Seq<u8>, rc: RangeDecoder, data: Seq<u8>, remaining: nat) -> Option<(DecoderModel, Seq<u8>)>
    decreases remaining,
{
    if remaining == 0 {
        Some((d, hist))
    } else {
        match symbol_spec(d, hist, rc, data, remaining) {
            None => None,
            Some((d1, h1, rc1)) => {
                if rc1.exhausted || h1.len() <= hist.len() || h1.len() > hist.len() + remaining {
                    None
                } else {
                    process_spec(d1, h1, rc1, data, (remaining - (h1.len() - hist.len())) as nat)
                }
            },
        }
    }
}

/// `2^a <= 2^b` for `a <= b <= 64`, with the small powers spelled out.
proof fn lemma_pow2_le(a: nat, b: nat)
    requires
        a <= b <= 64,
    ensures
        1 <= pow2(a) <= pow2(b),
{
    lemma2_to64();
    vstd::arithmetic::power2::lemma_pow2_pos(a);
    if a < b {
        lemma_pow2_strictly_increases(a, b);
    }
}

/// The literal context selects one of `2^(lc + lp)` coders.
proof fn lemma_literal_ctx(len: nat, prev: nat, lc: nat, lp: nat)
    requires
        lc + lp <= 4,
        prev < 256,
    ensures
        (len % pow2(lp)) * pow2(lc) + prev / pow2((8 - lc) as nat) < pow2(lc + lp),
        0x300 * ((len % pow2(lp)) * pow2(lc) + prev / pow2((8 - lc) as nat)) + 0x300 <= 0x300 * pow2(lc + lp),
{
    lemma2_to64();
    lemma_pow2_adds(lc, lp);
    lemma_pow2_adds((8 - lc) as nat, lc);
    lemma_pow2_le(lc, 8);
    lemma_pow2_le(lp, 8);
    lemma_pow2_le((8 - lc) as nat, 8);
    let pl = pow2(lp);
    let pc = pow2(lc);
    let q = pow2((8 - lc) as nat);
    let a = len % pl;
    let b = prev / q;
    assert(q * pc == 256);
    assert(a < pl);
    assert(b < pc) by (nonlinear_arith)
        requires
            prev < q * pc,
            b == prev / q,
            q > 0,
    ;
    assert(a * pc + b < pl * pc) by (nonlinear_arith)
        requires
            a < pl,
            b < pc,
    ;
    assert(pc * pl == pl * pc) by (nonlinear_arith);
    let c = a * pc + b;
    assert(0x300 * c + 0x300 <= 0x300 * (pl * pc)) by (nonlinear_arith)
        requires
            c < pl * pc,
    ;
}

/// For the slots whose extra bits use the position coders (`ndb` extra
/// bits, `bit` the slot's low bit), those coders lie within their group.
proof fn lemma_spec_pos_bounds(ndb: nat, bit: nat)
    requires
        1 <= ndb <= 5,
        bit <= 1,
    ensures
        2 * ndb + 2 + bit <= (2 + bit) * pow2(ndb),
        SPEC_POS + (2 + bit) * pow2(ndb) - (2 * ndb + 2 + bit) + pow2(ndb) <= ALIGN,
{
    lemma2_to64();
    let p = pow2(ndb);
    if ndb == 1 {
        assert(p == 2);
    } else if ndb == 2 {
        assert(p == 4);
    } else if ndb == 3 {
        assert(p == 8);
    } else if ndb == 4 {
        assert(p == 16);
    } else {
        assert(p == 32);
    }
    if bit == 0 {
        assert((2 + bit) * p == 2 * p);
    } else {
        assert((2 + bit) * p == 3 * p);
    }
}

pub struct DecoderState {
    lc: u32,
    lp: u32,
    pb: u32,
    state: usize,
    rep0: u64,
    rep1: u64,
    rep2: u64,
    rep3: u64,
    probs: Vec<u16>,
}

impl View for DecoderState {
    type V = DecoderModel;

    closed spec fn view(&self) -> DecoderModel {
        DecoderModel {
            lc: self.lc as nat,
            lp: self.lp as nat,
            pb: self.pb as nat,
            state: self.state as nat,
            rep0: self.rep0,
            rep1: self.rep1,
            rep2: self.rep2,
            rep3: self.rep3,
            probs: self.probs@,
        }
    }
}

impl DecoderState {
    /// A fresh decoder, with properties `(0, 0, 0)`.
    pub fn new() -> (r: DecoderState)
        ensures
            r@ == reset_model(0, 0, 0),
            model_wf(r@),
    {
        let mut d = DecoderState { lc: 0, lp: 0, pb: 0, state: 0, rep0: 0, rep1: 0, rep2: 0, rep3: 0, probs: Vec::new() };
        d.reset_state(0, 0, 0);
        d
    }

    pub fn lc(&self) -> (r: u32)
        ensures
            r as nat == self@.lc,
    {
        self.lc
    }

    pub fn lp(&self) -> (r: u32)
        ensures
            r as nat == self@.lp,
    {
        self.lp
    }

    pub fn pb(&self) -> (r: u32)
        ensures
            r as nat == self@.pb,
    {
        self.pb
    }

    /// Sets the properties, makes every probability neutral, and returns the
    /// automaton and the rep distances to their initial values.
    pub fn reset_state(&mut self, lc: u32, lp: u32, pb: u32)
        requires
            lc + lp <= 4,
            pb <= 4,
        ensures
            final(self)@ == reset_model(lc as nat, lp as nat, pb as nat),
            model_wf(final(self)@),
    {
        proof {
            lemma_pow2_le((lc + lp) as nat, 4);
            lemma2_to64();
        }
        let n: usize = LITERAL + 0x300 * (pow2_u32(lc + lp) as usize);
        self.probs.clear();
        let mut i: usize = 0;
        while i < n
            invariant
                i <= n,
                self.probs@ == Seq::new(i as nat, |j: int| PROB_INIT),
            decreases n - i,
        {
            self.probs.push(PROB_INIT);
            i = i + 1;
            assert(self.probs@ =~= Seq::new(i as nat, |j: int| PROB_INIT));
        }
        self.lc = lc;
        self.lp = lp;
        self.pb = pb;
        self.state = 0;
        self.rep0 = 0;
        self.rep1 = 0;
        self.rep2 = 0;
        self.rep3 = 0;
    }

    fn bit(&mut self, rc: &mut RangeDecoder, idx: usize, data: &[u8]) -> (b: bool)
        requires
            model_wf(old(self)@),
            rc_valid(*old(rc), data@),
            idx < old(self)@.probs.len(),
        ensures
            (final(self)@, *final(rc), b) == model_bit(old(self)@, *old(rc), idx as int, data@),
            model_wf(final(self)@),
            rc_valid(*final(rc), data@),
    {
        let mut p = self.probs[idx];
        let b = rc.decode_bit(&mut p, data);
        self.probs.set(idx, p);
        proof {
            assert forall|i: int| 0 <= i < self.probs@.len() implies #[trigger] self.probs@[i] <= crate::rangecoder::PROB_ONE by {
                if i != idx {
                    assert(self.probs@[i] == old(self)@.probs[i]);
                }
            }
        }
        b
    }

    fn tree(&mut self, rc: &mut RangeDecoder, base: usize, num_bits: u32, data: &[u8]) -> (r: u32)
        requires
            model_wf(old(self)@),
            rc_valid(*old(rc), data@),
            1 <= num_bits <= 8,
            base + pow2(num_bits as nat) <= old(self)@.probs.len(),
        ensures
            (final(self)@, *final(rc), r as nat) == model_tree(old(self)@, *old(rc), base as int, num_bits as nat, data@),
            model_wf(final(self)@),
            rc_valid(*final(rc), data@),
            r < pow2(num_bits as nat),
    {
        rc.decode_tree(&mut self.probs, base, num_bits, data)
    }

    fn reverse_tree(&mut self, rc: &mut RangeDecoder, base: usize, num_bits: u32, data: &[u8]) -> (r: u32)
        requires
            model_wf(old(self)@),
            rc_valid(*old(rc), data@),
            1 <= num_bits <= 8,
            base + pow2(num_bits as nat) <= old(self)@.probs.len(),
        ensures
            (final(self)@, *final(rc), r as nat) == model_reverse_tree(old(self)@, *old(rc), base as int, num_bits as nat, data@),
            model_wf(final(self)@),
            rc_valid(*final(rc), data@),
            r < pow2(num_bits as nat),
    {
        rc.decode_reverse_tree(&mut self.probs, base, num_bits, data)
    }
}

impl DecoderState {
    fn literal_plain(&mut self, rc: &mut RangeDecoder, base: usize, start: usize, data: &[u8]) -> (r: usize)
        requires
            model_wf(old(self)@),
            rc_valid(*old(rc), data@),
            1 <= start < 512,
            base + 0x300 <= old(self)@.probs.len(),
        ensures
            (final(self)@, *final(rc), r as nat) == literal_plain(old(self)@, *old(rc), base as int, start as nat, data@),
            model_wf(final(self)@),
            rc_valid(*final(rc), data@),
            final(self)@.probs.len() == old(self)@.probs.len(),
            256 <= r < 512,
    {
        let mut sym = start;
        while sym < 256
            invariant
                1 <= sym < 512,
                model_wf(self@),
                rc_valid(*rc, data@),
                self@.probs.len() == old(self)@.probs.len(),
                base + 0x300 <= self@.probs.len(),
                literal_plain(self@, *rc, base as int, sym as nat, data@)
                    == literal_plain(old(self)@, *old(rc), base as int, start as nat, data@),
            decreases 512 - sym,
        {
            let n = self.probs.len();
            assert(base + sym < n);
            let b = self.bit(rc, base + sym, data);
            sym = sym * 2 + if b { 1usize } else { 0usize };
        }
        sym
    }

    fn literal_matched(&mut self, rc: &mut RangeDecoder, base: usize, match_byte: u8, data: &[u8]) -> (r: usize)
        requires
            model_wf(old(self)@),
            rc_valid(*old(rc), data@),
            base + 0x300 <= old(self)@.probs.len(),
        ensures
            (final(self)@, *final(rc), r as nat) == literal_matched(old(self)@, *old(rc), base as int, 1, match_byte as nat, data@),
            model_wf(final(self)@),
            rc_valid(*final(rc), data@),
            final(self)@.probs.len() == old(self)@.probs.len(),
            256 <= r < 512,
    {
        let mut sym: usize = 1;
        let mut mb: usize = match_byte as usize;
        while sym < 256
            invariant
                1 <= sym < 512,
                mb < 256,
                model_wf(self@),
                rc_valid(*rc, data@),
                self@.probs.len() == old(self)@.probs.len(),
                base + 0x300 <= self@.probs.len(),
                literal_matched(self@, *rc, base as int, sym as nat, mb as nat, data@)
                    == literal_matched(old(self)@, *old(rc), base as int, 1, match_byte as nat, data@),
            decreases 512 - sym,
        {
            let match_bit = (mb / 128) % 2;
            let n = self.probs.len();
            assert(base + (1 + match_bit) * 256 + sym < n);
            let b = self.bit(rc, base + (1 + match_bit) * 256 + sym, data);
            let bit: usize = if b { 1 } else { 0 };
            sym = sym * 2 + bit;
            if match_bit != bit {
                return self.literal_plain(rc, base, sym, data);
            }
            mb = (mb * 2) % 256;
        }
        sym
    }

    fn literal(&mut self, rc: &mut RangeDecoder, lz: &mut LzBuffer, data: &[u8]) -> (ok: bool)
        requires
            model_wf(old(self)@),
            rc_valid(*old(rc), data@),
        ensures
            match literal_symbol(old(self)@, old(lz).hist(), *old(rc), data@) {
                Some((d1, h1, rc1)) => ok && final(self)@ == d1 && final(lz).hist() == h1 && *final(rc) == rc1,
                None => !ok,
            },
            model_wf(final(self)@),
            rc_valid(*final(rc), data@),
            final(lz).flushed() == old(lz).flushed(),
    {
        let len = lz.len();
        let prev = lz.last_or(0);
        proof {
            lemma_literal_ctx(len as nat, prev as nat, self.lc as nat, self.lp as nat);
            lemma_pow2_le(self.lc as nat, 8);
            lemma_pow2_le(self.lp as nat, 8);
            lemma_pow2_le((self.lc + self.lp) as nat, 8);
            lemma2_to64();
        }
        let lc_pow = pow2_u32(self.lc) as usize;
        let lp_pow = pow2_u32(self.lp) as usize;
        let shift = pow2_u32(8 - self.lc) as usize;
        let ctx: usize = (len % lp_pow) * lc_pow + (prev as usize) / shift;
        let base: usize = LITERAL + 0x300 * ctx;
        let s = self.state;
        let sym: usize;
        if s >= 7 {
            if self.rep0 >= len as u64 {
                return false;
            }
            let mb = match lz.last_n(self.rep0 + 1) {
                Some(b) => b,
                None => {
                    return false;
                },
            };
            sym = self.literal_matched(rc, base, mb, data);
        } else {
            sym = self.literal_plain(rc, base, 1, data);
        }
        self.state = if s < 4 {
            0
        } else if s < 10 {
            s - 3
        } else {
            s - 6
        };
        lz.append_literal((sym - 256) as u8);
        true
    }

    fn length(&mut self, rc: &mut RangeDecoder, base: usize, ps: usize, data: &[u8]) -> (r: u32)
        requires
            model_wf(old(self)@),
            rc_valid(*old(rc), data@),
            base == LEN_MATCH || base == LEN_REP,
            ps < 16,
        ensures
            (final(self)@, *final(rc), r as nat) == length_spec(old(self)@, *old(rc), base as int, ps as nat, data@),
            model_wf(final(self)@),
            rc_valid(*final(rc), data@),
            r < 272,
    {
        proof {
            lemma2_to64();
        }
        if !self.bit(rc, base, data) {
            return self.tree(rc, base + 2 + ps * 8, 3, data);
        }
        if !self.bit(rc, base + 1, data) {
            return self.tree(rc, base + 130 + ps * 8, 3, data) + 8;
        }
        self.tree(rc, base + 258, 8, data) + 16
    }

    fn distance(&mut self, rc: &mut RangeDecoder, len: u32, data: &[u8]) -> (r: u64)
        requires
            model_wf(old(self)@),
            rc_valid(*old(rc), data@),
        ensures
            (final(self)@, *final(rc), r as nat) == distance_spec(old(self)@, *old(rc), len as nat, data@),
            model_wf(final(self)@),
            rc_valid(*final(rc), data@),
            r < 0x20_0000_0000,
    {
        proof {
            lemma2_to64();
        }
        let len_state: usize = if len > 3 { 3 } else { len as usize };
        let slot = self.tree(rc, POS_SLOT + len_state * 64, 6, data);
        if slot < 4 {
            return slot as u64;
        }
        let ndb = slot / 2 - 1;
        proof {
            lemma_pow2_le(ndb as nat, 30);
            let p = pow2(ndb as nat);
            assert((2 + slot % 2) * p <= 3 * 0x4000_0000) by (nonlinear_arith)
                requires
                    p <= 0x4000_0000,
                    slot % 2 <= 1,
            ;
        }
        let base: u64 = (2 + (slot % 2) as u64) * (pow2_u32(ndb) as u64);
        if slot < 14 {
            proof {
                assert(slot == 2 * ndb + 2 + slot % 2);
                lemma_spec_pos_bounds(ndb as nat, (slot % 2) as nat);
            }
            let v = self.reverse_tree(rc, SPEC_POS + base as usize - slot as usize, ndb, data);
            base + v as u64
        } else {
            let v = rc.decode_direct_bits(ndb - 4, data);
            let a = self.reverse_tree(rc, ALIGN, 4, data);
            base + (v as u64) * 16 + a as u64
        }
    }
}

/// Appends the copy when it fits in what the chunk still owes.
fn finish_copy_exec(lz: &mut LzBuffer, dist: u64, len: u64, remaining: u64) -> (ok: bool)
    requires
        len <= 273,
    ensures
        ok == (len <= remaining && copy_allowed(old(lz).hist(), dist as nat)),
        ok ==> final(lz).hist() == lz_copy(old(lz).hist(), dist as nat, len as nat),
        final(lz).flushed() == old(lz).flushed(),
{
    if len > remaining {
        return false;
    }
    lz.copy(dist, len as usize)
}

impl DecoderState {
    fn rep_tail(&mut self, rc: &mut RangeDecoder, lz: &mut LzBuffer, ps: usize, remaining: u64, data: &[u8]) -> (ok: bool)
        requires
            model_wf(old(self)@),
            rc_valid(*old(rc), data@),
            ps < 16,
        ensures
            match rep_tail(old(self)@, old(lz).hist(), *old(rc), ps as nat, data@, remaining as nat) {
                Some((d1, h1, rc1)) => ok && final(self)@ == d1 && final(lz).hist() == h1 && *final(rc) == rc1,
                None => !ok,
            },
            model_wf(final(self)@),
            rc_valid(*final(rc), data@),
            final(lz).flushed() == old(lz).flushed(),
    {
        let s = self.state;
        let rep0 = self.rep0;
        let len = self.length(rc, LEN_REP, ps, data);
        self.state = if s < 7 { 8 } else { 11 };
        if rep0 >= lz.len() as u64 {
            return false;
        }
        finish_copy_exec(lz, rep0 + 1, len as u64 + 2, remaining)
    }

    fn rep_symbol(&mut self, rc: &mut RangeDecoder, lz: &mut LzBuffer, ps: usize, remaining: u64, data: &[u8]) -> (ok: bool)
        requires
            model_wf(old(self)@),
            rc_valid(*old(rc), data@),
            ps < 16,
        ensures
            match rep_symbol(old(self)@, old(lz).hist(), *old(rc), ps as nat, data@, remaining as nat) {
                Some((d1, h1, rc1)) => ok && final(self)@ == d1 && final(lz).hist() == h1 && *final(rc) == rc1,
                None => !ok,
            },
            model_wf(final(self)@),
            rc_valid(*final(rc), data@),
            final(lz).flushed() == old(lz).flushed(),
    {
        let s = self.state;
        let (rep0, rep1, rep2, rep3) = (self.rep0, self.rep1, self.rep2, self.rep3);
        if !self.bit(rc, IS_REP_G0 + s, data) {
            if !self.bit(rc, IS_REP0_LONG + s * 16 + ps, data) {
                self.state = if s < 7 { 9 } else { 11 };
                if rep0 >= lz.len() as u64 {
                    return false;
                }
                return finish_copy_exec(lz, rep0 + 1, 1, remaining);
            }
            return self.rep_tail(rc, lz, ps, remaining, data);
        }
        if !self.bit(rc, IS_REP_G1 + s, data) {
            self.rep0 = rep1;
            self.rep1 = rep0;
        } else if !self.bit(rc, IS_REP_G2 + s, data) {
            self.rep0 = rep2;
            self.rep1 = rep0;
            self.rep2 = rep1;
        } else {
            self.rep0 = rep3;
            self.rep1 = rep0;
            self.rep2 = rep1;
            self.rep3 = rep2;
        }
        self.rep_tail(rc, lz, ps, remaining, data)
    }

    fn match_symbol(&mut self, rc: &mut RangeDecoder, lz: &mut LzBuffer, ps: usize, remaining: u64, data: &[u8]) -> (ok: bool)
        requires
            model_wf(old(self)@),
            rc_valid(*old(rc), data@),
            ps < 16,
        ensures
            match match_symbol(old(self)@, old(lz).hist(), *old(rc), ps as nat, data@, remaining as nat) {
                Some((d1, h1, rc1)) => ok && final(self)@ == d1 && final(lz).hist() == h1 && *final(rc) == rc1,
                None => !ok,
            },
            model_wf(final(self)@),
            rc_valid(*final(rc), data@),
            final(lz).flushed() == old(lz).flushed(),
    {
        let s = self.state;
        let (rep0, rep1, rep2) = (self.rep0, self.rep1, self.rep2);
        let len = self.length(rc, LEN_MATCH, ps, data);
        let dist = self.distance(rc, len, data);
        if dist == END_MARKER {
            return false;
        }
        self.state = if s < 7 { 7 } else { 10 };
        self.rep0 = dist;
        self.rep1 = rep0;
        self.rep2 = rep1;
        self.rep3 = rep2;
        finish_copy_exec(lz, dist + 1, len as u64 + 2, remaining)
    }

    fn symbol(&mut self, rc: &mut RangeDecoder, lz: &mut LzBuffer, remaining: u64, data: &[u8]) -> (ok: bool)
        requires
            model_wf(old(self)@),
            rc_valid(*old(rc), data@),
        ensures
            match symbol_spec(old(self)@, old(lz).hist(), *old(rc), data@, remaining as nat) {
                Some((d1, h1, rc1)) => ok && final(self)@ == d1 && final(lz).hist() == h1 && *final(rc) == rc1,
                None => !ok,
            },
            model_wf(final(self)@),
            rc_valid(*final(rc), data@),
            final(lz).flushed() == old(lz).flushed(),
    {
        proof {
            lemma_pow2_le(self.pb as nat, 4);
            lemma2_to64();
        }
        let s = self.state;
        let ps: usize = lz.len() % (pow2_u32(self.pb) as usize);
        if !self.bit(rc, IS_MATCH + s * 16 + ps, data) {
            return self.literal(rc, lz, data);
        }
        if self.bit(rc, IS_REP + s, data) {
            self.rep_symbol(rc, lz, ps, remaining, data)
        } else {
            self.match_symbol(rc, lz, ps, remaining, data)
        }
    }

    /// Decodes symbols from the chunk `data` until exactly `unpacked` more
    /// bytes have been appended to `lz`; false on corrupt or exhausted input.
    pub fn process(&mut self, rc: &mut RangeDecoder, lz: &mut LzBuffer, data: &[u8], unpacked: u64) -> (ok: bool)
        requires
            model_wf(old(self)@),
            rc_valid(*old(rc), data@),
        ensures
            match process_spec(old(self)@, old(lz).hist(), *old(rc), data@, unpacked as nat) {
                Some((d1, h1)) => ok && final(self)@ == d1 && final(lz).hist() == h1,
                None => !ok,
            },
            model_wf(final(self)@),
            final(lz).flushed() == old(lz).flushed(),
    {
        let mut remaining = unpacked;
        while remaining > 0
            invariant
                model_wf(self@),
                rc_valid(*rc, data@),
                lz.flushed() == old(lz).flushed(),
                process_spec(self@, lz.hist(), *rc, data@, remaining as nat)
                    == process_spec(old(self)@, old(lz).hist(), *old(rc), data@, unpacked as nat),
            decreases remaining,
        {
            let before = lz.len();
            if !self.symbol(rc, lz, remaining, data) {
                return false;
            }
            let after = lz.len();
            if rc.exhausted || after <= before || (after - before) as u64 > remaining {
                return false;
            }
            remaining = remaining - (after - before) as u64;
        }
        true
    }
}

} // verus!
