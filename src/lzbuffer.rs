//! The dictionary: decoded history since the last reset, which back-references
//! copy from, in front of the bytes already handed on.
use vstd::prelude::*;

verus! {

/// Whether a back-reference of distance `dist` reaches into `hist`.
pub open spec fn copy_allowed(hist: Seq<u8>, dist: nat) -> bool {
    1 <= dist <= hist.len()
}

/// `hist` extended by `len` bytes, each the byte `dist` places before the
/// end at the moment it is produced (so a copy may overlap its own output).
pub open spec fn lz_copy(hist: Seq<u8>, dist: nat, len: nat) -> Seq<u8>
    decreases len,
{
    if len == 0 || !copy_allowed(hist, dist) {
        hist
    } else {
        lz_copy(hist.push(hist[hist.len() - dist]), dist, (len - 1) as nat)
    }
}

pub struct LzBuffer {
    /// Bytes from before the last reset: out of reach of back-references.
    flushed: Vec<u8>,
    /// Bytes since the last reset.
    hist: Vec<u8>,
}

impl LzBuffer {
    pub closed spec fn flushed(&self) -> Seq<u8> {
        self.flushed@
    }

    pub closed spec fn hist(&self) -> Seq<u8> {
        self.hist@
    }

    pub fn new() -> (r: LzBuffer)
        ensures
            r.flushed() == Seq::<u8>::empty(),
            r.hist() == Seq::<u8>::empty(),
    {
        LzBuffer { flushed: Vec::new(), hist: Vec::new() }
    }

    /// Number of bytes since the last reset.
    pub fn len(&self) -> (r: usize)
        ensures
            r == self.hist().len(),
    {
        self.hist.len()
    }

    /// The last byte since the last reset, or `default` if there is none.
    pub fn last_or(&self, default: u8) -> (r: u8)
        ensures
            r == (if self.hist().len() == 0 { default } else { self.hist().last() }),
    {
        if self.hist.len() == 0 {
            default
        } else {
            self.hist[self.hist.len() - 1]
        }
    }

    /// The byte `dist` places before the end, if it lies after the last reset.
    pub fn last_n(&self, dist: u64) -> (r: Option<u8>)
        ensures
            copy_allowed(self.hist(), dist as nat) ==> r == Some(self.hist()[self.hist().len() - dist]),
            !copy_allowed(self.hist(), dist as nat) ==> r.is_none(),
    {
        if dist == 0 || dist > self.hist.len() as u64 {
            None
        } else {
            Some(self.hist[self.hist.len() - dist as usize])
        }
    }

    pub fn append_literal(&mut self, b: u8)
        ensures
            final(self).hist() == old(self).hist().push(b),
            final(self).flushed() == old(self).flushed(),
    {
        self.hist.push(b);
    }

    pub fn append_bytes(&mut self, bytes: &[u8])
        ensures
            final(self).hist() == old(self).hist() + bytes@,
            final(self).flushed() == old(self).flushed(),
    {
        let mut i: usize = 0;
        while i < bytes.len()
            invariant
                i <= bytes@.len(),
                self.hist() == old(self).hist() + bytes@.subrange(0, i as int),
                self.flushed() == old(self).flushed(),
            decreases bytes@.len() - i,
        {
            self.hist.push(bytes[i]);
            i = i + 1;
            assert(bytes@.subrange(0, i as int) == bytes@.subrange(0, i - 1).push(bytes@[i - 1]));
        }
        assert(bytes@.subrange(0, i as int) == bytes@);
    }

    /// Appends `len` bytes copied from `dist` places back; refused (and
    /// nothing appended) when `dist` reaches before the last reset.
    pub fn copy(&mut self, dist: u64, len: usize) -> (ok: bool)
        ensures
            ok == copy_allowed(old(self).hist(), dist as nat),
            final(self).hist() == lz_copy(old(self).hist(), dist as nat, len as nat),
            final(self).flushed() == old(self).flushed(),
    {
        if dist == 0 || dist > self.hist.len() as u64 {
            return false;
        }
        let d = dist as usize;
        let mut i: usize = 0;
        while i < len
            invariant
                i <= len,
                1 <= d <= self.hist@.len(),
                d == dist,
                self.flushed() == old(self).flushed(),
                lz_copy(self.hist(), d as nat, (len - i) as nat) == lz_copy(old(self).hist(), dist as nat, len as nat),
            decreases len - i,
        {
            let x = self.hist[self.hist.len() - d];
            self.hist.push(x);
            i = i + 1;
        }
        true
    }

    /// Hands the history on: later back-references reach only bytes appended
    /// after this call.
    pub fn reset(&mut self)
        ensures
            final(self).flushed() == old(self).flushed() + old(self).hist(),
            final(self).hist() == Seq::<u8>::empty(),
    {
        self.flushed.append(&mut self.hist);
    }

    /// All bytes decoded, in order.
    pub fn finish(self) -> (r: Vec<u8>)
        ensures
            r@ == self.flushed() + self.hist(),
    {
        let mut out = self.flushed;
        let mut hist = self.hist;
        out.append(&mut hist);
        out
    }
}

/// A copy of distance one repeats the last byte: run-length expansion.
pub proof fn law_distance_one_copy_repeats(hist: Seq<u8>, n: nat)
    requires
        hist.len() >= 1,
    ensures
        lz_copy(hist, 1, n) == hist + Seq::new(n, |i: int| hist.last()),
    decreases n,
{
    if n > 0 {
        let h1 = hist.push(hist.last());
        law_distance_one_copy_repeats(h1, (n - 1) as nat);
        assert(h1 + Seq::new((n - 1) as nat, |i: int| h1.last()) == hist + Seq::new(n, |i: int| hist.last()));
    } else {
        assert(hist + Seq::new(n, |i: int| hist.last()) == hist);
    }
}

/// After a reset, a back-reference is accepted only within the bytes
/// appended since: one that reaches further is refused and copies nothing,
/// even where the history before the reset would have covered it.
pub proof fn law_reset_bounds_references(hist: Seq<u8>, appended: Seq<u8>, dist: nat, len: nat)
    requires
        appended.len() < dist <= hist.len() + appended.len(),
    ensures
        copy_allowed(hist + appended, dist),
        !copy_allowed(Seq::<u8>::empty() + appended, dist),
        lz_copy(Seq::<u8>::empty() + appended, dist, len) == appended,
{
    assert(Seq::<u8>::empty() + appended == appended);
}

} // verus!
