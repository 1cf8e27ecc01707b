use vstd::prelude::*;

verus! {

/// Adds `delta` to `acc` the way a two's-complement 64-bit accumulator does.
pub open spec fn wrapping_sum(acc: i64, delta: i64) -> i64 {
    vstd::wrapping::i64_specs::wrapping_add(acc, delta)
}

/// The 64-bit two's-complement value that stands for the integer `x`: the
/// one in the `i64` range that differs from `x` by a multiple of 2^64.
pub open spec fn wrap_i64(x: int) -> i64 {
    let r = x % 0x1_0000_0000_0000_0000int;
    if r > i64::MAX {
        (r - 0x1_0000_0000_0000_0000int) as i64
    } else {
        r as i64
    }
}

/// The sum of a list of deltas.
pub open spec fn delta_sum(ds: Seq<i64>) -> int
    decreases ds.len(),
{
    if ds.len() == 0 {
        0
    } else {
        delta_sum(ds.drop_last()) + ds.last()
    }
}

/// What a counter holds after recording `ds` one after another, starting
/// from `start`.
pub open spec fn recorded(start: i64, ds: Seq<i64>) -> i64
    decreases ds.len(),
{
    if ds.len() == 0 {
        start
    } else {
        wrapping_sum(recorded(start, ds.drop_last()), ds.last())
    }
}

/// Adding to a wrapped value wraps the exact sum.
pub proof fn lemma_wrap_add(x: int, d: i64)
    ensures
        wrapping_sum(wrap_i64(x), d) == wrap_i64(x + d),
{
    let m = 0x1_0000_0000_0000_0000int;
    let w = wrap_i64(x) as int;
    let q = x / m;
    let r = x % m;
    assert(x == q * m + r && 0 <= r < m) by (nonlinear_arith)
        requires
            m > 0,
            q == x / m,
            r == x % m,
    ;
    let s = wrapping_sum(wrap_i64(x), d) as int;
    // s and x + d differ by a multiple of m, and s lies in the i64 range.
    let k: int = if r > i64::MAX { q + 1 } else { q };
    assert(w == x - k * m);
    let j: int = if w + d > i64::MAX { 1 } else if w + d < i64::MIN { -1 } else { 0 };
    assert(s == x + d - (k + j) * m);
    let y = x + d;
    let q2 = y / m;
    let r2 = y % m;
    assert(y == q2 * m + r2 && 0 <= r2 < m) by (nonlinear_arith)
        requires
            m > 0,
            q2 == y / m,
            r2 == y % m,
    ;
    // The representative in [i64::MIN, i64::MAX] of a residue is unique.
    let t = k + j - q2;
    assert(s == r2 - t * m) by (nonlinear_arith)
        requires
            s == x + d - (k + j) * m,
            y == x + d,
            y == q2 * m + r2,
            t == k + j - q2,
    ;
    assert(i64::MIN <= s <= i64::MAX);
    if t >= 2 {
        assert(t * m >= 2 * m) by (nonlinear_arith)
            requires
                t >= 2,
                m > 0,
        ;
    } else if t <= -1 {
        assert(t * m <= -m) by (nonlinear_arith)
            requires
                t <= -1,
                m > 0,
        ;
    }
    assert(t == 0 || t == 1);
    assert(r2 == y % m);
    if t == 0 {
        assert(s == r2);
    } else {
        assert(s == r2 - m);
    }
}

/// Recording is addition modulo 2^64: a counter that starts at zero holds
/// the wrapped sum of the deltas recorded, whatever their order.
pub proof fn lemma_recorded_is_wrapped_sum(ds: Seq<i64>)
    ensures
        recorded(0, ds) == wrap_i64(delta_sum(ds)),
    decreases ds.len(),
{
    if ds.len() == 0 {
        assert(0int % 0x1_0000_0000_0000_0000int == 0);
    } else {
        lemma_recorded_is_wrapped_sum(ds.drop_last());
        lemma_wrap_add(delta_sum(ds.drop_last()), ds.last());
    }
}

/// A counter that accumulates deltas between flushes.
///
/// Additions wrap on overflow, as an atomic fetch-add does. A flush hands
/// back the accumulated value and starts again from zero.
pub struct CountSlot {
    value: i64,
}

impl View for CountSlot {
    type V = i64;

    closed spec fn view(&self) -> i64 {
        self.value
    }
}

impl CountSlot {
    /// A counter holding zero.
    pub fn new() -> (s: Self)
        ensures
            s@ == 0,
    {
        CountSlot { value: 0 }
    }

    /// Add `delta` to the counter.
    pub fn record(&mut self, delta: i64)
        ensures
            final(self)@ == wrapping_sum(old(self)@, delta),
    {
        self.value = self.value.wrapping_add(delta);
    }

    /// Read and reset the counter, returning what was accumulated since the
    /// last flush.
    pub fn flush(&mut self) -> (v: i64)
        ensures
            v == old(self)@,
            final(self)@ == 0,
    {
        let v = self.value;
        self.value = 0;
        v
    }
}

impl Default for CountSlot {
    fn default() -> (s: Self)
        ensures
            s@ == 0,
    {
        Self::new()
    }
}

} // verus!
