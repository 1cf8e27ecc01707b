use vstd::prelude::*;

verus! {

/// A gauge that keeps the last recorded value.
///
/// The value is held as the bit pattern of an IEEE-754 double, beside a
/// flag that says whether any value was recorded; every bit pattern is a
/// value. A flush reads the value and leaves it in place: gauges describe
/// current state, not deltas.
pub struct GaugeSlot {
    bits: u64,
    recorded: bool,
}

impl View for GaugeSlot {
    type V = Option<u64>;

    /// The bit pattern last recorded, or `None` when nothing was recorded.
    closed spec fn view(&self) -> Option<u64> {
        if self.recorded {
            Some(self.bits)
        } else {
            None
        }
    }
}

impl GaugeSlot {
    /// A gauge with no value.
    pub fn new() -> (s: Self)
        ensures
            s@ == None::<u64>,
    {
        GaugeSlot { bits: 0, recorded: false }
    }

    /// Store a new value, given as the bit pattern of a double
    /// (last writer wins).
    pub fn record(&mut self, value_bits: u64)
        ensures
            final(self)@ == Some(value_bits),
    {
        self.bits = value_bits;
        self.recorded = true;
    }

    /// The bit pattern of the current value, or `None` if no value was
    /// recorded. The value is not reset.
    pub fn flush(&self) -> (r: Option<u64>)
        ensures
            r == self@,
    {
        if self.recorded {
            Some(self.bits)
        } else {
            None
        }
    }

    /// Whether a value has been recorded.
    pub fn has_value(&self) -> (b: bool)
        ensures
            b == self@ is Some,
    {
        self.recorded
    }
}

impl Default for GaugeSlot {
    fn default() -> (s: Self)
        ensures
            s@ == None::<u64>,
    {
        Self::new()
    }
}

} // verus!
