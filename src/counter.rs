//! A monotonic counter.
use std::sync::atomic::{AtomicUsize, Ordering};
use vstd::prelude::*;

use crate::{appended, Emit, Encoder, Metric};

verus! {

/// The decimal ASCII digits of `n`: no sign, no leading zeros.
pub open spec fn decimal_digits(n: nat) -> Seq<u8>
    decreases n,
{
    if n < 10 {
        seq![(n + 48) as u8]
    } else {
        decimal_digits(n / 10).push((n % 10 + 48) as u8)
    }
}

/// `b` is the text of some counter total.
pub open spec fn counter_text(b: Seq<u8>) -> bool {
    exists|v: usize| b == decimal_digits(v as nat)
}

/// The decimal ASCII digits of `v`.
pub fn decimal_text(v: usize) -> (r: Vec<u8>)
    ensures
        r@ == decimal_digits(v as nat),
    decreases v,
{
    if v < 10 {
        let mut r: Vec<u8> = Vec::new();
        r.push(v as u8 + 48);
        r
    } else {
        let mut r = decimal_text(v / 10);
        r.push((v % 10) as u8 + 48);
        r
    }
}

/// Counters measure discrete events: requests received, bytes sent.
///
/// The total is an atomic integer that any number of callers may add to
/// at once through a shared reference. What a reader sees is whatever the
/// increments that it raced with left there, so no contract here speaks
/// of the value itself.
pub struct Counter {
    total: AtomicUsize,
}

impl Counter {
    pub fn new() -> (r: Self) {
        Counter { total: AtomicUsize::new(0) }
    }

    /// Add one to the counter.
    pub fn inc(&self) {
        self.total.fetch_add(1, Ordering::Relaxed);
    }

    /// Add a number of counts to the counter.
    pub fn inc_by(&self, count: usize) {
        self.total.fetch_add(count, Ordering::Relaxed);
    }

    /// Return the current total.
    pub fn total(&self) -> (r: usize) {
        self.total.load(Ordering::Relaxed)
    }
}

impl Default for Counter {
    fn default() -> (r: Self) {
        Counter::new()
    }
}

impl Metric for Counter {
    /// A single write of the decimal digits of a snapshot of the total.
    fn encode<E: Encoder>(&self, enc: &mut E)
        ensures
            exists|b: Seq<u8>|
                counter_text(b) && final(enc).trace() == appended(
                    old(enc).trace(),
                    seq![Emit::Bytes(b)],
                ),
    {
        let v = self.total();
        let text = decimal_text(v);
        enc.write(text.as_slice());
        assert(counter_text(text@));
        proof {
            if let Some(t) = old(enc).trace() {
                assert((t + seq![Emit::Bytes(text@)]).subrange(0, t.len() as int) =~= t);
            }
        }
    }
}

} // verus!
