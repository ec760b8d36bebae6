//! The Prometheus text encoder adopted by OpenMetrics.
use vstd::prelude::*;

use crate::{appended, Emit, Encoder, MetricDesc};

verus! {

/// An encoder that accepts every descriptor and payload chunk it is
/// handed; what it has been handed is kept as its trace, from empty.
pub struct TextEncoder {
    log: Ghost<Seq<Emit>>,
}

impl TextEncoder {
    pub fn new() -> (r: Self)
        ensures
            r.trace() == Some(Seq::<Emit>::empty()),
    {
        TextEncoder { log: Ghost(Seq::empty()) }
    }
}

impl Encoder for TextEncoder {
    closed spec fn trace(&self) -> Option<Seq<Emit>> {
        Some(self.log@)
    }

    fn write_desc(&mut self, desc: &MetricDesc) {
        let ghost before = self.log@;
        self.log = Ghost(self.log@.push(Emit::Desc(desc.meta())));
        assert(self.log@ =~= before + seq![Emit::Desc(desc.meta())]);
    }

    fn write(&mut self, bytes: &[u8]) {
        let ghost before = self.log@;
        self.log = Ghost(self.log@.push(Emit::Bytes(bytes@)));
        assert(self.log@ =~= before + seq![Emit::Bytes(bytes@)]);
    }
}

} // verus!
