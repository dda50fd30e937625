//! Counters of a long-running command.
use vstd::prelude::*;
use std::time::Instant;

verus! {

#[verifier::external_type_specification]
#[verifier::external_body]
pub struct ExInstant(Instant);

/// `Instant::now()`: the current time, which no contract can fix.
#[verifier::external_body]
fn instant_now() -> Instant {
    Instant::now()
}

/// Chunks and bytes processed so far, and when the work started.
pub struct Progress {
    pub chunks: usize,
    pub bytes: usize,
    pub print_count: usize,
    pub start_time: Instant,
}

impl Progress {
    pub fn new() -> (p: Progress)
        ensures
            p.chunks == 0,
            p.bytes == 0,
            p.print_count == 0,
    {
        Progress { chunks: 0, bytes: 0, print_count: 0, start_time: instant_now() }
    }

    pub fn add_chunks(&mut self, n: usize)
        requires
            old(self).chunks + n <= usize::MAX,
        ensures
            final(self).chunks == old(self).chunks + n,
            final(self).bytes == old(self).bytes,
            final(self).print_count == old(self).print_count,
            final(self).start_time == old(self).start_time,
    {
        self.chunks += n;
    }

    pub fn add_bytes(&mut self, n: usize)
        requires
            old(self).bytes + n <= usize::MAX,
        ensures
            final(self).bytes == old(self).bytes + n,
            final(self).chunks == old(self).chunks,
            final(self).print_count == old(self).print_count,
            final(self).start_time == old(self).start_time,
    {
        self.bytes += n;
    }
}

} // verus!
