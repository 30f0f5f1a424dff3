use vstd::prelude::*;

verus! {

/// Source of integers drawn from a half-open range, injectable so that
/// generation and digging are reproducible under a fixed seed.
pub trait RandomSource {
    /// Return an integer in `[0, bound)`.
    fn next_below(&mut self, bound: usize) -> (r: usize)
        requires
            bound >= 1,
        ensures
            r < bound,
    ;
}

/// Deterministic linear-congruential source for seeded, reproducible runs.
/// Its view is its state word.
pub struct SeededSource {
    state: u64,
}

/// One step of the seeded source: a multiplicative congruential step with
/// increment, reduced modulo the Mersenne prime 2147483647.
pub open spec fn seeded_step(x: u64) -> u64 {
    ((((x as int) % 2147483647) * 48271 + 12345) % 2147483647) as u64
}

impl View for SeededSource {
    type V = u64;

    closed spec fn view(&self) -> u64 {
        self.state
    }
}

impl SeededSource {
    pub fn from_seed(seed: u64) -> (s: SeededSource)
        ensures
            s@ == seed,
    {
        SeededSource { state: seed }
    }
}

impl RandomSource for SeededSource {
    /// Both the new state and the draw are pure functions of the old state,
    /// so a run under a fixed seed reproduces the same sequence of draws.
    fn next_below(&mut self, bound: usize) -> (r: usize)
        ensures
            final(self)@ == seeded_step(old(self)@),
            r as int == (final(self)@ as int) % (bound as int),
    {
        let next: u64 = (self.state % 2147483647) * 48271 + 12345;
        self.state = next % 2147483647;
        (self.state % (bound as u64)) as usize
    }
}

/// Nondeterministic source backed by the operating system's generator.
pub struct ThreadSource {
    _private: (),
}

impl ThreadSource {
    pub fn new() -> (s: ThreadSource) {
        ThreadSource { _private: () }
    }
}

/// Relies on rand::Rng::gen_range over `0..bound`: it panics only on an
/// empty range, which `bound >= 1` rules out, and otherwise returns a value
/// inside the range.
#[verifier::external_body]
fn thread_random_below(bound: usize) -> (r: usize)
    requires
        bound >= 1,
    ensures
        r < bound,
{
    rand::Rng::gen_range(&mut rand::thread_rng(), 0..bound)
}

impl RandomSource for ThreadSource {
    fn next_below(&mut self, bound: usize) -> (r: usize) {
        thread_random_below(bound)
    }
}

} // verus!
