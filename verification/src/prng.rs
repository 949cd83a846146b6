//! A deterministic linear-congruential pseudorandom generator and a
//! builder that fills a vector with bounded pseudorandom values.

use vstd::prelude::*;

verus! {

/// One step of the linear-congruential recurrence:
/// `seed' = (seed * 1103515245 + 12345) mod 2^31`.
pub open spec fn lcg_next(seed: u32) -> u32 {
    ((seed * 1103515245 + 12345) % 0x8000_0000) as u32
}

/// The seed after `n` draws starting from `seed`.
pub open spec fn lcg_seed_after(seed: u32, n: nat) -> u32
    decreases n,
{
    if n == 0 {
        seed
    } else {
        lcg_next(lcg_seed_after(seed, (n - 1) as nat))
    }
}

/// The first `n` values drawn from `seed`, in draw order.
pub open spec fn lcg_stream(seed: u32, n: nat) -> Seq<u32> {
    Seq::new(n, |i: int| lcg_seed_after(seed, (i + 1) as nat))
}

/// The bounded value derived from one raw draw `u`:
/// `min + floor((max - min) * u / 2^31)`.
pub open spec fn bounded_from(u: u32, min: i32, max: i32) -> int {
    min + ((max - min) * u) / 0x8000_0000
}

/// Two generators started from equal seeds produce equal draw streams,
/// however many values are drawn.
pub proof fn lemma_prng_deterministic(seed1: u32, seed2: u32, n: nat)
    requires
        seed1 == seed2,
    ensures
        lcg_stream(seed1, n) == lcg_stream(seed2, n),
{
    assert(lcg_stream(seed1, n) =~= lcg_stream(seed2, n));
}

/// A pseudorandom generator whose whole state is one 32-bit seed.
pub struct Prng {
    pub seed: u32,
}

/// Relies on `std::time::SystemTime::now` to read the wall clock as
/// milliseconds since the Unix epoch. The result depends on the
/// environment, so nothing is promised of it; a clock before the epoch
/// is an unrecoverable fault and aborts, as a broken environment should.
#[verifier::external_body]
fn clock_millis() -> u128 {
    std::time::SystemTime::now()
        .duration_since(std::time::UNIX_EPOCH)
        .expect("Time went backwards")
        .as_millis()
}

impl Prng {
    /// A generator seeded from the current wall-clock time.
    pub fn new() -> (prng: Prng) {
        let mut prng = Prng { seed: 0 };
        prng.randomize();
        prng
    }

    /// Reseed from the wall clock, wrapped to 32 bits. The new seed
    /// depends on the time of the call, so nothing is stated of it.
    pub fn randomize(&mut self) {
        let millis: u128 = clock_millis();
        self.seed = (millis % 0x1_0000_0000) as u32;
    }

    /// Draw the next raw value: one step of the recurrence. The result
    /// equals the new seed and lies in `[0, 2^31)`.
    pub fn next_u32(&mut self) -> (r: u32)
        ensures
            final(self).seed == lcg_next(old(self).seed),
            r == final(self).seed,
            r < 0x8000_0000,
    {
        let product: u64 = (self.seed as u64) * 1103515245 + 12345;
        let next: u64 = product % 0x8000_0000;
        self.seed = next as u32;
        self.seed
    }

    /// Draw a bounded value in `[min, max)`: one raw draw, scaled into
    /// the requested interval.
    pub fn next_i32(&mut self, min: i32, max: i32) -> (r: i32)
        requires
            min < max,
        ensures
            final(self).seed == lcg_next(old(self).seed),
            r == bounded_from(lcg_next(old(self).seed), min, max),
            min <= r < max,
    {
        let u: u32 = self.next_u32();
        let range: u64 = ((max as i64) - (min as i64)) as u64;
        assert(range * (u as u64) < 0x8000_0000_0000_0000) by (nonlinear_arith)
            requires
                0 < range < 0x1_0000_0000,
                u < 0x8000_0000,
        ;
        let product: u64 = range * (u as u64);
        let offset: u64 = product / 0x8000_0000;
        assert(offset < range) by (nonlinear_arith)
            requires
                0 < range,
                u < 0x8000_0000,
                product == range * (u as u64),
                offset == product / 0x8000_0000,
        ;
        let result: i64 = (min as i64) + (offset as i64);
        result as i32
    }
}

/// Build a vector of `num_items` pseudorandom values, each in
/// `[0, max)`, drawn in index order from a freshly time-seeded
/// generator.
pub fn make_random_vec(num_items: i32, max: i32) -> (vec: Vec<i32>)
    requires
        num_items >= 0,
        max > 0,
    ensures
        vec.len() == num_items,
        forall|k: int| 0 <= k < vec.len() ==> 0 <= #[trigger] vec@[k] && vec@[k] < max,
{
    let mut prng = Prng::new();
    let n: usize = num_items as usize;
    let mut vec: Vec<i32> = Vec::with_capacity(n);
    let mut idx: usize = 0;
    while idx < n
        invariant
            idx <= n,
            max > 0,
            vec.len() == idx,
            forall|k: int| 0 <= k < vec.len() ==> 0 <= #[trigger] vec@[k] && vec@[k] < max,
        decreases n - idx,
    {
        let x: i32 = prng.next_i32(0, max);
        vec.push(x);
        idx += 1;
    }
    vec
}

} // verus!

