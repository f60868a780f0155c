//! Pluggable policies that decide, for each record offered to a reservoir,
//! which index (if any, within capacity) it should replace.

use vstd::prelude::*;

verus! {

/// A `ReservoirControl` determines which records from a stream should be
/// included into a reservoir, and which records they should evict. This is
/// usually backed by a random number generator, but may be made deterministic
/// for testing.
pub trait ReservoirControl: Sized {
    /// The mathematical state the policy consults, as a sequence of integers.
    spec fn state(&self) -> Seq<int>;

    /// Whether the policy can answer a roll when `n` records have been seen.
    spec fn can_roll(&self, n: int) -> bool;

    /// The index the next roll returns, as a function of the current state.
    spec fn roll(&self, n: int) -> int;

    /// The state after the next roll.
    spec fn rolled(&self, n: int) -> Seq<int>;

    /// Upon seeing the latest record in a stream of `n` so far, rolls for the
    /// index into the reservoir that should be evicted to make room for this
    /// record. If the result is greater than or equal to the capacity of the
    /// reservoir, the record will be skipped; otherwise, it will evict the
    /// record at the given index. The input `n` is positive, and the result
    /// lies in `0..n`.
    fn destination(&mut self, n: usize) -> (r: usize)
        requires
            n >= 1,
            old(self).can_roll(n as int),
        ensures
            r < n,
            r as int == old(self).roll(n as int),
            final(self).state() == old(self).rolled(n as int),
    ;
}

#[verifier::external_type_specification]
#[verifier::external_body]
pub struct ExChaCha20Rng(rand_chacha::ChaCha20Rng);

/// The eviction index that the fixed-seed pseudorandom stream yields when
/// asked for a bound of `n` after the draws recorded in `history`.
pub uninterp spec fn default_draw(history: Seq<int>, n: int) -> int;

/// The default reservoir control: draws each eviction index uniformly at
/// random from a pseudorandom stream under a fixed seed, so that every
/// instance makes the same sequence of choices given the same sequence of
/// bounds.
pub struct DefaultControl {
    rng: rand_chacha::ChaCha20Rng,
    history: Ghost<Seq<int>>,
}

impl DefaultControl {
    /// Creates the default control, at the start of the fixed pseudorandom
    /// stream. All controls created by this function make the same sequence
    /// of choices when given the same sequence of bounds.
    pub fn new() -> (r: DefaultControl)
        ensures
            r.state() == Seq::<int>::empty(),
    {
        DefaultControl { rng: fixed_seed_rng(), history: Ghost(Seq::empty()) }
    }

    /// Relies on `rand::distributions::Uniform` over `0..n` sampled from
    /// `ChaCha20Rng`: the result lies in `[0, n)`, and since the generator is
    /// a deterministic, portable stream fixed by the seed and advanced only
    /// by these draws, the result is a function of the bounds drawn so far
    /// and `n` alone. Sampling is done over `u64` so that the values do not
    /// depend on the width of `usize`.
    #[verifier::external_body]
    fn draw(&mut self, n: usize) -> (r: usize)
        requires
            n >= 1,
        ensures
            r < n,
            r as int == default_draw(old(self).history@, n as int),
            final(self).history@ == old(self).history@.push(n as int),
    {
        let dist = rand::distributions::Uniform::from(0u64..(n as u64));
        rand::distributions::Distribution::sample(&dist, &mut self.rng) as usize
    }
}

/// Relies on `rand_chacha::ChaCha20Rng::seed_from_u64`: seeding with the
/// fixed value 0 always yields the same generator, positioned at the start of
/// one fixed, reproducible pseudorandom stream. A `DefaultControl` holds a
/// generator obtained only from here, advanced only by its recorded draws.
#[verifier::external_body]
fn fixed_seed_rng() -> (r: rand_chacha::ChaCha20Rng) {
    rand::SeedableRng::seed_from_u64(0)
}

impl ReservoirControl for DefaultControl {
    closed spec fn state(&self) -> Seq<int> {
        self.history@
    }

    open spec fn can_roll(&self, n: int) -> bool {
        true
    }

    open spec fn roll(&self, n: int) -> int {
        default_draw(self.state(), n)
    }

    open spec fn rolled(&self, n: int) -> Seq<int> {
        self.state().push(n)
    }

    fn destination(&mut self, n: usize) -> (r: usize) {
        self.draw(n)
    }
}

/// A reservoir control that reads from a predetermined sequence of values,
/// so that tests can script exact outcomes instead of relying on randomness.
pub struct ScriptedControl {
    script: Vec<usize>,
}

impl ScriptedControl {
    /// Creates a control with an empty script.
    pub fn new() -> (r: ScriptedControl)
        ensures
            r.state() == Seq::<int>::empty(),
    {
        let r = ScriptedControl { script: Vec::new() };
        proof {
            assert(r.state() =~= Seq::<int>::empty());
        }
        r
    }

    /// Appends the given values to the back of the script.
    pub fn extend(&mut self, values: Vec<usize>)
        ensures
            final(self).state() == old(self).state() + values@.map_values(|v: usize| v as int),
    {
        let ghost orig = self.script@;
        let mut i: usize = 0;
        while i < values.len()
            invariant
                i <= values@.len(),
                self.script@ == orig + values@.subrange(0, i as int),
            decreases values@.len() - i,
        {
            let v: usize = values[i];
            self.script.push(v);
            proof {
                assert(orig + values@.subrange(0, i as int + 1)
                    =~= (orig + values@.subrange(0, i as int)).push(values@[i as int]));
            }
            i = i + 1;
        }
        proof {
            assert(values@.subrange(0, values@.len() as int) =~= values@);
            assert(self.state() =~= old(self).state()
                + values@.map_values(|v: usize| v as int));
        }
    }
}

impl ReservoirControl for ScriptedControl {
    closed spec fn state(&self) -> Seq<int> {
        self.script@.map_values(|v: usize| v as int)
    }

    open spec fn can_roll(&self, n: int) -> bool {
        self.state().len() > 0 && self.state()[0] < n
    }

    open spec fn roll(&self, n: int) -> int {
        self.state()[0]
    }

    open spec fn rolled(&self, n: int) -> Seq<int> {
        self.state().drop_first()
    }

    fn destination(&mut self, n: usize) -> (r: usize) {
        let r = self.script.remove(0);
        proof {
            assert(self.state() =~= old(self).state().drop_first());
        }
        r
    }
}

} // verus!
