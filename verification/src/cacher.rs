use vstd::prelude::*;

verus! {

/// Runs a calculation at most once and remembers its answer: the first
/// request computes it, every later one gets the remembered answer,
/// whatever argument it brings.  `runs` counts the answers the cache has
/// computed and stored; it is raised where `value` stores the answer of
/// its one call of the calculation, and never exceeds 1.
pub struct Cacher<T> where T: Fn(u32) -> u32 {
    calculation: T,
    value: Option<u32>,
    runs: Ghost<nat>,
}

impl<T> Cacher<T> where T: Fn(u32) -> u32 {
    /// The calculation this cache runs.
    pub closed spec fn calculation(&self) -> T {
        self.calculation
    }

    /// The remembered answer, once there is one.
    pub closed spec fn cached(&self) -> Option<u32> {
        self.value
    }

    /// How many answers the cache has computed and stored (0 or 1).
    pub closed spec fn runs(&self) -> nat {
        self.runs@
    }

    #[verifier::type_invariant]
    spec fn well_formed(&self) -> bool {
        &&& self.value is None ==> self.runs@ == 0
        &&& self.value is Some ==> self.runs@ == 1
    }

    /// A cache for `calculation` with nothing remembered yet.
    pub fn new(calculation: T) -> (cacher: Cacher<T>)
        ensures
            cacher.calculation() == calculation,
            cacher.cached() is None,
            cacher.runs() == 0,
    {
        Cacher { calculation, value: None, runs: Ghost(0) }
    }

    /// The remembered answer if there is one; otherwise runs the
    /// calculation on `intensity`, remembers its answer and returns it.
    pub fn value(&mut self, intensity: u32) -> (v: u32)
        requires
            old(self).cached() is None ==> call_requires(old(self).calculation(), (intensity,)),
        ensures
            final(self).calculation() == old(self).calculation(),
            final(self).cached() == Some(v),
            old(self).cached() matches Some(c) ==> v == c && *final(self) == *old(self),
            old(self).cached() is None ==> call_ensures(old(self).calculation(), (intensity,), v),
            old(self).cached() is Some ==> final(self).runs() == old(self).runs(),
            old(self).cached() is None ==> final(self).runs() == old(self).runs() + 1,
            final(self).runs() == 1,
    {
        proof {
            use_type_invariant(&*self);
        }
        match self.value {
            Some(v) => v,
            None => {
                let value = (self.calculation)(intensity);
                remember(&mut self.value, &mut self.runs, value);
                value
            },
        }
    }
}

/// Stores a computed answer and counts it.
fn remember(slot: &mut Option<u32>, runs: &mut Ghost<nat>, answer: u32)
    ensures
        *final(slot) == Some(answer),
        final(runs)@ == old(runs)@ + 1,
    no_unwind
{
    *slot = Some(answer);
    *runs = Ghost(runs@ + 1);
}

} // verus!
