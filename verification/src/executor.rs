use vstd::prelude::*;
use std::collections::HashMap;

verus! {

broadcast use vstd::std_specs::hash::group_hash_axioms;

/// A unit of work for the thread that drives futures: stop, take a new
/// future, or poll again the future stored under a key.
pub enum Task<F> {
    Stop,
    Future(F),
    Resume(usize),
}

/// Storing under a key twice keeps only the second value.
proof fn lemma_insert_twice<F>(m: Map<usize, F>, key: usize, first: F)
    ensures
        forall|second: F| #[trigger] m.insert(key, first).insert(key, second) == m.insert(key, second),
{
    assert forall|second: F| #[trigger] m.insert(key, first).insert(key, second) == m.insert(key, second) by {
        assert(m.insert(key, first).insert(key, second) =~= m.insert(key, second));
    }
}

/// The futures that have been started and have not completed, each under
/// the key it was given when it started.  Keys are handed out in increasing
/// order and never reused.
pub struct FutureProcessor<F> {
    counter: usize,
    futures: HashMap<usize, F>,
}

/// How many of `started` are `true`.
pub open spec fn count_started(started: Seq<bool>) -> nat
    decreases started.len(),
{
    if started.len() == 0 {
        0
    } else {
        count_started(started.drop_last()) + if started.last() { 1nat } else { 0nat }
    }
}

/// Where every pending future holds a key below the next key, the next key
/// is held by none of them: the future started next gets a fresh key and
/// overwrites no other.
pub proof fn lemma_next_key_fresh<F>(p: FutureProcessor<F>)
    requires
        p.keys_below_next(),
    ensures
        !p.pending().contains_key(p.next_key()),
        forall|k: usize| #[trigger] p.pending().contains_key(k) ==> k != p.next_key(),
{
}

/// Keys are handed out 0, 1, 2, ... in the order the futures are started.
/// Take a run of processors from a new one, where step `i` either starts a
/// future (`started[i]`, as `run_future` does: the next key moves on by one)
/// or polls one again (as `resume` does: the next key stays).  Then after
/// `i` steps the next key is the number of futures started so far, so the
/// future started at step `i` got that number as its key, and no pending
/// future ever held it.
pub proof fn lemma_keys_in_start_order<F>(run: Seq<FutureProcessor<F>>, started: Seq<bool>)
    requires
        run.len() == started.len() + 1,
        run[0].next_key() == 0,
        run[0].keys_below_next(),
        forall|i: int|
            0 <= i < started.len() ==> (#[trigger] run[i + 1]).keys_below_next() && (if started[i] {
                run[i + 1].next_key() == run[i].next_key() + 1
            } else {
                run[i + 1].next_key() == run[i].next_key()
            }),
    ensures
        forall|i: int| 0 <= i < run.len() ==> (#[trigger] run[i]).next_key() == count_started(started.take(i)),
        forall|i: int|
            0 <= i < started.len() && started[i] ==> !(#[trigger] run[i]).pending().contains_key(
                count_started(started.take(i)) as usize,
            ),
    decreases started.len(),
{
    if started.len() > 0 {
        let n = started.len() - 1;
        let shorter = run.drop_last();
        let first = started.drop_last();
        assert forall|i: int| 0 <= i < first.len() implies (#[trigger] shorter[i + 1]).keys_below_next() && (if first[i] {
                shorter[i + 1].next_key() == shorter[i].next_key() + 1
            } else {
                shorter[i + 1].next_key() == shorter[i].next_key()
            }) by {
            assert(run[i + 1].keys_below_next());
        }
        lemma_keys_in_start_order(shorter, first);
        assert forall|i: int| 0 <= i < run.len() implies (#[trigger] run[i]).next_key() == count_started(started.take(i)) by {
            if i <= n {
                assert(shorter[i] == run[i]);
                assert(first.take(i) =~= started.take(i));
            } else {
                assert(shorter[n] == run[n]);
                assert(first.take(n) =~= started.take(n));
                assert(run[n + 1].keys_below_next());
                assert(started.take(i).drop_last() =~= started.take(n));
                assert(started.take(i) =~= started);
            }
        }
        assert forall|i: int| 0 <= i < started.len() && started[i] implies !(#[trigger] run[i]).pending().contains_key(
                count_started(started.take(i)) as usize,
            ) by {
            if i < n {
                assert(shorter[i] == run[i]);
                assert(first.take(i) =~= started.take(i));
                assert(first[i] == started[i]);
            } else {
                assert(shorter[n] == run[n]);
                assert(first.take(n) =~= started.take(n));
                if n > 0 {
                    let prev = n - 1;
                    assert((run[prev + 1]).keys_below_next());
                    assert(run[prev + 1] == run[n]);
                }
                lemma_next_key_fresh(run[n]);
            }
        }
    }
}

impl<F> FutureProcessor<F> {
    /// The pending futures by key.
    pub closed spec fn pending(&self) -> Map<usize, F> {
        self.futures@
    }

    /// The key the next future will get.
    pub closed spec fn next_key(&self) -> usize {
        self.counter
    }

    #[verifier::type_invariant]
    spec fn well_formed(&self) -> bool {
        forall|k: usize| #[trigger] self.futures@.contains_key(k) ==> k < self.counter
    }

    /// Every pending future has a key below the next key, so the next key
    /// is fresh.
    pub open spec fn keys_below_next(&self) -> bool {
        forall|k: usize| #[trigger] self.pending().contains_key(k) ==> k < self.next_key()
    }

    /// The key the next future will get; no pending future holds it, and
    /// every pending future holds a key below it.
    pub fn counter(&self) -> (key: usize)
        ensures
            key == self.next_key(),
            self.keys_below_next(),
            !self.pending().contains_key(key),
    {
        proof {
            use_type_invariant(self);
        }
        self.counter
    }

    /// A processor with no future; the first future gets key 0.
    pub fn new() -> (processor: FutureProcessor<F>)
        ensures
            processor.pending() == Map::<usize, F>::empty(),
            processor.next_key() == 0,
            processor.keys_below_next(),
    {
        FutureProcessor { counter: 0, futures: HashMap::new() }
    }

    /// Polls the future stored under `key` once, if there is one: `poll`
    /// gets the key and the future, and hands the future back while it is
    /// not complete (it is then stored again under the same key) or returns
    /// `None` once it has completed (its key is then gone).
    pub fn resume<P: Fn(usize, F) -> Option<F>>(&mut self, key: usize, poll: &P)
        requires
            old(self).pending().contains_key(key) ==> call_requires(
                *poll,
                (key, old(self).pending()[key]),
            ),
        ensures
            final(self).next_key() == old(self).next_key(),
            final(self).keys_below_next(),
            !old(self).pending().contains_key(key) ==> final(self).pending() == old(self).pending(),
            old(self).pending().contains_key(key) ==> exists|r: Option<F>|
                {
                    &&& #[trigger] call_ensures(*poll, (key, old(self).pending()[key]), r)
                    &&& final(self).pending() == match r {
                        Some(f) => old(self).pending().insert(key, f),
                        None => old(self).pending().remove(key),
                    }
                },
    {
        proof {
            use_type_invariant(&*self);
        }
        let mut futures = HashMap::new();
        std::mem::swap(&mut futures, &mut self.futures);
        let ghost before = futures@;
        if let Some(future) = futures.remove(&key) {
            let ghost f0 = future;
            let polled = poll(key, future);
            match polled {
                Some(pending) => {
                    futures.insert(key, pending);
                    assert(futures@ == before.insert(key, pending));
                },
                None => {},
            }
            assert(call_ensures(*poll, (key, f0), polled));
        }
        self.futures = futures;
    }

    /// Starts `future`: stores it under the next key, moves the next key on
    /// by one, and polls the future once as `resume` does.
    pub fn run_future<P: Fn(usize, F) -> Option<F>>(&mut self, future: F, poll: &P)
        requires
            call_requires(*poll, (old(self).next_key(), future)),
            old(self).next_key() < usize::MAX,
        ensures
            final(self).next_key() == old(self).next_key() + 1,
            final(self).keys_below_next(),
            !old(self).pending().contains_key(old(self).next_key()),
            exists|r: Option<F>|
                {
                    &&& #[trigger] call_ensures(*poll, (old(self).next_key(), future), r)
                    &&& final(self).pending() == match r {
                        Some(f) => old(self).pending().insert(old(self).next_key(), f),
                        None => old(self).pending(),
                    }
                },
    {
        proof {
            use_type_invariant(&*self);
        }
        let key = self.counter;
        let ghost before = self.futures@;
        let ghost f0 = future;
        self.counter = key + 1;
        let mut futures = HashMap::new();
        std::mem::swap(&mut futures, &mut self.futures);
        futures.insert(key, future);
        self.futures = futures;
        self.resume(key, poll);
        assert(before.insert(key, f0).remove(key) =~= before);
        proof {
            lemma_insert_twice(before, key, f0);
        }
    }

    /// Carries out one task: `Stop` asks the driving loop to end (the result
    /// is `false`); `Future` starts the future as `run_future` does;
    /// `Resume` polls the future under the key as `resume` does.
    pub fn process<P: Fn(usize, F) -> Option<F>>(&mut self, task: Task<F>, poll: &P) -> (keep_going: bool)
        requires
            task matches Task::Future(future) ==> call_requires(
                *poll,
                (old(self).next_key(), future),
            ),
            task matches Task::Resume(key) ==> old(self).pending().contains_key(key) ==> call_requires(
                *poll,
                (key, old(self).pending()[key]),
            ),
            task is Future ==> old(self).next_key() < usize::MAX,
        ensures
            keep_going == !(task is Stop),
            final(self).keys_below_next(),
            task is Stop ==> final(self).pending() == old(self).pending() && final(self).next_key()
                == old(self).next_key(),
            task matches Task::Future(future) ==> {
                &&& final(self).next_key() == old(self).next_key() + 1
                &&& exists|r: Option<F>|
                    {
                        &&& #[trigger] call_ensures(*poll, (old(self).next_key(), future), r)
                        &&& final(self).pending() == match r {
                            Some(f) => old(self).pending().insert(old(self).next_key(), f),
                            None => old(self).pending(),
                        }
                    }
            },
            task matches Task::Resume(key) ==> {
                &&& final(self).next_key() == old(self).next_key()
                &&& !old(self).pending().contains_key(key) ==> final(self).pending() == old(
                    self,
                ).pending()
                &&& old(self).pending().contains_key(key) ==> exists|r: Option<F>|
                    {
                        &&& #[trigger] call_ensures(*poll, (key, old(self).pending()[key]), r)
                        &&& final(self).pending() == match r {
                            Some(f) => old(self).pending().insert(key, f),
                            None => old(self).pending().remove(key),
                        }
                    }
            },
    {
        proof {
            use_type_invariant(&*self);
        }
        match task {
            Task::Stop => false,
            Task::Future(future) => {
                self.run_future(future, poll);
                true
            },
            Task::Resume(key) => {
                self.resume(key, poll);
                true
            },
        }
    }
}

} // verus!
