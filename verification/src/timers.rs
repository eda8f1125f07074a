use vstd::prelude::*;
use vstd::multiset::Multiset;

verus! {

broadcast use vstd::seq_lib::group_to_multiset_ensures;

/// A pending timer: the instant it is due, in ticks of the caller's clock,
/// and what to wake then.
pub struct Timer<W> {
    pub wake_up: u64,
    pub waker: W,
}

impl<W> Timer<W> {
    /// A timer due at `wake_up` that wakes `waker`.
    pub fn new(wake_up: u64, waker: W) -> (timer: Timer<W>)
        ensures
            timer.wake_up == wake_up,
            timer.waker == waker,
    {
        Timer { wake_up, waker }
    }
}

/// Timers ordered by the instant they are due, earliest first.
pub open spec fn ordered<W>(s: Seq<Timer<W>>) -> bool {
    forall|i: int, j: int| 0 <= i < j < s.len() ==> #[trigger] s[i].wake_up <= #[trigger] s[j].wake_up
}

/// `after` is `before` with `timer` inserted at position `p`, after every
/// timer due no later than it and before every timer due later.
pub open spec fn inserted_at<W>(before: Seq<Timer<W>>, after: Seq<Timer<W>>, timer: Timer<W>, p: int) -> bool {
    &&& 0 <= p <= before.len()
    &&& after == before.insert(p, timer)
    &&& forall|k: int| 0 <= k < p ==> #[trigger] before[k].wake_up <= timer.wake_up
    &&& forall|k: int| p <= k < before.len() ==> #[trigger] before[k].wake_up > timer.wake_up
}

/// What the timers of `s` wake, in the order of `s`.
pub open spec fn wakers<W>(s: Seq<Timer<W>>) -> Seq<W> {
    s.map_values(|t: Timer<W>| t.waker)
}

/// Taking the timer before position `k` puts its waker after the wakers of
/// the timers from `k` on, taken latest first.
proof fn lemma_wakers_step<W>(s: Seq<Timer<W>>, k: int)
    requires
        0 < k <= s.len(),
    ensures
        wakers(s.skip(k - 1)).reverse() =~= wakers(s.skip(k)).reverse().push(s[k - 1].waker),
{
    assert(s.skip(k - 1) =~= seq![s[k - 1]] + s.skip(k));
    assert(wakers(s.skip(k - 1)) =~= seq![s[k - 1].waker] + wakers(s.skip(k)));
}

/// The timers that have been registered and not yet woken, ordered by the
/// instant they are due; timers due at the same instant keep the order in
/// which they arrived.
pub struct TimerProcessor<W> {
    timers: Vec<Timer<W>>,
    arrived: Ghost<Seq<Timer<W>>>,
    released: Ghost<Seq<(Timer<W>, u64)>>,
}

/// The timers of a record of released timers.
pub open spec fn released_timers<W>(r: Seq<(Timer<W>, u64)>) -> Seq<Timer<W>> {
    r.map_values(|e: (Timer<W>, u64)| e.0)
}

/// Each of `s` paired with the instant `now`.
pub open spec fn at_instant<W>(s: Seq<Timer<W>>, now: u64) -> Seq<(Timer<W>, u64)> {
    s.map_values(|t: Timer<W>| (t, now))
}

/// Inserting an element adds it to the multiset.
proof fn lemma_insert_multiset<A>(s: Seq<A>, p: int, a: A)
    requires
        0 <= p <= s.len(),
    ensures
        s.insert(p, a).to_multiset() =~= s.to_multiset().insert(a),
{
    broadcast use vstd::seq_lib::group_to_multiset_ensures;

    let t = s.insert(p, a);
    assert(t.remove(p) =~= s);
    assert(t[p] == a);
    assert(t.to_multiset().count(a) > 0);
}

impl<W> TimerProcessor<W> {
    /// The pending timers, earliest first.
    pub closed spec fn pending(&self) -> Seq<Timer<W>> {
        self.timers@
    }

    /// Every timer taken in so far (by `push` or `receive`), in order.
    pub closed spec fn arrived(&self) -> Seq<Timer<W>> {
        self.arrived@
    }

    /// Every timer handed out to be woken so far, in order, each with the
    /// instant at which it was handed out.
    pub closed spec fn released(&self) -> Seq<(Timer<W>, u64)> {
        self.released@
    }

    /// The timers that arrived are exactly those pending and those
    /// released, each as often as it arrived: no timer is released that did
    /// not arrive, nor more often than it arrived.  And every timer was
    /// released at an instant at which it was due.
    pub open spec fn balanced(&self) -> bool {
        &&& self.arrived().to_multiset() == self.pending().to_multiset().add(
            released_timers(self.released()).to_multiset(),
        )
        &&& forall|i: int|
            0 <= i < self.released().len() ==> (#[trigger] self.released()[i]).0.wake_up
                <= self.released()[i].1
    }

    #[verifier::type_invariant]
    spec fn well_formed(&self) -> bool {
        ordered(self.timers@)
    }

    /// A processor with no pending timer.
    pub fn new() -> (processor: TimerProcessor<W>)
        ensures
            processor.pending() == Seq::<Timer<W>>::empty(),
            processor.arrived() == Seq::<Timer<W>>::empty(),
            processor.released() == Seq::<(Timer<W>, u64)>::empty(),
            processor.balanced(),
    {
        let processor = TimerProcessor {
            timers: Vec::new(),
            arrived: Ghost(Seq::empty()),
            released: Ghost(Seq::empty()),
        };
        assert(released_timers(processor.released()) =~= Seq::<Timer<W>>::empty());
        assert(processor.pending().to_multiset() =~= Multiset::<Timer<W>>::empty());
        assert(processor.arrived().to_multiset() =~= Multiset::<Timer<W>>::empty());
        assert(released_timers(processor.released()).to_multiset() =~= Multiset::<Timer<W>>::empty());
        assert(processor.arrived().to_multiset() =~= processor.pending().to_multiset().add(
            released_timers(processor.released()).to_multiset(),
        ));
        processor
    }

    /// Whether no timer is pending.
    pub fn is_empty(&self) -> (empty: bool)
        ensures
            empty == (self.pending().len() == 0),
    {
        self.timers.len() == 0
    }

    /// Adds `timer` to the pending timers, after every pending timer that is
    /// due no later than it and before every one due later.
    pub fn push(&mut self, timer: Timer<W>)
        requires
            old(self).balanced(),
        ensures
            ordered(final(self).pending()),
            exists|p: int| #[trigger] inserted_at(old(self).pending(), final(self).pending(), timer, p),
            final(self).arrived() == old(self).arrived().push(timer),
            final(self).released() == old(self).released(),
            final(self).balanced(),
    {
        proof {
            use_type_invariant(&*self);
        }
        let ghost before = self.timers@;
        let mut p = self.timers.len();
        while p > 0 && self.timers[p - 1].wake_up > timer.wake_up
            invariant
                p <= self.timers@.len(),
                self.timers@ == before,
                forall|k: int| p <= k < before.len() ==> #[trigger] before[k].wake_up
                    > timer.wake_up,
            decreases p,
        {
            p -= 1;
        }
        let ghost t = timer;
        assert forall|k: int| 0 <= k < p implies #[trigger] before[k].wake_up <= t.wake_up by {
            if p > 0 {
                assert(before[k].wake_up <= before[p - 1].wake_up);
            }
        }
        let mut timers = Vec::new();
        std::mem::swap(&mut timers, &mut self.timers);
        timers.insert(p, timer);
        let ghost after = timers@;
        assert(after == before.insert(p as int, t));
        assert forall|i: int, j: int| 0 <= i < j < after.len() implies #[trigger] after[i].wake_up
            <= #[trigger] after[j].wake_up by {
            if j < p {
                assert(after[i] == before[i] && after[j] == before[j]);
            } else if j == p {
                assert(after[i] == before[i]);
            } else if i == p {
                assert(after[j] == before[j - 1]);
            } else if i < p {
                assert(after[i] == before[i] && after[j] == before[j - 1]);
            } else {
                assert(after[i] == before[i - 1] && after[j] == before[j - 1]);
            }
        }
        self.timers = timers;
        self.arrived = Ghost(self.arrived@.push(t));
        assert(inserted_at(before, self.pending(), t, p as int));
        assert(old(self).pending() == before);
        assert(t == timer);
        proof {
            lemma_insert_multiset(before, p as int, t);
            vstd::seq_lib::to_multiset_build(old(self).arrived(), t);
            assert(self.arrived().to_multiset() =~= self.pending().to_multiset().add(
                released_timers(self.released()).to_multiset(),
            ));
        }
    }

    /// Takes in a newly registered timer at instant `now`: a timer that is
    /// already due is handed back to be woken at once and not kept; any
    /// other timer joins the pending ones.
    pub fn receive(&mut self, timer: Timer<W>, now: u64) -> (due: Option<W>)
        requires
            old(self).balanced(),
        ensures
            final(self).balanced(),
            final(self).arrived() == old(self).arrived().push(timer),
            timer.wake_up <= now ==> final(self).released() == old(self).released().push(
                (timer, now),
            ),
            timer.wake_up > now ==> final(self).released() == old(self).released(),
            timer.wake_up <= now ==> due == Some(timer.waker) && final(self).pending() == old(
                self,
            ).pending(),
            timer.wake_up > now ==> due is None && ordered(final(self).pending()) && exists|p: int|
                #[trigger] inserted_at(old(self).pending(), final(self).pending(), timer, p),
    {
        proof {
            use_type_invariant(&*self);
        }
        if timer.wake_up <= now {
            let ghost t = timer;
            let ghost r = self.released@;
            self.arrived = Ghost(self.arrived@.push(t));
            self.released = Ghost(self.released@.push((t, now)));
            proof {
                vstd::seq_lib::to_multiset_build(old(self).arrived(), t);
                assert(released_timers(self.released()) =~= released_timers(r).push(t));
                vstd::seq_lib::to_multiset_build(released_timers(r), t);
                assert(self.arrived().to_multiset() =~= self.pending().to_multiset().add(
                    released_timers(self.released()).to_multiset(),
                ));
                assert forall|i: int| 0 <= i < self.released().len() implies (
                #[trigger] self.released()[i]).0.wake_up <= self.released()[i].1 by {
                    if i < r.len() {
                        assert(self.released()[i] == old(self).released()[i]);
                    }
                }
            }
            Some(timer.waker)
        } else {
            self.push(timer);
            None
        }
    }

    /// Wakes the timers that are due at instant `now`, the way a max-heap
    /// of timers is drained: while the latest pending timer is due, it is
    /// taken out.  So either the latest pending timer is due, and then every
    /// pending timer is taken, latest first; or it is not, and none is,
    /// even if earlier ones are due.  Returns what the taken timers wake, in
    /// the order they were taken.
    pub fn take_expired(&mut self, now: u64) -> (woken: Vec<W>)
        requires
            old(self).balanced(),
        ensures
            final(self).balanced(),
            final(self).arrived() == old(self).arrived(),
            old(self).pending().len() > 0 && old(self).pending().last().wake_up <= now
                ==> final(self).released() == old(self).released() + at_instant(
                old(self).pending().reverse(),
                now,
            ),
            !(old(self).pending().len() > 0 && old(self).pending().last().wake_up <= now)
                ==> final(self).released() == old(self).released(),
            old(self).pending().len() > 0 && old(self).pending().last().wake_up <= now ==> {
                &&& woken@ == wakers(old(self).pending()).reverse()
                &&& final(self).pending() == Seq::<Timer<W>>::empty()
            },
            woken@.len() > 0 ==> forall|i: int|
                0 <= i < old(self).pending().len() ==> #[trigger] old(self).pending()[i].wake_up
                    <= now,
            !(old(self).pending().len() > 0 && old(self).pending().last().wake_up <= now) ==> {
                &&& woken@ == Seq::<W>::empty()
                &&& final(self).pending() == old(self).pending()
            },
    {
        proof {
            use_type_invariant(&*self);
        }
        let ghost before = self.timers@;
        let ghost n = before.len() as int;
        let mut woken: Vec<W> = Vec::new();
        let mut timers = Vec::new();
        std::mem::swap(&mut timers, &mut self.timers);
        while timers.len() > 0
            invariant_except_break
                n == before.len(),
                timers@ == before.take(timers@.len() as int),
                timers@.len() <= n,
                ordered(before),
                woken@ == wakers(before.skip(timers@.len() as int)).reverse(),
                timers@.len() < n ==> before.last().wake_up <= now,
            ensures
                n == before.len(),
                timers@.len() == 0 || (timers@.len() == n && woken@.len() == 0),
                timers@.len() > 0 ==> before[timers@.len() - 1].wake_up > now,
                timers@ == before.take(timers@.len() as int),
                woken@ == wakers(before.skip(timers@.len() as int)).reverse(),
                timers@.len() < n ==> before.last().wake_up <= now,
            decreases timers@.len(),
        {
            let last = timers.len() - 1;
            if timers[last].wake_up <= now {
                let ghost k = timers@.len() as int;
                let timer = timers.pop().unwrap();
                let ghost w = timer.waker;
                woken.push(timer.waker);
                proof {
                    assert(timer == before[k - 1]);
                    lemma_wakers_step(before, k);
                    assert(timers@ =~= before.take(k - 1));
                }
            } else {
                proof {
                    let k = timers@.len() as int;
                    if k < n {
                        assert(before[k - 1].wake_up <= before[n - 1].wake_up);
                    }
                    assert(before.skip(n) =~= Seq::<Timer<W>>::empty());
                }
                break;
            }
        }
        proof {
            assert(before.skip(0) =~= before);
            assert(before.take(n) =~= before);
            assert(before.take(0) =~= Seq::<Timer<W>>::empty());
        }
        self.timers = timers;
        assert(old(self).pending() == before);
        if woken.len() > 0 {
            let ghost r = self.released@;
            let ghost added = at_instant(before.reverse(), now);
            self.released = Ghost(self.released@ + added);
            proof {
                assert(timers@.len() == 0);
                assert(added.len() == n);
                let rt = released_timers(self.released());
                assert forall|i: int| 0 <= i < rt.len() implies #[trigger] rt[i] == (released_timers(r) + before.reverse())[i] by {
                    if i < r.len() {
                        assert(self.released()[i] == r[i]);
                    } else {
                        assert(self.released()[i] == added[i - r.len()]);
                    }
                }
                assert(released_timers(self.released()) =~= released_timers(r) + before.reverse());
                vstd::seq_lib::lemma_multiset_commutative(released_timers(r), before.reverse());
                before.lemma_reverse_to_multiset();
                assert(self.pending().to_multiset() =~= Multiset::<Timer<W>>::empty());
                assert(self.arrived().to_multiset() =~= self.pending().to_multiset().add(
                    released_timers(self.released()).to_multiset(),
                ));
                assert forall|i: int| 0 <= i < self.released().len() implies (
                #[trigger] self.released()[i]).0.wake_up <= self.released()[i].1 by {
                    if i < r.len() {
                        assert(self.released()[i] == r[i]);
                    } else {
                        let j = i - r.len();
                        assert(self.released()[i] == added[j]);
                        assert(added[j].0 == before[n - 1 - j]);
                        assert(before[n - 1 - j].wake_up <= before[n - 1].wake_up);
                    }
                }
            }
        }
        woken
    }
}

} // verus!
