use vstd::prelude::*;

verus! {

/// Counts from 1 to 5: each step yields the next number, and once past 5
/// yields nothing.
pub struct Counter {
    counter: u32,
}

impl Counter {
    /// How many steps have been taken.
    pub closed spec fn steps(&self) -> u32 {
        self.counter
    }

    /// A counter that has taken no step.
    pub fn new() -> (c: Counter)
        ensures
            c.steps() == 0,
    {
        Counter { counter: 0 }
    }

    /// Takes a step: the number of steps taken so far, while it is below 6.
    pub fn next(&mut self) -> (item: Option<u32>)
        requires
            old(self).steps() < u32::MAX,
        ensures
            final(self).steps() == old(self).steps() + 1,
            item == (if final(self).steps() < 6 {
                Some(final(self).steps())
            } else {
                None
            }),
    {
        self.counter += 1;
        if self.counter < 6 {
            Some(self.counter)
        } else {
            None
        }
    }
}

/// The sum, over `k` from 1 to `n`, of the products `k * (k + 1)` that are
/// multiples of 3.
pub open spec fn product_sum(n: nat) -> nat
    decreases n,
{
    if n == 0 {
        0
    } else {
        let p = n * (n + 1);
        product_sum((n - 1) as nat) + if p % 3 == 0 {
            p
        } else {
            0
        }
    }
}

/// The first sums: 0, 0, 6, 18, 18.
proof fn lemma_product_sum_small(n: nat)
    requires
        n <= 4,
    ensures
        product_sum(n) <= 18,
        n == 4 ==> product_sum(n) == 18,
{
    reveal_with_fuel(product_sum, 5);
    assert(product_sum(0) == 0);
    assert(product_sum(1) == 0);
    assert(product_sum(2) == 6);
    assert(product_sum(3) == 18);
    assert(product_sum(4) == 18);
}

/// Pairs each number of one counter with the next number of another
/// counter that has skipped its first, multiplies each pair, keeps the
/// products that are multiples of 3, and adds them up: 2 * 3 + 3 * 4 = 18.
pub fn zip_product_sum() -> (total: u32)
    ensures
        total == product_sum(4),
        total == 18,
{
    let mut a = Counter::new();
    let mut b = Counter::new();
    b.next();
    let mut total: u32 = 0;
    loop
        invariant_except_break
            a.steps() <= 4,
            b.steps() == a.steps() + 1,
            total == product_sum(a.steps() as nat),
        ensures
            total == product_sum(4),
        decreases 5 - a.steps(),
    {
        let ghost k = a.steps();
        let x = match a.next() {
            Some(x) => x,
            None => break,
        };
        let y = match b.next() {
            Some(y) => y,
            None => break,
        };
        assert(x * y == (k + 1) * (k + 2) && x * y <= 30) by (nonlinear_arith)
            requires
                x == k + 1,
                y == k + 2,
                k <= 3,
        ;
        let p = x * y;
        proof {
            lemma_product_sum_small((k + 1) as nat);
        }
        if p % 3 == 0 {
            total = total + p;
        }
    }
    proof {
        lemma_product_sum_small(4);
    }
    total
}

} // verus!
