use vstd::prelude::*;

verus! {

/// The Fibonacci numbers: `fib(0) = 0`, `fib(1) = 1`, `fib(n) = fib(n - 1) + fib(n - 2)`.
pub open spec fn fib(n: nat) -> nat
    decreases n,
{
    if n == 0 {
        0
    } else if n == 1 {
        1
    } else {
        fib((n - 1) as nat) + fib((n - 2) as nat)
    }
}

/// The Fibonacci numbers start with 0 and 1, and from there on each is
/// the sum of the two before it.
pub proof fn lemma_fib_recurrence(n: nat)
    ensures
        fib(0) == 0,
        fib(1) == 1,
        fib(n + 2) == fib(n + 1) + fib(n),
{
}

/// `fib` never decreases.
pub proof fn lemma_fib_monotonic(i: nat, j: nat)
    requires
        i <= j,
    ensures
        fib(i) <= fib(j),
    decreases j - i,
{
    if i < j {
        lemma_fib_monotonic(i, (j - 1) as nat);
    }
}

/// Computes the `n`th Fibonacci number by the defining recursion.
///
/// The result must fit in a `u32` (that is, `n <= 47`); beyond that the
/// addition overflows.
pub fn fibonacci(n: u32) -> (result: u32)
    requires
        fib(n as nat) <= u32::MAX,
    ensures
        result == fib(n as nat),
    decreases n,
{
    match n {
        0 => 0,
        1 => 1,
        x => {
            proof {
                lemma_fib_monotonic((x - 1) as nat, x as nat);
                lemma_fib_monotonic((x - 2) as nat, x as nat);
            }
            fibonacci(x - 1) + fibonacci(x - 2)
        },
    }
}

} // verus!
