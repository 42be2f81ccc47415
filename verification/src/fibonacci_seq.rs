//! Fibonacci numbers, as the balance criterion of the rope needs them.

use vstd::prelude::*;

verus! {

/// The Fibonacci sequence with `fib(0) = fib(1) = fib(2) = 1`.
pub open spec fn fib(n: nat) -> nat
    decreases n,
{
    if n <= 2 {
        1
    } else {
        fib((n - 1) as nat) + fib((n - 2) as nat)
    }
}

/// Every Fibonacci number is positive.
pub proof fn lemma_fib_positive(n: nat)
    ensures
        fib(n) >= 1,
    decreases n,
{
    if n > 2 {
        lemma_fib_positive((n - 1) as nat);
    }
}

/// The Fibonacci sequence never decreases.
pub proof fn lemma_fib_monotonic(a: nat, b: nat)
    requires
        a <= b,
    ensures
        fib(a) <= fib(b),
    decreases b,
{
    if a < b {
        if b <= 2 {
        } else {
            lemma_fib_monotonic(a, (b - 1) as nat);
            lemma_fib_positive((b - 2) as nat);
        }
    }
}

/// The `num`-th Fibonacci number, or `None` when it does not fit in a `usize`.
pub fn checked_fibonacci_number(num: usize) -> (r: Option<usize>)
    ensures
        match r {
            Some(v) => v == fib(num as nat),
            None => fib(num as nat) > usize::MAX,
        },
{
    if num <= 2 {
        return Some(1);
    }
    let mut prev_prev: usize = 1;
    let mut prev: usize = 1;
    let mut cur_num: usize = 3;
    loop
        invariant
            3 <= cur_num <= num,
            prev == fib((cur_num - 1) as nat),
            prev_prev == fib((cur_num - 2) as nat),
        decreases num - cur_num,
    {
        let next: usize = match prev.checked_add(prev_prev) {
            Some(v) => v,
            None => {
                proof {
                    lemma_fib_monotonic(cur_num as nat, num as nat);
                }
                return None;
            },
        };
        if cur_num < num {
            prev_prev = prev;
            prev = next;
            cur_num += 1;
        } else {
            return Some(next);
        }
    }
}

/// The `num`-th Fibonacci number, computed iteratively.
pub fn get_fibonacci_number(num: usize) -> (r: usize)
    requires
        fib(num as nat) <= usize::MAX,
    ensures
        r == fib(num as nat),
{
    if num <= 2 {
        return 1;
    }
    let mut prev_prev: usize = 1;
    let mut prev: usize = 1;
    let mut cur_num: usize = 3;
    loop
        invariant
            3 <= cur_num <= num,
            prev == fib((cur_num - 1) as nat),
            prev_prev == fib((cur_num - 2) as nat),
            fib(num as nat) <= usize::MAX,
        decreases num - cur_num,
    {
        proof {
            lemma_fib_monotonic(cur_num as nat, num as nat);
        }
        if cur_num < num {
            let tmp: usize = prev;
            prev += prev_prev;
            prev_prev = tmp;
            cur_num += 1;
        } else {
            return prev + prev_prev;
        }
    }
}

} // verus!
