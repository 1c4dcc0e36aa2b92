//! The Fibonacci numbers in 32 bits, which the demonstration program is
//! held against.

use vstd::prelude::*;

verus! {

/// The Fibonacci number of index `n`: 0, 1, and from then on the sum of the
/// two before.
pub open spec fn fib(n: nat) -> nat
    decreases n,
{
    if n == 0 {
        0
    } else if n == 1 {
        1
    } else {
        fib((n - 1) as nat) + fib((n - 2) as nat)
    }
}

/// The Fibonacci number of index `n`, as far as it fits in 32 bits: what is
/// left of it after division by 2 to the 32.
pub fn fib_u32(n: u32) -> (r: u32)
    ensures
        r == fib(n as nat) % 0x1_0000_0000,
{
    let mut left: u32 = n;
    let mut a: u32 = 0;
    let mut b: u32 = 1;
    while left > 0
        invariant
            left <= n,
            a == fib((n - left) as nat) % 0x1_0000_0000,
            b == fib((n - left + 1) as nat) % 0x1_0000_0000,
        decreases left,
    {
        let next = a.wrapping_add(b);
        proof {
            let k = (n - left) as nat;
            assert(fib(k + 2) == fib(k + 1) + fib(k));
            assert(next == (fib(k) + fib(k + 1)) % 0x1_0000_0000);
        }
        a = b;
        b = next;
        left -= 1;
    }
    a
}

} // verus!
