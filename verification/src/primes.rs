//! Prime enumeration below a bound.

use vstd::prelude::*;

verus! {

/// `x` is prime: at least 2, and no integer in `[2, x)` divides it.
pub open spec fn is_prime(x: int) -> bool {
    2 <= x && forall|d: int| 2 <= d < x ==> #[trigger] (x % d) != 0
}

/// Whether any integer in `[2, x)` divides `x`, by trial division.
fn has_divisor(x: u32) -> (r: bool)
    requires
        x >= 2,
    ensures
        r == !is_prime(x as int),
{
    let mut d: u32 = 2;
    while d < x
        invariant
            2 <= d <= x,
            forall|e: int| 2 <= e < d ==> #[trigger] ((x as int) % e) != 0,
        decreases x - d,
    {
        if x % d == 0 {
            assert((x as int) % (d as int) == 0);
            return true;
        }
        d = d + 1;
    }
    false
}

/// Find all prime numbers less than `n`.
/// For example, `sieve(7)` should return `[2, 3, 5]`
pub fn sieve(n: u32) -> (ans: Vec<u32>)
    ensures
        forall|j: int| 0 <= j < ans@.len() ==> is_prime(#[trigger] ans@[j] as int) && ans@[j] < n,
        forall|x: u32| 2 <= x < n && is_prime(x as int) ==> ans@.contains(x),
        forall|i: int, j: int| 0 <= i < j < ans@.len() ==> ans@[i] < ans@[j],
{
    let mut ans: Vec<u32> = Vec::new();
    let mut x: u32 = 2;
    if n < 2 {
        return ans;
    }
    while x < n
        invariant
            2 <= x <= n,
            forall|j: int| 0 <= j < ans@.len() ==> is_prime(#[trigger] ans@[j] as int) && ans@[j]
                < x,
            forall|y: u32| 2 <= y < x && is_prime(y as int) ==> ans@.contains(y),
            forall|i: int, j: int| 0 <= i < j < ans@.len() ==> ans@[i] < ans@[j],
        decreases n - x,
    {
        if !has_divisor(x) {
            let ghost old_ans = ans@;
            ans.push(x);
            proof {
                assert(ans@[old_ans.len() as int] == x);
                assert(ans@.contains(x));
                assert forall|y: u32| 2 <= y < x + 1 && is_prime(y as int) implies ans@.contains(
                    y,
                ) by {
                    if y < x {
                        assert(old_ans.contains(y));
                        let i = choose|i: int| 0 <= i < old_ans.len() && old_ans[i] == y;
                        assert(ans@[i] == y);
                    }
                }
            }
        }
        x = x + 1;
    }
    ans
}

} // verus!
