//! Claims: the flags that tell which daemons a solution uploads.

use vstd::prelude::*;

verus! {

/// Tells whether two flag vectors are the same.
pub fn same_flags(a: &Vec<bool>, b: &Vec<bool>) -> (r: bool)
    ensures
        r == (a@ == b@),
{
    if a.len() != b.len() {
        return false;
    }
    let mut k: usize = 0;
    while k < a.len()
        invariant
            k <= a@.len(),
            a@.len() == b@.len(),
            forall|m: int| 0 <= m < k ==> a@[m] == b@[m],
        decreases a@.len() - k,
    {
        if a[k] != b[k] {
            return false;
        }
        k += 1;
    }
    proof {
        assert(a@ =~= b@);
    }
    true
}

/// Copies a vector of flags.
pub fn copy_flags(flags: &Vec<bool>) -> (r: Vec<bool>)
    ensures
        r@ == flags@,
{
    let mut r: Vec<bool> = Vec::with_capacity(flags.len());
    let mut k: usize = 0;
    while k < flags.len()
        invariant
            k <= flags@.len(),
            r@ == flags@.subrange(0, k as int),
        decreases flags@.len() - k,
    {
        r.push(flags[k]);
        k += 1;
    }
    proof {
        assert(flags@.subrange(0, flags@.len() as int) =~= flags@);
    }
    r
}

} // verus!
