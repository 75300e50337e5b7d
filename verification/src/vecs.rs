//! Small operations on vectors.

use vstd::prelude::*;

verus! {

/// Reverses a vector in place, moving its items.
pub fn reverse<T>(items: &mut Vec<T>)
    ensures
        final(items)@ == old(items)@.reverse(),
{
    let n = items.len();
    let mut out: Vec<T> = Vec::new();
    let ghost all = items@;
    let mut i: usize = 0;
    while i < n
        invariant
            i <= n,
            n == all.len(),
            items@ == all.take(n - i),
            out@ == all.skip(n - i).reverse(),
        decreases n - i,
    {
        let item = items.pop().unwrap();
        out.push(item);
        proof {
            assert(items@ =~= all.take(n - i - 1));
            assert(out@ =~= all.skip(n - i - 1).reverse());
        }
        i += 1;
    }
    proof {
        assert(all.skip(0) =~= all);
    }
    *items = out;
}

} // verus!
