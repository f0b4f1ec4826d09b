//! Small sequence helpers.

use vstd::prelude::*;

verus! {

/// The adjacent pairs of a sequence: `(v[0], v[1]), (v[1], v[2]), ...`.
pub fn pairwise<T: Copy>(container: &Vec<T>) -> (pairs: Vec<(T, T)>)
    ensures
        pairs@.len() == (if container@.len() >= 1 {
            container@.len() - 1
        } else {
            0
        }),
        forall|i: int|
            0 <= i < pairs@.len() ==> #[trigger] pairs@[i] == (container@[i], container@[i + 1]),
{
    let mut pairs: Vec<(T, T)> = Vec::new();
    let n: usize = if container.len() == 0 {
        0
    } else {
        container.len() - 1
    };
    let mut i: usize = 0;
    while i < n
        invariant
            n as int == (if container@.len() >= 1 {
                container@.len() - 1
            } else {
                0
            }),
            i <= n,
            pairs@.len() == i as int,
            forall|k: int|
                0 <= k < pairs@.len() ==> #[trigger] pairs@[k] == (container@[k], container@[k + 1]),
        decreases n - i,
    {
        let a = container[i];
        let b = container[i + 1];
        pairs.push((a, b));
        i = i + 1;
    }
    pairs
}

} // verus!
