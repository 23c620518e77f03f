//! Helpers on delay vectors.
use vstd::prelude::*;

verus! {

/// The largest entry of `delays`, or 0 when it is empty: the critical-path delay.
pub fn get_max_delay(delays: Vec<usize>) -> (r: usize)
    ensures
        forall|i: int| 0 <= i < delays.len() ==> delays[i] <= r,
        delays.len() == 0 ==> r == 0,
        delays.len() > 0 ==> exists|i: int| 0 <= i < delays.len() && delays[i] == r,
{
    let mut best: usize = 0;
    let mut i: usize = 0;
    while i < delays.len()
        invariant
            i <= delays.len(),
            forall|k: int| 0 <= k < i ==> delays[k] <= best,
            i == 0 ==> best == 0,
            i > 0 ==> exists|k: int| 0 <= k < i && delays[k] == best,
        decreases delays.len() - i,
    {
        if delays[i] >= best {
            best = delays[i];
        }
        i = i + 1;
    }
    best
}

} // verus!
