//! The connection pool's scheduling rule: prefer any momentarily free
//! connection, and fall back to a round-robin pick so waiting callers
//! spread over the pool.

use vstd::prelude::*;

verus! {

/// Which connection a caller should take: the first free one, or, when
/// all are held, the round-robin slot for this caller's turn.
pub fn pick_connection(busy: &Vec<bool>, turn: u64) -> (r: usize)
    requires
        busy@.len() > 0,
    ensures
        r < busy@.len(),
        (exists|i: int| 0 <= i < busy@.len() && !busy@[i]) ==> !busy@[r as int] && forall|j: int|
            0 <= j < r ==> busy@[j],
        (forall|i: int| 0 <= i < busy@.len() ==> busy@[i]) ==> r == turn as int % busy@.len()
            as int,
{
    let mut i: usize = 0;
    while i < busy.len()
        invariant
            0 <= i <= busy@.len(),
            forall|j: int| 0 <= j < i ==> busy@[j],
        decreases busy@.len() - i,
    {
        if !busy[i] {
            return i;
        }
        i = i + 1;
    }
    (turn % (busy.len() as u64)) as usize
}

} // verus!
