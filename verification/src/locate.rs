//! Choosing the file to use among the candidates found walking up from the working
//! directory.

use vstd::prelude::*;

use crate::error::{ErrorView, JakeError, Lookup};

verus! {

/// The first candidate that exists. `candidates` pairs each path, nearest first, with
/// whether a file is there; none existing is `JakeError::NotLocated(lookup)`.
pub fn locate_nearest(candidates: &Vec<(String, bool)>, lookup: Lookup) -> (r: Result<
    String,
    JakeError,
>)
    ensures
        r matches Ok(p) ==> exists|i: int|
            0 <= i < candidates.len() && candidates@[i].1 && p@ == candidates@[i].0@ && forall|
                j: int,
            | 0 <= j < i ==> !(#[trigger] candidates@[j].1),
        r matches Err(e) ==> e@ == ErrorView::NotLocated(lookup) && forall|j: int|
            0 <= j < candidates.len() ==> !(#[trigger] candidates@[j].1),
        r is Err <==> forall|j: int| 0 <= j < candidates.len() ==> !(#[trigger] candidates@[j].1),
{
    let mut i: usize = 0;
    while i < candidates.len()
        invariant
            i <= candidates.len(),
            forall|j: int| 0 <= j < i ==> !(#[trigger] candidates@[j].1),
        decreases candidates.len() - i,
    {
        if candidates[i].1 {
            return Ok(candidates[i].0.clone());
        }
        i = i + 1;
    }
    Err(JakeError::NotLocated(lookup))
}

} // verus!
