use vstd::prelude::*;

verus! {

/// The identifiers of the workers of a pool of `size` threads: 0, 1, ...,
/// `size - 1`, each as a `u32` (taken modulo 2^32, as `as u32` does).  A
/// pool needs at least one worker.
pub fn worker_ids(size: usize) -> (ids: Vec<u32>)
    requires
        size > 0,
    ensures
        ids@.len() == size,
        forall|i: int| 0 <= i < size ==> #[trigger] ids@[i] == i as u32,
{
    let mut ids: Vec<u32> = Vec::new();
    let mut id: usize = 0;
    while id < size
        invariant
            id <= size,
            ids@.len() == id,
            forall|i: int| 0 <= i < id ==> #[trigger] ids@[i] == i as u32,
        decreases size - id,
    {
        ids.push(id as u32);
        id += 1;
    }
    ids
}

} // verus!
