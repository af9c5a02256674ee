//! Target tracking of the signalling loop.
use vstd::prelude::*;

verus! {

/// The processes still worth signalling: those whose last signal was delivered,
/// in the order given.
pub open spec fn delivered_only(pids: Seq<u32>, delivered: Seq<bool>) -> Seq<u32>
    decreases pids.len(),
{
    if pids.len() == 0 {
        Seq::empty()
    } else {
        let front = delivered_only(pids.drop_last(), delivered);
        if delivered[pids.len() - 1] {
            front.push(pids.last())
        } else {
            front
        }
    }
}

/// Drops the processes that disappeared, changed name or refused the signal;
/// `delivered[i]` says whether `pids[i]` got it. An empty result means the
/// loop must look for the process again.
pub fn retain_signalled(pids: &Vec<u32>, delivered: &Vec<bool>) -> (r: Vec<u32>)
    requires
        pids@.len() == delivered@.len(),
    ensures
        r@ == delivered_only(pids@, delivered@),
{
    let mut r: Vec<u32> = Vec::new();
    let mut i: usize = 0;
    while i < pids.len()
        invariant
            i <= pids@.len(),
            pids@.len() == delivered@.len(),
            r@ == delivered_only(pids@.subrange(0, i as int), delivered@),
        decreases pids@.len() - i,
    {
        assert(pids@.subrange(0, i + 1).drop_last() =~= pids@.subrange(0, i as int));
        if delivered[i] {
            r.push(pids[i]);
        }
        i += 1;
    }
    assert(pids@.subrange(0, pids@.len() as int) =~= pids@);
    r
}

} // verus!
