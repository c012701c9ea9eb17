//! Ordering of pending transactions for inclusion: higher priority first,
//! equal priorities in order of arrival.
use vstd::prelude::*;
use crate::primitives::Word;

verus! {

/// A pending transaction with the fee signal that orders it.
#[derive(Clone, Copy, Debug, PartialEq, Eq, Structural)]
pub struct PooledTx {
    pub hash: Word,
    pub priority: u128,
}

/// Places `x` after every element of `sorted` whose priority is at least its
/// own, scanning from the back.
pub open spec fn insert_by_priority(sorted: Seq<PooledTx>, x: PooledTx) -> Seq<PooledTx>
    decreases sorted.len(),
{
    if sorted.len() == 0 {
        seq![x]
    } else if sorted.last().priority >= x.priority {
        sorted.push(x)
    } else {
        insert_by_priority(sorted.drop_last(), x).push(sorted.last())
    }
}

/// The inclusion order of `pending`, taken in order of arrival.
pub open spec fn ordered(pending: Seq<PooledTx>) -> Seq<PooledTx>
    decreases pending.len(),
{
    if pending.len() == 0 {
        seq![]
    } else {
        insert_by_priority(ordered(pending.drop_last()), pending.last())
    }
}

/// Inserting at the position found by scanning back over lower priorities is
/// the insertion that `insert_by_priority` describes.
proof fn lemma_insert_at(sorted: Seq<PooledTx>, x: PooledTx, j: int)
    requires
        0 <= j <= sorted.len(),
        forall|k: int| j <= k < sorted.len() ==> sorted[k].priority < x.priority,
        j == 0 || sorted[j - 1].priority >= x.priority,
    ensures
        insert_by_priority(sorted, x) == sorted.insert(j, x),
    decreases sorted.len(),
{
    if sorted.len() == 0 {
        assert(sorted.insert(j, x) =~= seq![x]);
    } else if j == sorted.len() {
        assert(sorted.insert(j, x) =~= sorted.push(x));
    } else {
        let p = sorted.drop_last();
        lemma_insert_at(p, x, j);
        assert(p.insert(j, x).push(sorted.last()) =~= sorted.insert(j, x));
    }
}

/// Orders `pending` for inclusion: by priority, highest first; where
/// priorities are equal, the earlier arrival first.
pub fn order_pending(pending: &Vec<PooledTx>) -> (r: Vec<PooledTx>)
    ensures
        r@ == ordered(pending@),
{
    let mut out: Vec<PooledTx> = Vec::new();
    let mut i: usize = 0;
    while i < pending.len()
        invariant
            i <= pending@.len(),
            out@ == ordered(pending@.subrange(0, i as int)),
        decreases pending.len() - i,
    {
        let x = pending[i];
        let mut j: usize = out.len();
        while j > 0 && out[j - 1].priority < x.priority
            invariant
                j <= out@.len(),
                forall|k: int| j <= k < out@.len() ==> out@[k].priority < x.priority,
            decreases j,
        {
            j = j - 1;
        }
        proof {
            lemma_insert_at(out@, x, j as int);
            assert(pending@.subrange(0, i as int + 1).drop_last() =~= pending@.subrange(0, i as int));
        }
        out.insert(j, x);
        i = i + 1;
    }
    assert(pending@.subrange(0, pending@.len() as int) =~= pending@);
    out
}

/// Inserting into a list ordered by non-increasing priority keeps it so.
proof fn lemma_insert_sorted(sorted: Seq<PooledTx>, x: PooledTx)
    requires
        forall|i: int, k: int| 0 <= i < k < sorted.len() ==> sorted[i].priority >= sorted[k].priority,
    ensures
        insert_by_priority(sorted, x).len() == sorted.len() + 1,
        forall|i: int, k: int| 0 <= i < k < insert_by_priority(sorted, x).len()
            ==> insert_by_priority(sorted, x)[i].priority >= insert_by_priority(sorted, x)[k].priority,
        forall|i: int| 0 <= i < insert_by_priority(sorted, x).len()
            ==> insert_by_priority(sorted, x)[i].priority >= x.priority
                || insert_by_priority(sorted, x)[i] == x
                || exists|k: int| 0 <= k < sorted.len() && sorted[k] == insert_by_priority(sorted, x)[i],
    decreases sorted.len(),
{
    if sorted.len() > 0 && sorted.last().priority < x.priority {
        let p = sorted.drop_last();
        lemma_insert_sorted(p, x);
        let q = insert_by_priority(p, x);
        assert forall|i: int| 0 <= i < q.len() implies q[i].priority >= sorted.last().priority by {
            if q[i] != x && q[i].priority < x.priority {
                let k = choose|k: int| 0 <= k < p.len() && p[k] == q[i];
                assert(sorted[k] == p[k]);
            }
        }
    }
}

/// The inclusion order puts higher priorities first.
pub proof fn lemma_ordered_by_priority(pending: Seq<PooledTx>)
    ensures
        ordered(pending).len() == pending.len(),
        forall|i: int, k: int| 0 <= i < k < ordered(pending).len()
            ==> ordered(pending)[i].priority >= ordered(pending)[k].priority,
    decreases pending.len(),
{
    if pending.len() > 0 {
        lemma_ordered_by_priority(pending.drop_last());
        lemma_insert_sorted(ordered(pending.drop_last()), pending.last());
    }
}

} // verus!
