//! What a run of pushes builds and what a full iteration reads, over any
//! item type.

use vstd::prelude::*;

verus! {

/// What a buffer holds after `items` are pushed, one by one and in order,
/// onto a buffer holding `ps`: each push appends one packet.
pub open spec fn pushed_all<T>(ps: Seq<T>, items: Seq<T>) -> Seq<T>
    decreases items.len(),
{
    if items.len() == 0 {
        ps
    } else {
        pushed_all(ps.push(items[0]), items.drop_first())
    }
}

/// What an iterator over a list of `ps` returns, one item per `next`, until
/// it returns `None`.
pub open spec fn read_all<T>(ps: Seq<T>) -> Seq<T>
    decreases ps.len(),
{
    if ps.len() == 0 {
        Seq::empty()
    } else {
        seq![ps[0]] + read_all(ps.drop_first())
    }
}

/// Pushing `items` one by one appends them all.
pub proof fn lemma_pushed_all<T>(ps: Seq<T>, items: Seq<T>)
    ensures
        pushed_all(ps, items) == ps + items,
    decreases items.len(),
{
    if items.len() > 0 {
        lemma_pushed_all(ps.push(items[0]), items.drop_first());
        assert(ps.push(items[0]) + items.drop_first() =~= ps + items);
    }
}

/// A full iteration reads the items as they are.
pub proof fn lemma_read_all<T>(ps: Seq<T>)
    ensures
        read_all(ps) == ps,
    decreases ps.len(),
{
    if ps.len() > 0 {
        lemma_read_all(ps.drop_first());
        assert(seq![ps[0]] + ps.drop_first() =~= ps);
    }
}

} // verus!
