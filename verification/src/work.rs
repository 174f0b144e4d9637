//! Piece-download work and the queue it waits in.
use vstd::prelude::*;

use std::collections::VecDeque;

verus! {

/// Piece-download work.
pub struct Work {
    /// Index of the piece.
    pub index: u32,
    /// Length of the piece.
    pub length: u32,
    /// SHA1 hash of the piece.
    pub hash: Vec<u8>,
}

/// Queue of piece-download work. Work is taken from the front; work that could not be done is
/// put back at the front, so that it is the next to be taken.
pub struct SharedQueue {
    queue: VecDeque<Work>,
}

impl View for SharedQueue {
    type V = Seq<Work>;

    closed spec fn view(&self) -> Seq<Work> {
        self.queue@
    }
}

/// What taking from the front of a queue with contents `q` gives, and what is left.
pub open spec fn taken(q: Seq<Work>) -> (Option<Work>, Seq<Work>) {
    if q.len() == 0 {
        (None, q)
    } else {
        (Some(q[0]), q.drop_first())
    }
}

/// The contents of a queue with contents `q` once `w` has been put back at its front.
pub open spec fn put_back(q: Seq<Work>, w: Work) -> Seq<Work> {
    seq![w] + q
}

/// The work that `n` takes from a queue with contents `q` give, in order, as long as there is
/// work left.
pub open spec fn take_n(q: Seq<Work>, n: nat) -> Seq<Work>
    decreases n,
{
    if n == 0 {
        seq![]
    } else {
        match taken(q).0 {
            Some(w) => seq![w] + take_n(taken(q).1, (n - 1) as nat),
            None => seq![],
        }
    }
}

impl SharedQueue {
    /// The queue holding the given work, first item at the front.
    pub fn new(work: Vec<Work>) -> (res: SharedQueue)
        ensures
            res@ == work@,
    {
        let ghost initial = work@;
        let mut work = work;
        let mut queue: VecDeque<Work> = VecDeque::new();
        while work.len() > 0
            invariant
                work@ + queue@ == initial,
            decreases work@.len(),
        {
            let ghost before = work@;
            match work.pop() {
                Some(w) => {
                    proof {
                        assert(before == work@.push(w));
                        assert(work@ + (seq![w] + queue@) =~= before + queue@);
                    }
                    queue.push_front(w);
                },
                None => {},
            }
        }
        proof {
            assert(work@ + queue@ =~= queue@);
        }
        SharedQueue { queue }
    }

    /// Takes the work at the front of the queue, if there is any.
    pub fn dequeue(&mut self) -> (res: Option<Work>)
        ensures
            res == taken(old(self)@).0,
            final(self)@ == taken(old(self)@).1,
    {
        let res = self.queue.pop_front();
        proof {
            if res is Some {
                assert(old(self)@.subrange(1, old(self)@.len() as int) =~= old(self)@.drop_first());
            }
        }
        res
    }

    /// Puts work onto the front of the queue.
    pub fn enqueue(&mut self, work: Work)
        ensures
            final(self)@ == put_back(old(self)@, work),
    {
        self.queue.push_front(work);
    }
}

/// Work put back onto a queue is the next work taken from it, and taking it leaves the queue
/// as it was before.
pub proof fn lemma_put_back_taken_next(q: Seq<Work>, w: Work)
    ensures
        taken(put_back(q, w)).0 == Some(w),
        taken(put_back(q, w)).1 == q,
{
    assert(put_back(q, w).drop_first() =~= q);
}

/// Taking from a queue gives its work in order, each item once: as many takes as the queue
/// holds items give exactly its contents, and more takes give nothing further.
pub proof fn lemma_take_n_in_order(q: Seq<Work>, n: nat)
    ensures
        n <= q.len() ==> take_n(q, n) == q.take(n as int),
        n > q.len() ==> take_n(q, n) == q,
    decreases n,
{
    if n > 0 {
        if q.len() > 0 {
            lemma_take_n_in_order(q.drop_first(), (n - 1) as nat);
            if n <= q.len() {
                assert(seq![q[0]] + q.drop_first().take(n - 1) =~= q.take(n as int));
            } else {
                assert(seq![q[0]] + q.drop_first() =~= q);
            }
        }
    }
}

} // verus!
