//! Counting towards a majority: a write to several replicas is done as soon
//! as more than half of them have confirmed it.

use vstd::prelude::*;

verus! {

/// How many of `done` are set.
pub open spec fn confirmed(done: Seq<bool>) -> nat
    decreases done.len(),
{
    if done.len() == 0 {
        0
    } else {
        confirmed(done.drop_last()) + if done.last() {
            1nat
        } else {
            0nat
        }
    }
}

/// More than half of `done` are set.
pub open spec fn is_majority(done: Seq<bool>) -> bool {
    confirmed(done) > done.len() / 2
}

/// No more can be set than there are.
pub proof fn lemma_confirmed_bound(done: Seq<bool>)
    ensures
        confirmed(done) <= done.len(),
    decreases done.len(),
{
    if done.len() > 0 {
        lemma_confirmed_bound(done.drop_last());
    }
}

/// Where none is set the count is zero.
pub proof fn lemma_confirmed_none(done: Seq<bool>)
    requires
        forall|i: int| 0 <= i < done.len() ==> !done[i],
    ensures
        confirmed(done) == 0,
    decreases done.len(),
{
    if done.len() > 0 {
        lemma_confirmed_none(done.drop_last());
    }
}

/// Setting one that was not set adds one to the count.
pub proof fn lemma_confirmed_update(done: Seq<bool>, i: int)
    requires
        0 <= i < done.len(),
        !done[i],
    ensures
        confirmed(done.update(i, true)) == confirmed(done) + 1,
    decreases done.len(),
{
    let after = done.update(i, true);
    if i == done.len() - 1 {
        assert(after.drop_last() =~= done.drop_last());
    } else {
        lemma_confirmed_update(done.drop_last(), i);
        assert(after.drop_last() =~= done.drop_last().update(i, true));
    }
}

/// The progress of one write towards a majority of its replicas.
#[derive(Debug)]
pub struct Quorum {
    done: Vec<bool>,
    count: usize,
}

impl View for Quorum {
    type V = Seq<bool>;

    /// For each replica, whether it has confirmed.
    closed spec fn view(&self) -> Seq<bool> {
        self.done@
    }
}

impl Quorum {
    /// The count agrees with the flags.
    #[verifier::type_invariant]
    spec fn counted(&self) -> bool {
        self.count == confirmed(self.done@)
    }

    /// A write to `replicas` replicas, none of which has confirmed.
    pub fn new(replicas: usize) -> (quorum: Quorum)
        ensures
            quorum@.len() == replicas,
            forall|i: int| 0 <= i < replicas ==> !quorum@[i],
    {
        let mut done: Vec<bool> = Vec::new();
        let mut i: usize = 0;
        while i < replicas
            invariant
                i <= replicas,
                done@.len() == i,
                forall|j: int| 0 <= j < i ==> !done@[j],
                confirmed(done@) == 0,
            decreases replicas - i,
        {
            done.push(false);
            proof {
                let now = done@;
                assert(now.drop_last().len() == i);
                lemma_confirmed_none(now);
            }
            i += 1;
        }
        Quorum { done, count: 0 }
    }

    /// The number of replicas.
    pub fn replicas(&self) -> (n: usize)
        ensures
            n == self@.len(),
    {
        self.done.len()
    }

    /// Whether replica `i` has yet to confirm, and so is still to be asked.
    pub fn is_pending(&self, i: usize) -> (pending: bool)
        requires
            i < self@.len(),
        ensures
            pending == !self@[i as int],
    {
        !self.done[i]
    }

    /// Notes that replica `i` has confirmed. Confirming twice counts once.
    pub fn confirm(&mut self, i: usize)
        requires
            i < old(self)@.len(),
        ensures
            final(self)@ == old(self)@.update(i as int, true),
    {
        if !self.done[i] {
            let mut taken = Quorum { done: Vec::new(), count: 0 };
            std::mem::swap(self, &mut taken);
            let n = taken.done.len();
            proof {
                use_type_invariant(&taken);
                lemma_confirmed_update(taken.done@, i as int);
                lemma_confirmed_bound(taken.done@.update(i as int, true));
                assert(taken.count + 1 <= n);
            }
            let mut done = taken.done;
            done.set(i, true);
            *self = Quorum { done, count: taken.count + 1 };
        } else {
            assert(self.done@ =~= self.done@.update(i as int, true));
        }
    }

    /// Whether the write is done: more than half of the replicas have
    /// confirmed.
    pub fn is_ready(&self) -> (ready: bool)
        ensures
            ready == is_majority(self@),
    {
        proof {
            use_type_invariant(self);
        }
        self.count > self.done.len() / 2
    }
}

} // verus!
