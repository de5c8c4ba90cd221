use vstd::prelude::*;

verus! {

/// A produced-on-demand presentation of an already computed run of items:
/// each call of `next` hands out the next item and remembers the position,
/// so a consumer can stop as soon as it has seen what it was looking for.
#[derive(Debug, PartialEq, Eq)]
pub struct CoroutineIter<A> {
    items: Vec<A>,
    pos: usize,
}

impl<A: Copy> CoroutineIter<A> {
    /// The items not yet handed out, in the order they will come.
    pub closed spec fn remaining(self) -> Seq<A> {
        self.items@.skip(self.pos as int)
    }

    /// The position never runs past the end of the items.
    pub closed spec fn wf(self) -> bool {
        self.pos <= self.items@.len()
    }

    /// Hands out the first remaining item, or `None` when all are spent.
    pub fn next(&mut self) -> (r: Option<A>)
        requires
            old(self).wf(),
        ensures
            final(self).wf(),
            old(self).remaining().len() == 0 ==> r is None && final(self).remaining() == old(
                self,
            ).remaining(),
            old(self).remaining().len() > 0 ==> r == Some(old(self).remaining()[0])
                && final(self).remaining() == old(self).remaining().skip(1),
    {
        if self.pos < self.items.len() {
            let item = self.items[self.pos];
            self.pos = self.pos + 1;
            Some(item)
        } else {
            None
        }
    }
}

/// Wraps a fully produced run of items as a resumable iterator.
pub fn gen_to_iter<A: Copy>(items: Vec<A>) -> (it: CoroutineIter<A>)
    ensures
        it.wf(),
        it.remaining() == items@,
{
    let it = CoroutineIter { items, pos: 0 };
    proof {
        assert(it.remaining() =~= it.items@);
    }
    it
}

} // verus!
