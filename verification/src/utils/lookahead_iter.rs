use vstd::prelude::*;

verus! {

/// A queue of items that can be consumed front to back and that can be
/// looked ahead into by a fixed number of positions (its window).
///
/// The items still to come are kept back to front, so that taking the next
/// one is a `pop`.
#[derive(Debug)]
pub struct Looakhead<T> {
    rev: Vec<T>,
    window: usize,
}

impl<T> Looakhead<T> {
    /// The items that `next` will still hand out, first one first.
    pub closed spec fn remaining(&self) -> Seq<T> {
        self.rev@.reverse()
    }

    /// Each item still to come is smaller than the queue holding it.
    pub proof fn lemma_remaining_decreases(l: Self, i: int)
        requires
            0 <= i < l.remaining().len(),
        ensures
            decreases_to!(l => l.remaining()[i]),
    {
        let j = l.rev@.len() - 1 - i;
        assert(l.remaining()[i] == l.rev@[j]);
        assert(decreases_to!(l => l.rev));
        assert(decreases_to!(l.rev => l.rev@));
        assert(decreases_to!(l.rev@ => l.rev@[j]));
    }

    /// How many items ahead `lookahead` can see.
    pub closed spec fn spec_window(&self) -> nat {
        self.window as nat
    }

    /// Builds the queue from the items in the order they will be handed out.
    pub fn new(items: Vec<T>, window: usize) -> (res: Self)
        ensures
            res.remaining() == items@,
            res.spec_window() == window,
    {
        let mut items = items;
        let ghost orig = items@;
        let mut rev: Vec<T> = Vec::new();
        while items.len() > 0
            invariant
                items@ + rev@.reverse() == orig,
            decreases items.len(),
        {
            let ghost before_items = items@;
            let ghost before_rev = rev@;
            let x = items.pop().unwrap();
            rev.push(x);
            proof {
                assert(rev@.reverse() == seq![x] + before_rev.reverse()) by {
                    assert(rev@ == before_rev.push(x));
                    assert forall|i: int| 0 <= i < rev@.len() implies #[trigger] rev@.reverse()[i]
                        == (seq![x] + before_rev.reverse())[i] by {
                        if i > 0 {
                            assert(rev@.reverse()[i] == rev@[rev@.len() - 1 - i]);
                        }
                    }
                    assert(rev@.reverse() =~= seq![x] + before_rev.reverse());
                }
                assert(before_items == items@.push(x));
                assert(items@ + rev@.reverse() =~= before_items + before_rev.reverse());
            }
        }
        assert(items@ =~= Seq::<T>::empty());
        assert(rev@.reverse() =~= orig);
        Looakhead { rev, window }
    }

    /// The item `index` positions ahead (0 is the next one), if there is one.
    pub fn lookahead(&self, index: usize) -> (res: Option<&T>)
        requires
            index < self.spec_window(),
        ensures
            index < self.remaining().len() ==> res == Some(&self.remaining()[index as int]),
            index >= self.remaining().len() ==> res is None,
    {
        let len = self.rev.len();
        if index < len {
            Some(&self.rev[len - 1 - index])
        } else {
            None
        }
    }

    /// The item `index` positions ahead (0 is the next one), if there is
    /// one, however far ahead it is.
    pub fn item_at(&self, index: usize) -> (res: Option<&T>)
        ensures
            index < self.remaining().len() ==> res == Some(&self.remaining()[index as int]),
            index >= self.remaining().len() ==> res is None,
            self.remaining().len() <= usize::MAX,
    {
        let len = self.rev.len();
        if index < len {
            Some(&self.rev[len - 1 - index])
        } else {
            None
        }
    }

    /// Hands out the next item, if there is one.
    pub fn next(&mut self) -> (res: Option<T>)
        ensures
            final(self).spec_window() == old(self).spec_window(),
            old(self).remaining().len() == 0 ==> res is None && final(self).remaining()
                == old(self).remaining(),
            old(self).remaining().len() > 0 ==> res == Some(old(self).remaining()[0])
                && final(self).remaining() == old(self).remaining().drop_first(),
    {
        let ghost before = self.rev@;
        let res = self.rev.pop();
        proof {
            if before.len() > 0 {
                assert(before == self.rev@.push(res.unwrap()));
                assert(self.rev@.reverse() =~= before.reverse().drop_first());
            }
        }
        res
    }
}

} // verus!
