//! A two-way list: a two-ended list whose rendering walks the back-links,
//! so it prints the back element first.

use vstd::prelude::*;
use vstd::string::StringExecFns;
use crate::linkedlist::one_way::render;
use crate::text::Text;

verus! {

/// The two-way list. The element sequence runs front to back.
pub struct TwoWayLinkedList<T: Text> {
    len: u64,
    items: Vec<T>,
}

impl<T: Text> TwoWayLinkedList<T> {
    /// The elements, front first.
    pub closed spec fn view(&self) -> Seq<T> {
        self.items@
    }

    /// The stored length agrees with the element count.
    pub closed spec fn wf(&self) -> bool {
        self.len == self.items@.len()
    }

    /// An empty list.
    pub fn new() -> (r: TwoWayLinkedList<T>)
        ensures
            r.wf(),
            r.view() =~= Seq::<T>::empty(),
    {
        TwoWayLinkedList { len: 0, items: Vec::new() }
    }

    /// Add an element at the front.
    pub fn prevadd(&mut self, data: T)
        requires
            old(self).wf(),
            old(self).view().len() < u64::MAX,
        ensures
            final(self).wf(),
            final(self).view() =~= seq![data] + old(self).view(),
    {
        self.items.insert(0, data);
        self.len = self.len + 1;
    }

    /// Add an element at the back.
    pub fn backadd(&mut self, data: T)
        requires
            old(self).wf(),
            old(self).view().len() < u64::MAX,
        ensures
            final(self).wf(),
            final(self).view() =~= old(self).view().push(data),
    {
        self.items.push(data);
        self.len = self.len + 1;
    }

    /// Remove and return the front element; `None` when the list is empty.
    pub fn prevpop(&mut self) -> (r: Option<T>)
        requires
            old(self).wf(),
        ensures
            final(self).wf(),
            match r {
                Some(data) => old(self).view().len() > 0 && data == old(self).view()[0]
                    && final(self).view() =~= old(self).view().drop_first(),
                None => old(self).view().len() == 0 && final(self).view() =~= old(self).view(),
            },
    {
        if self.len == 0 {
            None
        } else {
            self.len = self.len - 1;
            Some(self.items.remove(0))
        }
    }

    /// Remove and return the back element; `None` when the list is empty.
    pub fn backpop(&mut self) -> (r: Option<T>)
        requires
            old(self).wf(),
        ensures
            final(self).wf(),
            match r {
                Some(data) => old(self).view().len() > 0 && data == old(self).view().last()
                    && final(self).view() =~= old(self).view().drop_last(),
                None => old(self).view().len() == 0 && final(self).view() =~= old(self).view(),
            },
    {
        if self.len == 0 {
            None
        } else {
            self.len = self.len - 1;
            self.items.pop()
        }
    }

    /// How many elements the list holds.
    pub fn len(&self) -> (r: u64)
        requires
            self.wf(),
        ensures
            r == self.view().len(),
    {
        self.len
    }

    /// Render the elements back to front, "Z==>Y==>...==>Nil".
    pub fn stringify(&self) -> (r: String)
        ensures
            r@ == render(self.view().reverse()),
    {
        let mut out = String::new();
        let ghost rev = self.items@.reverse();
        proof {
            assert(rev.skip(0) =~= rev);
            assert(out@ + render(rev) =~= render(rev));
        }
        let mut i: usize = self.items.len();
        while i > 0
            invariant
                i <= self.items@.len(),
                rev == self.items@.reverse(),
                out@ + render(rev.skip(self.items@.len() - i)) == render(rev),
            decreases i,
        {
            proof {
                let done = self.items@.len() - i;
                assert(rev.skip(done)[0] == rev[done]);
                assert(rev[done] == self.items@[i - 1]);
                assert(rev.skip(done).drop_first() =~= rev.skip(done + 1));
            }
            i -= 1;
            let piece = self.items[i].to_text();
            out.append(piece.as_str());
            out.append("==>");
        }
        proof {
            assert(rev.skip(self.items@.len() as int) =~= Seq::<T>::empty());
        }
        out.append("Nil");
        out
    }
}

} // verus!
