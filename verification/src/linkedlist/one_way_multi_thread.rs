//! A two-ended list: elements can be added and removed at the front and at
//! the back.

use vstd::prelude::*;
use crate::linkedlist::one_way::{render, render_exec};
use crate::text::Text;

verus! {

/// The two-ended list. The element sequence runs front to back.
pub struct List<T: Text> {
    len: u64,
    items: Vec<T>,
}

impl<T: Text> List<T> {
    /// The elements, front first.
    pub closed spec fn view(&self) -> Seq<T> {
        self.items@
    }

    /// The stored length agrees with the element count.
    pub closed spec fn wf(&self) -> bool {
        self.len == self.items@.len()
    }

    /// An empty list.
    pub fn new() -> (r: List<T>)
        ensures
            r.wf(),
            r.view() =~= Seq::<T>::empty(),
    {
        List { len: 0, items: Vec::new() }
    }

    /// Add an element at the front.
    pub fn prevadd(&mut self, data: T)
        requires
            old(self).wf(),
            old(self).view().len() < u64::MAX,
        ensures
            final(self).wf(),
            final(self).view() =~= seq![data] + old(self).view(),
    {
        self.items.insert(0, data);
        self.len = self.len + 1;
    }

    /// Add an element at the back.
    pub fn backadd(&mut self, data: T)
        requires
            old(self).wf(),
            old(self).view().len() < u64::MAX,
        ensures
            final(self).wf(),
            final(self).view() =~= old(self).view().push(data),
    {
        self.items.push(data);
        self.len = self.len + 1;
    }

    /// Remove and return the front element; `None` when the list is empty.
    pub fn prevpop(&mut self) -> (r: Option<T>)
        requires
            old(self).wf(),
        ensures
            final(self).wf(),
            match r {
                Some(data) => old(self).view().len() > 0 && data == old(self).view()[0]
                    && final(self).view() =~= old(self).view().drop_first(),
                None => old(self).view().len() == 0 && final(self).view() =~= old(self).view(),
            },
    {
        if self.len == 0 {
            None
        } else {
            self.len = self.len - 1;
            Some(self.items.remove(0))
        }
    }

    /// Remove and return the back element; `None` when the list is empty.
    pub fn backpop(&mut self) -> (r: Option<T>)
        requires
            old(self).wf(),
        ensures
            final(self).wf(),
            match r {
                Some(data) => old(self).view().len() > 0 && data == old(self).view().last()
                    && final(self).view() =~= old(self).view().drop_last(),
                None => old(self).view().len() == 0 && final(self).view() =~= old(self).view(),
            },
    {
        if self.len == 0 {
            None
        } else {
            self.len = self.len - 1;
            self.items.pop()
        }
    }

    /// How many elements the list holds.
    pub fn len(&self) -> (r: u64)
        requires
            self.wf(),
        ensures
            r == self.view().len(),
    {
        self.len
    }

    /// Render the elements front to back, "A==>B==>...==>Nil".
    pub fn stringify(&self) -> (r: String)
        ensures
            r@ == render(self.view()),
    {
        let mut out = String::new();
        render_exec(&self.items, &mut out);
        out
    }
}

} // verus!
