//! A one-way list: the exercise version, with an emptiness test.

use vstd::prelude::*;
use crate::linkedlist::one_way::{render, render_exec};
use crate::text::Text;

verus! {

/// The one-way list. The element sequence runs newest to oldest.
pub struct OneWayLinkedList<T: Text> {
    len: u64,
    items: Vec<T>,
}

impl<T: Text> OneWayLinkedList<T> {
    /// The elements, newest first.
    pub closed spec fn view(&self) -> Seq<T> {
        self.items@
    }

    /// The stored length agrees with the element count.
    pub closed spec fn wf(&self) -> bool {
        self.len == self.items@.len()
    }

    /// An empty list.
    pub fn new() -> (r: OneWayLinkedList<T>)
        ensures
            r.wf(),
            r.view() =~= Seq::<T>::empty(),
    {
        OneWayLinkedList { len: 0, items: Vec::new() }
    }

    /// Push an element at the head.
    pub fn add(&mut self, data: T)
        requires
            old(self).wf(),
            old(self).view().len() < u64::MAX,
        ensures
            final(self).wf(),
            final(self).view() =~= seq![data] + old(self).view(),
    {
        self.items.insert(0, data);
        self.len = self.len + 1;
    }

    /// Pop the newest element; `None` when the list is empty.
    pub fn pop(&mut self) -> (r: Option<T>)
        requires
            old(self).wf(),
        ensures
            final(self).wf(),
            match r {
                Some(data) => old(self).view().len() > 0 && data == old(self).view()[0]
                    && final(self).view() =~= old(self).view().drop_first(),
                None => old(self).view().len() == 0 && final(self).view() =~= old(self).view(),
            },
    {
        if self.len == 0 {
            None
        } else {
            self.len = self.len - 1;
            Some(self.items.remove(0))
        }
    }

    /// How many elements the list holds.
    pub fn len(&self) -> (r: u64)
        requires
            self.wf(),
        ensures
            r == self.view().len(),
    {
        self.len
    }

    /// Whether the list is empty.
    pub fn is_empty(&self) -> (r: bool)
        requires
            self.wf(),
        ensures
            r == (self.view().len() == 0),
    {
        self.len == 0
    }

    /// Render the elements newest first, "A==>B==>...==>Nil".
    pub fn stringify(&self) -> (r: String)
        ensures
            r@ == render(self.view()),
    {
        let mut out = String::new();
        render_exec(&self.items, &mut out);
        out
    }
}

} // verus!
