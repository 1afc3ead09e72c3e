//! A one-way list: elements are pushed and popped at the head, newest first.

use vstd::prelude::*;
use vstd::string::StringExecFns;
use crate::text::Text;

verus! {

/// The "A==>B==>...==>Nil" rendering of a sequence of elements, newest first.
pub open spec fn render<T: Text>(s: Seq<T>) -> Seq<char>
    decreases s.len(),
{
    if s.len() == 0 {
        "Nil"@
    } else {
        s[0].text_spec() + "==>"@ + render(s.drop_first())
    }
}

/// Walk a list of elements, newest first, appending each rendering and the
/// closing "Nil" to `out`.
pub(crate) fn render_exec<T: Text>(items: &Vec<T>, out: &mut String)
    ensures
        final(out)@ == old(out)@ + render(items@),
{
    proof {
        assert(items@.skip(0) =~= items@);
        assert(out@ + render(items@) =~= old(out)@ + render(items@));
    }
    let mut i: usize = 0;
    while i < items.len()
        invariant
            i <= items@.len(),
            out@ + render(items@.skip(i as int)) == old(out)@ + render(items@),
        decreases items@.len() - i,
    {
        proof {
            assert(items@.skip(i as int)[0] == items@[i as int]);
            assert(items@.skip(i as int).drop_first() =~= items@.skip(i + 1));
        }
        let piece = items[i].to_text();
        out.append(piece.as_str());
        out.append("==>");
        i += 1;
    }
    proof {
        assert(items@.skip(items@.len() as int) =~= Seq::<T>::empty());
    }
    out.append("Nil");
}

/// The one-way list. The element sequence runs newest to oldest.
pub struct OneWayLinkedList<T: Text> {
    len: u64,
    items: Vec<T>,
}

impl<T: Text> OneWayLinkedList<T> {
    /// The elements, newest first.
    pub closed spec fn view(&self) -> Seq<T> {
        self.items@
    }

    /// The stored length agrees with the element count.
    pub closed spec fn wf(&self) -> bool {
        self.len == self.items@.len()
    }

    /// An empty list.
    pub fn new() -> (r: OneWayLinkedList<T>)
        ensures
            r.wf(),
            r.view() =~= Seq::<T>::empty(),
    {
        OneWayLinkedList { len: 0, items: Vec::new() }
    }

    /// Push an element at the head.
    pub fn add(&mut self, data: T)
        requires
            old(self).wf(),
            old(self).view().len() < u64::MAX,
        ensures
            final(self).wf(),
            final(self).view() =~= seq![data] + old(self).view(),
    {
        self.items.insert(0, data);
        self.len = self.len + 1;
    }

    /// Pop the newest element; `None` when the list is empty.
    pub fn pop(&mut self) -> (r: Option<T>)
        requires
            old(self).wf(),
        ensures
            final(self).wf(),
            match r {
                Some(data) => old(self).view().len() > 0 && data == old(self).view()[0]
                    && final(self).view() =~= old(self).view().drop_first(),
                None => old(self).view().len() == 0 && final(self).view() =~= old(self).view(),
            },
    {
        if self.len == 0 {
            None
        } else {
            self.len = self.len - 1;
            Some(self.items.remove(0))
        }
    }

    /// How many elements the list holds.
    pub fn len(&self) -> (r: u64)
        requires
            self.wf(),
        ensures
            r == self.view().len(),
    {
        self.len
    }

    /// Render the elements newest first, "A==>B==>...==>Nil".
    pub fn stringify(&self) -> (r: String)
        ensures
            r@ == render(self.view()),
    {
        let mut out = String::new();
        render_exec(&self.items, &mut out);
        out
    }
}

} // verus!
