//! A cons list of unsigned integers, built by prepending.

use vstd::prelude::*;
use vstd::string::StringExecFns;
use crate::text::Text;

verus! {

/// The "A==>B==>...==>NULL" rendering of a sequence of elements.
pub open spec fn render_null(s: Seq<u64>) -> Seq<char>
    decreases s.len(),
{
    if s.len() == 0 {
        "NULL"@
    } else {
        s[0].text_spec() + "==>"@ + render_null(s.drop_first())
    }
}

/// The cons list: either a value and a tail, or the end marker.
pub enum List {
    Cons(u64, Box<List>),
    Null,
}

impl List {
    /// The elements, newest first.
    pub open spec fn view(&self) -> Seq<u64>
        decreases self,
    {
        match self {
            List::Cons(elem, next) => seq![*elem] + next.view(),
            List::Null => Seq::empty(),
        }
    }

    /// The empty list.
    pub fn new() -> (r: List)
        ensures
            r.view() =~= Seq::<u64>::empty(),
    {
        List::Null
    }

    /// A list with `elem` in front of `self`.
    pub fn prepend(self, elem: u64) -> (r: List)
        ensures
            r.view() =~= seq![elem] + self.view(),
    {
        List::Cons(elem, Box::new(self))
    }

    /// How many elements the list holds.
    pub fn len(&self) -> (r: u64)
        requires
            self.view().len() <= u64::MAX,
        ensures
            r == self.view().len(),
        decreases self.view().len(),
    {
        match self {
            List::Null => 0,
            List::Cons(_, next) => {
                proof {
                    assert(self.view().drop_first() =~= next.view());
                }
                1 + next.len()
            },
        }
    }

    /// Render the elements newest first, "A==>B==>...==>NULL".
    pub fn stringify(&self) -> (r: String)
        ensures
            r@ == render_null(self.view()),
        decreases self.view().len(),
    {
        match self {
            List::Null => {
                proof {
                    reveal_strlit("NULL");
                }
                String::from_str("NULL")
            },
            List::Cons(elem, next) => {
                proof {
                    assert(self.view()[0] == *elem);
                    assert(self.view().drop_first() =~= next.view());
                }
                let mut out = elem.to_text();
                out.append("==>");
                let rest = next.stringify();
                out.append(rest.as_str());
                out
            },
        }
    }
}

} // verus!
