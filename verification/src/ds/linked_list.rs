//! A singly linked list used as a stack.

use vstd::prelude::*;

verus! {

/// One cell of the list.
struct Node<T> {
    elem: T,
    next: Option<Box<Node<T>>>,
}

/// The elements from this link on.
spec fn link_view<T>(link: Option<Box<Node<T>>>) -> Seq<T>
    decreases link,
{
    match link {
        None => Seq::empty(),
        Some(node) => seq![node.elem] + link_view(node.next),
    }
}

/// A list that grows and shrinks at the front.
pub struct LinkedList<T> {
    head: Option<Box<Node<T>>>,
    len: usize,
}

impl<T> View for LinkedList<T> {
    type V = Seq<T>;

    /// The elements from the front on.
    closed spec fn view(&self) -> Seq<T> {
        link_view(self.head)
    }
}

impl<T> Default for LinkedList<T> {
    fn default() -> (list: Self)
        ensures
            list.wf(),
            list@ == Seq::<T>::empty(),
    {
        LinkedList { head: None, len: 0 }
    }
}

impl<T> LinkedList<T> {
    /// The length kept is the number of elements.
    pub closed spec fn wf(&self) -> bool {
        self.len == link_view(self.head).len()
    }

    /// The empty list.
    pub fn new() -> (list: Self)
        ensures
            list.wf(),
            list@ == Seq::<T>::empty(),
    {
        LinkedList { head: None, len: 0 }
    }

    /// Whether the list holds no element.
    pub fn is_empty(&self) -> (empty: bool)
        requires
            self.wf(),
        ensures
            empty == (self@.len() == 0),
    {
        self.len == 0
    }

    /// The number of elements.
    pub fn len(&self) -> (n: usize)
        requires
            self.wf(),
        ensures
            n == self@.len(),
    {
        self.len
    }

    /// Puts `elem` at the front.
    pub fn push_front(&mut self, elem: T)
        requires
            old(self).wf(),
            old(self)@.len() < usize::MAX,
        ensures
            final(self).wf(),
            final(self)@ == seq![elem] + old(self)@,
    {
        let rest = self.head.take();
        self.head = Some(Box::new(Node { elem, next: rest }));
        self.len += 1;
    }

    /// Takes the front element off, if there is one.
    pub fn pop_front(&mut self) -> (front: Option<T>)
        requires
            old(self).wf(),
        ensures
            final(self).wf(),
            match front {
                Some(x) => old(self)@.len() > 0 && x == old(self)@[0] && final(self)@ == old(
                    self,
                )@.subrange(1, old(self)@.len() as int),
                None => old(self)@.len() == 0 && final(self)@ == old(self)@,
            },
    {
        match self.head.take() {
            None => None,
            Some(node) => {
                let Node { elem, next } = *node;
                proof {
                    assert(old(self)@ =~= seq![elem] + link_view(next));
                    assert(link_view(next) =~= old(self)@.subrange(1, old(self)@.len() as int));
                }
                self.head = next;
                self.len -= 1;
                Some(elem)
            },
        }
    }

    /// The front element, if there is one.
    pub fn peek(&self) -> (front: Option<&T>)
        ensures
            match front {
                Some(x) => self@.len() > 0 && *x == self@[0],
                None => self@.len() == 0,
            },
    {
        match &self.head {
            None => None,
            Some(node) => Some(&node.elem),
        }
    }

    /// The front element, to be changed in place, if there is one. The rest
    /// of the list stays as it is.
    pub fn peek_mut(&mut self) -> (front: Option<&mut T>)
        ensures
            match front {
                Some(x) => old(self)@.len() > 0 && *x == old(self)@[0] && final(self)@ == old(
                    self,
                )@.update(0, *final(x)),
                None => old(self)@.len() == 0 && final(self)@ == old(self)@,
            },
            old(self).wf() ==> final(self).wf(),
    {
        match &mut self.head {
            None => None,
            Some(node) => {
                proof {
                    assert forall|e: T| #![auto]
                        (seq![e] + link_view(node.next)) =~= (seq![node.elem] + link_view(
                            node.next,
                        )).update(0, e) by {}
                }
                Some(&mut node.elem)
            },
        }
    }

    /// Removes every element.
    pub fn clear(&mut self)
        requires
            old(self).wf(),
        ensures
            final(self).wf(),
            final(self)@ == Seq::<T>::empty(),
    {
        loop
            invariant
                self.wf(),
            ensures
                self@.len() == 0,
            decreases self@.len(),
        {
            if self.pop_front().is_none() {
                break;
            }
        }
        assert(self@ =~= Seq::<T>::empty());
    }

    /// The elements from the front on.
    pub fn iter(&self) -> (it: std::vec::IntoIter<&T>)
        ensures
            vstd::std_specs::vec::into_iter_elts(it).len() == self@.len(),
            forall|i: int|
                0 <= i < self@.len() ==> *#[trigger] vstd::std_specs::vec::into_iter_elts(it)[i]
                    == self@[i],
    {
        let mut refs: Vec<&T> = Vec::new();
        let mut cur = &self.head;
        loop
            invariant
                refs@.len() + link_view(*cur).len() == self@.len(),
                forall|i: int| 0 <= i < refs@.len() ==> *#[trigger] refs@[i] == self@[i],
                forall|i: int|
                    0 <= i < link_view(*cur).len() ==> #[trigger] link_view(*cur)[i] == self@[refs@.len()
                        + i],
            ensures
                refs@.len() == self@.len(),
                forall|i: int| 0 <= i < refs@.len() ==> *#[trigger] refs@[i] == self@[i],
            decreases link_view(*cur).len(),
        {
            match cur {
                None => {
                    break;
                },
                Some(node) => {
                    proof {
                        let rest = link_view(node.next);
                        assert(link_view(*cur) =~= seq![node.elem] + rest);
                        assert(link_view(*cur)[0] == node.elem);
                        assert forall|i: int| 0 <= i < rest.len() implies #[trigger] rest[i]
                            == self@[refs@.len() + 1 + i] by {
                            assert(link_view(*cur)[i + 1] == rest[i]);
                        }
                    }
                    refs.push(&node.elem);
                    cur = &node.next;
                },
            }
        }
        refs.into_iter()
    }
}

} // verus!
