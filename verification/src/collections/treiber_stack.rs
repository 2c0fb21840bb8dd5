//! Treiber stack: a singly linked list whose head is the top of the stack.
//! A push links a new node in front of the head; a pop unlinks the head node
//! and hands out its data.

use vstd::prelude::*;

verus! {

struct Node<T> {
    data: T,
    next: Option<Box<Node<T>>>,
}

/// The items of the list that starts at `link`, top first.
spec fn items_of<T>(link: Option<Box<Node<T>>>) -> Seq<T>
    decreases link,
{
    match link {
        None => Seq::empty(),
        Some(node) => seq![node.data] + items_of(node.next),
    }
}

/// LIFO stack.
pub struct TreiberStack<T> {
    head: Option<Box<Node<T>>>,
}

/// The stack after pushing `x`: `x` is the new top.
pub open spec fn stack_push<T>(items: Seq<T>, x: T) -> Seq<T> {
    seq![x] + items
}

/// The item a pop hands out: the top, if any.
pub open spec fn stack_top<T>(items: Seq<T>) -> Option<T> {
    if items.len() == 0 {
        None
    } else {
        Some(items[0])
    }
}

/// The stack after a pop: the top leaves.
pub open spec fn stack_pop<T>(items: Seq<T>) -> Seq<T> {
    if items.len() == 0 {
        items
    } else {
        items.drop_first()
    }
}

impl<T> TreiberStack<T> {
    /// The stacked items, top first.
    pub closed spec fn view(&self) -> Seq<T> {
        items_of(self.head)
    }

    /// Creates a new empty stack.
    pub fn new() -> (stack: Self)
        ensures
            stack@ == Seq::<T>::empty(),
    {
        TreiberStack { head: None }
    }

    /// Pushes an element onto the top of the stack.
    pub fn push(&mut self, data: T)
        ensures
            final(self)@ == stack_push(old(self)@, data),
    {
        let next = self.head.take();
        self.head = Some(Box::new(Node { data, next }));
    }

    /// Pops the element on the top of the stack; `None` when it is empty.
    pub fn pop(&mut self) -> (result: Option<T>)
        ensures
            result == stack_top(old(self)@),
            final(self)@ == stack_pop(old(self)@),
    {
        match self.head.take() {
            None => None,
            Some(node) => {
                let node = *node;
                proof {
                    assert(old(self)@.drop_first() =~= items_of(node.next));
                }
                self.head = node.next;
                Some(node.data)
            },
        }
    }
}

impl<T> TreiberStack<T> {
    /// Pops every element, unlinking one node at a time. Dropping a stack
    /// releases its nodes through the chain of boxes, one nested drop per
    /// node; clearing a very deep stack first avoids that depth.
    pub fn clear(&mut self)
        ensures
            final(self)@ == Seq::<T>::empty(),
    {
        let mut done = false;
        while !done
            invariant
                done ==> self@.len() == 0,
            decreases self@.len() + if done {
                0int
            } else {
                1int
            },
        {
            if self.pop().is_none() {
                done = true;
            }
        }
    }
}

impl<T> Default for TreiberStack<T> {
    fn default() -> (stack: Self)
        ensures
            stack@ == Seq::<T>::empty(),
    {
        Self::new()
    }
}

/// Last in, first out: a pop right after pushing `x` hands out `x` and
/// leaves the stack as it was before the push.
pub proof fn lemma_pop_after_push<T>(items: Seq<T>, x: T)
    ensures
        stack_top(stack_push(items, x)) == Some(x),
        stack_pop(stack_push(items, x)) == items,
{
    assert(stack_pop(stack_push(items, x)) =~= items);
}

/// The stack after pushing the items of `xs` one by one, first to last.
pub open spec fn push_all<T>(items: Seq<T>, xs: Seq<T>) -> Seq<T>
    decreases xs.len(),
{
    if xs.len() == 0 {
        items
    } else {
        push_all(stack_push(items, xs[0]), xs.drop_first())
    }
}

/// Pushing the items `xs` one by one puts them on top in reverse order.
pub proof fn lemma_push_all<T>(items: Seq<T>, xs: Seq<T>)
    ensures
        push_all(items, xs) == xs.reverse() + items,
    decreases xs.len(),
{
    if xs.len() > 0 {
        lemma_push_all(stack_push(items, xs[0]), xs.drop_first());
        assert(xs.drop_first().reverse() + stack_push(items, xs[0]) =~= xs.reverse() + items);
    } else {
        assert(xs.reverse() + items =~= items);
    }
}

} // verus!
