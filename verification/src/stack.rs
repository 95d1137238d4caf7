use vstd::prelude::*;

verus! {

/// A first-in-first-out queue over a resizable sequence: elements enter at
/// the back and leave from the front.
#[derive(Debug)]
pub struct Queue<T> {
    elements: Vec<T>,
}

impl<T> View for Queue<T> {
    type V = Seq<T>;

    closed spec fn view(&self) -> Seq<T> {
        self.elements@
    }
}

impl<T> Queue<T> {
    /// Creates an empty queue.
    pub fn new() -> (q: Queue<T>)
        ensures
            q@ == Seq::<T>::empty(),
    {
        Queue { elements: Vec::new() }
    }

    /// Appends `value` at the back of the queue.
    pub fn enqueue(&mut self, value: T)
        ensures
            final(self)@ == old(self)@.push(value),
    {
        self.elements.push(value)
    }

    /// Removes and returns the front element; on an empty queue it reports
    /// the emptiness instead.
    pub fn dequeue(&mut self) -> (r: Result<T, &'static str>)
        ensures
            old(self)@.len() == 0 ==> (r matches Err(m) && m@ == "Queue is empty"@ && final(self)@ == old(self)@),
            old(self)@.len() > 0 ==> (r matches Ok(v) && v == old(self)@[0] && final(self)@ == old(self)@.drop_first()),
    {
        if !self.elements.is_empty() {
            let v = self.elements.remove(0usize);
            proof {
                assert(old(self)@.remove(0) =~= old(self)@.drop_first());
            }
            Ok(v)
        } else {
            Err("Queue is empty")
        }
    }

    /// Borrows the front element without removing it; on an empty queue it
    /// reports the emptiness instead.
    pub fn peek(&self) -> (r: Result<&T, &'static str>)
        ensures
            self@.len() == 0 ==> (r matches Err(m) && m@ == "Queue is empty"@),
            self@.len() > 0 ==> (r matches Ok(v) && *v == self@[0]),
    {
        if self.elements.len() > 0 {
            Ok(&self.elements[0])
        } else {
            Err("Queue is empty")
        }
    }

    /// The number of elements waiting.
    pub fn size(&self) -> (n: usize)
        ensures
            n == self@.len(),
    {
        self.elements.len()
    }

    /// Whether the queue holds no element.
    pub fn is_empty(&self) -> (r: bool)
        ensures
            r == (self@.len() == 0),
    {
        self.elements.is_empty()
    }
}

impl<T> Default for Queue<T> {
    /// Creates an empty queue.
    fn default() -> (q: Queue<T>)
        ensures
            q@ == Seq::<T>::empty(),
    {
        Queue { elements: Vec::new() }
    }
}

/// A last-in-first-out stack built from two cooperating queues: pushes go to
/// the active queue, and a pop rotates all but the newest element into the
/// standby queue, which then becomes the active one.
pub struct MyStack<T> {
    active: Queue<T>,
    standby: Queue<T>,
}

impl<T> View for MyStack<T> {
    type V = Seq<T>;

    closed spec fn view(&self) -> Seq<T> {
        self.active@
    }
}

impl<T> MyStack<T> {
    /// The stack's invariant: between operations the standby queue is empty.
    pub closed spec fn well_formed(&self) -> bool {
        self.standby@.len() == 0
    }

    /// Creates an empty stack.
    pub fn new() -> (s: Self)
        ensures
            s@ == Seq::<T>::empty(),
            s.well_formed(),
    {
        MyStack { active: Queue::new(), standby: Queue::new() }
    }

    /// Pushes `elem` on top of the stack.
    pub fn push(&mut self, elem: T)
        requires
            old(self).well_formed(),
        ensures
            final(self).well_formed(),
            final(self)@ == old(self)@.push(elem),
    {
        self.active.enqueue(elem);
    }

    /// Removes and returns the most recently pushed element; on an empty
    /// stack it reports the emptiness instead.
    pub fn pop(&mut self) -> (r: Result<T, &'static str>)
        requires
            old(self).well_formed(),
        ensures
            final(self).well_formed(),
            old(self)@.len() == 0 ==> (r matches Err(m) && m@ == "Stack is empty"@ && final(self)@ == old(self)@),
            old(self)@.len() > 0 ==> (r matches Ok(v) && v == old(self)@.last() && final(self)@
                == old(self)@.drop_last()),
    {
        if self.active.is_empty() {
            return Err("Stack is empty");
        }
        loop
            invariant
                self.active@.len() > 0,
                self.standby@ + self.active@ == old(self)@,
            decreases self.active@.len(),
        {
            let elem = match self.active.dequeue() {
                Ok(e) => e,
                Err(_) => {
                    proof {
                        assert(false);
                    }
                    vstd::pervasive::unreached()
                },
            };
            if self.active.is_empty() {
                core::mem::swap(&mut self.active, &mut self.standby);
                proof {
                    assert(old(self)@ =~= self.active@.push(elem));
                    assert(self.active@ =~= old(self)@.drop_last());
                }
                return Ok(elem);
            }
            self.standby.enqueue(elem);
            proof {
                assert(self.standby@ + self.active@ =~= old(self)@);
            }
        }
    }

    /// Whether the stack holds no element.
    pub fn is_empty(&self) -> (r: bool)
        ensures
            r == (self@.len() == 0),
    {
        self.active.is_empty()
    }
}

} // verus!
