use crate::trap::ExitError;
use crate::word::Word;
use vstd::prelude::*;

verus! {

/// A bounded stack of words; the top is the last element of the view.
pub struct Stack {
    data: Vec<Word>,
    limit: usize,
}

impl View for Stack {
    type V = Seq<Word>;

    closed spec fn view(&self) -> Seq<Word> {
        self.data@
    }
}

impl Stack {
    /// The capacity the stack was made with.
    pub closed spec fn capacity(&self) -> nat {
        self.limit as nat
    }

    pub open spec fn wf(&self) -> bool {
        self@.len() <= self.capacity()
    }

    pub fn new(limit: usize) -> (r: Stack)
        ensures
            r@ == Seq::<Word>::empty(),
            r.capacity() == limit,
            r.wf(),
    {
        Stack { data: Vec::new(), limit }
    }

    pub fn len(&self) -> (r: usize)
        ensures
            r == self@.len(),
    {
        self.data.len()
    }

    pub fn limit(&self) -> (r: usize)
        ensures
            r == self.capacity(),
    {
        self.limit
    }

    /// Appends `w`, unless the stack is full.
    pub fn push(&mut self, w: Word) -> (r: Result<(), ExitError>)
        requires
            old(self).wf(),
        ensures
            final(self).wf(),
            final(self).capacity() == old(self).capacity(),
            old(self)@.len() < old(self).capacity() ==> r == Ok::<(), ExitError>(()) && final(self)@
                == old(self)@.push(w),
            old(self)@.len() >= old(self).capacity() ==> r == Err::<(), ExitError>(
                ExitError::StackOverflow,
            ) && final(self)@ == old(self)@,
    {
        if self.data.len() < self.limit {
            self.data.push(w);
            Ok(())
        } else {
            Err(ExitError::StackOverflow)
        }
    }

    /// Removes and returns the top, unless the stack is empty.
    pub fn pop(&mut self) -> (r: Result<Word, ExitError>)
        requires
            old(self).wf(),
        ensures
            final(self).wf(),
            final(self).capacity() == old(self).capacity(),
            old(self)@.len() > 0 ==> r == Ok::<Word, ExitError>(old(self)@.last()) && final(self)@
                == old(self)@.drop_last(),
            old(self)@.len() == 0 ==> r == Err::<Word, ExitError>(ExitError::StackUnderflow)
                && final(self)@ == old(self)@,
    {
        match self.data.pop() {
            Some(w) => Ok(w),
            None => Err(ExitError::StackUnderflow),
        }
    }

    /// The word `n` places below the top (`0` is the top).
    pub fn peek(&self, n: usize) -> (r: Result<Word, ExitError>)
        ensures
            n < self@.len() ==> r == Ok::<Word, ExitError>(self@[self@.len() - 1 - n]),
            n >= self@.len() ==> r == Err::<Word, ExitError>(ExitError::StackUnderflow),
    {
        if n < self.data.len() {
            Ok(self.data[self.data.len() - 1 - n])
        } else {
            Err(ExitError::StackUnderflow)
        }
    }

    /// Replaces the word `n` places below the top.
    pub fn set(&mut self, n: usize, w: Word) -> (r: Result<(), ExitError>)
        requires
            old(self).wf(),
        ensures
            final(self).wf(),
            final(self).capacity() == old(self).capacity(),
            n < old(self)@.len() ==> r == Ok::<(), ExitError>(()) && final(self)@ == old(self)@.update(old(self)@.len() - 1 - n, w),
            n >= old(self)@.len() ==> r == Err::<(), ExitError>(ExitError::StackUnderflow)
                && final(self)@ == old(self)@,
    {
        if n < self.data.len() {
            let i = self.data.len() - 1 - n;
            self.data.set(i, w);
            Ok(())
        } else {
            Err(ExitError::StackUnderflow)
        }
    }
}

} // verus!
