use crate::trap::ExitError;
use vstd::prelude::*;

verus! {

/// `m` extended with zero bytes to length `n`, or `m` where it is that long already.
pub open spec fn grown(m: Seq<u8>, n: nat) -> Seq<u8> {
    if n <= m.len() {
        m
    } else {
        m + Seq::new((n - m.len()) as nat, |i: int| 0u8)
    }
}

/// A byte-addressable buffer that grows only when asked, up to a limit.
pub struct Memory {
    data: Vec<u8>,
    limit: usize,
}

impl View for Memory {
    type V = Seq<u8>;

    closed spec fn view(&self) -> Seq<u8> {
        self.data@
    }
}

impl Memory {
    /// The length beyond which the memory never grows.
    pub closed spec fn max_len(&self) -> nat {
        self.limit as nat
    }

    pub open spec fn wf(&self) -> bool {
        self@.len() <= self.max_len()
    }

    pub fn new(limit: usize) -> (r: Memory)
        ensures
            r@ == Seq::<u8>::empty(),
            r.max_len() == limit,
            r.wf(),
    {
        Memory { data: Vec::new(), limit }
    }

    pub fn len(&self) -> (r: usize)
        ensures
            r == self@.len(),
    {
        self.data.len()
    }

    pub fn limit(&self) -> (r: usize)
        ensures
            r == self.max_len(),
    {
        self.limit
    }

    /// Grows to `new_len` with zero bytes; never shrinks. Fails, changing nothing,
    /// past the limit.
    pub fn resize(&mut self, new_len: usize) -> (r: Result<(), ExitError>)
        requires
            old(self).wf(),
        ensures
            final(self).wf(),
            final(self).max_len() == old(self).max_len(),
            new_len <= old(self).max_len() ==> r == Ok::<(), ExitError>(()) && final(self)@ == grown(
                old(self)@,
                new_len as nat,
            ),
            new_len > old(self).max_len() ==> r == Err::<(), ExitError>(ExitError::InvalidRange)
                && final(self)@ == old(self)@,
    {
        if new_len > self.limit {
            return Err(ExitError::InvalidRange);
        }
        let ghost start = self.data@;
        while self.data.len() < new_len
            invariant
                self.limit == old(self).limit,
                start == old(self).data@,
                start.len() <= self.limit,
                new_len <= self.limit,
                self.data@.len() == start.len() || self.data@.len() <= new_len,
                self.data@ == grown(start, self.data@.len() as nat),
                self.data@.len() >= start.len(),
            decreases new_len - self.data@.len(),
        {
            self.data.push(0u8);
            proof {
                assert(self.data@ =~= grown(start, self.data@.len() as nat));
            }
        }
        proof {
            if new_len > start.len() {
                assert(self.data@ =~= grown(start, new_len as nat));
            }
        }
        Ok(())
    }

    /// The bytes `[offset, offset + size)`, all within the current length.
    pub fn get(&self, offset: usize, size: usize) -> (r: Result<Vec<u8>, ExitError>)
        ensures
            offset + size <= self@.len() ==> r is Ok && r->Ok_0@ == self@.subrange(
                offset as int,
                offset + size,
            ),
            offset + size > self@.len() ==> r == Err::<Vec<u8>, ExitError>(ExitError::InvalidRange),
    {
        if size > self.data.len() || offset > self.data.len() - size {
            return Err(ExitError::InvalidRange);
        }
        let len = self.data.len();
        let mut out: Vec<u8> = Vec::new();
        let mut i: usize = 0;
        while i < size
            invariant
                offset + size <= len,
                len == self@.len(),
                i <= size,
                out@ == self@.subrange(offset as int, offset + i),
            decreases size - i,
        {
            out.push(self.data[offset + i]);
            i += 1;
            proof {
                assert(out@ =~= self@.subrange(offset as int, offset + i));
            }
        }
        Ok(out)
    }

    /// Writes `value` at `offset`, all within the current length; fails, changing
    /// nothing, otherwise.
    pub fn set(&mut self, offset: usize, value: &[u8]) -> (r: Result<(), ExitError>)
        requires
            old(self).wf(),
        ensures
            final(self).wf(),
            final(self).max_len() == old(self).max_len(),
            offset + value@.len() <= old(self)@.len() ==> r == Ok::<(), ExitError>(()) && final(self)@ == old(self)@.subrange(0, offset as int) + value@ + old(self)@.subrange(
                offset + value@.len(),
                old(self)@.len() as int,
            ),
            offset + value@.len() > old(self)@.len() ==> r == Err::<(), ExitError>(
                ExitError::InvalidRange,
            ) && final(self)@ == old(self)@,
    {
        let size = value.len();
        if size > self.data.len() || offset > self.data.len() - size {
            return Err(ExitError::InvalidRange);
        }
        let ghost start = self.data@;
        let len = self.data.len();
        let mut i: usize = 0;
        while i < size
            invariant
                offset + size <= len,
                len == start.len(),
                size == value@.len(),
                i <= size,
                self.data@.len() == start.len(),
                self.limit == old(self).limit,
                forall|j: int|
                    0 <= j < start.len() ==> self.data@[j] == if offset <= j < offset + i {
                        value@[j - offset]
                    } else {
                        start[j]
                    },
            decreases size - i,
        {
            self.data.set(offset + i, value[i]);
            i += 1;
        }
        proof {
            assert(self.data@ =~= start.subrange(0, offset as int) + value@ + start.subrange(
                offset + size,
                start.len() as int,
            ));
        }
        Ok(())
    }
}

impl Memory {
    /// Copies `[src, src + size)` onto `[dst, dst + size)`; the ranges may overlap, and
    /// the destination receives the source as it was before the copy. Both ranges lie
    /// within the current length, or nothing changes.
    pub fn copy(&mut self, dst: usize, src: usize, size: usize) -> (r: Result<(), ExitError>)
        requires
            old(self).wf(),
        ensures
            final(self).wf(),
            final(self).max_len() == old(self).max_len(),
            dst + size <= old(self)@.len() && src + size <= old(self)@.len() ==> r == Ok::<
                (),
                ExitError,
            >(()) && final(self)@ == old(self)@.subrange(0, dst as int) + old(self)@.subrange(
                src as int,
                src + size,
            ) + old(self)@.subrange(dst + size, old(self)@.len() as int),
            !(dst + size <= old(self)@.len() && src + size <= old(self)@.len()) ==> r == Err::<
                (),
                ExitError,
            >(ExitError::InvalidRange) && final(self)@ == old(self)@,
    {
        let len = self.data.len();
        if size > len || dst > len - size {
            return Err(ExitError::InvalidRange);
        }
        let bytes = match self.get(src, size) {
            Ok(v) => v,
            Err(e) => {
                return Err(e);
            },
        };
        self.set(dst, bytes.as_slice())
    }
}

} // verus!
