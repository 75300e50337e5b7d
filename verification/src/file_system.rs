//! What the table layer asks of the files it writes to and reads from.
//!
//! Both traits are meant to be implemented by users of the crate. Each has
//! two specification functions, which state what the file holds and whether
//! it can fail. A type that is verified says what they are; for a type
//! written outside of verified code they keep the bodies given here, nothing
//! is checked of it, and what is proved of the table layer holds of it as
//! far as it behaves as the contracts say of some unchanging byte string.

use crate::error::Error;
use vstd::prelude::*;

verus! {

/// An append-only sink.
pub trait SequentialWriter {
    /// Everything written to the sink so far.
    open spec fn contents(&self) -> Seq<u8> {
        Seq::empty()
    }

    /// The sink never fails.
    open spec fn dependable(&self) -> bool {
        false
    }

    /// Appends all of `bytes`. After an error nothing is known of the
    /// contents.
    fn write_all(&mut self, bytes: &[u8]) -> (done: Result<(), Error>)
        ensures
            final(self).dependable() == old(self).dependable(),
            match done {
                Ok(_) => final(self).contents() == old(self).contents() + bytes@,
                Err(_) => !old(self).dependable(),
            },
    ;
}

/// How many bytes a read of `want` bytes at `offset` yields from a source
/// of `len` bytes.
pub open spec fn readable(len: nat, offset: u64, want: nat) -> nat {
    if offset >= len {
        0
    } else if want <= len - offset {
        want
    } else {
        (len - offset) as nat
    }
}

/// A source that can be read at any offset and does not change.
pub trait RandomAccessReader {
    /// The bytes of the source.
    open spec fn contents(&self) -> Seq<u8> {
        Seq::empty()
    }

    /// The source never fails.
    open spec fn dependable(&self) -> bool {
        false
    }

    /// Fills `dst` with the bytes from `offset` on and returns how many
    /// were read: as many as `dst` holds, or fewer where the source ends
    /// first. What is not filled keeps its bytes.
    fn read_at(&self, dst: &mut [u8], offset: u64) -> (read: Result<usize, Error>)
        ensures
            final(dst)@.len() == old(dst)@.len(),
            match read {
                Ok(n) => {
                    &&& n == readable(self.contents().len(), offset, old(dst)@.len())
                    &&& n > 0 ==> final(dst)@.take(n as int) == self.contents().subrange(
                        offset as int,
                        offset + n,
                    )
                    &&& final(dst)@.skip(n as int) == old(dst)@.skip(n as int)
                },
                Err(_) => !self.dependable(),
            },
    ;
}

/// A vector is a sink that keeps what is written in memory.
impl SequentialWriter for Vec<u8> {
    open spec fn contents(&self) -> Seq<u8> {
        self@
    }

    open spec fn dependable(&self) -> bool {
        true
    }

    fn write_all(&mut self, bytes: &[u8]) -> (done: Result<(), Error>) {
        let mut i: usize = 0;
        while i < bytes.len()
            invariant
                i <= bytes.len(),
                self@ == old(self)@ + bytes@.take(i as int),
            decreases bytes.len() - i,
        {
            self.push(bytes[i]);
            proof {
                assert(self@ =~= old(self)@ + bytes@.take(i + 1));
            }
            i += 1;
        }
        proof {
            assert(bytes@.take(i as int) =~= bytes@);
        }
        Ok(())
    }
}

/// A vector is a source that holds its bytes in memory.
impl RandomAccessReader for Vec<u8> {
    open spec fn contents(&self) -> Seq<u8> {
        self@
    }

    open spec fn dependable(&self) -> bool {
        true
    }

    fn read_at(&self, dst: &mut [u8], offset: u64) -> (read: Result<usize, Error>) {
        if offset >= self.len() as u64 {
            return Ok(0);
        }
        let start = offset as usize;
        let mut n: usize = 0;
        while n < dst.len() && n < self.len() - start
            invariant
                start == offset,
                start < self@.len(),
                n <= dst@.len(),
                n <= self@.len() - start,
                dst@.len() == old(dst)@.len(),
                dst@ == self@.subrange(start as int, start + n) + old(dst)@.skip(n as int),
            decreases dst@.len() - n,
        {
            dst[n] = self[start + n];
            proof {
                assert(dst@ =~= self@.subrange(start as int, start + n + 1) + old(dst)@.skip(
                    n + 1,
                ));
            }
            n += 1;
        }
        proof {
            assert(dst@.take(n as int) =~= self@.subrange(start as int, start + n));
            assert(dst@.skip(n as int) =~= old(dst)@.skip(n as int));
        }
        Ok(n)
    }
}

} // verus!
