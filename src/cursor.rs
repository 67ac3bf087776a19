use vstd::prelude::*;

verus! {

/// Ways in which decoding a byte buffer can fail.
#[derive(Clone, Copy, Debug, PartialEq, Eq, Structural)]
pub enum PpmError {
    /// Fewer bytes remained in the buffer than a read asked for.
    IoError,
    /// The buffer does not start with the two bytes `P6`.
    InvalidMagic,
    /// A header number is empty, holds a byte that is neither a digit nor
    /// whitespace, or does not fit in a `u32`.
    MalformedToken,
    /// A relative seek would leave the buffer.
    SeekOutOfBounds,
}

/// A read position over an owned byte buffer.
pub struct ByteCursor {
    data: Vec<u8>,
    pos: usize,
}

impl ByteCursor {
    /// The bytes under the cursor.
    pub closed spec fn data(&self) -> Seq<u8> {
        self.data@
    }

    /// The index of the next byte to be read.
    pub closed spec fn pos(&self) -> int {
        self.pos as int
    }

    /// A position is never negative.
    pub proof fn lemma_pos_nonneg(&self)
        ensures
            0 <= self.pos(),
    {
    }

    #[verifier::type_invariant]
    spec fn inv(&self) -> bool {
        self.pos <= self.data.len()
    }

    /// A cursor at the start of `data`.
    pub fn new(data: Vec<u8>) -> (c: ByteCursor)
        ensures
            c.data() == data@,
            c.pos() == 0,
    {
        ByteCursor { data, pos: 0 }
    }

    /// The index of the next byte to be read.
    pub fn position(&self) -> (r: usize)
        ensures
            r as int == self.pos(),
    {
        self.pos
    }

    /// The number of bytes in the buffer.
    pub fn len(&self) -> (r: usize)
        ensures
            r as int == self.data().len(),
    {
        self.data.len()
    }

    /// Reads one byte and moves past it; fails at the end of the buffer.
    pub fn read_byte(&mut self) -> (r: Result<u8, PpmError>)
        ensures
            final(self).data() == old(self).data(),
            match r {
                Ok(b) => old(self).pos() < old(self).data().len() && b == old(self).data()[old(self).pos()]
                    && final(self).pos() == old(self).pos() + 1,
                Err(e) => e == PpmError::IoError && old(self).pos() >= old(self).data().len()
                    && final(self).pos() == old(self).pos(),
            },
    {
        proof { use_type_invariant(&*self); }
        if self.pos < self.data.len() {
            let b = self.data[self.pos];
            self.pos = self.pos + 1;
            Ok(b)
        } else {
            Err(PpmError::IoError)
        }
    }

    /// Reads the next `n` bytes and moves past them; fails, without moving,
    /// where fewer than `n` remain.
    pub fn read_exact(&mut self, n: usize) -> (r: Result<Vec<u8>, PpmError>)
        ensures
            final(self).data() == old(self).data(),
            match r {
                Ok(v) => old(self).pos() + n <= old(self).data().len()
                    && v@ == old(self).data().subrange(old(self).pos(), old(self).pos() + n)
                    && final(self).pos() == old(self).pos() + n,
                Err(e) => e == PpmError::IoError && old(self).pos() + n > old(self).data().len()
                    && final(self).pos() == old(self).pos(),
            },
    {
        proof { use_type_invariant(&*self); }
        if n > self.data.len() - self.pos {
            return Err(PpmError::IoError);
        }
        let mut v: Vec<u8> = Vec::with_capacity(n);
        let start = self.pos;
        let mut i: usize = 0;
        while i < n
            invariant
                start == self.pos,
                start + n <= self.data.len(),
                i <= n,
                v@ == self.data@.subrange(start as int, start + i),
            decreases n - i,
        {
            v.push(self.data[start + i]);
            i = i + 1;
            proof {
                assert(v@ =~= self.data@.subrange(start as int, start + i));
            }
        }
        self.pos = start + n;
        Ok(v)
    }

    /// Moves the cursor by `delta` bytes; fails, without moving, where the new
    /// position would lie before the start or past the end of the buffer.
    pub fn seek_relative(&mut self, delta: i64) -> (r: Result<(), PpmError>)
        ensures
            final(self).data() == old(self).data(),
            match r {
                Ok(_) => 0 <= old(self).pos() + delta <= old(self).data().len()
                    && final(self).pos() == old(self).pos() + delta,
                Err(e) => e == PpmError::SeekOutOfBounds
                    && !(0 <= old(self).pos() + delta <= old(self).data().len())
                    && final(self).pos() == old(self).pos(),
            },
    {
        proof { use_type_invariant(&*self); }
        if delta >= 0 {
            let fwd: u64 = delta as u64;
            if fwd as u128 <= (self.data.len() - self.pos) as u128 {
                self.pos = self.pos + fwd as usize;
                Ok(())
            } else {
                Err(PpmError::SeekOutOfBounds)
            }
        } else {
            let back: u64 = (0i128 - delta as i128) as u64;
            if back as u128 <= self.pos as u128 {
                self.pos = self.pos - back as usize;
                Ok(())
            } else {
                Err(PpmError::SeekOutOfBounds)
            }
        }
    }
}

} // verus!
