use vstd::prelude::*;

use crate::error::DecodeError;

verus! {

/// Reads the big-endian 16-bit integer at `pos`.
pub open spec fn u16_at(buf: Seq<u8>, pos: int) -> u16 {
    (buf[pos] as int * 256 + buf[pos + 1] as int) as u16
}

/// A read cursor over a whole message buffer. Offsets are absolute, from the
/// start of the message, as compression pointers need them.
pub struct DataWrapper<'a> {
    data: &'a [u8],
    pos: usize,
}

impl<'a> DataWrapper<'a> {
    /// The bytes of the message.
    pub closed spec fn bytes(&self) -> Seq<u8> {
        self.data@
    }

    /// The current offset.
    pub closed spec fn at(&self) -> int {
        self.pos as int
    }

    /// The cursor never stands past the end of the buffer.
    pub open spec fn wf(&self) -> bool {
        0 <= self.at() <= self.bytes().len()
    }

    pub fn new(data: &'a [u8]) -> (r: DataWrapper<'a>)
        ensures
            r.wf(),
            r.bytes() == data@,
            r.at() == 0,
    {
        DataWrapper { data, pos: 0 }
    }

    /// Moves the cursor to `pos`; `None` where that lies past the end.
    pub fn seek(&mut self, pos: usize) -> (r: Option<()>)
        requires
            old(self).wf(),
        ensures
            final(self).wf(),
            final(self).bytes() == old(self).bytes(),
            r.is_some() <==> pos <= old(self).bytes().len(),
            r.is_some() ==> final(self).at() == pos,
            r.is_none() ==> final(self).at() == old(self).at(),
    {
        if pos > self.data.len() {
            None
        } else {
            self.pos = pos;
            Some(())
        }
    }

    pub fn pos(&self) -> (r: usize)
        ensures
            r == self.at(),
    {
        self.pos
    }

    /// The number of bytes in the buffer.
    pub fn len(&self) -> (r: usize)
        ensures
            r == self.bytes().len(),
    {
        self.data.len()
    }

    /// The byte at absolute offset `i`, wherever the cursor stands.
    pub fn byte_at(&self, i: usize) -> (r: u8)
        requires
            i < self.bytes().len(),
        ensures
            r == self.bytes()[i as int],
    {
        self.data[i]
    }

    /// The byte one past the cursor, without moving; `None` where that lies
    /// at or past the end.
    pub fn peek(&self) -> (r: Option<u8>)
        requires
            self.wf(),
        ensures
            self.at() + 1 < self.bytes().len() ==> r == Some(self.bytes()[self.at() + 1]),
            self.at() + 1 >= self.bytes().len() ==> r.is_none(),
    {
        if self.data.len() - self.pos < 2 {
            None
        } else {
            Some(self.data[self.pos + 1])
        }
    }

    /// Reads one byte and moves past it.
    pub fn get_u8(&mut self) -> (r: Result<u8, DecodeError>)
        requires
            old(self).wf(),
        ensures
            final(self).wf(),
            final(self).bytes() == old(self).bytes(),
            old(self).at() + 1 <= old(self).bytes().len() ==> r == Ok::<u8, DecodeError>(
                old(self).bytes()[old(self).at()],
            ) && final(self).at() == old(self).at() + 1,
            old(self).at() + 1 > old(self).bytes().len() ==> r == Err::<u8, DecodeError>(
                DecodeError::Truncated,
            ) && final(self).at() == old(self).at(),
    {
        if self.pos >= self.data.len() {
            return Err(DecodeError::Truncated);
        }
        let byte = self.data[self.pos];
        self.pos = self.pos + 1;
        Ok(byte)
    }

    /// Reads a big-endian 16-bit integer and moves past it.
    pub fn get_u16(&mut self) -> (r: Result<u16, DecodeError>)
        requires
            old(self).wf(),
        ensures
            final(self).wf(),
            final(self).bytes() == old(self).bytes(),
            old(self).at() + 2 <= old(self).bytes().len() ==> r == Ok::<u16, DecodeError>(
                u16_at(old(self).bytes(), old(self).at()),
            ) && final(self).at() == old(self).at() + 2,
            old(self).at() + 2 > old(self).bytes().len() ==> r == Err::<u16, DecodeError>(
                DecodeError::Truncated,
            ) && final(self).at() == old(self).at(),
    {
        if self.data.len() - self.pos < 2 {
            return Err(DecodeError::Truncated);
        }
        let hi = self.data[self.pos] as u16;
        let lo = self.data[self.pos + 1] as u16;
        self.pos = self.pos + 2;
        Ok(hi * 256 + lo)
    }

    /// Copies the next `amount` bytes and moves past them.
    pub fn take(&mut self, amount: usize) -> (r: Result<Vec<u8>, DecodeError>)
        requires
            old(self).wf(),
        ensures
            final(self).wf(),
            final(self).bytes() == old(self).bytes(),
            old(self).at() + amount <= old(self).bytes().len() ==> r.is_ok() && r.unwrap()@
                == old(self).bytes().subrange(old(self).at(), old(self).at() + amount)
                && final(self).at() == old(self).at() + amount,
            old(self).at() + amount > old(self).bytes().len() ==> r == Err::<Vec<u8>, DecodeError>(
                DecodeError::Truncated,
            ) && final(self).at() == old(self).at(),
    {
        if self.data.len() - self.pos < amount {
            return Err(DecodeError::Truncated);
        }
        let start = self.pos;
        let data = self.data;
        let n = data.len();
        let mut out: Vec<u8> = Vec::new();
        let mut i: usize = 0;
        while i < amount
            invariant
                n == data@.len(),
                start + amount <= n,
                i <= amount,
                out@ == data@.subrange(start as int, start + i),
            decreases amount - i,
        {
            out.push(data[start + i]);
            i = i + 1;
        }
        self.pos = start + amount;
        Ok(out)
    }
}

} // verus!
