//! A byte buffer that keeps its own read position, handed through the
//! recursive reading of a Huffman tree.

use vstd::prelude::*;
use crate::bits::{bytes_to_bits, byte_bits_into};

verus! {

/// Bytes and the position of the next byte to read.
#[derive(Debug)]
pub struct ReadBuffer {
    pub data: Vec<u8>,
    pub read_pos: usize,
}

impl ReadBuffer {
    /// A buffer positioned at its first byte.
    pub fn new(data: Vec<u8>) -> (buf: Self)
        ensures
            buf.data@ == data@,
            buf.read_pos == 0,
    {
        Self { data: data, read_pos: 0 }
    }

    /// The byte at the read position, moving past it; `None` at the end,
    /// where the position stays.
    pub fn read_byte(&mut self) -> (res: Option<u8>)
        requires
            old(self).read_pos < usize::MAX,
        ensures
            final(self).data@ == old(self).data@,
            old(self).read_pos < old(self).data@.len() ==> {
                &&& res == Some(old(self).data@[old(self).read_pos as int])
                &&& final(self).read_pos == old(self).read_pos + 1
            },
            old(self).read_pos >= old(self).data@.len() ==> {
                &&& res is None
                &&& final(self).read_pos == old(self).read_pos
            },
    {
        let data_len = self.data.len();
        let new_pos = self.read_pos + 1;
        if new_pos > data_len {
            None
        } else {
            let value = self.data[self.read_pos];
            self.read_pos = self.read_pos + 1;
            Some(value)
        }
    }

    /// The bytes from the read position to the end, as bits, each byte most
    /// significant bit first.
    pub fn remaining_bits(&self) -> (bits: Vec<bool>)
        requires
            self.read_pos <= self.data@.len(),
        ensures
            bits@ == bytes_to_bits(self.data@.skip(self.read_pos as int)),
    {
        let mut bits: Vec<bool> = Vec::new();
        let mut i: usize = self.read_pos;
        assert(self.data@.skip(self.read_pos as int).take(0) =~= Seq::<u8>::empty());
        while i < self.data.len()
            invariant
                self.read_pos <= i <= self.data@.len(),
                bits@ == bytes_to_bits(self.data@.skip(self.read_pos as int).take(i - self.read_pos)),
            decreases self.data@.len() - i,
        {
            let ghost rest = self.data@.skip(self.read_pos as int);
            byte_bits_into(self.data[i], &mut bits);
            assert(rest.take(i + 1 - self.read_pos).drop_last() =~= rest.take(i - self.read_pos));
            i = i + 1;
        }
        assert(self.data@.skip(self.read_pos as int).take(i - self.read_pos) =~= self.data@.skip(self.read_pos as int));
        bits
    }
}

} // verus!
