use vstd::prelude::*;

verus! {

/// Something that bytes are written to, one after another.
pub trait Writer {
    /// The bytes written so far.
    spec fn written(&self) -> Seq<u8>;

    fn write(&mut self, data: &[u8])
        ensures
            final(self).written() == old(self).written() + data@,
    ;
}

/// Something that bytes are read from, one after another.
pub trait Reader {
    /// The bytes that are still to be read.
    spec fn remaining(&self) -> Seq<u8>;

    /// The next `num` bytes, or all that are left where they are fewer.
    fn read(&mut self, num: usize) -> (res: Vec<u8>)
        ensures
            res@ == old(self).remaining().take(taken(old(self).remaining(), num)),
            final(self).remaining() == old(self).remaining().skip(
                taken(old(self).remaining(), num),
            ),
    ;
}

/// The number of bytes that a read of `num` bytes takes from `bytes`.
pub open spec fn taken(bytes: Seq<u8>, num: usize) -> int {
    if num <= bytes.len() {
        num as int
    } else {
        bytes.len() as int
    }
}

/// A writer that keeps what is written to it.
pub struct ByteWriter {
    data: Vec<u8>,
}

impl ByteWriter {
    pub fn new() -> (res: Self)
        ensures
            res.written() == Seq::<u8>::empty(),
    {
        ByteWriter { data: Vec::new() }
    }

    /// The bytes written so far.
    pub fn bytes(&self) -> (res: &Vec<u8>)
        ensures
            res@ == self.written(),
    {
        &self.data
    }
}

impl Writer for ByteWriter {
    closed spec fn written(&self) -> Seq<u8> {
        self.data@
    }

    fn write(&mut self, data: &[u8]) {
        let mut i: usize = 0;
        while i < data.len()
            invariant
                i <= data.len(),
                self.data@ == old(self).data@ + data@.subrange(0, i as int),
            decreases data.len() - i,
        {
            self.data.push(data[i]);
            proof {
                assert(data@.subrange(0, i as int).push(data@[i as int]) =~= data@.subrange(
                    0,
                    i + 1,
                ));
            }
            i += 1;
        }
        proof {
            assert(data@.subrange(0, data@.len() as int) =~= data@);
        }
    }
}

/// A reader of bytes that are held in memory.
pub struct ByteReader {
    data: Vec<u8>,
    position: usize,
}

impl ByteReader {
    #[verifier::type_invariant]
    spec fn inv(self) -> bool {
        self.position <= self.data@.len()
    }

    pub fn new(data: Vec<u8>) -> (res: Self)
        ensures
            res.remaining() == data@,
    {
        proof {
            assert(data@.skip(0) =~= data@);
        }
        ByteReader { data, position: 0 }
    }
}

impl Reader for ByteReader {
    closed spec fn remaining(&self) -> Seq<u8> {
        self.data@.skip(self.position as int)
    }

    fn read(&mut self, num: usize) -> (res: Vec<u8>) {
        proof {
            use_type_invariant(&*self);
        }
        let left = self.data.len() - self.position;
        let count = if num <= left {
            num
        } else {
            left
        };
        let start = self.position;
        let mut res: Vec<u8> = Vec::new();
        let mut i: usize = 0;
        while i < count
            invariant
                i <= count,
                start + count <= self.data@.len(),
                start + count <= usize::MAX,
                res@ == self.data@.subrange(start as int, start + i),
            decreases count - i,
        {
            res.push(self.data[start + i]);
            proof {
                assert(self.data@.subrange(start as int, start + i).push(
                    self.data@[start + i],
                ) =~= self.data@.subrange(start as int, start + i + 1));
            }
            i += 1;
        }
        self.position = start + count;
        proof {
            assert(res@ =~= old(self).remaining().take(count as int));
            assert(self.remaining() =~= old(self).remaining().skip(count as int));
        }
        res
    }
}

} // verus!
