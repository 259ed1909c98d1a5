use crate::query_id::QueryId;
use crate::serialization::{Reader, Writer};
use std::marker::PhantomData;
use vstd::prelude::*;

verus! {

/// The name of a parameter whose values have the type `T`.
pub struct Param<T> {
    id: QueryId,
    phantom: PhantomData<T>,
}

impl<T> Param<T> {
    /// The name of the parameter.
    pub closed spec fn name(&self) -> Seq<char> {
        self.id@
    }

    pub fn new(s: &'static str) -> (res: Self)
        ensures
            res.name() == s@,
    {
        Param { id: QueryId::new_static(s), phantom: PhantomData }
    }

    pub fn query_id(&self) -> (res: &QueryId)
        ensures
            res@ == self.name(),
    {
        &self.id
    }
}

/// A value that can be written as bytes; its fingerprint is made of them.
pub trait Object {
    /// The bytes that stand for the value.
    spec fn bytes(&self) -> Seq<u8>;

    fn write<W: Writer>(&self, writer: &mut W)
        ensures
            final(writer).written() == old(writer).written() + self.bytes(),
    ;
}

/// Why a value could not be read.
#[derive(Debug, Clone, Copy, PartialEq, Eq)]
pub enum ReadError {
    /// Fewer bytes were left than a number takes.
    MissingBytes,
    /// The number read does not fit the type asked for.
    OutOfRange,
}

impl ReadError {
    /// The error as it is shown.
    pub fn message(&self) -> (res: &'static str)
        ensures
            res@ == match self {
                ReadError::MissingBytes => "missing bytes to read a number"@,
                ReadError::OutOfRange => "the number read is out of range"@,
            },
    {
        match self {
            ReadError::MissingBytes => "missing bytes to read a number",
            ReadError::OutOfRange => "the number read is out of range",
        }
    }
}

/// A value that can be read back from the bytes it was written as.
pub trait ReadObject: Object + Sized + DeepView {
    /// What the value that `bytes` begin with stands for, and the number of
    /// bytes that stand for it.
    spec fn parsed(bytes: Seq<u8>) -> Option<(<Self as DeepView>::V, int)>;

    fn read<R: Reader>(reader: &mut R) -> (res: Result<Self, ReadError>)
        ensures
            match res {
                Ok(value) => {
                    &&& Self::parsed(old(reader).remaining()) matches Some(p)
                    &&& p.0 == value.deep_view()
                    &&& 0 <= p.1 <= old(reader).remaining().len()
                    &&& final(reader).remaining() == old(reader).remaining().skip(p.1)
                },
                Err(_) => Self::parsed(old(reader).remaining()) is None,
            },
    ;

    /// What was written is read back, whatever follows it.
    proof fn lemma_read_back(&self, rest: Seq<u8>)
        ensures
            Self::parsed(self.bytes() + rest) == Some(
                (self.deep_view(), self.bytes().len() as int),
            ),
    ;
}

} // verus!
