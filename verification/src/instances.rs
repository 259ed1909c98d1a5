use crate::data::{Object, ReadError, ReadObject};
use crate::serialization::{Reader, Writer};
use vstd::prelude::*;

verus! {

/// The eight bytes of a number, highest first.
pub open spec fn be_bytes(v: u64) -> Seq<u8> {
    seq![
        ((v / 0x100_0000_0000_0000) % 256) as u8,
        ((v / 0x1_0000_0000_0000) % 256) as u8,
        ((v / 0x100_0000_0000) % 256) as u8,
        ((v / 0x1_0000_0000) % 256) as u8,
        ((v / 0x100_0000) % 256) as u8,
        ((v / 0x1_0000) % 256) as u8,
        ((v / 0x100) % 256) as u8,
        (v % 256) as u8,
    ]
}

/// The number that eight bytes stand for, highest first.
pub open spec fn from_be_bytes(b: Seq<u8>) -> u64 {
    (b[0] * 0x100_0000_0000_0000 + b[1] * 0x1_0000_0000_0000 + b[2] * 0x100_0000_0000 + b[3]
        * 0x1_0000_0000 + b[4] * 0x100_0000 + b[5] * 0x1_0000 + b[6] * 0x100 + b[7]) as u64
}

/// Reading the bytes of a number gives the number back.
pub proof fn lemma_be_round_trip(v: u64)
    ensures
        be_bytes(v).len() == 8,
        from_be_bytes(be_bytes(v)) == v,
{
    lemma_digits(v);
    let b = be_bytes(v);
    assert(b[0] == (v / 0x100_0000_0000_0000) % 256);
    assert(b[1] == (v / 0x1_0000_0000_0000) % 256);
    assert(b[2] == (v / 0x100_0000_0000) % 256);
    assert(b[3] == (v / 0x1_0000_0000) % 256);
    assert(b[4] == (v / 0x100_0000) % 256);
    assert(b[5] == (v / 0x1_0000) % 256);
    assert(b[6] == (v / 0x100) % 256);
    assert(b[7] == v % 256);
}

proof fn lemma_digits(v: u64)
    by (bit_vector)
    ensures
        ((v / 0x100_0000_0000_0000) % 256) * 0x100_0000_0000_0000 + ((v / 0x1_0000_0000_0000)
            % 256) * 0x1_0000_0000_0000 + ((v / 0x100_0000_0000) % 256) * 0x100_0000_0000 + ((v
            / 0x1_0000_0000) % 256) * 0x1_0000_0000 + ((v / 0x100_0000) % 256) * 0x100_0000 + ((v
            / 0x1_0000) % 256) * 0x1_0000 + ((v / 0x100) % 256) * 0x100 + v % 256 == v,
{
}

/// The bytes of `v`, highest first.
fn to_be_bytes(v: u64) -> (res: Vec<u8>)
    ensures
        res@ == be_bytes(v),
{
    let mut res: Vec<u8> = Vec::new();
    proof {
        assert((v >> 56) & 0xff == (v / 0x100_0000_0000_0000) % 256) by (bit_vector);
        assert((v >> 48) & 0xff == (v / 0x1_0000_0000_0000) % 256) by (bit_vector);
        assert((v >> 40) & 0xff == (v / 0x100_0000_0000) % 256) by (bit_vector);
        assert((v >> 32) & 0xff == (v / 0x1_0000_0000) % 256) by (bit_vector);
        assert((v >> 24) & 0xff == (v / 0x100_0000) % 256) by (bit_vector);
        assert((v >> 16) & 0xff == (v / 0x1_0000) % 256) by (bit_vector);
        assert((v >> 8) & 0xff == (v / 0x100) % 256) by (bit_vector);
        assert(v & 0xff == v % 256) by (bit_vector);
    }
    res.push(((v >> 56) & 0xff) as u8);
    res.push(((v >> 48) & 0xff) as u8);
    res.push(((v >> 40) & 0xff) as u8);
    res.push(((v >> 32) & 0xff) as u8);
    res.push(((v >> 24) & 0xff) as u8);
    res.push(((v >> 16) & 0xff) as u8);
    res.push(((v >> 8) & 0xff) as u8);
    res.push((v & 0xff) as u8);
    assert(res@ =~= be_bytes(v));
    res
}

/// The number that the eight bytes of `b` stand for.
fn of_be_bytes(b: &Vec<u8>) -> (res: u64)
    requires
        b@.len() == 8,
    ensures
        res == from_be_bytes(b@),
{
    let mut res: u64 = 0;
    let mut i: usize = 0;
    let ghost s = b@;
    while i < 8
        invariant
            i <= 8,
            s == b@,
            s.len() == 8,
            i == 0 ==> res == 0,
            i == 1 ==> res == s[0],
            i == 2 ==> res == s[0] * 0x100 + s[1],
            i == 3 ==> res == s[0] * 0x1_0000 + s[1] * 0x100 + s[2],
            i == 4 ==> res == s[0] * 0x100_0000 + s[1] * 0x1_0000 + s[2] * 0x100 + s[3],
            i == 5 ==> res == s[0] * 0x1_0000_0000 + s[1] * 0x100_0000 + s[2] * 0x1_0000 + s[3]
                * 0x100 + s[4],
            i == 6 ==> res == s[0] * 0x100_0000_0000 + s[1] * 0x1_0000_0000 + s[2] * 0x100_0000
                + s[3] * 0x1_0000 + s[4] * 0x100 + s[5],
            i == 7 ==> res == s[0] * 0x1_0000_0000_0000 + s[1] * 0x100_0000_0000 + s[2]
                * 0x1_0000_0000 + s[3] * 0x100_0000 + s[4] * 0x1_0000 + s[5] * 0x100 + s[6],
            i == 8 ==> res == from_be_bytes(s),
        decreases 8 - i,
    {
        res = res * 256 + b[i] as u64;
        i += 1;
    }
    res
}

impl Object for u64 {
    open spec fn bytes(&self) -> Seq<u8> {
        be_bytes(*self)
    }

    fn write<W: Writer>(&self, writer: &mut W) {
        let bytes = to_be_bytes(*self);
        writer.write(bytes.as_slice());
    }
}

impl ReadObject for u64 {
    open spec fn parsed(bytes: Seq<u8>) -> Option<(u64, int)> {
        if bytes.len() >= 8 {
            Some((from_be_bytes(bytes.take(8)), 8))
        } else {
            None
        }
    }

    fn read<R: Reader>(reader: &mut R) -> (res: Result<Self, ReadError>) {
        let slice = reader.read(8);
        if slice.len() != 8 {
            return Err(ReadError::MissingBytes);
        }
        Ok(of_be_bytes(&slice))
    }

    proof fn lemma_read_back(&self, rest: Seq<u8>) {
        lemma_be_round_trip(*self);
        assert((be_bytes(*self) + rest).take(8) =~= be_bytes(*self));
    }
}

impl Object for usize {
    open spec fn bytes(&self) -> Seq<u8> {
        be_bytes(*self as u64)
    }

    fn write<W: Writer>(&self, writer: &mut W) {
        let bytes = to_be_bytes(*self as u64);
        writer.write(bytes.as_slice());
    }
}

impl ReadObject for usize {
    open spec fn parsed(bytes: Seq<u8>) -> Option<(usize, int)> {
        if bytes.len() >= 8 && from_be_bytes(bytes.take(8)) <= usize::MAX {
            Some((from_be_bytes(bytes.take(8)) as usize, 8))
        } else {
            None
        }
    }

    fn read<R: Reader>(reader: &mut R) -> (res: Result<Self, ReadError>) {
        let slice = reader.read(8);
        if slice.len() != 8 {
            return Err(ReadError::MissingBytes);
        }
        let value = of_be_bytes(&slice);
        if value > usize::MAX as u64 {
            return Err(ReadError::OutOfRange);
        }
        Ok(value as usize)
    }

    proof fn lemma_read_back(&self, rest: Seq<u8>) {
        lemma_be_round_trip(*self as u64);
        assert((be_bytes(*self as u64) + rest).take(8) =~= be_bytes(*self as u64));
    }
}

/// The bytes of the first `n` items, one after another.
pub open spec fn items_bytes<T: Object>(items: Seq<T>, n: int) -> Seq<u8>
    decreases n,
{
    if n <= 0 {
        Seq::empty()
    } else {
        items_bytes(items, n - 1) + items[n - 1].bytes()
    }
}

impl<T: Object> Object for Vec<T> {
    /// The number of items, then the items.
    open spec fn bytes(&self) -> Seq<u8> {
        be_bytes(self@.len() as u64) + items_bytes(self@, self@.len() as int)
    }

    fn write<W: Writer>(&self, writer: &mut W) {
        let len = self.len() as u64;
        len.write(writer);
        let mut i: usize = 0;
        proof {
            assert(writer.written() =~= old(writer).written() + be_bytes(self@.len() as u64)
                + items_bytes(self@, 0));
        }
        while i < self.len()
            invariant
                i <= self.len(),
                writer.written() == old(writer).written() + be_bytes(self@.len() as u64)
                    + items_bytes(self@, i as int),
            decreases self.len() - i,
        {
            let ghost before = writer.written();
            self[i].write(writer);
            proof {
                assert(writer.written() =~= old(writer).written() + be_bytes(
                    self@.len() as u64,
                ) + items_bytes(self@, i + 1));
            }
            i += 1;
        }
        proof {
            assert(writer.written() =~= old(writer).written() + self.bytes());
        }
    }
}

/// What the first `count` items that `bytes` begin with stand for, and the
/// number of bytes that stand for them.
pub open spec fn parse_items<T: ReadObject>(bytes: Seq<u8>, count: int) -> Option<
    (Seq<<T as DeepView>::V>, int),
>
    decreases count,
{
    if count <= 0 {
        Some((Seq::empty(), 0))
    } else {
        match parse_items::<T>(bytes, count - 1) {
            Some((items, used)) => if 0 <= used <= bytes.len() {
                match T::parsed(bytes.skip(used)) {
                    Some((item, more)) => Some((items.push(item), used + more)),
                    None => None,
                }
            } else {
                None
            },
            None => None,
        }
    }
}

proof fn lemma_items_missing<T: ReadObject>(bytes: Seq<u8>, m: int, n: int)
    requires
        0 <= m <= n,
        parse_items::<T>(bytes, m) is None,
    ensures
        parse_items::<T>(bytes, n) is None,
    decreases n - m,
{
    if m < n {
        lemma_items_missing::<T>(bytes, m, n - 1);
    }
}

/// The bytes of the items from place `from` on, one after another.
spec fn later_bytes<T: Object>(items: Seq<T>, from: int) -> Seq<u8>
    decreases items.len() - from,
{
    if from >= items.len() {
        Seq::empty()
    } else {
        items[from].bytes() + later_bytes(items, from + 1)
    }
}

proof fn lemma_items_read_back<T: ReadObject>(items: Seq<T>, rest: Seq<u8>, n: int)
    requires
        0 <= n <= items.len(),
    ensures
        parse_items::<T>(later_bytes(items, 0) + rest, n) == Some(
            (
                Seq::new(n as nat, |i: int| items[i].deep_view()),
                items_bytes(items, n).len() as int,
            ),
        ),
        later_bytes(items, 0) + rest == items_bytes(items, n) + later_bytes(items, n) + rest,
    decreases n,
{
    let all = later_bytes(items, 0) + rest;
    if n == 0 {
        assert(Seq::new(0nat, |i: int| items[i].deep_view()) =~= Seq::empty());
        assert(all =~= items_bytes(items, 0) + later_bytes(items, 0) + rest);
    } else {
        lemma_items_read_back(items, rest, n - 1);
        let before = items_bytes(items, n - 1);
        let item = items[n - 1];
        let after = later_bytes(items, n) + rest;
        assert(later_bytes(items, n - 1) == item.bytes() + later_bytes(items, n));
        assert(all =~= before + (item.bytes() + after));
        assert(all.skip(before.len() as int) =~= item.bytes() + after);
        item.lemma_read_back(after);
        assert(Seq::new((n - 1) as nat, |i: int| items[i].deep_view()).push(item.deep_view())
            =~= Seq::new(n as nat, |i: int| items[i].deep_view()));
        assert(all =~= items_bytes(items, n) + later_bytes(items, n) + rest);
    }
}

impl<T: ReadObject> ReadObject for Vec<T> {
    /// The number of items, then the items.
    open spec fn parsed(bytes: Seq<u8>) -> Option<(Seq<<T as DeepView>::V>, int)> {
        match u64::parsed(bytes) {
            Some((len, _)) => if len <= usize::MAX {
                match parse_items::<T>(bytes.skip(8), len as int) {
                    Some((items, used)) => Some((items, 8 + used)),
                    None => None,
                }
            } else {
                None
            },
            None => None,
        }
    }

    fn read<R: Reader>(reader: &mut R) -> (res: Result<Self, ReadError>) {
        let len = match u64::read(reader) {
            Ok(len) => len,
            Err(e) => {
                return Err(e);
            },
        };
        if len > usize::MAX as u64 {
            return Err(ReadError::OutOfRange);
        }
        let ghost start = reader.remaining();
        let ghost mut used: int = 0;
        let mut res: Vec<T> = Vec::new();
        let mut i: usize = 0;
        proof {
            assert(start.skip(0) =~= start);
            assert(res.deep_view() =~= Seq::empty());
        }
        while i < len as usize
            invariant
                i <= len,
                len <= usize::MAX,
                u64::parsed(old(reader).remaining()) == Some((len, 8int)),
                start == old(reader).remaining().skip(8),
                res@.len() == i,
                0 <= used <= start.len(),
                parse_items::<T>(start, i as int) == Some((res.deep_view(), used)),
                reader.remaining() == start.skip(used),
            decreases len - i,
        {
            let ghost before = res.deep_view();
            match T::read(reader) {
                Ok(item) => {
                    proof {
                        let p = T::parsed(start.skip(used))->0;
                        assert(start.skip(used).skip(p.1) =~= start.skip(used + p.1));
                        used = used + p.1;
                    }
                    res.push(item);
                    proof {
                        assert(res.deep_view() =~= before.push(item.deep_view()));
                    }
                },
                Err(e) => {
                    proof {
                        assert(parse_items::<T>(start, i + 1) is None);
                        lemma_items_missing::<T>(start, i + 1, len as int);
                    }
                    return Err(e);
                },
            }
            i += 1;
        }
        proof {
            assert(old(reader).remaining().skip(8).skip(used) =~= old(reader).remaining().skip(
                8 + used,
            ));
        }
        Ok(res)
    }

    proof fn lemma_read_back(&self, rest: Seq<u8>) {
        vstd::std_specs::vec::axiom_spec_len(self);
        let len = self@.len() as u64;
        let items = items_bytes(self@, self@.len() as int);
        let all = self.bytes() + rest;
        lemma_be_round_trip(len);
        assert(all.take(8) =~= be_bytes(len));
        lemma_items_read_back(self@, rest, self@.len() as int);
        lemma_later_none(self@);
        assert(all.skip(8) =~= later_bytes(self@, 0) + rest) by {
            assert(later_bytes(self@, 0) + rest =~= items + rest);
        }
        assert(Seq::new(self@.len(), |i: int| self@[i].deep_view()) =~= self.deep_view());
    }
}

proof fn lemma_later_none<T: Object>(items: Seq<T>)
    ensures
        later_bytes(items, items.len() as int) == Seq::<u8>::empty(),
{
}

} // verus!
