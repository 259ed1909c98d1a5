use crate::data::Object;
use crate::hashing::ViewEq;
use crate::serialization::{ByteWriter, Writer};
use rustc_stable_hash::hashers::{SipHasher128, SipHasher128Hash};
use std::sync::Arc;
use vstd::prelude::*;
use vstd::string::StringExecFns;

verus! {

/// A 128-bit hash of the bytes that stand for a value.
#[derive(Clone, Copy, Debug, PartialEq, Eq)]
pub struct Fingerprint {
    high: u64,
    low: u64,
}

impl View for Fingerprint {
    type V = (u64, u64);

    /// The two words of the hash.
    closed spec fn view(&self) -> (u64, u64) {
        (self.high, self.low)
    }
}

impl ViewEq for Fingerprint {
    fn view_eq(&self, other: &Self) -> (r: bool) {
        self.high == other.high && self.low == other.low
    }
}

/// The lower-case hexadecimal digit for a number below 16.
pub open spec fn hex_digit(n: int) -> char {
    if n == 0 {
        '0'
    } else if n == 1 {
        '1'
    } else if n == 2 {
        '2'
    } else if n == 3 {
        '3'
    } else if n == 4 {
        '4'
    } else if n == 5 {
        '5'
    } else if n == 6 {
        '6'
    } else if n == 7 {
        '7'
    } else if n == 8 {
        '8'
    } else if n == 9 {
        '9'
    } else if n == 10 {
        'a'
    } else if n == 11 {
        'b'
    } else if n == 12 {
        'c'
    } else if n == 13 {
        'd'
    } else if n == 14 {
        'e'
    } else {
        'f'
    }
}

/// The four hexadecimal digits of a number below 65536, highest first.
pub open spec fn hex4(n: int) -> Seq<char> {
    seq![
        hex_digit(n / 4096),
        hex_digit((n / 256) % 16),
        hex_digit((n / 16) % 16),
        hex_digit(n % 16),
    ]
}

/// The hexadecimal digit for a number below 16, as a string.
fn digit(n: u64) -> (res: &'static str)
    requires
        n < 16,
    ensures
        res@ == seq![hex_digit(n as int)],
{
    proof {
        reveal_strlit("0");
        reveal_strlit("1");
        reveal_strlit("2");
        reveal_strlit("3");
        reveal_strlit("4");
        reveal_strlit("5");
        reveal_strlit("6");
        reveal_strlit("7");
        reveal_strlit("8");
        reveal_strlit("9");
        reveal_strlit("a");
        reveal_strlit("b");
        reveal_strlit("c");
        reveal_strlit("d");
        reveal_strlit("e");
        reveal_strlit("f");
    }
    let res = if n == 0 {
        "0"
    } else if n == 1 {
        "1"
    } else if n == 2 {
        "2"
    } else if n == 3 {
        "3"
    } else if n == 4 {
        "4"
    } else if n == 5 {
        "5"
    } else if n == 6 {
        "6"
    } else if n == 7 {
        "7"
    } else if n == 8 {
        "8"
    } else if n == 9 {
        "9"
    } else if n == 10 {
        "a"
    } else if n == 11 {
        "b"
    } else if n == 12 {
        "c"
    } else if n == 13 {
        "d"
    } else if n == 14 {
        "e"
    } else {
        "f"
    };
    assert(res@ =~= seq![hex_digit(n as int)]);
    res
}

/// Appends the four hexadecimal digits of a number below 65536.
fn push_hex4(text: String, n: u64) -> (res: String)
    requires
        n < 65536,
    ensures
        res@ == text@ + hex4(n as int),
{
    let res = text.concat(digit(n / 4096)).concat(digit((n / 256) % 16)).concat(
        digit((n / 16) % 16),
    ).concat(digit(n % 16));
    assert(res@ =~= text@ + hex4(n as int));
    res
}

impl Fingerprint {
    /// The two words of the hash.
    pub open spec fn words(&self) -> (u64, u64) {
        self@
    }

    /// Two fingerprints with the same words are the same.
    pub broadcast proof fn lemma_words(a: Fingerprint, b: Fingerprint)
        ensures
            (#[trigger] a@ == #[trigger] b@) == (a == b),
    {
    }

    pub fn new(high: u64, low: u64) -> (res: Self)
        ensures
            res.words() == (high, low),
    {
        Fingerprint { high, low }
    }

    /// The text that stands for a fingerprint: the highest 16 bits of the
    /// first word and the lowest 16 bits of the second, in four hexadecimal
    /// digits each, with `~` between them.
    pub open spec fn spec_text(&self) -> Seq<char> {
        hex4((self.words().0 / 0x1_0000_0000_0000) as int) + seq!['~'] + hex4(
            (self.words().1 % 0x1_0000) as int,
        )
    }

    /// The fingerprint as it is shown.
    pub fn to_string(&self) -> (res: String)
        ensures
            res@ == self.spec_text(),
    {
        let top = self.high >> 48;
        let bottom = self.low & 0xffff;
        proof {
            let h = self.high;
            let l = self.low;
            assert(h >> 48 == h / 0x1_0000_0000_0000) by (bit_vector);
            assert(l & 0xffff == l % 0x1_0000) by (bit_vector);
            reveal_strlit("~");
        }
        let res = push_hex4(push_hex4(String::from_str(""), top).concat("~"), bottom);
        proof {
            reveal_strlit("");
            assert(""@ =~= Seq::<char>::empty());
            assert("~"@ =~= seq!['~']);
            assert(res@ =~= self.spec_text());
        }
        res
    }
}

/// The two words that the stable 128-bit SipHash with the keys 0 and 0 makes
/// of a stream of bytes.
pub uninterp spec fn stable_hash128(bytes: Seq<u8>) -> (u64, u64);

/// `SipHasher128` of `rustc_stable_hash`, the hasher inside its
/// `StableSipHasher128`: a hasher with the keys 0 and 0 takes the bytes and
/// is finished. What comes out depends on the bytes alone, whatever the
/// machine and however the bytes are cut into writes.
#[verifier::external_body]
fn sip128(bytes: &[u8]) -> (res: (u64, u64))
    ensures
        res == stable_hash128(bytes@),
{
    let mut hasher = SipHasher128::default();
    std::hash::Hasher::write(&mut hasher, bytes);
    let SipHasher128Hash(words) = rustc_stable_hash::ExtendedHasher::finish(hasher);
    (words[0], words[1])
}

/// The fingerprint of a value, with the value.
pub fn stamp_with_fingerprint<T: Object>(obj: Arc<T>) -> (res: (Fingerprint, Arc<T>))
    ensures
        res.0.words() == stable_hash128(obj.bytes()),
        res.1 == obj,
{
    let mut writer = ByteWriter::new();
    obj.write(&mut writer);
    let words = sip128(writer.bytes().as_slice());
    proof {
        assert(writer.written() =~= obj.bytes());
    }
    (Fingerprint { high: words.0, low: words.1 }, obj)
}

} // verus!
