use rustc_hash::FxBuildHasher;
use vstd::prelude::*;

verus! {

/// `rustc_hash::FxBuildHasher`, the builder of Fx hashers: a unit struct,
/// of which nothing is claimed.
#[verifier::external_type_specification]
#[verifier::external_body]
pub struct ExFxBuildHasher(FxBuildHasher);

/// A type whose values can be told apart by their views.
pub trait ViewEq: View {
    /// Whether the two values have the same view.
    fn view_eq(&self, other: &Self) -> (r: bool)
        ensures
            r == (self@ == other@),
    ;
}

impl ViewEq for u64 {
    fn view_eq(&self, other: &Self) -> (r: bool) {
        *self == *other
    }
}

impl ViewEq for usize {
    fn view_eq(&self, other: &Self) -> (r: bool) {
        *self == *other
    }
}

impl ViewEq for String {
    fn view_eq(&self, other: &Self) -> (r: bool) {
        *self == *other
    }
}

/// A source of 64-bit hashes for the keys of a map. A map finds a key again
/// only where its hash is a function of the key's view, which `spec_hash`
/// names.
pub trait KeyHasher<K: View> {
    /// The hash of the keys whose view is `key`.
    spec fn spec_hash(&self, key: K::V) -> u64;

    fn hash_one(&self, key: &K) -> (hash: u64)
        ensures
            hash == self.spec_hash(key@),
    ;
}

/// What the Fx hasher makes of a `u64` on a machine whose pointers have
/// `width` bits.
pub uninterp spec fn fx_hash_u64(width: u32, key: u64) -> u64;

/// What the Fx hasher makes of a string on a machine whose pointers have
/// `width` bits.
pub uninterp spec fn fx_hash_str(width: u32, key: Seq<char>) -> u64;

/// `BuildHasher::hash_one` of `rustc_hash::FxBuildHasher` on a `u64`: a fresh
/// hasher with the seed 0 takes the key and is finished. The result depends
/// on the key and on the width of `usize`, which picks the multiplier and the
/// rotation.
#[verifier::external_body]
fn fx_u64(key: u64) -> (hash: u64)
    ensures
        hash == fx_hash_u64(usize::BITS, key),
{
    std::hash::BuildHasher::hash_one(&FxBuildHasher, key)
}

/// `BuildHasher::hash_one` of `rustc_hash::FxBuildHasher` on a string: a
/// fresh hasher with the seed 0 takes the bytes of the string and the byte
/// 0xff and is finished. The result depends on the characters and on the
/// width of `usize`.
#[verifier::external_body]
pub(crate) fn fx_str(key: &str) -> (hash: u64)
    ensures
        hash == fx_hash_str(usize::BITS, key@),
{
    std::hash::BuildHasher::hash_one(&FxBuildHasher, key)
}

/// The unit value `rustc_hash::FxBuildHasher`.
#[verifier::external_body]
pub(crate) fn fx_build_hasher() -> FxBuildHasher {
    FxBuildHasher
}

impl KeyHasher<u64> for FxBuildHasher {
    open spec fn spec_hash(&self, key: u64) -> u64 {
        fx_hash_u64(usize::BITS, key)
    }

    fn hash_one(&self, key: &u64) -> (hash: u64) {
        fx_u64(*key)
    }
}

impl KeyHasher<String> for FxBuildHasher {
    open spec fn spec_hash(&self, key: Seq<char>) -> u64 {
        fx_hash_str(usize::BITS, key)
    }

    fn hash_one(&self, key: &String) -> (hash: u64) {
        fx_str(key.as_str())
    }
}

} // verus!
