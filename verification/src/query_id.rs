use crate::hashing::{fx_hash_str, fx_str, KeyHasher, ViewEq};
use rustc_hash::FxBuildHasher;
use vstd::prelude::*;
use vstd::string::StringExecFns;

verus! {

/// The name of a query or of a parameter. Two ids are the same where their
/// names are.
#[derive(Debug, Hash, PartialEq, Eq)]
pub struct QueryId {
    name: String,
}

impl View for QueryId {
    type V = Seq<char>;

    /// The characters of the name.
    closed spec fn view(&self) -> Seq<char> {
        self.name@
    }
}

impl ViewEq for QueryId {
    fn view_eq(&self, other: &Self) -> (r: bool) {
        self.name == other.name
    }
}

impl Clone for QueryId {
    fn clone(&self) -> (res: Self)
        ensures
            res@ == self@,
    {
        QueryId { name: self.name.clone() }
    }
}

/// The text that stands for an id: its name in square brackets.
pub open spec fn bracketed(name: Seq<char>) -> Seq<char> {
    seq!['['] + name + seq![']']
}

impl QueryId {
    pub fn new_static(s: &'static str) -> (res: Self)
        ensures
            res@ == s@,
    {
        QueryId { name: String::from_str(s) }
    }

    pub fn new(s: String) -> (res: Self)
        ensures
            res@ == s@,
    {
        QueryId { name: s }
    }

    /// The name, without brackets.
    pub fn name(&self) -> (res: &str)
        ensures
            res@ == self@,
    {
        self.name.as_str()
    }

    /// The id as it is shown: `[name]`.
    pub fn to_string(&self) -> (res: String)
        ensures
            res@ == bracketed(self@),
    {
        proof {
            reveal_strlit("[");
            reveal_strlit("]");
        }
        let res = String::from_str("[").concat(self.name.as_str()).concat("]");
        proof {
            assert(res@ =~= bracketed(self@));
            assert("["@ =~= seq!['[']);
            assert("]"@ =~= seq![']']);
        }
        res
    }
}

impl KeyHasher<QueryId> for FxBuildHasher {
    open spec fn spec_hash(&self, key: Seq<char>) -> u64 {
        fx_hash_str(usize::BITS, key)
    }

    fn hash_one(&self, key: &QueryId) -> (hash: u64) {
        fx_str(key.name.as_str())
    }
}

} // verus!
