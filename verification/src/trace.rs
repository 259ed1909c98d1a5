use crate::cache::Cached;
use crate::execution::ExecutionView;
use crate::query_id::{bracketed, QueryId};
use vstd::prelude::*;

verus! {

/// Hooks that the coordinator calls where it reads or changes the cache and
/// where it runs a body. They watch; nothing depends on what they do.
pub trait Trace<O> {
    fn cache_push(&mut self, key: &QueryId, entry: &Cached<O>, context: Option<&ExecutionView>);

    fn cache_pull(&mut self, key: &QueryId, reason: &'static str, context: Option<&ExecutionView>);

    fn cache_remove(&mut self, key: &QueryId, context: Option<&ExecutionView>);

    fn cache_modify(&mut self, key: &QueryId, entry: &Cached<O>, context: Option<&ExecutionView>);

    fn body_run(&mut self, key: &QueryId, context: Option<&ExecutionView>);
}

/// The trace that keeps nothing.
pub struct NoOpTrace;

impl<O> Trace<O> for NoOpTrace {
    fn cache_push(&mut self, _key: &QueryId, _entry: &Cached<O>, _context: Option<&ExecutionView>) {
    }

    fn cache_pull(
        &mut self,
        _key: &QueryId,
        _reason: &'static str,
        _context: Option<&ExecutionView>,
    ) {
    }

    fn cache_remove(&mut self, _key: &QueryId, _context: Option<&ExecutionView>) {
    }

    fn cache_modify(
        &mut self,
        _key: &QueryId,
        _entry: &Cached<O>,
        _context: Option<&ExecutionView>,
    ) {
    }

    fn body_run(&mut self, _key: &QueryId, _context: Option<&ExecutionView>) {
    }
}

/// The trace that keeps the names of the queries whose bodies ran.
pub struct BodyExecutionTrace {
    names: Vec<String>,
}

/// A trace of body runs that has seen none yet.
pub fn body_execution() -> (res: BodyExecutionTrace)
    ensures
        res.names() == Seq::<Seq<char>>::empty(),
{
    let res = BodyExecutionTrace { names: Vec::new() };
    proof {
        assert(res.names() =~= Seq::<Seq<char>>::empty());
    }
    res
}

impl BodyExecutionTrace {
    /// The names kept so far, each in brackets, in the order of the runs.
    pub closed spec fn names(&self) -> Seq<Seq<char>> {
        Seq::new(self.names@.len(), |i: int| self.names@[i]@)
    }

    /// The names kept so far.
    pub fn get_trace(&self) -> (res: Vec<String>)
        ensures
            res@.len() == self.names().len(),
            forall|i: int| 0 <= i < res@.len() ==> (#[trigger] res@[i])@ == self.names()[i],
    {
        let mut res: Vec<String> = Vec::new();
        let mut i: usize = 0;
        while i < self.names.len()
            invariant
                i <= self.names.len(),
                res@.len() == i,
                forall|j: int| 0 <= j < i ==> (#[trigger] res@[j])@ == self.names@[j]@,
            decreases self.names.len() - i,
        {
            res.push(self.names[i].clone());
            i += 1;
        }
        res
    }
}

impl<O> Trace<O> for BodyExecutionTrace {
    fn cache_push(&mut self, _key: &QueryId, _entry: &Cached<O>, _context: Option<&ExecutionView>)
        ensures
            final(self).names() == old(self).names(),
    {
    }

    fn cache_pull(
        &mut self,
        _key: &QueryId,
        _reason: &'static str,
        _context: Option<&ExecutionView>,
    )
        ensures
            final(self).names() == old(self).names(),
    {
    }

    fn cache_remove(&mut self, _key: &QueryId, _context: Option<&ExecutionView>)
        ensures
            final(self).names() == old(self).names(),
    {
    }

    fn cache_modify(
        &mut self,
        _key: &QueryId,
        _entry: &Cached<O>,
        _context: Option<&ExecutionView>,
    )
        ensures
            final(self).names() == old(self).names(),
    {
    }

    fn body_run(&mut self, key: &QueryId, _context: Option<&ExecutionView>)
        ensures
            final(self).names() == old(self).names().push(bracketed(key@)),
    {
        self.names.push(key.to_string());
        proof {
            assert(self.names() =~= old(self).names().push(bracketed(key@)));
        }
    }
}

} // verus!
