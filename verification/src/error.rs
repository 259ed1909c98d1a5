use crate::query_id::{bracketed, QueryId};
use vstd::prelude::*;
use vstd::string::StringExecFns;

verus! {

/// What can go wrong while a query is executed.
pub enum ExecutionError {
    /// A body asked for a parameter that was never set.
    MissingParam { id: QueryId },
    /// A parameter holds a value of another type than the one asked for.
    ConflictingParam { id: QueryId },
    /// A cached result has another type than the one asked for.
    ConflictingQuery { id: QueryId },
    /// A query was run from below itself; `trace` leads from the query that
    /// asked up to the one that was asked for.
    CyclicDependency { id: QueryId, trace: Vec<QueryId> },
    /// A query that a continuity took for fresh has no entry in the cache.
    CacheCorrupted,
    /// The entry of a fresh query holds a failure.
    Overridden { id: QueryId },
    /// The cached result of a query is a failure.
    Dependency { message: String },
    /// An object is not of the type asked for.
    InvalidType,
    /// A body failed for a reason of its own.
    Body { message: String },
    /// An error met while `id` was executed.
    Context { id: QueryId, source: Box<ExecutionError> },
}

/// The ids from `from` on, each in brackets, with `, ` between them.
pub open spec fn listed(trace: Seq<QueryId>, from: int) -> Seq<char>
    decreases trace.len() - from,
{
    if from >= trace.len() {
        Seq::empty()
    } else if from + 1 == trace.len() {
        bracketed(trace[from]@)
    } else {
        bracketed(trace[from]@) + ", "@ + listed(trace, from + 1)
    }
}

impl ExecutionError {
    /// The text of the error, the outermost context first.
    pub open spec fn spec_message(&self) -> Seq<char>
        decreases self,
    {
        match self {
            ExecutionError::MissingParam { id } => "No param with id "@ + bracketed(id@),
            ExecutionError::ConflictingParam { id } => "Conflicting params with id "@ + bracketed(
                id@,
            ),
            ExecutionError::ConflictingQuery { id } => "Conflicting past_queries with id: "@
                + bracketed(id@),
            ExecutionError::CyclicDependency { id, trace } => "Cyclic dependency during execution of "@
                + bracketed(id@) + "\nTrace: ["@ + listed(trace@, 0) + "]"@,
            ExecutionError::CacheCorrupted => "Cache was corrupted"@,
            ExecutionError::Overridden { id } => "Query "@ + bracketed(id@)
                + " in cache was overriden with failed execution."@,
            ExecutionError::Dependency { message } => "Error in dependency: "@ + message@,
            ExecutionError::InvalidType => "invalid type"@,
            ExecutionError::Body { message } => message@,
            ExecutionError::Context { id, source } => "as a part of "@ + bracketed(id@) + ": "@
                + source.spec_message(),
        }
    }

    /// The error as it is shown.
    pub fn message(&self) -> (res: String)
        ensures
            res@ == self.spec_message(),
        decreases self,
    {
        match self {
            ExecutionError::MissingParam { id } => {
                let res = String::from_str("No param with id ").concat(id.to_string().as_str());
                res
            },
            ExecutionError::ConflictingParam { id } => {
                String::from_str("Conflicting params with id ").concat(id.to_string().as_str())
            },
            ExecutionError::ConflictingQuery { id } => {
                String::from_str("Conflicting past_queries with id: ").concat(
                    id.to_string().as_str(),
                )
            },
            ExecutionError::CyclicDependency { id, trace } => {
                let mut res = String::from_str("Cyclic dependency during execution of ").concat(
                    id.to_string().as_str(),
                ).concat("\nTrace: [");
                let ghost head = res@;
                let mut i: usize = trace.len();
                let mut tail = String::from_str("]");
                let mut list = String::from_str("");
                proof {
                    reveal_strlit("");
                    assert(""@ =~= Seq::<char>::empty());
                }
                while i > 0
                    invariant
                        i <= trace.len(),
                        list@ == listed(trace@, i as int),
                    decreases i,
                {
                    i -= 1;
                    let shown = trace[i].to_string();
                    if i + 1 == trace.len() {
                        proof {
                            assert(shown@ + list@ =~= shown@);
                        }
                        list = shown.concat(list.as_str());
                    } else {
                        list = shown.concat(", ").concat(list.as_str());
                    }
                }
                let res = res.concat(list.as_str()).concat("]");
                res
            },
            ExecutionError::CacheCorrupted => String::from_str("Cache was corrupted"),
            ExecutionError::Overridden { id } => {
                String::from_str("Query ").concat(id.to_string().as_str()).concat(
                    " in cache was overriden with failed execution.",
                )
            },
            ExecutionError::Dependency { message } => {
                String::from_str("Error in dependency: ").concat(message.as_str())
            },
            ExecutionError::InvalidType => String::from_str("invalid type"),
            ExecutionError::Body { message } => message.clone(),
            ExecutionError::Context { id, source } => {
                let inner = source.message();
                let res = String::from_str("as a part of ").concat(id.to_string().as_str()).concat(
                    ": ",
                ).concat(inner.as_str());
                assert(res@ =~= self.spec_message());
                res
            },
        }
    }

    /// The error, as met while `id` was executed.
    pub fn context(self, id: QueryId) -> (res: Self)
        ensures
            res == (ExecutionError::Context { id, source: Box::new(self) }),
    {
        ExecutionError::Context { id, source: Box::new(self) }
    }
}

} // verus!
