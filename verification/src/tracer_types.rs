use vstd::prelude::*;

verus! {

/// One event of a trace.
pub enum Message {
    NewChapter { data: String, fingerprint: String },
    Push { key: String, entry: CacheEntry, stack: Vec<String> },
    Pull { key: String, reason: String, stack: Vec<String> },
    Remove { key: String, stack: Vec<String> },
    Modify { key: String, entry: CacheEntry, stack: Vec<String> },
    BodyExecuted { key: String, stack: Vec<String> },
    End {  },
}

/// A cached entry as a trace shows it. Each state holds one pair for each
/// id: the id and its fingerprint, both as they are shown.
pub struct CacheEntry {
    pub value: String,
    pub fingerprint: String,
    pub world_state: Vec<(String, String)>,
    pub deps_state: Vec<(String, String)>,
    pub direct_world_state: Vec<(String, String)>,
}

} // verus!
