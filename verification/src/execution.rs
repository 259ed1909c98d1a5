use crate::cache::{CacheMap, Cached};
use crate::error::ExecutionError;
use crate::fingerprinting::Fingerprint;
use crate::hashing::ViewEq;
use crate::nodes::{share, MergeError};
use crate::query_id::{bracketed, QueryId};
use crate::set_wrapper::PerSet;
use crate::structure::{lists, map_conflict, PerMap};
use std::sync::Arc;
use vstd::prelude::*;

verus! {

broadcast use Fingerprint::lemma_words;

/// A map from ids to fingerprints.
pub type Deps = Map<Seq<char>, Fingerprint>;

/// Whether every fingerprint of `world` is that of the parameter it names.
/// A name without a parameter is no objection.
pub open spec fn verified<O>(world: Deps, params: Map<Seq<char>, (Fingerprint, O)>) -> bool {
    forall|k: Seq<char>|
        world.contains_key(k) && params.contains_key(k) ==> (#[trigger] params[k]).0 == world[k]
}

/// Whether two maps hold the same fingerprint for each id that both have.
pub open spec fn agree(a: Deps, b: Deps) -> bool {
    forall|k: Seq<char>| a.contains_key(k) && b.contains_key(k) ==> #[trigger] a[k] == b[k]
}

/// The views of the first `n` maps.
pub open spec fn views(states: Seq<CacheMap>, n: int) -> Seq<Deps> {
    Seq::new(n as nat, |i: int| states[i]@)
}

/// The first `n` maps folded into one, each joined to what came before it,
/// as long as each agrees with what came before it.
pub open spec fn folded(states: Seq<Deps>, n: int) -> Option<Deps>
    decreases n,
{
    if n <= 0 {
        Some(Map::empty())
    } else {
        match folded(states, n - 1) {
            Some(sum) => if agree(sum, states[n - 1]) {
                Some(states[n - 1].union_prefer_right(sum))
            } else {
                None
            },
            None => None,
        }
    }
}

/// The number of entries of the first `n` maps together.
pub open spec fn total_len(states: Seq<Deps>, n: int) -> nat
    decreases n,
{
    if n <= 0 {
        0
    } else {
        total_len(states, n - 1) + states[n - 1].len()
    }
}

/// Folds the maps into one, unless one of them holds another fingerprint for
/// an id than those before it.
pub fn fold_states(states: &Vec<CacheMap>) -> (res: Option<CacheMap>)
    requires
        total_len(views(states@, states@.len() as int), states@.len() as int) <= usize::MAX,
    ensures
        match res {
            Some(sum) => folded(views(states@, states@.len() as int), states@.len() as int)
                == Some(sum@),
            None => folded(views(states@, states@.len() as int), states@.len() as int) is None,
        },
{
    let ghost all = views(states@, states@.len() as int);
    let mut sum = CacheMap::empty();
    let mut i: usize = 0;
    while i < states.len()
        invariant
            i <= states.len(),
            all == views(states@, states@.len() as int),
            total_len(all, states@.len() as int) <= usize::MAX,
            folded(all, i as int) == Some(sum@),
            sum@.dom().finite(),
            sum@.len() <= total_len(all, i as int),
        decreases states.len() - i,
    {
        let dep = &states[i];
        proof {
            lemma_total_mono(all, i + 1, states@.len() as int);
            assert(all[i as int] == dep@);
        }
        match sum.non_overriding_union(dep) {
            Ok(next) => {
                proof {
                    assert(agree(sum@, dep@));
                }
                sum = next;
            },
            Err(MergeError::ValueConflict { key, left_value, right_value }) => {
                proof {
                    let (k, a, b) = choose|k: QueryId, a: Fingerprint, b: Fingerprint| #[trigger]
                        map_conflict(sum@, dep@, k, a, b);
                    assert(sum@[k@] != dep@[k@]);
                    assert(!agree(sum@, dep@));
                    lemma_folded_none(all, i + 1, states@.len() as int);
                }
                return None;
            },
        }
        i += 1;
    }
    Some(sum)
}

/// Whether the maps together hold no more entries than a machine word
/// counts: they can then be folded.
pub fn fits(states: &Vec<CacheMap>) -> (b: bool)
    ensures
        b == (total_len(views(states@, states@.len() as int), states@.len() as int)
            <= usize::MAX),
{
    let ghost all = views(states@, states@.len() as int);
    let mut sum: usize = 0;
    let mut i: usize = 0;
    while i < states.len()
        invariant
            i <= states.len(),
            all == views(states@, states@.len() as int),
            sum == total_len(all, i as int),
        decreases states.len() - i,
    {
        let n = states[i].len();
        proof {
            assert(all[i as int] == states@[i as int]@);
            lemma_total_mono(all, i + 1, states@.len() as int);
        }
        if n > usize::MAX - sum {
            return false;
        }
        sum = sum + n;
        i += 1;
    }
    true
}

proof fn lemma_total_mono(states: Seq<Deps>, m: int, n: int)
    requires
        0 <= m <= n,
    ensures
        total_len(states, m) <= total_len(states, n),
    decreases n - m,
{
    if m < n {
        lemma_total_mono(states, m, n - 1);
    }
}

proof fn lemma_folded_none(states: Seq<Deps>, m: int, n: int)
    requires
        0 <= m <= n,
        folded(states, m) is None,
    ensures
        folded(states, n) is None,
    decreases n - m,
{
    if m < n {
        lemma_folded_none(states, m, n - 1);
    }
}

/// What the cache says of a query before it is processed.
pub enum Consultation {
    /// The query has no entry: its body is run.
    Absent,
    /// Every parameter that the entry saw is as it was: the entry is used.
    Fresh,
    /// A parameter that the body read itself has changed, or the entry holds
    /// a failure: the body is run.
    Stale,
    /// The parameters that the body read itself are as they were, another is
    /// not: the queries that the body ran are checked.
    Recheck { deps_state: CacheMap },
}

/// What is to be done with a query, by its entry and the parameters.
pub enum Verdict {
    Absent,
    Fresh,
    Stale,
    Recheck,
}

impl Consultation {
    /// The kind of the consultation.
    pub open spec fn verdict(&self) -> Verdict {
        match self {
            Consultation::Absent => Verdict::Absent,
            Consultation::Fresh => Verdict::Fresh,
            Consultation::Stale => Verdict::Stale,
            Consultation::Recheck { .. } => Verdict::Recheck,
        }
    }
}

/// What is to be done with the query `id`: nothing where all that its entry
/// saw is as it was; its body is run where it has no entry, where a
/// parameter that the body read itself has changed, or where the entry holds
/// a failure; else the queries that the body ran are checked.
pub open spec fn verdict_of<O>(
    cache: Map<Seq<char>, Cached<O>>,
    params: Map<Seq<char>, (Fingerprint, O)>,
    id: Seq<char>,
) -> Verdict {
    if !cache.contains_key(id) {
        Verdict::Absent
    } else if verified(cache[id].world_state@, params) {
        Verdict::Fresh
    } else if !verified(cache[id].direct_world_state@, params) || cache[id].failed() {
        Verdict::Stale
    } else {
        Verdict::Recheck
    }
}

/// The state of the coordinator: the parameters, the cache, the queries whose
/// bodies are running, the queries seen so far and the log of body runs.
pub struct Reactor<O, Q> {
    params: PerMap<QueryId, (Fingerprint, O)>,
    cache: PerMap<QueryId, Cached<O>>,
    current: PerMap<QueryId, ()>,
    past_queries: PerMap<QueryId, Q>,
    trace: Vec<String>,
}

/// The map that holds `fingerprint` for `id` and nothing else: what a body
/// reports when it has read a parameter or run a query.
pub fn singleton(id: QueryId, fingerprint: Fingerprint) -> (res: CacheMap)
    ensures
        res@ == Map::<Seq<char>, Fingerprint>::empty().insert(id@, fingerprint),
{
    CacheMap::empty().insert(id, fingerprint)
}

impl<O, Q> Reactor<O, Q> {
    /// The parameters, by name.
    pub closed spec fn params(&self) -> Map<Seq<char>, (Fingerprint, O)> {
        self.params@
    }

    /// The cached entries, by the name of their query.
    pub closed spec fn cache(&self) -> Map<Seq<char>, Cached<O>> {
        self.cache@
    }

    /// The names of the queries whose bodies are running.
    pub closed spec fn running(&self) -> Set<Seq<char>> {
        self.current@.dom()
    }

    /// The queries that were processed before, by name.
    pub closed spec fn past_queries(&self) -> Map<Seq<char>, Q> {
        self.past_queries@
    }

    /// The names of the queries whose bodies ran, in the order of their
    /// completion.
    pub closed spec fn log(&self) -> Seq<Seq<char>> {
        Seq::new(self.trace@.len(), |i: int| self.trace@[i]@)
    }

    pub fn new() -> (res: Self)
        ensures
            res.params() == Map::<Seq<char>, (Fingerprint, O)>::empty(),
            res.cache() == Map::<Seq<char>, Cached<O>>::empty(),
            res.running() == Set::<Seq<char>>::empty(),
            res.past_queries() == Map::<Seq<char>, Q>::empty(),
            res.log() == Seq::<Seq<char>>::empty(),
    {
        let res = Reactor {
            params: PerMap::empty(),
            cache: PerMap::empty(),
            current: PerMap::empty(),
            past_queries: PerMap::empty(),
            trace: Vec::new(),
        };
        proof {
            assert(res.running() =~= Set::<Seq<char>>::empty());
            assert(res.log() =~= Seq::<Seq<char>>::empty());
        }
        res
    }

    /// Whether each part of the state has room for one more entry.
    pub fn has_room(&self) -> (b: bool)
        ensures
            b == (self.params().len() < usize::MAX && self.cache().len() < usize::MAX
                && self.running().len() < usize::MAX && self.past_queries().len() < usize::MAX),
    {
        self.params.len() < usize::MAX && self.cache.len() < usize::MAX && self.current.len()
            < usize::MAX && self.past_queries.len() < usize::MAX
    }

    /// Stores a stamped value for a parameter, in place of what was there. The
    /// cache stays as it is: entries are checked when they are read.
    pub fn set_param(&mut self, id: QueryId, stamped: (Fingerprint, O))
        requires
            old(self).params().len() < usize::MAX,
        ensures
            final(self).params() == old(self).params().insert(id@, stamped),
            final(self).cache() == old(self).cache(),
            final(self).running() == old(self).running(),
            final(self).past_queries() == old(self).past_queries(),
            final(self).log() == old(self).log(),
    {
        self.params = self.params.insert(id, stamped);
    }

    /// The stamped value of a parameter.
    pub fn param(&self, id: &QueryId) -> (res: Result<&(Fingerprint, O), ExecutionError>)
        ensures
            match res {
                Ok(stamped) => self.params().contains_pair(id@, *stamped),
                Err(ExecutionError::MissingParam { id: missing }) => !self.params().contains_key(
                    id@,
                ) && missing@ == id@,
                Err(_) => false,
            },
    {
        match self.params.get(id) {
            Some(stamped) => Ok(stamped),
            None => Err(ExecutionError::MissingParam { id: id.clone() }),
        }
    }

    /// Whether every fingerprint of `world_state` is that of the parameter
    /// it names.
    pub fn verify(&self, world_state: &CacheMap) -> (b: bool)
        ensures
            b == verified(world_state@, self.params()),
    {
        let mut it = world_state.iter();
        let ghost all = it.remaining();
        let ghost mut done: int = 0;
        let mut b = true;
        proof {
            assert(all.skip(0) =~= all);
        }
        loop
            invariant_except_break
                b,
                it.remaining() == all.skip(done),
            invariant
                it.wf(),
                0 <= done <= all.len(),
                lists(all, world_state@),
                forall|i: int|
                    0 <= i < done && self.params().contains_key((#[trigger] all[i]).0@)
                        ==> self.params()[all[i].0@].0 == all[i].1,
            ensures
                b == verified(world_state@, self.params()),
            decreases all.len() - done,
        {
            match it.next() {
                None => {
                    proof {
                        assert forall|k: Seq<char>|
                            world_state@.contains_key(k) && self.params().contains_key(
                                k,
                            ) implies (#[trigger] self.params()[k]).0 == world_state@[k] by {
                            let i = choose|i: int| 0 <= i < all.len() && (#[trigger] all[i]).0@ == k;
                            assert(world_state@.contains_pair(all[i].0@, all[i].1));
                        }
                    }
                    break ;
                },
                Some(st) => {
                    proof {
                        assert(all.skip(done)[0] == all[done]);
                        assert(all.skip(done).skip(1) =~= all.skip(done + 1));
                        assert(world_state@.contains_pair(all[done].0@, all[done].1));
                    }
                    match self.params.get(&st.0) {
                        None => {},
                        Some(p) => {
                            if !p.0.view_eq(&st.1) {
                                b = false;
                                break ;
                            }
                        },
                    }
                    proof {
                        done = done + 1;
                    }
                },
            }
        }
        b
    }

    /// What the cache says of the query `id`.
    pub fn consult(&self, id: &QueryId) -> (res: Consultation)
        ensures
            res.verdict() == verdict_of(self.cache(), self.params(), id@),
            res matches Consultation::Recheck { deps_state } ==> deps_state@
                == self.cache()[id@].deps_state@,
    {
        match self.cache.get(id) {
            None => Consultation::Absent,
            Some(cached) => {
                if self.verify(&cached.world_state) {
                    Consultation::Fresh
                } else if !self.verify(&cached.direct_world_state) {
                    Consultation::Stale
                } else {
                    match &*cached.result {
                        Ok(_) => Consultation::Recheck { deps_state: cached.deps_state.clone() },
                        Err(_) => Consultation::Stale,
                    }
                }
            },
        }
    }

    /// Notes that a caller waits for the query `id`. The first caller to wait
    /// is told to start the processing; the others share its outcome.
    pub fn poll_first(&mut self, id: QueryId) -> (first: bool)
        requires
            old(self).running().len() < usize::MAX,
        ensures
            first == !old(self).running().contains(id@),
            final(self).running() == old(self).running().insert(id@),
            final(self).params() == old(self).params(),
            final(self).cache() == old(self).cache(),
            final(self).past_queries() == old(self).past_queries(),
            final(self).log() == old(self).log(),
    {
        let first = self.current.get(&id).is_none();
        if first {
            self.current = self.current.insert(id, ());
            proof {
                assert(self.running() =~= old(self).running().insert(id@));
            }
        } else {
            proof {
                assert(self.running() =~= old(self).running().insert(id@));
            }
        }
        first
    }

    /// Whether the body of the query `id` is running.
    pub fn is_running(&self, id: &QueryId) -> (b: bool)
        ensures
            b == self.running().contains(id@),
    {
        self.current.get(id).is_some()
    }

    /// The entry of the query `id`, once its processing has ended.
    pub fn poll_again(&self, id: &QueryId) -> (res: Option<&Cached<O>>)
        ensures
            match res {
                Some(entry) => !self.running().contains(id@) && self.cache().contains_pair(
                    id@,
                    *entry,
                ),
                None => self.running().contains(id@) || !self.cache().contains_key(id@),
            },
    {
        if self.current.get(id).is_some() {
            None
        } else {
            self.cache.get(id)
        }
    }

    /// The entry of the query `id`, whether or not its processing has ended:
    /// what is handed up to the run that asked for the query.
    pub fn entry(&self, id: &QueryId) -> (res: Option<&Cached<O>>)
        ensures
            match res {
                Some(entry) => self.cache().contains_pair(id@, *entry),
                None => !self.cache().contains_key(id@),
            },
    {
        self.cache.get(id)
    }

    /// Removes the entry of a query whose body is to be run.
    pub fn begin_body(&mut self, id: &QueryId)
        ensures
            final(self).cache() == old(self).cache().remove(id@),
            final(self).params() == old(self).params(),
            final(self).running() == old(self).running(),
            final(self).past_queries() == old(self).past_queries(),
            final(self).log() == old(self).log(),
    {
        self.cache = self.cache.remove(id);
    }

    /// Stores the entry that a run of the body of `id` has made, and logs the
    /// run.
    pub fn finish_body(&mut self, id: QueryId, entry: Cached<O>)
        requires
            old(self).cache().len() < usize::MAX,
        ensures
            final(self).cache() == old(self).cache().insert(id@, entry),
            final(self).log() == old(self).log().push(bracketed(id@)),
            final(self).params() == old(self).params(),
            final(self).running() == old(self).running(),
            final(self).past_queries() == old(self).past_queries(),
    {
        self.trace.push(id.to_string());
        self.cache = self.cache.insert(id, entry);
        proof {
            assert(self.log() =~= old(self).log().push(bracketed(id@)));
        }
    }

    /// Keeps `query` for later checks, unless a query of that name is kept
    /// already.
    pub fn register(&mut self, id: QueryId, query: Q)
        requires
            old(self).past_queries().len() < usize::MAX,
        ensures
            final(self).past_queries() == if old(self).past_queries().contains_key(id@) {
                old(self).past_queries()
            } else {
                old(self).past_queries().insert(id@, query)
            },
            final(self).params() == old(self).params(),
            final(self).cache() == old(self).cache(),
            final(self).running() == old(self).running(),
            final(self).log() == old(self).log(),
    {
        if self.past_queries.get(&id).is_none() {
            self.past_queries = self.past_queries.insert(id, query);
        }
    }

    /// The query that was kept under the name `id`.
    pub fn past_query(&self, id: &QueryId) -> (res: Option<&Q>)
        ensures
            match res {
                Some(query) => self.past_queries().contains_pair(id@, *query),
                None => !self.past_queries().contains_key(id@),
            },
    {
        self.past_queries.get(id)
    }

    /// Ends the processing of `id`: its waiters are to be woken.
    pub fn wake(&mut self, id: &QueryId)
        requires
            old(self).running().contains(id@),
        ensures
            final(self).running() == old(self).running().remove(id@),
            final(self).params() == old(self).params(),
            final(self).cache() == old(self).cache(),
            final(self).past_queries() == old(self).past_queries(),
            final(self).log() == old(self).log(),
    {
        self.current = self.current.remove(id);
        proof {
            assert(self.running() =~= old(self).running().remove(id@));
        }
    }

    /// Whether what `execute` is about to return for `id` was made from the
    /// parameters as they are now.
    pub fn settled(&self, id: &QueryId) -> (res: Result<bool, ExecutionError>)
        ensures
            match res {
                Ok(b) => self.cache().contains_key(id@) && b == verified(
                    self.cache()[id@].world_state@,
                    self.params(),
                ),
                Err(e) => !self.cache().contains_key(id@) && e is CacheCorrupted,
            },
    {
        match self.cache.get(id) {
            None => Err(ExecutionError::CacheCorrupted),
            Some(cached) => Ok(self.verify(&cached.world_state)),
        }
    }

    /// The names of the queries whose bodies ran, each in brackets, in the
    /// order of their completion.
    pub fn trace(&self) -> (res: Vec<String>)
        ensures
            res@.len() == self.log().len(),
            forall|i: int| 0 <= i < res@.len() ==> (#[trigger] res@[i])@ == self.log()[i],
    {
        let mut res: Vec<String> = Vec::new();
        let mut i: usize = 0;
        while i < self.trace.len()
            invariant
                i <= self.trace.len(),
                res@.len() == i,
                forall|j: int| 0 <= j < i ==> (#[trigger] res@[j])@ == self.trace@[j]@,
            decreases self.trace.len() - i,
        {
            res.push(self.trace[i].clone());
            i += 1;
        }
        res
    }
}

/// Puts together the entry for a run of a body from its stamped result and
/// from what the run reported: the parameters it saw, the queries it ran and
/// the parameters it read itself. There is no entry where two reports hold
/// different fingerprints for one id: the run was overtaken by a change and
/// is to be repeated.
pub fn assemble<O>(
    result: Result<(Fingerprint, O), ExecutionError>,
    world: &Vec<CacheMap>,
    deps: &Vec<CacheMap>,
    direct_world: &Vec<CacheMap>,
) -> (res: Option<Cached<O>>)
    requires
        total_len(views(world@, world@.len() as int), world@.len() as int) <= usize::MAX,
        total_len(views(deps@, deps@.len() as int), deps@.len() as int) <= usize::MAX,
        total_len(views(direct_world@, direct_world@.len() as int), direct_world@.len() as int)
            <= usize::MAX,
    ensures
        match res {
            Some(entry) => {
                &&& *entry.result == result
                &&& folded(views(world@, world@.len() as int), world@.len() as int) == Some(
                    entry.world_state@,
                )
                &&& folded(views(deps@, deps@.len() as int), deps@.len() as int) == Some(
                    entry.deps_state@,
                )
                &&& folded(
                    views(direct_world@, direct_world@.len() as int),
                    direct_world@.len() as int,
                ) == Some(entry.direct_world_state@)
            },
            None => {
                ||| folded(views(world@, world@.len() as int), world@.len() as int) is None
                ||| folded(views(deps@, deps@.len() as int), deps@.len() as int) is None
                ||| folded(
                    views(direct_world@, direct_world@.len() as int),
                    direct_world@.len() as int,
                ) is None
            },
        },
{
    let world_state = match fold_states(world) {
        Some(sum) => sum,
        None => {
            return None;
        },
    };
    let deps_state = match fold_states(deps) {
        Some(sum) => sum,
        None => {
            return None;
        },
    };
    let direct_world_state = match fold_states(direct_world) {
        Some(sum) => sum,
        None => {
            return None;
        },
    };
    Some(Cached { result: Arc::new(result), world_state, deps_state, direct_world_state })
}

/// Whether each query that was run again came out with the fingerprint that
/// was expected of it.
pub open spec fn passed(checked: Seq<(QueryId, Fingerprint, Option<Fingerprint>)>) -> bool {
    forall|i: int| 0 <= i < checked.len() ==> (#[trigger] checked[i]).2 == Some(checked[i].1)
}

/// The parameters that the entries of the checked queries saw.
pub open spec fn dep_worlds<O>(
    cache: Map<Seq<char>, Cached<O>>,
    checked: Seq<(QueryId, Fingerprint, Option<Fingerprint>)>,
) -> Seq<Deps> {
    Seq::new(checked.len(), |i: int| cache[checked[i].0@].world_state@)
}

/// The parameters that the bodies of the checked queries read themselves.
pub open spec fn dep_direct_worlds<O>(
    cache: Map<Seq<char>, Cached<O>>,
    checked: Seq<(QueryId, Fingerprint, Option<Fingerprint>)>,
) -> Seq<Deps> {
    Seq::new(checked.len(), |i: int| cache[checked[i].0@].direct_world_state@)
}

/// Whether `targets` holds each query of `deps` once, with its fingerprint.
pub open spec fn targets_of(targets: Seq<(QueryId, Fingerprint)>, deps: Deps) -> bool {
    &&& targets.len() == deps.len()
    &&& forall|i: int|
        0 <= i < targets.len() ==> deps.contains_pair((#[trigger] targets[i]).0@, targets[i].1)
    &&& forall|k: Seq<char>|
        deps.contains_key(k) ==> exists|i: int|
            0 <= i < targets.len() && (#[trigger] targets[i]).0@ == k
}

impl<O, Q> Reactor<O, Q> {
    /// The queries that are to be run again to check an entry whose queries
    /// are `deps_state`, each with the fingerprint it had. There are none to
    /// run, and the entry cannot be kept, where it ran no query or where one
    /// of them is not known any more.
    pub fn recheck_targets(&self, deps_state: &CacheMap) -> (res: Option<
        Vec<(QueryId, Fingerprint)>,
    >)
        ensures
            match res {
                Some(targets) => {
                    &&& deps_state@.len() > 0
                    &&& forall|k: Seq<char>|
                        deps_state@.contains_key(k) ==> self.past_queries().contains_key(k)
                    &&& targets_of(targets@, deps_state@)
                },
                None => deps_state@.len() == 0 || exists|k: Seq<char>|
                    deps_state@.contains_key(k) && !self.past_queries().contains_key(k),
            },
    {
        if deps_state.is_empty() {
            assert(deps_state@.len() == 0);
            return None;
        }
        let mut it = deps_state.iter();
        let ghost all = it.remaining();
        let mut targets: Vec<(QueryId, Fingerprint)> = Vec::new();
        proof {
            assert(all.skip(0) =~= all);
            if deps_state@.len() == 0 {
                assert(deps_state@.dom() =~= Set::empty());
                assert(deps_state@ =~= Map::empty());
            }
        }
        loop
            invariant_except_break
                it.remaining() == all.skip(targets@.len() as int),
            invariant
                it.wf(),
                targets@.len() <= all.len(),
                lists(all, deps_state@),
                deps_state@.len() > 0,
                forall|i: int|
                    0 <= i < targets@.len() ==> (#[trigger] targets@[i]).0@ == all[i].0@
                        && targets@[i].1 == all[i].1 && self.past_queries().contains_key(
                        all[i].0@,
                    ),
            ensures
                targets@.len() == all.len(),
            decreases all.len() - targets@.len(),
        {
            let ghost done = targets@.len() as int;
            match it.next() {
                None => {
                    break ;
                },
                Some(st) => {
                    proof {
                        assert(all.skip(done)[0] == all[done]);
                        assert(all.skip(done).skip(1) =~= all.skip(done + 1));
                        assert(deps_state@.contains_pair(all[done].0@, all[done].1));
                    }
                    if self.past_queries.get(&st.0).is_none() {
                        return None;
                    }
                    targets.push((st.0.clone(), st.1));
                },
            }
        }
        proof {
            assert forall|k: Seq<char>| deps_state@.contains_key(k) implies (exists|i: int|
                0 <= i < targets@.len() && (#[trigger] targets@[i]).0@ == k)
                && self.past_queries().contains_key(k) by {
                let i = choose|i: int| 0 <= i < all.len() && (#[trigger] all[i]).0@ == k;
                assert(targets@[i].0@ == k);
            }
            assert forall|i: int| 0 <= i < targets@.len() implies deps_state@.contains_pair(
                (#[trigger] targets@[i]).0@,
                targets@[i].1,
            ) by {
                assert(deps_state@.contains_pair(all[i].0@, all[i].1));
            }
            assert(targets_of(targets@, deps_state@));
        }
        Some(targets)
    }

    /// Whether the check of an entry can be ended with `checked`: each of its
    /// queries has an entry, and their entries together hold no more
    /// parameters than a machine word counts.
    pub fn can_finish_recheck(
        &self,
        checked: &Vec<(QueryId, Fingerprint, Option<Fingerprint>)>,
    ) -> (b: bool)
        ensures
            b == ({
                &&& forall|i: int|
                    0 <= i < checked@.len() ==> self.cache().contains_key(
                        (#[trigger] checked@[i]).0@,
                    )
                &&& total_len(dep_worlds(self.cache(), checked@), checked@.len() as int)
                    <= usize::MAX
                &&& total_len(dep_direct_worlds(self.cache(), checked@), checked@.len() as int)
                    <= usize::MAX
                &&& self.cache().len() < usize::MAX
            }),
    {
        let mut worlds: Vec<CacheMap> = Vec::new();
        let mut direct_worlds: Vec<CacheMap> = Vec::new();
        let ghost all_worlds = dep_worlds(self.cache(), checked@);
        let ghost all_direct = dep_direct_worlds(self.cache(), checked@);
        let mut j: usize = 0;
        while j < checked.len()
            invariant
                j <= checked.len(),
                worlds@.len() == j,
                direct_worlds@.len() == j,
                all_worlds == dep_worlds(self.cache(), checked@),
                all_direct == dep_direct_worlds(self.cache(), checked@),
                forall|i: int| 0 <= i < j ==> self.cache().contains_key((#[trigger] checked@[i]).0@),
                forall|i: int| 0 <= i < j ==> (#[trigger] worlds@[i])@ == all_worlds[i],
                forall|i: int|
                    0 <= i < j ==> (#[trigger] direct_worlds@[i])@ == all_direct[i],
            decreases checked.len() - j,
        {
            match self.cache.get(&checked[j].0) {
                Some(entry) => {
                    worlds.push(entry.world_state.clone());
                    direct_worlds.push(entry.direct_world_state.clone());
                },
                None => {
                    return false;
                },
            }
            j += 1;
        }
        proof {
            assert(views(worlds@, worlds@.len() as int) =~= all_worlds);
            assert(views(direct_worlds@, direct_worlds@.len() as int) =~= all_direct);
        }
        fits(&worlds) && fits(&direct_worlds) && self.cache.len() < usize::MAX
    }

    /// Ends the check of the entry of `id`, given each query that its body
    /// ran with the fingerprint that it had and the one that it has now
    /// (none where it failed). The entry is kept where every query came out
    /// as it was and their entries agree on every parameter; it then holds
    /// the parameters that those entries saw, and its result and its queries
    /// as before.
    pub fn finish_recheck(
        &mut self,
        id: &QueryId,
        checked: &Vec<(QueryId, Fingerprint, Option<Fingerprint>)>,
    ) -> (kept: bool)
        requires
            forall|i: int|
                0 <= i < checked@.len() ==> old(self).cache().contains_key(
                    (#[trigger] checked@[i]).0@,
                ),
            total_len(dep_worlds(old(self).cache(), checked@), checked@.len() as int)
                <= usize::MAX,
            total_len(dep_direct_worlds(old(self).cache(), checked@), checked@.len() as int)
                <= usize::MAX,
            old(self).cache().len() < usize::MAX,
        ensures
            kept == ({
                &&& passed(checked@)
                &&& folded(dep_worlds(old(self).cache(), checked@), checked@.len() as int) is Some
                &&& folded(
                    dep_direct_worlds(old(self).cache(), checked@),
                    checked@.len() as int,
                ) is Some
            }),
            kept && old(self).cache().contains_key(id@) ==> {
                &&& final(self).cache().contains_key(id@)
                &&& final(self).cache() == old(self).cache().insert(id@, final(self).cache()[id@])
                &&& final(self).cache()[id@].result == old(self).cache()[id@].result
                &&& final(self).cache()[id@].deps_state@ == old(self).cache()[id@].deps_state@
                &&& Some(final(self).cache()[id@].world_state@) == folded(
                    dep_worlds(old(self).cache(), checked@),
                    checked@.len() as int,
                )
                &&& Some(final(self).cache()[id@].direct_world_state@) == folded(
                    dep_direct_worlds(old(self).cache(), checked@),
                    checked@.len() as int,
                )
            },
            !(kept && old(self).cache().contains_key(id@)) ==> final(self).cache() == old(
                self,
            ).cache(),
            final(self).params() == old(self).params(),
            final(self).running() == old(self).running(),
            final(self).past_queries() == old(self).past_queries(),
            final(self).log() == old(self).log(),
    {
        let mut i: usize = 0;
        while i < checked.len()
            invariant
                i <= checked.len(),
                forall|j: int| 0 <= j < i ==> (#[trigger] checked@[j]).2 == Some(checked@[j].1),
            decreases checked.len() - i,
        {
            let same = match checked[i].2 {
                Some(actual) => actual.view_eq(&checked[i].1),
                None => false,
            };
            if !same {
                return false;
            }
            i += 1;
        }
        let mut worlds: Vec<CacheMap> = Vec::new();
        let mut direct_worlds: Vec<CacheMap> = Vec::new();
        let ghost all_worlds = dep_worlds(self.cache(), checked@);
        let ghost all_direct = dep_direct_worlds(self.cache(), checked@);
        let mut j: usize = 0;
        while j < checked.len()
            invariant
                j <= checked.len(),
                worlds@.len() == j,
                direct_worlds@.len() == j,
                all_worlds == dep_worlds(self.cache(), checked@),
                all_direct == dep_direct_worlds(self.cache(), checked@),
                forall|i: int|
                    0 <= i < checked@.len() ==> self.cache().contains_key(
                        (#[trigger] checked@[i]).0@,
                    ),
                forall|i: int| 0 <= i < j ==> (#[trigger] worlds@[i])@ == all_worlds[i],
                forall|i: int|
                    0 <= i < j ==> (#[trigger] direct_worlds@[i])@ == all_direct[i],
            decreases checked.len() - j,
        {
            match self.cache.get(&checked[j].0) {
                Some(entry) => {
                    worlds.push(entry.world_state.clone());
                    direct_worlds.push(entry.direct_world_state.clone());
                },
                None => {
                    return false;
                },
            }
            j += 1;
        }
        proof {
            assert(views(worlds@, worlds@.len() as int) =~= all_worlds);
            assert(views(direct_worlds@, direct_worlds@.len() as int) =~= all_direct);
        }
        let world_state = match fold_states(&worlds) {
            Some(sum) => sum,
            None => {
                return false;
            },
        };
        let direct_world_state = match fold_states(&direct_worlds) {
            Some(sum) => sum,
            None => {
                return false;
            },
        };
        match self.cache.get(id) {
            Some(entry) => {
                let fresh = Cached {
                    result: share(&entry.result),
                    world_state,
                    deps_state: entry.deps_state.clone(),
                    direct_world_state,
                };
                self.cache = self.cache.insert(id.clone(), fresh);
            },
            None => {},
        }
        true
    }
}

/// The names of ids.
pub open spec fn names(ids: Seq<QueryId>) -> Seq<Seq<char>> {
    Seq::new(ids.len(), |i: int| ids[i]@)
}

/// The names of `chain` up to the first `key`, `key` included.
pub open spec fn until(chain: Seq<Seq<char>>, key: Seq<char>) -> Seq<Seq<char>>
    decreases chain.len(),
{
    if chain.len() == 0 {
        Seq::empty()
    } else if chain[0] == key {
        seq![chain[0]]
    } else {
        seq![chain[0]] + until(chain.skip(1), key)
    }
}

/// What a body is run in: the query it belongs to, and the run from which
/// that query was asked for.
pub struct ExecutionView {
    current: QueryId,
    parent: Option<Arc<ExecutionView>>,
    dependents: PerSet<QueryId>,
}

impl ExecutionView {
    #[verifier::type_invariant]
    spec fn inv(self) -> bool {
        forall|k: Seq<char>| self.dependents@.contains(k) <==> self.chain().contains(k)
    }

    /// The names of the queries from this one up to the one that was
    /// executed first.
    pub closed spec fn chain(&self) -> Seq<Seq<char>>
        decreases self,
    {
        match self.parent {
            Some(parent) => seq![self.current@] + parent.chain(),
            None => seq![self.current@],
        }
    }

    /// The names of the queries on the chain.
    pub closed spec fn ancestors(&self) -> Set<Seq<char>> {
        self.dependents@
    }

    /// The view of a query that is executed from outside any body.
    pub fn root(id: QueryId) -> (res: Self)
        ensures
            res.chain() == seq![id@],
    {
        let dependents = PerSet::<QueryId>::empty().insert(id.clone());
        proof {
            let chain = seq![id@];
            assert forall|k: Seq<char>| dependents@.contains(k) <==> chain.contains(k) by {
                if k == id@ {
                    assert(chain[0] == k);
                }
            }
        }
        ExecutionView { current: id, parent: None, dependents }
    }

    /// Whether a body that runs in this view can run a query in turn.
    pub fn has_room(&self) -> (b: bool)
        ensures
            b == (self.ancestors().len() < usize::MAX),
    {
        self.dependents.len() < usize::MAX
    }

    /// The view of a query that the body of `parent` runs.
    pub fn child(parent: Arc<ExecutionView>, id: QueryId) -> (res: Self)
        requires
            parent.ancestors().len() < usize::MAX,
        ensures
            res.chain() == seq![id@] + parent.chain(),
    {
        proof {
            use_type_invariant(&*parent);
        }
        let dependents = parent.dependents.insert(id.clone());
        proof {
            let chain = seq![id@] + parent.chain();
            assert forall|k: Seq<char>| dependents@.contains(k) <==> chain.contains(k) by {
                if k == id@ {
                    assert(chain[0] == k);
                }
                if parent.chain().contains(k) {
                    let i = choose|i: int| 0 <= i < parent.chain().len() && parent.chain()[i] == k;
                    assert(chain[i + 1] == k);
                }
                if chain.contains(k) && k != id@ {
                    let i = choose|i: int| 0 <= i < chain.len() && chain[i] == k;
                    assert(parent.chain()[i - 1] == k);
                }
            }
        }
        ExecutionView { current: id, parent: Some(parent), dependents }
    }

    /// The query that the body belongs to.
    pub fn current(&self) -> (res: &QueryId)
        ensures
            res@ == self.chain()[0],
            self.chain().len() > 0,
    {
        &self.current
    }

    /// The queries from this one up to the one that was executed first.
    pub fn trace(&self) -> (res: Vec<QueryId>)
        ensures
            names(res@) == self.chain(),
    {
        let mut res: Vec<QueryId> = Vec::new();
        let mut view: &ExecutionView = self;
        proof {
            assert(names(res@) + view.chain() =~= self.chain());
        }
        loop
            invariant_except_break
                names(res@) + view.chain() == self.chain(),
            ensures
                names(res@) == self.chain(),
            decreases view.chain().len(),
        {
            let ghost before = names(res@);
            res.push(view.current.clone());
            proof {
                assert(names(res@) =~= before.push(view.current@));
            }
            match &view.parent {
                Some(parent) => {
                    proof {
                        assert(names(res@) + parent.chain() =~= before + view.chain());
                    }
                    view = &**parent;
                },
                None => {
                    proof {
                        assert(names(res@) =~= before + view.chain());
                    }
                    break ;
                },
            }
        }
        res
    }

    /// The queries from this one up to the first that is called `id`, that
    /// one included.
    pub fn trace_until(&self, id: &QueryId) -> (res: Vec<QueryId>)
        ensures
            names(res@) == until(self.chain(), id@),
    {
        let mut res: Vec<QueryId> = Vec::new();
        let mut view: &ExecutionView = self;
        proof {
            assert(names(res@) + until(view.chain(), id@) =~= until(self.chain(), id@));
        }
        loop
            invariant_except_break
                names(res@) + until(view.chain(), id@) == until(self.chain(), id@),
            ensures
                names(res@) == until(self.chain(), id@),
            decreases view.chain().len(),
        {
            let ghost before = names(res@);
            res.push(view.current.clone());
            proof {
                assert(names(res@) =~= before.push(view.current@));
                assert(view.chain()[0] == view.current@);
            }
            if view.current.view_eq(id) {
                proof {
                    assert(names(res@) =~= before + until(view.chain(), id@));
                }
                break ;
            }
            match &view.parent {
                Some(parent) => {
                    proof {
                        assert(view.chain().skip(1) =~= parent.chain());
                        assert(names(res@) + until(parent.chain(), id@) =~= before + until(
                            view.chain(),
                            id@,
                        ));
                    }
                    view = &**parent;
                },
                None => {
                    proof {
                        assert(view.chain().skip(1) =~= Seq::<Seq<char>>::empty());
                        assert(until(view.chain().skip(1), id@) =~= Seq::<Seq<char>>::empty());
                        assert(until(view.chain(), id@) =~= seq![view.current@]);
                        assert(names(res@) =~= before + until(view.chain(), id@));
                    }
                    break ;
                },
            }
        }
        res
    }

    /// Whether the body may run the query `id`: it may not where the query
    /// is on the chain, for it would then wait for itself.
    pub fn check_run(&self, id: &QueryId) -> (res: Result<(), ExecutionError>)
        ensures
            match res {
                Ok(_) => !self.chain().contains(id@),
                Err(ExecutionError::CyclicDependency { id: asked, trace }) => {
                    &&& self.chain().contains(id@)
                    &&& asked@ == id@
                    &&& names(trace@) == until(self.chain(), id@)
                },
                Err(_) => false,
            },
    {
        proof {
            use_type_invariant(self);
        }
        if self.dependents.contains(id) {
            Err(ExecutionError::CyclicDependency { id: id.clone(), trace: self.trace_until(id) })
        } else {
            Ok(())
        }
    }
}

/// One execution from outside any body, with the queries that it has found
/// fresh so far: they are not checked a second time.
pub struct Continuity {
    fresh_queries: PerSet<QueryId>,
}

impl Continuity {
    /// The names of the queries that were found fresh.
    pub closed spec fn fresh(&self) -> Set<Seq<char>> {
        self.fresh_queries@
    }

    pub fn new() -> (res: Self)
        ensures
            res.fresh() == Set::<Seq<char>>::empty(),
    {
        Continuity { fresh_queries: PerSet::empty() }
    }

    /// The stamped result of a query that was found fresh before. There is
    /// none for a query that was not: the coordinator is to process it.
    pub fn lookup<'a, O, Q>(&self, id: &QueryId, reactor: &'a Reactor<O, Q>) -> (res: Result<
        Option<(Fingerprint, &'a O)>,
        ExecutionError,
    >)
        ensures
            match res {
                Ok(None) => !self.fresh().contains(id@),
                Ok(Some((fingerprint, value))) => {
                    &&& self.fresh().contains(id@)
                    &&& reactor.cache().contains_key(id@)
                    &&& *reactor.cache()[id@].result == Ok::<(Fingerprint, O), ExecutionError>(
                        (fingerprint, *value),
                    )
                },
                Err(e) => {
                    &&& self.fresh().contains(id@)
                    &&& if reactor.cache().contains_key(id@) {
                        &&& reactor.cache()[id@].failed()
                        &&& e matches ExecutionError::Overridden { id: named }
                        &&& named@ == id@
                    } else {
                        e is CacheCorrupted
                    }
                },
            },
    {
        if self.fresh_queries.contains(id) {
            match reactor.cache.get(id) {
                None => Err(ExecutionError::CacheCorrupted),
                Some(entry) => match &*entry.result {
                    Ok(stamped) => Ok(Some((stamped.0, &stamped.1))),
                    Err(_) => Err(ExecutionError::Overridden { id: id.clone() }),
                },
            }
        } else {
            Ok(None)
        }
    }

    /// Whether one more query can be noted.
    pub fn has_room(&self) -> (b: bool)
        ensures
            b == (self.fresh().len() < usize::MAX),
    {
        self.fresh_queries.len() < usize::MAX
    }

    /// Notes that the query `id` was found fresh.
    pub fn mark_fresh(&mut self, id: QueryId)
        requires
            old(self).fresh().len() < usize::MAX,
        ensures
            final(self).fresh() == old(self).fresh().insert(id@),
    {
        self.fresh_queries = self.fresh_queries.insert(id);
    }
}

} // verus!
