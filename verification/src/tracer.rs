use crate::cache::{Cache, CacheMap, CacheStore, Cached};
use crate::execution::{names, Deps, ExecutionView};
use crate::query_id::{bracketed, QueryId};
use crate::structure::lists;
use crate::trace::Trace;
use crate::tracer_types::{CacheEntry, Message};
use vstd::prelude::*;

verus! {

/// A value that can be shown in a trace.
pub trait Described {
    /// The text that a trace shows for the value.
    fn description(&self) -> String;
}

/// Whether `entry` shows the id `k` of `state` with its fingerprint.
pub open spec fn shown_for(entry: (String, String), state: Deps, k: Seq<char>) -> bool {
    state.contains_key(k) && entry.0@ == bracketed(k) && entry.1@ == state[k].spec_text()
}

/// Whether `entry` shows an id of `state` with its fingerprint.
pub open spec fn shows_one(entry: (String, String), state: Deps) -> bool {
    exists|k: Seq<char>| #[trigger] shown_for(entry, state, k)
}

/// Whether `shown` holds the id `k` of `state` with its fingerprint.
pub open spec fn shows_key(shown: Seq<(String, String)>, state: Deps, k: Seq<char>) -> bool {
    exists|i: int| 0 <= i < shown.len() && #[trigger] shown_for(shown[i], state, k)
}

/// Whether `shown` holds each id of `state` once, with its fingerprint, both
/// as they are shown.
pub open spec fn shows(shown: Seq<(String, String)>, state: Deps) -> bool {
    &&& shown.len() == state.len()
    &&& forall|i: int| 0 <= i < shown.len() ==> shows_one(#[trigger] shown[i], state)
    &&& forall|k: Seq<char>| #[trigger] state.contains_key(k) ==> shows_key(shown, state, k)
}

/// The ids of a state with their fingerprints, as they are shown.
pub fn translate_deps(map: &CacheMap) -> (res: Vec<(String, String)>)
    ensures
        shows(res@, map@),
{
    let mut it = map.iter();
    let ghost all = it.remaining();
    let mut res: Vec<(String, String)> = Vec::new();
    proof {
        assert(all.skip(0) =~= all);
    }
    loop
        invariant_except_break
            it.remaining() == all.skip(res@.len() as int),
        invariant
            it.wf(),
            res@.len() <= all.len(),
            lists(all, map@),
            forall|i: int|
                0 <= i < res@.len() ==> (#[trigger] res@[i]).0@ == bracketed(all[i].0@)
                    && res@[i].1@ == all[i].1.spec_text(),
        ensures
            res@.len() == all.len(),
        decreases all.len() - res@.len(),
    {
        let ghost done = res@.len() as int;
        match it.next() {
            None => {
                break ;
            },
            Some(entry) => {
                proof {
                    assert(all.skip(done)[0] == all[done]);
                    assert(all.skip(done).skip(1) =~= all.skip(done + 1));
                }
                res.push((entry.0.to_string(), entry.1.to_string()));
            },
        }
    }
    proof {
        assert forall|i: int| 0 <= i < res@.len() implies shows_one(#[trigger] res@[i], map@) by {
            assert(map@.contains_pair(all[i].0@, all[i].1));
            assert(shown_for(res@[i], map@, all[i].0@));
        }
        assert forall|k: Seq<char>| #[trigger] map@.contains_key(k) implies shows_key(
            res@,
            map@,
            k,
        ) by {
            let i = choose|i: int| 0 <= i < all.len() && (#[trigger] all[i]).0@ == k;
            assert(map@.contains_pair(all[i].0@, all[i].1));
            assert(shown_for(res@[i], map@, k));
        }
    }
    res
}

/// Whether `shown` shows the fingerprint and the states of `cached`.
pub open spec fn shows_entry<O>(shown: CacheEntry, cached: Cached<O>) -> bool {
    &&& (*cached.result) matches Ok(stamped) && shown.fingerprint@ == stamped.0.spec_text()
    &&& shows(shown.world_state@, cached.world_state@)
    &&& shows(shown.deps_state@, cached.deps_state@)
    &&& shows(shown.direct_world_state@, cached.direct_world_state@)
}

/// A cached entry as a trace shows it: the description of its value, and its
/// fingerprint and states as they are shown. An entry that holds a failure
/// is not shown.
pub fn translate<O: Described>(cached: &Cached<O>) -> (res: CacheEntry)
    requires
        !cached.failed(),
    ensures
        shows_entry(res, *cached),
{
    match &*cached.result {
        Ok(stamped) => CacheEntry {
            value: stamped.1.description(),
            fingerprint: stamped.0.to_string(),
            world_state: translate_deps(&cached.world_state),
            deps_state: translate_deps(&cached.deps_state),
            direct_world_state: translate_deps(&cached.direct_world_state),
        },
        Err(_) => CacheEntry {
            value: String::new(),
            fingerprint: String::new(),
            world_state: Vec::new(),
            deps_state: Vec::new(),
            direct_world_state: Vec::new(),
        },
    }
}

/// The texts of `shown`.
pub open spec fn texts(shown: Seq<String>) -> Seq<Seq<char>> {
    Seq::new(shown.len(), |i: int| shown[i]@)
}

/// The names in brackets.
pub open spec fn all_bracketed(chain: Seq<Seq<char>>) -> Seq<Seq<char>> {
    Seq::new(chain.len(), |i: int| bracketed(chain[i]))
}

/// The texts of the callers of a body, or nothing outside any body.
pub open spec fn callers(context: Option<&ExecutionView>) -> Seq<Seq<char>> {
    match context {
        Some(view) => all_bracketed(view.chain()),
        None => Seq::empty(),
    }
}

/// The queries from the one that is run up to the one that was executed
/// first, as they are shown; nothing outside any body.
pub fn stack(context: Option<&ExecutionView>) -> (res: Vec<String>)
    ensures
        texts(res@) == callers(context),
{
    let mut res: Vec<String> = Vec::new();
    match context {
        None => {
            proof {
                assert(texts(res@) =~= Seq::<Seq<char>>::empty());
            }
        },
        Some(view) => {
            let ids = view.trace();
            let mut i: usize = 0;
            while i < ids.len()
                invariant
                    i <= ids.len(),
                    res@.len() == i,
                    names(ids@) == view.chain(),
                    forall|j: int| 0 <= j < i ==> (#[trigger] res@[j])@ == bracketed(ids@[j]@),
                decreases ids.len() - i,
            {
                res.push(ids[i].to_string());
                i += 1;
            }
            proof {
                assert forall|j: int| 0 <= j < ids@.len() implies view.chain()[j] == ids@[j]@ by {
                    assert(names(ids@)[j] == ids@[j]@);
                }
                assert(texts(res@) =~= all_bracketed(view.chain()));
            }
        },
    }
    res
}

/// Whether `after` is `before` with one more event.
pub open spec fn one_more(before: Seq<Message>, after: Seq<Message>) -> bool {
    after.len() == before.len() + 1 && after.drop_last() == before
}

/// Whether `event` tells of `entry` under `key`, seen from `stack`.
pub open spec fn tells_entry<O>(
    key: String,
    entry: CacheEntry,
    stack: Vec<String>,
    id: QueryId,
    cached: Cached<O>,
    callers: Seq<Seq<char>>,
) -> bool {
    key@ == bracketed(id@) && shows_entry(entry, cached) && texts(stack@) == callers
}

/// The trace that keeps every event.
pub struct Tracer {
    messages: Vec<Message>,
}

impl Tracer {
    /// The events kept so far, in their order.
    pub closed spec fn events(&self) -> Seq<Message> {
        self.messages@
    }

    pub fn new() -> (res: Self)
        ensures
            res.events() == Seq::<Message>::empty(),
    {
        Tracer { messages: Vec::new() }
    }

    /// Hands out the events kept so far and keeps none of them.
    pub fn drain(&mut self) -> (res: Vec<Message>)
        ensures
            res@ == old(self).events(),
            final(self).events() == Seq::<Message>::empty(),
    {
        let mut res: Vec<Message> = Vec::new();
        std::mem::swap(&mut res, &mut self.messages);
        res
    }
}

impl<O: Described> Trace<O> for Tracer {
    /// Keeps the event, unless the entry holds a failure.
    fn cache_push(&mut self, key: &QueryId, entry: &Cached<O>, context: Option<&ExecutionView>)
        ensures
            entry.failed() ==> final(self).events() == old(self).events(),
            !entry.failed() ==> one_more(old(self).events(), final(self).events()) && (final(self).events().last() matches Message::Push { key: k, entry: e, stack: s } && tells_entry(
                k,
                e,
                s,
                *key,
                *entry,
                callers(context),
            )),
    {
        if entry.result.is_ok() {
            let message = Message::Push {
                stack: stack(context),
                key: key.to_string(),
                entry: translate(entry),
            };
            self.messages.push(message);
            proof {
                assert(self.events().drop_last() =~= old(self).events());
            }
        }
    }

    fn cache_pull(&mut self, key: &QueryId, reason: &'static str, context: Option<&ExecutionView>)
        ensures
            one_more(old(self).events(), final(self).events()),
            final(self).events().last() matches Message::Pull { key: k, reason: r, stack: s }
                && k@ == bracketed(key@) && r@ == reason@ && texts(s@) == callers(context),
    {
        let message = Message::Pull {
            key: key.to_string(),
            reason: reason.to_owned(),
            stack: stack(context),
        };
        self.messages.push(message);
        proof {
            assert(self.events().drop_last() =~= old(self).events());
        }
    }

    fn cache_remove(&mut self, key: &QueryId, context: Option<&ExecutionView>)
        ensures
            one_more(old(self).events(), final(self).events()),
            final(self).events().last() matches Message::Remove { key: k, stack: s } && k@
                == bracketed(key@) && texts(s@) == callers(context),
    {
        let message = Message::Remove { key: key.to_string(), stack: stack(context) };
        self.messages.push(message);
        proof {
            assert(self.events().drop_last() =~= old(self).events());
        }
    }

    /// Keeps the event, unless the entry holds a failure.
    fn cache_modify(&mut self, key: &QueryId, entry: &Cached<O>, context: Option<&ExecutionView>)
        ensures
            entry.failed() ==> final(self).events() == old(self).events(),
            !entry.failed() ==> one_more(old(self).events(), final(self).events()) && (final(self).events().last() matches Message::Modify { key: k, entry: e, stack: s }
                && tells_entry(k, e, s, *key, *entry, callers(context))),
    {
        if entry.result.is_ok() {
            let message = Message::Modify {
                key: key.to_string(),
                entry: translate(entry),
                stack: stack(context),
            };
            self.messages.push(message);
            proof {
                assert(self.events().drop_last() =~= old(self).events());
            }
        }
    }

    fn body_run(&mut self, key: &QueryId, context: Option<&ExecutionView>)
        ensures
            one_more(old(self).events(), final(self).events()),
            final(self).events().last() matches Message::BodyExecuted { key: k, stack: s } && k@
                == bracketed(key@) && texts(s@) == callers(context),
    {
        let message = Message::BodyExecuted { key: key.to_string(), stack: stack(context) };
        self.messages.push(message);
        proof {
            assert(self.events().drop_last() =~= old(self).events());
        }
    }
}

/// A store of entries that keeps an event for each operation on it.
pub struct TracingCache<O> {
    messages: Vec<Message>,
    map: CacheStore<O>,
}

impl<O> TracingCache<O> {
    /// The events kept so far, in their order.
    pub closed spec fn events(&self) -> Seq<Message> {
        self.messages@
    }

    pub fn new() -> (res: Self)
        ensures
            res.entries() == Map::<Seq<char>, Cached<O>>::empty(),
            res.events() == Seq::<Message>::empty(),
    {
        TracingCache { messages: Vec::new(), map: CacheStore::new() }
    }

    /// The entries, by the name of their query.
    pub closed spec fn entries(&self) -> Map<Seq<char>, Cached<O>> {
        self.map.entries()
    }

    /// Hands out the events kept so far and keeps none of them.
    pub fn drain(&mut self) -> (res: Vec<Message>)
        ensures
            res@ == old(self).events(),
            final(self).events() == Seq::<Message>::empty(),
            final(self).entries() == old(self).entries(),
    {
        let mut res: Vec<Message> = Vec::new();
        std::mem::swap(&mut res, &mut self.messages);
        res
    }
}

impl<O: Described> Cache<O> for TracingCache<O> {
    open spec fn entries(&self) -> Map<Seq<char>, Cached<O>> {
        TracingCache::entries(self)
    }

    /// Stores the entry and keeps the event, the latter unless the entry
    /// holds a failure.
    fn push(&mut self, key: QueryId, entry: Cached<O>)
        ensures
            entry.failed() ==> final(self).events() == old(self).events(),
            !entry.failed() ==> one_more(old(self).events(), final(self).events()) && (final(self).events().last() matches Message::Push { key: k, entry: e, stack: s } && tells_entry(
                k,
                e,
                s,
                key,
                entry,
                Seq::empty(),
            )),
    {
        if entry.result.is_ok() {
            let message = Message::Push {
                key: key.to_string(),
                entry: translate(&entry),
                stack: Vec::new(),
            };
            self.messages.push(message);
            proof {
                assert(self.events().drop_last() =~= old(self).events());
                assert(texts(Seq::<String>::empty()) =~= Seq::<Seq<char>>::empty());
            }
        }
        self.map.push(key, entry);
    }

    fn pull(&mut self, key: &QueryId) -> (res: Option<Cached<O>>)
        ensures
            one_more(old(self).events(), final(self).events()),
            final(self).events().last() matches Message::Pull { key: k, reason: r, stack: s }
                && k@ == bracketed(key@) && r@.len() == 0 && s@.len() == 0,
    {
        let message = Message::Pull {
            key: key.to_string(),
            reason: String::new(),
            stack: Vec::new(),
        };
        self.messages.push(message);
        proof {
            assert(self.events().drop_last() =~= old(self).events());
        }
        self.map.pull(key)
    }

    fn remove(&mut self, key: &QueryId) -> (found: bool)
        ensures
            one_more(old(self).events(), final(self).events()),
            final(self).events().last() matches Message::Remove { key: k, stack: s } && k@
                == bracketed(key@) && s@.len() == 0,
    {
        let message = Message::Remove { key: key.to_string(), stack: Vec::new() };
        self.messages.push(message);
        proof {
            assert(self.events().drop_last() =~= old(self).events());
        }
        self.map.remove(key)
    }

    /// Changes the entry and keeps the event, the latter where there is an
    /// entry and it holds no failure.
    fn modify(&mut self, key: QueryId, world_state: CacheMap, direct_world_state: CacheMap) -> (found:
        bool)
        ensures
            !found || old(self).entries()[key@].failed() ==> final(self).events() == old(self).events(),
            found && !old(self).entries()[key@].failed() ==> one_more(
                old(self).events(),
                final(self).events(),
            ) && (final(self).events().last() matches Message::Modify { key: k, entry: e, stack: s }
                && tells_entry(k, e, s, key, final(self).entries()[key@], Seq::empty())),
    {
        let shown = key.to_string();
        let ghost id = key;
        let found = self.map.modify(key.clone(), world_state, direct_world_state);
        if found {
            match self.map.pull(&key) {
                Some(entry) => {
                    if entry.result.is_ok() {
                        let message = Message::Modify {
                            key: shown,
                            entry: translate(&entry),
                            stack: Vec::new(),
                        };
                        self.messages.push(message);
                        proof {
                            assert(self.events().drop_last() =~= old(self).events());
                            assert(texts(Seq::<String>::empty()) =~= Seq::<Seq<char>>::empty());
                        }
                    }
                },
                None => {},
            }
        }
        found
    }
}

} // verus!
