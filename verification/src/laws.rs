use crate::cache::Cached;
use crate::execution::{
    agree, dep_direct_worlds, dep_worlds, folded, passed, until, verdict_of, verified, Deps,
    Reactor, Verdict,
};
use crate::fingerprinting::Fingerprint;
use crate::hashing::{KeyHasher, ViewEq};
use crate::query_id::QueryId;
use crate::sparse_vec::{occupied_positions, occupied_values, positions_below, values_below};
use crate::structure::PerMap;
use vstd::prelude::*;

verus! {

/// What `get` returns for a key of a map.
pub open spec fn got<K, V>(map: Map<K, V>, key: K) -> Option<V> {
    if map.contains_key(key) {
        Some(map[key])
    } else {
        None
    }
}

/// A map gives back what was inserted, keeps what it held for the other keys,
/// and grows by one where the key is new.
pub proof fn law_insert_get<K, V>(before: Map<K, V>, key: K, value: V, other: K)
    requires
        before.dom().finite(),
    ensures
        got(before.insert(key, value), key) == Some(value),
        other != key ==> got(before.insert(key, value), other) == got(before, other),
        before.insert(key, value).len() == before.len() + if before.contains_key(key) {
            0nat
        } else {
            1nat
        },
{
    broadcast use vstd::map::group_map_axioms;
    broadcast use vstd::set::group_set_axioms;

    assert(before.insert(key, value).dom() =~= before.dom().insert(key));
}

/// The map that holds the first `n` of `pairs`, inserted one after another.
pub open spec fn inserted<K, V>(pairs: Seq<(K, V)>, n: int) -> Map<K, V>
    decreases n,
{
    if n <= 0 {
        Map::empty()
    } else {
        inserted(pairs, n - 1).insert(pairs[n - 1].0, pairs[n - 1].1)
    }
}

/// The keys of the first `n` of `pairs`.
pub open spec fn keys_of<K, V>(pairs: Seq<(K, V)>, n: int) -> Set<K> {
    Set::new(|k: K| exists|i: int| 0 <= i < n && (#[trigger] pairs[i]).0 == k)
}

/// A map that was filled by inserts holds the keys that were inserted, each
/// once: its length is the number of distinct keys.
pub proof fn law_len_counts_keys<K, V>(pairs: Seq<(K, V)>, n: int)
    requires
        0 <= n <= pairs.len(),
    ensures
        inserted(pairs, n).dom() == keys_of(pairs, n),
        inserted(pairs, n).dom().finite(),
        inserted(pairs, n).len() == keys_of(pairs, n).len(),
    decreases n,
{
    broadcast use vstd::map::group_map_axioms;
    broadcast use vstd::set::group_set_axioms;

    if n == 0 {
        assert(inserted(pairs, n).dom() =~= keys_of(pairs, n));
    } else {
        law_len_counts_keys(pairs, n - 1);
        assert(inserted(pairs, n).dom() =~= inserted(pairs, n - 1).dom().insert(pairs[n - 1].0));
        assert(keys_of(pairs, n) =~= keys_of(pairs, n - 1).insert(pairs[n - 1].0)) by {
            assert forall|k: K| keys_of(pairs, n - 1).insert(pairs[n - 1].0).contains(
                k,
            ) implies keys_of(pairs, n).contains(k) by {
                if k == pairs[n - 1].0 {
                    assert(pairs[n - 1].0 == k);
                } else {
                    let i = choose|i: int| 0 <= i < n - 1 && (#[trigger] pairs[i]).0 == k;
                    assert(pairs[i].0 == k);
                }
            }
        }
    }
}

/// A map from which another was made by an insert still holds what it held.
pub proof fn law_immutability<K: ViewEq, V, S: KeyHasher<K>>(
    map: PerMap<K, V, S>,
    updated: PerMap<K, V, S>,
    key: K,
    earlier: V,
    value: V,
)
    requires
        map@.contains_pair(key@, earlier),
        updated@ == map@.insert(key@, value),
    ensures
        got(map@, key@) == Some(earlier),
        got(updated@, key@) == Some(value),
{
}

/// A map whose hasher gives every key the same hash is a map like any
/// other.
pub proof fn law_hash_clash<K: ViewEq, V, S: KeyHasher<K>>(
    map: PerMap<K, V, S>,
    updated: PerMap<K, V, S>,
    hash: u64,
    key: K,
    value: V,
    other: K,
)
    requires
        forall|k: K::V| #[trigger] map.hasher().spec_hash(k) == hash,
        map@.dom().finite(),
        updated@ == map@.insert(key@, value),
    ensures
        got(updated@, key@) == Some(value),
        other@ != key@ ==> got(updated@, other@) == got(map@, other@),
        updated@.len() == map@.len() + if map@.contains_key(key@) {
            0nat
        } else {
            1nat
        },
{
    law_insert_get(map@, key@, value, other@);
}

/// The union of two maps holds for each key what the right one holds, or
/// else what the left one holds; its keys are those of the two.
pub proof fn law_union<K, V>(left: Map<K, V>, right: Map<K, V>, key: K)
    ensures
        got(left.union_prefer_right(right), key) == if right.contains_key(key) {
            got(right, key)
        } else {
            got(left, key)
        },
        left.union_prefer_right(right).dom() == left.dom().union(right.dom()),
{
    broadcast use vstd::map::group_map_axioms;

    assert(left.union_prefer_right(right).dom() =~= left.dom().union(right.dom()));
}

/// What `non_overriding_union` says of its result: the union where the two
/// maps agree, or a key with the two values in which they do not.
pub open spec fn joined<K: View, V: View>(
    left: Map<K::V, V>,
    right: Map<K::V, V>,
    res: Result<Map<K::V, V>, (K, V, V)>,
) -> bool {
    match res {
        Ok(sum) => {
            &&& sum == right.union_prefer_right(left)
            &&& forall|k: K::V|
                left.contains_key(k) && right.contains_key(k) ==> (#[trigger] left[k])@ == right[k]@
        },
        Err((key, a, b)) => left.contains_pair(key@, a) && right.contains_pair(key@, b) && a@
            != b@,
    }
}

/// The union that overwrites nothing succeeds where the two maps hold equal
/// values for each key that both have, and only there; where it fails, it
/// names a key with the two values that are not equal.
pub proof fn law_non_overriding_union<K: View, V: View>(
    left: Map<K::V, V>,
    right: Map<K::V, V>,
    res: Result<Map<K::V, V>, (K, V, V)>,
)
    requires
        joined::<K, V>(left, right, res),
    ensures
        res is Ok <==> forall|k: K::V|
            left.contains_key(k) && right.contains_key(k) ==> (#[trigger] left[k])@ == right[k]@,
        res matches Err((key, a, b)) ==> left[key@] == a && right[key@] == b,
        res matches Ok(sum) ==> forall|k: K::V|
            got(sum, k) == if left.contains_key(k) {
                got(left, k)
            } else {
                got(right, k)
            },
{
    broadcast use vstd::map::group_map_axioms;

    match res {
        Ok(_) => {},
        Err((key, a, b)) => {
            assert(left.contains_key(key@) && right.contains_key(key@) && left[key@]@
                != right[key@]@);
        },
    }
}

/// A slot gives back what was stored in it, and the other slots keep what
/// they held.
pub proof fn law_sparse_insert_get<T>(slots: Seq<Option<T>>, pos: int, value: T, other: int)
    requires
        0 <= pos < slots.len(),
        0 <= other < slots.len(),
    ensures
        slots.update(pos, Some(value))[pos] == Some(value),
        other != pos ==> slots.update(pos, Some(value))[other] == slots[other],
{
}

proof fn lemma_overwrite<T>(slots: Seq<Option<T>>, pos: int, value: T, n: int)
    requires
        0 <= pos < slots.len(),
        slots[pos] is Some,
        0 <= n <= slots.len(),
    ensures
        positions_below(slots.update(pos, Some(value)), n) == positions_below(slots, n),
    decreases n,
{
    if n > 0 {
        lemma_overwrite(slots, pos, value, n - 1);
    }
}

/// Storing a value in an occupied slot leaves the length as it was.
pub proof fn law_sparse_overwrite<T>(slots: Seq<Option<T>>, pos: int, value: T)
    requires
        0 <= pos < slots.len(),
        slots[pos] is Some,
    ensures
        occupied_positions(slots.update(pos, Some(value))).len() == occupied_positions(
            slots,
        ).len(),
{
    lemma_overwrite(slots, pos, value, slots.len() as int);
}

/// A swap hands back what the swap before it stored.
pub proof fn law_sparse_swap<T>(slots: Seq<Option<T>>, pos: int, first: T, second: T)
    requires
        0 <= pos < slots.len(),
    ensures
        slots.update(pos, Some(first))[pos] == Some(first),
        slots.update(pos, Some(first)).update(pos, Some(second))[pos] == Some(second),
{
}

proof fn lemma_values_len<T>(slots: Seq<Option<T>>, n: int)
    requires
        0 <= n <= slots.len(),
    ensures
        values_below(slots, n).len() == positions_below(slots, n).len(),
    decreases n,
{
    if n > 0 {
        lemma_values_len(slots, n - 1);
    }
}

proof fn lemma_value_at<T>(slots: Seq<Option<T>>, pos: int, n: int)
    requires
        0 <= pos < n <= slots.len(),
        slots[pos] is Some,
    ensures
        positions_below(slots, pos).len() < values_below(slots, n).len(),
        values_below(slots, n)[positions_below(slots, pos).len() as int] == slots[pos]->0,
    decreases n,
{
    lemma_values_len(slots, n - 1);
    if pos < n - 1 {
        lemma_value_at(slots, pos, n - 1);
    }
}

proof fn lemma_positions_grow<T>(slots: Seq<Option<T>>, m: int, n: int)
    requires
        0 <= m <= n <= slots.len(),
    ensures
        positions_below(slots, m).len() <= positions_below(slots, n).len(),
        m < n && slots[m] is Some ==> positions_below(slots, m).len() < positions_below(
            slots,
            n,
        ).len(),
    decreases n - m,
{
    if m < n {
        lemma_positions_grow(slots, m, n - 1);
    }
}

/// The iterator yields the values in ascending order of their positions:
/// the value of a lower position comes before that of a higher one.
pub proof fn law_sparse_order<T>(slots: Seq<Option<T>>, low: int, high: int)
    requires
        0 <= low < high < slots.len(),
        slots[low] is Some,
        slots[high] is Some,
    ensures
        ({
            let values = occupied_values(slots);
            let first = positions_below(slots, low).len() as int;
            let second = positions_below(slots, high).len() as int;
            &&& first < second < values.len()
            &&& values[first] == slots[low]->0
            &&& values[second] == slots[high]->0
        }),
{
    lemma_value_at(slots, low, slots.len() as int);
    lemma_value_at(slots, high, slots.len() as int);
    lemma_positions_grow(slots, low, high);
}

/// While the body of a query runs, whoever asks for the query is told to
/// wait: of two who ask one after the other, the second does not start the
/// body, whatever else was asked for in between.
pub proof fn law_dedup<O, Q>(
    before: Reactor<O, Q>,
    between: Reactor<O, Q>,
    after: Reactor<O, Q>,
    id: QueryId,
    first: bool,
    second: bool,
)
    requires
        first == !before.running().contains(id@),
        before.running().insert(id@).subset_of(between.running()),
        second == !between.running().contains(id@),
        after.running() == between.running().insert(id@),
    ensures
        !second,
        after.running().contains(id@),
{
    assert(before.running().insert(id@).contains(id@));
}

/// A query whose entry saw the parameters as they are is not run again.
pub proof fn law_cache_hit<O>(
    cache: Map<Seq<char>, Cached<O>>,
    params: Map<Seq<char>, (Fingerprint, O)>,
    id: Seq<char>,
)
    requires
        cache.contains_key(id),
        verified(cache[id].world_state@, params),
    ensures
        verdict_of(cache, params, id) == Verdict::Fresh,
{
}

/// Setting a parameter that an entry did not see, or setting one to a value
/// with the fingerprint that the entry saw, leaves the entry fresh.
pub proof fn law_unseen_param<O>(
    world: Deps,
    params: Map<Seq<char>, (Fingerprint, O)>,
    param: Seq<char>,
    stamped: (Fingerprint, O),
)
    requires
        verified(world, params),
        !world.contains_key(param) || world[param] == stamped.0,
    ensures
        verified(world, params.insert(param, stamped)),
{
    let after = params.insert(param, stamped);
    assert forall|k: Seq<char>| world.contains_key(k) && after.contains_key(k) implies (
    #[trigger] after[k]).0 == world[k] by {
        if k != param {
            assert(params[k].0 == world[k]);
        }
    }
}

/// A query is kept without a run of its body where the parameters that the
/// body read itself are as they were, every query that it ran comes out with
/// the fingerprint it had, and the entries of those queries agree: its
/// queries are checked, and the check keeps the entry.
pub proof fn law_transitive_skip<O>(
    cache: Map<Seq<char>, Cached<O>>,
    params: Map<Seq<char>, (Fingerprint, O)>,
    id: Seq<char>,
    checked: Seq<(QueryId, Fingerprint, Option<Fingerprint>)>,
)
    requires
        cache.contains_key(id),
        !cache[id].failed(),
        !verified(cache[id].world_state@, params),
        verified(cache[id].direct_world_state@, params),
        forall|i: int| 0 <= i < checked.len() ==> (#[trigger] checked[i]).2 == Some(checked[i].1),
        all_agree(dep_worlds(cache, checked), checked.len() as int),
        all_agree(dep_direct_worlds(cache, checked), checked.len() as int),
    ensures
        verdict_of(cache, params, id) == Verdict::Recheck,
        passed(checked),
        folded(dep_worlds(cache, checked), checked.len() as int) is Some,
        folded(dep_direct_worlds(cache, checked), checked.len() as int) is Some,
{
    law_fold(dep_worlds(cache, checked), checked.len() as int);
    law_fold(dep_direct_worlds(cache, checked), checked.len() as int);
}

/// A query is run again where a parameter that its body read itself has
/// changed.
pub proof fn law_direct_change<O>(
    cache: Map<Seq<char>, Cached<O>>,
    params: Map<Seq<char>, (Fingerprint, O)>,
    id: Seq<char>,
    param: Seq<char>,
)
    requires
        cache.contains_key(id),
        cache[id].direct_world_state@.contains_key(param),
        forall|k: Seq<char>|
            cache[id].direct_world_state@.contains_key(k) ==> cache[id].world_state@.contains_pair(
                k,
                #[trigger] cache[id].direct_world_state@[k],
            ),
        params.contains_key(param),
        params[param].0 != cache[id].direct_world_state@[param],
    ensures
        verdict_of(cache, params, id) == Verdict::Stale,
{
    let direct = cache[id].direct_world_state@;
    let world = cache[id].world_state@;
    assert(world.contains_pair(param, direct[param]));
    assert(!verified(direct, params));
    assert(!verified(world, params));
}

/// The trace of a cycle leads from the query that asked to the query that
/// was asked for: it begins the chain, ends with the query, and holds the
/// query nowhere else.
pub proof fn law_cycle(chain: Seq<Seq<char>>, id: Seq<char>)
    requires
        chain.contains(id),
    ensures
        0 < until(chain, id).len() <= chain.len(),
        until(chain, id) == chain.take(until(chain, id).len() as int),
        until(chain, id).last() == id,
        forall|i: int| 0 <= i < until(chain, id).len() - 1 ==> until(chain, id)[i] != id,
    decreases chain.len(),
{
    let i = choose|i: int| 0 <= i < chain.len() && chain[i] == id;
    if chain[0] == id {
        assert(until(chain, id) =~= chain.take(1));
    } else {
        let rest = chain.skip(1);
        assert(rest[i - 1] == id);
        law_cycle(rest, id);
        let tail = until(rest, id);
        assert(until(chain, id) =~= seq![chain[0]] + tail);
        assert(until(chain, id) =~= chain.take(until(chain, id).len() as int)) by {
            assert forall|j: int| 0 <= j < until(chain, id).len() implies until(chain, id)[j]
                == chain[j] by {
                if j > 0 {
                    assert(tail[j - 1] == rest.take(tail.len() as int)[j - 1]);
                }
            }
        }
        assert forall|j: int| 0 <= j < until(chain, id).len() - 1 implies until(chain, id)[j]
            != id by {
            if j > 0 {
                assert(until(chain, id)[j] == tail[j - 1]);
            }
        }
    }
}

/// Whether each two of the first `n` maps agree.
pub open spec fn all_agree(states: Seq<Deps>, n: int) -> bool {
    forall|i: int, j: int| 0 <= i < n && 0 <= j < n ==> agree(#[trigger] states[i], #[trigger] states[j])
}

/// The order in which reports are folded does not matter: the fold succeeds
/// where each two reports agree, and only there, and it then holds for each
/// id what any report holds for it.
pub proof fn law_fold(states: Seq<Deps>, n: int)
    requires
        0 <= n <= states.len(),
    ensures
        folded(states, n) is Some <==> all_agree(states, n),
        folded(states, n) matches Some(sum) ==> {
            &&& forall|k: Seq<char>|
                sum.contains_key(k) <==> exists|i: int|
                    0 <= i < n && (#[trigger] states[i]).contains_key(k)
            &&& forall|i: int, k: Seq<char>|
                0 <= i < n && #[trigger] states[i].contains_key(k) ==> sum[k] == states[i][k]
        },
    decreases n,
{
    broadcast use vstd::map::group_map_axioms;

    if n > 0 {
        law_fold(states, n - 1);
        let last = states[n - 1];
        match folded(states, n - 1) {
            None => {
                assert(!all_agree(states, n - 1));
            },
            Some(before) => {
                if agree(before, last) {
                    let sum = last.union_prefer_right(before);
                    assert forall|i: int, j: int| 0 <= i < n && 0 <= j < n implies agree(
                        #[trigger] states[i],
                        #[trigger] states[j],
                    ) by {
                        assert forall|k: Seq<char>|
                            states[i].contains_key(k) && states[j].contains_key(k) implies (
                        #[trigger] states[i][k]) == states[j][k] by {
                            if i < n - 1 {
                                assert(before[k] == states[i][k]);
                            }
                            if j < n - 1 {
                                assert(before[k] == states[j][k]);
                            }
                        }
                    }
                    assert forall|k: Seq<char>| sum.contains_key(k) implies exists|i: int|
                        0 <= i < n && (#[trigger] states[i]).contains_key(k) by {
                        if before.contains_key(k) {
                            let i = choose|i: int|
                                0 <= i < n - 1 && (#[trigger] states[i]).contains_key(k);
                            assert(states[i].contains_key(k));
                        } else {
                            assert(states[n - 1].contains_key(k));
                        }
                    }
                    assert forall|i: int, k: Seq<char>|
                        0 <= i < n && #[trigger] states[i].contains_key(k) implies sum[k]
                        == states[i][k] by {
                        if i < n - 1 {
                            assert(before[k] == states[i][k]);
                        }
                    }
                } else {
                    let k = choose|k: Seq<char>|
                        before.contains_key(k) && last.contains_key(k) && before[k] != last[k];
                    let i = choose|i: int|
                        0 <= i < n - 1 && (#[trigger] states[i]).contains_key(k);
                    assert(before[k] == states[i][k]);
                    assert(!agree(states[i], states[n - 1]));
                }
            },
        }
    }
}

/// An entry holds among the parameters that its run saw all those that the
/// body read itself, with the same fingerprints: a body reports each
/// parameter that it reads in both ways.
pub proof fn law_direct_in_world(world: Seq<Deps>, direct: Seq<Deps>, k: Seq<char>)
    requires
        forall|i: int|
            0 <= i < direct.len() ==> exists|j: int|
                0 <= j < world.len() && world[j] == #[trigger] direct[i],
        folded(world, world.len() as int) is Some,
        folded(direct, direct.len() as int) is Some,
        folded(direct, direct.len() as int)->0.contains_key(k),
    ensures
        folded(world, world.len() as int)->0.contains_pair(
            k,
            folded(direct, direct.len() as int)->0[k],
        ),
{
    law_fold(world, world.len() as int);
    law_fold(direct, direct.len() as int);
    let i = choose|i: int| 0 <= i < direct.len() && (#[trigger] direct[i]).contains_key(k);
    let j = choose|j: int| 0 <= j < world.len() && world[j] == direct[i];
    assert(world[j].contains_key(k));
}

} // verus!
