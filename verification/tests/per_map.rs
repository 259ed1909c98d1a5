use queries::hashing::KeyHasher;
use queries::nodes::{BitShifter, MergeError};
use queries::set_wrapper::PerSet;
use queries::structure::PerMap;
use std::collections::HashMap;

struct DegenerateHasher;

impl KeyHasher<u64> for DegenerateHasher {
    fn spec_hash(&self, _key: u64) -> u64 {
        7
    }

    fn hash_one(&self, _key: &u64) -> u64 {
        7
    }
}

fn sample(seed: u64, count: u64) -> HashMap<u64, String> {
    let mut elems = HashMap::new();
    let mut state = seed;
    for i in 0..count {
        state = state.wrapping_mul(6364136223846793005).wrapping_add(1442695040888963407);
        elems.insert((state >> 33) % 1024, format!("value {i}"));
    }
    elems
}

fn filled(elems: &HashMap<u64, String>) -> PerMap<u64, String> {
    elems.iter().fold(PerMap::<u64, String>::empty(), |m, (k, v)| m.insert(*k, v.clone()))
}

#[test]
fn map_len_is_correct() {
    assert_eq!(0, PerMap::<u64, String>::empty().len());
    assert!(PerMap::<u64, String>::empty().is_empty());
    for count in [1u64, 2, 15, 300] {
        let elems = sample(count, count);
        let map = filled(&elems);
        assert_eq!(elems.len(), map.len());
        assert!(!map.is_empty());
    }
}

#[test]
fn values_are_retrieved() {
    let elems = sample(3, 500);
    let map = filled(&elems);
    for (k, v) in &elems {
        assert_eq!(Some(v), map.get(k));
    }
    for k in 1024..1100u64 {
        assert_eq!(None, map.get(&k));
    }
}

#[test]
fn values_can_be_updated_but_older_snapshots_remain() {
    let elems = sample(11, 16);
    let map = filled(&elems);
    for (selected, old_value) in &elems {
        let new_value = "new value".to_string();
        let new_map = map.insert(*selected, new_value.clone());
        assert_eq!(Some(&new_value), new_map.get(selected));
        assert_eq!(Some(old_value), map.get(selected));
        assert_eq!(map.len(), new_map.len());
    }
    let grown = map.insert(5000, "more".to_string());
    assert_eq!(None, map.get(&5000));
    assert_eq!(map.len() + 1, grown.len());
}

#[test]
fn map_can_handle_hash_clashes() {
    let elems = sample(5, 16);
    let map = elems.iter().fold(
        PerMap::<u64, String, DegenerateHasher>::with_hasher(DegenerateHasher),
        |m, (k, v)| m.insert(*k, v.clone()),
    );
    assert_eq!(elems.len(), map.len());
    for (k, v) in &elems {
        assert_eq!(Some(v), map.get(k));
    }
    assert_eq!(None, map.get(&4000));
    let without = elems.keys().fold(map.clone(), |m, k| m.remove(k));
    assert_eq!(0, without.len());
    assert_eq!(elems.len(), map.len());
}

#[test]
fn union_of_maps_preserves_all_keys_and_has_values_from_right_side() {
    let left_only = sample(1, 16);
    let right_only: HashMap<u64, String> =
        sample(2, 16).into_iter().map(|(k, v)| (k + 1024, v)).collect();
    let common = sample(3, 16);
    let mut left = left_only.clone();
    left.extend(common.iter().map(|(k, v)| (*k, format!("left {v}"))));
    let mut right = right_only.clone();
    right.extend(common.iter().map(|(k, v)| (*k, format!("right {v}"))));
    let left_map = filled(&left);
    let right_map = filled(&right);
    let mut keys: Vec<u64> = left.keys().chain(right.keys()).copied().collect();
    keys.sort();
    keys.dedup();

    let res = left_map.union(&right_map);

    assert_eq!(keys.len(), res.len());
    for k in &keys {
        assert!(res.get(k).is_some());
    }
    for (k, v) in &right {
        assert_eq!(Some(v), res.get(k));
    }
    for (k, v) in &left {
        if !right.contains_key(k) {
            assert_eq!(Some(v), res.get(k));
        }
    }
    assert_eq!(left.len(), left_map.len());
    assert_eq!(right.len(), right_map.len());
}

#[test]
fn non_overriding_union_joins_maps_that_agree() {
    let left = PerMap::<u64, u64>::empty().insert(1, 10).insert(2, 20);
    let right = PerMap::<u64, u64>::empty().insert(2, 20).insert(3, 30);
    let res = left.non_overriding_union(&right);
    let sum = match res {
        Ok(sum) => sum,
        Err(_) => panic!("the maps agree"),
    };
    assert_eq!(3, sum.len());
    assert_eq!(Some(&10), sum.get(&1));
    assert_eq!(Some(&20), sum.get(&2));
    assert_eq!(Some(&30), sum.get(&3));
    let empty = PerMap::<u64, u64>::empty();
    assert_eq!(2, empty.non_overriding_union(&left).ok().unwrap().len());
    assert_eq!(2, left.non_overriding_union(&empty).ok().unwrap().len());
}

#[test]
fn non_overriding_union_names_the_conflict() {
    let left = PerMap::<u64, u64>::empty().insert(1, 10).insert(2, 20);
    let right = PerMap::<u64, u64>::empty().insert(2, 21).insert(3, 30);
    match left.non_overriding_union(&right) {
        Err(e) => assert_eq!(
            MergeError::ValueConflict { key: 2, left_value: 20, right_value: 21 },
            e
        ),
        Ok(_) => panic!("the maps hold different values for 2"),
    }
    match right.non_overriding_union(&left) {
        Err(e) => assert_eq!(
            MergeError::ValueConflict { key: 2, left_value: 21, right_value: 20 },
            e
        ),
        Ok(_) => panic!("the maps hold different values for 2"),
    }
}

#[test]
fn removed_keys_are_gone() {
    let elems = sample(7, 100);
    let map = filled(&elems);
    let mut expected = elems.len();
    let mut current = map.clone();
    for k in elems.keys().take(40) {
        current = current.remove(k);
        expected -= 1;
        assert_eq!(None, current.get(k));
        assert_eq!(expected, current.len());
    }
    assert_eq!(current.len(), current.remove(&99999).len());
    for (k, v) in &elems {
        assert_eq!(Some(v), map.get(k));
    }
}

#[test]
fn iteration_yields_each_entry_once() {
    for count in [0u64, 1, 17, 400] {
        let elems = sample(count + 1, count);
        let map = filled(&elems);
        let mut it = map.iter();
        let mut seen = HashMap::new();
        while let Some(entry) = it.next() {
            assert!(seen.insert(entry.0, entry.1.clone()).is_none());
        }
        assert!(it.next().is_none());
        assert_eq!(elems, seen);
    }
}

#[test]
fn iteration_follows_the_hashes_of_the_keys() {
    let map = (0..16u64).fold(PerMap::<u64, u64>::empty(), |m, k| m.insert(k, k));
    let mut it = map.iter();
    let mut order = Vec::new();
    while let Some(entry) = it.next() {
        order.push(entry.0);
    }
    let mut sorted = order.clone();
    sorted.sort();
    assert_eq!((0..16u64).collect::<Vec<_>>(), sorted);
    assert_ne!((0..16u64).collect::<Vec<_>>(), order);
}

#[test]
fn string_keys_work() {
    let map = PerMap::<String, u64>::empty()
        .insert("one".to_string(), 1)
        .insert("two".to_string(), 2)
        .insert("one".to_string(), 11);
    assert_eq!(2, map.len());
    assert_eq!(Some(&11), map.get(&"one".to_string()));
    assert_eq!(None, map.get(&"three".to_string()));
}

#[test]
fn sets_hold_each_key_once() {
    let set = PerSet::<u64>::empty().insert(3).insert(5).insert(3);
    assert_eq!(2, set.len());
    assert!(set.contains(&3));
    assert!(!set.contains(&4));
    assert!(!set.is_empty());
    assert!(PerSet::<u64>::empty().is_empty());
    let other = PerSet::<u64>::empty().insert(5).insert(8);
    let both = set.union(&other);
    assert_eq!(3, both.len());
    for k in [3u64, 5, 8] {
        assert!(both.contains(&k));
    }
    let mut it = both.iter();
    let mut keys = Vec::new();
    while let Some(e) = it.next() {
        assert_eq!(*e.get(), *e);
        keys.push(*e);
    }
    keys.sort();
    assert_eq!(vec![3u64, 5, 8], keys);
    assert_eq!(2, set.len());
}

#[test]
fn an_address_yields_sixteen_chunks() {
    let mut address = BitShifter::new(0xfedc_ba98_7654_3210);
    for expected in 0..16u64 {
        let (next, chunk) = address.shift().expect("a chunk is left");
        assert_eq!(expected, chunk);
        address = next;
    }
    assert!(address.shift().is_none());
}

#[test]
fn a_walk_yields_the_entries_in_the_order_of_the_iterator() {
    for count in [0u64, 1, 17, 400] {
        let elems = sample(count + 7, count);
        let map = filled(&elems);
        let mut it = map.iter();
        let mut walk = map.tree_iterator();
        let mut seen = 0;
        loop {
            match (it.next(), walk.next()) {
                (Some(a), Some(b)) => {
                    assert_eq!(a.0, b.0);
                    assert_eq!(a.1, b.1);
                    seen += 1;
                }
                (None, None) => break,
                _ => panic!("one of the two ended before the other"),
            }
        }
        assert_eq!(elems.len(), seen);
        assert!(walk.next().is_none());
    }
}
