use queries::sparse_vec::SparseVec;

fn filled(elems: &[(usize, &str)]) -> SparseVec<16, String> {
    let mut sparse_vec = SparseVec::<16, String>::new();
    for (pos, elem) in elems {
        sparse_vec.insert(*pos, elem.to_string());
    }
    sparse_vec
}

const SAMPLE: [(usize, &str); 5] = [(9, "nine"), (0, "zero"), (15, "fifteen"), (3, "three"), (4, "")];

#[test]
fn len_is_correct() {
    assert_eq!(0, filled(&[]).len());
    assert!(filled(&[]).is_empty());
    assert_eq!(1, filled(&[(7, "x")]).len());
    assert_eq!(5, filled(&SAMPLE).len());
    assert!(!filled(&SAMPLE).is_empty());
    let all: Vec<(usize, &str)> = (0..16).map(|i| (i, "v")).collect();
    assert_eq!(16, filled(&all).len());
}

#[test]
fn elements_can_be_retrieved() {
    let sparse_vec = filled(&SAMPLE);
    for (pos, elem) in SAMPLE {
        assert_eq!(Some(&elem.to_string()), sparse_vec.get(pos));
    }
}

#[test]
fn elements_can_be_overwritten() {
    for (selected, _) in SAMPLE {
        let mut sparse_vec = filled(&SAMPLE);
        let new_value = "new value".to_string();
        sparse_vec.insert(selected, new_value.clone());
        assert_eq!(Some(&new_value), sparse_vec.get(selected));
        assert_eq!(5, sparse_vec.len());
        for (pos, elem) in SAMPLE {
            if pos != selected {
                assert_eq!(Some(&elem.to_string()), sparse_vec.get(pos));
            }
        }
    }
}

#[test]
fn elemenets_can_be_swapped() {
    for (selected, earlier) in SAMPLE {
        let mut sparse_vec = filled(&SAMPLE);
        let new_value = "new value".to_string();
        let old_value = sparse_vec.swap(selected, new_value.clone());
        assert_eq!(Some(&new_value), sparse_vec.get(selected));
        assert_eq!(Some(earlier.to_string()), old_value);
        for (pos, elem) in SAMPLE {
            if pos != selected {
                assert_eq!(Some(&elem.to_string()), sparse_vec.get(pos));
            }
        }
        let back = sparse_vec.swap(selected, earlier.to_string());
        assert_eq!(Some(new_value), back);
    }
}

#[test]
fn non_existing_elements_can_be_swapped() {
    let mut sparse_vec = filled(&SAMPLE);
    let new_value = "new value".to_string();
    let swapped = sparse_vec.swap(1, new_value.clone());
    assert_eq!(None, swapped);
    assert_eq!(Some(&new_value), sparse_vec.get(1));
    for (pos, elem) in SAMPLE {
        assert_eq!(Some(&elem.to_string()), sparse_vec.get(pos));
    }
    assert_eq!(6, sparse_vec.len());
}

#[test]
fn elements_can_be_removed() {
    for (selected, earlier) in SAMPLE {
        let mut sparse_vec = filled(&SAMPLE);
        let old_value = sparse_vec.remove(selected);
        assert_eq!(None, sparse_vec.get(selected));
        assert_eq!(Some(earlier.to_string()), old_value);
        assert_eq!(4, sparse_vec.len());
        for (pos, elem) in SAMPLE {
            if pos != selected {
                assert_eq!(Some(&elem.to_string()), sparse_vec.get(pos));
            }
        }
        assert_eq!(None, sparse_vec.remove(selected));
    }
}

#[test]
fn not_inserted_elements_are_empty() {
    let sparse_vec = filled(&SAMPLE);
    for id in [1usize, 2, 5, 6, 7, 8, 10, 11, 12, 13, 14] {
        assert_eq!(None, sparse_vec.get(id));
    }
}

#[test]
fn iteration_returns_correctly_ordered_elements() {
    let sparse_vec = filled(&SAMPLE);
    let mut it = sparse_vec.iter();
    let mut res = Vec::new();
    while let Some(v) = it.next() {
        res.push(v.clone());
    }
    assert_eq!(vec!["zero", "three", "", "nine", "fifteen"], res);
    assert!(it.next().is_none());
}

#[test]
fn keys_are_the_occupied_positions_in_order() {
    assert_eq!(vec![0usize, 3, 4, 9, 15], filled(&SAMPLE).keys());
    assert_eq!(Vec::<usize>::new(), filled(&[]).keys());
}

#[test]
fn a_clone_holds_the_same_elements() {
    let sparse_vec = filled(&SAMPLE);
    let mut copy = sparse_vec.clone();
    copy.insert(1, "one".to_string());
    assert_eq!(None, sparse_vec.get(1));
    assert_eq!(6, copy.len());
    for (pos, elem) in SAMPLE {
        assert_eq!(Some(&elem.to_string()), copy.get(pos));
    }
}

#[test]
fn other_capacities_work() {
    let mut small = SparseVec::<1, u8>::new();
    small.insert(0, 7);
    assert_eq!(Some(&7), small.get(0));
    let mut large = SparseVec::<63, u8>::new();
    large.insert(62, 1);
    large.insert(0, 2);
    assert_eq!(vec![0usize, 62], large.keys());
    assert_eq!(Some(&1), large.get(62));
    assert_eq!(2, large.len());
}
