use queries::check::{calc_steps, check, divisors, Op};
use queries::structure::PerMap;

#[test]
fn divisors_come_in_ascending_order() {
    assert_eq!(Vec::<usize>::new(), divisors(0));
    assert_eq!(vec![1], divisors(1));
    assert_eq!(vec![1, 7], divisors(7));
    assert_eq!(vec![1, 2, 3, 4, 6, 12], divisors(12));
    assert_eq!(vec![1, 5, 25], divisors(25));
}

fn input(texts: &[&str]) -> Vec<String> {
    texts.iter().map(|t| t.to_string()).collect()
}

#[test]
fn a_process_mixes_what_its_divisors_give() {
    let letters = input(&["a", "b", "c", "d", "e", "f", "g", "h", "i", "j", "k", "l"]);
    let mut cache = PerMap::<u64, String>::empty();
    assert_eq!("a", check(0, &letters, &mut cache));
    assert_eq!("ba", check(1, &letters, &mut cache));
    assert_eq!("ca", check(2, &letters, &mut cache));
    assert_eq!("daba", check(3, &letters, &mut cache));
    assert_eq!("fabaca", check(5, &letters, &mut cache));
    assert_eq!("labacadabafabaca", check(11, &letters, &mut cache));
    assert_eq!(Some(&"fabaca".to_string()), cache.get(&5));
    assert_eq!(Some(&"daba".to_string()), cache.get(&3));
    let mut fresh = PerMap::<u64, String>::empty();
    assert_eq!("labacadabafabaca", check(11, &letters, &mut fresh));
}

#[test]
fn a_cache_spares_the_work() {
    let letters = input(&["a", "b", "c", "d"]);
    let mut cache = PerMap::<u64, String>::empty().insert(1, "ba".to_string());
    assert_eq!("daba", check(3, &letters, &mut cache));
    assert_eq!(Some(&"a".to_string()), cache.get(&0));
    assert_eq!(Some(&"ba".to_string()), cache.get(&1));
}

#[test]
fn steps_come_in_ascending_order_of_their_weights() {
    let ops = vec![
        (5, Op::Calculate(1)),
        (2, Op::Replace(0, "x".to_string())),
        (5, Op::CalculateNonlocking(2)),
        (9, Op::Calculate(3)),
        (2, Op::Calculate(4)),
        (5, Op::Replace(6, "y".to_string())),
        (2, Op::Replace(7, "z".to_string())),
        (0, Op::CalculateNonlocking(8)),
        (5, Op::Calculate(9)),
    ];
    let steps = calc_steps(&ops);
    assert_eq!(4, steps.len());
    assert!(steps[0].updates.is_empty());
    assert!(steps[0].processes.is_empty());
    assert_eq!(vec![8], steps[0].nonlocking_processes);
    assert_eq!(vec![(0, "x".to_string()), (7, "z".to_string())], steps[1].updates);
    assert_eq!(vec![4], steps[1].processes);
    assert!(steps[1].nonlocking_processes.is_empty());
    assert_eq!(vec![(6, "y".to_string())], steps[2].updates);
    assert_eq!(vec![1, 9], steps[2].processes);
    assert_eq!(vec![2], steps[2].nonlocking_processes);
    assert_eq!(vec![3], steps[3].processes);
    assert!(calc_steps(&vec![]).is_empty());
    let top = calc_steps(&vec![(usize::MAX, Op::Calculate(0)), (0, Op::Calculate(1))]);
    assert_eq!(2, top.len());
    assert_eq!(vec![1], top[0].processes);
    assert_eq!(vec![0], top[1].processes);
}
