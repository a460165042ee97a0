use algorithm_visualizer::visualizer::AlgorithmVisualizer;
use algorithm_visualizer::{Algorithm, Operation};

fn out_of_order(numbers: &[i32], i: usize, j: usize) -> bool {
    let (low, high) = if i < j { (i, j) } else { (j, i) };
    numbers[low] > numbers[high]
}

#[test]
fn neighbour_sorts_exchange_exactly_the_out_of_order_pairs() {
    let input = vec![5, -2, 9, 9, 0, 3, 3, -7, 12, 1];
    for algorithm in [Algorithm::Bubble, Algorithm::Gnome, Algorithm::Cocktail, Algorithm::OddEven] {
        let ops = algorithm.operations(input.clone());
        let mut numbers = input.clone();
        for (k, op) in ops.iter().enumerate() {
            match *op {
                Operation::Compare(i, j) => {
                    let followed = matches!(ops.get(k + 1), Some(Operation::Swap(a, b)) if *a == i && *b == j);
                    assert_eq!(followed, out_of_order(&numbers, i, j));
                }
                Operation::Swap(i, j) => {
                    assert!(k >= 1);
                    assert_eq!(ops[k - 1], Operation::Compare(i, j));
                }
                _ => panic!("unexpected operation"),
            }
            op.apply(&mut numbers);
        }
        let mut sorted = input.clone();
        sorted.sort();
        assert_eq!(numbers, sorted);
    }
}

#[test]
fn selection_swaps_bring_the_first_minimum() {
    let input = vec![4, 1, 3, 1, 0, 8, 0];
    let ops = Algorithm::Selection.operations(input.clone());
    let mut numbers = input.clone();
    let mut swaps = 0;
    for op in ops {
        if let Operation::Swap(a, b) = op {
            let minimum = *numbers[a..].iter().min().unwrap();
            let first = a + numbers[a..].iter().position(|x| *x == minimum).unwrap();
            assert_eq!(b, first);
            swaps += 1;
        }
        op.apply(&mut numbers);
    }
    assert_eq!(swaps, input.len() - 1);
    assert_eq!(numbers, vec![0, 0, 1, 1, 3, 4, 8]);
}

#[test]
fn replaying_in_two_parts_is_replaying_the_whole() {
    let input = vec![7u16, 3, 9, 1, 4];
    let ops = Algorithm::Heap.operations(input.clone());
    let (first, second) = ops.split_at(ops.len() / 2);

    let mut whole = input.clone();
    for op in ops.iter() {
        op.apply(&mut whole);
    }

    let mut parts = input.clone();
    for op in first {
        op.apply(&mut parts);
    }
    for op in second {
        op.apply(&mut parts);
    }
    assert_eq!(parts, whole);
    assert_eq!(whole, vec![1, 3, 4, 7, 9]);
}

#[test]
fn every_recorded_position_is_inside_the_input() {
    let input = vec![10i64, -4, 6, 6, 2, 8, -1];
    for algorithm in [
        Algorithm::Bubble,
        Algorithm::Selection,
        Algorithm::Insertion,
        Algorithm::Merge,
        Algorithm::Heap,
        Algorithm::Gnome,
        Algorithm::Cocktail,
        Algorithm::OddEven,
    ] {
        for op in algorithm.operations(input.clone()) {
            let inside = match op {
                Operation::Compare(i, j) | Operation::Write(i, j) | Operation::Swap(i, j) => {
                    i < input.len() && j < input.len()
                }
                Operation::CompareToValue(i) | Operation::WriteValue(i, _) => i < input.len(),
            };
            assert!(inside);
        }
    }
}

#[test]
fn quick_sort_positions_are_inside_the_input() {
    let input = vec![10i64, -4, 6, 2, 8, -1, 33];
    for op in Algorithm::Quick.operations(input.clone()) {
        let inside = match op {
            Operation::Compare(i, j) | Operation::Write(i, j) | Operation::Swap(i, j) => {
                i < input.len() && j < input.len()
            }
            Operation::CompareToValue(i) | Operation::WriteValue(i, _) => i < input.len(),
        };
        assert!(inside);
    }
}

#[test]
fn randomize_changes_the_order() {
    let mut visualizer = AlgorithmVisualizer::default();
    visualizer.set_count(1000);
    assert_eq!(visualizer.numbers().to_vec(), (1..=1000).collect::<Vec<u16>>());
    visualizer.randomize();
    assert_ne!(visualizer.numbers().to_vec(), (1..=1000).collect::<Vec<u16>>());
}

#[test]
fn quick_sort_exchanges_meet_out_of_order_pairs() {
    let input = vec![13, -5, 8, 21, 0, 3, 34, -1, 2, 1];
    let ops = Algorithm::Quick.operations(input.clone());
    let mut numbers = input.clone();
    for op in ops {
        if let Operation::Swap(i, j) = op {
            assert!(out_of_order(&numbers, i, j));
        }
        op.apply(&mut numbers);
    }
    assert_eq!(numbers, vec![-5, -1, 0, 1, 2, 3, 8, 13, 21, 34]);
}

#[test]
fn heap_sort_exchanges_lift_children_or_move_the_root() {
    let input = vec![6, 2, 9, 9, 4, -3, 7, 0];
    let ops = Algorithm::Heap.operations(input.clone());
    let mut numbers = input.clone();
    for op in ops {
        if let Operation::Swap(a, b) = op {
            let lifts_child = (b == 2 * a + 1 || b == 2 * a + 2) && numbers[a] < numbers[b];
            let moves_root = a == 0 && numbers[..=b].iter().all(|x| *x <= numbers[0]);
            assert!(lifts_child || moves_root);
        }
        op.apply(&mut numbers);
    }
    assert_eq!(numbers, vec![-3, 0, 2, 4, 6, 7, 9, 9]);
}

#[test]
fn exchanging_sorts_keep_the_elements_at_every_step() {
    let input = vec![4, 4, -1, 8, 0, 8, 2, -6, 3];
    let mut expected = input.clone();
    expected.sort();
    for algorithm in [
        Algorithm::Bubble,
        Algorithm::Selection,
        Algorithm::Quick,
        Algorithm::Heap,
        Algorithm::Gnome,
        Algorithm::Cocktail,
        Algorithm::OddEven,
    ] {
        let mut numbers = input.clone();
        for op in algorithm.operations(input.clone()) {
            assert!(matches!(
                op,
                Operation::Compare(_, _) | Operation::CompareToValue(_) | Operation::Swap(_, _)
            ));
            op.apply(&mut numbers);
            let mut elements = numbers.clone();
            elements.sort();
            assert_eq!(elements, expected);
        }
    }
}

#[test]
fn heapify_exchanges_a_parent_with_a_child() {
    let mut numbers = vec![0, 3, 9, 8, 1, 7, 11, 2];
    let n = 7;
    let ops = algorithm_visualizer::heap::heapify(&mut numbers, n, 0);
    assert!(ops.iter().any(|op| matches!(op, Operation::Swap(_, _))));
    for op in ops {
        match op {
            Operation::Compare(x, y) => assert!(x < n && y < n),
            Operation::Swap(p, c) => assert!((c == 2 * p + 1 || c == 2 * p + 2) && c < n),
            other => panic!("unexpected operation {:?}", other),
        }
    }
    assert_eq!(numbers[7], 2);
}
