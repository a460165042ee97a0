use algorithm_visualizer::exchange::{bubble_sort, cocktail_sort, gnome_sort};
use algorithm_visualizer::heap::{heap_sort, heapify};
use algorithm_visualizer::insertion::insertion_sort;
use algorithm_visualizer::merge::{merge_sort, merge_sort_inner};
use algorithm_visualizer::quick::{quick_sort, quick_sort_inner};
use algorithm_visualizer::selection::selection_sort;
use algorithm_visualizer::{Algorithm, Operation};

fn sort_check(algorithm: Algorithm, mut numbers: Vec<i32>) -> bool {
    let mut sorted = numbers.clone();
    sorted.sort();

    let numbers_clone = numbers.clone();
    for operation in algorithm.operations(numbers_clone) {
        operation.apply(&mut numbers);
    }

    numbers == sorted
}

fn check_algorithm(algorithm: Algorithm) {
    let empty = Vec::<i32>::new();
    assert!(sort_check(algorithm, empty), "empty case");

    let single = vec![fastrand::i32(..)];
    assert!(sort_check(algorithm, single), "single case");

    let numbers: Vec<i32> = std::iter::repeat_with(|| fastrand::i32(..)).take(100).collect();

    let mut sorted = numbers.clone();
    sorted.sort();

    let mut reversed = sorted.clone();
    reversed.reverse();

    assert!(sort_check(algorithm, numbers), "100 case");
    assert!(sort_check(algorithm, sorted), "sorted case");
    assert!(sort_check(algorithm, reversed), "reverse case");
}

#[test]
fn bubble_sort_test() {
    check_algorithm(Algorithm::Bubble);
}

#[test]
fn selection_sort_test() {
    check_algorithm(Algorithm::Selection);
}

#[test]
fn insertion_sort_test() {
    check_algorithm(Algorithm::Insertion);
}

#[test]
fn merge_sort_test() {
    check_algorithm(Algorithm::Merge);
}

#[test]
fn quick_sort_test() {
    check_algorithm(Algorithm::Quick);
}

#[test]
fn heap_sort_test() {
    check_algorithm(Algorithm::Heap);
}

#[test]
fn gnome_sort_test() {
    check_algorithm(Algorithm::Gnome);
}

#[test]
fn cocktail_sort_test() {
    check_algorithm(Algorithm::Cocktail);
}

#[test]
fn odd_even_sort() {
    check_algorithm(Algorithm::OddEven);
}

#[test]
fn bubble_sort_exact_operations() {
    let expected: Vec<Operation<i32>> = vec![Operation::Compare(0, 1), Operation::Swap(0, 1), Operation::Compare(1, 2), Operation::Compare(2, 3), Operation::Compare(3, 4), Operation::Swap(3, 4), Operation::Compare(0, 1), Operation::Compare(1, 2), Operation::Compare(2, 3), Operation::Swap(2, 3), Operation::Compare(0, 1), Operation::Compare(1, 2), Operation::Swap(1, 2), Operation::Compare(0, 1)];
    assert_eq!(Algorithm::Bubble.operations(vec![3, 1, 4, 5, 2]), expected);
}

#[test]
fn selection_sort_exact_operations() {
    let expected: Vec<Operation<i32>> = vec![Operation::Compare(1, 0), Operation::Compare(2, 1), Operation::Compare(3, 1), Operation::Compare(4, 1), Operation::Swap(0, 1), Operation::Compare(2, 1), Operation::Compare(3, 1), Operation::Compare(4, 1), Operation::Swap(1, 4), Operation::Compare(3, 2), Operation::Compare(4, 2), Operation::Swap(2, 4), Operation::Compare(4, 3), Operation::Swap(3, 4)];
    assert_eq!(Algorithm::Selection.operations(vec![3, 1, 4, 5, 2]), expected);
}

#[test]
fn insertion_sort_exact_operations() {
    let expected: Vec<Operation<i32>> = vec![Operation::CompareToValue(0), Operation::Write(1, 0), Operation::WriteValue(0, 1), Operation::CompareToValue(1), Operation::WriteValue(2, 4), Operation::CompareToValue(2), Operation::WriteValue(3, 5), Operation::CompareToValue(3), Operation::Write(4, 3), Operation::CompareToValue(2), Operation::Write(3, 2), Operation::CompareToValue(1), Operation::Write(2, 1), Operation::CompareToValue(0), Operation::WriteValue(1, 2)];
    assert_eq!(Algorithm::Insertion.operations(vec![3, 1, 4, 5, 2]), expected);
}

#[test]
fn merge_sort_exact_operations() {
    let expected: Vec<Operation<i32>> = vec![Operation::WriteValue(0, 1), Operation::WriteValue(1, 3), Operation::WriteValue(3, 2), Operation::WriteValue(4, 5), Operation::WriteValue(2, 2), Operation::WriteValue(3, 4), Operation::WriteValue(4, 5), Operation::WriteValue(0, 1), Operation::WriteValue(1, 2), Operation::WriteValue(2, 3), Operation::WriteValue(3, 4), Operation::WriteValue(4, 5)];
    assert_eq!(Algorithm::Merge.operations(vec![3, 1, 4, 5, 2]), expected);
}

#[test]
fn quick_sort_exact_operations() {
    let expected: Vec<Operation<i32>> = vec![Operation::CompareToValue(0), Operation::CompareToValue(1), Operation::Swap(2, 4), Operation::CompareToValue(2), Operation::Swap(3, 4), Operation::CompareToValue(4), Operation::CompareToValue(2), Operation::Swap(0, 1), Operation::CompareToValue(1), Operation::Swap(1, 2), Operation::CompareToValue(1)];
    assert_eq!(Algorithm::Quick.operations(vec![3, 1, 4, 5, 2]), expected);
}

#[test]
fn heap_sort_exact_operations() {
    let expected: Vec<Operation<i32>> = vec![Operation::Compare(3, 1), Operation::Compare(4, 3), Operation::Swap(1, 3), Operation::Compare(1, 0), Operation::Compare(2, 1), Operation::Swap(0, 1), Operation::Compare(3, 1), Operation::Compare(4, 1), Operation::Swap(0, 4), Operation::Compare(1, 0), Operation::Compare(2, 1), Operation::Swap(0, 2), Operation::Swap(0, 3), Operation::Compare(1, 0), Operation::Compare(2, 1), Operation::Swap(0, 1), Operation::Swap(0, 2), Operation::Compare(1, 0), Operation::Swap(0, 1)];
    assert_eq!(Algorithm::Heap.operations(vec![3, 1, 4, 5, 2]), expected);
}

#[test]
fn gnome_sort_exact_operations() {
    let expected: Vec<Operation<i32>> = vec![Operation::Compare(1, 0), Operation::Swap(1, 0), Operation::Compare(1, 0), Operation::Compare(2, 1), Operation::Compare(3, 2), Operation::Compare(4, 3), Operation::Swap(4, 3), Operation::Compare(3, 2), Operation::Swap(3, 2), Operation::Compare(2, 1), Operation::Swap(2, 1), Operation::Compare(1, 0), Operation::Compare(2, 1), Operation::Compare(3, 2), Operation::Compare(4, 3)];
    assert_eq!(Algorithm::Gnome.operations(vec![3, 1, 4, 5, 2]), expected);
}

#[test]
fn cocktail_sort_exact_operations() {
    let expected: Vec<Operation<i32>> = vec![Operation::Compare(0, 1), Operation::Swap(0, 1), Operation::Compare(1, 2), Operation::Compare(2, 3), Operation::Compare(3, 4), Operation::Swap(3, 4), Operation::Compare(2, 3), Operation::Swap(2, 3), Operation::Compare(1, 2), Operation::Swap(1, 2), Operation::Compare(0, 1), Operation::Compare(1, 2), Operation::Compare(2, 3)];
    assert_eq!(Algorithm::Cocktail.operations(vec![3, 1, 4, 5, 2]), expected);
}

#[test]
fn oddeven_sort_exact_operations() {
    let expected: Vec<Operation<i32>> = vec![Operation::Compare(1, 2), Operation::Compare(3, 4), Operation::Swap(3, 4), Operation::Compare(0, 1), Operation::Swap(0, 1), Operation::Compare(2, 3), Operation::Swap(2, 3), Operation::Compare(1, 2), Operation::Swap(1, 2), Operation::Compare(3, 4), Operation::Compare(0, 1), Operation::Compare(2, 3), Operation::Compare(1, 2), Operation::Compare(3, 4), Operation::Compare(0, 1), Operation::Compare(2, 3)];
    assert_eq!(Algorithm::OddEven.operations(vec![3, 1, 4, 5, 2]), expected);
}

#[test]
fn sorting_keeps_duplicates() {
    for algorithm in [
        Algorithm::Bubble,
        Algorithm::Selection,
        Algorithm::Insertion,
        Algorithm::Merge,
        Algorithm::Quick,
        Algorithm::Heap,
        Algorithm::Gnome,
        Algorithm::Cocktail,
        Algorithm::OddEven,
    ] {
        assert!(sort_check(algorithm, vec![2, 7, 2, 2, -1, 7, 0, 2]));
        assert!(sort_check(algorithm, vec![5, 5, 5]));
    }
}

#[test]
fn two_elements() {
    for algorithm in [
        Algorithm::Bubble,
        Algorithm::Selection,
        Algorithm::Insertion,
        Algorithm::Merge,
        Algorithm::Quick,
        Algorithm::Heap,
        Algorithm::Gnome,
        Algorithm::Cocktail,
        Algorithm::OddEven,
    ] {
        assert!(sort_check(algorithm, vec![2, 1]));
        assert!(sort_check(algorithm, vec![1, 2]));
    }
    assert_eq!(
        Algorithm::Cocktail.operations(vec![1, 2]),
        vec![Operation::Compare(0, 1)]
    );
    assert_eq!(
        Algorithm::Cocktail.operations(vec![2, 1]),
        vec![Operation::Compare(0, 1), Operation::Swap(0, 1)]
    );
}

#[test]
fn sorted_input_needs_no_exchange() {
    let ops = Algorithm::Bubble.operations(vec![1u16, 2, 3, 4]);
    assert_eq!(
        ops,
        vec![Operation::Compare(0, 1), Operation::Compare(1, 2), Operation::Compare(2, 3)]
    );
}

#[test]
fn merge_sort_only_writes_values() {
    let ops = Algorithm::Merge.operations(vec![9u8, 3, 7, 1]);
    assert!(ops.iter().all(|op| matches!(op, Operation::WriteValue(_, _))));
}

#[test]
fn neighbour_sorts_only_touch_neighbours() {
    for algorithm in [Algorithm::Bubble, Algorithm::Gnome, Algorithm::Cocktail, Algorithm::OddEven] {
        let ops = algorithm.operations(vec![4i64, 9, -3, 0, 12, 7, 7, 1]);
        for op in ops {
            match op {
                Operation::Compare(i, j) | Operation::Swap(i, j) => {
                    assert!(i + 1 == j || j + 1 == i)
                }
                other => panic!("unexpected operation {:?}", other),
            }
        }
    }
}

#[test]
fn sort_equals_standard_sort() {
    let numbers: Vec<u32> = std::iter::repeat_with(|| fastrand::u32(..1000)).take(60).collect();
    for algorithm in [
        Algorithm::Bubble,
        Algorithm::Selection,
        Algorithm::Insertion,
        Algorithm::Merge,
        Algorithm::Quick,
        Algorithm::Heap,
        Algorithm::Gnome,
        Algorithm::Cocktail,
        Algorithm::OddEven,
    ] {
        let mut replayed = numbers.clone();
        for op in algorithm.operations(numbers.clone()) {
            op.apply(&mut replayed);
        }
        let mut expected = numbers.clone();
        expected.sort();
        assert_eq!(replayed, expected);
    }
}

#[test]
fn algorithm_names() {
    assert_eq!(Algorithm::Bubble.to_string(), "Bubble Sort");
    assert_eq!(Algorithm::Selection.to_string(), "Selection Sort");
    assert_eq!(Algorithm::Insertion.to_string(), "Insertion Sort");
    assert_eq!(Algorithm::Merge.to_string(), "Merge Sort");
    assert_eq!(Algorithm::Quick.to_string(), "Quick Sort");
    assert_eq!(Algorithm::Heap.to_string(), "Heap Sort");
    assert_eq!(Algorithm::Gnome.to_string(), "Gnome Sort");
    assert_eq!(Algorithm::Cocktail.to_string(), "Cocktail Sort");
    assert_eq!(Algorithm::OddEven.to_string(), "OddEven Sort");
}

#[test]
fn quick_sort_repeated_elements() {
    assert_eq!(Algorithm::Quick.operations(vec![1, 1]), Vec::<Operation<i32>>::new());
    assert_eq!(
        Algorithm::Quick.operations(vec![2, 1, 2]),
        vec![Operation::CompareToValue(2), Operation::Swap(0, 1), Operation::CompareToValue(1)]
    );
    assert!(sort_check(Algorithm::Quick, vec![3, 3, 3, 3, 3]));
    assert!(sort_check(Algorithm::Quick, vec![4, 1, 4, 1, 4, 1, 2, 2]));
}

#[test]
fn heapify_sifts_any_slice() {
    let mut numbers = vec![1, 5, 3, 9, 2];
    let ops = heapify(&mut numbers, 5, 0);
    assert_eq!(
        ops,
        vec![
            Operation::Compare(1, 0),
            Operation::Compare(2, 1),
            Operation::Swap(0, 1),
            Operation::Compare(3, 1),
            Operation::Compare(4, 3),
            Operation::Swap(1, 3),
        ]
    );
    assert_eq!(numbers, vec![5, 9, 3, 1, 2]);
    let mut replayed = vec![1, 5, 3, 9, 2];
    for op in ops {
        op.apply(&mut replayed);
    }
    assert_eq!(replayed, numbers);
}

#[test]
fn heapify_leaves_the_rest_alone() {
    let mut numbers = vec![1, 8, 7, 100, -4];
    let ops = heapify(&mut numbers, 3, 0);
    assert_eq!(ops, vec![Operation::Compare(1, 0), Operation::Compare(2, 1), Operation::Swap(0, 1)]);
    assert_eq!(numbers, vec![8, 1, 7, 100, -4]);

    let mut leaf = vec![4, 3, 2];
    assert!(heapify(&mut leaf, 3, 2).is_empty());
    assert!(heapify(&mut leaf, 2, 5).is_empty());
    assert_eq!(leaf, vec![4, 3, 2]);
}

#[test]
fn inner_sorts_sort_in_place() {
    let input = vec![5, 1, 5, 3, 1, 9, 0];
    let mut sorted = input.clone();
    sorted.sort();

    let mut numbers = input.clone();
    let ops = quick_sort_inner(&mut numbers);
    assert_eq!(numbers, sorted);
    let mut replayed = input.clone();
    for op in ops {
        op.apply(&mut replayed);
    }
    assert_eq!(replayed, sorted);

    let mut numbers = input.clone();
    let ops = merge_sort_inner(&mut numbers);
    assert_eq!(numbers, sorted);
    let mut replayed = input.clone();
    for op in ops {
        assert!(matches!(op, Operation::WriteValue(k, _) if k < input.len()));
        op.apply(&mut replayed);
    }
    assert_eq!(replayed, sorted);
}

#[test]
fn operations_runs_the_named_sort() {
    let input = vec![7, -2, 7, 0, 11, 3, -2, 5];
    assert_eq!(Algorithm::Bubble.operations(input.clone()), bubble_sort(input.clone()));
    assert_eq!(Algorithm::Selection.operations(input.clone()), selection_sort(input.clone()));
    assert_eq!(Algorithm::Insertion.operations(input.clone()), insertion_sort(input.clone()));
    assert_eq!(Algorithm::Merge.operations(input.clone()), merge_sort(input.clone()));
    assert_eq!(Algorithm::Quick.operations(input.clone()), quick_sort(input.clone()));
    assert_eq!(Algorithm::Heap.operations(input.clone()), heap_sort(input.clone()));
    assert_eq!(Algorithm::Gnome.operations(input.clone()), gnome_sort(input.clone()));
    assert_eq!(Algorithm::Cocktail.operations(input.clone()), cocktail_sort(input.clone()));
    assert_eq!(Algorithm::OddEven.operations(input.clone()), algorithm_visualizer::exchange::odd_even_sort(input.clone()));
}
