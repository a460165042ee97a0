use algorithm_visualizer::visualizer::{
    AlgorithmVisualizer, Highlight, HighlightedElement, SortingState,
};
use algorithm_visualizer::{Algorithm, Operation};

fn run_to_end(visualizer: &mut AlgorithmVisualizer) -> usize {
    let mut steps = 0;
    visualizer.toggle_running();
    while visualizer.state() == SortingState::Running {
        assert!(visualizer.frame(true));
        visualizer.apply_pending();
        steps += 1;
    }
    steps
}

#[test]
fn default_visualizer() {
    let visualizer = AlgorithmVisualizer::default();
    assert_eq!(visualizer.count(), 100);
    assert_eq!(visualizer.state(), SortingState::Idle);
    assert_eq!(visualizer.algorithm(), Algorithm::Bubble);
    assert_eq!(visualizer.speed(), 10);
    assert_eq!(visualizer.tick_millis(), 100);
    assert_eq!(visualizer.active_elements(), (None, None));
    let mut numbers = visualizer.numbers().to_vec();
    numbers.sort();
    assert_eq!(numbers, (1..=100).collect::<Vec<u16>>());
}

#[test]
fn running_sorts_the_numbers() {
    let mut visualizer = AlgorithmVisualizer::default();
    visualizer.select_algorithm(Algorithm::Quick);
    let steps = run_to_end(&mut visualizer);
    assert!(steps > 0);
    assert_eq!(visualizer.numbers().to_vec(), (1..=100).collect::<Vec<u16>>());
    assert_eq!(visualizer.state(), SortingState::Idle);
    assert_eq!(visualizer.active_elements(), (None, None));
}

#[test]
fn every_algorithm_sorts_in_the_visualizer() {
    for algorithm in [
        Algorithm::Bubble,
        Algorithm::Selection,
        Algorithm::Insertion,
        Algorithm::Merge,
        Algorithm::Quick,
        Algorithm::Heap,
        Algorithm::Gnome,
        Algorithm::Cocktail,
        Algorithm::OddEven,
    ] {
        let mut visualizer = AlgorithmVisualizer::default();
        visualizer.set_count(10);
        visualizer.randomize();
        visualizer.select_algorithm(algorithm);
        run_to_end(&mut visualizer);
        assert_eq!(visualizer.numbers().to_vec(), (1..=10).collect::<Vec<u16>>());
    }
}

#[test]
fn pause_and_resume() {
    let mut visualizer = AlgorithmVisualizer::default();
    visualizer.toggle_running();
    assert_eq!(visualizer.state(), SortingState::Running);
    visualizer.toggle_running();
    assert_eq!(visualizer.state(), SortingState::Paused);
    assert!(!visualizer.frame(true));
    visualizer.toggle_running();
    assert_eq!(visualizer.state(), SortingState::Running);
}

#[test]
fn frame_waits_for_the_tick() {
    let mut visualizer = AlgorithmVisualizer::default();
    visualizer.toggle_running();
    let before = visualizer.numbers().to_vec();
    assert!(!visualizer.frame(false));
    visualizer.apply_pending();
    assert_eq!(visualizer.numbers().to_vec(), before);
    assert_eq!(visualizer.active_elements(), (None, None));
}

#[test]
fn first_bubble_step_highlights_a_comparison() {
    let mut visualizer = AlgorithmVisualizer::default();
    visualizer.toggle_running();
    assert!(visualizer.frame(true));
    assert_eq!(
        visualizer.active_elements(),
        (
            Some(HighlightedElement { index: 0, highlight: Highlight::Compared }),
            Some(HighlightedElement { index: 1, highlight: Highlight::Compared }),
        )
    );
    assert_eq!(visualizer.highlight_at(0), Some(Highlight::Compared));
    assert_eq!(visualizer.highlight_at(1), Some(Highlight::Compared));
    assert_eq!(visualizer.highlight_at(2), None);
}

#[test]
fn insertion_step_highlights_write_and_source() {
    let mut visualizer = AlgorithmVisualizer::default();
    visualizer.set_count(10);
    visualizer.select_algorithm(Algorithm::Insertion);
    // numbers are 1..=10 in order: a reversed order makes the first step a copy
    visualizer.randomize();
    visualizer.toggle_running();
    let mut saw_write = false;
    while visualizer.state() == SortingState::Running {
        visualizer.frame(true);
        if let (Some(first), Some(second)) = visualizer.active_elements() {
            assert_eq!(first.highlight, Highlight::Written);
            assert_eq!(second.highlight, Highlight::Source);
            assert_eq!(first.index, second.index + 1);
            assert_eq!(visualizer.highlight_at(first.index), Some(Highlight::Written));
            assert_eq!(visualizer.highlight_at(second.index), Some(Highlight::Source));
            saw_write = true;
        }
        visualizer.apply_pending();
    }
    let _ = saw_write;
    assert_eq!(visualizer.numbers().to_vec(), (1..=10).collect::<Vec<u16>>());
}

#[test]
fn stop_restores_ordered_numbers() {
    let mut visualizer = AlgorithmVisualizer::default();
    visualizer.toggle_running();
    visualizer.frame(true);
    visualizer.apply_pending();
    visualizer.stop();
    assert_eq!(visualizer.state(), SortingState::Idle);
    assert_eq!(visualizer.numbers().to_vec(), (1..=100).collect::<Vec<u16>>());
    assert_eq!(visualizer.active_elements(), (None, None));
}

#[test]
fn stop_when_idle_does_nothing() {
    let mut visualizer = AlgorithmVisualizer::default();
    let before = visualizer.numbers().to_vec();
    visualizer.stop();
    assert_eq!(visualizer.numbers().to_vec(), before);
}

#[test]
fn count_changes_only_when_idle() {
    let mut visualizer = AlgorithmVisualizer::default();
    visualizer.set_count(25);
    assert_eq!(visualizer.count(), 25);
    assert_eq!(visualizer.numbers().to_vec(), (1..=25).collect::<Vec<u16>>());
    visualizer.toggle_running();
    visualizer.set_count(40);
    assert_eq!(visualizer.count(), 25);
}

#[test]
fn algorithm_changes_only_when_idle() {
    let mut visualizer = AlgorithmVisualizer::default();
    visualizer.toggle_running();
    visualizer.select_algorithm(Algorithm::Heap);
    assert_eq!(visualizer.algorithm(), Algorithm::Bubble);
    visualizer.stop();
    visualizer.select_algorithm(Algorithm::Heap);
    assert_eq!(visualizer.algorithm(), Algorithm::Heap);
}

#[test]
fn randomize_only_when_idle() {
    let mut visualizer = AlgorithmVisualizer::default();
    visualizer.set_count(1000);
    visualizer.toggle_running();
    visualizer.randomize();
    assert_eq!(visualizer.numbers().to_vec(), (1..=1000).collect::<Vec<u16>>());
    visualizer.stop();
    visualizer.randomize();
    let mut numbers = visualizer.numbers().to_vec();
    numbers.sort();
    assert_eq!(numbers, (1..=1000).collect::<Vec<u16>>());
}

#[test]
fn speed_sets_the_tick() {
    let mut visualizer = AlgorithmVisualizer::default();
    visualizer.set_speed(3);
    assert_eq!(visualizer.speed(), 3);
    assert_eq!(visualizer.tick_millis(), 333);
    visualizer.set_speed(100);
    assert_eq!(visualizer.tick_millis(), 10);
    visualizer.set_speed(1);
    assert_eq!(visualizer.tick_millis(), 1000);
}

#[test]
fn pending_operation_is_applied_after_drawing() {
    let mut visualizer = AlgorithmVisualizer::default();
    visualizer.set_count(10);
    visualizer.select_algorithm(Algorithm::Merge);
    visualizer.toggle_running();
    let before = visualizer.numbers().to_vec();
    assert!(visualizer.frame(true));
    // not yet applied
    assert_eq!(visualizer.numbers().to_vec(), before);
    visualizer.apply_pending();
    let mut expected = before.clone();
    let ops = Algorithm::Merge.operations(before.clone());
    ops[0].apply(&mut expected);
    assert_eq!(visualizer.numbers().to_vec(), expected);
    if let Operation::WriteValue(i, _) = ops[0] {
        assert_eq!(
            visualizer.active_elements(),
            (Some(HighlightedElement { index: i, highlight: Highlight::Written }), None)
        );
    } else {
        panic!("merge sort writes values");
    }
}

#[test]
fn set_active_elements_highlights_what_an_operation_touches() {
    let mut visualizer = AlgorithmVisualizer::default();
    visualizer.set_active_elements(Operation::CompareToValue(4));
    assert_eq!(
        visualizer.active_elements(),
        (Some(HighlightedElement { index: 4, highlight: Highlight::Compared }), None)
    );
    visualizer.set_active_elements(Operation::Write(2, 1));
    assert_eq!(
        visualizer.active_elements(),
        (
            Some(HighlightedElement { index: 2, highlight: Highlight::Written }),
            Some(HighlightedElement { index: 1, highlight: Highlight::Source }),
        )
    );
    assert_eq!(visualizer.highlight_at(1), Some(Highlight::Source));
    assert_eq!(visualizer.highlight_at(3), None);
}
