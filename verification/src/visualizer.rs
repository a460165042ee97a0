use vstd::prelude::*;

use crate::algorithm::{emits_only, Algorithm};
use crate::operation::{all_in_bounds, lemma_replay_len, lemma_replay_push, replay, Operation};
use crate::order::{
    law_sorted_permutation_unique, lemma_permutation_no_duplicates, permutation, sorted, sorts,
};
use crate::random::shuffle;

verus! {

/// Whether a sort is being shown.
#[derive(Clone, Copy, Debug, PartialEq, Eq, Structural)]
pub enum SortingState {
    /// Nothing is being sorted; the options can be changed.
    Idle,
    /// The operations are being shown one per tick.
    Running,
    /// A sort was started and is held.
    Paused,
}

/// How an element that takes part in the current operation is shown.
#[derive(Clone, Copy, Debug, PartialEq, Eq, Structural)]
pub enum Highlight {
    /// It is being compared.
    Compared,
    /// It is being written.
    Written,
    /// It is being copied from.
    Source,
    /// It is being exchanged.
    Swapped,
}

/// An element that takes part in the current operation.
#[derive(Clone, Copy, Debug, PartialEq, Eq, Structural)]
pub struct HighlightedElement {
    pub index: usize,
    pub highlight: Highlight,
}

/// The elements that an operation highlights, and how.
pub open spec fn highlights_of(operation: Operation<u16>) -> (
    Option<HighlightedElement>,
    Option<HighlightedElement>,
) {
    match operation {
        Operation::Compare(i, j) => (
            Some(HighlightedElement { index: i, highlight: Highlight::Compared }),
            Some(HighlightedElement { index: j, highlight: Highlight::Compared }),
        ),
        Operation::CompareToValue(i) => (
            Some(HighlightedElement { index: i, highlight: Highlight::Compared }),
            None,
        ),
        Operation::Write(i, j) => (
            Some(HighlightedElement { index: i, highlight: Highlight::Written }),
            Some(HighlightedElement { index: j, highlight: Highlight::Source }),
        ),
        Operation::WriteValue(i, _) => (
            Some(HighlightedElement { index: i, highlight: Highlight::Written }),
            None,
        ),
        Operation::Swap(i, j) => (
            Some(HighlightedElement { index: i, highlight: Highlight::Swapped }),
            Some(HighlightedElement { index: j, highlight: Highlight::Swapped }),
        ),
    }
}

/// The numbers `1 ..= count`.
pub open spec fn ascending(count: int) -> Seq<u16> {
    Seq::new(count as nat, |k: int| (k + 1) as u16)
}

/// The numbers `1 ..= count` are in order and all differ.
proof fn lemma_ascending_sorted(count: int)
    requires
        0 <= count <= u16::MAX,
    ensures
        sorted(ascending(count)),
        ascending(count).no_duplicates(),
{
}

/// The numbers `1 ..= count`, in order.
fn ascending_numbers(count: u16) -> (numbers: Vec<u16>)
    ensures
        numbers@ == ascending(count as int),
{
    let mut numbers: Vec<u16> = Vec::new();
    let mut k: u16 = 0;
    while k < count
        invariant
            k <= count,
            numbers@ == ascending(k as int),
        decreases count - k,
    {
        k = k + 1;
        numbers.push(k);
        assert(numbers@ =~= ascending(k as int));
    }
    numbers
}

/// What a visualizer holds, as plain values.
pub struct VisualizerModel {
    pub count: u16,
    pub state: SortingState,
    pub algorithm: Algorithm,
    pub speed: u8,
    pub tick_millis: u64,
    pub numbers: Seq<u16>,
    pub active_elements: (Option<HighlightedElement>, Option<HighlightedElement>),
    /// The operations of the current sort.
    pub operations: Seq<Operation<u16>>,
    /// How many of them have been taken.
    pub next: int,
    /// The operation taken in this frame, shown and not yet applied.
    pub pending: Option<Operation<u16>>,
    /// The numbers when the current sort's operations were made.
    pub start: Seq<u16>,
}

/// The state behind the sorting visualizer: the numbers shown, the options, and the sort
/// being shown, one operation per tick.
pub struct AlgorithmVisualizer {
    count: u16,
    state: SortingState,
    algorithm: Algorithm,
    speed: u8,
    tick_millis: u64,
    numbers: Vec<u16>,
    active_elements: (Option<HighlightedElement>, Option<HighlightedElement>),
    operations: Vec<Operation<u16>>,
    next: usize,
    pending: Option<Operation<u16>>,
    start: Ghost<Seq<u16>>,
}

impl View for AlgorithmVisualizer {
    type V = VisualizerModel;

    closed spec fn view(&self) -> VisualizerModel {
        VisualizerModel {
            count: self.count,
            state: self.state,
            algorithm: self.algorithm,
            speed: self.speed,
            tick_millis: self.tick_millis,
            numbers: self.numbers@,
            active_elements: self.active_elements,
            operations: self.operations@,
            next: self.next as int,
            pending: self.pending,
            start: self.start@,
        }
    }
}

impl VisualizerModel {
    /// How many operations of the current sort have been applied to the numbers.
    pub open spec fn applied(self) -> int {
        if self.pending is Some {
            self.next - 1
        } else {
            self.next
        }
    }

    /// The operations were made for the numbers as they are now, and none has been taken.
    pub open spec fn fresh_sort(self) -> bool {
        &&& self.start == self.numbers
        &&& self.operations == self.algorithm.trace(self.numbers)
        &&& sorts(self.numbers, self.operations)
        &&& emits_only(self.operations, self.algorithm)
        &&& self.next == 0
        &&& self.pending is None
    }

    /// The visualizer's invariant.
    pub open spec fn wf(self) -> bool {
        &&& 10 <= self.count <= 1000
        &&& 1 <= self.speed <= 100
        &&& self.tick_millis == 1000int / (self.speed as int)
        &&& self.start.len() == self.count
        &&& self.start.no_duplicates()
        &&& permutation(self.start, ascending(self.count as int))
        &&& self.operations == self.algorithm.trace(self.start)
        &&& sorts(self.start, self.operations)
        &&& emits_only(self.operations, self.algorithm)
        &&& 0 <= self.next <= self.operations.len()
        &&& self.pending is Some ==> self.next >= 1 && self.pending == Some(
            self.operations[self.next - 1],
        )
        &&& self.numbers == replay(self.start, self.operations.take(self.applied()))
        &&& self.state is Idle ==> self.next == 0 && self.pending is None
        &&& !(self.active_elements.0 is None && self.active_elements.1 is Some)
    }
}

impl AlgorithmVisualizer {
    /// The visualizer's invariant.
    pub open spec fn wf(&self) -> bool {
        self@.wf()
    }

    /// Makes the operations of the current algorithm for the numbers as they are now.
    fn reset_operations(&mut self)
        requires
            old(self)@.numbers.len() == old(self)@.count,
            10 <= old(self)@.count <= 1000,
        ensures
            final(self)@ == (VisualizerModel {
                operations: final(self)@.operations,
                next: 0,
                pending: None,
                start: old(self)@.numbers,
                ..old(self)@
            }),
            final(self)@.fresh_sort(),
    {
        self.operations = self.algorithm.operations(self.numbers.clone());
        self.next = 0;
        self.pending = None;
        self.start = Ghost(self.numbers@);
    }

    /// Shows what `operation` touches: one or two elements, never a second one without a
    /// first.
    pub fn set_active_elements(&mut self, operation: Operation<u16>)
        requires
            old(self).wf(),
        ensures
            final(self).wf(),
            final(self)@ == (VisualizerModel {
                active_elements: highlights_of(operation),
                ..old(self)@
            }),
            final(self)@.active_elements.0 is Some,
    {
        self.active_elements = match operation {
            Operation::Compare(i, j) => (
                Some(HighlightedElement { index: i, highlight: Highlight::Compared }),
                Some(HighlightedElement { index: j, highlight: Highlight::Compared }),
            ),
            Operation::CompareToValue(i) => (
                Some(HighlightedElement { index: i, highlight: Highlight::Compared }),
                None,
            ),
            Operation::Write(i, j) => (
                Some(HighlightedElement { index: i, highlight: Highlight::Written }),
                Some(HighlightedElement { index: j, highlight: Highlight::Source }),
            ),
            Operation::WriteValue(i, _) => (
                Some(HighlightedElement { index: i, highlight: Highlight::Written }),
                None,
            ),
            Operation::Swap(i, j) => (
                Some(HighlightedElement { index: i, highlight: Highlight::Swapped }),
                Some(HighlightedElement { index: j, highlight: Highlight::Swapped }),
            ),
        };
    }

    /// Chooses the algorithm. It can be chosen only while nothing is being sorted; a
    /// different algorithm makes its operations for the numbers.
    pub fn select_algorithm(&mut self, algorithm: Algorithm)
        requires
            old(self).wf(),
        ensures
            final(self).wf(),
            if old(self)@.state is Idle && algorithm != old(self)@.algorithm {
                &&& final(self)@ == (VisualizerModel {
                    algorithm,
                    operations: final(self)@.operations,
                    ..old(self)@
                })
                &&& final(self)@.fresh_sort()
            } else {
                final(self)@ == old(self)@
            },
    {
        if self.state == SortingState::Idle && algorithm != self.algorithm {
            self.algorithm = algorithm;
            self.reset_operations();
        }
    }

    /// Puts the numbers in a random order. It can be done only while nothing is being
    /// sorted; the operations are made for the new order.
    pub fn randomize(&mut self)
        requires
            old(self).wf(),
        ensures
            final(self).wf(),
            if old(self)@.state is Idle {
                &&& final(self)@ == (VisualizerModel {
                    numbers: final(self)@.numbers,
                    operations: final(self)@.operations,
                    start: final(self)@.numbers,
                    ..old(self)@
                })
                &&& permutation(final(self)@.numbers, old(self)@.numbers)
                &&& final(self)@.fresh_sort()
            } else {
                final(self)@ == old(self)@
            },
    {
        if self.state == SortingState::Idle {
            let ghost before = self.numbers@;
            shuffle(&mut self.numbers);
            proof {
                before.to_multiset_ensures();
                self.numbers@.to_multiset_ensures();
                lemma_permutation_no_duplicates(before, self.numbers@);
            }
            self.reset_operations();
        }
    }

    /// The sort / pause / resume button: pauses a running sort, and otherwise starts or
    /// resumes one.
    pub fn toggle_running(&mut self)
        requires
            old(self).wf(),
        ensures
            final(self).wf(),
            final(self)@ == (VisualizerModel {
                state: if old(self)@.state is Running {
                    SortingState::Paused
                } else {
                    SortingState::Running
                },
                ..old(self)@
            }),
    {
        if self.state == SortingState::Running {
            self.state = SortingState::Paused;
        } else {
            self.state = SortingState::Running;
        }
    }

    /// Stops a sort that was started: the numbers go back to `1 ..= count` in order and
    /// the operations are made for them. Nothing happens while nothing is being sorted.
    pub fn stop(&mut self)
        requires
            old(self).wf(),
        ensures
            final(self).wf(),
            if !(old(self)@.state is Idle) {
                &&& final(self)@ == (VisualizerModel {
                    state: SortingState::Idle,
                    numbers: ascending(old(self)@.count as int),
                    active_elements: (None, None),
                    operations: final(self)@.operations,
                    next: 0,
                    pending: None,
                    start: ascending(old(self)@.count as int),
                    ..old(self)@
                })
                &&& final(self)@.fresh_sort()
            } else {
                final(self)@ == old(self)@
            },
    {
        if self.state != SortingState::Idle {
            self.state = SortingState::Idle;
            self.numbers = ascending_numbers(self.count);
            self.active_elements = (None, None);
            self.reset_operations();
        }
    }

    /// Sets how many numbers there are. It can be changed only while nothing is being
    /// sorted; a new count puts the numbers `1 ..= count` in order and makes the
    /// operations for them.
    pub fn set_count(&mut self, count: u16)
        requires
            old(self).wf(),
            10 <= count <= 1000,
        ensures
            final(self).wf(),
            if old(self)@.state is Idle && count != old(self)@.count {
                &&& final(self)@ == (VisualizerModel {
                    count,
                    numbers: ascending(count as int),
                    operations: final(self)@.operations,
                    start: ascending(count as int),
                    ..old(self)@
                })
                &&& final(self)@.fresh_sort()
            } else {
                final(self)@ == old(self)@
            },
    {
        if self.state == SortingState::Idle && count != self.count {
            self.count = count;
            self.numbers = ascending_numbers(count);
            self.reset_operations();
        }
    }

    /// Sets how many operations are shown per second, and with it the tick.
    pub fn set_speed(&mut self, speed: u8)
        requires
            old(self).wf(),
            1 <= speed <= 100,
        ensures
            final(self).wf(),
            final(self)@ == (VisualizerModel {
                speed,
                tick_millis: (1000int / (speed as int)) as u64,
                ..old(self)@
            }),
    {
        self.speed = speed;
        self.tick_millis = 1000 / speed as u64;
    }

    /// One frame of the display: while a sort runs and a tick has passed since the last
    /// step, takes the next operation and highlights what it touches; it is applied by
    /// `apply_pending` once the numbers have been drawn. When no operation is left the
    /// sort ends: nothing is highlighted and the operations are made anew for the sorted
    /// numbers. Returns whether a step was taken, after which the next tick starts.
    pub fn frame(&mut self, tick_elapsed: bool) -> (stepped: bool)
        requires
            old(self).wf(),
            old(self)@.pending is None,
        ensures
            final(self).wf(),
            stepped == (old(self)@.state is Running && tick_elapsed),
            !stepped ==> final(self)@ == old(self)@,
            stepped && old(self)@.next < old(self)@.operations.len() ==> final(self)@ == (
            VisualizerModel {
                active_elements: highlights_of(old(self)@.operations[old(self)@.next]),
                next: old(self)@.next + 1,
                pending: Some(old(self)@.operations[old(self)@.next]),
                ..old(self)@
            }),
            stepped && old(self)@.next == old(self)@.operations.len() ==> {
                &&& old(self)@.numbers == ascending(old(self)@.count as int)
                &&& final(self)@ == (VisualizerModel {
                    state: SortingState::Idle,
                    active_elements: (None, None),
                    operations: final(self)@.operations,
                    next: 0,
                    start: old(self)@.numbers,
                    ..old(self)@
                })
                &&& final(self)@.fresh_sort()
            },
    {
        if self.state == SortingState::Running && tick_elapsed {
            if self.next < self.operations.len() {
                let operation = self.operations[self.next];
                self.next = self.next + 1;
                self.pending = Some(operation);
                self.set_active_elements(operation);
            } else {
                let ghost start = self.start@;
                proof {
                    assert(self.operations@.take(self.operations@.len() as int)
                        =~= self.operations@);
                    lemma_replay_len(start, self.operations@);
                    lemma_permutation_no_duplicates(start, self.numbers@);
                    lemma_ascending_sorted(self.count as int);
                    law_sorted_permutation_unique(self.numbers@, ascending(self.count as int));
                }
                self.state = SortingState::Idle;
                self.reset_operations();
                self.active_elements = (None, None);
            }
            true
        } else {
            false
        }
    }

    /// Applies the operation taken in this frame, if one was taken.
    pub fn apply_pending(&mut self)
        requires
            old(self).wf(),
        ensures
            final(self).wf(),
            match old(self)@.pending {
                Some(operation) => final(self)@ == (VisualizerModel {
                    numbers: operation.effect(old(self)@.numbers),
                    pending: None,
                    ..old(self)@
                }),
                None => final(self)@ == old(self)@,
            },
    {
        if let Some(operation) = self.pending {
            let ghost ops = self.operations@;
            let ghost k = self.next - 1;
            proof {
                assert(ops.take(k + 1) =~= ops.take(k).push(ops[k]));
                lemma_replay_push(self.start@, ops.take(k), ops[k]);
                let n = self.start@.len() as int;
                let done = ops.take(k);
                assert(all_in_bounds(done, n)) by {
                    assert forall|t: int| 0 <= t < done.len() implies (#[trigger] done[t]).in_bounds(
                        n,
                    ) by {
                        assert(done[t] == ops[t]);
                    }
                }
                lemma_replay_len(self.start@, ops.take(k));
                assert(ops[k].in_bounds(self.start@.len() as int));
            }
            operation.apply(self.numbers.as_mut_slice());
            self.pending = None;
        }
    }
}

/// How the element at `index` is shown given the highlighted elements: as the first
/// highlighted element if it is at `index`, else as the second.
pub open spec fn highlight_at_index(
    active: (Option<HighlightedElement>, Option<HighlightedElement>),
    index: usize,
) -> Option<Highlight> {
    match active {
        (Some(first), Some(second)) => if first.index == index {
            Some(first.highlight)
        } else if second.index == index {
            Some(second.highlight)
        } else {
            None
        },
        (Some(first), None) => if first.index == index {
            Some(first.highlight)
        } else {
            None
        },
        _ => None,
    }
}

/// Every position that an operation names is highlighted, and no other: both positions
/// of a comparison as compared, both positions of an exchange as exchanged, the target of
/// a write as written and the position it copies from as its source.
pub proof fn law_highlights_name_the_operation(operation: Operation<u16>, index: usize)
    ensures
        highlight_at_index(highlights_of(operation), index) == match operation {
            Operation::Compare(i, j) => if index == i || index == j {
                Some(Highlight::Compared)
            } else {
                None
            },
            Operation::CompareToValue(i) => if index == i {
                Some(Highlight::Compared)
            } else {
                None
            },
            Operation::Write(i, j) => if index == i {
                Some(Highlight::Written)
            } else if index == j {
                Some(Highlight::Source)
            } else {
                None
            },
            Operation::WriteValue(i, _) => if index == i {
                Some(Highlight::Written)
            } else {
                None
            },
            Operation::Swap(i, j) => if index == i || index == j {
                Some(Highlight::Swapped)
            } else {
                None
            },
        },
{
}

impl AlgorithmVisualizer {
    /// How the element at `index` is to be drawn: with the highlight of the current
    /// operation that touches it, if one does.
    pub fn highlight_at(&self, index: usize) -> (highlight: Option<Highlight>)
        requires
            self.wf(),
        ensures
            highlight == highlight_at_index(self@.active_elements, index),
    {
        match self.active_elements {
            (Some(first), Some(second)) => {
                if first.index == index {
                    Some(first.highlight)
                } else if second.index == index {
                    Some(second.highlight)
                } else {
                    None
                }
            },
            (Some(first), None) => {
                if first.index == index {
                    Some(first.highlight)
                } else {
                    None
                }
            },
            (None, Some(_)) => {
                proof {
                    assert(false);
                }
                None
            },
            (None, None) => None,
        }
    }

    /// Whether an operation was taken in this frame and has not been applied yet.
    pub fn has_pending(&self) -> (pending: bool)
        ensures
            pending == self@.pending is Some,
    {
        self.pending.is_some()
    }

    /// The numbers as they are to be drawn.
    pub fn numbers(&self) -> (numbers: &[u16])
        ensures
            numbers@ == self@.numbers,
    {
        self.numbers.as_slice()
    }

    /// How many numbers there are.
    pub fn count(&self) -> (count: u16)
        ensures
            count == self@.count,
    {
        self.count
    }

    /// Whether a sort is being shown.
    pub fn state(&self) -> (state: SortingState)
        ensures
            state == self@.state,
    {
        self.state
    }

    /// The chosen algorithm.
    pub fn algorithm(&self) -> (algorithm: Algorithm)
        ensures
            algorithm == self@.algorithm,
    {
        self.algorithm
    }

    /// How many operations are shown per second.
    pub fn speed(&self) -> (speed: u8)
        ensures
            speed == self@.speed,
    {
        self.speed
    }

    /// The time between two steps, in milliseconds.
    pub fn tick_millis(&self) -> (tick_millis: u64)
        ensures
            tick_millis == self@.tick_millis,
    {
        self.tick_millis
    }

    /// The elements that the current operation touches.
    pub fn active_elements(&self) -> (active: (
        Option<HighlightedElement>,
        Option<HighlightedElement>,
    ))
        ensures
            active == self@.active_elements,
    {
        self.active_elements
    }
}

impl Default for AlgorithmVisualizer {
    /// A hundred numbers in a random order, bubble sort, ten operations a second, and
    /// nothing being sorted.
    fn default() -> (visualizer: Self)
        ensures
            visualizer.wf(),
            visualizer@.count == 100,
            visualizer@.state == SortingState::Idle,
            visualizer@.algorithm == Algorithm::Bubble,
            visualizer@.speed == 10,
            visualizer@.tick_millis == 100,
            permutation(visualizer@.numbers, ascending(100)),
            visualizer@.active_elements == (
                None::<HighlightedElement>,
                None::<HighlightedElement>,
            ),
            visualizer@.fresh_sort(),
    {
        let mut numbers = ascending_numbers(100);
        let ghost sorted_numbers = numbers@;
        shuffle(&mut numbers);
        proof {
            lemma_permutation_no_duplicates(sorted_numbers, numbers@);
            numbers@.to_multiset_ensures();
            sorted_numbers.to_multiset_ensures();
        }
        let algorithm = Algorithm::Bubble;
        let operations = algorithm.operations(numbers.clone());
        let speed: u8 = 10;
        let ghost start = numbers@;
        let tick_millis = 1000 / speed as u64;
        assert(tick_millis == 100) by (nonlinear_arith)
            requires
                speed == 10,
                tick_millis == 1000u64 / (speed as u64),
        ;
        AlgorithmVisualizer {
            count: 100,
            state: SortingState::Idle,
            algorithm,
            speed,
            tick_millis,
            numbers,
            active_elements: (None, None),
            operations,
            next: 0,
            pending: None,
            start: Ghost(start),
        }
    }
}

} // verus!
