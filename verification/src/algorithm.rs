use vstd::prelude::*;

use crate::exchange::{
    bubble_sort, bubble_trace, cocktail_sort, cocktail_trace, gnome_sort, gnome_trace,
    odd_even_sort, odd_even_trace, swaps_exactly_out_of_order,
};
use crate::heap::{heap_exchanges, heap_sort, heap_trace};
use crate::insertion::{insertion_sort, insertion_trace};
use crate::key::SortKey;
use crate::merge::{merge_sort, merge_trace};
use crate::operation::Operation;
use crate::order::sorts;
use crate::quick::{exchanges_fix_inversions, quick_sort, quick_trace};
use crate::selection::{selection_sort, selection_trace, swaps_select_minimum};

verus! {

/// The sorting algorithms that can be shown.
#[derive(Clone, Copy, Debug, PartialEq, Eq, Structural)]
pub enum Algorithm {
    Bubble,
    Selection,
    Insertion,
    Merge,
    Quick,
    Heap,
    Gnome,
    Cocktail,
    OddEven,
}

/// The operation compares or exchanges two neighbouring positions.
pub open spec fn is_neighbour_exchange<T>(op: Operation<T>) -> bool {
    match op {
        Operation::Compare(i, j) => i + 1 == j || j + 1 == i,
        Operation::Swap(i, j) => i + 1 == j || j + 1 == i,
        _ => false,
    }
}

/// Every operation of `ops` is of a kind that `algorithm` performs.
pub open spec fn emits_only<T>(ops: Seq<Operation<T>>, algorithm: Algorithm) -> bool {
    forall|k: int| 0 <= k < ops.len() ==> algorithm.emits(#[trigger] ops[k])
}

impl Algorithm {
    /// The algorithm only compares and exchanges neighbours.
    pub open spec fn is_neighbour_sort(self) -> bool {
        self is Bubble || self is Gnome || self is Cocktail || self is OddEven
    }

    /// The kinds of operation that the algorithm performs.
    pub open spec fn emits<T>(self, op: Operation<T>) -> bool {
        match self {
            Algorithm::Bubble | Algorithm::Gnome | Algorithm::Cocktail | Algorithm::OddEven => {
                is_neighbour_exchange(op)
            },
            Algorithm::Selection | Algorithm::Heap => op is Compare || op is Swap,
            Algorithm::Insertion => match op {
                Operation::CompareToValue(_) => true,
                Operation::Write(i, j) => i == j + 1,
                Operation::WriteValue(_, _) => true,
                _ => false,
            },
            Algorithm::Merge => op is WriteValue,
            Algorithm::Quick => match op {
                Operation::CompareToValue(_) => true,
                Operation::Swap(i, j) => i < j,
                _ => false,
            },
        }
    }

    /// The inputs on which the algorithm finishes without a panic: heap sort computes
    /// child positions up to twice the length.
    pub open spec fn accepts<T: SortKey>(self, numbers: Seq<T>) -> bool {
        match self {
            Algorithm::Heap => numbers.len() <= usize::MAX / 2,
            _ => true,
        }
    }

    /// The name shown for the algorithm.
    pub open spec fn label(self) -> Seq<char> {
        match self {
            Algorithm::Bubble => "Bubble Sort"@,
            Algorithm::Selection => "Selection Sort"@,
            Algorithm::Insertion => "Insertion Sort"@,
            Algorithm::Merge => "Merge Sort"@,
            Algorithm::Quick => "Quick Sort"@,
            Algorithm::Heap => "Heap Sort"@,
            Algorithm::Gnome => "Gnome Sort"@,
            Algorithm::Cocktail => "Cocktail Sort"@,
            Algorithm::OddEven => "OddEven Sort"@,
        }
    }

    /// The name shown for the algorithm, such as "Bubble Sort".
    pub fn to_string(&self) -> (name: String)
        ensures
            name@ == self.label(),
    {
        match self {
            Algorithm::Bubble => "Bubble Sort".to_owned(),
            Algorithm::Selection => "Selection Sort".to_owned(),
            Algorithm::Insertion => "Insertion Sort".to_owned(),
            Algorithm::Merge => "Merge Sort".to_owned(),
            Algorithm::Quick => "Quick Sort".to_owned(),
            Algorithm::Heap => "Heap Sort".to_owned(),
            Algorithm::Gnome => "Gnome Sort".to_owned(),
            Algorithm::Cocktail => "Cocktail Sort".to_owned(),
            Algorithm::OddEven => "OddEven Sort".to_owned(),
        }
    }

    /// The operations that the algorithm performs on `numbers`, in order.
    pub open spec fn trace<T: SortKey>(self, numbers: Seq<T>) -> Seq<Operation<T>> {
        match self {
            Algorithm::Bubble => bubble_trace(numbers, 0, numbers.len() as int),
            Algorithm::Selection => selection_trace(numbers, 0, numbers.len() as int),
            Algorithm::Insertion => insertion_trace(numbers, 1, numbers.len() as int),
            Algorithm::Merge => merge_trace(numbers),
            Algorithm::Quick => quick_trace(numbers),
            Algorithm::Heap => heap_trace(numbers),
            Algorithm::Gnome => gnome_trace(numbers, 0),
            Algorithm::Cocktail => cocktail_trace(numbers, 0, numbers.len() - 1),
            Algorithm::OddEven => odd_even_trace(numbers),
        }
    }

    /// Runs the algorithm on `numbers` and returns, in order, the operations it performed.
    /// Replaying them on `numbers` sorts it.
    pub fn operations<T: SortKey>(&self, numbers: Vec<T>) -> (operations: Vec<Operation<T>>)
        requires
            self.accepts(numbers@),
        ensures
            sorts(numbers@, operations@),
            emits_only(operations@, *self),
            self.is_neighbour_sort() ==> swaps_exactly_out_of_order(numbers@, operations@),
            *self is Selection ==> swaps_select_minimum(numbers@, operations@),
            *self is Quick ==> exchanges_fix_inversions(numbers@, operations@),
            *self is Heap ==> heap_exchanges(numbers@, operations@),
            operations@ == self.trace(numbers@),
    {
        match self {
            Algorithm::Bubble => bubble_sort(numbers),
            Algorithm::Selection => selection_sort(numbers),
            Algorithm::Insertion => insertion_sort(numbers),
            Algorithm::Merge => merge_sort(numbers),
            Algorithm::Quick => quick_sort(numbers),
            Algorithm::Heap => heap_sort(numbers),
            Algorithm::Gnome => gnome_sort(numbers),
            Algorithm::Cocktail => cocktail_sort(numbers),
            Algorithm::OddEven => odd_even_sort(numbers),
        }
    }
}

} // verus!
