use vstd::prelude::*;

use crate::algorithm::{emits_only, Algorithm};
use crate::key::SortKey;
use crate::operation::{
    all_in_bounds, lemma_swap_positions_concat, lemma_swap_positions_none, replay, swap_positions,
    Operation,
};
use crate::order::{
    exchange, lemma_record, lemma_swap_permutation, permutation, sorted, sorts, swapped,
};

verus! {

/// Every exchange `Swap(a, b)` brings to `a` the first of the smallest elements at `a` or
/// after it, as they stand at that point of the replay.
#[verifier::opaque]
pub open spec fn swaps_select_minimum<T: SortKey>(input: Seq<T>, ops: Seq<Operation<T>>) -> bool {
    forall|k: int|
        0 <= k < ops.len() ==> match #[trigger] ops[k] {
            Operation::Swap(a, b) => first_minimum_from(
                replay(input, ops.take(k)),
                a as int,
                b as int,
            ),
            _ => true,
        }
}

/// `s[b]` is the first of the smallest elements from position `a` on.
pub open spec fn first_minimum_from<T: SortKey>(s: Seq<T>, a: int, b: int) -> bool {
    &&& 0 <= a <= b < s.len()
    &&& forall|t: int| a <= t < s.len() ==> s[b].key() <= #[trigger] s[t].key()
    &&& forall|t: int| a <= t < b ==> s[b].key() < #[trigger] s[t].key()
}

/// Recording an operation keeps every exchange a selection of the minimum, if the
/// operation is not an exchange or brings the first minimum forward.
proof fn lemma_select_step<T: SortKey>(input: Seq<T>, ops: Seq<Operation<T>>, op: Operation<T>)
    requires
        swaps_select_minimum(input, ops),
        match op {
            Operation::Swap(a, b) => first_minimum_from(replay(input, ops), a as int, b as int),
            _ => true,
        },
    ensures
        swaps_select_minimum(input, ops.push(op)),
{
    reveal(swaps_select_minimum);
    let n = ops.push(op);
    assert(n.take(ops.len() as int) =~= ops);
    assert forall|k: int| 0 <= k < n.len() implies match #[trigger] n[k] {
        Operation::Swap(a, b) => first_minimum_from(replay(input, n.take(k)), a as int, b as int),
        _ => true,
    } by {
        if k < ops.len() {
            assert(n[k] == ops[k]);
            assert(n.take(k) =~= ops.take(k));
        }
    }
}

/// Before any operation there is no exchange.
proof fn lemma_no_selection_yet<T: SortKey>(input: Seq<T>)
    ensures
        swaps_select_minimum(input, Seq::<Operation<T>>::empty()),
{
    reveal(swaps_select_minimum);
}

/// The position of the first of the smallest elements among the positions `i .. j` of
/// `s` (`i` itself when `j <= i + 1`).
pub open spec fn first_min<T: SortKey>(s: Seq<T>, i: int, j: int) -> int
    decreases j - i,
{
    if j <= i + 1 {
        i
    } else {
        let m = first_min(s, i, j - 1);
        if s[j - 1].key() < s[m].key() {
            j - 1
        } else {
            m
        }
    }
}

/// The pass of selection sort for position `i` of `s`: each later position `j` is
/// compared with the first smallest element found before it, then position `i` is
/// exchanged with the first smallest element of the positions from `i` on.
pub open spec fn selection_pass<T: SortKey>(s: Seq<T>, i: int) -> Seq<Operation<T>> {
    Seq::new(
        (s.len() - 1 - i) as nat,
        |t: int| Operation::Compare((i + 1 + t) as usize, first_min(s, i, i + 1 + t) as usize),
    ).push(Operation::Swap(i as usize, first_min(s, i, s.len() as int) as usize))
}

/// The operations of selection sort on the `n` elements of `s` from the pass for
/// position `i` on.
pub open spec fn selection_trace<T: SortKey>(s: Seq<T>, i: int, n: int) -> Seq<Operation<T>>
    decreases n - i,
{
    if i + 1 >= n {
        seq![]
    } else {
        selection_pass(s, i) + selection_trace(swapped(s, i, first_min(s, i, n)), i + 1, n)
    }
}

/// The first smallest element of `i .. j` is at a position from `i` up to `j - 1`.
proof fn lemma_first_min_bounds<T: SortKey>(s: Seq<T>, i: int, j: int)
    requires
        i < j,
    ensures
        i <= first_min(s, i, j) < j,
    decreases j - i,
{
    if j > i + 1 {
        lemma_first_min_bounds(s, i, j - 1);
    }
}

/// Selection sort makes exactly one exchange per pass, that for position `i` naming `i`
/// first, even where the smallest element is already in place: from pass `i` on, the
/// exchanges name the positions `i, i + 1, ..., n - 2` in order.
pub proof fn law_selection_swaps_once_per_position<T: SortKey>(s: Seq<T>, i: int)
    requires
        0 <= i,
        s.len() <= usize::MAX,
    ensures
        swap_positions(selection_trace(s, i, s.len() as int)) == Seq::new(
            (if i + 1 < s.len() { s.len() - 1 - i } else { 0 }) as nat,
            |k: int| i + k,
        ),
    decreases s.len() - i,
{
    let n = s.len() as int;
    if i + 1 >= n {
        assert(swap_positions(Seq::<Operation<T>>::empty()) =~= Seq::<int>::empty());
    } else {
        let m = first_min(s, i, n);
        lemma_first_min_bounds(s, i, n);
        let compares = Seq::new(
            (s.len() - 1 - i) as nat,
            |t: int| Operation::Compare((i + 1 + t) as usize, first_min(s, i, i + 1 + t) as usize),
        );
        let pass = selection_pass(s, i);
        assert(pass =~= compares.push(Operation::Swap(i as usize, m as usize)));
        lemma_swap_positions_none(compares);
        assert(pass.drop_last() =~= compares);
        assert(pass.last() == Operation::<T>::Swap(i as usize, m as usize));
        assert(swap_positions(pass) =~= seq![i]);
        let next = swapped(s, i, m);
        law_selection_swaps_once_per_position(next, i + 1);
        lemma_swap_positions_concat(pass, selection_trace(next, i + 1, n));
        assert(seq![i] + Seq::new(
            (if i + 2 < n { n - 2 - i } else { 0 }) as nat,
            |k: int| i + 1 + k,
        ) =~= Seq::new((n - 1 - i) as nat, |k: int| i + k));
    }
}

/// Selection sort: for each position from the front, finds the smallest element of the
/// rest and exchanges it into that position.
pub fn selection_sort<T: SortKey>(numbers: Vec<T>) -> (operations: Vec<Operation<T>>)
    ensures
        sorts(numbers@, operations@),
        emits_only(operations@, Algorithm::Selection),
        swaps_select_minimum(numbers@, operations@),
        operations@ == selection_trace(numbers@, 0, numbers@.len() as int),
{
    let ghost input = numbers@;
    let mut numbers = numbers;
    let mut operations: Vec<Operation<T>> = Vec::new();
    proof {
        lemma_no_selection_yet::<T>(input);
    }
    let length = numbers.len();
    if length < 2 {
        return operations;
    }
    let mut i: usize = 0;
    assert(operations@ + selection_trace(numbers@, 0, length as int) =~= selection_trace(
        input,
        0,
        length as int,
    ));
    while i < length - 1
        invariant
            length == numbers.len() == input.len(),
            length >= 2,
            i <= length - 1,
            numbers@ == replay(input, operations@),
            all_in_bounds(operations@, length as int),
            emits_only(operations@, Algorithm::Selection),
            swaps_select_minimum(input, operations@),
            operations@ + selection_trace(numbers@, i as int, length as int) == selection_trace(
                input,
                0,
                length as int,
            ),
            permutation(numbers@, input),
            forall|a: int, b: int|
                #![trigger numbers@[a], numbers@[b]]
                0 <= a < b < length && a < i ==> numbers@[a].key() <= numbers@[b].key(),
        decreases length - i,
    {
        let ghost pass_start = operations@;
        let ghost s = numbers@;
        let mut min_index: usize = i;
        let mut j: usize = i + 1;
        while j < length
            invariant
                length == numbers.len() == input.len(),
                length >= 2,
                i < length - 1,
                i <= min_index < j <= length,
                numbers@ == s,
                s.len() == length,
                min_index == first_min(s, i as int, j as int),
                operations@ == pass_start + Seq::new(
                    (j - i - 1) as nat,
                    |t: int| Operation::Compare((i + 1 + t) as usize, first_min(s, i as int, i + 1 + t) as usize),
                ),
                numbers@ == replay(input, operations@),
                all_in_bounds(operations@, length as int),
                emits_only(operations@, Algorithm::Selection),
                swaps_select_minimum(input, operations@),
                permutation(numbers@, input),
                forall|a: int, b: int|
                    #![trigger numbers@[a], numbers@[b]]
                    0 <= a < b < length && a < i ==> numbers@[a].key() <= numbers@[b].key(),
                forall|k: int|
                    i <= k < j ==> numbers@[min_index as int].key() <= #[trigger] numbers@[k].key(),
                forall|k: int|
                    i <= k < min_index ==> numbers@[min_index as int].key()
                        < #[trigger] numbers@[k].key(),
            decreases length - j,
        {
            proof {
                lemma_record(
                    input,
                    operations@,
                    Operation::Compare(j, min_index),
                    length as int,
                    Algorithm::Selection,
                );
                lemma_select_step(input, operations@, Operation::Compare(j, min_index));
            }
            operations.push(Operation::Compare(j, min_index));
            if numbers[j].less_than(&numbers[min_index]) {
                min_index = j;
            }
            j = j + 1;
            assert(operations@ =~= pass_start + Seq::new(
                (j - i - 1) as nat,
                |t: int| Operation::Compare((i + 1 + t) as usize, first_min(s, i as int, i + 1 + t) as usize),
            ));
        }
        proof {
            lemma_record(
                input,
                operations@,
                Operation::Swap(i, min_index),
                length as int,
                Algorithm::Selection,
            );
            lemma_select_step(input, operations@, Operation::Swap(i, min_index));
            lemma_swap_permutation(numbers@, i as int, min_index as int);
        }
        exchange(&mut numbers, i, min_index);
        operations.push(Operation::Swap(i, min_index));
        assert(operations@ =~= pass_start + selection_pass(s, i as int));
        i = i + 1;
    }
    operations
}

} // verus!
