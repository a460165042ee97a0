use vstd::prelude::*;
use vstd::seq_lib::lemma_multiset_commutative;

use crate::algorithm::{emits_only, Algorithm};
use crate::key::SortKey;
use crate::operation::{
    all_in_bounds, each_step, law_replay_concat, law_replay_prefix, law_replay_shifted,
    lemma_each_step_concat, lemma_each_step_push, lemma_each_step_shifted, replay, shift_all,
    Operation,
};
use crate::order::{
    copy_range, exchange, lemma_permutation_contains, lemma_record, lemma_swap_permutation,
    out_of_order, permutation, sorted, sorts, swapped,
};

verus! {

/// An exchange meets its two elements out of order.
pub open spec fn fixes_inversion<T: SortKey>(s: Seq<T>, op: Operation<T>) -> bool {
    match op {
        Operation::Swap(i, j) => out_of_order(s, i, j),
        _ => true,
    }
}

/// `fixes_inversion`, as a predicate on steps.
pub open spec fn inversion_fixing<T: SortKey>() -> spec_fn(Seq<T>, Operation<T>) -> bool {
    |s: Seq<T>, op: Operation<T>| fixes_inversion(s, op)
}

/// Every exchange, when `ops` is replayed on `input`, meets its two elements out of order.
#[verifier::opaque]
pub open spec fn exchanges_fix_inversions<T: SortKey>(
    input: Seq<T>,
    ops: Seq<Operation<T>>,
) -> bool {
    each_step(input, ops, inversion_fixing())
}

/// Before any operation there is no exchange.
proof fn lemma_no_exchange_yet<T: SortKey>(input: Seq<T>)
    ensures
        exchanges_fix_inversions(input, Seq::<Operation<T>>::empty()),
{
    reveal(exchanges_fix_inversions);
}

/// Recording a comparison, or an exchange that meets an out-of-order pair.
proof fn lemma_fixing_push<T: SortKey>(input: Seq<T>, ops: Seq<Operation<T>>, op: Operation<T>)
    requires
        exchanges_fix_inversions(input, ops),
        fixes_inversion(replay(input, ops), op),
    ensures
        exchanges_fix_inversions(input, ops.push(op)),
{
    reveal(exchanges_fix_inversions);
    lemma_each_step_push(input, ops, op, inversion_fixing());
}

/// Whether an exchange meets an out-of-order pair depends only on the two elements, so
/// it carries over from a stretch to the whole sequence.
proof fn lemma_inversion_fixing_shifts<T: SortKey>(n: int, k: int, m: int)
    requires
        0 <= k,
        0 <= m,
        k + m <= n <= usize::MAX,
    ensures
        forall|full: Seq<T>, op: Operation<T>|
            full.len() == n && op.in_bounds(m) && inversion_fixing()(full.subrange(k, k + m), op)
                ==> #[trigger] inversion_fixing()(full, op.shifted(k)),
{
    assert forall|full: Seq<T>, op: Operation<T>|
        full.len() == n && op.in_bounds(m) && inversion_fixing()(full.subrange(k, k + m), op)
            implies #[trigger] inversion_fixing()(full, op.shifted(k)) by {
        if let Operation::Swap(i, j) = op {
            assert(full.subrange(k, k + m)[i as int] == full[i + k]);
            assert(full.subrange(k, k + m)[j as int] == full[j + k]);
        }
    }
}

/// The steps of a sort of the first `p` elements keep meeting out-of-order pairs when
/// they are replayed on the whole sequence.
proof fn lemma_left_steps<T: SortKey>(s: Seq<T>, ops: Seq<Operation<T>>, p: int)
    requires
        0 <= p <= s.len() <= usize::MAX,
        all_in_bounds(ops, p),
        each_step(s.take(p), ops, inversion_fixing()),
    ensures
        each_step(s, ops, inversion_fixing()),
{
    lemma_inversion_fixing_shifts::<T>(s.len() as int, 0, p);
    assert(s.subrange(0, p) =~= s.take(p));
    lemma_each_step_shifted(s, ops, 0, p, inversion_fixing());
    assert forall|t: int| 0 <= t < ops.len() implies #[trigger] shift_all(ops, 0)[t] == ops[t] by {
        assert(ops[t].in_bounds(p));
    }
    assert(shift_all(ops, 0) =~= ops);
}

/// The steps of a sort of the elements after position `p`, moved up past it, keep
/// meeting out-of-order pairs when they are replayed on the whole sequence.
proof fn lemma_right_steps<T: SortKey>(s: Seq<T>, ops: Seq<Operation<T>>, p: int)
    requires
        0 <= p < s.len() <= usize::MAX,
        all_in_bounds(ops, s.len() - p - 1),
        each_step(s.skip(p + 1), ops, inversion_fixing()),
    ensures
        each_step(s, shift_all(ops, p + 1), inversion_fixing()),
{
    let length = s.len() as int;
    lemma_inversion_fixing_shifts::<T>(length, p + 1, length - p - 1);
    assert(s.subrange(p + 1, length) =~= s.skip(p + 1));
    lemma_each_step_shifted(s, ops, p + 1, length - p - 1, inversion_fixing());
}

/// The exchanges of a quick sort meet out-of-order pairs if those of its partition and of
/// its two recursive sorts do.
proof fn lemma_quick_steps<T: SortKey>(
    input: Seq<T>,
    partition_operations: Seq<Operation<T>>,
    partitioned: Seq<T>,
    left_operations: Seq<Operation<T>>,
    right_operations: Seq<Operation<T>>,
    left_sorted: Seq<T>,
    p: int,
)
    requires
        0 <= p < partitioned.len() <= usize::MAX,
        exchanges_fix_inversions(input, partition_operations),
        replay(input, partition_operations) == partitioned,
        all_in_bounds(left_operations, p),
        all_in_bounds(right_operations, partitioned.len() - p - 1),
        exchanges_fix_inversions(partitioned.take(p), left_operations),
        replay(partitioned.take(p), left_operations) == left_sorted,
        left_sorted.len() == p,
        exchanges_fix_inversions(partitioned.skip(p + 1), right_operations),
    ensures
        exchanges_fix_inversions(
            input,
            partition_operations + left_operations + shift_all(right_operations, p + 1),
        ),
{
    reveal(exchanges_fix_inversions);
    lemma_left_steps(partitioned, left_operations, p);
    lemma_each_step_concat(input, partition_operations, left_operations, inversion_fixing());
    law_replay_concat(input, partition_operations, left_operations);
    law_replay_prefix(partitioned, left_operations, p);
    let q = replay(input, partition_operations + left_operations);
    assert(q.skip(p + 1) =~= partitioned.skip(p + 1));
    lemma_right_steps(q, right_operations, p);
    lemma_each_step_concat(
        input,
        partition_operations + left_operations,
        shift_all(right_operations, p + 1),
        inversion_fixing(),
    );
}

/// The first position from `i` on whose element is not below the key `pk` (the length
/// of `s` if there is none).
pub open spec fn scan_up<T: SortKey>(s: Seq<T>, pk: int, i: int) -> int
    decreases s.len() - i,
{
    if i < 0 || i >= s.len() || s[i].key() >= pk {
        i
    } else {
        scan_up(s, pk, i + 1)
    }
}

/// The last position from `j` down whose element is not above the key `pk` (minus one if
/// there is none).
pub open spec fn scan_down<T: SortKey>(s: Seq<T>, pk: int, j: int) -> int
    decreases j + 1,
{
    if j < 0 || j >= s.len() || s[j].key() <= pk {
        j
    } else {
        scan_down(s, pk, j - 1)
    }
}

/// The comparisons with the pivot of the positions from `a` up to `b - 1`.
pub open spec fn compares_up<T>(a: int, b: int) -> Seq<Operation<T>> {
    Seq::new((b - a) as nat, |t: int| Operation::CompareToValue((a + t) as usize))
}

/// The comparisons with the pivot of the positions from `a` down to `b + 1`.
pub open spec fn compares_down<T>(a: int, b: int) -> Seq<Operation<T>> {
    Seq::new((a - b) as nat, |t: int| Operation::CompareToValue((a - t) as usize))
}

/// Scanning up stays at or after its start, and stops on an element not below `pk`.
pub proof fn lemma_scan_up<T: SortKey>(s: Seq<T>, pk: int, i: int)
    requires
        0 <= i,
    ensures
        i <= scan_up(s, pk, i),
        scan_up(s, pk, i) < s.len() ==> s[scan_up(s, pk, i)].key() >= pk,
    decreases s.len() - i,
{
    if i < s.len() && s[i].key() < pk {
        lemma_scan_up(s, pk, i + 1);
    }
}

/// Scanning down stays at or before its start, and stops on an element not above `pk`.
pub proof fn lemma_scan_down<T: SortKey>(s: Seq<T>, pk: int, j: int)
    requires
        j < s.len(),
    ensures
        scan_down(s, pk, j) <= j,
        0 <= scan_down(s, pk, j) ==> s[scan_down(s, pk, j)].key() <= pk,
    decreases j + 1,
{
    if 0 <= j && s[j].key() > pk {
        lemma_scan_down(s, pk, j - 1);
    }
}

/// The partition of `s` around the key `pk` with the scanners at `i` and `j`: the lower
/// scanner moves up past the elements below `pk`, the upper one down past the elements
/// above it, each element passed being compared with the pivot; if the scanners have
/// not met, the elements on which they stopped are exchanged and the partition goes on
/// from there; where those two elements are equal (both equal to the pivot), nothing is
/// exchanged and the lower scanner steps past its element. The result holds the
/// operations, the sequence after them, and the position where the upper scanner ended,
/// that of the pivot.
pub open spec fn partition_trace<T: SortKey>(s: Seq<T>, pk: int, i: int, j: int) -> (
    Seq<Operation<T>>,
    Seq<T>,
    int,
)
    decreases
            (if 0 <= i <= j < s.len() {
                2 * (j - i) + (if s[i].key() < pk || s[j].key() > pk {
                    0int
                } else {
                    1int
                })
            } else {
                0int
            }),
{
    if i < 0 || j >= s.len() || j < i {
        (seq![], s, j)
    } else {
        let up = scan_up(s, pk, i);
        let down = scan_down(s, pk, j);
        let scans = compares_up(i, up) + compares_down(j, down);
        if up >= down {
            (scans, s, down)
        } else if s[up].key() == s[down].key() {
            proof {
                lemma_scan_up(s, pk, i);
                lemma_scan_down(s, pk, j);
            }
            let rest = partition_trace(s, pk, up + 1, down);
            (scans + rest.0, rest.1, rest.2)
        } else {
            proof {
                lemma_scan_up(s, pk, i);
                lemma_scan_down(s, pk, j);
            }
            let rest = partition_trace(swapped(s, up, down), pk, up, down);
            (scans + seq![Operation::Swap(up as usize, down as usize)] + rest.0, rest.1, rest.2)
        }
    }
}

/// The operations of quick sort on `s`: the partition around the key of the middle
/// element (the lower middle for an even length), then the sort of the part before the
/// pivot and that of the part after it, moved up past the pivot. (The pivot always ends
/// inside the sequence; the last branch only keeps the definition total.)
pub open spec fn quick_trace<T: SortKey>(s: Seq<T>) -> Seq<Operation<T>>
    decreases s.len(),
{
    if s.len() < 2 {
        seq![]
    } else {
        let part = partition_trace(s, s[(s.len() - 1) / 2].key(), 0, s.len() - 1);
        let p = part.2;
        if 0 <= p < s.len() && part.1.len() == s.len() {
            part.0 + quick_trace(part.1.take(p)) + shift_all(
                quick_trace(part.1.skip(p + 1)),
                p + 1,
            )
        } else {
            part.0
        }
    }
}

/// Quick sort of the whole of `numbers`: partitions around the middle element (moving
/// scanners in from both ends and exchanging the elements on which they stop), which
/// leaves that element in its final place, then sorts the parts before and after it.
/// The operations of the part after it are moved up past the pivot's position.
///
/// Where both scanners stop on elements equal to the pivot, the lower scanner steps past
/// its element without an exchange, so repeated elements do not hold the partition up.
#[verifier::rlimit(60)]
#[verifier::spinoff_prover]
pub fn quick_sort_inner<T: SortKey>(numbers: &mut Vec<T>) -> (operations: Vec<Operation<T>>)
    ensures
        final(numbers)@.len() == old(numbers)@.len(),
        all_in_bounds(operations@, old(numbers)@.len() as int),
        emits_only(operations@, Algorithm::Quick),
        exchanges_fix_inversions(old(numbers)@, operations@),
        final(numbers)@ == replay(old(numbers)@, operations@),
        sorted(final(numbers)@),
        permutation(final(numbers)@, old(numbers)@),
        operations@ == quick_trace(old(numbers)@),
    decreases old(numbers)@.len(),
{
    let ghost input = numbers@;
    let mut operations: Vec<Operation<T>> = Vec::new();
    proof {
        lemma_no_exchange_yet::<T>(input);
    }
    let length = numbers.len();
    if length < 2 {
        return operations;
    }
    let pivot_element = numbers[(length - 1) / 2];
    let ghost pk = pivot_element.key();
    let mut i: usize = 0;
    let mut j: usize = length - 1;
    let ghost mut m: int = ((length - 1) / 2) as int;
    let ghost target = partition_trace(input, pk, 0, length - 1);
    proof {
        assert(operations@ + target.0 =~= target.0);
    }
    let mut done = false;
    while !done
        invariant
            target == partition_trace(input, pk, 0, length - 1),
            !done ==> target.0 == operations@ + partition_trace(
                numbers@,
                pk,
                i as int,
                j as int,
            ).0,
            !done ==> target.1 == partition_trace(numbers@, pk, i as int, j as int).1,
            !done ==> target.2 == partition_trace(numbers@, pk, i as int, j as int).2,
            done ==> target.0 == operations@ && target.1 == numbers@ && target.2 == j,
            length == numbers.len() == input.len(),
            length >= 2,
            numbers@ == replay(input, operations@),
            all_in_bounds(operations@, length as int),
            emits_only(operations@, Algorithm::Quick),
            exchanges_fix_inversions(input, operations@),
            permutation(numbers@, input),
            i <= m <= j < length,
            numbers@[m].key() == pk,
            pk == pivot_element.key(),
            done ==> i == j,
            forall|k: int| 0 <= k < i ==> #[trigger] numbers@[k].key() <= pk,
            forall|k: int| j < k < length ==> #[trigger] numbers@[k].key() >= pk,
        decreases
            if done {
                0int
            } else {
                2 * (j - i) + (if numbers@[i as int].key() < pk || numbers@[j as int].key() > pk {
                    0int
                } else {
                    1int
                }) + 1
            },
    {
        let ghost head = numbers@;
        let ghost round_ops = operations@;
        let ghost i0 = i as int;
        let ghost j0 = j as int;
        proof {
            assert(operations@ + compares_up::<T>(i0, i as int) =~= operations@);
        }
        while numbers[i].less_than(&pivot_element)
            invariant
                i0 <= i,
                operations@ == round_ops + compares_up::<T>(i0, i as int),
                scan_up(head, pk, i0) == scan_up(head, pk, i as int),
                length == numbers.len() == input.len(),
                numbers@ == head,
                numbers@ == replay(input, operations@),
                all_in_bounds(operations@, length as int),
                emits_only(operations@, Algorithm::Quick),
                exchanges_fix_inversions(input, operations@),
                i <= m <= j < length,
                numbers@[m].key() == pk,
                pk == pivot_element.key(),
                forall|k: int| 0 <= k < i ==> #[trigger] numbers@[k].key() <= pk,
            decreases m - i,
        {
            proof {
                lemma_record(
                    input,
                    operations@,
                    Operation::CompareToValue(i),
                    length as int,
                    Algorithm::Quick,
                );
                lemma_fixing_push(input, operations@, Operation::CompareToValue(i));
            }
            operations.push(Operation::CompareToValue(i));
            proof {
                assert(compares_up::<T>(i0, i + 1) =~= compares_up::<T>(i0, i as int).push(
                    Operation::CompareToValue(i),
                ));
            }
            i = i + 1;
        }
        let ghost up_ops = operations@;
        proof {
            assert(operations@ + compares_down::<T>(j0, j as int) =~= operations@);
        }
        while pivot_element.less_than(&numbers[j])
            invariant
                j <= j0,
                operations@ == up_ops + compares_down::<T>(j0, j as int),
                scan_down(head, pk, j0) == scan_down(head, pk, j as int),
                length == numbers.len() == input.len(),
                numbers@ == head,
                numbers@ == replay(input, operations@),
                all_in_bounds(operations@, length as int),
                emits_only(operations@, Algorithm::Quick),
                exchanges_fix_inversions(input, operations@),
                i <= m <= j < length,
                numbers@[m].key() == pk,
                pk == pivot_element.key(),
                forall|k: int| j < k < length ==> #[trigger] numbers@[k].key() >= pk,
            decreases j - m,
        {
            proof {
                lemma_record(
                    input,
                    operations@,
                    Operation::CompareToValue(j),
                    length as int,
                    Algorithm::Quick,
                );
                lemma_fixing_push(input, operations@, Operation::CompareToValue(j));
            }
            operations.push(Operation::CompareToValue(j));
            proof {
                assert(compares_down::<T>(j0, j - 1) =~= compares_down::<T>(j0, j as int).push(
                    Operation::CompareToValue(j),
                ));
            }
            j = j - 1;
        }
        proof {
            let scans = compares_up::<T>(i0, i as int) + compares_down::<T>(j0, j as int);
            assert(operations@ =~= round_ops + scans);
        }
        if i >= j {
            done = true;
        } else if !numbers[j].less_than(&numbers[i]) {
            proof {
                let scans = compares_up::<T>(i0, i as int) + compares_down::<T>(j0, j as int);
                let rest = partition_trace(head, pk, i + 1, j as int);
                assert(round_ops + (scans + rest.0) =~= operations@ + rest.0);
                m = j as int;
            }
            i = i + 1;
        } else {
            proof {
                lemma_record(
                    input,
                    operations@,
                    Operation::Swap(i, j),
                    length as int,
                    Algorithm::Quick,
                );
                lemma_fixing_push(input, operations@, Operation::Swap(i, j));
                lemma_swap_permutation(numbers@, i as int, j as int);
                let scans = compares_up::<T>(i0, i as int) + compares_down::<T>(j0, j as int);
                let rest = partition_trace(swapped(head, i as int, j as int), pk, i as int, j as int);
                assert(round_ops + (scans + seq![Operation::Swap(i, j)] + rest.0) =~= operations@.push(
                    Operation::Swap(i, j),
                ) + rest.0);
            }
            exchange(numbers, i, j);
            operations.push(Operation::Swap(i, j));
            proof {
                if m == i {
                    m = j as int;
                } else if m == j {
                    m = i as int;
                }
            }
        }
    }
    let pivot_index = j;
    let ghost partition_operations = operations@;
    let ghost partitioned = numbers@;
    assert(input[((length - 1) / 2) as int].key() == pk);
    let mut left = copy_range(numbers, 0, pivot_index);
    let ghost left_input = left@;
    let left_operations = quick_sort_inner(&mut left);
    let mut t: usize = 0;
    while t < left_operations.len()
        invariant
            pivot_index < length,
            t <= left_operations.len(),
            operations@ == partition_operations + left_operations@.take(t as int),
            all_in_bounds(left_operations@, pivot_index as int),
            emits_only(left_operations@, Algorithm::Quick),
            all_in_bounds(operations@, length as int),
            emits_only(operations@, Algorithm::Quick),
        decreases left_operations.len() - t,
    {
        let op = left_operations[t];
        proof {
            assert(left_operations@[t as int].in_bounds(pivot_index as int));
            assert(Algorithm::Quick.emits(left_operations@[t as int]));
            lemma_record(input, operations@, op, length as int, Algorithm::Quick);
        }
        operations.push(op);
        t = t + 1;
        assert(operations@ =~= partition_operations + left_operations@.take(t as int));
    }
    assert(left_operations@.take(left_operations@.len() as int) =~= left_operations@);
    let ghost before_right = operations@;
    let shift = pivot_index + 1;
    let mut right = copy_range(numbers, shift, length);
    let ghost right_input = right@;
    let right_operations = quick_sort_inner(&mut right);
    let mut t: usize = 0;
    while t < right_operations.len()
        invariant
            shift <= length,
            t <= right_operations.len(),
            operations@ == before_right + shift_all(right_operations@, shift as int).take(t as int),
            all_in_bounds(right_operations@, length - shift),
            emits_only(right_operations@, Algorithm::Quick),
            all_in_bounds(operations@, length as int),
            emits_only(operations@, Algorithm::Quick),
        decreases right_operations.len() - t,
    {
        let mut op = right_operations[t];
        assert(right_operations@[t as int].in_bounds(length - shift));
        assert(Algorithm::Quick.emits(right_operations@[t as int]));
        op.shift_index(shift);
        proof {
            lemma_record(input, operations@, op, length as int, Algorithm::Quick);
        }
        operations.push(op);
        t = t + 1;
        assert(operations@ =~= before_right + shift_all(right_operations@, shift as int).take(
            t as int,
        ));
    }
    assert(shift_all(right_operations@, shift as int).take(right_operations@.len() as int)
        =~= shift_all(right_operations@, shift as int));
    let mut k: usize = 0;
    while k < pivot_index
        invariant
            length == numbers.len(),
            pivot_index < length,
            left@.len() == pivot_index,
            k <= pivot_index,
            forall|p: int| 0 <= p < k ==> #[trigger] numbers@[p] == left@[p],
            forall|p: int| k <= p < length ==> #[trigger] numbers@[p] == partitioned[p],
        decreases pivot_index - k,
    {
        numbers[k] = left[k];
        k = k + 1;
    }
    let mut k: usize = 0;
    while k < right.len()
        invariant
            length == numbers.len(),
            shift <= length,
            shift == pivot_index + 1,
            right@.len() == length - shift,
            k <= right@.len(),
            forall|p: int| 0 <= p < pivot_index ==> #[trigger] numbers@[p] == left@[p],
            numbers@[pivot_index as int] == partitioned[pivot_index as int],
            forall|p: int| 0 <= p < k ==> #[trigger] numbers@[shift + p] == right@[p],
            forall|p: int| shift + k <= p < length ==> #[trigger] numbers@[p] == partitioned[p],
        decreases right@.len() - k,
    {
        numbers[shift + k] = right[k];
        k = k + 1;
    }
    proof {
        let x = partitioned[pivot_index as int];
        let result = left@ + seq![x] + right@;
        assert(numbers@ =~= result) by {
            assert forall|p: int| 0 <= p < length implies numbers@[p] == result[p] by {
                if p < pivot_index {
                } else if p == pivot_index {
                } else {
                    assert(numbers@[shift + (p - shift)] == right@[p - shift]);
                }
            }
        }
        // what the operations make of the input
        law_replay_concat(input, partition_operations, left_operations@);
        law_replay_concat(
            input,
            partition_operations + left_operations@,
            shift_all(right_operations@, shift as int),
        );
        law_replay_prefix(partitioned, left_operations@, pivot_index as int);
        assert(partitioned.take(pivot_index as int) =~= left_input);
        let q = left@ + partitioned.skip(pivot_index as int);
        law_replay_shifted(q, right_operations@, shift as int, length - shift);
        assert(q.subrange(shift as int, length as int) =~= right_input);
        assert(q.take(shift as int) =~= left@ + seq![x]);
        assert(q.skip(length as int) =~= Seq::<T>::empty());
        assert(replay(input, operations@) =~= result);
        // the operations are those of the trace
        assert(partitioned.skip(shift as int) =~= right_input);
        assert(operations@ =~= partition_operations + left_operations@ + shift_all(
            right_operations@,
            shift as int,
        ));
        // every exchange meets an out-of-order pair
        lemma_quick_steps(
            input,
            partition_operations,
            partitioned,
            left_operations@,
            right_operations@,
            left@,
            pivot_index as int,
        );
        // the same elements as before
        lemma_multiset_commutative(left@, seq![x]);
        lemma_multiset_commutative(left@ + seq![x], right@);
        lemma_multiset_commutative(left_input, seq![x]);
        lemma_multiset_commutative(left_input + seq![x], right_input);
        assert(partitioned =~= left_input + seq![x] + right_input);
        // sorted
        assert forall|a: int, b: int| 0 <= a < b < length implies #[trigger] result[a].key()
            <= #[trigger] result[b].key() by {
            if a < pivot_index {
                let ia = lemma_permutation_contains(left@, left_input, a);
                assert(result[a].key() <= pk);
                if b < pivot_index {
                } else if b > pivot_index {
                    let ib = lemma_permutation_contains(right@, right_input, b - shift);
                    assert(partitioned[shift + ib] == right_input[ib]);
                }
            } else if a == pivot_index {
                let ib = lemma_permutation_contains(right@, right_input, b - shift);
                assert(partitioned[shift + ib] == right_input[ib]);
            } else {
            }
        }
    }
    operations
}

/// Quick sort.
pub fn quick_sort<T: SortKey>(numbers: Vec<T>) -> (operations: Vec<Operation<T>>)
    ensures
        sorts(numbers@, operations@),
        emits_only(operations@, Algorithm::Quick),
        exchanges_fix_inversions(numbers@, operations@),
        operations@ == quick_trace(numbers@),
{
    let mut numbers = numbers;
    quick_sort_inner(&mut numbers)
}

} // verus!
