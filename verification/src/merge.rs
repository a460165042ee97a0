use vstd::prelude::*;
use vstd::seq_lib::lemma_multiset_commutative;

use crate::algorithm::{emits_only, Algorithm};
use crate::key::SortKey;
use crate::operation::{all_in_bounds, lemma_replay_len, replay, shift_all, Operation};
use crate::order::{copy_range, lemma_record, permutation, sorted, sorts};

verus! {

/// The merge of `a` and `b`: repeatedly the front element of `a` if it is smaller than
/// the front element of `b`, and otherwise the front element of `b`.
pub open spec fn merged<T: SortKey>(a: Seq<T>, b: Seq<T>) -> Seq<T>
    decreases a.len() + b.len(),
{
    if a.len() == 0 {
        b
    } else if b.len() == 0 {
        a
    } else if a[0].key() < b[0].key() {
        seq![a[0]] + merged(a.drop_first(), b)
    } else {
        seq![b[0]] + merged(a, b.drop_first())
    }
}

/// What merge sort makes of `s`: the merge of what it makes of the two halves.
pub open spec fn merge_sorted<T: SortKey>(s: Seq<T>) -> Seq<T>
    decreases s.len(),
{
    if s.len() < 2 {
        s
    } else {
        let m = s.len() / 2;
        merged(merge_sorted(s.take(m as int)), merge_sorted(s.skip(m as int)))
    }
}

/// Writing the elements of `s`, front to back, at positions `0, 1, ...`.
pub open spec fn write_all<T>(s: Seq<T>) -> Seq<Operation<T>> {
    Seq::new(s.len(), |k: int| Operation::WriteValue(k as usize, s[k]))
}

/// The operations of merge sort on `s`: those on the left half, those on the right half
/// moved up past the left half, then the writes of the merge of the two sorted halves.
pub open spec fn merge_trace<T: SortKey>(s: Seq<T>) -> Seq<Operation<T>>
    decreases s.len(),
{
    if s.len() < 2 {
        seq![]
    } else {
        let m = s.len() / 2;
        merge_trace(s.take(m as int)) + shift_all(merge_trace(s.skip(m as int)), m as int)
            + write_all(merged(merge_sorted(s.take(m as int)), merge_sorted(s.skip(m as int))))
    }
}

/// Merge sort of the whole of `numbers`: sorts copies of the two halves, then writes the
/// merge of the sorted halves into `numbers`, front to back. The operations of the right
/// half are moved up by the length of the left half.
#[verifier::rlimit(40)]
#[verifier::spinoff_prover]
pub fn merge_sort_inner<T: SortKey>(numbers: &mut Vec<T>) -> (operations: Vec<Operation<T>>)
    ensures
        final(numbers)@.len() == old(numbers)@.len(),
        all_in_bounds(operations@, old(numbers)@.len() as int),
        emits_only(operations@, Algorithm::Merge),
        final(numbers)@ == replay(old(numbers)@, operations@),
        sorted(final(numbers)@),
        permutation(final(numbers)@, old(numbers)@),
        operations@ == merge_trace(old(numbers)@),
        final(numbers)@ == merge_sorted(old(numbers)@),
    decreases old(numbers)@.len(),
{
    let ghost input = numbers@;
    let mut operations: Vec<Operation<T>> = Vec::new();
    let length = numbers.len();
    if length < 2 {
        return operations;
    }
    let middle = length / 2;
    let mut left_half = copy_range(numbers, 0, middle);
    let mut right_half = copy_range(numbers, middle, length);
    let ghost left_input = left_half@;
    let ghost right_input = right_half@;
    assert(left_input =~= input.take(middle as int));
    assert(right_input =~= input.skip(middle as int));
    let left_operations = merge_sort_inner(&mut left_half);
    let right_operations = merge_sort_inner(&mut right_half);
    let mut t: usize = 0;
    while t < left_operations.len()
        invariant
            middle <= length,
            operations@ == left_operations@.take(t as int),
            t <= left_operations.len(),
            all_in_bounds(left_operations@, middle as int),
            emits_only(left_operations@, Algorithm::Merge),
            all_in_bounds(operations@, length as int),
            emits_only(operations@, Algorithm::Merge),
        decreases left_operations.len() - t,
    {
        let op = left_operations[t];
        proof {
            assert(left_operations@[t as int].in_bounds(middle as int));
            assert(Algorithm::Merge.emits(left_operations@[t as int]));
            lemma_record(input, operations@, op, length as int, Algorithm::Merge);
        }
        operations.push(op);
        t = t + 1;
        assert(operations@ =~= left_operations@.take(t as int));
    }
    let mut t: usize = 0;
    while t < right_operations.len()
        invariant
            middle <= length,
            t <= right_operations.len(),
            all_in_bounds(right_operations@, length - middle),
            emits_only(right_operations@, Algorithm::Merge),
            operations@ == left_operations@ + shift_all(right_operations@, middle as int).take(
                t as int,
            ),
            all_in_bounds(operations@, length as int),
            emits_only(operations@, Algorithm::Merge),
        decreases right_operations.len() - t,
    {
        let mut op = right_operations[t];
        assert(right_operations@[t as int].in_bounds(length - middle));
        assert(Algorithm::Merge.emits(right_operations@[t as int]));
        op.shift_index(middle);
        proof {
            lemma_record(input, operations@, op, length as int, Algorithm::Merge);
        }
        operations.push(op);
        t = t + 1;
        assert(operations@ =~= left_operations@ + shift_all(right_operations@, middle as int).take(
            t as int,
        ));
    }
    assert(left_operations@.take(left_operations@.len() as int) =~= left_operations@);
    assert(shift_all(right_operations@, middle as int).take(right_operations@.len() as int)
        =~= shift_all(right_operations@, middle as int));
    let ghost before_merge = operations@;
    proof {
        lemma_replay_len(input, before_merge);
    }
    let left_half_len = left_half.len();
    let right_half_len = right_half.len();
    let ghost left = left_half@;
    let ghost right = right_half@;
    let ghost mut out: Seq<T> = Seq::empty();
    proof {
        assert(left.take(0) =~= out);
        assert(right.take(0) =~= out);
        out.to_multiset_ensures();
        assert(out.to_multiset() =~= out.to_multiset().add(out.to_multiset()));
        assert(left.skip(0) =~= left);
        assert(right.skip(0) =~= right);
        assert(write_all(out) =~= Seq::<Operation<T>>::empty());
        assert(before_merge + write_all(out) =~= before_merge);
        assert(out + merged(left, right) =~= merged(left, right));
    }
    let mut i: usize = 0;
    let mut j: usize = 0;
    let mut k: usize = 0;
    while i < left_half_len && j < right_half_len
        invariant
            length == numbers.len() == input.len(),
            left == left_half@,
            right == right_half@,
            left_half_len == left.len(),
            right_half_len == right.len(),
            left_half_len + right_half_len == length,
            sorted(left),
            sorted(right),
            i <= left_half_len,
            j <= right_half_len,
            k == i + j,
            all_in_bounds(operations@, length as int),
            emits_only(operations@, Algorithm::Merge),
            replay(input, operations@).len() == length,
            forall|p: int| 0 <= p < k ==> #[trigger] replay(input, operations@)[p] == numbers@[p],
            out.len() == k,
            operations@ == before_merge + write_all(out),
            out + merged(left.skip(i as int), right.skip(j as int)) == merged(left, right),
            forall|p: int| 0 <= p < k ==> #[trigger] numbers@[p] == out[p],
            sorted(out),
            out.to_multiset() == left.take(i as int).to_multiset().add(
                right.take(j as int).to_multiset(),
            ),
            forall|p: int|
                0 <= p < k && i < left.len() ==> #[trigger] out[p].key() <= left[i as int].key(),
            forall|p: int|
                0 <= p < k && j < right.len() ==> #[trigger] out[p].key() <= right[j as int].key(),
        decreases length - k,
    {
        let value;
        let ghost rest_left = left.skip(i as int);
        let ghost rest_right = right.skip(j as int);
        if left_half[i].less_than(&right_half[j]) {
            value = left_half[i];
            proof {
                assert(left.take(i + 1) =~= left.take(i as int).push(value));
                left.take(i as int).to_multiset_ensures();
                assert(rest_left[0] == value);
                assert(rest_right[0] == right[j as int]);
                assert(rest_left.drop_first() =~= left.skip(i + 1));
                assert(merged(rest_left, rest_right) == seq![value] + merged(
                    rest_left.drop_first(),
                    rest_right,
                ));
                assert(out.push(value) + merged(left.skip(i + 1), rest_right) =~= out + merged(
                    rest_left,
                    rest_right,
                ));
            }
            i = i + 1;
        } else {
            value = right_half[j];
            proof {
                assert(right.take(j + 1) =~= right.take(j as int).push(value));
                right.take(j as int).to_multiset_ensures();
                assert(rest_right[0] == value);
                assert(rest_left[0] == left[i as int]);
                assert(rest_right.drop_first() =~= right.skip(j + 1));
                assert(merged(rest_left, rest_right) == seq![value] + merged(
                    rest_left,
                    rest_right.drop_first(),
                ));
                assert(out.push(value) + merged(rest_left, right.skip(j + 1)) =~= out + merged(
                    rest_left,
                    rest_right,
                ));
            }
            j = j + 1;
        }
        proof {
            lemma_record(
                input,
                operations@,
                Operation::WriteValue(k, value),
                length as int,
                Algorithm::Merge,
            );
            out.to_multiset_ensures();
            assert(write_all(out.push(value)) =~= write_all(out).push(Operation::WriteValue(k, value)));
            out = out.push(value);
        }
        numbers[k] = value;
        operations.push(Operation::WriteValue(k, value));
        k = k + 1;
    }
    while i < left_half_len
        invariant
            length == numbers.len() == input.len(),
            left == left_half@,
            right == right_half@,
            left_half_len == left.len(),
            right_half_len == right.len(),
            left_half_len + right_half_len == length,
            sorted(left),
            sorted(right),
            i <= left_half_len,
            j <= right_half_len,
            i < left_half_len ==> j == right_half_len,
            k == i + j,
            all_in_bounds(operations@, length as int),
            emits_only(operations@, Algorithm::Merge),
            replay(input, operations@).len() == length,
            forall|p: int| 0 <= p < k ==> #[trigger] replay(input, operations@)[p] == numbers@[p],
            out.len() == k,
            operations@ == before_merge + write_all(out),
            out + merged(left.skip(i as int), right.skip(j as int)) == merged(left, right),
            forall|p: int| 0 <= p < k ==> #[trigger] numbers@[p] == out[p],
            sorted(out),
            out.to_multiset() == left.take(i as int).to_multiset().add(
                right.take(j as int).to_multiset(),
            ),
            forall|p: int|
                0 <= p < k && i < left.len() ==> #[trigger] out[p].key() <= left[i as int].key(),
            forall|p: int|
                0 <= p < k && j < right.len() ==> #[trigger] out[p].key() <= right[j as int].key(),
        decreases length - k,
    {
        let value = left_half[i];
        proof {
            assert(left.take(i + 1) =~= left.take(i as int).push(value));
            left.take(i as int).to_multiset_ensures();
            let rest_left = left.skip(i as int);
            assert(right.skip(j as int).len() == 0);
            assert(merged(rest_left, right.skip(j as int)) == rest_left);
            assert(left.skip(i + 1).len() > 0 ==> merged(left.skip(i + 1), right.skip(j as int))
                == left.skip(i + 1));
            assert(merged(left.skip(i + 1), right.skip(j as int)) =~= left.skip(i + 1));
            assert(out.push(value) + left.skip(i + 1) =~= out + rest_left);
        }
        i = i + 1;
        proof {
            lemma_record(
                input,
                operations@,
                Operation::WriteValue(k, value),
                length as int,
                Algorithm::Merge,
            );
            out.to_multiset_ensures();
            assert(write_all(out.push(value)) =~= write_all(out).push(Operation::WriteValue(k, value)));
            out = out.push(value);
        }
        numbers[k] = value;
        operations.push(Operation::WriteValue(k, value));
        k = k + 1;
    }
    while j < right_half_len
        invariant
            length == numbers.len() == input.len(),
            left == left_half@,
            right == right_half@,
            left_half_len == left.len(),
            right_half_len == right.len(),
            left_half_len + right_half_len == length,
            sorted(left),
            sorted(right),
            i == left_half_len,
            j <= right_half_len,
            k == i + j,
            all_in_bounds(operations@, length as int),
            emits_only(operations@, Algorithm::Merge),
            replay(input, operations@).len() == length,
            forall|p: int| 0 <= p < k ==> #[trigger] replay(input, operations@)[p] == numbers@[p],
            out.len() == k,
            operations@ == before_merge + write_all(out),
            out + merged(left.skip(i as int), right.skip(j as int)) == merged(left, right),
            forall|p: int| 0 <= p < k ==> #[trigger] numbers@[p] == out[p],
            sorted(out),
            out.to_multiset() == left.take(i as int).to_multiset().add(
                right.take(j as int).to_multiset(),
            ),
            forall|p: int|
                0 <= p < k && j < right.len() ==> #[trigger] out[p].key() <= right[j as int].key(),
        decreases length - k,
    {
        let value = right_half[j];
        proof {
            assert(right.take(j + 1) =~= right.take(j as int).push(value));
            right.take(j as int).to_multiset_ensures();
            let rest_right = right.skip(j as int);
            assert(left.skip(i as int).len() == 0);
            assert(merged(left.skip(i as int), rest_right) == rest_right);
            assert(merged(left.skip(i as int), right.skip(j + 1)) == right.skip(j + 1));
            assert(out.push(value) + right.skip(j + 1) =~= out + rest_right);
        }
        j = j + 1;
        proof {
            lemma_record(
                input,
                operations@,
                Operation::WriteValue(k, value),
                length as int,
                Algorithm::Merge,
            );
            out.to_multiset_ensures();
            assert(write_all(out.push(value)) =~= write_all(out).push(Operation::WriteValue(k, value)));
            out = out.push(value);
        }
        numbers[k] = value;
        operations.push(Operation::WriteValue(k, value));
        k = k + 1;
    }
    proof {
        assert(left.skip(i as int).len() == 0 && right.skip(j as int).len() == 0);
        assert(merged(left.skip(i as int), right.skip(j as int)) =~= Seq::<T>::empty());
        assert(out =~= merged(left, right));
        assert(numbers@ =~= out);
        assert(replay(input, operations@) =~= numbers@);
        assert(left.take(left.len() as int) =~= left);
        assert(right.take(right.len() as int) =~= right);
        assert(input =~= left_input + right_input);
        lemma_multiset_commutative(left_input, right_input);
    }
    operations
}

/// Merge sort.
pub fn merge_sort<T: SortKey>(numbers: Vec<T>) -> (operations: Vec<Operation<T>>)
    ensures
        sorts(numbers@, operations@),
        emits_only(operations@, Algorithm::Merge),
        operations@ == merge_trace(numbers@),
{
    let mut numbers = numbers;
    merge_sort_inner(&mut numbers)
}

} // verus!
