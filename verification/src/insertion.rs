use vstd::prelude::*;

use crate::algorithm::{emits_only, Algorithm};
use crate::key::SortKey;
use crate::operation::{all_in_bounds, replay, Operation};
use crate::order::{
    count_above, lemma_insert_multiset, lemma_record, permutation, sorted, sorts,
};

verus! {

/// Where the value `c` goes when the positions below `j` of `s` are scanned downwards:
/// just above the first element that is not larger than `c`, or at the front.
pub open spec fn insertion_point<T: SortKey>(s: Seq<T>, c: T, j: int) -> int
    decreases j,
{
    if j <= 0 {
        0
    } else if c.key() < s[j - 1].key() {
        insertion_point(s, c, j - 1)
    } else {
        j
    }
}

/// The scan downwards from position `j` for the place of `c`: each element larger than
/// `c` is compared with it and copied one position up; the first element that is not
/// larger is compared only.
pub open spec fn insertion_scan<T: SortKey>(s: Seq<T>, c: T, j: int) -> Seq<Operation<T>>
    decreases j,
{
    if j <= 0 {
        seq![]
    } else if c.key() < s[j - 1].key() {
        seq![
            Operation::CompareToValue((j - 1) as usize),
            Operation::Write(j as usize, (j - 1) as usize),
        ] + insertion_scan(s, c, j - 1)
    } else {
        seq![Operation::CompareToValue((j - 1) as usize)]
    }
}

/// The pass of insertion sort for the element at position `i` of `s`: the scan for its
/// place, then the write of the element there.
pub open spec fn insertion_pass<T: SortKey>(s: Seq<T>, i: int) -> Seq<Operation<T>> {
    insertion_scan(s, s[i], i).push(
        Operation::WriteValue(insertion_point(s, s[i], i) as usize, s[i]),
    )
}

/// The operations of insertion sort on the `n` elements of `s` from the pass for
/// position `i` on.
pub open spec fn insertion_trace<T: SortKey>(s: Seq<T>, i: int, n: int) -> Seq<Operation<T>>
    decreases n - i,
{
    if i >= n {
        seq![]
    } else {
        insertion_pass(s, i) + insertion_trace(
            s.remove(i).insert(insertion_point(s, s[i], i), s[i]),
            i + 1,
            n,
        )
    }
}

/// Taking the element at `i` out of `s0` and putting it back at `p`, below the larger
/// elements of the sorted front `0 .. i` and above the others, sorts the front `0 ..= i`
/// and keeps the elements.
proof fn lemma_insert_into_sorted<T: SortKey>(s0: Seq<T>, i: int, p: int)
    requires
        0 <= p <= i < s0.len(),
        forall|a: int, b: int| #![trigger s0[a], s0[b]] 0 <= a < b < i ==> s0[a].key() <= s0[b].key(),
        forall|k: int| p <= k < i ==> s0[i].key() < #[trigger] s0[k].key(),
        p > 0 ==> s0[p - 1].key() <= s0[i].key(),
    ensures
        permutation(s0.remove(i).insert(p, s0[i]), s0),
        forall|a: int, b: int|
            #![trigger s0.remove(i).insert(p, s0[i])[a], s0.remove(i).insert(p, s0[i])[b]]
            0 <= a < b <= i ==> s0.remove(i).insert(p, s0[i])[a].key() <= s0.remove(i).insert(
                p,
                s0[i],
            )[b].key(),
{
    let current = s0[i];
    let r = s0.remove(i);
    let result = r.insert(p, current);
    lemma_insert_multiset(r, p, current);
    s0.to_multiset_ensures();
    assert(s0.contains(current));
    assert(r.to_multiset() == s0.to_multiset().remove(current));
    assert(result.to_multiset() =~= s0.to_multiset());
    assert forall|a: int, b: int| 0 <= a < b <= i implies result[a].key() <= result[b].key() by {
        if b < p {
            assert(result[a] == s0[a] && result[b] == s0[b]);
        } else if b == p {
            assert(result[b] == current);
            assert(result[a] == s0[a]);
            if a < p - 1 {
                assert(s0[a].key() <= s0[p - 1].key());
            }
        } else if a < p {
            assert(result[a] == s0[a]);
            assert(result[b] == s0[b - 1]);
            assert(current.key() < s0[b - 1].key());
            if a < p - 1 {
                assert(s0[a].key() <= s0[p - 1].key());
            }
        } else if a == p {
            assert(result[a] == current);
            assert(result[b] == s0[b - 1]);
        } else {
            assert(result[a] == s0[a - 1]);
            assert(result[b] == s0[b - 1]);
        }
    }
}

/// The scan for the place of `c` below `j` copies up only elements strictly larger than
/// `c`, each to the position just above it.
proof fn lemma_scan_shifts_larger<T: SortKey>(s: Seq<T>, c: T, j: int)
    requires
        j <= usize::MAX,
    ensures
        forall|t: int|
            0 <= t < insertion_scan(s, c, j).len() ==> match #[trigger] insertion_scan(s, c, j)[t] {
                Operation::Write(a, b) => a == b + 1 && b < j && s[b as int].key() > c.key(),
                Operation::CompareToValue(_) => true,
                _ => false,
            },
    decreases j,
{
    if j > 0 && c.key() < s[j - 1].key() {
        lemma_scan_shifts_larger(s, c, j - 1);
        let head = seq![
            Operation::CompareToValue((j - 1) as usize),
            Operation::Write(j as usize, (j - 1) as usize),
        ];
        let rest = insertion_scan(s, c, j - 1);
        assert forall|t: int| 2 <= t < (head + rest).len() implies (head + rest)[t] == rest[t - 2] by {
        }
    }
}

/// With the elements below `j` in order, the scan for the place of `c` stops just above
/// the last of them that is not larger than `c`.
proof fn lemma_insertion_point_counts<T: SortKey>(s: Seq<T>, c: T, j: int)
    requires
        0 <= j <= s.len(),
        forall|a: int, b: int| #![trigger s[a], s[b]] 0 <= a < b < j ==> s[a].key() <= s[b].key(),
    ensures
        insertion_point(s, c, j) == j - count_above(s.take(j), c),
    decreases j,
{
    if j > 0 {
        assert(s.take(j).drop_last() =~= s.take(j - 1));
        assert(s.take(j).last() == s[j - 1]);
        if c.key() < s[j - 1].key() {
            lemma_insertion_point_counts(s, c, j - 1);
        } else {
            lemma_none_above(s.take(j), c);
        }
    }
}

/// In a sorted `s` whose last element is not larger than `c`, no element is larger than
/// `c`.
proof fn lemma_none_above<T: SortKey>(s: Seq<T>, c: T)
    requires
        s.len() > 0,
        s.last().key() <= c.key(),
        forall|a: int, b: int| #![trigger s[a], s[b]] 0 <= a < b < s.len() ==> s[a].key() <= s[b].key(),
    ensures
        count_above(s, c) == 0,
    decreases s.len(),
{
    let r = s.drop_last();
    if r.len() > 0 {
        assert(r.last() == s[s.len() - 2]);
        assert(s[s.len() - 2].key() <= s[s.len() - 1].key());
        assert forall|a: int, b: int| #![trigger r[a], r[b]] 0 <= a < b < r.len() implies r[a].key()
            <= r[b].key() by {
            assert(r[a] == s[a] && r[b] == s[b]);
        }
        lemma_none_above(r, c);
    } else {
        assert(count_above(r, c) == 0);
    }
    assert(s.last().key() <= c.key());
}

/// A pass of insertion sort over a sorted front `0 .. i`: every copy moves up an element
/// strictly larger than the one being inserted, one position, and the element then goes
/// just above every element of the front that is not larger than it, so that it lands
/// after its equals.
pub proof fn law_insertion_shifts_only_larger<T: SortKey>(s: Seq<T>, i: int)
    requires
        0 <= i < s.len() <= usize::MAX,
        forall|a: int, b: int| #![trigger s[a], s[b]] 0 <= a < b < i ==> s[a].key() <= s[b].key(),
    ensures
        forall|t: int|
            0 <= t < insertion_pass(s, i).len() - 1 ==> match #[trigger] insertion_pass(s, i)[t] {
                Operation::Write(a, b) => a == b + 1 && b < i && s[b as int].key() > s[i].key(),
                Operation::CompareToValue(_) => true,
                _ => false,
            },
        insertion_pass(s, i).last() == Operation::WriteValue(
            (i - count_above(s.take(i), s[i])) as usize,
            s[i],
        ),
{
    lemma_scan_shifts_larger(s, s[i], i);
    lemma_insertion_point_counts(s, s[i], i);
    let scan = insertion_scan(s, s[i], i);
    assert forall|t: int| 0 <= t < insertion_pass(s, i).len() - 1 implies insertion_pass(s, i)[t]
        == scan[t] by {
    }
}

/// Insertion sort: takes each element in turn and shifts the larger elements before it up
/// by one, then writes it into the gap.
pub fn insertion_sort<T: SortKey>(numbers: Vec<T>) -> (operations: Vec<Operation<T>>)
    ensures
        sorts(numbers@, operations@),
        emits_only(operations@, Algorithm::Insertion),
        operations@ == insertion_trace(numbers@, 1, numbers@.len() as int),
{
    let ghost input = numbers@;
    let mut numbers = numbers;
    let mut operations: Vec<Operation<T>> = Vec::new();
    let length = numbers.len();
    if length < 2 {
        return operations;
    }
    let mut i: usize = 1;
    assert(operations@ + insertion_trace(numbers@, 1, length as int) =~= insertion_trace(
        input,
        1,
        length as int,
    ));
    while i < length
        invariant
            length == numbers.len() == input.len(),
            length >= 2,
            1 <= i <= length,
            numbers@ == replay(input, operations@),
            all_in_bounds(operations@, length as int),
            emits_only(operations@, Algorithm::Insertion),
            permutation(numbers@, input),
            operations@ + insertion_trace(numbers@, i as int, length as int) == insertion_trace(
                input,
                1,
                length as int,
            ),
            forall|a: int, b: int|
                #![trigger numbers@[a], numbers@[b]]
                0 <= a < b < i ==> numbers@[a].key() <= numbers@[b].key(),
        decreases length - i,
    {
        let ghost s0 = numbers@;
        let ghost pass_start = operations@;
        let mut insert_index: usize = i;
        let current = numbers[i];
        let mut stop = false;
        assert(pass_start =~= operations@ + Seq::<Operation<T>>::empty());
        while insert_index > 0 && !stop
            invariant
                length == numbers.len() == input.len() == s0.len(),
                1 <= i < length,
                insert_index <= i,
                current == s0[i as int],
                numbers@ == replay(input, operations@),
                all_in_bounds(operations@, length as int),
                emits_only(operations@, Algorithm::Insertion),
                forall|a: int, b: int|
                    #![trigger s0[a], s0[b]]
                    0 <= a < b < i ==> s0[a].key() <= s0[b].key(),
                forall|k: int|
                    0 <= k < length && (k <= insert_index || k > i) ==> #[trigger] numbers@[k]
                        == s0[k],
                forall|k: int| insert_index < k <= i ==> #[trigger] numbers@[k] == s0[k - 1],
                forall|k: int| insert_index <= k < i ==> current.key() < #[trigger] s0[k].key(),
                stop ==> insert_index > 0 && s0[insert_index - 1].key() <= current.key(),
                !stop ==> pass_start + insertion_scan(s0, current, i as int) == operations@
                    + insertion_scan(s0, current, insert_index as int),
                !stop ==> insertion_point(s0, current, i as int) == insertion_point(
                    s0,
                    current,
                    insert_index as int,
                ),
                stop ==> pass_start + insertion_scan(s0, current, i as int) == operations@,
                stop ==> insertion_point(s0, current, i as int) == insert_index,
            decreases insert_index, if stop { 0int } else { 1int },
        {
            let j: usize = insert_index - 1;
            proof {
                lemma_record(
                    input,
                    operations@,
                    Operation::CompareToValue(j),
                    length as int,
                    Algorithm::Insertion,
                );
            }
            let ghost before = operations@;
            operations.push(Operation::CompareToValue(j));
            if current.less_than(&numbers[j]) {
                let moved = numbers[j];
                proof {
                    lemma_record(
                        input,
                        operations@,
                        Operation::Write(insert_index, j),
                        length as int,
                        Algorithm::Insertion,
                    );
                }
                numbers[insert_index] = moved;
                operations.push(Operation::Write(insert_index, j));
                proof {
                    assert(operations@ + insertion_scan(s0, current, j as int) =~= before + (seq![
                        Operation::CompareToValue(j),
                        Operation::Write(insert_index, j),
                    ] + insertion_scan(s0, current, j as int)));
                }
                insert_index = j;
            } else {
                stop = true;
                proof {
                    assert(operations@ =~= before + seq![Operation::CompareToValue(j)]);
                }
            }
        }
        proof {
            lemma_record(
                input,
                operations@,
                Operation::WriteValue(insert_index, current),
                length as int,
                Algorithm::Insertion,
            );
        }
        let ghost scanned = operations@;
        numbers[insert_index] = current;
        operations.push(Operation::WriteValue(insert_index, current));
        proof {
            assert(insertion_point(s0, current, i as int) == insert_index);
            assert(pass_start + insertion_scan(s0, current, i as int) == scanned);
            assert(operations@ =~= pass_start + insertion_pass(s0, i as int));
            lemma_insert_into_sorted(s0, i as int, insert_index as int);
            assert(numbers@ =~= s0.remove(i as int).insert(insert_index as int, current));
        }
        i = i + 1;
    }
    operations
}

} // verus!
