use vstd::prelude::*;

use crate::algorithm::{emits_only, Algorithm};
use crate::key::SortKey;
use crate::operation::{
    all_in_bounds, each_step, law_replay_concat, lemma_each_step_concat, lemma_each_step_push,
    lemma_in_bounds_append, replay, Operation,
};
use crate::order::{
    exchange, lemma_emits_append, lemma_permutation_contains, lemma_record, lemma_swap_permutation,
    permutation, sorted, sorts, swapped,
};

verus! {

/// Within the first `n` elements, the element at `p` is not below its children.
pub open spec fn heap_at<T: SortKey>(s: Seq<T>, n: int, p: int) -> bool {
    &&& 2 * p + 1 < n ==> s[p].key() >= s[2 * p + 1].key()
    &&& 2 * p + 2 < n ==> s[p].key() >= s[2 * p + 2].key()
}

/// The element at `p` is not below the children of `c`.
pub open spec fn above_children<T: SortKey>(s: Seq<T>, n: int, p: int, c: int) -> bool {
    &&& 2 * c + 1 < n ==> s[p].key() >= s[2 * c + 1].key()
    &&& 2 * c + 2 < n ==> s[p].key() >= s[2 * c + 2].key()
}

/// Every position from `start` on, among the first `n`, holds an element not below its
/// children.
pub open spec fn heap_from<T: SortKey>(s: Seq<T>, n: int, start: int) -> bool {
    forall|p: int| start <= p < n ==> #[trigger] heap_at(s, n, p)
}

/// The root of a heap is not below any of its elements.
proof fn lemma_heap_root<T: SortKey>(s: Seq<T>, n: int, k: int)
    requires
        heap_from(s, n, 0),
        0 <= k < n,
    ensures
        s[0].key() >= s[k].key(),
    decreases k,
{
    if k > 0 {
        let p = (k - 1) / 2;
        assert(heap_at(s, n, p));
        lemma_heap_root(s, n, p);
    }
}

/// Exchanging two positions below `n` keeps the multiset of the first `n` elements.
proof fn lemma_swap_prefix_permutation<T>(s: Seq<T>, n: int, i: int, j: int)
    requires
        0 <= i < n,
        0 <= j < n,
        n <= s.len(),
    ensures
        permutation(swapped(s, i, j).take(n), s.take(n)),
        swapped(s, i, j).skip(n) == s.skip(n),
{
    let w = swapped(s, i, j);
    assert forall|k: int| 0 <= k < n implies #[trigger] w.take(n)[k] == swapped(s.take(n), i, j)[k] by {
        assert(w.take(n)[k] == w[k]);
    }
    assert(w.take(n) =~= swapped(s.take(n), i, j));
    assert(swapped(s, i, j).skip(n) =~= s.skip(n));
    lemma_swap_permutation(s.take(n), i, j);
}

/// An exchange either lifts a child that is larger than its parent, or moves the root of a
/// heap ending at the other position, its largest element, there.
pub open spec fn heap_exchange<T: SortKey>(s: Seq<T>, op: Operation<T>) -> bool {
    match op {
        Operation::Swap(a, b) => {
            ||| (b == 2 * a + 1 || b == 2 * a + 2) && b < s.len() && s[a as int].key() < s[
                b as int
            ].key()
            ||| a == 0 && b < s.len() && forall|t: int|
                0 <= t <= b ==> #[trigger] s[t].key() <= s[0].key()
        },
        _ => true,
    }
}

/// `heap_exchange`, as a predicate on steps.
pub open spec fn heap_exchanging<T: SortKey>() -> spec_fn(Seq<T>, Operation<T>) -> bool {
    |s: Seq<T>, op: Operation<T>| heap_exchange(s, op)
}

/// Every exchange, when `ops` is replayed on `input`, is a heap exchange.
#[verifier::opaque]
pub open spec fn heap_exchanges<T: SortKey>(input: Seq<T>, ops: Seq<Operation<T>>) -> bool {
    each_step(input, ops, heap_exchanging())
}

/// Before any operation there is no exchange.
proof fn lemma_no_heap_exchange_yet<T: SortKey>(input: Seq<T>)
    ensures
        heap_exchanges(input, Seq::<Operation<T>>::empty()),
{
    reveal(heap_exchanges);
}

/// Recording a comparison, or a heap exchange.
proof fn lemma_heap_push<T: SortKey>(input: Seq<T>, ops: Seq<Operation<T>>, op: Operation<T>)
    requires
        heap_exchanges(input, ops),
        heap_exchange(replay(input, ops), op),
    ensures
        heap_exchanges(input, ops.push(op)),
{
    reveal(heap_exchanges);
    lemma_each_step_push(input, ops, op, heap_exchanging());
}

/// Heap exchanges followed by heap exchanges from where they leave the sequence.
proof fn lemma_heap_concat<T: SortKey>(input: Seq<T>, a: Seq<Operation<T>>, b: Seq<Operation<T>>)
    requires
        heap_exchanges(input, a),
        heap_exchanges(replay(input, a), b),
    ensures
        heap_exchanges(input, a + b),
{
    reveal(heap_exchanges);
    lemma_each_step_concat(input, a, b, heap_exchanging());
}

/// Sifting the element at `i` down the heap made of the first `n` elements of `s`: the
/// left child, then the right child, is compared with the larger element seen so far;
/// if a child is larger, it is exchanged with position `i` and the sift goes on from its
/// position. The result holds the operations and the sequence after them.
pub open spec fn sift_trace<T: SortKey>(s: Seq<T>, n: int, i: int) -> (Seq<Operation<T>>, Seq<T>)
    decreases n - i,
{
    if i < 0 || n <= i {
        (seq![], s)
    } else {
        let left = 2 * i + 1;
        let right = 2 * i + 2;
        let first: Seq<Operation<T>> = if left < n {
            seq![Operation::Compare(left as usize, i as usize)]
        } else {
            seq![]
        };
        let after_left = if left < n && s[i].key() < s[left].key() {
            left
        } else {
            i
        };
        let second: Seq<Operation<T>> = if right < n {
            seq![Operation::Compare(right as usize, after_left as usize)]
        } else {
            seq![]
        };
        let largest = if right < n && s[after_left].key() < s[right].key() {
            right
        } else {
            after_left
        };
        if largest != i {
            let rest = sift_trace(swapped(s, i, largest), n, largest);
            (first + second + seq![Operation::Swap(i as usize, largest as usize)] + rest.0, rest.1)
        } else {
            (first + second, s)
        }
    }
}

/// Building the heap: sifting down each position from `top - 1` to zero, in the heap
/// made of the first `n` elements of `s`. The result is as for `sift_trace`.
pub open spec fn build_trace<T: SortKey>(s: Seq<T>, n: int, top: int) -> (
    Seq<Operation<T>>,
    Seq<T>,
)
    decreases top,
{
    if top <= 0 {
        (seq![], s)
    } else {
        let sift = sift_trace(s, n, top - 1);
        let rest = build_trace(sift.1, n, top - 1);
        (sift.0 + rest.0, rest.1)
    }
}

/// Taking the heap made of the first `top` elements of `s` apart: its root is exchanged
/// with its last element, the new root is sifted down the heap one shorter, and so on
/// down to a heap of one element.
pub open spec fn extract_trace<T: SortKey>(s: Seq<T>, top: int) -> Seq<Operation<T>>
    decreases top,
{
    if top <= 1 {
        seq![]
    } else {
        let last = top - 1;
        let sift = sift_trace(swapped(s, 0, last), last, 0);
        seq![Operation::Swap(0, last as usize)] + sift.0 + extract_trace(sift.1, last)
    }
}

/// The operations of heap sort on `s`: building the heap from position `len / 2 - 1`
/// down, then taking it apart.
pub open spec fn heap_trace<T: SortKey>(s: Seq<T>) -> Seq<Operation<T>> {
    if s.len() < 2 {
        seq![]
    } else {
        let built = build_trace(s, s.len() as int, (s.len() / 2) as int);
        built.0 + extract_trace(built.1, s.len() as int)
    }
}

/// An operation of a sift down the first `n` elements: a comparison, or the exchange of
/// a parent with one of its two children, the child below `n`.
pub open spec fn sift_step<T>(op: Operation<T>, n: int) -> bool {
    match op {
        Operation::Compare(_, _) => true,
        Operation::Swap(p, c) => (c == 2 * p + 1 || c == 2 * p + 2) && c < n,
        _ => false,
    }
}

/// Sifting down from `i` restores the heap from `start` on: every position from `start`
/// on but `i`, among the first `n`, holds an element not below its children, and the
/// parent of `i`, if it is from `start` on, is not below the children of `i`.
pub open spec fn sift_ready<T: SortKey>(s: Seq<T>, n: int, i: int, start: int) -> bool {
    &&& 0 <= start <= i
    &&& forall|p: int| start <= p < n && p != i ==> #[trigger] heap_at(s, n, p)
    &&& forall|p: int|
        start <= p < i && (i == 2 * p + 1 || i == 2 * p + 2) ==> above_children(s, n, p, i)
}

/// Sifts the element at `i` down the heap made of the first `n` elements: exchanges it
/// with its larger child while that child is larger. For every `start` such that the
/// positions from `start` on are a heap but for `i` (`sift_ready`), they are a heap
/// afterwards.
pub fn heapify<T: SortKey>(
    numbers: &mut Vec<T>,
    n: usize,
    i: usize,
) -> (operations: Vec<Operation<T>>)
    requires
        n <= old(numbers)@.len() <= usize::MAX / 2,
        i < usize::MAX / 2,
    ensures
        final(numbers)@.len() == old(numbers)@.len(),
        all_in_bounds(operations@, n as int),
        emits_only(operations@, Algorithm::Heap),
        forall|t: int| 0 <= t < operations@.len() ==> sift_step(#[trigger] operations@[t], n as int),
        heap_exchanges(old(numbers)@, operations@),
        final(numbers)@ == replay(old(numbers)@, operations@),
        forall|start: int|
            #![trigger sift_ready(old(numbers)@, n as int, i as int, start)]
            sift_ready(old(numbers)@, n as int, i as int, start) ==> heap_from(
                final(numbers)@,
                n as int,
                start,
            ),
        permutation(final(numbers)@.take(n as int), old(numbers)@.take(n as int)),
        final(numbers)@.skip(n as int) == old(numbers)@.skip(n as int),
        operations@ == sift_trace(old(numbers)@, n as int, i as int).0,
        final(numbers)@ == sift_trace(old(numbers)@, n as int, i as int).1,
    decreases n - i,
{
    let ghost input = numbers@;
    let mut operations: Vec<Operation<T>> = Vec::new();
    proof {
        lemma_no_heap_exchange_yet::<T>(input);
    }
    let mut largest = i;
    let left = 2 * i + 1;
    let right = 2 * i + 2;
    if left < n {
        proof {
            lemma_record(
                input,
                operations@,
                Operation::Compare(left, largest),
                n as int,
                Algorithm::Heap,
            );
            lemma_heap_push(input, operations@, Operation::Compare(left, largest));
        }
        operations.push(Operation::Compare(left, largest));
        if numbers[largest].less_than(&numbers[left]) {
            largest = left;
        }
    }
    if right < n {
        proof {
            lemma_record(
                input,
                operations@,
                Operation::Compare(right, largest),
                n as int,
                Algorithm::Heap,
            );
            lemma_heap_push(input, operations@, Operation::Compare(right, largest));
        }
        operations.push(Operation::Compare(right, largest));
        if numbers[largest].less_than(&numbers[right]) {
            largest = right;
        }
    }
    if largest != i {
        proof {
            lemma_record(
                input,
                operations@,
                Operation::Swap(i, largest),
                n as int,
                Algorithm::Heap,
            );
            lemma_heap_push(input, operations@, Operation::Swap(i, largest));
            lemma_swap_prefix_permutation(numbers@, n as int, i as int, largest as int);
        }
        proof {
            assert(operations@.push(Operation::Swap(i, largest)) =~= (if left < n {
                seq![Operation::Compare(left, i)]
            } else {
                seq![]
            }) + (if right < n {
                seq![Operation::Compare(right, if left < n && input[i as int].key() < input[left as int].key() { left } else { i })]
            } else {
                seq![]
            }) + seq![Operation::Swap(i, largest)]);
        }
        exchange(numbers, i, largest);
        operations.push(Operation::Swap(i, largest));
        let ghost middle = numbers@;
        let ghost first = operations@;
        let mut rest = heapify(numbers, n, largest);
        proof {
            assert forall|t: int| 0 <= t < first.len() + rest@.len() implies sift_step(
                #[trigger] (first + rest@)[t],
                n as int,
            ) by {
                if t >= first.len() {
                    assert((first + rest@)[t] == rest@[t - first.len()]);
                }
            }
            assert forall|start: int| sift_ready(input, n as int, i as int, start) implies heap_from(
                numbers@,
                n as int,
                start,
            ) by {
                assert forall|p: int| start <= p < n && p != largest implies #[trigger] heap_at(
                    middle,
                    n as int,
                    p,
                ) by {
                    if p != i {
                        assert(heap_at(input, n as int, p));
                        if i == 2 * p + 1 || i == 2 * p + 2 {
                            assert(above_children(input, n as int, p, i as int));
                        }
                    }
                }
                assert(heap_at(input, n as int, largest as int));
                assert(sift_ready(middle, n as int, largest as int, start));
            }
            law_replay_concat(input, first, rest@);
            lemma_in_bounds_append(first, rest@, n as int, n as int);
            lemma_emits_append(first, rest@, Algorithm::Heap);
            lemma_heap_concat(input, first, rest@);
        }
        operations.append(&mut rest);
    } else {
        proof {
            assert(operations@ =~= (if left < n {
                seq![Operation::Compare(left, i)]
            } else {
                seq![]
            }) + (if right < n {
                seq![Operation::Compare(right, i)]
            } else {
                seq![]
            }));
            assert forall|start: int| sift_ready(input, n as int, i as int, start) implies heap_from(
                numbers@,
                n as int,
                start,
            ) by {
                assert forall|p: int| start <= p < n implies #[trigger] heap_at(
                    numbers@,
                    n as int,
                    p,
                ) by {
                    if p != i {
                    }
                }
            }
        }
    }
    operations
}

/// Heap sort: builds a heap out of all the elements, then repeatedly exchanges its root,
/// the largest element, with the last element of the heap and sifts the new root down
/// the shrunken heap.
pub fn heap_sort<T: SortKey>(numbers: Vec<T>) -> (operations: Vec<Operation<T>>)
    requires
        numbers.len() <= usize::MAX / 2,
    ensures
        sorts(numbers@, operations@),
        emits_only(operations@, Algorithm::Heap),
        heap_exchanges(numbers@, operations@),
        operations@ == heap_trace(numbers@),
{
    let ghost input = numbers@;
    let mut numbers = numbers;
    let mut operations: Vec<Operation<T>> = Vec::new();
    proof {
        lemma_no_heap_exchange_yet::<T>(input);
    }
    let length = numbers.len();
    if length < 2 {
        return operations;
    }
    let ghost built = build_trace(input, length as int, (length / 2) as int);
    proof {
        assert(operations@ + built.0 =~= built.0);
    }
    let mut top: usize = length / 2;
    while top > 0
        invariant
            built == build_trace(input, length as int, (length / 2) as int),
            built.0 == operations@ + build_trace(numbers@, length as int, top as int).0,
            built.1 == build_trace(numbers@, length as int, top as int).1,
            length == numbers.len() == input.len(),
            2 <= length <= usize::MAX / 2,
            top <= length / 2,
            numbers@ == replay(input, operations@),
            all_in_bounds(operations@, length as int),
            emits_only(operations@, Algorithm::Heap),
            heap_exchanges(input, operations@),
            permutation(numbers@, input),
            heap_from(numbers@, length as int, top as int),
        decreases top,
    {
        let i = top - 1;
        let ghost before = numbers@;
        let ghost first = operations@;
        assert(sift_ready(numbers@, length as int, i as int, i as int));
        let mut more = heapify(&mut numbers, length, i);
        proof {
            law_replay_concat(input, first, more@);
            lemma_in_bounds_append(first, more@, length as int, length as int);
            lemma_emits_append(first, more@, Algorithm::Heap);
            lemma_heap_concat(input, first, more@);
            assert(before.take(length as int) =~= before);
            assert(numbers@.take(length as int) =~= numbers@);
        }
        proof {
            let sift = sift_trace(before, length as int, i as int);
            assert(first + (sift.0 + build_trace(sift.1, length as int, i as int).0) =~= (first
                + sift.0) + build_trace(sift.1, length as int, i as int).0);
        }
        operations.append(&mut more);
        top = i;
    }
    proof {
        assert(operations@ + seq![] =~= operations@);
    }
    let mut top: usize = length;
    while top > 1
        invariant
            heap_trace(input) == operations@ + extract_trace(numbers@, top as int),
            length == numbers.len() == input.len(),
            2 <= length <= usize::MAX / 2,
            1 <= top <= length,
            numbers@ == replay(input, operations@),
            all_in_bounds(operations@, length as int),
            emits_only(operations@, Algorithm::Heap),
            heap_exchanges(input, operations@),
            permutation(numbers@, input),
            heap_from(numbers@, top as int, 0),
            forall|a: int, b: int|
                #![trigger numbers@[a], numbers@[b]]
                top <= a < b < length ==> numbers@[a].key() <= numbers@[b].key(),
            forall|a: int, b: int|
                #![trigger numbers@[a], numbers@[b]]
                0 <= a < top <= b < length ==> numbers@[a].key() <= numbers@[b].key(),
        decreases top,
    {
        let i = top - 1;
        let ghost pre_swap = numbers@;
        proof {
            lemma_record(input, operations@, Operation::Swap(0, i), length as int, Algorithm::Heap);
            lemma_swap_permutation(numbers@, 0, i as int);
            assert forall|k: int| 0 <= k < top implies numbers@[0].key()
                >= #[trigger] numbers@[k].key() by {
                lemma_heap_root(numbers@, top as int, k);
            }
            lemma_heap_push(input, operations@, Operation::Swap(0, i));
        }
        exchange(&mut numbers, 0, i);
        operations.push(Operation::Swap(0, i));
        let ghost before = numbers@;
        let ghost first = operations@;
        proof {
            assert forall|p: int| 0 <= p < i && p != 0 implies #[trigger] heap_at(
                before,
                i as int,
                p,
            ) by {
                assert(heap_at(pre_swap, top as int, p));
            }
        }
        assert(sift_ready(before, i as int, 0, 0));
        let mut more = heapify(&mut numbers, i, 0);
        proof {
            law_replay_concat(input, first, more@);
            lemma_in_bounds_append(first, more@, i as int, length as int);
            lemma_emits_append(first, more@, Algorithm::Heap);
            lemma_heap_concat(input, first, more@);
            assert(before =~= before.take(i as int) + before.skip(i as int));
            assert(numbers@ =~= numbers@.take(i as int) + numbers@.skip(i as int));
            vstd::seq_lib::lemma_multiset_commutative(before.take(i as int), before.skip(i as int));
            vstd::seq_lib::lemma_multiset_commutative(
                numbers@.take(i as int),
                numbers@.skip(i as int),
            );
            assert forall|a: int, b: int| 0 <= a < i <= b < length implies numbers@[a].key()
                <= numbers@[b].key() by {
                let c = lemma_permutation_contains(
                    numbers@.take(i as int),
                    before.take(i as int),
                    a,
                );
                assert(numbers@[b] == before.skip(i as int)[b - i]);
            }
            assert forall|a: int, b: int| i <= a < b < length implies numbers@[a].key()
                <= numbers@[b].key() by {
                assert(numbers@[a] == before.skip(i as int)[a - i]);
                assert(numbers@[b] == before.skip(i as int)[b - i]);
            }
        }
        proof {
            let sift = sift_trace(swapped(pre_swap, 0, i as int), i as int, 0);
            assert(first =~= (first.take(first.len() - 1)).push(Operation::Swap(0, i)));
            assert(first.take(first.len() - 1) + (seq![Operation::Swap(0, i)] + sift.0
                + extract_trace(sift.1, i as int)) =~= (first + more@) + extract_trace(
                numbers@,
                i as int,
            ));
        }
        operations.append(&mut more);
        top = i;
    }
    proof {
        assert(sorted(numbers@));
        assert(operations@ + seq![] =~= operations@);
    }
    operations
}

} // verus!
