use vstd::prelude::*;

use crate::algorithm::{emits_only, Algorithm};
use crate::key::SortKey;
use crate::operation::{all_in_bounds, replay, Operation};
use crate::order::{
    exchange, inversions, lemma_adjacent_sorted, lemma_inversions_swap, lemma_record,
    lemma_swap_permutation, out_of_order, permutation, sorted, sorts, swapped,
};

verus! {

/// Every exchange comes right after a comparison of the same two positions, and a
/// comparison is followed by the exchange of its two positions exactly when, at that
/// point of the replay, their elements are out of order.
#[verifier::opaque]
pub open spec fn swaps_exactly_out_of_order<T: SortKey>(
    input: Seq<T>,
    ops: Seq<Operation<T>>,
) -> bool {
    forall|k: int|
        0 <= k < ops.len() ==> match #[trigger] ops[k] {
            Operation::Swap(i, j) => k >= 1 && ops[k - 1] == Operation::<T>::Compare(i, j),
            Operation::Compare(i, j) => (k + 1 < ops.len() && ops[k + 1] == Operation::<T>::Swap(
                i,
                j,
            )) == out_of_order(replay(input, ops.take(k)), i, j),
            _ => true,
        }
}

/// Before any operation, no exchange is out of place.
proof fn lemma_no_operations_yet<T: SortKey>(input: Seq<T>)
    ensures
        swaps_exactly_out_of_order(input, Seq::<Operation<T>>::empty()),
{
    reveal(swaps_exactly_out_of_order);
}

/// Recording a comparison of `i` and `j`, followed by their exchange exactly when they
/// are out of order, keeps every exchange tied to an out-of-order comparison.
proof fn lemma_compare_step<T: SortKey>(
    input: Seq<T>,
    ops: Seq<Operation<T>>,
    i: usize,
    j: usize,
    out: bool,
)
    requires
        swaps_exactly_out_of_order(input, ops),
        out == out_of_order(replay(input, ops), i, j),
    ensures
        swaps_exactly_out_of_order(
            input,
            if out {
                ops.push(Operation::Compare(i, j)).push(Operation::Swap(i, j))
            } else {
                ops.push(Operation::Compare(i, j))
            },
        ),
{
    reveal(swaps_exactly_out_of_order);
    let c = ops.push(Operation::Compare(i, j));
    let n = if out {
        c.push(Operation::Swap(i, j))
    } else {
        c
    };
    assert(n.take(ops.len() as int) =~= ops);
    assert forall|k: int| 0 <= k < n.len() implies match #[trigger] n[k] {
        Operation::Swap(a, b) => k >= 1 && n[k - 1] == Operation::<T>::Compare(a, b),
        Operation::Compare(a, b) => (k + 1 < n.len() && n[k + 1] == Operation::<T>::Swap(a, b))
            == out_of_order(replay(input, n.take(k)), a, b),
        _ => true,
    } by {
        if k < ops.len() {
            assert(n[k] == ops[k]);
            assert(n.take(k) =~= ops.take(k));
            if k + 1 < ops.len() {
                assert(n[k + 1] == ops[k + 1]);
            }
            if k >= 1 {
                assert(n[k - 1] == ops[k - 1]);
            }
        }
    }
}

/// One pass over the neighbouring pairs `(p, p + 1)` for `p = lo, lo + stride, ...` below
/// `hi`: each pair is compared, then exchanged when it is out of order. The result holds
/// the operations of the pass, the sequence after it, and whether anything was exchanged.
pub open spec fn rising_pass<T: SortKey>(s: Seq<T>, lo: int, hi: int, stride: int) -> (
    Seq<Operation<T>>,
    Seq<T>,
    bool,
)
    decreases if lo < hi { hi - lo } else { 0 },
{
    if hi <= lo || stride <= 0 {
        (seq![], s, false)
    } else {
        let compare = Operation::Compare(lo as usize, (lo + 1) as usize);
        if s[lo].key() > s[lo + 1].key() {
            let rest = rising_pass(swapped(s, lo, lo + 1), lo + stride, hi, stride);
            (seq![compare, Operation::Swap(lo as usize, (lo + 1) as usize)] + rest.0, rest.1, true)
        } else {
            let rest = rising_pass(s, lo + stride, hi, stride);
            (seq![compare] + rest.0, rest.1, rest.2)
        }
    }
}

/// One pass over the neighbouring pairs `(p, p + 1)` for `p` from `hi - 1` down to `lo`,
/// each compared and exchanged when out of order; the result is as for `rising_pass`.
pub open spec fn falling_pass<T: SortKey>(s: Seq<T>, lo: int, hi: int) -> (
    Seq<Operation<T>>,
    Seq<T>,
    bool,
)
    decreases hi - lo,
{
    if hi <= lo {
        (seq![], s, false)
    } else {
        let compare = Operation::Compare((hi - 1) as usize, hi as usize);
        if s[hi - 1].key() > s[hi].key() {
            let rest = falling_pass(swapped(s, hi - 1, hi), lo, hi - 1);
            (seq![compare, Operation::Swap((hi - 1) as usize, hi as usize)] + rest.0, rest.1, true)
        } else {
            let rest = falling_pass(s, lo, hi - 1);
            (seq![compare] + rest.0, rest.1, rest.2)
        }
    }
}

/// One step of a rising pass at position `p`, seen from operations `ops` already recorded
/// before it.
proof fn lemma_rising_step<T: SortKey>(
    ops: Seq<Operation<T>>,
    s: Seq<T>,
    p: int,
    hi: int,
    stride: int,
)
    requires
        0 <= p < hi,
        stride > 0,
    ensures
        ({
            let compare = Operation::Compare(p as usize, (p + 1) as usize);
            let here = rising_pass(s, p, hi, stride);
            if s[p].key() > s[p + 1].key() {
                let next = rising_pass(swapped(s, p, p + 1), p + stride, hi, stride);
                &&& ops + here.0 == ops.push(compare).push(
                    Operation::Swap(p as usize, (p + 1) as usize),
                ) + next.0
                &&& here.1 == next.1
                &&& here.2
            } else {
                let next = rising_pass(s, p + stride, hi, stride);
                &&& ops + here.0 == ops.push(compare) + next.0
                &&& here.1 == next.1
                &&& here.2 == next.2
            }
        }),
{
    let compare = Operation::Compare(p as usize, (p + 1) as usize);
    if s[p].key() > s[p + 1].key() {
        let next = rising_pass(swapped(s, p, p + 1), p + stride, hi, stride);
        let pair = seq![compare, Operation::Swap(p as usize, (p + 1) as usize)];
        assert(ops + (pair + next.0) =~= ops.push(compare).push(
            Operation::Swap(p as usize, (p + 1) as usize),
        ) + next.0);
    } else {
        let next = rising_pass(s, p + stride, hi, stride);
        assert(ops + (seq![compare] + next.0) =~= ops.push(compare) + next.0);
    }
}

/// One step of a falling pass at the pair `(p - 1, p)`, seen from operations `ops` already
/// recorded before it.
proof fn lemma_falling_step<T: SortKey>(ops: Seq<Operation<T>>, s: Seq<T>, lo: int, p: int)
    requires
        1 <= p,
        lo < p,
    ensures
        ({
            let compare = Operation::Compare((p - 1) as usize, p as usize);
            let here = falling_pass(s, lo, p);
            if s[p - 1].key() > s[p].key() {
                let next = falling_pass(swapped(s, p - 1, p), lo, p - 1);
                &&& ops + here.0 == ops.push(compare).push(
                    Operation::Swap((p - 1) as usize, p as usize),
                ) + next.0
                &&& here.1 == next.1
                &&& here.2
            } else {
                let next = falling_pass(s, lo, p - 1);
                &&& ops + here.0 == ops.push(compare) + next.0
                &&& here.1 == next.1
                &&& here.2 == next.2
            }
        }),
{
    let compare = Operation::Compare((p - 1) as usize, p as usize);
    if s[p - 1].key() > s[p].key() {
        let next = falling_pass(swapped(s, p - 1, p), lo, p - 1);
        let pair = seq![compare, Operation::Swap((p - 1) as usize, p as usize)];
        assert(ops + (pair + next.0) =~= ops.push(compare).push(
            Operation::Swap((p - 1) as usize, p as usize),
        ) + next.0);
    } else {
        let next = falling_pass(s, lo, p - 1);
        assert(ops + (seq![compare] + next.0) =~= ops.push(compare) + next.0);
    }
}

/// The operations of bubble sort on the `n` elements of `s` from pass `i` on: pass `i`
/// rises over the pairs below `n - 1 - i`, and the sort stops after the first pass that
/// exchanges nothing.
pub open spec fn bubble_trace<T: SortKey>(s: Seq<T>, i: int, n: int) -> Seq<Operation<T>>
    decreases n - 1 - i,
{
    if i + 1 >= n {
        seq![]
    } else {
        let pass = rising_pass(s, 0, n - 1 - i, 1);
        if pass.2 {
            pass.0 + bubble_trace(pass.1, i + 1, n)
        } else {
            pass.0
        }
    }
}

/// The operations of cocktail sort on `s` from the round whose rising pass covers the
/// pairs from `start` up to `end`: the rising pass, then, if it exchanged anything, the
/// falling pass over the pairs from `end - 1` down to `start`, and the next round with
/// both ends moved in by one, as long as the falling pass exchanged something.
pub open spec fn cocktail_trace<T: SortKey>(s: Seq<T>, start: int, end: int) -> Seq<
    Operation<T>,
>
    decreases if start < end { end - start } else { 0 },
{
    if end <= start {
        seq![]
    } else {
        let up = rising_pass(s, start, end, 1);
        if !up.2 {
            up.0
        } else {
            let down = falling_pass(up.1, start, end - 1);
            if down.2 {
                up.0 + down.0 + cocktail_trace(down.1, start + 1, end - 1)
            } else {
                up.0 + down.0
            }
        }
    }
}

/// The operations of gnome sort on `s` from position `index` on: the element at the
/// position (position one in place of zero) is compared with the one before it; where the
/// two are in order the sort steps forward, and otherwise it exchanges them and steps
/// back, until it steps past the end.
pub open spec fn gnome_trace<T: SortKey>(s: Seq<T>, index: int) -> Seq<Operation<T>>
    decreases inversions(s), s.len() - index,
{
    if s.len() < 2 || index < 0 || index >= s.len() {
        seq![]
    } else {
        let at = if index == 0 {
            1
        } else {
            index
        };
        let compare = Operation::Compare(at as usize, (at - 1) as usize);
        if s[at].key() < s[at - 1].key() {
            proof {
                lemma_inversions_swap(s, at - 1);
            }
            seq![compare, Operation::Swap(at as usize, (at - 1) as usize)] + gnome_trace(
                swapped(s, at - 1, at),
                at - 1,
            )
        } else {
            seq![compare] + gnome_trace(s, at + 1)
        }
    }
}

/// One step of gnome sort at position `index`, seen from operations `ops` already
/// recorded before it.
proof fn lemma_gnome_step<T: SortKey>(ops: Seq<Operation<T>>, s: Seq<T>, index: int)
    requires
        2 <= s.len(),
        0 <= index < s.len(),
    ensures
        ({
            let at = if index == 0 {
                1
            } else {
                index
            };
            let compare = Operation::Compare(at as usize, (at - 1) as usize);
            if s[at].key() < s[at - 1].key() {
                ops + gnome_trace(s, index) == ops.push(compare).push(
                    Operation::Swap(at as usize, (at - 1) as usize),
                ) + gnome_trace(swapped(s, at - 1, at), at - 1)
            } else {
                ops + gnome_trace(s, index) == ops.push(compare) + gnome_trace(s, at + 1)
            }
        }),
{
    let at = if index == 0 {
        1
    } else {
        index
    };
    let compare = Operation::Compare(at as usize, (at - 1) as usize);
    if s[at].key() < s[at - 1].key() {
        let rest = gnome_trace(swapped(s, at - 1, at), at - 1);
        let pair = seq![compare, Operation::Swap(at as usize, (at - 1) as usize)];
        assert(ops + (pair + rest) =~= ops.push(compare).push(
            Operation::Swap(at as usize, (at - 1) as usize),
        ) + rest);
    } else {
        let rest = gnome_trace(s, at + 1);
        assert(ops + (seq![compare] + rest) =~= ops.push(compare) + rest);
    }
}

/// A rising pass keeps the length, never adds an inversion, and removes at least one
/// when it exchanges something.
pub proof fn lemma_rising_pass_inversions<T: SortKey>(s: Seq<T>, lo: int, hi: int, stride: int)
    requires
        0 <= lo,
        hi < s.len(),
    ensures
        rising_pass(s, lo, hi, stride).1.len() == s.len(),
        inversions(rising_pass(s, lo, hi, stride).1) <= inversions(s),
        rising_pass(s, lo, hi, stride).2 ==> inversions(rising_pass(s, lo, hi, stride).1)
            < inversions(s),
    decreases if lo < hi { hi - lo } else { 0 },
{
    if hi <= lo || stride <= 0 {
    } else if s[lo].key() > s[lo + 1].key() {
        lemma_inversions_swap(s, lo);
        lemma_rising_pass_inversions(swapped(s, lo, lo + 1), lo + stride, hi, stride);
    } else {
        lemma_rising_pass_inversions(s, lo + stride, hi, stride);
    }
}

/// The operations of odd-even sort on `s`: a round is a rising pass over the pairs at odd
/// positions, then one over the pairs at even positions, and rounds go on until one
/// exchanges nothing.
pub open spec fn odd_even_trace<T: SortKey>(s: Seq<T>) -> Seq<Operation<T>>
    decreases inversions(s),
{
    if s.len() < 2 {
        seq![]
    } else {
        let odd = rising_pass(s, 1, s.len() - 1, 2);
        let even = rising_pass(odd.1, 0, s.len() - 1, 2);
        if odd.2 || even.2 {
            proof {
                lemma_rising_pass_inversions(s, 1, s.len() - 1, 2);
                lemma_rising_pass_inversions(odd.1, 0, s.len() - 1, 2);
            }
            odd.0 + even.0 + odd_even_trace(even.1)
        } else {
            odd.0 + even.0
        }
    }
}

/// The stretch `lo ..= hi` of `s` is in order.
pub open spec fn in_order_between<T: SortKey>(s: Seq<T>, lo: int, hi: int) -> bool {
    forall|a: int, b: int| #![trigger s[a], s[b]] lo <= a < b <= hi ==> s[a].key() <= s[b].key()
}

/// A rising pass over a stretch that is already in order compares each neighbouring pair
/// once, from the bottom up, and changes nothing.
proof fn lemma_rising_pass_in_order<T: SortKey>(s: Seq<T>, lo: int, hi: int)
    requires
        0 <= lo <= hi < s.len() <= usize::MAX,
        in_order_between(s, lo, hi),
    ensures
        rising_pass(s, lo, hi, 1) == (
            Seq::new((hi - lo) as nat, |k: int| Operation::<T>::Compare((lo + k) as usize, (lo + k + 1) as usize)),
            s,
            false,
        ),
    decreases hi - lo,
{
    if lo < hi {
        lemma_rising_pass_in_order(s, lo + 1, hi);
        let rest = Seq::new(
            (hi - lo - 1) as nat,
            |k: int| Operation::<T>::Compare((lo + 1 + k) as usize, (lo + 1 + k + 1) as usize),
        );
        assert(seq![Operation::<T>::Compare(lo as usize, (lo + 1) as usize)] + rest =~= Seq::new(
            (hi - lo) as nat,
            |k: int| Operation::<T>::Compare((lo + k) as usize, (lo + k + 1) as usize),
        ));
    } else {
        assert(Seq::<Operation<T>>::empty() =~= Seq::new(
            (hi - lo) as nat,
            |k: int| Operation::<T>::Compare((lo + k) as usize, (lo + k + 1) as usize),
        ));
    }
}

/// A falling pass over a stretch that is already in order compares each neighbouring
/// pair once, from the top down, and changes nothing.
proof fn lemma_falling_pass_in_order<T: SortKey>(s: Seq<T>, lo: int, hi: int)
    requires
        0 <= lo <= hi < s.len() <= usize::MAX,
        in_order_between(s, lo, hi),
    ensures
        falling_pass(s, lo, hi) == (
            Seq::new((hi - lo) as nat, |k: int| Operation::<T>::Compare((hi - 1 - k) as usize, (hi - k) as usize)),
            s,
            false,
        ),
    decreases hi - lo,
{
    if lo < hi {
        lemma_falling_pass_in_order(s, lo, hi - 1);
        let rest = Seq::new(
            (hi - 1 - lo) as nat,
            |k: int| Operation::<T>::Compare((hi - 1 - 1 - k) as usize, (hi - 1 - k) as usize),
        );
        assert(seq![Operation::<T>::Compare((hi - 1) as usize, hi as usize)] + rest =~= Seq::new(
            (hi - lo) as nat,
            |k: int| Operation::<T>::Compare((hi - 1 - k) as usize, (hi - k) as usize),
        ));
    } else {
        assert(Seq::<Operation<T>>::empty() =~= Seq::new(
            (hi - lo) as nat,
            |k: int| Operation::<T>::Compare((hi - 1 - k) as usize, (hi - k) as usize),
        ));
    }
}

/// Bubble sort stops at the first pass that finds its stretch in order: when the elements
/// below `n - i` are in order at pass `i`, that pass compares each of their neighbouring
/// pairs once and no operation follows.
pub proof fn law_bubble_stops_once_in_order<T: SortKey>(s: Seq<T>, i: int)
    requires
        s.len() <= usize::MAX,
        0 <= i,
        i + 1 < s.len(),
        in_order_between(s, 0, s.len() - 1 - i),
    ensures
        bubble_trace(s, i, s.len() as int) == Seq::new(
            (s.len() - 1 - i) as nat,
            |k: int| Operation::<T>::Compare(k as usize, (k + 1) as usize),
        ),
{
    lemma_rising_pass_in_order(s, 0, s.len() - 1 - i);
    assert(Seq::new(
        (s.len() - 1 - i - 0) as nat,
        |k: int| Operation::<T>::Compare((0 + k) as usize, (0 + k + 1) as usize),
    ) =~= Seq::new(
        (s.len() - 1 - i) as nat,
        |k: int| Operation::<T>::Compare(k as usize, (k + 1) as usize),
    ));
}

/// Cocktail sort stops after a falling pass that exchanges nothing: when the rising pass
/// of a round exchanges something and leaves the stretch below its top in order, the
/// falling pass only compares each neighbouring pair of that stretch once, from the top
/// down, and no operation follows.
pub proof fn law_cocktail_stops_after_a_quiet_pass<T: SortKey>(s: Seq<T>, start: int, end: int)
    requires
        s.len() <= usize::MAX,
        0 <= start < end < s.len(),
        rising_pass(s, start, end, 1).2,
        in_order_between(rising_pass(s, start, end, 1).1, start, end - 1),
    ensures
        cocktail_trace(s, start, end) == rising_pass(s, start, end, 1).0 + Seq::new(
            (end - 1 - start) as nat,
            |k: int| Operation::<T>::Compare((end - 2 - k) as usize, (end - 1 - k) as usize),
        ),
{
    let up = rising_pass(s, start, end, 1);
    lemma_rising_pass_inversions(s, start, end, 1);
    lemma_falling_pass_in_order(up.1, start, end - 1);
    assert(Seq::new(
        (end - 1 - start) as nat,
        |k: int| Operation::<T>::Compare((end - 1 - 1 - k) as usize, (end - 1 - k) as usize),
    ) =~= Seq::new(
        (end - 1 - start) as nat,
        |k: int| Operation::<T>::Compare((end - 2 - k) as usize, (end - 1 - k) as usize),
    ));
}

/// Bubble sort: passes over the unsorted front, exchanging neighbours that are out of
/// order, until a pass exchanges nothing.
pub fn bubble_sort<T: SortKey>(numbers: Vec<T>) -> (operations: Vec<Operation<T>>)
    ensures
        sorts(numbers@, operations@),
        emits_only(operations@, Algorithm::Bubble),
        swaps_exactly_out_of_order(numbers@, operations@),
        operations@ == bubble_trace(numbers@, 0, numbers.len() as int),
{
    let ghost input = numbers@;
    let mut numbers = numbers;
    let mut operations: Vec<Operation<T>> = Vec::new();
    proof {
        lemma_no_operations_yet::<T>(input);
    }
    let length = numbers.len();
    if length < 2 {
        return operations;
    }
    proof {
        assert(operations@ + bubble_trace(input, 0, length as int) =~= bubble_trace(
            input,
            0,
            length as int,
        ));
    }
    let mut i: usize = 0;
    let mut done = false;
    while i < length - 1 && !done
        invariant
            length == numbers.len() == input.len(),
            length >= 2,
            i <= length - 1,
            numbers@ == replay(input, operations@),
            all_in_bounds(operations@, length as int),
            emits_only(operations@, Algorithm::Bubble),
            swaps_exactly_out_of_order(input, operations@),
            permutation(numbers@, input),
            done ==> sorted(numbers@),
            bubble_trace(input, 0, length as int) == operations@ + if done {
                seq![]
            } else {
                bubble_trace(numbers@, i as int, length as int)
            },
            forall|a: int, b: int|
                #![trigger numbers@[a], numbers@[b]]
                length - i <= a < b < length ==> numbers@[a].key() <= numbers@[b].key(),
            forall|a: int, b: int|
                #![trigger numbers@[a], numbers@[b]]
                0 <= a < length - i <= b < length ==> numbers@[a].key() <= numbers@[b].key(),
        decreases length - i, if done { 0int } else { 1int },
    {
        let mut swapped_any = false;
        let ghost pass_start = numbers@;
        let ghost pass_ops = operations@;
        let ghost hi = length - i - 1;
        let mut j: usize = 0;
        while j < length - i - 1
            invariant
                hi == length - i - 1,
                bubble_trace(input, 0, length as int) == pass_ops + bubble_trace(
                    pass_start,
                    i as int,
                    length as int,
                ),
                operations@ + rising_pass(numbers@, j as int, hi, 1).0 == pass_ops + rising_pass(
                    pass_start,
                    0,
                    hi,
                    1,
                ).0,
                rising_pass(numbers@, j as int, hi, 1).1 == rising_pass(pass_start, 0, hi, 1).1,
                rising_pass(pass_start, 0, hi, 1).2 == (swapped_any || rising_pass(
                    numbers@,
                    j as int,
                    hi,
                    1,
                ).2),
                length == numbers.len() == input.len(),
                length >= 2,
                i < length - 1,
                j <= length - i - 1,
                numbers@ == replay(input, operations@),
                all_in_bounds(operations@, length as int),
                emits_only(operations@, Algorithm::Bubble),
                swaps_exactly_out_of_order(input, operations@),
                permutation(numbers@, input),
                forall|a: int, b: int|
                    #![trigger numbers@[a], numbers@[b]]
                    length - i <= a < b < length ==> numbers@[a].key() <= numbers@[b].key(),
                forall|a: int, b: int|
                    #![trigger numbers@[a], numbers@[b]]
                    0 <= a < length - i <= b < length ==> numbers@[a].key() <= numbers@[b].key(),
                forall|k: int|
                    0 <= k < j ==> #[trigger] numbers@[k].key() <= numbers@[j as int].key(),
                !swapped_any ==> forall|a: int, b: int|
                    #![trigger numbers@[a], numbers@[b]]
                    0 <= a < b <= j ==> numbers@[a].key() <= numbers@[b].key(),
            decreases length - i - 1 - j,
        {
            let next: usize = j + 1;
            let ghost before_ops = operations@;
            let ghost out = out_of_order(numbers@, j, next);
            proof {
                lemma_rising_step(operations@, numbers@, j as int, hi, 1);
                lemma_record(
                    input,
                    operations@,
                    Operation::Compare(j, next),
                    length as int,
                    Algorithm::Bubble,
                );
            }
            operations.push(Operation::Compare(j, next));
            if numbers[next].less_than(&numbers[j]) {
                proof {
                    lemma_record(
                        input,
                        operations@,
                        Operation::Swap(j, next),
                        length as int,
                        Algorithm::Bubble,
                    );
                    lemma_swap_permutation(numbers@, j as int, next as int);
                }
                exchange(&mut numbers, j, next);
                operations.push(Operation::Swap(j, next));
                swapped_any = true;
            }
            proof {
                lemma_compare_step(input, before_ops, j, next, out);
            }
            j = j + 1;
        }
        proof {
            let pass = rising_pass(pass_start, 0, hi, 1);
            assert(operations@ + seq![] =~= operations@);
            assert(pass_ops + (pass.0 + bubble_trace(numbers@, i + 1, length as int)) =~= (
            pass_ops + pass.0) + bubble_trace(numbers@, i + 1, length as int));
        }
        if !swapped_any {
            done = true;
        } else {
            i = i + 1;
        }
    }
    proof {
        assert(operations@ + seq![] =~= operations@);
    }
    operations
}

/// Cocktail sort: bubble passes that alternate between going up and going down, the
/// sorted stretches growing at both ends, until a pass exchanges nothing. A downward
/// pass over no pair (after the upward pass has closed the last gap) compares nothing.
pub fn cocktail_sort<T: SortKey>(numbers: Vec<T>) -> (operations: Vec<Operation<T>>)
    ensures
        sorts(numbers@, operations@),
        emits_only(operations@, Algorithm::Cocktail),
        swaps_exactly_out_of_order(numbers@, operations@),
        operations@ == cocktail_trace(numbers@, 0, numbers.len() - 1),
{
    let ghost input = numbers@;
    let mut numbers = numbers;
    let mut operations: Vec<Operation<T>> = Vec::new();
    proof {
        lemma_no_operations_yet::<T>(input);
    }
    let length = numbers.len();
    if length < 2 {
        return operations;
    }
    proof {
        assert(operations@ + cocktail_trace(input, 0, length - 1) =~= cocktail_trace(
            input,
            0,
            length - 1,
        ));
    }
    let mut swapped_any = true;
    let mut start: usize = 0;
    let mut end: usize = length - 1;
    while swapped_any
        invariant
            length == numbers.len() == input.len(),
            length >= 2,
            start <= end + 1,
            swapped_any ==> start <= end,
            end < length,
            numbers@ == replay(input, operations@),
            all_in_bounds(operations@, length as int),
            emits_only(operations@, Algorithm::Cocktail),
            swaps_exactly_out_of_order(input, operations@),
            permutation(numbers@, input),
            !swapped_any ==> sorted(numbers@),
            cocktail_trace(input, 0, length - 1) == operations@ + if swapped_any {
                cocktail_trace(numbers@, start as int, end as int)
            } else {
                seq![]
            },
            forall|a: int, b: int|
                #![trigger numbers@[a], numbers@[b]]
                0 <= a < b < length && a < start ==> numbers@[a].key() <= numbers@[b].key(),
            forall|a: int, b: int|
                #![trigger numbers@[a], numbers@[b]]
                0 <= a < b < length && end < b ==> numbers@[a].key() <= numbers@[b].key(),
        decreases end + 2 - start, if swapped_any { 1int } else { 0int },
    {
        swapped_any = false;
        let ghost pass_start = numbers@;
        let ghost round_ops = operations@;
        let mut i: usize = start;
        while i < end
            invariant
                cocktail_trace(input, 0, length - 1) == round_ops + cocktail_trace(
                    pass_start,
                    start as int,
                    end as int,
                ),
                operations@ + rising_pass(numbers@, i as int, end as int, 1).0 == round_ops
                    + rising_pass(pass_start, start as int, end as int, 1).0,
                rising_pass(numbers@, i as int, end as int, 1).1 == rising_pass(
                    pass_start,
                    start as int,
                    end as int,
                    1,
                ).1,
                rising_pass(pass_start, start as int, end as int, 1).2 == (swapped_any
                    || rising_pass(numbers@, i as int, end as int, 1).2),
                length == numbers.len() == input.len(),
                length >= 2,
                start <= i <= end,
                end < length,
                numbers@ == replay(input, operations@),
                all_in_bounds(operations@, length as int),
                emits_only(operations@, Algorithm::Cocktail),
                swaps_exactly_out_of_order(input, operations@),
                permutation(numbers@, input),
                !swapped_any ==> numbers@ == pass_start,
                swapped_any ==> start < end,
                forall|a: int, b: int|
                    #![trigger numbers@[a], numbers@[b]]
                    0 <= a < b < length && a < start ==> numbers@[a].key() <= numbers@[b].key(),
                forall|a: int, b: int|
                    #![trigger numbers@[a], numbers@[b]]
                    0 <= a < b < length && end < b ==> numbers@[a].key() <= numbers@[b].key(),
                forall|k: int|
                    start <= k < i ==> #[trigger] numbers@[k].key() <= numbers@[i as int].key(),
                !swapped_any ==> forall|a: int, b: int|
                    #![trigger numbers@[a], numbers@[b]]
                    start <= a < b <= i ==> numbers@[a].key() <= numbers@[b].key(),
            decreases end - i,
        {
            let next: usize = i + 1;
            let ghost before_ops = operations@;
            let ghost out = out_of_order(numbers@, i, next);
            proof {
                lemma_rising_step(operations@, numbers@, i as int, end as int, 1);
                lemma_record(
                    input,
                    operations@,
                    Operation::Compare(i, next),
                    length as int,
                    Algorithm::Cocktail,
                );
            }
            operations.push(Operation::Compare(i, next));
            if numbers[next].less_than(&numbers[i]) {
                proof {
                    lemma_record(
                        input,
                        operations@,
                        Operation::Swap(i, next),
                        length as int,
                        Algorithm::Cocktail,
                    );
                    lemma_swap_permutation(numbers@, i as int, next as int);
                }
                exchange(&mut numbers, i, next);
                operations.push(Operation::Swap(i, next));
                swapped_any = true;
            }
            proof {
                lemma_compare_step(input, before_ops, i, next, out);
            }
            i = next;
        }
        let ghost up = rising_pass(pass_start, start as int, end as int, 1);
        proof {
            assert(operations@ + seq![] =~= operations@);
        }
        if swapped_any {
            swapped_any = false;
            end = end - 1;
            let mut below: usize = end;
            let ghost down_start = numbers@;
            let ghost up_ops = operations@;
            while below > start
                invariant
                    up_ops == round_ops + up.0,
                    up.1 == down_start,
                    operations@ + falling_pass(numbers@, start as int, below as int).0 == up_ops
                        + falling_pass(down_start, start as int, end as int).0,
                    falling_pass(numbers@, start as int, below as int).1 == falling_pass(
                        down_start,
                        start as int,
                        end as int,
                    ).1,
                    falling_pass(down_start, start as int, end as int).2 == (swapped_any
                        || falling_pass(numbers@, start as int, below as int).2),
                    length == numbers.len() == input.len(),
                    length >= 2,
                    start <= below <= end,
                    end < length - 1,
                    swapped_any ==> start < end,
                    numbers@ == replay(input, operations@),
                    all_in_bounds(operations@, length as int),
                    emits_only(operations@, Algorithm::Cocktail),
                    swaps_exactly_out_of_order(input, operations@),
                    permutation(numbers@, input),
                    forall|a: int, b: int|
                        #![trigger numbers@[a], numbers@[b]]
                        0 <= a < b < length && a < start ==> numbers@[a].key() <= numbers@[b].key(),
                    forall|a: int, b: int|
                        #![trigger numbers@[a], numbers@[b]]
                        0 <= a < b < length && end < b ==> numbers@[a].key() <= numbers@[b].key(),
                    forall|k: int|
                        below < k <= end ==> numbers@[below as int].key()
                            <= #[trigger] numbers@[k].key(),
                    !swapped_any ==> forall|a: int, b: int|
                        #![trigger numbers@[a], numbers@[b]]
                        below <= a < b <= end ==> numbers@[a].key() <= numbers@[b].key(),
                decreases below,
            {
                let i: usize = below - 1;
                let ghost before_ops = operations@;
                let ghost out = out_of_order(numbers@, i, below);
                proof {
                    lemma_falling_step(operations@, numbers@, start as int, below as int);
                    lemma_record(
                        input,
                        operations@,
                        Operation::Compare(i, below),
                        length as int,
                        Algorithm::Cocktail,
                    );
                }
                operations.push(Operation::Compare(i, below));
                if numbers[below].less_than(&numbers[i]) {
                    proof {
                        lemma_record(
                            input,
                            operations@,
                            Operation::Swap(i, below),
                            length as int,
                            Algorithm::Cocktail,
                        );
                        lemma_swap_permutation(numbers@, i as int, below as int);
                    }
                    exchange(&mut numbers, i, below);
                    operations.push(Operation::Swap(i, below));
                    swapped_any = true;
                }
                proof {
                    lemma_compare_step(input, before_ops, i, below, out);
                }
                below = i;
            }
            proof {
                let down = falling_pass(down_start, start as int, end as int);
                assert(operations@ + seq![] =~= operations@);
                assert(round_ops + (up.0 + down.0 + cocktail_trace(
                    down.1,
                    start + 1,
                    end as int,
                )) =~= operations@ + cocktail_trace(down.1, start + 1, end as int));
                assert(round_ops + (up.0 + down.0) =~= operations@);
            }
            start = start + 1;
        }
    }
    operations
}

/// Gnome sort: steps forward while neighbours are in order, and otherwise exchanges them
/// and steps back.
pub fn gnome_sort<T: SortKey>(numbers: Vec<T>) -> (operations: Vec<Operation<T>>)
    ensures
        sorts(numbers@, operations@),
        emits_only(operations@, Algorithm::Gnome),
        swaps_exactly_out_of_order(numbers@, operations@),
        operations@ == gnome_trace(numbers@, 0),
{
    let ghost input = numbers@;
    let mut numbers = numbers;
    let mut operations: Vec<Operation<T>> = Vec::new();
    proof {
        lemma_no_operations_yet::<T>(input);
    }
    let length = numbers.len();
    if length < 2 {
        return operations;
    }
    proof {
        assert(operations@ + gnome_trace(input, 0) =~= gnome_trace(input, 0));
    }
    let mut index: usize = 0;
    while index < length
        invariant
            gnome_trace(input, 0) == operations@ + gnome_trace(numbers@, index as int),
            length == numbers.len() == input.len(),
            length >= 2,
            index <= length,
            numbers@ == replay(input, operations@),
            all_in_bounds(operations@, length as int),
            emits_only(operations@, Algorithm::Gnome),
            swaps_exactly_out_of_order(input, operations@),
            permutation(numbers@, input),
            forall|a: int, b: int|
                #![trigger numbers@[a], numbers@[b]]
                0 <= a < b < index ==> numbers@[a].key() <= numbers@[b].key(),
        decreases inversions(numbers@), length - index,
    {
        proof {
            lemma_gnome_step(operations@, numbers@, index as int);
        }
        if index == 0 {
            index = index + 1;
        }
        let prev: usize = index - 1;
        let current: usize = index;
        let ghost before_ops = operations@;
        let ghost out = out_of_order(numbers@, current, prev);
        proof {
            lemma_record(
                input,
                operations@,
                Operation::Compare(index, prev),
                length as int,
                Algorithm::Gnome,
            );
        }
        operations.push(Operation::Compare(index, prev));
        if !numbers[index].less_than(&numbers[prev]) {
            index = index + 1;
        } else {
            let ghost before = numbers@;
            proof {
                lemma_record(
                    input,
                    operations@,
                    Operation::Swap(index, prev),
                    length as int,
                    Algorithm::Gnome,
                );
                lemma_swap_permutation(numbers@, index as int, prev as int);
                lemma_inversions_swap(before, prev as int);
                assert(swapped(before, index as int, prev as int) =~= swapped(
                    before,
                    prev as int,
                    prev + 1,
                ));
            }
            exchange(&mut numbers, index, prev);
            operations.push(Operation::Swap(index, prev));
            index = prev;
        }
        proof {
            lemma_compare_step(input, before_ops, current, prev, out);
        }
    }
    proof {
        assert(operations@ + seq![] =~= operations@);
    }
    operations
}

/// Odd-even sort: rounds that compare the neighbours at odd positions, then those at even
/// positions, exchanging them where they are out of order, until a round exchanges
/// nothing.
#[verifier::rlimit(80)]
pub fn odd_even_sort<T: SortKey>(numbers: Vec<T>) -> (operations: Vec<Operation<T>>)
    ensures
        sorts(numbers@, operations@),
        emits_only(operations@, Algorithm::OddEven),
        swaps_exactly_out_of_order(numbers@, operations@),
        operations@ == odd_even_trace(numbers@),
{
    let ghost input = numbers@;
    let mut numbers = numbers;
    let mut operations: Vec<Operation<T>> = Vec::new();
    proof {
        lemma_no_operations_yet::<T>(input);
    }
    let length = numbers.len();
    if length < 2 {
        return operations;
    }
    proof {
        assert(operations@ + odd_even_trace(input) =~= odd_even_trace(input));
    }
    let mut sorted_flag = false;
    while !sorted_flag
        invariant
            odd_even_trace(input) == operations@ + if sorted_flag {
                seq![]
            } else {
                odd_even_trace(numbers@)
            },
            length == numbers.len() == input.len(),
            length >= 2,
            numbers@ == replay(input, operations@),
            all_in_bounds(operations@, length as int),
            emits_only(operations@, Algorithm::OddEven),
            swaps_exactly_out_of_order(input, operations@),
            permutation(numbers@, input),
            sorted_flag ==> sorted(numbers@),
        decreases inversions(numbers@) + if sorted_flag { 0int } else { 1int },
    {
        sorted_flag = true;
        let ghost round_start = numbers@;
        let ghost round_ops = operations@;
        let ghost hi = length - 1;
        let mut i: usize = 1;
        while i < length - 1
            invariant
                hi == length - 1,
                odd_even_trace(input) == round_ops + odd_even_trace(round_start),
                operations@ + rising_pass(numbers@, i as int, hi, 2).0 == round_ops
                    + rising_pass(round_start, 1, hi, 2).0,
                rising_pass(numbers@, i as int, hi, 2).1 == rising_pass(round_start, 1, hi, 2).1,
                rising_pass(round_start, 1, hi, 2).2 == (!sorted_flag || rising_pass(
                    numbers@,
                    i as int,
                    hi,
                    2,
                ).2),
                length == numbers.len() == input.len(),
                length >= 2,
                i % 2 == 1,
                1 <= i <= length,
                numbers@ == replay(input, operations@),
                all_in_bounds(operations@, length as int),
                emits_only(operations@, Algorithm::OddEven),
                swaps_exactly_out_of_order(input, operations@),
                permutation(numbers@, input),
                sorted_flag ==> numbers@ == round_start,
                sorted_flag ==> forall|k: int|
                    0 <= k < i && k % 2 == 1 && k + 1 < length ==> #[trigger] numbers@[k].key()
                        <= numbers@[k + 1].key(),
                inversions(numbers@) <= inversions(round_start),
                !sorted_flag ==> inversions(numbers@) < inversions(round_start),
            decreases length - i,
        {
            let next: usize = i + 1;
            let ghost before_ops = operations@;
            let ghost out = out_of_order(numbers@, i, next);
            proof {
                lemma_rising_step(operations@, numbers@, i as int, hi, 2);
                lemma_record(
                    input,
                    operations@,
                    Operation::Compare(i, next),
                    length as int,
                    Algorithm::OddEven,
                );
            }
            operations.push(Operation::Compare(i, next));
            if numbers[next].less_than(&numbers[i]) {
                proof {
                    lemma_record(
                        input,
                        operations@,
                        Operation::Swap(i, next),
                        length as int,
                        Algorithm::OddEven,
                    );
                    lemma_swap_permutation(numbers@, i as int, next as int);
                    lemma_inversions_swap(numbers@, i as int);
                }
                exchange(&mut numbers, i, next);
                operations.push(Operation::Swap(i, next));
                sorted_flag = false;
            }
            proof {
                lemma_compare_step(input, before_ops, i, next, out);
            }
            i = i + 2;
        }
        let ghost odd = rising_pass(round_start, 1, hi, 2);
        let ghost odd_ops = operations@;
        proof {
            assert(operations@ + seq![] =~= operations@);
        }
        let mut i: usize = 0;
        while i < length - 1
            invariant
                hi == length - 1,
                odd_even_trace(input) == round_ops + odd_even_trace(round_start),
                odd_ops == round_ops + odd.0,
                operations@ + rising_pass(numbers@, i as int, hi, 2).0 == odd_ops + rising_pass(
                    odd.1,
                    0,
                    hi,
                    2,
                ).0,
                rising_pass(numbers@, i as int, hi, 2).1 == rising_pass(odd.1, 0, hi, 2).1,
                (odd.2 || rising_pass(odd.1, 0, hi, 2).2) == (!sorted_flag || rising_pass(
                    numbers@,
                    i as int,
                    hi,
                    2,
                ).2),
                length == numbers.len() == input.len(),
                length >= 2,
                i % 2 == 0,
                i <= length,
                numbers@ == replay(input, operations@),
                all_in_bounds(operations@, length as int),
                emits_only(operations@, Algorithm::OddEven),
                swaps_exactly_out_of_order(input, operations@),
                permutation(numbers@, input),
                sorted_flag ==> numbers@ == round_start,
                sorted_flag ==> forall|k: int|
                    0 <= k < length - 1 && k % 2 == 1 ==> #[trigger] numbers@[k].key()
                        <= numbers@[k + 1].key(),
                sorted_flag ==> forall|k: int|
                    0 <= k < i && k % 2 == 0 && k + 1 < length ==> #[trigger] numbers@[k].key()
                        <= numbers@[k + 1].key(),
                inversions(numbers@) <= inversions(round_start),
                !sorted_flag ==> inversions(numbers@) < inversions(round_start),
            decreases length - i,
        {
            let next: usize = i + 1;
            let ghost before_ops = operations@;
            let ghost out = out_of_order(numbers@, i, next);
            proof {
                lemma_rising_step(operations@, numbers@, i as int, hi, 2);
                lemma_record(
                    input,
                    operations@,
                    Operation::Compare(i, next),
                    length as int,
                    Algorithm::OddEven,
                );
            }
            operations.push(Operation::Compare(i, next));
            if numbers[next].less_than(&numbers[i]) {
                proof {
                    lemma_record(
                        input,
                        operations@,
                        Operation::Swap(i, next),
                        length as int,
                        Algorithm::OddEven,
                    );
                    lemma_swap_permutation(numbers@, i as int, next as int);
                    lemma_inversions_swap(numbers@, i as int);
                }
                exchange(&mut numbers, i, next);
                operations.push(Operation::Swap(i, next));
                sorted_flag = false;
            }
            proof {
                lemma_compare_step(input, before_ops, i, next, out);
            }
            i = i + 2;
        }
        proof {
            let even = rising_pass(odd.1, 0, hi, 2);
            assert(operations@ + seq![] =~= operations@);
            assert(round_ops + (odd.0 + even.0 + odd_even_trace(numbers@)) =~= operations@
                + odd_even_trace(numbers@));
            assert(round_ops + (odd.0 + even.0) =~= operations@);
            if sorted_flag {
                assert forall|k: int| 0 <= k < numbers@.len() - 1 implies #[trigger] numbers@[
                    k
                ].key() <= numbers@[k + 1].key() by {
                    if k % 2 == 1 {
                    } else {
                    }
                }
                lemma_adjacent_sorted(numbers@);
            }
        }
    }
    proof {
        assert(operations@ + seq![] =~= operations@);
    }
    operations
}

} // verus!
