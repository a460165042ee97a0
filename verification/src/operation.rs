use vstd::prelude::*;

verus! {

/// One step of a sorting algorithm, as it would be shown to a viewer.
///
/// Indices refer to positions in the sequence being sorted.
#[derive(Clone, Copy, Debug, PartialEq, Eq)]
pub enum Operation<T> {
    /// The elements at the two positions are compared.
    Compare(usize, usize),
    /// The element at the position is compared with a value held aside.
    CompareToValue(usize),
    /// The element at the second position is copied to the first position.
    Write(usize, usize),
    /// The value is written at the position.
    WriteValue(usize, T),
    /// The elements at the two positions are exchanged.
    Swap(usize, usize),
}

impl<T> Operation<T> {
    /// Every position that the operation names is below `n`.
    pub open spec fn in_bounds(self, n: int) -> bool {
        match self {
            Operation::Compare(i, j) => i < n && j < n,
            Operation::CompareToValue(i) => i < n,
            Operation::Write(i, j) => i < n && j < n,
            Operation::WriteValue(i, _) => i < n,
            Operation::Swap(i, j) => i < n && j < n,
        }
    }

    /// The positions that the operation reads or writes when it is applied are below `n`
    /// (comparisons change nothing, so any positions will do for them).
    pub open spec fn can_apply(self, n: int) -> bool {
        match self {
            Operation::Compare(_, _) => true,
            Operation::CompareToValue(_) => true,
            Operation::Write(i, j) => i < n && j < n,
            Operation::WriteValue(i, _) => i < n,
            Operation::Swap(i, j) => i < n && j < n,
        }
    }

    /// What applying the operation makes of the sequence `s`.
    pub open spec fn effect(self, s: Seq<T>) -> Seq<T> {
        match self {
            Operation::Compare(_, _) => s,
            Operation::CompareToValue(_) => s,
            Operation::Write(i, j) => s.update(i as int, s[j as int]),
            Operation::WriteValue(i, v) => s.update(i as int, v),
            Operation::Swap(i, j) => s.update(i as int, s[j as int]).update(j as int, s[i as int]),
        }
    }

    /// The largest position that the operation names.
    pub open spec fn max_index(self) -> int {
        match self {
            Operation::Compare(i, j) => if i < j { j as int } else { i as int },
            Operation::CompareToValue(i) => i as int,
            Operation::Write(i, j) => if i < j { j as int } else { i as int },
            Operation::WriteValue(i, _) => i as int,
            Operation::Swap(i, j) => if i < j { j as int } else { i as int },
        }
    }

    /// The same operation with every position moved up by `k`.
    pub open spec fn shifted(self, k: int) -> Operation<T> {
        match self {
            Operation::Compare(i, j) => Operation::Compare((i + k) as usize, (j + k) as usize),
            Operation::CompareToValue(i) => Operation::CompareToValue((i + k) as usize),
            Operation::Write(i, j) => Operation::Write((i + k) as usize, (j + k) as usize),
            Operation::WriteValue(i, v) => Operation::WriteValue((i + k) as usize, v),
            Operation::Swap(i, j) => Operation::Swap((i + k) as usize, (j + k) as usize),
        }
    }
}

/// Every operation of `ops` names only positions below `n`.
pub open spec fn all_in_bounds<T>(ops: Seq<Operation<T>>, n: int) -> bool {
    forall|k: int| 0 <= k < ops.len() ==> (#[trigger] ops[k]).in_bounds(n)
}

/// The sequence that applying `ops`, first to last, makes of `s`.
pub open spec fn replay<T>(s: Seq<T>, ops: Seq<Operation<T>>) -> Seq<T>
    decreases ops.len(),
{
    if ops.len() == 0 {
        s
    } else {
        ops.last().effect(replay(s, ops.drop_last()))
    }
}

/// `ops` with every position moved up by `k`.
pub open spec fn shift_all<T>(ops: Seq<Operation<T>>, k: int) -> Seq<Operation<T>> {
    ops.map_values(|op: Operation<T>| op.shifted(k))
}

/// `holds(s, op)` is true of every operation `op` of `ops` and of the sequence `s` that
/// it is applied to when `ops` is replayed on `input`.
pub open spec fn each_step<T>(
    input: Seq<T>,
    ops: Seq<Operation<T>>,
    holds: spec_fn(Seq<T>, Operation<T>) -> bool,
) -> bool {
    forall|k: int| 0 <= k < ops.len() ==> holds(replay(input, ops.take(k)), #[trigger] ops[k])
}

/// Recording one more operation for which `holds` is true of the sequence it meets.
pub proof fn lemma_each_step_push<T>(
    input: Seq<T>,
    ops: Seq<Operation<T>>,
    op: Operation<T>,
    holds: spec_fn(Seq<T>, Operation<T>) -> bool,
)
    requires
        each_step(input, ops, holds),
        holds(replay(input, ops), op),
    ensures
        each_step(input, ops.push(op), holds),
{
    let n = ops.push(op);
    assert(n.take(ops.len() as int) =~= ops);
    assert forall|k: int| 0 <= k < n.len() implies holds(
        replay(input, n.take(k)),
        #[trigger] n[k],
    ) by {
        if k < ops.len() {
            assert(n[k] == ops[k]);
            assert(n.take(k) =~= ops.take(k));
        }
    }
}

/// Two lists of steps, the second starting where the first leaves the sequence, make one.
pub proof fn lemma_each_step_concat<T>(
    input: Seq<T>,
    a: Seq<Operation<T>>,
    b: Seq<Operation<T>>,
    holds: spec_fn(Seq<T>, Operation<T>) -> bool,
)
    requires
        each_step(input, a, holds),
        each_step(replay(input, a), b, holds),
    ensures
        each_step(input, a + b, holds),
{
    assert forall|k: int| 0 <= k < (a + b).len() implies holds(
        replay(input, (a + b).take(k)),
        #[trigger] (a + b)[k],
    ) by {
        if k < a.len() {
            assert((a + b).take(k) =~= a.take(k));
            assert((a + b)[k] == a[k]);
        } else {
            let t = k - a.len();
            assert((a + b).take(k) =~= a + b.take(t));
            law_replay_concat(input, a, b.take(t));
            assert((a + b)[k] == b[t]);
        }
    }
}

/// Steps written for a stretch of `m` elements, moved up by `k`, keep a property that
/// holds of the whole sequence whenever it holds of the stretch.
pub proof fn lemma_each_step_shifted<T>(
    s: Seq<T>,
    ops: Seq<Operation<T>>,
    k: int,
    m: int,
    holds: spec_fn(Seq<T>, Operation<T>) -> bool,
)
    requires
        0 <= k,
        0 <= m,
        k + m <= s.len() <= usize::MAX,
        all_in_bounds(ops, m),
        each_step(s.subrange(k, k + m), ops, holds),
        forall|full: Seq<T>, op: Operation<T>|
            full.len() == s.len() && op.in_bounds(m) && holds(full.subrange(k, k + m), op)
                ==> #[trigger] holds(full, op.shifted(k)),
    ensures
        each_step(s, shift_all(ops, k), holds),
{
    let sub = s.subrange(k, k + m);
    let shifted = shift_all(ops, k);
    assert forall|t: int| 0 <= t < shifted.len() implies holds(
        replay(s, shifted.take(t)),
        #[trigger] shifted[t],
    ) by {
        let prefix = ops.take(t);
        assert(all_in_bounds(prefix, m)) by {
            assert forall|i: int| 0 <= i < prefix.len() implies (
            #[trigger] prefix[i]).in_bounds(m) by {
                assert(prefix[i] == ops[i]);
            }
        }
        assert(shifted.take(t) =~= shift_all(prefix, k));
        law_replay_shifted(s, prefix, k, m);
        lemma_replay_len(sub, prefix);
        let full = replay(s, shifted.take(t));
        let r = replay(sub, prefix);
        assert(full.subrange(k, k + m) =~= r);
        assert(ops[t].in_bounds(m));
        assert(holds(r, ops[t]));
        assert(shifted[t] == ops[t].shifted(k));
    }
}

/// Replaying one more operation applies it to what the earlier ones made.
pub proof fn lemma_replay_push<T>(s: Seq<T>, ops: Seq<Operation<T>>, op: Operation<T>)
    ensures
        replay(s, ops.push(op)) == op.effect(replay(s, ops)),
{
    assert(ops.push(op).drop_last() =~= ops);
}

/// Operations within `m` positions are within any `n >= m` positions, and two lists
/// within `n` positions make a list within `n` positions.
pub proof fn lemma_in_bounds_append<T>(a: Seq<Operation<T>>, b: Seq<Operation<T>>, m: int, n: int)
    requires
        all_in_bounds(a, n),
        all_in_bounds(b, m),
        m <= n,
    ensures
        all_in_bounds(a + b, n),
{
    assert forall|k: int| 0 <= k < (a + b).len() implies (#[trigger] (a + b)[k]).in_bounds(n) by {
        if k < a.len() {
            assert((a + b)[k] == a[k]);
        } else {
            assert((a + b)[k] == b[k - a.len()]);
            assert(b[k - a.len()].in_bounds(m));
        }
    }
}

/// The first positions of the exchanges among `ops`, in order.
pub open spec fn swap_positions<T>(ops: Seq<Operation<T>>) -> Seq<int>
    decreases ops.len(),
{
    if ops.len() == 0 {
        seq![]
    } else {
        let rest = swap_positions(ops.drop_last());
        match ops.last() {
            Operation::Swap(i, _) => rest.push(i as int),
            _ => rest,
        }
    }
}

/// The exchanges of two lists of operations one after the other are those of the first,
/// then those of the second.
pub proof fn lemma_swap_positions_concat<T>(a: Seq<Operation<T>>, b: Seq<Operation<T>>)
    ensures
        swap_positions(a + b) == swap_positions(a) + swap_positions(b),
    decreases b.len(),
{
    if b.len() == 0 {
        assert(a + b =~= a);
        assert(swap_positions(a) + swap_positions(b) =~= swap_positions(a));
    } else {
        lemma_swap_positions_concat(a, b.drop_last());
        assert((a + b).drop_last() =~= a + b.drop_last());
        assert((a + b).last() == b.last());
        let pa = swap_positions(a);
        let pb = swap_positions(b.drop_last());
        if let Operation::Swap(i, _) = b.last() {
            assert((pa + pb).push(i as int) =~= pa + pb.push(i as int));
        }
    }
}

/// Operations none of which is an exchange have no exchange positions.
pub proof fn lemma_swap_positions_none<T>(ops: Seq<Operation<T>>)
    requires
        forall|t: int| 0 <= t < ops.len() ==> !(#[trigger] ops[t] is Swap),
    ensures
        swap_positions(ops) == Seq::<int>::empty(),
    decreases ops.len(),
{
    if ops.len() > 0 {
        assert(ops.last() == ops[ops.len() - 1]);
        lemma_swap_positions_none(ops.drop_last());
    }
}

/// Replaying operations that stay within the sequence keeps its length.
pub proof fn lemma_replay_len<T>(s: Seq<T>, ops: Seq<Operation<T>>)
    requires
        all_in_bounds(ops, s.len() as int),
    ensures
        replay(s, ops).len() == s.len(),
    decreases ops.len(),
{
    if ops.len() > 0 {
        lemma_replay_len(s, ops.drop_last());
        assert(ops.last().in_bounds(s.len() as int)) by {
            assert(ops[ops.len() - 1] == ops.last());
        }
    }
}

/// Replaying two lists of operations one after the other is replaying their
/// concatenation.
pub proof fn law_replay_concat<T>(s: Seq<T>, a: Seq<Operation<T>>, b: Seq<Operation<T>>)
    ensures
        replay(s, a + b) == replay(replay(s, a), b),
    decreases b.len(),
{
    if b.len() == 0 {
        assert(a + b =~= a);
    } else {
        assert((a + b).drop_last() =~= a + b.drop_last());
        assert((a + b).last() == b.last());
        law_replay_concat(s, a, b.drop_last());
    }
}

/// Operations written for a stretch of `m` elements, moved up by `k`, do to the
/// positions `k .. k + m` of a longer sequence what they do to that stretch alone, and
/// leave every other position as it is.
pub proof fn law_replay_shifted<T>(s: Seq<T>, ops: Seq<Operation<T>>, k: int, m: int)
    requires
        0 <= k,
        0 <= m,
        k + m <= s.len() <= usize::MAX,
        all_in_bounds(ops, m),
    ensures
        replay(s, shift_all(ops, k)) == s.take(k) + replay(s.subrange(k, k + m), ops) + s.skip(
            k + m,
        ),
    decreases ops.len(),
{
    let sub = s.subrange(k, k + m);
    if ops.len() == 0 {
        assert(s =~= s.take(k) + sub + s.skip(k + m));
    } else {
        let init = ops.drop_last();
        let op = ops.last();
        assert(all_in_bounds(init, m)) by {
            assert forall|i: int| 0 <= i < init.len() implies (#[trigger] init[i]).in_bounds(m) by {
                assert(init[i] == ops[i]);
            }
        }
        assert(op.in_bounds(m)) by {
            assert(ops[ops.len() - 1] == op);
        }
        law_replay_shifted(s, init, k, m);
        lemma_replay_len(sub, init);
        assert(shift_all(ops, k).drop_last() =~= shift_all(init, k));
        assert(shift_all(ops, k).last() == op.shifted(k));
        let r = replay(sub, init);
        let full = s.take(k) + r + s.skip(k + m);
        assert(op.shifted(k).effect(full) =~= s.take(k) + op.effect(r) + s.skip(k + m));
    }
}

/// Operations written for the first `m` elements do to them what they do to those
/// elements alone, and leave the rest as it is.
pub proof fn law_replay_prefix<T>(s: Seq<T>, ops: Seq<Operation<T>>, m: int)
    requires
        0 <= m <= s.len() <= usize::MAX,
        all_in_bounds(ops, m),
    ensures
        replay(s, ops) == replay(s.take(m), ops) + s.skip(m),
{
    law_replay_shifted(s, ops, 0, m);
    assert forall|i: int| 0 <= i < ops.len() implies #[trigger] shift_all(ops, 0)[i] == ops[i] by {
        assert(ops[i].in_bounds(m));
    }
    assert(shift_all(ops, 0) =~= ops);
    assert(s.take(0) + replay(s.subrange(0, m), ops) =~= replay(s.take(m), ops)) by {
        assert(s.subrange(0, m) =~= s.take(m));
    }
}

/// Comparisons leave the sequence as it is.
pub proof fn law_compare_changes_nothing<T>(s: Seq<T>, i: usize, j: usize)
    ensures
        Operation::<T>::Compare(i, j).effect(s) == s,
        Operation::<T>::CompareToValue(i).effect(s) == s,
{
}

/// A swap undoes itself: swapping the same two positions twice gives back the sequence.
pub proof fn law_swap_undoes_itself<T>(s: Seq<T>, i: usize, j: usize)
    requires
        i < s.len(),
        j < s.len(),
    ensures
        Operation::<T>::Swap(i, j).effect(Operation::<T>::Swap(i, j).effect(s)) == s,
{
    assert(Operation::<T>::Swap(i, j).effect(Operation::<T>::Swap(i, j).effect(s)) =~= s);
}

impl<T: Copy> Operation<T> {
    /// Performs the operation on `numbers`: a copy for `Write` and `WriteValue`, an
    /// exchange for `Swap`; comparisons leave `numbers` as it is.
    pub fn apply(self, numbers: &mut [T])
        requires
            self.can_apply(old(numbers)@.len() as int),
        ensures
            final(numbers)@ == self.effect(old(numbers)@),
    {
        match self {
            Operation::Write(i, j) => {
                let v = numbers[j];
                numbers[i] = v;
            },
            Operation::WriteValue(index, value) => {
                numbers[index] = value;
            },
            Operation::Swap(i, j) => {
                let a = numbers[i];
                let b = numbers[j];
                numbers[i] = b;
                numbers[j] = a;
            },
            _ => {},
        }
    }

    /// Moves every position that the operation names up by `shift`.
    pub fn shift_index(&mut self, shift: usize)
        requires
            old(self).max_index() + shift <= usize::MAX,
        ensures
            *final(self) == old(self).shifted(shift as int),
    {
        *self = match *self {
            Operation::Compare(i, j) => Operation::Compare(i + shift, j + shift),
            Operation::CompareToValue(index) => Operation::CompareToValue(index + shift),
            Operation::Write(i, j) => Operation::Write(i + shift, j + shift),
            Operation::WriteValue(index, value) => Operation::WriteValue(index + shift, value),
            Operation::Swap(i, j) => Operation::Swap(i + shift, j + shift),
        };
    }
}

} // verus!
