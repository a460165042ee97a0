use vstd::prelude::*;

use crate::key::SortKey;
use crate::algorithm::{emits_only, Algorithm};
use crate::operation::{all_in_bounds, lemma_replay_len, replay, Operation};

verus! {

broadcast use vstd::multiset::group_multiset_axioms;

/// The keys of `s` never decrease from one position to a later one.
pub open spec fn sorted<T: SortKey>(s: Seq<T>) -> bool {
    forall|a: int, b: int| #![trigger s[a], s[b]] 0 <= a < b < s.len() ==> s[a].key() <= s[b].key()
}

/// `a` and `b` hold the same elements, each as many times.
pub open spec fn permutation<T>(a: Seq<T>, b: Seq<T>) -> bool {
    a.to_multiset() == b.to_multiset()
}

/// Appending operations of the algorithm's kinds keeps every operation of its kinds.
pub proof fn lemma_emits_append<T>(a: Seq<Operation<T>>, b: Seq<Operation<T>>, algorithm: Algorithm)
    requires
        emits_only(a, algorithm),
        emits_only(b, algorithm),
    ensures
        emits_only(a + b, algorithm),
{
    assert forall|k: int| 0 <= k < (a + b).len() implies algorithm.emits(#[trigger] (a + b)[k]) by {
        if k < a.len() {
            assert((a + b)[k] == a[k]);
        } else {
            assert((a + b)[k] == b[k - a.len()]);
        }
    }
}

/// Replaying `ops` on `input` stays within it and leaves it sorted, holding the same
/// elements as before.
pub open spec fn sorts<T: SortKey>(input: Seq<T>, ops: Seq<Operation<T>>) -> bool {
    &&& all_in_bounds(ops, input.len() as int)
    &&& sorted(replay(input, ops))
    &&& permutation(replay(input, ops), input)
}

/// Recording one more operation: the list stays within bounds, and its replay is the
/// old replay with the operation applied.
pub proof fn lemma_record<T>(
    input: Seq<T>,
    ops: Seq<Operation<T>>,
    op: Operation<T>,
    n: int,
    algorithm: Algorithm,
)
    requires
        all_in_bounds(ops, n),
        op.in_bounds(n),
        emits_only(ops, algorithm),
        algorithm.emits(op),
    ensures
        all_in_bounds(ops.push(op), n),
        emits_only(ops.push(op), algorithm),
        replay(input, ops.push(op)) == op.effect(replay(input, ops)),
{
    assert(ops.push(op).drop_last() =~= ops);
    let more = ops.push(op);
    assert forall|k: int| 0 <= k < more.len() implies (#[trigger] more[k]).in_bounds(n)
        && algorithm.emits(more[k]) by {
        if k < ops.len() {
            assert(more[k] == ops[k]);
        }
    }
}

/// Exchanges the elements at `i` and `j`.
pub(crate) fn exchange<T: Copy>(v: &mut Vec<T>, i: usize, j: usize)
    requires
        i < old(v).len(),
        j < old(v).len(),
    ensures
        final(v)@ == swapped(old(v)@, i as int, j as int),
{
    let a = v[i];
    let b = v[j];
    v[i] = b;
    v[j] = a;
}

/// A copy of the elements `from .. to` of `v`.
pub(crate) fn copy_range<T: Copy>(v: &Vec<T>, from: usize, to: usize) -> (r: Vec<T>)
    requires
        from <= to <= v.len(),
    ensures
        r@ == v@.subrange(from as int, to as int),
{
    let mut r: Vec<T> = Vec::new();
    let mut k = from;
    while k < to
        invariant
            from <= k <= to <= v.len(),
            r@ == v@.subrange(from as int, k as int),
        decreases to - k,
    {
        r.push(v[k]);
        k = k + 1;
        assert(r@ =~= v@.subrange(from as int, k as int));
    }
    r
}

/// The element at the lower of positions `i` and `j` has the larger key.
pub open spec fn out_of_order<T: SortKey>(s: Seq<T>, i: usize, j: usize) -> bool {
    if i < j {
        s[i as int].key() > s[j as int].key()
    } else {
        s[j as int].key() > s[i as int].key()
    }
}

/// `s` with the elements at `i` and `j` exchanged.
pub open spec fn swapped<T>(s: Seq<T>, i: int, j: int) -> Seq<T> {
    s.update(i, s[j]).update(j, s[i])
}

/// How many elements of `s` have a larger key than `x`.
pub open spec fn count_above<T: SortKey>(s: Seq<T>, x: T) -> nat
    decreases s.len(),
{
    if s.len() == 0 {
        0
    } else {
        count_above(s.drop_last(), x) + if s.last().key() > x.key() {
            1nat
        } else {
            0nat
        }
    }
}

/// How many pairs of positions of `s` hold their elements out of order.
pub open spec fn inversions<T: SortKey>(s: Seq<T>) -> nat
    decreases s.len(),
{
    if s.len() == 0 {
        0
    } else {
        inversions(s.drop_last()) + count_above(s.drop_last(), s.last())
    }
}

/// Writing `v` at `i` takes one `s[i]` out of the multiset and puts one `v` in.
pub proof fn lemma_update_multiset<T>(s: Seq<T>, i: int, v: T)
    requires
        0 <= i < s.len(),
    ensures
        s.update(i, v).to_multiset() =~= s.to_multiset().remove(s[i]).insert(v),
{
    let r = s.update(i, v);
    let rm = r.to_multiset();
    let sm = s.to_multiset();
    assert(r.remove(i) =~= s.remove(i));
    r.to_multiset_ensures();
    s.to_multiset_ensures();
    assert(r[i] == v);
    assert(r.contains(v));
    assert(r.remove(i).to_multiset() == rm.remove(v));
    assert(s.remove(i).to_multiset() == sm.remove(s[i]));
    assert(rm.remove(v) == sm.remove(s[i]));
    assert(rm.count(v) > 0);
    assert forall|x: T| rm.count(x) == sm.remove(s[i]).insert(v).count(x) by {
        assert(rm.remove(v).count(x) == sm.remove(s[i]).count(x));
    }
}

/// Exchanging two elements keeps the multiset.
pub proof fn lemma_swap_permutation<T>(s: Seq<T>, i: int, j: int)
    requires
        0 <= i < s.len(),
        0 <= j < s.len(),
    ensures
        permutation(swapped(s, i, j), s),
{
    if i == j {
        assert(swapped(s, i, j) =~= s);
    } else {
        let s1 = s.update(i, s[j]);
        lemma_update_multiset(s, i, s[j]);
        lemma_update_multiset(s1, j, s[i]);
        assert(s1[j] == s[j]);
        s.to_multiset_ensures();
        assert(s.contains(s[i]));
        assert(s.contains(s[j]));
        assert(swapped(s, i, j).to_multiset() =~= s.to_multiset());
    }
}

/// Operations that only compare or exchange, all within the sequence, keep its elements:
/// after every prefix of them the sequence is a permutation of what it was.
pub proof fn law_exchanges_keep_elements<T>(s: Seq<T>, ops: Seq<Operation<T>>, k: int)
    requires
        all_in_bounds(ops, s.len() as int),
        forall|t: int|
            0 <= t < ops.len() ==> (#[trigger] ops[t] is Compare || ops[t] is CompareToValue
                || ops[t] is Swap),
        0 <= k <= ops.len(),
    ensures
        permutation(replay(s, ops.take(k)), s),
    decreases k,
{
    let prefix = ops.take(k);
    if k == 0 {
        assert(prefix.len() == 0);
    } else {
        law_exchanges_keep_elements(s, ops, k - 1);
        assert(prefix.drop_last() =~= ops.take(k - 1));
        assert(prefix.last() == ops[k - 1]);
        let before = replay(s, ops.take(k - 1));
        assert(all_in_bounds(ops.take(k - 1), s.len() as int)) by {
            assert forall|t: int| 0 <= t < ops.take(k - 1).len() implies (
            #[trigger] ops.take(k - 1)[t]).in_bounds(s.len() as int) by {
                assert(ops.take(k - 1)[t] == ops[t]);
            }
        }
        lemma_replay_len(s, ops.take(k - 1));
        assert(ops[k - 1].in_bounds(s.len() as int));
        if let Operation::Swap(i, j) = ops[k - 1] {
            lemma_swap_permutation(before, i as int, j as int);
        } else {
            assert(ops[k - 1] is Compare || ops[k - 1] is CompareToValue);
        }
    }
}

/// Inserting `a` anywhere adds one `a` to the multiset.
pub proof fn lemma_insert_multiset<T>(s: Seq<T>, k: int, a: T)
    requires
        0 <= k <= s.len(),
    ensures
        s.insert(k, a).to_multiset() =~= s.to_multiset().insert(a),
{
    let t = s.insert(k, a);
    assert(t.remove(k) =~= s);
    t.to_multiset_ensures();
    assert(t[k] == a);
    assert(t.contains(a));
}

/// An element of a sequence is an element of every permutation of it.
pub proof fn lemma_permutation_contains<T>(a: Seq<T>, b: Seq<T>, i: int) -> (j: int)
    requires
        permutation(a, b),
        0 <= i < a.len(),
    ensures
        0 <= j < b.len(),
        b[j] == a[i],
{
    a.to_multiset_ensures();
    b.to_multiset_ensures();
    assert(a.contains(a[i]));
    assert(b.to_multiset().count(a[i]) > 0);
    choose|j: int| 0 <= j < b.len() && b[j] == a[i]
}

/// A permutation of a sequence without repeated elements has none either.
pub proof fn lemma_permutation_no_duplicates<T>(a: Seq<T>, b: Seq<T>)
    requires
        permutation(a, b),
        a.no_duplicates(),
    ensures
        b.no_duplicates(),
{
    a.lemma_multiset_has_no_duplicates();
    b.lemma_multiset_has_no_duplicates_conv();
}

/// If each element is in order with the next one, the sequence is sorted.
pub proof fn lemma_adjacent_sorted<T: SortKey>(s: Seq<T>)
    requires
        forall|i: int| 0 <= i < s.len() - 1 ==> #[trigger] s[i].key() <= s[i + 1].key(),
    ensures
        sorted(s),
    decreases s.len(),
{
    if s.len() > 1 {
        let t = s.drop_last();
        assert forall|i: int| 0 <= i < t.len() - 1 implies #[trigger] t[i].key() <= t[i
            + 1].key() by {
            assert(s[i].key() <= s[i + 1].key());
        }
        lemma_adjacent_sorted(t);
        assert forall|a: int, b: int| 0 <= a < b < s.len() implies s[a].key() <= s[b].key() by {
            if b < s.len() - 1 {
                assert(t[a] == s[a] && t[b] == s[b]);
            } else if a < s.len() - 2 {
                assert(t[a] == s[a] && t[s.len() - 2] == s[s.len() - 2]);
                assert(s[s.len() - 2].key() <= s[s.len() - 1].key());
            } else {
                assert(s[s.len() - 2].key() <= s[s.len() - 1].key());
            }
        }
    }
}

/// Exchanging two neighbours leaves the count of elements above `x` as it is.
pub proof fn lemma_count_above_swap<T: SortKey>(s: Seq<T>, k: int, x: T)
    requires
        0 <= k,
        k + 1 < s.len(),
    ensures
        count_above(swapped(s, k, k + 1), x) == count_above(s, x),
    decreases s.len(),
{
    let w = swapped(s, k, k + 1);
    if k + 2 < s.len() {
        assert(w.drop_last() =~= swapped(s.drop_last(), k, k + 1));
        assert(w.last() == s.last());
        lemma_count_above_swap(s.drop_last(), k, x);
    } else {
        let u = s.drop_last().drop_last();
        assert(w.drop_last().drop_last() =~= u);
        assert(w.len() == s.len());
        assert(w[k + 1] == s[k]);
        assert(w[k] == s[k + 1]);
        assert(w.last() == s.drop_last().last());
        assert(w.drop_last().last() == s.last());
        assert(count_above(w, x) == count_above(w.drop_last(), x) + if w.last().key() > x.key() {
            1nat
        } else {
            0nat
        });
        assert(count_above(s, x) == count_above(s.drop_last(), x) + if s.last().key() > x.key() {
            1nat
        } else {
            0nat
        });
    }
}

/// Exchanging two neighbours that are out of order removes exactly one inversion.
pub proof fn lemma_inversions_swap<T: SortKey>(s: Seq<T>, k: int)
    requires
        0 <= k,
        k + 1 < s.len(),
        s[k].key() > s[k + 1].key(),
    ensures
        inversions(swapped(s, k, k + 1)) + 1 == inversions(s),
    decreases s.len(),
{
    let w = swapped(s, k, k + 1);
    if k + 2 < s.len() {
        assert(w.drop_last() =~= swapped(s.drop_last(), k, k + 1));
        assert(w.last() == s.last());
        lemma_inversions_swap(s.drop_last(), k);
        lemma_count_above_swap(s.drop_last(), k, s.last());
    } else {
        let u = s.drop_last().drop_last();
        let a = s[k];
        let b = s[k + 1];
        assert(w.drop_last().drop_last() =~= u);
        assert(w.len() == s.len());
        assert(w[k + 1] == a);
        assert(w[k] == b);
        assert(w.last() == a);
        assert(w.drop_last().last() == b);
        assert(s.drop_last().last() == a);
        assert(s.last() == b);
        assert(count_above(s.drop_last(), b) == count_above(u, b) + 1);
        assert(count_above(w.drop_last(), a) == count_above(u, a));
        assert(count_above(s.drop_last(), b) == count_above(s.drop_last().drop_last(), b) + 1);
        assert(count_above(w.drop_last(), a) == count_above(w.drop_last().drop_last(), a));
        assert(inversions(s.drop_last()) == inversions(u) + count_above(u, a));
        assert(inversions(w.drop_last()) == inversions(u) + count_above(u, b));
    }
}

/// Two sorted sequences that are permutations of each other are the same sequence.
pub proof fn law_sorted_permutation_unique<T: SortKey>(a: Seq<T>, b: Seq<T>)
    requires
        sorted(a),
        sorted(b),
        permutation(a, b),
    ensures
        a == b,
    decreases a.len(),
{
    a.to_multiset_ensures();
    b.to_multiset_ensures();
    if a.len() == 0 {
        assert(a =~= b);
    } else {
        let n = a.len() as int;
        let x = a[n - 1];
        let y = b[n - 1];
        let jx = lemma_permutation_contains(a, b, n - 1);
        let jy = lemma_permutation_contains(b, a, n - 1);
        assert(x.key() <= y.key()) by {
            if jx < n - 1 {
                assert(b[jx].key() <= b[n - 1].key());
            }
        }
        assert(y.key() <= x.key()) by {
            if jy < n - 1 {
                assert(a[jy].key() <= a[n - 1].key());
            }
        }
        T::lemma_key_injective(x, y);
        assert(a.remove(n - 1) =~= a.drop_last());
        assert(b.remove(n - 1) =~= b.drop_last());
        law_sorted_permutation_unique(a.drop_last(), b.drop_last());
        assert(a =~= b) by {
            assert forall|i: int| 0 <= i < n implies a[i] == b[i] by {
                if i < n - 1 {
                    assert(a.drop_last()[i] == b.drop_last()[i]);
                }
            }
        }
    }
}

} // verus!
