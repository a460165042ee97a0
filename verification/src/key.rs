use vstd::prelude::*;

verus! {

/// Element types that the sorting algorithms can order.
///
/// The order is the order of the integer `key()`; distinct values have distinct keys,
/// so the order is total and antisymmetric.
pub trait SortKey: Copy {
    /// The integer by which the value is ordered.
    spec fn key(&self) -> int;

    /// Whether `self` comes strictly before `other`.
    fn less_than(&self, other: &Self) -> (r: bool)
        ensures
            r == (self.key() < other.key()),
    ;

    /// Values with the same key are the same value.
    proof fn lemma_key_injective(a: Self, b: Self)
        ensures
            a.key() == b.key() ==> a == b,
    ;
}

impl SortKey for u8 {
    open spec fn key(&self) -> int {
        *self as int
    }

    fn less_than(&self, other: &Self) -> (r: bool) {
        *self < *other
    }

    proof fn lemma_key_injective(a: Self, b: Self) {
    }
}

impl SortKey for u16 {
    open spec fn key(&self) -> int {
        *self as int
    }

    fn less_than(&self, other: &Self) -> (r: bool) {
        *self < *other
    }

    proof fn lemma_key_injective(a: Self, b: Self) {
    }
}

impl SortKey for u32 {
    open spec fn key(&self) -> int {
        *self as int
    }

    fn less_than(&self, other: &Self) -> (r: bool) {
        *self < *other
    }

    proof fn lemma_key_injective(a: Self, b: Self) {
    }
}

impl SortKey for u64 {
    open spec fn key(&self) -> int {
        *self as int
    }

    fn less_than(&self, other: &Self) -> (r: bool) {
        *self < *other
    }

    proof fn lemma_key_injective(a: Self, b: Self) {
    }
}

impl SortKey for usize {
    open spec fn key(&self) -> int {
        *self as int
    }

    fn less_than(&self, other: &Self) -> (r: bool) {
        *self < *other
    }

    proof fn lemma_key_injective(a: Self, b: Self) {
    }
}

impl SortKey for i8 {
    open spec fn key(&self) -> int {
        *self as int
    }

    fn less_than(&self, other: &Self) -> (r: bool) {
        *self < *other
    }

    proof fn lemma_key_injective(a: Self, b: Self) {
    }
}

impl SortKey for i16 {
    open spec fn key(&self) -> int {
        *self as int
    }

    fn less_than(&self, other: &Self) -> (r: bool) {
        *self < *other
    }

    proof fn lemma_key_injective(a: Self, b: Self) {
    }
}

impl SortKey for i32 {
    open spec fn key(&self) -> int {
        *self as int
    }

    fn less_than(&self, other: &Self) -> (r: bool) {
        *self < *other
    }

    proof fn lemma_key_injective(a: Self, b: Self) {
    }
}

impl SortKey for i64 {
    open spec fn key(&self) -> int {
        *self as int
    }

    fn less_than(&self, other: &Self) -> (r: bool) {
        *self < *other
    }

    proof fn lemma_key_injective(a: Self, b: Self) {
    }
}

impl SortKey for isize {
    open spec fn key(&self) -> int {
        *self as int
    }

    fn less_than(&self, other: &Self) -> (r: bool) {
        *self < *other
    }

    proof fn lemma_key_injective(a: Self, b: Self) {
    }
}

} // verus!
