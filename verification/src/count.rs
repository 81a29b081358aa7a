//! Counter types that a reference count may be kept in.
use vstd::prelude::*;

verus! {

/// An integer type whose values can count references; signed types may count
/// below zero.
///
/// `value` is the mathematical number a value stands for; `min_count` and
/// `max_count` are the bounds of the type.
pub trait Count: Sized {
    spec fn value(&self) -> int;

    spec fn min_count() -> int;

    spec fn max_count() -> int;

    /// Every value lies within the bounds of its type, and one is representable.
    proof fn lemma_bounds(c: &Self)
        ensures
            Self::min_count() <= c.value() <= Self::max_count(),
            Self::min_count() <= 0,
            1 <= Self::max_count(),
    ;

    /// A value is fixed by the number it stands for.
    proof fn lemma_value_determines(a: &Self, b: &Self)
        ensures
            a.value() == b.value() ==> *a == *b,
    ;

    fn one() -> (r: Self)
        ensures
            r.value() == 1,
    ;

    /// The value plus one, or `None` where that does not fit the type.
    fn checked_increment(&self) -> (r: Option<Self>)
        ensures
            match r {
                Some(n) => n.value() == self.value() + 1,
                None => self.value() + 1 > Self::max_count(),
            },
    ;

    /// The value minus one, or `None` where that does not fit the type.
    fn checked_decrement(&self) -> (r: Option<Self>)
        ensures
            match r {
                Some(n) => n.value() == self.value() - 1,
                None => self.value() - 1 < Self::min_count(),
            },
    ;

    fn is_zero(&self) -> (r: bool)
        ensures
            r == (self.value() == 0),
    ;
}

impl Count for u8 {
    open spec fn value(&self) -> int {
        *self as int
    }

    open spec fn min_count() -> int {
        0
    }

    open spec fn max_count() -> int {
        u8::MAX as int
    }

    proof fn lemma_bounds(c: &Self) {
    }

    proof fn lemma_value_determines(a: &Self, b: &Self) {
    }

    fn one() -> (r: Self) {
        1
    }

    fn checked_increment(&self) -> (r: Option<Self>) {
        self.checked_add(1)
    }

    fn checked_decrement(&self) -> (r: Option<Self>) {
        self.checked_sub(1)
    }

    fn is_zero(&self) -> (r: bool) {
        *self == 0
    }
}

impl Count for u16 {
    open spec fn value(&self) -> int {
        *self as int
    }

    open spec fn min_count() -> int {
        0
    }

    open spec fn max_count() -> int {
        u16::MAX as int
    }

    proof fn lemma_bounds(c: &Self) {
    }

    proof fn lemma_value_determines(a: &Self, b: &Self) {
    }

    fn one() -> (r: Self) {
        1
    }

    fn checked_increment(&self) -> (r: Option<Self>) {
        self.checked_add(1)
    }

    fn checked_decrement(&self) -> (r: Option<Self>) {
        self.checked_sub(1)
    }

    fn is_zero(&self) -> (r: bool) {
        *self == 0
    }
}

impl Count for u32 {
    open spec fn value(&self) -> int {
        *self as int
    }

    open spec fn min_count() -> int {
        0
    }

    open spec fn max_count() -> int {
        u32::MAX as int
    }

    proof fn lemma_bounds(c: &Self) {
    }

    proof fn lemma_value_determines(a: &Self, b: &Self) {
    }

    fn one() -> (r: Self) {
        1
    }

    fn checked_increment(&self) -> (r: Option<Self>) {
        self.checked_add(1)
    }

    fn checked_decrement(&self) -> (r: Option<Self>) {
        self.checked_sub(1)
    }

    fn is_zero(&self) -> (r: bool) {
        *self == 0
    }
}

impl Count for u64 {
    open spec fn value(&self) -> int {
        *self as int
    }

    open spec fn min_count() -> int {
        0
    }

    open spec fn max_count() -> int {
        u64::MAX as int
    }

    proof fn lemma_bounds(c: &Self) {
    }

    proof fn lemma_value_determines(a: &Self, b: &Self) {
    }

    fn one() -> (r: Self) {
        1
    }

    fn checked_increment(&self) -> (r: Option<Self>) {
        self.checked_add(1)
    }

    fn checked_decrement(&self) -> (r: Option<Self>) {
        self.checked_sub(1)
    }

    fn is_zero(&self) -> (r: bool) {
        *self == 0
    }
}

impl Count for u128 {
    open spec fn value(&self) -> int {
        *self as int
    }

    open spec fn min_count() -> int {
        0
    }

    open spec fn max_count() -> int {
        u128::MAX as int
    }

    proof fn lemma_bounds(c: &Self) {
    }

    proof fn lemma_value_determines(a: &Self, b: &Self) {
    }

    fn one() -> (r: Self) {
        1
    }

    fn checked_increment(&self) -> (r: Option<Self>) {
        self.checked_add(1)
    }

    fn checked_decrement(&self) -> (r: Option<Self>) {
        self.checked_sub(1)
    }

    fn is_zero(&self) -> (r: bool) {
        *self == 0
    }
}

impl Count for usize {
    open spec fn value(&self) -> int {
        *self as int
    }

    open spec fn min_count() -> int {
        0
    }

    open spec fn max_count() -> int {
        usize::MAX as int
    }

    proof fn lemma_bounds(c: &Self) {
    }

    proof fn lemma_value_determines(a: &Self, b: &Self) {
    }

    fn one() -> (r: Self) {
        1
    }

    fn checked_increment(&self) -> (r: Option<Self>) {
        self.checked_add(1)
    }

    fn checked_decrement(&self) -> (r: Option<Self>) {
        self.checked_sub(1)
    }

    fn is_zero(&self) -> (r: bool) {
        *self == 0
    }
}

impl Count for i8 {
    open spec fn value(&self) -> int {
        *self as int
    }

    open spec fn min_count() -> int {
        i8::MIN as int
    }

    open spec fn max_count() -> int {
        i8::MAX as int
    }

    proof fn lemma_bounds(c: &Self) {
    }

    proof fn lemma_value_determines(a: &Self, b: &Self) {
    }

    fn one() -> (r: Self) {
        1
    }

    fn checked_increment(&self) -> (r: Option<Self>) {
        self.checked_add(1)
    }

    fn checked_decrement(&self) -> (r: Option<Self>) {
        self.checked_sub(1)
    }

    fn is_zero(&self) -> (r: bool) {
        *self == 0
    }
}

impl Count for i16 {
    open spec fn value(&self) -> int {
        *self as int
    }

    open spec fn min_count() -> int {
        i16::MIN as int
    }

    open spec fn max_count() -> int {
        i16::MAX as int
    }

    proof fn lemma_bounds(c: &Self) {
    }

    proof fn lemma_value_determines(a: &Self, b: &Self) {
    }

    fn one() -> (r: Self) {
        1
    }

    fn checked_increment(&self) -> (r: Option<Self>) {
        self.checked_add(1)
    }

    fn checked_decrement(&self) -> (r: Option<Self>) {
        self.checked_sub(1)
    }

    fn is_zero(&self) -> (r: bool) {
        *self == 0
    }
}

impl Count for i32 {
    open spec fn value(&self) -> int {
        *self as int
    }

    open spec fn min_count() -> int {
        i32::MIN as int
    }

    open spec fn max_count() -> int {
        i32::MAX as int
    }

    proof fn lemma_bounds(c: &Self) {
    }

    proof fn lemma_value_determines(a: &Self, b: &Self) {
    }

    fn one() -> (r: Self) {
        1
    }

    fn checked_increment(&self) -> (r: Option<Self>) {
        self.checked_add(1)
    }

    fn checked_decrement(&self) -> (r: Option<Self>) {
        self.checked_sub(1)
    }

    fn is_zero(&self) -> (r: bool) {
        *self == 0
    }
}

impl Count for i64 {
    open spec fn value(&self) -> int {
        *self as int
    }

    open spec fn min_count() -> int {
        i64::MIN as int
    }

    open spec fn max_count() -> int {
        i64::MAX as int
    }

    proof fn lemma_bounds(c: &Self) {
    }

    proof fn lemma_value_determines(a: &Self, b: &Self) {
    }

    fn one() -> (r: Self) {
        1
    }

    fn checked_increment(&self) -> (r: Option<Self>) {
        self.checked_add(1)
    }

    fn checked_decrement(&self) -> (r: Option<Self>) {
        self.checked_sub(1)
    }

    fn is_zero(&self) -> (r: bool) {
        *self == 0
    }
}

impl Count for i128 {
    open spec fn value(&self) -> int {
        *self as int
    }

    open spec fn min_count() -> int {
        i128::MIN as int
    }

    open spec fn max_count() -> int {
        i128::MAX as int
    }

    proof fn lemma_bounds(c: &Self) {
    }

    proof fn lemma_value_determines(a: &Self, b: &Self) {
    }

    fn one() -> (r: Self) {
        1
    }

    fn checked_increment(&self) -> (r: Option<Self>) {
        self.checked_add(1)
    }

    fn checked_decrement(&self) -> (r: Option<Self>) {
        self.checked_sub(1)
    }

    fn is_zero(&self) -> (r: bool) {
        *self == 0
    }
}

impl Count for isize {
    open spec fn value(&self) -> int {
        *self as int
    }

    open spec fn min_count() -> int {
        isize::MIN as int
    }

    open spec fn max_count() -> int {
        isize::MAX as int
    }

    proof fn lemma_bounds(c: &Self) {
    }

    proof fn lemma_value_determines(a: &Self, b: &Self) {
    }

    fn one() -> (r: Self) {
        1
    }

    fn checked_increment(&self) -> (r: Option<Self>) {
        self.checked_add(1)
    }

    fn checked_decrement(&self) -> (r: Option<Self>) {
        self.checked_sub(1)
    }

    fn is_zero(&self) -> (r: bool) {
        *self == 0
    }
}

} // verus!
