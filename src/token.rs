use std::rc::Rc;
use vstd::prelude::*;

verus! {

/// The tokens a chain can hold: values whose equality is decided by their view.
pub trait Chainable: View + Sized {
    /// Decides whether two tokens are the same.
    fn token_eq(&self, other: &Self) -> (r: bool)
        ensures
            r == (self@ == other@),
    ;
}

/// One slot of a context window: a shared token, or `None` for the boundary marker.
pub type Slot<T> = Option<Rc<T>>;

/// The abstract value of a slot.
pub open spec fn slot_view<T: View>(s: Slot<T>) -> Option<T::V> {
    match s {
        Some(t) => Some(t@),
        None => None,
    }
}

/// Compares two slots by value.
pub fn slot_eq<T: Chainable>(a: &Slot<T>, b: &Slot<T>) -> (r: bool)
    ensures
        r == (slot_view(*a) == slot_view(*b)),
{
    match (a, b) {
        (None, None) => true,
        (Some(x), Some(y)) => {
            let xr: &T = &**x;
            let yr: &T = &**y;
            xr.token_eq(yr)
        },
        _ => false,
    }
}

/// Shares a slot: the copy points at the same token.
pub fn slot_share<T: Chainable>(s: &Slot<T>) -> (r: Slot<T>)
    ensures
        slot_view(r) == slot_view(*s),
{
    match s {
        None => None,
        Some(t) => Some(Rc::clone(t)),
    }
}

impl Chainable for u8 {
    fn token_eq(&self, other: &u8) -> (r: bool) {
        *self == *other
    }
}

impl Chainable for u16 {
    fn token_eq(&self, other: &u16) -> (r: bool) {
        *self == *other
    }
}

impl Chainable for u32 {
    fn token_eq(&self, other: &u32) -> (r: bool) {
        *self == *other
    }
}

impl Chainable for u64 {
    fn token_eq(&self, other: &u64) -> (r: bool) {
        *self == *other
    }
}

impl Chainable for usize {
    fn token_eq(&self, other: &usize) -> (r: bool) {
        *self == *other
    }
}

impl Chainable for i8 {
    fn token_eq(&self, other: &i8) -> (r: bool) {
        *self == *other
    }
}

impl Chainable for i16 {
    fn token_eq(&self, other: &i16) -> (r: bool) {
        *self == *other
    }
}

impl Chainable for i32 {
    fn token_eq(&self, other: &i32) -> (r: bool) {
        *self == *other
    }
}

impl Chainable for i64 {
    fn token_eq(&self, other: &i64) -> (r: bool) {
        *self == *other
    }
}

impl Chainable for isize {
    fn token_eq(&self, other: &isize) -> (r: bool) {
        *self == *other
    }
}

impl Chainable for char {
    fn token_eq(&self, other: &char) -> (r: bool) {
        *self == *other
    }
}

impl Chainable for bool {
    fn token_eq(&self, other: &bool) -> (r: bool) {
        *self == *other
    }
}

impl Chainable for String {
    fn token_eq(&self, other: &String) -> (r: bool) {
        *self == *other
    }
}

} // verus!
