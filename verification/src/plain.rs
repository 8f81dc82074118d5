//! Copy-on-write access to plain values: a value is either borrowed, borrowed
//! for writing, or owned; writing to a shared borrow first takes a copy.

use vstd::prelude::*;

verus! {

/// Types whose values are plain data that can be copied byte for byte.
pub trait Plain: Copy + 'static {}

impl<T: Copy + Sync + Send + 'static> Plain for T {}

/// A plain value, borrowed, borrowed for writing, or owned.
pub enum MyCow<'a, T: Plain> {
    Borrow(&'a T),
    BorrowMut(&'a mut T),
    Owned(T),
}

impl<'a, T: Plain> MyCow<'a, T> {
    /// The value this pointer shows.
    pub open spec fn view(&self) -> T {
        match self {
            MyCow::Borrow(x) => **x,
            MyCow::BorrowMut(x) => **x,
            MyCow::Owned(x) => *x,
        }
    }

    /// Reads the value.
    pub fn value(&self) -> (r: &T)
        ensures
            *r == self.view(),
    {
        match self {
            MyCow::Borrow(x) => x,
            MyCow::BorrowMut(x) => x,
            MyCow::Owned(x) => x,
        }
    }

    /// Gives write access to the value; a shared borrow is first replaced by
    /// an owned copy of it.
    pub fn value_mut(&mut self) -> (r: &mut T)
        ensures
            *r == old(self).view(),
            final(self).view() == *final(r),
            *old(self) is Borrow ==> *final(self) is Owned,
            *old(self) is BorrowMut ==> *final(self) is BorrowMut,
            *old(self) is Owned ==> *final(self) is Owned,
    {
        if let MyCow::Borrow(p) = self {
            let copy: T = **p;
            *self = MyCow::Owned(copy);
        }
        match self {
            MyCow::BorrowMut(x) => x,
            MyCow::Owned(x) => x,
            MyCow::Borrow(_) => vstd::pervasive::unreached(),
        }
    }

    /// Consumes the pointer and returns the value.
    pub fn into_inner(self) -> (r: T)
        ensures
            r == self.view(),
    {
        match self {
            MyCow::Borrow(p) => *p,
            MyCow::BorrowMut(p) => *p,
            MyCow::Owned(x) => x,
        }
    }
}

impl<'a, T: Plain> core::ops::Deref for MyCow<'a, T> {
    type Target = T;

    fn deref(&self) -> (r: &T)
        ensures
            *r == self.view(),
    {
        self.value()
    }
}

impl<'a, T: Plain> core::ops::DerefMut for MyCow<'a, T> {
    fn deref_mut(&mut self) -> (r: &mut T)
        ensures
            *r == old(self).view(),
            final(self).view() == *final(r),
            *old(self) is Borrow ==> *final(self) is Owned,
            *old(self) is BorrowMut ==> *final(self) is BorrowMut,
            *old(self) is Owned ==> *final(self) is Owned,
    {
        self.value_mut()
    }
}

} // verus!
