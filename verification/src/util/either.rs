use vstd::prelude::*;

verus! {

/// A value tagged with one of two sides. Unlike the usual two-type form,
/// both sides carry the same payload type: the tag records a direction
/// (for instance, which side of a partition boundary a sender governs).
pub enum Either<T> {
    Left(T),
    Right(T),
}

impl<T> Either<T> {
    /// The payload, whichever side carries it.
    pub open spec fn get_spec(self) -> T {
        match self {
            Either::Left(t) => t,
            Either::Right(t) => t,
        }
    }

    #[inline]
    pub fn left(t: T) -> (r: Either<T>)
        ensures
            r == Either::Left(t),
    {
        Either::Left(t)
    }

    #[inline]
    pub fn right(t: T) -> (r: Either<T>)
        ensures
            r == Either::Right(t),
    {
        Either::Right(t)
    }

    #[inline]
    pub fn is_left(&self) -> (r: bool)
        ensures
            r == (self is Left),
    {
        match self {
            Either::Left(_) => true,
            _ => false,
        }
    }

    #[inline]
    pub fn is_right(&self) -> (r: bool)
        ensures
            r == (self is Right),
    {
        match self {
            Either::Right(_) => true,
            _ => false,
        }
    }

    #[inline]
    pub fn get(&self) -> (r: &T)
        ensures
            *r == self.get_spec(),
    {
        match self {
            Either::Left(t) => t,
            Either::Right(t) => t,
        }
    }

    #[inline]
    pub fn get_mut(&mut self) -> (r: &mut T)
        ensures
            *r == old(self).get_spec(),
            (*old(self)) is Left ==> *final(self) == Either::Left(*final(r)),
            (*old(self)) is Right ==> *final(self) == Either::Right(*final(r)),
    {
        match self {
            Either::Left(t) => t,
            Either::Right(t) => t,
        }
    }

    /// Applies `op` to the payload, keeping the side.
    pub fn map<U, F: FnOnce(T) -> U>(self, op: F) -> (r: Either<U>)
        requires
            call_requires(op, (self.get_spec(),)),
        ensures
            (r is Left) == (self is Left),
            call_ensures(op, (self.get_spec(),), r.get_spec()),
    {
        match self {
            Either::Left(t) => Either::Left(op(t)),
            Either::Right(t) => Either::Right(op(t)),
        }
    }
}

} // verus!
