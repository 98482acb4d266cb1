//! The minimal validation-result abstraction the merge operations depend on:
//! a result that either holds a success value or a non-empty, ordered
//! collection of error messages, so that several independent conflicts can be
//! reported from one merge pass.

use vstd::prelude::*;

verus! {

/// An ordered accumulator of error messages.
///
/// It starts empty and grows by combination; a [`Valid::Failure`] built from
/// it is only ever built once it is non-empty.
#[derive(Debug, Clone, PartialEq, Eq)]
pub struct ValidationError<E> {
    errors: Vec<E>,
}

impl<E> View for ValidationError<E> {
    type V = Seq<E>;

    closed spec fn view(&self) -> Seq<E> {
        self.errors@
    }
}

impl<E> ValidationError<E> {
    /// An accumulator holding no errors yet.
    pub fn empty() -> (r: Self)
        ensures
            r@ == Seq::<E>::empty(),
    {
        ValidationError { errors: Vec::new() }
    }

    /// A collection holding the one given error.
    pub fn from_error(error: E) -> (r: Self)
        ensures
            r@ == seq![error],
    {
        let mut errors = Vec::new();
        errors.push(error);
        ValidationError { errors }
    }

    /// Concatenates two collections, keeping encounter order: all of `self`'s
    /// errors first, then all of `other`'s.
    pub fn combine(self, other: Self) -> (r: Self)
        ensures
            r@ == self@ + other@,
    {
        let mut this = self;
        let mut other = other;
        this.errors.append(&mut other.errors);
        this
    }

    /// Whether anything has been accumulated yet.
    pub fn is_empty(&self) -> (r: bool)
        ensures
            r == (self@.len() == 0),
    {
        self.errors.len() == 0
    }

    /// The accumulated errors, in encounter order.
    pub fn errors(&self) -> (r: &Vec<E>)
        ensures
            r@ == self@,
    {
        &self.errors
    }
}

/// A validation result: either a success value, or a non-empty collection of
/// errors describing every independent conflict found so far.
#[derive(Debug, Clone, PartialEq, Eq)]
pub enum Valid<T, E> {
    Success(T),
    Failure(ValidationError<E>),
}

/// Well-formedness of a validation result: a failure never holds zero errors.
pub open spec fn valid_wf<T, E>(v: Valid<T, E>) -> bool {
    match v {
        Valid::Success(_) => true,
        Valid::Failure(e) => e@.len() > 0,
    }
}

impl<T, E> Valid<T, E> {
    /// Wraps a value as a successful result.
    pub fn succeed(value: T) -> (r: Self)
        ensures
            r == Valid::<T, E>::Success(value),
    {
        Valid::Success(value)
    }

    /// A failure holding the one given error message.
    pub fn from_error(error: E) -> (r: Self)
        ensures
            r matches Valid::Failure(e) && e@ == seq![error],
            valid_wf(r),
    {
        Valid::Failure(ValidationError::from_error(error))
    }

    /// Wraps an already-accumulated, non-empty error collection as a failure.
    pub fn from_validation_err(errors: ValidationError<E>) -> (r: Self)
        requires
            errors@.len() > 0,
        ensures
            r == Valid::<T, E>::Failure(errors),
            valid_wf(r),
    {
        Valid::Failure(errors)
    }

    /// Converts into a plain success-or-failure outcome, for propagation with
    /// the standard error-short-circuit operator.
    pub fn to_result(self) -> (r: Result<T, ValidationError<E>>)
        ensures
            match self {
                Valid::Success(t) => r == Ok::<T, ValidationError<E>>(t),
                Valid::Failure(e) => r == Err::<T, ValidationError<E>>(e),
            },
    {
        match self {
            Valid::Success(t) => Ok(t),
            Valid::Failure(e) => Err(e),
        }
    }
}

} // verus!
