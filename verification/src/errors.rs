use vstd::prelude::*;

verus! {

/// Collection of multiple independent recoverable failures, treated as a
/// single failure only when non-empty.
#[derive(Debug, Clone)]
pub struct Errors<E> {
    errors: Vec<E>,
}

impl<E> View for Errors<E> {
    type V = Seq<E>;

    closed spec fn view(&self) -> Seq<E> {
        self.errors@
    }
}

impl<E> Errors<E> {
    /// Create an empty collection.
    pub fn new() -> (r: Self)
        ensures
            r@ == Seq::<E>::empty(),
    {
        Self { errors: Vec::new() }
    }

    /// The collected errors, in the order they were pushed.
    pub fn iter(&self) -> (r: &Vec<E>)
        ensures
            r@ == self@,
    {
        &self.errors
    }

    /// Append one error.
    pub fn push(&mut self, e: E)
        ensures
            final(self)@ == old(self)@.push(e),
    {
        self.errors.push(e)
    }

    /// True exactly when no error has been collected.
    pub fn is_empty(&self) -> (r: bool)
        ensures
            r == (self@.len() == 0),
    {
        self.errors.is_empty()
    }

    /// Convert each collected error into another error type, in order.
    pub fn cast<E2: From<E>>(self) -> (r: Errors<E2>)
        ensures
            r@.len() == self@.len(),
            <E2 as vstd::std_specs::convert::FromSpec<E>>::obeys_from_spec() ==> forall|i: int|
                0 <= i < r@.len() ==> #[trigger] r@[i]
                    == <E2 as vstd::std_specs::convert::FromSpec<E>>::from_spec(self@[i]),
    {
        let ghost orig = self.errors@;
        let mut rest = self.errors;
        let mut out: Vec<E2> = Vec::new();
        while rest.len() > 0
            invariant
                out@.len() + rest@.len() == orig.len(),
                forall|i: int|
                    0 <= i < rest@.len() ==> #[trigger] rest@[i] == orig[out@.len() + i],
                <E2 as vstd::std_specs::convert::FromSpec<E>>::obeys_from_spec() ==> forall|
                    i: int,
                |
                    0 <= i < out@.len() ==> #[trigger] out@[i] == <E2 as vstd::std_specs::convert::FromSpec<E>>::from_spec(orig[i]),
            decreases rest@.len(),
        {
            let e = rest.remove(0);
            out.push(E2::from(e));
        }
        Errors { errors: out }
    }

    /// Converts this into a `Result` based on its contents.
    ///
    /// If this is not empty, converts this into an `Err`. Otherwise,
    /// converts into an `Ok`.
    pub fn into_result(self) -> (r: Result<(), Self>)
        ensures
            self@.len() == 0 <==> r is Ok,
            r is Err ==> r->Err_0 == self,
    {
        if self.is_empty() {
            Ok(())
        } else {
            Err(self)
        }
    }
}

} // verus!
