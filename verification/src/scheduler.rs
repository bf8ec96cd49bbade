//! Schedulers of vessels, and the simplest of them: one constant vessel.
use vstd::prelude::*;

verus! {

/// A trait for types that can be scheduled by one of the available
/// schedulers.
pub trait Schedulable {
    /// Get the ID of the schedulable.
    fn id(&self) -> usize;
}

/// A scheduler of vessels of type `T`.
pub trait Scheduler<T> where T: Schedulable, Self: Sized {
    /// The parameters required to create a new scheduler.
    type ParametersForNew;

    /// The vessels the scheduler holds.
    spec fn vessels(&self) -> Seq<T>;

    /// The scheduler can take one more vessel.
    spec fn has_room(&self) -> bool;

    /// Create a new scheduler with the given parameters.
    fn new(params: Self::ParametersForNew) -> Self;

    /// Add a new vessel to the scheduling queue.
    fn add(&mut self, vessel: Box<T>)
        requires
            old(self).has_room(),
        ensures
            final(self).vessels() == old(self).vessels().push(*vessel),
    ;

    /// Remove a vessel from the scheduling queue.
    fn remove(&mut self) -> (r: Box<T>)
        requires
            old(self).vessels().len() > 0,
        ensures
            old(self).vessels().contains(*r),
            final(self).vessels().len() == old(self).vessels().len() - 1,
    ;
}

/// The parameters required to create a new `Constant` scheduler.
pub type ParametersForNew<T> = Option<Box<T>>;

/// A simple scheduler that runs a single constant vessel.
pub struct Constant<T> where T: Schedulable {
    /// The vessel, once one is added
    scheduable: Option<Box<T>>,
}

impl<T> Constant<T> where T: Schedulable {
    /// A scheduler with no vessel yet.
    pub fn new_const() -> (r: Self)
        ensures
            r.vessels() == Seq::<T>::empty(),
            r.has_room(),
    {
        Constant { scheduable: None }
    }
}

impl<T> Scheduler<T> for Constant<T> where T: Schedulable {
    type ParametersForNew = ParametersForNew<T>;

    closed spec fn vessels(&self) -> Seq<T> {
        match self.scheduable {
            Some(v) => seq![*v],
            None => Seq::empty(),
        }
    }

    closed spec fn has_room(&self) -> bool {
        self.scheduable is None
    }

    fn new(params: Self::ParametersForNew) -> (r: Self)
        ensures
            r.vessels() == match params {
                Some(v) => seq![*v],
                None => Seq::<T>::empty(),
            },
            r.has_room() == (params is None),
    {
        Constant { scheduable: params }
    }

    fn add(&mut self, vessel: Box<T>) {
        self.scheduable = Some(vessel);
        assert(self.vessels() =~= old(self).vessels().push(*vessel));
    }

    fn remove(&mut self) -> (r: Box<T>) {
        let r = self.scheduable.take().expect(
            "Tried to expel an additional schedulable but this is the 'const' scheduler",
        );
        assert(old(self).vessels()[0] == *r);
        r
    }
}

} // verus!
