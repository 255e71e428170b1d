//! A value that is initialized exactly once.
use vstd::prelude::*;

verus! {

/// A value with a flag telling whether its one-time initialization ran.
pub struct Once<T> {
    run: bool,
    context: T,
}

impl<T> Once<T> {
    /// Whether the initialization ran.
    pub closed spec fn ran(&self) -> bool {
        self.run
    }

    /// The value.
    pub closed spec fn value(&self) -> T {
        self.context
    }

    /// A value whose initialization has not run.
    pub fn new(x: T) -> (r: Self)
        ensures
            !r.ran(),
            r.value() == x,
    {
        Once { run: false, context: x }
    }

    /// The first call marks the initialization as run and hands out the
    /// value to initialize; later calls hand out nothing.
    pub fn call_once(&mut self) -> (r: Option<&mut T>)
        ensures
            once_step(*old(self), *final(self), r is Some),
            final(self).ran(),
            old(self).ran() ==> r is None && final(self).value() == old(self).value(),
            !old(self).ran() ==> (r matches Some(v) && *v == old(self).value() && final(self).value() == *final(v)),
    {
        if self.run {
            None
        } else {
            self.run = true;
            Some(&mut self.context)
        }
    }

    /// Whether the initialization ran.
    pub fn is_completed(&self) -> (r: bool)
        ensures
            r == self.ran(),
    {
        self.run
    }
}

/// One call of `call_once`, taking `before` to `after`, where `ran` tells
/// whether the call handed the value out: afterwards the initialization
/// has run, and the call handed the value out exactly when it had not run
/// before.
pub open spec fn once_step<T>(before: Once<T>, after: Once<T>, ran: bool) -> bool {
    &&& after.ran()
    &&& ran == !before.ran()
    &&& before.ran() ==> after.value() == before.value()
}

/// Of any run of calls of `call_once` on a value whose initialization has
/// not run, the first hands the value out and no later one does, and
/// `is_completed` tells whether any call was made: `states`
/// holds the value before each call and after the last, `ran` whether
/// each call handed the value out.
pub proof fn law_only_first_call_runs<T>(states: Seq<Once<T>>, ran: Seq<bool>)
    requires
        states.len() == ran.len() + 1,
        !states[0].ran(),
        forall|k: int| 0 <= k < ran.len() ==> once_step(#[trigger] states[k], states[k + 1], ran[k]),
    ensures
        ran.len() > 0 ==> ran[0],
        forall|k: int| 0 < k < ran.len() ==> !#[trigger] ran[k],
        forall|k: int| 0 <= k < states.len() ==> #[trigger] states[k].ran() == (k > 0),
{
    assert forall|k: int| 0 <= k < states.len() implies #[trigger] states[k].ran() == (k > 0) by {
        if k > 0 {
            assert(once_step(states[k - 1], states[k], ran[k - 1]));
        }
    }
    assert forall|k: int| 0 < k < ran.len() implies !#[trigger] ran[k] by {
        assert(once_step(states[k - 1], states[k], ran[k - 1]));
        assert(once_step(states[k], states[k + 1], ran[k]));
    }
    if ran.len() > 0 {
        assert(once_step(states[0], states[1], ran[0]));
    }
}

} // verus!
