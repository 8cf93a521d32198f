//! A lazily initialised value whose initialisation state can be polled.
use vstd::prelude::*;

verus! {

#[derive(Clone, Copy, PartialEq, Eq, Structural)]
pub enum LazyLockState {
    /// Signifies this lock is uninitialized
    Uninit,
    /// Signifies this lock is initialized
    Init,
    /// Signifies this lock is mid initialization. This is only really useful
    /// when checking the state inside the initializer...
    Initializing,
}

/// A lazily initialised value that lets you poll its initialization state.
pub struct LazyLock<T, F> {
    cell: Option<T>,
    state: LazyLockState,
    init: F,
}

impl<T, F> LazyLock<T, F> {
    /// The value is there exactly when the state is `Init`.
    #[verifier::type_invariant]
    spec fn value_matches_state(self) -> bool {
        (self.state == LazyLockState::Init) == self.cell.is_some()
    }
}

impl<T, F: FnOnce() -> T + Copy> LazyLock<T, F> {
    pub closed spec fn state_spec(&self) -> LazyLockState {
        self.state
    }

    /// The function that produces the value.
    pub closed spec fn init_fn(&self) -> F {
        self.init
    }

    /// The value, once initialised.
    pub closed spec fn value(&self) -> T {
        self.cell.unwrap()
    }

    pub fn new(init: F) -> (r: Self)
        ensures
            r.state_spec() == LazyLockState::Uninit,
            r.init_fn() == init,
    {
        Self { cell: None, state: LazyLockState::Uninit, init }
    }

    pub fn state(lock: &Self) -> (r: LazyLockState)
        ensures
            r == lock.state_spec(),
    {
        lock.state
    }

    /// The value, which must already be initialised.
    pub fn assume_init(&self) -> (r: &T)
        requires
            self.state_spec() == LazyLockState::Init,
        ensures
            *r == self.value(),
    {
        proof {
            use_type_invariant(self);
        }
        self.cell.as_ref().unwrap()
    }

    /// The value, produced by the initialiser on the first call and kept for
    /// the later ones.
    pub fn initialize(&mut self) -> (r: &T)
        requires
            old(self).state_spec() != LazyLockState::Init ==> old(self).init_fn().requires(()),
        ensures
            final(self).state_spec() == LazyLockState::Init,
            final(self).init_fn() == old(self).init_fn(),
            old(self).state_spec() == LazyLockState::Init ==> final(self).value() == old(self).value(),
            old(self).state_spec() != LazyLockState::Init ==> old(self).init_fn().ensures((), final(self).value()),
            *r == final(self).value(),
    {
        proof {
            use_type_invariant(&*self);
        }
        if LazyLock::state(self) != LazyLockState::Init {
            let init = self.init;
            let value = init();
            *self = LazyLock { cell: Some(value), state: LazyLockState::Init, init };
        }
        proof {
            use_type_invariant(&*self);
        }
        self.assume_init()
    }
}

/// What one call of [`LazyLock::initialize`] does, taking the lock from
/// `before` to `after` and returning `r`.
pub open spec fn initialize_step<T, F: FnOnce() -> T + Copy>(
    before: LazyLock<T, F>,
    after: LazyLock<T, F>,
    r: T,
) -> bool {
    &&& after.state_spec() == LazyLockState::Init
    &&& after.init_fn() == before.init_fn()
    &&& before.state_spec() == LazyLockState::Init ==> after.value() == before.value()
    &&& before.state_spec() != LazyLockState::Init ==> before.init_fn().ensures((), after.value())
    &&& r == after.value()
}

/// Over any sequence of calls of [`LazyLock::initialize`] (`states[i + 1]`
/// is what call `i` leaves of `states[i]`, and `results[i]` what it
/// returns), the initialiser's value is produced once: every call returns
/// the value of the first call, the state is `Init` after every call, and
/// when the lock started uninitialised, that value is one the initialiser
/// may return.
pub proof fn lemma_initialize_once<T, F: FnOnce() -> T + Copy>(
    states: Seq<LazyLock<T, F>>,
    results: Seq<T>,
)
    requires
        states.len() == results.len() + 1,
        forall|i: int| 0 <= i < results.len() ==> initialize_step(states[i], states[i + 1], #[trigger] results[i]),
    ensures
        forall|i: int| 0 <= i < results.len() ==> #[trigger] results[i] == results[0],
        forall|i: int| 1 <= i < states.len() ==> (#[trigger] states[i]).state_spec() == LazyLockState::Init
            && states[i].value() == results[0] && states[i].init_fn() == states[0].init_fn(),
        results.len() > 0 && states[0].state_spec() != LazyLockState::Init ==> states[0].init_fn().ensures(
            (),
            results[0],
        ),
    decreases results.len(),
{
    if results.len() > 1 {
        let n = results.len() - 1;
        lemma_initialize_once(states.take(n + 1), results.take(n));
        assert(initialize_step(states[n], states[n + 1], results[n]));
        assert(states.take(n + 1)[n] == states[n]);
        assert forall|i: int| 0 <= i < results.len() implies #[trigger] results[i] == results[0] by {
            if i < n {
                assert(results.take(n)[i] == results[i]);
            }
        }
        assert forall|i: int| 1 <= i < states.len() implies (#[trigger] states[i]).state_spec() == LazyLockState::Init
            && states[i].value() == results[0] && states[i].init_fn() == states[0].init_fn() by {
            if i <= n {
                assert(states.take(n + 1)[i] == states[i]);
            }
        }
        assert(results.take(n)[0] == results[0]);
    } else if results.len() == 1 {
        assert(initialize_step(states[0], states[1], results[0]));
    }
}

} // verus!
