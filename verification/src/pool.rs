//! The memory that ingest requests in flight draw from together.
//!
//! A request reserves what it holds from one pool as it comes to hold it. When the pool
//! does not have it, the request is refused with a status that says "retry", and what it
//! held goes back at once.
use vstd::prelude::*;

verus! {

/// A fixed amount of memory, shared by every request drawing from it.
#[derive(Debug)]
pub struct MemoryPool {
    available: usize,
    capacity: usize,
}

pub struct PoolView {
    pub available: nat,
    pub capacity: nat,
}

impl PoolView {
    /// What is taken.
    pub open spec fn used(self) -> int {
        self.capacity - self.available
    }

    /// Whether the pool has `bytes`.
    pub open spec fn has(self, bytes: nat) -> bool {
        bytes <= self.available
    }

    /// The pool with `bytes` taken.
    pub open spec fn without(self, bytes: nat) -> PoolView {
        PoolView { available: (self.available - bytes) as nat, ..self }
    }

    /// The pool with `bytes` given back.
    pub open spec fn with(self, bytes: nat) -> PoolView {
        PoolView { available: self.available + bytes, ..self }
    }
}

impl View for MemoryPool {
    type V = PoolView;

    closed spec fn view(&self) -> PoolView {
        PoolView { available: self.available as nat, capacity: self.capacity as nat }
    }
}

/// Memory taken from a [`MemoryPool`], to be given back to it.
#[derive(Debug)]
pub struct Reservation {
    bytes: usize,
}

impl View for Reservation {
    type V = nat;

    closed spec fn view(&self) -> nat {
        self.bytes as nat
    }
}

impl MemoryPool {
    #[verifier::type_invariant]
    spec fn sound(self) -> bool {
        self.available <= self.capacity
    }

    /// A pool of which nothing is taken.
    pub fn new(capacity: usize) -> (pool: MemoryPool)
        ensures
            pool@ == (PoolView { available: capacity as nat, capacity: capacity as nat }),
    {
        MemoryPool { available: capacity, capacity }
    }

    /// Everything the pool holds, taken or not.
    pub fn capacity(&self) -> (bytes: usize)
        ensures
            bytes == self@.capacity,
    {
        self.capacity
    }

    /// What requests in flight hold between them now, which is never more than there is.
    pub fn in_use(&self) -> (bytes: usize)
        ensures
            bytes == self@.used(),
            bytes <= self@.capacity,
    {
        proof {
            use_type_invariant(self);
        }
        self.capacity - self.available
    }

    /// Takes `bytes`, or nothing when the pool does not have them.
    pub fn reserve(&mut self, bytes: usize) -> (reservation: Option<Reservation>)
        ensures
            reservation is Some <==> old(self)@.has(bytes as nat),
            reservation is Some ==> reservation->Some_0@ == bytes && final(self)@ == old(
                self,
            )@.without(bytes as nat),
            reservation is None ==> final(self)@ == old(self)@,
    {
        if self.take(bytes) {
            Some(Reservation { bytes })
        } else {
            None
        }
    }

    /// Takes `bytes`, or leaves the pool as it was and says so.
    pub fn take(&mut self, bytes: usize) -> (taken: bool)
        ensures
            taken == old(self)@.has(bytes as nat),
            final(self)@ == (if taken {
                old(self)@.without(bytes as nat)
            } else {
                old(self)@
            }),
    {
        proof {
            use_type_invariant(&*self);
        }
        match self.available.checked_sub(bytes) {
            Some(rest) => {
                let capacity: usize = self.capacity;
                *self = MemoryPool { available: rest, capacity };
                true
            },
            None => false,
        }
    }

    /// Gives back what a reservation holds.
    pub fn give_back(&mut self, reservation: Reservation)
        requires
            reservation@ <= old(self)@.used(),
        ensures
            final(self)@ == old(self)@.with(reservation@),
    {
        let capacity: usize = self.capacity;
        *self = MemoryPool { available: self.available + reservation.bytes, capacity };
    }
}

impl Reservation {
    /// Takes `bytes` more from the pool, or leaves the reservation and the pool as they
    /// were and says so.
    pub fn grow(&mut self, pool: &mut MemoryPool, bytes: usize) -> (grown: bool)
        requires
            old(self)@ <= old(pool)@.used(),
        ensures
            grown == old(pool)@.has(bytes as nat),
            grown ==> final(self)@ == old(self)@ + bytes && final(pool)@ == old(pool)@.without(
                bytes as nat,
            ),
            !grown ==> final(self)@ == old(self)@ && final(pool)@ == old(pool)@,
    {
        proof {
            use_type_invariant(&*pool);
        }
        if !pool.take(bytes) {
            return false;
        }
        self.bytes = self.bytes + bytes;
        true
    }

    /// What this reservation holds.
    pub fn bytes(&self) -> (bytes: usize)
        ensures
            bytes == self@,
    {
        self.bytes
    }
}

// ---------------------------------------------------------------------------
// Laws
// ---------------------------------------------------------------------------

/// What reservations hold between them.
pub open spec fn held(reservations: Seq<nat>) -> nat
    decreases reservations.len(),
{
    if reservations.len() == 0 {
        0
    } else {
        held(reservations.drop_last()) + reservations.last()
    }
}

/// Whether what is taken from a pool is what reservations hold.
pub open spec fn balanced(pool: PoolView, reservations: Seq<nat>) -> bool {
    pool.used() == held(reservations) && pool.available <= pool.capacity
}

/// The books stay balanced: whatever is reserved, grown or given back, what is taken from
/// the pool is what the reservations hold between them.
pub proof fn law_books_balance(pool: PoolView, reservations: Seq<nat>, i: int, bytes: nat)
    requires
        balanced(pool, reservations),
    ensures
        pool.has(bytes) ==> balanced(pool.without(bytes), reservations.push(bytes)),
        0 <= i < reservations.len() && pool.has(bytes) ==> balanced(
            pool.without(bytes),
            reservations.update(i, reservations[i] + bytes),
        ),
        0 <= i < reservations.len() ==> reservations[i] <= pool.used() && balanced(
            pool.with(reservations[i]),
            reservations.remove(i),
        ),
{
    assert(reservations.push(bytes).drop_last() =~= reservations);
    if 0 <= i < reservations.len() {
        lemma_held_update(reservations, i, reservations[i] + bytes);
        lemma_held_remove(reservations, i);
    }
}

proof fn lemma_held_update(reservations: Seq<nat>, i: int, bytes: nat)
    requires
        0 <= i < reservations.len(),
    ensures
        held(reservations.update(i, bytes)) == held(reservations) - reservations[i] + bytes,
    decreases reservations.len(),
{
    let changed = reservations.update(i, bytes);
    if i == reservations.len() - 1 {
        assert(changed.drop_last() =~= reservations.drop_last());
    } else {
        assert(changed.drop_last() =~= reservations.drop_last().update(i, bytes));
        lemma_held_update(reservations.drop_last(), i, bytes);
    }
}

proof fn lemma_held_remove(reservations: Seq<nat>, i: int)
    requires
        0 <= i < reservations.len(),
    ensures
        held(reservations.remove(i)) == held(reservations) - reservations[i],
        reservations[i] <= held(reservations),
    decreases reservations.len(),
{
    let fewer = reservations.remove(i);
    if i == reservations.len() - 1 {
        assert(fewer =~= reservations.drop_last());
    } else {
        assert(fewer.drop_last() =~= reservations.drop_last().remove(i));
        lemma_held_remove(reservations.drop_last(), i);
    }
}

/// What is reserved comes back: giving a reservation back leaves the pool as it was.
pub proof fn law_what_is_reserved_comes_back(pool: PoolView, bytes: nat)
    requires
        pool.has(bytes),
    ensures
        pool.without(bytes).with(bytes) == pool,
{
}

/// The pool has what is not taken: a request is refused exactly where it would bring what is
/// taken past the capacity.
pub proof fn law_the_pool_has_what_is_left(pool: PoolView, bytes: nat)
    requires
        pool.available <= pool.capacity,
    ensures
        pool.has(bytes) == (pool.used() + bytes <= pool.capacity),
        pool.has(bytes) ==> pool.without(bytes).used() == pool.used() + bytes,
        pool.with(bytes).used() == pool.used() - bytes,
{
}

} // verus!
