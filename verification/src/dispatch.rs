use vstd::prelude::*;

verus! {

/// Abstract state of a [`DispatchCycle`]: the next slot handed out and the
/// number of slots the cycle runs over.
pub ghost struct DispatchView {
    pub id: nat,
    pub size: nat,
}

/// The slot that follows `id` in a cycle of `size` slots: the next one, or
/// the first one once the last slot has been handed out.
pub open spec fn next_dispatch_id(id: nat, size: nat) -> nat {
    if id + 1 >= size {
        0
    } else {
        id + 1
    }
}

/// The slot reached from `id` after `n` steps of the cycle.
pub open spec fn advance_dispatch_id(id: nat, size: nat, n: nat) -> nat
    decreases n,
{
    if n == 0 {
        id
    } else {
        next_dispatch_id(advance_dispatch_id(id, size, (n - 1) as nat), size)
    }
}

/// A round-robin cursor over `size` slots.
pub struct DispatchCycle {
    id: usize,
    size: usize,
}

impl View for DispatchCycle {
    type V = DispatchView;

    closed spec fn view(&self) -> DispatchView {
        DispatchView { id: self.id as nat, size: self.size as nat }
    }
}

impl DispatchCycle {
    /// The cursor points at one of the `size` slots.
    pub open spec fn in_range(&self) -> bool {
        self@.id < self@.size
    }

    pub fn new(size: usize) -> (cycle: Self)
        ensures
            cycle@ == (DispatchView { id: 0, size: size as nat }),
    {
        DispatchCycle { id: 0, size }
    }

    pub fn set_id(&mut self, id: usize)
        ensures
            final(self)@ == (DispatchView { id: id as nat, size: old(self)@.size }),
    {
        self.id = id;
    }

    /// Changes the number of slots. A cursor at or past the new last slot
    /// starts over at the first one.
    pub fn set_size(&mut self, size: usize)
        requires
            size >= 1,
        ensures
            final(self)@.size == size,
            final(self)@.id == (if old(self)@.id + 1 >= size { 0 } else { old(self)@.id }),
            final(self).in_range(),
    {
        self.size = size;
        let id: usize = self.fetch_id();
        if id >= self.size - 1 {
            self.set_id(0);
        }
    }

    pub fn fetch_id(&self) -> (id: usize)
        ensures
            id == self@.id,
    {
        self.id
    }

    pub fn fetch_size(&self) -> (size: usize)
        ensures
            size == self@.size,
    {
        self.size
    }

    /// Hands out the current slot and moves the cursor to the next one.
    pub fn fetch_and_update(&mut self) -> (id: usize)
        requires
            old(self)@.size >= 1,
        ensures
            id == old(self)@.id,
            final(self)@ == (DispatchView {
                id: next_dispatch_id(old(self)@.id, old(self)@.size),
                size: old(self)@.size,
            }),
            old(self).in_range() ==> id < old(self)@.size && final(self).in_range(),
    {
        let id: usize = self.fetch_id();
        if id >= self.size - 1 {
            self.set_id(0);
        } else {
            self.set_id(id + 1);
        }
        id
    }
}

/// Within a cycle, the slot after `id` is `id + 1` taken modulo the size.
pub proof fn lemma_next_is_successor_mod(id: nat, size: nat)
    requires
        id < size,
    ensures
        next_dispatch_id(id, size) == ((id + 1) as int) % (size as int),
{
    if id + 1 >= size {
        assert(id + 1 == size);
        vstd::arithmetic::div_mod::lemma_mod_self_0(size as int);
    } else {
        vstd::arithmetic::div_mod::lemma_small_mod((id + 1) as nat, size);
    }
}

/// Round robin: starting from slot `id`, `n` steps of the cycle land on
/// slot `(id + n) % size`. So `size` consecutive dispatches hand out every
/// slot exactly once and come back to where they started.
pub proof fn lemma_round_robin(id: nat, size: nat, n: nat)
    requires
        id < size,
    ensures
        advance_dispatch_id(id, size, n) == ((id + n) as int) % (size as int),
        advance_dispatch_id(id, size, n) < size,
    decreases n,
{
    if n == 0 {
        vstd::arithmetic::div_mod::lemma_small_mod(id, size);
    } else {
        lemma_round_robin(id, size, (n - 1) as nat);
        let prev = advance_dispatch_id(id, size, (n - 1) as nat);
        lemma_next_is_successor_mod(prev, size);
        vstd::arithmetic::div_mod::lemma_add_mod_noop_right(1, (id + n - 1) as int, size as int);
        vstd::arithmetic::div_mod::lemma_mod_pos_bound((id + n) as int, size as int);
    }
}

/// A full turn of `size` dispatches brings the cursor back to its start.
pub proof fn lemma_full_turn(id: nat, size: nat)
    requires
        id < size,
    ensures
        advance_dispatch_id(id, size, size) == id,
{
    lemma_round_robin(id, size, size);
    vstd::arithmetic::div_mod::lemma_mod_add_multiples_vanish(id as int, size as int);
    vstd::arithmetic::div_mod::lemma_small_mod(id, size);
}

} // verus!
