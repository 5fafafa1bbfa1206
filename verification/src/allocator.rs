//! Chunk identifiers: issued from a counter, recycled through a free list.

use vstd::prelude::*;
use crate::error::ChunkError;

verus! {

/// The largest value the counter can reach; identifiers `0..ID_LIMIT` are
/// issued fresh, so the counter itself always fits in 16 bits.
pub const ID_LIMIT: u16 = 0xffff;

/// What an allocator holds, as seen by specifications.
pub struct AllocatorState {
    /// Next identifier that was never issued.
    pub counter: nat,
    /// Reclaimed identifiers, the most recently reclaimed last.
    pub free: Seq<u16>,
}

impl AllocatorState {
    /// The state of a fresh allocator.
    pub open spec fn initial() -> AllocatorState {
        AllocatorState { counter: 0, free: Seq::empty() }
    }

    /// Whether an allocation succeeds in this state.
    pub open spec fn can_allocate(self) -> bool {
        self.free.len() > 0 || self.counter < ID_LIMIT
    }

    /// The identifier that an allocation returns in this state.
    pub open spec fn next_id(self) -> int {
        if self.free.len() > 0 {
            self.free.last() as int
        } else {
            self.counter as int
        }
    }

    /// The state after a successful allocation.
    pub open spec fn after_allocate(self) -> AllocatorState {
        if self.free.len() > 0 {
            AllocatorState { counter: self.counter, free: self.free.drop_last() }
        } else {
            AllocatorState { counter: self.counter + 1, free: self.free }
        }
    }

    /// The state after `id` was given back.
    pub open spec fn after_deallocate(self, id: u16) -> AllocatorState {
        AllocatorState { counter: self.counter, free: self.free.push(id) }
    }

    /// The state after `n` successful allocations in a row.
    pub open spec fn after_allocations(self, n: nat) -> AllocatorState
        decreases n,
    {
        if n == 0 {
            self
        } else {
            self.after_allocations((n - 1) as nat).after_allocate()
        }
    }
}

/// Issues and recycles the chunk identifiers of one grid.
pub struct ChunkManager {
    counter: u16,
    free_list: Vec<u16>,
}

impl View for ChunkManager {
    type V = AllocatorState;

    closed spec fn view(&self) -> AllocatorState {
        AllocatorState { counter: self.counter as nat, free: self.free_list@ }
    }
}

impl ChunkManager {
    /// An allocator that has issued nothing yet.
    pub fn new() -> (manager: ChunkManager)
        ensures
            manager@ == AllocatorState::initial(),
    {
        ChunkManager { counter: 0, free_list: Vec::new() }
    }

    /// Hands out an identifier: the most recently reclaimed one if there is
    /// any, otherwise the next one that was never issued. Fails, changing
    /// nothing, when nothing is reclaimed and the counter cannot advance.
    pub fn allocate(&mut self) -> (r: Result<u16, ChunkError>)
        ensures
            r is Ok <==> old(self)@.can_allocate(),
            r is Ok ==> r->Ok_0 == old(self)@.next_id() && final(self)@ == old(
                self,
            )@.after_allocate(),
            r is Err ==> r->Err_0 == ChunkError::IdSpaceExhausted && final(self)@ == old(self)@,
    {
        if let Some(id) = self.free_list.pop() {
            Ok(id)
        } else if self.counter == ID_LIMIT {
            Err(ChunkError::IdSpaceExhausted)
        } else {
            let id = self.counter;
            self.counter = self.counter + 1;
            Ok(id)
        }
    }

    /// Takes `id` back; the next allocation returns it.
    ///
    /// The allocator does not track which identifiers are live: giving the
    /// same identifier back twice makes it be issued twice.
    pub fn deallocate(&mut self, id: u16)
        ensures
            final(self)@ == old(self)@.after_deallocate(id),
    {
        self.free_list.push(id);
    }

    /// Number of identifiers issued fresh so far.
    pub fn issued(&self) -> (n: u16)
        ensures
            n == self@.counter,
    {
        self.counter
    }

    /// Number of reclaimed identifiers waiting to be issued again.
    pub fn reclaimed(&self) -> (n: usize)
        ensures
            n == self@.free.len(),
    {
        self.free_list.len()
    }
}

/// Without deallocation, a fresh allocator hands out `0, 1, 2, ...`: after `n`
/// allocations the counter stands at `n`, nothing is reclaimed, and the next
/// identifier is `n`. Hence the identifiers are distinct and strictly
/// increasing.
pub proof fn lemma_fresh_ids_count_up(n: nat)
    requires
        n <= ID_LIMIT,
    ensures
        AllocatorState::initial().after_allocations(n) == (AllocatorState {
            counter: n,
            free: Seq::empty(),
        }),
        n < ID_LIMIT ==> AllocatorState::initial().after_allocations(n).can_allocate(),
        AllocatorState::initial().after_allocations(n).next_id() == n,
    decreases n,
{
    if n > 0 {
        lemma_fresh_ids_count_up((n - 1) as nat);
    }
}

/// Without deallocation, the identifiers that a fresh allocator hands out
/// are strictly increasing, hence distinct: of any two allocations, the
/// later one returns the larger identifier.
pub proof fn lemma_fresh_ids_increase(i: nat, j: nat)
    requires
        i < j <= ID_LIMIT,
    ensures
        AllocatorState::initial().after_allocations(i).next_id()
            < AllocatorState::initial().after_allocations(j).next_id(),
{
    lemma_fresh_ids_count_up(i);
    lemma_fresh_ids_count_up(j);
}

/// An identifier that was given back is the next one handed out, before any
/// new counter value, and the allocator is then as it was before.
pub proof fn lemma_reclaimed_id_is_reused(s: AllocatorState, id: u16)
    ensures
        s.after_deallocate(id).can_allocate(),
        s.after_deallocate(id).next_id() == id,
        s.after_deallocate(id).after_allocate() == s,
{
    assert(s.free.push(id).drop_last() =~= s.free);
}

} // verus!
