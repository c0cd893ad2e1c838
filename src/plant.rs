use vstd::prelude::*;

use crate::arena::{Arena, ArenaError, ArenaOp, ArenaView, INVALID_INDEX};
use crate::node::{NodeStatus, Position};

verus! {

/// A whole organism: its lifecycle, age and location.
#[derive(Clone, Copy, Debug, PartialEq, Eq, Structural)]
pub struct Plant {
    pub status: NodeStatus,
    pub age: u32,
    pub location: Position,
}

pub open spec fn blank_plant() -> Plant {
    Plant { status: NodeStatus::Garbage, age: 0, location: Position { x: 0, y: 0, z: 0 } }
}

impl Plant {
    pub fn new() -> (r: Plant)
        ensures
            r == blank_plant(),
    {
        Plant { status: NodeStatus::Garbage, age: 0, location: Position { x: 0, y: 0, z: 0 } }
    }
}

/// Arena of plants.
pub struct PlantBuffer {
    arena: Arena<Plant>,
}

impl View for PlantBuffer {
    type V = ArenaView<Plant>;

    closed spec fn view(&self) -> ArenaView<Plant> {
        self.arena@
    }
}

impl PlantBuffer {
    pub closed spec fn wf(&self) -> bool {
        self.arena.wf()
    }

    pub proof fn lemma_wf(&self)
        requires
            self.wf(),
        ensures
            self@.wf(),
    {
        self.arena.lemma_wf();
    }

    /// An arena of `size` blank plants, all free. Sizes of zero and of the sentinel index
    /// are refused.
    pub fn new(size: u32) -> (r: Result<PlantBuffer, ArenaError>)
        ensures
            r is Err <==> size == 0 || size == INVALID_INDEX,
            r is Err ==> r == Err::<PlantBuffer, ArenaError>(ArenaError::InvalidCapacity),
            r matches Ok(b) ==> {
                &&& b.wf()
                &&& b@.capacity == size
                &&& b@.slots == Seq::new(size as nat, |i: int| blank_plant())
                &&& b@.free == Seq::new(size as nat, |i: int| i as u32)
            },
    {
        match Arena::new(size, Plant::new()) {
            Ok(arena) => Ok(PlantBuffer { arena }),
            Err(e) => Err(e),
        }
    }

    pub fn get(&self, index: u32) -> (r: Plant)
        requires
            self.wf(),
            self@.in_range(index),
        ensures
            r == self@.slots[index as int],
    {
        self.arena.get(index)
    }

    pub fn set(&mut self, index: u32, plant: Plant)
        requires
            old(self).wf(),
            old(self)@.in_range(index),
        ensures
            final(self).wf(),
            final(self)@ == old(self)@.with_slot(index, plant),
    {
        self.arena.set(index, plant);
    }

    /// Hands out a free slot, which still holds what its previous tenant left.
    pub fn allocate(&mut self) -> (r: Result<u32, ArenaError>)
        requires
            old(self).wf(),
        ensures
            final(self).wf(),
            final(self)@ == old(self)@.step(ArenaOp::Alloc),
            r is Err <==> old(self)@.free.len() == 0,
            r is Err ==> r == Err::<u32, ArenaError>(ArenaError::CapacityExhausted),
            r matches Ok(i) ==> i == old(self)@.next_index() && final(self)@.live() == old(self)@.live().insert(i as int),
    {
        self.arena.allocate()
    }

    /// Allocates a slot and stores `plant` there.
    pub fn alloc_insert(&mut self, plant: Plant) -> (r: Result<u32, ArenaError>)
        requires
            old(self).wf(),
        ensures
            final(self).wf(),
            r is Err <==> old(self)@.free.len() == 0,
            r is Err ==> r == Err::<u32, ArenaError>(ArenaError::CapacityExhausted) && final(self)@ == old(self)@,
            r matches Ok(i) ==> i == old(self)@.next_index() && final(self)@ == old(self)@.step(ArenaOp::Alloc).with_slot(i, plant),
    {
        let i = self.allocate()?;
        proof {
            self.lemma_wf();
            old(self).lemma_wf();
            let k = old(self)@.free.len() - 1;
            assert((old(self)@.free[k] as nat) < old(self)@.capacity);
        }
        self.set(i, plant);
        Ok(i)
    }

    /// Marks slot `index` as garbage and returns it to the free stack. A slot that is
    /// already free is refused and left as it is.
    pub fn free(&mut self, index: u32) -> (r: Result<(), ArenaError>)
        requires
            old(self).wf(),
            old(self)@.in_range(index),
        ensures
            final(self).wf(),
            r is Err <==> old(self)@.is_free(index),
            r is Err ==> r == Err::<(), ArenaError>(ArenaError::DoubleFree) && final(self)@ == old(self)@,
            r is Ok ==> final(self)@ == old(self)@.with_slot(
                index,
                Plant { status: NodeStatus::Garbage, ..old(self)@.slots[index as int] },
            ).step(ArenaOp::Free(index)),
    {
        if self.arena.is_free(index) {
            return Err(ArenaError::DoubleFree);
        }
        let p = self.arena.get(index);
        self.arena.set(index, Plant { status: NodeStatus::Garbage, ..p });
        self.arena.free(index)
    }

    /// Number of slots.
    pub fn size(&self) -> (r: u32)
        requires
            self.wf(),
        ensures
            r == self@.capacity,
    {
        self.arena.size()
    }

    /// Number of allocated slots.
    pub fn current_size(&self) -> (r: u32)
        requires
            self.wf(),
        ensures
            r == self@.current_size(),
    {
        self.arena.current_size()
    }

    /// A second buffer with the same contents.
    pub fn duplicate(&self) -> (r: PlantBuffer)
        requires
            self.wf(),
        ensures
            r.wf(),
            r@ == self@,
    {
        PlantBuffer { arena: self.arena.duplicate() }
    }
}

} // verus!
