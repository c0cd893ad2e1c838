use vstd::prelude::*;

verus! {

/// Growth rule that a node follows.
#[derive(Clone, Copy, Debug, PartialEq, Eq, Structural)]
pub enum ArchetypeId {
    InvalidArchetype,
    Root,
    Leaf,
    Stem,
    GrowingBud,
}

/// An RGB colour, one byte per channel.
#[derive(Clone, Copy, Debug, PartialEq, Eq, Structural)]
pub struct Color {
    pub r: u8,
    pub g: u8,
    pub b: u8,
}

/// Display parameters of one archetype: the colours at the base and at the tip of a
/// segment, and its phototropism in thousandths.
#[derive(Clone, Copy, Debug, PartialEq, Eq, Structural)]
pub struct Archetype {
    pub base_color: Color,
    pub tip_color: Color,
    pub phototropism: i32,
}

pub open spec fn archetype_slot(id: ArchetypeId) -> int {
    match id {
        ArchetypeId::InvalidArchetype => 0,
        ArchetypeId::Root => 1,
        ArchetypeId::Leaf => 2,
        ArchetypeId::Stem => 3,
        ArchetypeId::GrowingBud => 4,
    }
}

pub open spec fn black() -> Color {
    Color { r: 0, g: 0, b: 0 }
}

pub open spec fn green() -> Color {
    Color { r: 0, g: 255, b: 0 }
}

pub open spec fn yellow() -> Color {
    Color { r: 255, g: 255, b: 0 }
}

/// The standard parameters: leaves run from green to yellow, every other segment from
/// black to green; no archetype bends toward light.
pub open spec fn standard_archetype(id: ArchetypeId) -> Archetype {
    if id == ArchetypeId::Leaf {
        Archetype { base_color: green(), tip_color: yellow(), phototropism: 0 }
    } else {
        Archetype { base_color: black(), tip_color: green(), phototropism: 0 }
    }
}

/// Lookup of per-archetype parameters, one entry per archetype.
pub struct ArchetypeTable {
    table: Vec<Archetype>,
}

impl ArchetypeTable {
    pub closed spec fn entry(&self, id: ArchetypeId) -> Archetype {
        self.table@[archetype_slot(id)]
    }

    pub closed spec fn wf(&self) -> bool {
        self.table@.len() == 5
    }

    fn standard(id: ArchetypeId) -> (r: Archetype)
        ensures
            r == standard_archetype(id),
    {
        let black = Color { r: 0, g: 0, b: 0 };
        let green = Color { r: 0, g: 255, b: 0 };
        let yellow = Color { r: 255, g: 255, b: 0 };
        match id {
            ArchetypeId::Leaf => Archetype { base_color: green, tip_color: yellow, phototropism: 0 },
            _ => Archetype { base_color: black, tip_color: green, phototropism: 0 },
        }
    }

    /// The table of standard parameters.
    pub fn new() -> (r: ArchetypeTable)
        ensures
            r.wf(),
            forall|id: ArchetypeId| #[trigger] r.entry(id) == standard_archetype(id),
    {
        let mut table: Vec<Archetype> = Vec::new();
        table.push(Self::standard(ArchetypeId::InvalidArchetype));
        table.push(Self::standard(ArchetypeId::Root));
        table.push(Self::standard(ArchetypeId::Leaf));
        table.push(Self::standard(ArchetypeId::Stem));
        table.push(Self::standard(ArchetypeId::GrowingBud));
        ArchetypeTable { table }
    }

    pub fn get(&self, id: ArchetypeId) -> (r: Archetype)
        requires
            self.wf(),
        ensures
            r == self.entry(id),
    {
        let slot: usize = match id {
            ArchetypeId::InvalidArchetype => 0,
            ArchetypeId::Root => 1,
            ArchetypeId::Leaf => 2,
            ArchetypeId::Stem => 3,
            ArchetypeId::GrowingBud => 4,
        };
        self.table[slot]
    }
}

} // verus!
