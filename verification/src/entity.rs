//! Entities: everything that stands on a tile. An entity is an agent, a
//! resource stock, or a building, held in one append-only store and referred
//! to everywhere else by `EntityId`.

use vstd::prelude::*;

use crate::agent::Agent;
use crate::agent::Job;
use crate::building::Building;
use crate::resources::Resource;
use crate::resources::ResourceItem;
use crate::world::Pos;

verus! {

/// A reference to an entity: a 1-based index into the entity store. The
/// all-ones value is reserved for the window during multi-phase hut
/// initialization in which the owning agent is not yet known.
#[derive(Debug, Clone, Copy, PartialEq, Eq, Structural, Hash)]
pub struct EntityId {
    pub raw: u32,
}

impl EntityId {
    /// The reserved sentinel, as a spec value.
    pub open spec fn uninitialized_spec() -> EntityId {
        EntityId { raw: u32::MAX }
    }

    /// The 0-based index this id refers to.
    pub open spec fn as_index_spec(self) -> int {
        self.raw - 1
    }

    /// A proper id: 1-based and not the reserved sentinel.
    pub open spec fn wf(self) -> bool {
        1 <= self.raw < u32::MAX
    }

    /// Create an entity id from a 0-based index.
    pub fn new(idx: usize) -> (r: EntityId)
        requires
            idx + 1 < u32::MAX,
        ensures
            r.wf(),
            r.as_index_spec() == idx as int,
    {
        EntityId { raw: (idx as u32) + 1 }
    }

    /// The reserved sentinel used while a hut does not yet know its agent.
    pub fn uninitialized() -> (r: EntityId)
        ensures
            !r.wf(),
            r.raw == u32::MAX,
    {
        EntityId { raw: u32::MAX }
    }

    pub fn is_uninitialized(self) -> (r: bool)
        ensures
            r == (self.raw == u32::MAX),
    {
        self.raw == u32::MAX
    }

    /// The 0-based index this id refers to.
    pub fn as_index(self) -> (r: usize)
        requires
            self.wf(),
        ensures
            r == self.as_index_spec(),
    {
        (self.raw - 1) as usize
    }
}

/// One entity of the world, together with its position. A dead agent keeps
/// its slot in the store with the sentinel position `(-1, -1)`.
#[derive(Debug, Clone, Copy)]
pub struct Entity {
    /// Position of this entity; on the world, or `(-1, -1)` for dead agents.
    pub pos: Pos,
    /// The kind of entity, with all of its data.
    pub ty: EntityType,
}

/// The three kinds of entity.
#[derive(Debug, Clone, Copy)]
pub enum EntityType {
    Agent(Agent),
    Resource(Resource),
    Building(Building),
}

impl Entity {
    /// True if this entity is currently drawn on the map: agents outside of
    /// buildings, boats not being sailed, resources not in their respawn
    /// countdown, and all other buildings.
    pub fn visible(&self) -> (r: bool)
        ensures
            r == match self.ty {
                EntityType::Agent(a) => !a.in_building && !a.dead,
                EntityType::Building(Building::Boat { has_agent }) => !has_agent,
                EntityType::Resource(res) => res.timeout == 0,
                _ => true,
            },
    {
        match &self.ty {
            EntityType::Agent(a) => !(a.in_building || a.dead),
            EntityType::Building(Building::Boat { has_agent }) => !*has_agent,
            EntityType::Resource(r) => r.timeout == 0,
            _ => true,
        }
    }

    /// The index of this entity's texture in the sprite map.
    pub fn texture(&self) -> (r: i32) {
        match &self.ty {
            EntityType::Agent(a) => {
                let sailing = match a.job {
                    Job::Fisher { boat } => boat.is_some(),
                    _ => false,
                };
                let working = match a.state {
                    crate::agent::AgentState::DoJob => true,
                    _ => false,
                };
                if working || sailing {
                    a.job.texture()
                } else {
                    let v: i64 = a.home.x as i64;
                    let m: i64 = v % 8;
                    (if m < 0 { m + 8 } else { m }) as i32
                }
            },
            EntityType::Building(Building::Market) => 56,
            EntityType::Building(Building::Hut { .. }) => 57,
            EntityType::Building(Building::Boat { .. }) => 49,
            EntityType::Resource(r) => match r.resource {
                ResourceItem::Wheat => 32,
                ResourceItem::Berry => 33,
                ResourceItem::Meat => 40,
                ResourceItem::Fish => 50,
            },
        }
    }
}

} // verus!
