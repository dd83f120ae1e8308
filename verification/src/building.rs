//! Buildings: markets where agents trade, huts agents call home, and boats
//! fishers sail.

use vstd::prelude::*;

use crate::entity::EntityId;

verus! {

/// The three kinds of building.
#[derive(Debug, Clone, Copy, PartialEq, Eq, Structural)]
pub enum Building {
    /// The trading place; the global order book is its backend.
    Market,
    /// An agent's home. `agent` is the owning agent, `is_agent_in` whether
    /// the owner is inside right now.
    Hut { is_agent_in: bool, agent: EntityId },
    /// A boat a fisher can sail. While sailed, the boat leaves the map.
    Boat { has_agent: bool },
}

impl Building {
    /// A hut that does not yet know its agent. World initialization fills
    /// the owner in before the world is first stepped.
    pub fn hut_uninitialized() -> (r: Building)
        ensures
            r == (Building::Hut { is_agent_in: true, agent: EntityId::uninitialized_spec() }),
    {
        Building::Hut { is_agent_in: true, agent: EntityId::uninitialized() }
    }

    /// Record that the given agent entered this building. Only markets and
    /// the hut owned by that agent admit an agent; boats are entered by the
    /// dedicated boarding action.
    pub fn agent_enter(&mut self, id: EntityId)
        requires
            match *old(self) {
                Building::Market => true,
                Building::Hut { agent, .. } => agent == id,
                Building::Boat { .. } => false,
            },
        ensures
            *final(self) == match *old(self) {
                Building::Hut { agent, .. } => Building::Hut { is_agent_in: true, agent },
                b => b,
            },
    {
        match self {
            Building::Market => {},
            Building::Hut { is_agent_in, .. } => {
                *is_agent_in = true;
            },
            Building::Boat { .. } => {},
        }
    }

    /// Record that an agent left this building.
    pub fn agent_leave(&mut self, _id: EntityId)
        requires
            !(*old(self) is Boat),
        ensures
            *final(self) == match *old(self) {
                Building::Hut { agent, .. } => Building::Hut { is_agent_in: false, agent },
                b => b,
            },
    {
        match self {
            Building::Market => {},
            Building::Hut { is_agent_in, .. } => {
                *is_agent_in = false;
            },
            Building::Boat { .. } => {},
        }
    }
}

} // verus!
