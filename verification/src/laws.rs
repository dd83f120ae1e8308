//! The engine's cross-function laws, each stated over the spec relations
//! that the action appliers' contracts use and proved once and for all.

use vstd::prelude::*;

use crate::agent::Agent;
use crate::agent::Job;
use crate::building::Building;
use crate::entity::Entity;
use crate::entity::EntityId;
use crate::entity::EntityType;
use crate::world::World;
use crate::world::Pos;
use crate::world::agent_of;
use crate::world::building_of;
use crate::world::enter_applicable;
use crate::world::enter_boat_applicable;
use crate::world::enter_boat_post;
use crate::world::enter_post;
use crate::world::leave_applicable;
use crate::world::leave_boat_applicable;
use crate::world::leave_boat_post;
use crate::world::leave_post;
use crate::world::sum_cash;

verus! {

/// Entering a building and then leaving it restores the agent: it stands
/// outdoors on the leave target with every other field as before, the
/// building is exactly as it was, the leave target holds the agent, and
/// every tile but the agent's two outdoor tiles is untouched.
pub proof fn lemma_enter_then_leave(
    w0: World,
    w1: World,
    w2: World,
    id: EntityId,
    p: Pos,
    p2: Pos,
)
    requires
        w0.wf(),
        id.wf(),
        id.as_index_spec() < w0.entities@.len(),
        w0.entities@[id.as_index_spec()].ty is Agent,
        !agent_of(w0.entities@[id.as_index_spec()]).dead,
        enter_applicable(w0, id, p),
        enter_post(w0, w1, id, p),
        leave_applicable(w1, id, p2),
        leave_post(w1, w2, id, p2),
    ensures
        !agent_of(w2.entities@[id.as_index_spec()]).in_building,
        w2.entities@[id.as_index_spec()] == (Entity {
            pos: p2,
            ty: w0.entities@[id.as_index_spec()].ty,
        }),
        w2.tiles_entity@[w2.idx_spec(p2)] == Some(id),
        ({
            let bi = w0.tiles_entity@[w0.idx_spec(p)]->0.as_index_spec();
            w2.entities@[bi] == w0.entities@[bi]
        }),
        forall|t: int|
            0 <= t < w0.tiles_entity@.len() && t != w0.idx_spec(
                w0.entities@[id.as_index_spec()].pos,
            ) && t != w0.idx_spec(p2) ==> w2.tiles_entity@[t] == w0.tiles_entity@[t],
{
    let i = id.as_index_spec();
    let e0 = w0.entities@[i];
    let a0 = agent_of(e0);
    proof_idx_bounds(w0, p);
    assert(w0.entity_ok(i));
    proof_idx_bounds(w0, e0.pos);
    let bi = w0.tiles_entity@[w0.idx_spec(p)]->0.as_index_spec();
    assert(0 <= bi < w0.entities@.len());
    assert(w0.entity_ok(bi));
    assert(w1.width == w0.width && w1.height == w0.height);
    assert(w2.width == w0.width && w2.height == w0.height);
    assert(w1.dims_ok());
    proof_idx_bounds(w1, p2);
    assert(w1.idx_spec(p2) == w0.idx_spec(p2));
    assert(w2.idx_spec(p2) == w0.idx_spec(p2));
    // After entering, the agent stands (inside) at `p`, so the tile it
    // leaves from is the building's tile; leaving only writes the leave
    // target.
    assert(w1.entities@[i] == Entity {
        pos: p,
        ty: EntityType::Agent(Agent { in_building: true, ..a0 }),
    });
    assert(agent_of(w1.entities@[i]) == Agent { in_building: true, ..a0 });
    let a2 = Agent { in_building: false, ..Agent { in_building: true, ..a0 } };
    assert(a2 == a0);
    // The building at `p` was not marked occupied before the agent entered,
    // so entering and leaving returns it to its original state.
    match building_of(w0.entities@[bi]) {
        Building::Hut { is_agent_in, agent } => {
            assert(!is_agent_in) by {
                if is_agent_in {
                    assert(agent_of(w0.entities@[agent.as_index_spec()]).in_building);
                }
            }
            assert(w2.entities@[bi] == w0.entities@[bi]);
        },
        Building::Market => {
            assert(w2.entities@[bi] == w0.entities@[bi]);
        },
        Building::Boat { .. } => {
            assert(false);
        },
    }
    assert(w1.idx_spec(w1.entities@[i].pos) == w0.idx_spec(p));
}

/// Boarding a boat and then putting it down restores the boat: it is
/// parked again on the tile the fisher left it from, the fisher stands on
/// the disembark target without a boat, and the fisher's job is back to
/// what it was.
pub proof fn lemma_enter_boat_then_leave_boat(
    w0: World,
    w1: World,
    w2: World,
    id: EntityId,
    p: Pos,
    q: Pos,
)
    requires
        w0.wf(),
        id.wf(),
        id.as_index_spec() < w0.entities@.len(),
        w0.entities@[id.as_index_spec()].ty is Agent,
        !agent_of(w0.entities@[id.as_index_spec()]).dead,
        enter_boat_applicable(w0, id, p),
        enter_boat_post(w0, w1, id, p),
        leave_boat_applicable(w1, id, q),
        leave_boat_post(w1, w2, id, q),
    ensures
        ({
            let bid = w0.tiles_entity@[w0.idx_spec(p)]->0;
            // The boat is parked again where the fisher stood when it put
            // the boat down, which is the boat's own tile.
            &&& w2.entities@[bid.as_index_spec()] == (Entity {
                pos: w1.entities@[id.as_index_spec()].pos,
                ty: EntityType::Building(Building::Boat { has_agent: false }),
            })
            &&& w1.entities@[id.as_index_spec()].pos == p
            &&& w2.tiles_entity@[w2.idx_spec(p)] == Some(bid)
        }),
        agent_of(w2.entities@[id.as_index_spec()]).job == agent_of(
            w0.entities@[id.as_index_spec()],
        ).job,
        w2.entities@[id.as_index_spec()].pos == q,
        w2.tiles_entity@[w2.idx_spec(q)] == Some(id),
{
    let i = id.as_index_spec();
    let e0 = w0.entities@[i];
    let a0 = agent_of(e0);
    proof_idx_bounds(w0, p);
    assert(w0.entity_ok(i));
    proof_idx_bounds(w0, e0.pos);
    let bid = w0.tiles_entity@[w0.idx_spec(p)]->0;
    let bi = bid.as_index_spec();
    assert(0 <= bi < w0.entities@.len());
    assert(w0.entity_ok(bi));
    assert(w1.width == w0.width && w1.height == w0.height);
    assert(w2.width == w0.width && w2.height == w0.height);
    assert(w1.dims_ok());
    proof_idx_bounds(w1, q);
    assert(w1.idx_spec(q) == w0.idx_spec(q));
    assert(w2.idx_spec(q) == w0.idx_spec(q));
    assert(w2.idx_spec(p) == w0.idx_spec(p));
    assert(w1.entities@[i] == Entity {
        pos: p,
        ty: EntityType::Agent(Agent { job: Job::Fisher { boat: Some(bid) }, ..a0 }),
    });
    let a1 = agent_of(w1.entities@[i]);
    assert(a1.job == Job::Fisher { boat: Some(bid) });
    let a2 = Agent { job: Job::Fisher { boat: None }, ..a1 };
    assert(a2.job == a0.job);
    assert(w1.idx_spec(p) == w0.idx_spec(p));
    // Disembarking cannot target the boat's own tile: that tile holds the
    // fisher and is not walkable.
    assert(w0.idx_spec(q) != w0.idx_spec(p)) by {
        if w0.idx_spec(q) == w0.idx_spec(p) {
            assert(w1.walkable_at(q));
            assert(w1.tiles_entity@[w1.idx_spec(q)] is None);
            assert(w1.tiles_entity@[w1.idx_spec(p)] == Some(id));
        }
    }
}

/// The tile index of an in-bounds position is a valid index; positions
/// out of bounds need no index.
proof fn proof_idx_bounds(w: World, p: Pos)
    requires
        w.dims_ok(),
    ensures
        w.in_bounds(p) ==> 0 <= w.idx_spec(p) < w.tiles_entity@.len(),
{
    if w.in_bounds(p) {
        w.lemma_idx(p);
    }
}

/// Cash conservation composes: when each of two successive transitions
/// keeps the total cash of the store, so does their composition. Together
/// with the conservation clause of the purchase applier, any sequence of
/// market purchases conserves the agents' total cash.
pub proof fn lemma_cash_conservation_chain(e0: Seq<Entity>, e1: Seq<Entity>, e2: Seq<Entity>)
    requires
        sum_cash(e1) == sum_cash(e0),
        sum_cash(e2) == sum_cash(e1),
    ensures
        sum_cash(e2) == sum_cash(e0),
{
}

/// The square spiral begins on its start tile: searching even a single
/// tile always considers the start position itself, wrapped onto the
/// world.
pub proof fn lemma_spiral_starts_at_origin(w: World, p: Pos)
    ensures
        w.spiral_at(p, 0) == p.spec_wrap(w.width as int, w.height as int),
{
}

} // verus!
