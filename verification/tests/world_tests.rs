//! Whole-world behavior: geometry, searches, ticks, action application,
//! the per-tick invariants, and the end-to-end scenarios.

use ecosim::agent::Agent;
use ecosim::agent::AgentAction;
use ecosim::agent::Job;
use ecosim::building::Building;
use ecosim::config::Config;
use ecosim::entity::EntityId;
use ecosim::entity::EntityType;
use ecosim::host::SimHost;
use ecosim::host::rng_from_seed;
use ecosim::resources::Resource;
use ecosim::resources::ResourceItem;
use ecosim::tile::TileType;
use ecosim::world::Pos;
use ecosim::world::World;

/// A deterministic host: fixed greed, fixed respawn amounts, no
/// statistics.
struct TestHost {
    respawn: u16,
}

impl SimHost for TestHost {
    fn greed_sample(&mut self) -> u32 {
        5
    }

    fn respawn_amount(&mut self) -> u16 {
        self.respawn
    }

    fn on_agent_step(&mut self, _agent: &Agent, _idx: usize) {
    }

    fn on_tick(&mut self, _world: &World) {
    }
}

/// An all-grass world of the given size with the given entities placed.
fn grass_world(
    width: usize,
    height: usize,
    config: Config,
    placed: Vec<(usize, EntityType)>,
) -> World {
    let mut samples: Vec<(TileType, Option<EntityType>)> = Vec::new();
    for _ in 0..width * height {
        samples.push((TileType::Grass, None));
    }
    for (i, e) in placed {
        samples[i] = (TileType::Grass, Some(e));
    }
    let mut rng = rng_from_seed(7);
    let mut host = TestHost { respawn: 20 };
    World::new(width, height, &samples, config, &mut rng, &mut host)
}

fn tile_index(w: &World, p: Pos) -> usize {
    p.x as usize + p.y as usize * w.width
}

/// The per-tick invariants: every tile reference points at a live entity
/// standing there, resources with stock are not dormant, and every hut's
/// agent calls the hut home.
fn assert_invariants(w: &World) {
    for (t, slot) in w.tiles_entity.iter().enumerate() {
        if let Some(id) = slot {
            let e = w.entity(*id);
            assert_eq!(tile_index(w, e.pos), t, "entity stands on its tile");
            if let EntityType::Agent(a) = &e.ty {
                assert!(!a.dead, "dead agents never stay on the map");
                assert!(!a.in_building, "agents in buildings leave no tile mark");
            }
        }
    }
    for (i, e) in w.entities.iter().enumerate() {
        match &e.ty {
            EntityType::Resource(r) => {
                assert!(r.amount == 0 || r.timeout == 0, "stocked resources are not dormant");
            },
            EntityType::Building(Building::Hut { agent, .. }) => {
                if let EntityType::Agent(a) = &w.entity(*agent).ty {
                    assert_eq!(a.home, e.pos, "a hut's agent calls the hut home");
                } else {
                    panic!("a hut must reference an agent");
                }
            },
            EntityType::Agent(a) => {
                if !a.dead && !a.in_building {
                    assert_eq!(
                        w.tiles_entity[tile_index(w, e.pos)].map(|id| id.as_index()),
                        Some(i),
                        "live outdoor agents stand on their tile"
                    );
                }
            },
            _ => {},
        }
    }
}

#[test]
fn toroidal_wrap() {
    let w = grass_world(5, 7, Config::default(), vec![]);
    assert_eq!(Pos::new(-1, 2).wrap(&w), Pos::new(4, 2));
    assert_eq!(Pos::new(5, -1).wrap(&w), Pos::new(0, 6));
    assert_eq!(Pos::new(3, 3).wrap(&w), Pos::new(3, 3));
    assert_eq!(w.wrap_pos(-6, 14), Pos::new(4, 0));
}

#[test]
fn adjacency_is_chebyshev() {
    assert!(Pos::new(3, 3).is_adjacent(Pos::new(4, 4)));
    assert!(Pos::new(3, 3).is_adjacent(Pos::new(3, 3)));
    assert!(!Pos::new(3, 3).is_adjacent(Pos::new(5, 3)));
}

#[test]
fn spiral_search_boundaries() {
    // Zero tiles searched finds nothing; one tile searched is exactly the
    // start tile.
    let w = grass_world(6, 6, Config::default(), vec![]);
    let start = Pos::new(2, 2);
    assert_eq!(w.find_tile_around(start, 0, |_q| true), None);
    assert_eq!(w.find_tile_around(start, 1, |q| q == start), Some(start));
    assert_eq!(w.find_tile_around(start, 1, |_q| false), None);
}

#[test]
fn spiral_enumerates_distinct_nearby_tiles() {
    let w = grass_world(9, 9, Config::default(), vec![]);
    let ps = w.spiral_positions(Pos::new(4, 4), 9);
    assert_eq!(ps.len(), 9);
    assert_eq!(ps[0], Pos::new(4, 4));
    // The walk starts upward and then turns right.
    assert_eq!(ps[1], Pos::new(4, 5));
    assert_eq!(ps[2], Pos::new(5, 5));
    // The first nine tiles of the spiral cover the 3x3 block.
    for x in 3..=5i16 {
        for y in 3..=5i16 {
            assert!(ps.contains(&Pos::new(x, y)), "spiral covers ({}, {})", x, y);
        }
    }
}

#[test]
fn single_agent_starves() {
    // One agent, no resources, 100 energy, one energy per tick: the agent
    // dies on tick 100 and leaves no trace on the map.
    let mut config = Config::default();
    config.initial_energy = 100;
    config.max_energy = 10000;
    config.energy_cost = 1;
    let hut = EntityType::Building(Building::hut_uninitialized());
    let mut w = grass_world(8, 8, config, vec![(9, hut)]);
    assert_eq!(w.start_count, 1);
    let mut rng = rng_from_seed(3);
    let mut host = TestHost { respawn: 0 };
    for _ in 0..100 {
        w.step_once(&mut rng, &mut host);
        assert_invariants(&w);
    }
    let agent = match &w.entities[0].ty {
        EntityType::Agent(a) => *a,
        _ => panic!("the hut spawns its agent first"),
    };
    assert!(agent.dead);
    assert_eq!(w.entities[0].pos, Pos::new(-1, -1));
    for slot in w.tiles_entity.iter() {
        assert_ne!(*slot, Some(EntityId::new(0)));
    }
    // A dying agent is not counted on its dying tick.
    assert_eq!(w.alive_count, 0);
}

#[test]
fn farming_moves_stock_into_inventory() {
    // Five units of berries are farmed one per action; the sixth attempt
    // yields nothing.
    let mut w = grass_world(
        8,
        8,
        Config::default(),
        vec![
            (9, EntityType::Building(Building::hut_uninitialized())),
            (11, EntityType::Resource(Resource::new(ResourceItem::Berry, 5))),
        ],
    );
    let agent_id = EntityId::new(0);
    let berry_pos = Pos::new(3, 1);
    // The agent spawns inside its hut; put it on the tile next door.
    w.apply_action(agent_id, AgentAction::Leave(Pos::new(2, 1)));
    assert_invariants(&w);
    for k in 1..=5u32 {
        w.apply_action(agent_id, AgentAction::Farm(berry_pos));
        let a = match &w.entities[0].ty {
            EntityType::Agent(a) => *a,
            _ => panic!("agent expected"),
        };
        assert_eq!(*a.inventory.get(ResourceItem::Berry), k);
    }
    w.apply_action(agent_id, AgentAction::Farm(berry_pos));
    let a = match &w.entities[0].ty {
        EntityType::Agent(a) => *a,
        _ => panic!("agent expected"),
    };
    assert_eq!(*a.inventory.get(ResourceItem::Berry), 5);
    match &w.entities[2].ty {
        EntityType::Resource(r) => assert_eq!(r.amount, 0),
        _ => panic!("resource expected"),
    }
    assert_invariants(&w);
}

#[test]
fn hut_occupancy_round_trip() {
    // The agent spawns inside its hut; leaving and entering again
    // restores the original occupancy picture.
    let mut w = grass_world(
        8,
        8,
        Config::default(),
        vec![(9, EntityType::Building(Building::hut_uninitialized()))],
    );
    let agent_id = EntityId::new(0);
    let hut_id = EntityId::new(1);
    let hut_pos = Pos::new(1, 1);
    let outside = Pos::new(2, 1);
    assert_eq!(w.tiles_entity[9], Some(hut_id));
    match &w.entities[1].ty {
        EntityType::Building(Building::Hut { is_agent_in, agent }) => {
            assert!(*is_agent_in);
            assert_eq!(*agent, agent_id);
        },
        _ => panic!("hut expected"),
    }
    w.apply_action(agent_id, AgentAction::Leave(outside));
    assert_eq!(w.tiles_entity[tile_index(&w, outside)], Some(agent_id));
    assert_eq!(w.tiles_entity[9], Some(hut_id));
    match &w.entities[1].ty {
        EntityType::Building(Building::Hut { is_agent_in, .. }) => assert!(!*is_agent_in),
        _ => panic!("hut expected"),
    }
    match &w.entities[0].ty {
        EntityType::Agent(a) => {
            assert!(!a.in_building);
            assert_eq!(a.home, hut_pos);
        },
        _ => panic!("agent expected"),
    }
    assert_invariants(&w);
    w.apply_action(agent_id, AgentAction::Enter(hut_pos));
    assert_eq!(w.tiles_entity[tile_index(&w, outside)], None);
    assert_eq!(w.tiles_entity[9], Some(hut_id));
    match &w.entities[1].ty {
        EntityType::Building(Building::Hut { is_agent_in, .. }) => assert!(*is_agent_in),
        _ => panic!("hut expected"),
    }
    match &w.entities[0].ty {
        EntityType::Agent(a) => assert!(a.in_building),
        _ => panic!("agent expected"),
    }
    assert_invariants(&w);
}

#[test]
fn boat_round_trip() {
    // Boarding a boat and putting it down again parks the boat back on
    // the tile the fisher left it from.
    let mut w = grass_world(
        8,
        8,
        Config::default(),
        vec![
            (9, EntityType::Building(Building::hut_uninitialized())),
            (12, EntityType::Building(Building::Boat { has_agent: false })),
        ],
    );
    let agent_id = EntityId::new(0);
    let boat_id = EntityId::new(2);
    let boat_pos = Pos::new(4, 1);
    // Make the spawned agent a fisher without a boat, standing outdoors.
    w.apply_action(agent_id, AgentAction::Leave(Pos::new(3, 1)));
    match &mut w.entities[0].ty {
        EntityType::Agent(a) => a.job = Job::Fisher { boat: None },
        _ => panic!("agent expected"),
    }
    w.apply_action(agent_id, AgentAction::EnterBoat(boat_pos));
    assert_eq!(w.tiles_entity[tile_index(&w, boat_pos)], Some(agent_id));
    match &w.entities[2].ty {
        EntityType::Building(Building::Boat { has_agent }) => assert!(*has_agent),
        _ => panic!("boat expected"),
    }
    match &w.entities[0].ty {
        EntityType::Agent(a) => assert_eq!(a.job, Job::Fisher { boat: Some(boat_id) }),
        _ => panic!("agent expected"),
    }
    let shore = Pos::new(4, 2);
    w.apply_action(agent_id, AgentAction::LeaveBoat(shore));
    assert_eq!(w.tiles_entity[tile_index(&w, boat_pos)], Some(boat_id));
    assert_eq!(w.tiles_entity[tile_index(&w, shore)], Some(agent_id));
    match &w.entities[2].ty {
        EntityType::Building(Building::Boat { has_agent }) => assert!(!*has_agent),
        _ => panic!("boat expected"),
    }
    match &w.entities[0].ty {
        EntityType::Agent(a) => assert_eq!(a.job, Job::Fisher { boat: None }),
        _ => panic!("agent expected"),
    }
    assert_invariants(&w);
}

#[test]
fn purchases_conserve_cash() {
    // Money only moves between agents: the total across the store is the
    // same before and after a purchase.
    let mut w = grass_world(
        8,
        8,
        Config::default(),
        vec![
            (9, EntityType::Building(Building::hut_uninitialized())),
            (27, EntityType::Building(Building::hut_uninitialized())),
        ],
    );
    let buyer = EntityId::new(0);
    let seller = EntityId::new(2);
    // The seller puts five berries on the market at 10 each.
    match &mut w.entities[2].ty {
        EntityType::Agent(a) => {
            a.inventory.set(ResourceItem::Berry, 5);
        },
        _ => panic!("agent expected"),
    }
    w.apply_action(seller, AgentAction::MarketOrder {
        item: ResourceItem::Berry,
        price: 10,
        amount: 5,
    });
    let total_before: u64 = w
        .entities
        .iter()
        .map(|e| match &e.ty {
            EntityType::Agent(a) => a.cash as u64,
            _ => 0,
        })
        .sum();
    w.apply_action(buyer, AgentAction::MarketPurchase { item: ResourceItem::Berry, amount: 3 });
    let total_after: u64 = w
        .entities
        .iter()
        .map(|e| match &e.ty {
            EntityType::Agent(a) => a.cash as u64,
            _ => 0,
        })
        .sum();
    assert_eq!(total_before, total_after);
    match &w.entities[0].ty {
        EntityType::Agent(a) => {
            assert_eq!(*a.inventory.get(ResourceItem::Berry), 3);
            assert_eq!(a.cash, Config::default().initial_cash - 30);
        },
        _ => panic!("agent expected"),
    }
    match &w.entities[2].ty {
        EntityType::Agent(a) => assert_eq!(a.cash, Config::default().initial_cash + 30),
        _ => panic!("agent expected"),
    }
}

#[test]
fn depleted_resource_respawns_after_timeout() {
    let mut config = Config::default();
    config.resource_timeout = 3;
    let mut w = grass_world(
        8,
        8,
        config,
        vec![(11, EntityType::Resource(Resource::new(ResourceItem::Wheat, 1)))],
    );
    let res_pos = Pos::new(3, 1);
    let mut rng = rng_from_seed(1);
    let mut host = TestHost { respawn: 17 };
    // Farm the single unit away by hand.
    match &mut w.entities[0].ty {
        EntityType::Resource(r) => {
            assert_eq!(r.farm(), Some(ResourceItem::Wheat));
        },
        _ => panic!("resource expected"),
    }
    // Tick 1: the resource disappears and starts its countdown.
    w.step_once(&mut rng, &mut host);
    assert_eq!(w.tiles_entity[tile_index(&w, res_pos)], None);
    // Two more ticks count down; on the countdown's last tick the
    // resource returns with the host's drawn amount.
    w.step_once(&mut rng, &mut host);
    w.step_once(&mut rng, &mut host);
    w.step_once(&mut rng, &mut host);
    assert_eq!(w.tiles_entity[tile_index(&w, res_pos)], Some(EntityId::new(0)));
    match &w.entities[0].ty {
        EntityType::Resource(r) => {
            assert_eq!(r.amount, 17);
            assert_eq!(r.timeout, 0);
        },
        _ => panic!("resource expected"),
    }
    assert_invariants(&w);
}

#[test]
fn long_run_keeps_invariants() {
    // A busier world: two huts, a market, resources. The per-tick
    // invariants hold across a hundred ticks.
    let mut config = Config::default();
    config.search_radius = 4;
    let mut w = grass_world(
        10,
        10,
        config,
        vec![
            (11, EntityType::Building(Building::hut_uninitialized())),
            (88, EntityType::Building(Building::hut_uninitialized())),
            (45, EntityType::Building(Building::Market)),
            (14, EntityType::Resource(Resource::new(ResourceItem::Berry, 20))),
            (71, EntityType::Resource(Resource::new(ResourceItem::Wheat, 20))),
        ],
    );
    let mut rng = rng_from_seed(42);
    let mut host = TestHost { respawn: 20 };
    for _ in 0..100 {
        w.step_once(&mut rng, &mut host);
        assert_invariants(&w);
    }
    assert_eq!(w.tick, 100);
}

#[test]
fn dead_agents_never_return() {
    let mut config = Config::default();
    config.initial_energy = 10;
    config.energy_cost = 1;
    let mut w = grass_world(
        8,
        8,
        config,
        vec![(9, EntityType::Building(Building::hut_uninitialized()))],
    );
    let mut rng = rng_from_seed(5);
    let mut host = TestHost { respawn: 0 };
    for _ in 0..60 {
        w.step_once(&mut rng, &mut host);
        assert_invariants(&w);
    }
    for slot in w.tiles_entity.iter() {
        assert_ne!(*slot, Some(EntityId::new(0)), "a dead agent never reappears");
    }
}

#[test]
fn walkability_depends_on_type_and_occupancy() {
    let mut samples: Vec<(TileType, Option<EntityType>)> = Vec::new();
    for _ in 0..16 {
        samples.push((TileType::Grass, None));
    }
    samples[1] = (TileType::Water, None);
    samples[2] = (TileType::Grass, Some(EntityType::Building(Building::Market)));
    let mut rng = rng_from_seed(0);
    let mut host = TestHost { respawn: 0 };
    let w = World::new(4, 4, &samples, Config::default(), &mut rng, &mut host);
    assert!(w.tile_is_walkable(Pos::new(0, 0)));
    assert!(!w.tile_is_walkable(Pos::new(1, 0)), "water cannot be walked");
    assert!(!w.tile_is_walkable(Pos::new(2, 0)), "occupied tiles cannot be walked");
    assert!(w.tile_is_sailable(Pos::new(1, 0)));
    assert!(!w.tile_is_sailable(Pos::new(0, 0)));
    assert!(!TileType::Lava.walkable());
    assert!(TileType::Snow.walkable());
}

#[test]
fn step_kills_at_zero_energy() {
    // Energy saturates at zero and zero energy means death, in the same
    // tick.
    let mut w = grass_world(
        8,
        8,
        Config::default(),
        vec![(9, EntityType::Building(Building::hut_uninitialized()))],
    );
    let mut rng = rng_from_seed(11);
    let mut a = match &w.entities[0].ty {
        EntityType::Agent(a) => *a,
        _ => panic!("agent expected"),
    };
    // Put the agent outdoors with one energy point; the default cost of
    // two drains it below zero, clamping at zero.
    w.apply_action(EntityId::new(0), AgentAction::Leave(Pos::new(2, 1)));
    a = match &w.entities[0].ty {
        EntityType::Agent(a) => *a,
        _ => panic!("agent expected"),
    };
    a.energy = 1;
    let act = a.step(Pos::new(2, 1), &w, &mut rng);
    assert_eq!(act, AgentAction::Die);
    assert_eq!(a.energy, 0);
}

#[test]
fn uniform_draws_stay_in_range() {
    let mut rng = rng_from_seed(99);
    for _ in 0..200 {
        let v = ecosim::host::rng_below(&mut rng, 5);
        assert!(v < 5);
    }
}


#[test]
fn explorer_settles_on_the_best_observed_job() {
    // An explorer one tick from settling, with only a berry stock in
    // sight, becomes a lumberer.
    let mut config = Config::default();
    config.exploration_timeout = 10;
    let w = grass_world(
        8,
        8,
        config,
        vec![(11, EntityType::Resource(Resource::new(ResourceItem::Berry, 20)))],
    );
    let mut rng = rng_from_seed(2);
    let mut a = ecosim::agent::Agent::new(&config, 0, 5);
    match &mut a.job {
        Job::Explorer { count, .. } => *count = 9,
        _ => panic!("draw index zero yields an explorer"),
    }
    let _action = a.do_job(Pos::new(3, 3), &w, &mut rng);
    assert_eq!(a.job, Job::Lumberer);
}

#[test]
fn trading_sells_the_first_excess_at_the_shortfall_price() {
    // Cash 100 against a quota of 1000, five excess berries: the agent
    // offers all five at ceil(900 / 5) = 180 each.
    let w = grass_world(8, 8, Config::default(), vec![]);
    let mut a = ecosim::agent::Agent::new(&Config::default(), 1, 5);
    a.cash = 100;
    a.cash_quota = 1000;
    a.inventory = ecosim::resources::PerResource { wheat: 0u32, berry: 5, fish: 0, meat: 0 };
    a.meal_plan = Some(ecosim::resources::PerResource::new(0u32));
    a.shopping_list = Some(ecosim::resources::PerResource::new(0u32));
    let r = a.trade_on_market(Pos::new(1, 1), &w);
    assert_eq!(
        r,
        Some(AgentAction::MarketOrder { item: ResourceItem::Berry, price: 180, amount: 5 })
    );
}

#[test]
fn trading_buys_the_last_listed_resource() {
    // No excess and a shopping list wanting wheat and fish: the purchase
    // takes the last listed entry (fish) and strikes it off.
    let w = grass_world(8, 8, Config::default(), vec![]);
    let mut a = ecosim::agent::Agent::new(&Config::default(), 1, 5);
    a.cash_quota = 0;
    a.meal_plan = Some(ecosim::resources::PerResource::new(0u32));
    a.shopping_list = Some(ecosim::resources::PerResource {
        wheat: 2u32,
        berry: 0,
        fish: 7,
        meat: 0,
    });
    let r = a.trade_on_market(Pos::new(1, 1), &w);
    assert_eq!(r, Some(AgentAction::MarketPurchase { item: ResourceItem::Fish, amount: 7 }));
    let sl = a.shopping_list.expect("list still has the wheat entry");
    assert_eq!(*sl.get(ResourceItem::Fish), 0);
    assert_eq!(*sl.get(ResourceItem::Wheat), 2);
}
