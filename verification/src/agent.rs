//! Agents: the decision state machine, jobs, meal and shopping planning,
//! and pathfinding. An agent's decisions are produced here as an
//! [`AgentAction`]; the world applies them atomically.

use vstd::prelude::*;

use crate::building::Building;
use crate::config::Config;
use crate::entity::Entity;
use crate::entity::EntityId;
use crate::entity::EntityType;
use crate::host::rng_below;
use crate::market::Market;
use crate::resources::PerResource;
use crate::resources::ResourceItem;
use crate::resources::preference_order;
use crate::tile::TileType;
use crate::world::Pos;
use crate::world::World;

use vstd::arithmetic::mul::lemma_mul_upper_bound;

verus! {

/// A direction an agent can step in.
#[derive(Debug, Clone, Copy, PartialEq, Eq, Structural, Hash)]
pub enum Direction {
    Up,
    UpRight,
    Right,
    DownRight,
    Down,
    DownLeft,
    Left,
    UpLeft,
}

impl Direction {
    /// The step this direction takes along the x axis.
    pub open spec fn dx(d: Direction) -> int {
        match d {
            Direction::Up => 0,
            Direction::UpRight => 1,
            Direction::Right => 1,
            Direction::DownRight => 1,
            Direction::Down => 0,
            Direction::DownLeft => -1,
            Direction::Left => -1,
            Direction::UpLeft => -1,
        }
    }

    /// The step this direction takes along the y axis.
    pub open spec fn dy(d: Direction) -> int {
        match d {
            Direction::Up => 1,
            Direction::UpRight => 1,
            Direction::Right => 0,
            Direction::DownRight => -1,
            Direction::Down => -1,
            Direction::DownLeft => -1,
            Direction::Left => 0,
            Direction::UpLeft => 1,
        }
    }

    /// The direction picked by a uniform draw in `0..8`.
    pub fn from_draw(draw: u32) -> (r: Direction) {
        match draw {
            0 => Direction::Up,
            1 => Direction::UpRight,
            2 => Direction::Right,
            3 => Direction::DownRight,
            4 => Direction::Down,
            5 => Direction::DownLeft,
            6 => Direction::Left,
            _ => Direction::UpLeft,
        }
    }

    /// Mirror of [`Direction::delta`]: the per-axis signs of the step from
    /// `end` toward `start`, each reversed when the other way around the
    /// torus is shorter.
    pub open spec fn delta_spec(end: Pos, start: Pos, width: int, height: int) -> Direction {
        let sx0: int = if start.x < end.x {
            -1
        } else if start.x == end.x {
            0
        } else {
            1
        };
        let sy0: int = if start.y < end.y {
            -1
        } else if start.y == end.y {
            0
        } else {
            1
        };
        let sx: int = if abs_int(start.x - end.x) > width / 2 {
            -sx0
        } else {
            sx0
        };
        let sy: int = if abs_int(start.y - end.y) > height / 2 {
            -sy0
        } else {
            sy0
        };
        if sx == -1 {
            if sy == -1 {
                Direction::DownLeft
            } else if sy == 0 {
                Direction::Left
            } else {
                Direction::UpLeft
            }
        } else if sx == 0 {
            if sy == -1 {
                Direction::Down
            } else {
                Direction::Up
            }
        } else {
            if sy == -1 {
                Direction::DownRight
            } else if sy == 0 {
                Direction::Right
            } else {
                Direction::UpRight
            }
        }
    }

    /// The direction an agent at `end` has to walk to reach `start`,
    /// preferring the shorter way around the torus on each axis.
    pub fn delta(end: Pos, start: Pos, world: &World) -> (r: Direction)
        requires
            world.dims_ok(),
            !(start.x == end.x && start.y == end.y),
        ensures
            r == Direction::delta_spec(end, start, world.width as int, world.height as int),
    {
        let sxr: i32 = start.x as i32;
        let exr: i32 = end.x as i32;
        let syr: i32 = start.y as i32;
        let eyr: i32 = end.y as i32;
        let mut sx: i32 = if sxr < exr {
            -1
        } else if sxr == exr {
            0
        } else {
            1
        };
        let mut sy: i32 = if syr < eyr {
            -1
        } else if syr == eyr {
            0
        } else {
            1
        };
        let adx: i32 = if sxr - exr < 0 {
            exr - sxr
        } else {
            sxr - exr
        };
        let ady: i32 = if syr - eyr < 0 {
            eyr - syr
        } else {
            syr - eyr
        };
        if adx > (world.width / 2) as i32 {
            sx = -sx;
        }
        if ady > (world.height / 2) as i32 {
            sy = -sy;
        }
        if sx == -1 {
            if sy == -1 {
                Direction::DownLeft
            } else if sy == 0 {
                Direction::Left
            } else {
                Direction::UpLeft
            }
        } else if sx == 0 {
            if sy == -1 {
                Direction::Down
            } else {
                Direction::Up
            }
        } else {
            if sy == -1 {
                Direction::DownRight
            } else if sy == 0 {
                Direction::Right
            } else {
                Direction::UpRight
            }
        }
    }
}

/// The absolute value of an integer.
pub open spec fn abs_int(v: int) -> int {
    if v < 0 {
        -v
    } else {
        v
    }
}

/// What an agent is currently doing.
#[derive(Debug, Clone, Copy, PartialEq, Eq, Structural)]
pub enum AgentState {
    BeHome,
    GoHome,
    DoJob,
    GoToMarket(Option<Pos>),
    TradeOnMarket,
}

/// One decision of one agent for one tick, applied by the world.
#[derive(Debug, Clone, Copy, PartialEq, Eq, Structural)]
pub enum AgentAction {
    /// Do nothing this tick.
    Idle,
    /// Step onto the given tile.
    Move(Pos),
    /// Farm the resource standing at the given tile.
    Farm(Pos),
    /// Enter the building at the given tile.
    Enter(Pos),
    /// Leave the current building onto the given tile.
    Leave(Pos),
    /// Board the boat standing at the given tile.
    EnterBoat(Pos),
    /// Put the boat down at the current position and step onto the given
    /// tile.
    LeaveBoat(Pos),
    /// Eat a quantity of one resource.
    Consume(ResourceItem, u32),
    /// Place a sell order on the market. Only valid inside a market.
    MarketOrder { item: ResourceItem, price: u32, amount: u32 },
    /// Buy from the cheapest orders on the market. Only valid inside a
    /// market.
    MarketPurchase { item: ResourceItem, amount: u32 },
    /// Die: leave the map and never act again.
    Die,
}

/// The job an agent currently works, with the job's own state.
#[derive(Debug, Clone, Copy, PartialEq, Eq, Structural)]
pub enum Job {
    /// Roams and scores nearby resources before settling on a job.
    Explorer { count: u16, observations: PerResource<u32> },
    Farmer,
    Lumberer,
    /// Fishes from a boat; `boat` is the boat being sailed, if any.
    Fisher { boat: Option<EntityId> },
    Butcher,
}

impl Job {
    /// The texture of an agent working this job.
    pub fn texture(&self) -> (r: i32) {
        match self {
            Job::Farmer => 10,
            Job::Explorer { .. } => 11,
            Job::Fisher { boat: None } => 12,
            Job::Fisher { boat: Some(_) } => 51,
            Job::Butcher => 13,
            Job::Lumberer => 15,
        }
    }

    /// The job drawn for a uniform draw in `0..5`; used when a fresh agent
    /// or a retiring explorer picks a job at random.
    pub fn from_draw(draw: u32) -> (r: Job)
        ensures
            r == Job::spec_from_draw(draw as int),
    {
        match draw {
            0 => Job::Explorer { observations: PerResource::new(0u32), count: 0 },
            1 => Job::Farmer,
            2 => Job::Butcher,
            3 => Job::Lumberer,
            _ => Job::Fisher { boat: None },
        }
    }

    /// Mirror of [`Job::from_draw`].
    pub open spec fn spec_from_draw(draw: int) -> Job {
        if draw == 0 {
            Job::Explorer { observations: PerResource::new_spec(0u32), count: 0 }
        } else if draw == 1 {
            Job::Farmer
        } else if draw == 2 {
            Job::Butcher
        } else if draw == 3 {
            Job::Lumberer
        } else {
            Job::Fisher { boat: None }
        }
    }
}

/// An agent: the central actor of the simulation. It forages, trades and
/// eats, trying to keep its energy and cash above its personal quotas.
#[derive(Debug, Clone, Copy)]
pub struct Agent {
    /// The current job, with the job's own state.
    pub job: Job,
    /// The position of this agent's hut.
    pub home: Pos,
    /// The state of the agent's decision machine.
    pub state: AgentState,
    /// The nutritional value each resource currently has for this agent.
    /// Eating a resource lowers its value and raises the others'.
    pub nutrition: PerResource<u8>,
    /// The resources the agent carries.
    pub inventory: PerResource<u32>,
    /// What the agent still intends to buy: the meal plan minus what it
    /// already carries.
    pub shopping_list: Option<PerResource<u32>>,
    /// What the agent intends to eat to meet its energy quota.
    pub meal_plan: Option<PerResource<u32>>,
    /// The energy the agent wants to reach by eating; updated every time it
    /// arrives home.
    pub energy_quota: u32,
    /// The agent's current energy; zero means death.
    pub energy: u32,
    /// The agent's desired profit rate, in percent of its cash.
    pub greed: u32,
    /// The cash the agent holds.
    pub cash: u32,
    /// The cash the agent wants to reach; grows with greed.
    pub cash_quota: u32,
    /// Ticks left to meet the cash quota before the agent gives up its job
    /// and explores anew.
    pub timeout_quota: u16,
    /// Whether the agent is inside a building. The building is found by
    /// looking up the agent's position in the world.
    pub in_building: bool,
    /// Whether the agent has died.
    pub dead: bool,
}

impl Agent {
    /// A fresh agent with the configured starting stocks, a job drawn from
    /// `job_draw`, and the given greed.
    pub fn new(config: &Config, job_draw: u32, greed: u32) -> (r: Agent)
        ensures
            r.job == Job::spec_from_draw(job_draw as int),
            r.state == AgentState::DoJob,
            r.home == (Pos { x: 0, y: 0 }),
            r.nutrition == PerResource::new_spec(config.initial_nutrition),
            r.inventory == PerResource::new_spec(config.initial_inventory),
            r.energy == config.initial_energy,
            r.energy_quota == config.initial_energy,
            r.greed == greed,
            r.meal_plan is None,
            r.shopping_list is None,
            r.cash == config.initial_cash,
            r.cash_quota == config.initial_cash,
            !r.in_building,
            !r.dead,
            r.timeout_quota == config.timeout_quota,
    {
        Agent {
            job: Job::from_draw(job_draw),
            state: AgentState::DoJob,
            home: Pos::new(0, 0),
            nutrition: PerResource::new(config.initial_nutrition),
            inventory: PerResource::new(config.initial_inventory),
            energy: config.initial_energy,
            energy_quota: config.initial_energy,
            greed,
            meal_plan: None,
            shopping_list: None,
            cash: config.initial_cash,
            cash_quota: config.initial_cash,
            in_building: false,
            dead: false,
            timeout_quota: config.timeout_quota,
        }
    }

    /// Add the given resources to the agent's inventory, saturating at the
    /// inventory's capacity.
    pub fn collect(&mut self, resource: ResourceItem, amount: u32)
        ensures
            final(self).inventory == old(self).inventory.spec_set(
                resource,
                sat_add_u32(old(self).inventory.spec_get(resource) as int, amount as int),
            ),
            unchanged_but_inventory(*old(self), *final(self)),
    {
        let cur = *self.inventory.get(resource);
        self.inventory.set(resource, cur.saturating_add(amount));
    }

    /// Eat a quantity of one resource: the inventory shrinks, energy rises
    /// by the resource's nutritional value per unit up to the energy cap,
    /// the eaten resource loses nutritional value and every other resource
    /// gains some.
    pub fn consume(&mut self, resource: ResourceItem, quantity: u32, config: &Config)
        requires
            old(self).inventory.spec_get(resource) > 0,
        ensures
            final(self).inventory == old(self).inventory.spec_set(
                resource,
                sat_sub_u32(
                    old(self).inventory.spec_get(resource) as int,
                    quantity as int,
                ),
            ),
            final(self).energy == min_int(
                old(self).energy + old(self).nutrition.spec_get(resource) * quantity,
                config.max_energy as int,
            ),
            forall|it: ResourceItem|
                final(self).nutrition.spec_get(it) == nutrition_after(
                    old(self).nutrition.spec_get(it),
                    it == resource,
                    quantity as int,
                    *config,
                ),
            final(self).job == old(self).job,
            final(self).home == old(self).home,
            final(self).state == old(self).state,
            final(self).shopping_list == old(self).shopping_list,
            final(self).meal_plan == old(self).meal_plan,
            final(self).energy_quota == old(self).energy_quota,
            final(self).greed == old(self).greed,
            final(self).cash == old(self).cash,
            final(self).cash_quota == old(self).cash_quota,
            final(self).timeout_quota == old(self).timeout_quota,
            final(self).in_building == old(self).in_building,
            final(self).dead == old(self).dead,
            *final(self) == consumed_agent(*old(self), resource, quantity as int, *config),
    {
        let cur = *self.inventory.get(resource);
        self.inventory.set(resource, cur.saturating_sub(quantity));

        let nval = *self.nutrition.get(resource);
        proof {
            lemma_mul_upper_bound(nval as int, 255, quantity as int, u32::MAX as int);
        }
        let gain: u64 = (nval as u64) * (quantity as u64);
        let raised: u64 = (self.energy as u64) + gain;
        self.energy = if raised > config.max_energy as u64 {
            config.max_energy
        } else {
            raised as u32
        };

        let q8: u8 = if quantity > 255 {
            255
        } else {
            quantity as u8
        };
        let items = ResourceItem::iterator();
        let mut i: usize = 0;
        while i < 4
            invariant
                i <= 4,
                items@ == seq![
                    ResourceItem::Wheat,
                    ResourceItem::Berry,
                    ResourceItem::Fish,
                    ResourceItem::Meat,
                ],
                q8 == min_int(quantity as int, 255),
                forall|it: ResourceItem|
                    it.index_spec() < i ==> self.nutrition.spec_get(it) == nutrition_after(
                        old(self).nutrition.spec_get(it),
                        it == resource,
                        quantity as int,
                        *config,
                    ),
                forall|it: ResourceItem|
                    it.index_spec() >= i ==> self.nutrition.spec_get(it) == old(self).nutrition.spec_get(it),
                self.inventory == old(self).inventory.spec_set(
                    resource,
                    sat_sub_u32(
                        old(self).inventory.spec_get(resource) as int,
                        quantity as int,
                    ),
                ),
                self.energy == min_int(
                    old(self).energy + old(self).nutrition.spec_get(resource) * quantity,
                    config.max_energy as int,
                ),
                self.job == old(self).job,
                self.home == old(self).home,
                self.state == old(self).state,
                self.shopping_list == old(self).shopping_list,
                self.meal_plan == old(self).meal_plan,
                self.energy_quota == old(self).energy_quota,
                self.greed == old(self).greed,
                self.cash == old(self).cash,
                self.cash_quota == old(self).cash_quota,
                self.timeout_quota == old(self).timeout_quota,
                self.in_building == old(self).in_building,
                self.dead == old(self).dead,
            decreases 4 - i,
        {
            let it = items[i];
            proof {
                assert(items@[0].index_spec() == 0);
                assert(items@[1].index_spec() == 1);
                assert(items@[2].index_spec() == 2);
                assert(items@[3].index_spec() == 3);
                assert(it.index_spec() == i as int);
            }
            let ghost prev_nutrition = self.nutrition;
            let n = *self.nutrition.get(it);
            if it == resource {
                proof {
                    lemma_mul_upper_bound(config.nutrition_sub as int, 255, q8 as int, 255);
                }
                let step: u32 = (config.nutrition_sub as u32) * (q8 as u32);
                let step8: u8 = if step > 255 {
                    255
                } else {
                    step as u8
                };
                self.nutrition.set(it, n.saturating_sub(step8));
                proof {
                    assert(self.nutrition.spec_get(it) == nutrition_after(
                        old(self).nutrition.spec_get(it),
                        true,
                        quantity as int,
                        *config,
                    ));
                }
            } else {
                proof {
                    lemma_mul_upper_bound(config.nutrition_add as int, 255, q8 as int, 255);
                }
                let step: u32 = (config.nutrition_add as u32) * (q8 as u32);
                let step8: u8 = if step > 255 {
                    255
                } else {
                    step as u8
                };
                self.nutrition.set(it, n.saturating_add(step8));
                proof {
                    assert(self.nutrition.spec_get(it) == nutrition_after(
                        old(self).nutrition.spec_get(it),
                        false,
                        quantity as int,
                        *config,
                    ));
                }
            }
            proof {
                assert forall|it2: ResourceItem| it2.index_spec() < i + 1 implies
                    self.nutrition.spec_get(it2) == nutrition_after(
                        old(self).nutrition.spec_get(it2),
                        it2 == resource,
                        quantity as int,
                        *config,
                    ) by {
                    if it2 != it {
                        crate::resources::lemma_per_resource_frame(
                            prev_nutrition,
                            it,
                            self.nutrition.spec_get(it),
                            it2,
                        );
                    }
                }
            }
            i = i + 1;
        }
        proof {
            let want = consumed_agent(*old(self), resource, quantity as int, *config);
            assert(self.nutrition.spec_get(ResourceItem::Wheat) == want.nutrition.wheat);
            assert(self.nutrition.spec_get(ResourceItem::Berry) == want.nutrition.berry);
            assert(self.nutrition.spec_get(ResourceItem::Fish) == want.nutrition.fish);
            assert(self.nutrition.spec_get(ResourceItem::Meat) == want.nutrition.meat);
            assert(self.nutrition == want.nutrition);
            assert(*self == want);
        }
    }
}

/// A resource entity that currently offers the given item.
pub open spec fn is_stock_of(e: Entity, item: ResourceItem) -> bool {
    match e.ty {
        EntityType::Resource(res) => res.resource == item && res.amount > 0,
        _ => false,
    }
}

/// The entries an agent still has to buy: the meal plan minus the
/// inventory, clamped at zero in each component.
pub open spec fn shopping_of(mp: PerResource<u32>, inv: PerResource<u32>) -> PerResource<u32> {
    PerResource {
        wheat: sat_sub_u32(mp.wheat as int, inv.wheat as int),
        berry: sat_sub_u32(mp.berry as int, inv.berry as int),
        fish: sat_sub_u32(mp.fish as int, inv.fish as int),
        meat: sat_sub_u32(mp.meat as int, inv.meat as int),
    }
}

/// The ceiling of `a / b`.
pub open spec fn ceil_div(a: int, b: int) -> int {
    a / b + if a % b != 0 {
        1int
    } else {
        0int
    }
}

/// The meal plan built by walking the resources in preference order:
/// satisfy the whole remaining energy need from the first resource with
/// enough supply; where supply falls short, take all of it and carry the
/// rest of the need to the next resource.
pub open spec fn meal_plan_rec(
    items: Seq<ResourceItem>,
    nutrition: PerResource<u8>,
    inv: PerResource<u32>,
    market_avail: PerResource<u32>,
    needed: int,
    acc: PerResource<u32>,
) -> PerResource<u32>
    decreases items.len(),
{
    if items.len() == 0 {
        acc
    } else {
        let it = items[0];
        let u = nutrition.spec_get(it) as int;
        if u == 0 {
            meal_plan_rec(items.drop_first(), nutrition, inv, market_avail, needed, acc)
        } else {
            let need = ceil_div(needed, u);
            let avail = market_avail.spec_get(it) + inv.spec_get(it);
            if avail >= need {
                acc.spec_set(it, need as u32)
            } else {
                let needed2 = if needed - need * u < 0 {
                    0int
                } else {
                    needed - need * u
                };
                meal_plan_rec(
                    items.drop_first(),
                    nutrition,
                    inv,
                    market_avail,
                    needed2,
                    acc.spec_set(it, avail as u32),
                )
            }
        }
    }
}

/// The market's clamped per-resource availability, as the planner sees it.
pub open spec fn market_avail_of(m: Market) -> PerResource<u32> {
    PerResource {
        wheat: crate::market::clamp_u32(crate::market::sum_amounts(m.orders.wheat@)) as u32,
        berry: crate::market::clamp_u32(crate::market::sum_amounts(m.orders.berry@)) as u32,
        fish: crate::market::clamp_u32(crate::market::sum_amounts(m.orders.fish@)) as u32,
        meat: crate::market::clamp_u32(crate::market::sum_amounts(m.orders.meat@)) as u32,
    }
}

/// The energy quota an agent sets itself on arriving home: its energy when
/// that is no less than the configured baseline, and otherwise its energy
/// raised by one part in ten thousand for every energy point below the
/// baseline, rounded up.
pub open spec fn energy_quota_after(energy: int, initial: int) -> int {
    if energy >= initial {
        energy
    } else {
        let q = ceil_div(energy * (10_000 + initial - energy), 10_000);
        if q > u32::MAX {
            u32::MAX as int
        } else {
            q
        }
    }
}

/// The whole quota update an agent runs on arriving home: the energy
/// quota per [`energy_quota_after`]; the job timeout reset when the cash
/// quota was met, and the job given up for exploration when the timeout
/// ran out; and the cash quota raised by the greed share.
pub open spec fn quotas_applied(a: Agent, config: Config) -> Agent {
    let t1 = if a.cash >= a.cash_quota {
        config.timeout_quota
    } else {
        a.timeout_quota
    };
    Agent {
        energy_quota: energy_quota_after(a.energy as int, config.initial_energy as int) as u32,
        timeout_quota: if t1 == 0 {
            config.timeout_quota
        } else {
            t1
        },
        job: if t1 == 0 {
            Job::Explorer { count: 0, observations: PerResource::new_spec(0u32) }
        } else {
            a.job
        },
        cash_quota: cash_quota_after(a.cash as int, a.greed as int) as u32,
        ..a
    }
}

/// The cash quota an agent sets itself: its cash plus the greed share of
/// it, clamped to the `u32` range.
pub open spec fn cash_quota_after(cash: int, greed: int) -> int {
    let extra = cash * greed / 100;
    let extra_c = if extra > u32::MAX {
        u32::MAX as int
    } else {
        extra
    };
    if cash + extra_c > u32::MAX {
        u32::MAX as int
    } else {
        cash + extra_c
    }
}

/// The number of tiles an agent search visits: the configured search
/// radius, squared.
fn search_area(world: &World) -> (n: usize)
    requires
        world.config.wf(),
    ensures
        n == world.config.search_radius * world.config.search_radius,
        n <= 100_000_000,
{
    let radius = world.config.search_radius;
    proof {
        lemma_mul_upper_bound(radius as int, 10_000, radius as int, 10_000);
        vstd::arithmetic::mul::lemma_mul_nonnegative(radius as int, radius as int);
    }
    radius * radius
}

/// The single toroidal step from `pos` toward `target` that the
/// unstuckifier attempts.
pub open spec fn jitter_step(w: World, pos: Pos, target: Pos) -> Pos {
    let d = Direction::delta_spec(pos, target, w.width as int, w.height as int);
    crate::world::wrap_xy(
        pos.x + Direction::dx(d),
        pos.y + Direction::dy(d),
        w.width as int,
        w.height as int,
    )
}

/// `p` is one of the eight toroidally wrapped neighbors of `pos`.
pub open spec fn is_neighbor_step(w: World, pos: Pos, p: Pos) -> bool {
    exists|k: int|
        0 <= k < 8 && p == crate::world::wrap_xy(
            pos.x + #[trigger] crate::world::neighbor_offset(k).0,
            pos.y + crate::world::neighbor_offset(k).1,
            w.width as int,
            w.height as int,
        )
}

/// The stock search passes a tile by: empty, or not a live stock of the
/// wanted item.
pub open spec fn stock_misses(w: World, q: Pos, item: ResourceItem) -> bool {
    w.tiles_entity@[w.idx_spec(q)] is None || !is_stock_of(
        w.entities@[w.tiles_entity@[w.idx_spec(q)]->0.as_index_spec()],
        item,
    )
}

/// The first live stock of `item` on the search spiral stands adjacent to
/// the agent.
pub open spec fn adjacent_first_stock(w: World, pos: Pos, item: ResourceItem, area: int) -> bool {
    exists|k: int|
        #![trigger w.spiral_at(pos, k as nat)]
        0 <= k < area && {
            let q = w.spiral_at(pos, k as nat);
            &&& w.tiles_entity@[w.idx_spec(q)] is Some
            &&& is_stock_of(
                w.entities@[w.tiles_entity@[w.idx_spec(q)]->0.as_index_spec()],
                item,
            )
            &&& q.spec_is_adjacent(pos)
            &&& forall|j: int|
                0 <= j < k ==> stock_misses(w, #[trigger] w.spiral_at(pos, j as nat), item)
        }
}

/// One tile's contribution to an explorer's observations: a resource
/// scores its amount divided by the configured divisor toward its own
/// product, a boat scores the configured fish points, anything else
/// scores nothing.
pub open spec fn explorer_score_tile(w: World, q: Pos, obs: PerResource<u32>) -> PerResource<
    u32,
> {
    if w.tiles_entity@[w.idx_spec(q)] is Some {
        let e = w.entities@[w.tiles_entity@[w.idx_spec(q)]->0.as_index_spec()];
        match e.ty {
            EntityType::Resource(res) => obs.spec_set(
                res.resource,
                sat_add_u32(
                    obs.spec_get(res.resource) as int,
                    res.amount as int / w.config.explorer_resource_divisor as int,
                ),
            ),
            EntityType::Building(b) => match b {
                Building::Boat { .. } => obs.spec_set(
                    ResourceItem::Fish,
                    sat_add_u32(
                        obs.spec_get(ResourceItem::Fish) as int,
                        w.config.explorer_fish_points as int,
                    ),
                ),
                _ => obs,
            },
            _ => obs,
        }
    } else {
        obs
    }
}

/// An explorer's observations after scoring the first `k` tiles of its
/// search spiral.
pub open spec fn explorer_scores_upto(
    w: World,
    pos: Pos,
    obs0: PerResource<u32>,
    k: nat,
) -> PerResource<u32>
    decreases k,
{
    if k == 0 {
        obs0
    } else {
        explorer_score_tile(
            w,
            w.spiral_at(pos, (k - 1) as nat),
            explorer_scores_upto(w, pos, obs0, (k - 1) as nat),
        )
    }
}

/// The resource at a canonical index, as a plain chain.
pub open spec fn canonical_item(j: int) -> ResourceItem {
    if j == 0 {
        ResourceItem::Wheat
    } else if j == 1 {
        ResourceItem::Berry
    } else if j == 2 {
        ResourceItem::Fish
    } else {
        ResourceItem::Meat
    }
}

/// One comparison step of the explorer's argmax: a strictly higher score
/// replaces the best seen so far.
pub open spec fn argmax_pair(
    obs: PerResource<u32>,
    m: u32,
    b: ResourceItem,
    it: ResourceItem,
) -> (u32, ResourceItem) {
    if obs.spec_get(it) > m {
        (obs.spec_get(it), it)
    } else {
        (m, b)
    }
}

/// The running argmax after considering the first `i` canonical
/// resources, started at zero with a berry default.
pub open spec fn argmax_upto(obs: PerResource<u32>, i: int) -> (u32, ResourceItem)
    decreases i,
{
    if i <= 0 {
        (0u32, ResourceItem::Berry)
    } else {
        let prev = argmax_upto(obs, i - 1);
        argmax_pair(obs, prev.0, prev.1, canonical_item(i - 1))
    }
}

/// The highest-scoring resource of an explorer's observations, ties and
/// the all-zero case falling back to berries.
pub open spec fn best_observed(obs: PerResource<u32>) -> ResourceItem {
    argmax_upto(obs, 4).1
}

/// The job that works a resource: the conversion an explorer makes when
/// it settles.
pub open spec fn job_for(it: ResourceItem) -> Job {
    match it {
        ResourceItem::Berry => Job::Lumberer,
        ResourceItem::Wheat => Job::Farmer,
        ResourceItem::Fish => Job::Fisher { boat: None },
        ResourceItem::Meat => Job::Butcher,
    }
}

/// The first resource of the meal plan that is both planned and in stock,
/// in canonical order.
pub open spec fn first_edible(mp: PerResource<u32>, inv: PerResource<u32>) -> Option<
    ResourceItem,
> {
    if mp.wheat > 0 && inv.wheat > 0 {
        Some(ResourceItem::Wheat)
    } else if mp.berry > 0 && inv.berry > 0 {
        Some(ResourceItem::Berry)
    } else if mp.fish > 0 && inv.fish > 0 {
        Some(ResourceItem::Fish)
    } else if mp.meat > 0 && inv.meat > 0 {
        Some(ResourceItem::Meat)
    } else {
        None
    }
}

impl Agent {
    /// The tiles this agent may step onto: sailable tiles while it sails a
    /// boat, walkable tiles otherwise.
    pub open spec fn walk_ok(self, w: World, p: Pos) -> bool {
        match self.job {
            Job::Fisher { boat: Some(_) } => w.sailable_at(p),
            _ => w.walkable_at(p),
        }
    }

    /// Whether the agent can step onto the given tile in its current
    /// state.
    pub fn can_walk_on(&self, pos: Pos, world: &World) -> (r: bool)
        requires
            world.dims_ok(),
            world.in_bounds(pos),
            world.tile_refs_indexable(),
        ensures
            r == self.walk_ok(*world, pos),
    {
        let sail = match self.job {
            Job::Fisher { boat } => boat.is_some(),
            _ => false,
        };
        if sail {
            world.tile_is_sailable(pos)
        } else {
            world.tile_is_walkable(pos)
        }
    }

    /// Path-find one step toward a target. Returns the target itself when
    /// it is already adjacent; otherwise a move action: with the configured
    /// chance the straight toroidal step toward the target where that tile
    /// can be stepped on, and a uniformly random passable neighbor as the
    /// fallback. Where no step is possible the move degenerates to doing
    /// nothing.
    pub fn path_find(
        &self,
        pos: Pos,
        target: Option<Pos>,
        world: &World,
        rng: &mut rand::rngs::StdRng,
    ) -> (r: Result<Pos, AgentAction>)
        requires
            world.dims_ok(),
            world.tile_refs_indexable(),
            world.config.wf(),
            world.in_bounds(pos),
            target is Some ==> world.in_bounds(target->0),
        ensures
            match r {
                Ok(t) => target == Some(t) && t.spec_is_adjacent(pos),
                Err(a) => match a {
                    AgentAction::Move(p) => world.in_bounds(p) && self.walk_ok(*world, p) && (
                    is_neighbor_step(*world, pos, p) || (target is Some && p == jitter_step(
                        *world,
                        pos,
                        target->0,
                    ))),
                    AgentAction::Idle => true,
                    _ => false,
                },
            },
            target is Some && target->0.spec_is_adjacent(pos) ==> r == Ok::<
                Pos,
                AgentAction,
            >(target->0),
            r == Err::<Pos, AgentAction>(AgentAction::Idle) ==> forall|k: int|
                0 <= k < 8 ==> !self.walk_ok(
                    *world,
                    crate::world::wrap_xy(
                        pos.x + #[trigger] crate::world::neighbor_offset(k).0,
                        pos.y + crate::world::neighbor_offset(k).1,
                        world.width as int,
                        world.height as int,
                    ),
                ),
    {
        if let Some(t) = target {
            if t.is_adjacent(pos) {
                return Ok(t);
            }
            let draw = rng_below(rng, 100);
            if draw < world.config.unstuckifier_chance {
                let dir = Direction::delta(pos, t, world);
                let next_pos = pos.offset(dir).wrap(world);
                if self.can_walk_on(next_pos, world) {
                    proof {
                        assert(next_pos == jitter_step(*world, pos, t));
                    }
                    return Err(AgentAction::Move(next_pos));
                }
            }
        }
        let neigh = world.neighbors(pos);
        let mut cands: Vec<Pos> = Vec::new();
        let mut i: usize = 0;
        while i < 8
            invariant
                i <= 8,
                world.dims_ok(),
                world.tile_refs_indexable(),
                neigh@.len() == 8,
                forall|j: int| 0 <= j < 8 ==> world.in_bounds(#[trigger] neigh@[j]),
                forall|j: int|
                    0 <= j < 8 ==> #[trigger] neigh@[j] == crate::world::wrap_xy(
                        pos.x + crate::world::neighbor_offset(j).0,
                        pos.y + crate::world::neighbor_offset(j).1,
                        world.width as int,
                        world.height as int,
                    ),
                cands@.len() <= i,
                forall|j: int|
                    0 <= j < cands@.len() ==> world.in_bounds(#[trigger] cands@[j])
                        && self.walk_ok(*world, cands@[j]) && is_neighbor_step(
                        *world,
                        pos,
                        cands@[j],
                    ),
                cands@.len() == 0 ==> forall|j: int|
                    0 <= j < i ==> !self.walk_ok(*world, #[trigger] neigh@[j]),
            decreases 8 - i,
        {
            let p = neigh[i];
            if self.can_walk_on(p, world) {
                proof {
                    let ki: int = i as int;
                    assert(p == crate::world::wrap_xy(
                        pos.x + crate::world::neighbor_offset(ki).0,
                        pos.y + crate::world::neighbor_offset(ki).1,
                        world.width as int,
                        world.height as int,
                    ));
                }
                cands.push(p);
            }
            i = i + 1;
        }
        if cands.len() > 0 {
            let pick = rng_below(rng, cands.len() as u32) as usize;
            Err(AgentAction::Move(cands[pick]))
        } else {
            proof {
                assert forall|k: int| 0 <= k < 8 implies !self.walk_ok(
                    *world,
                    crate::world::wrap_xy(
                        pos.x + #[trigger] crate::world::neighbor_offset(k).0,
                        pos.y + crate::world::neighbor_offset(k).1,
                        world.width as int,
                        world.height as int,
                    ),
                ) by {
                    assert(!self.walk_ok(*world, neigh@[k]));
                }
            }
            Err(AgentAction::Idle)
        }
    }

    /// Find an entity in the world, caching its position across ticks.
    /// Returns the target position once it is adjacent, and otherwise an
    /// action that moves toward it.
    pub fn find<F: Fn(&Entity) -> bool>(
        &self,
        world: &World,
        pos: Pos,
        target: &mut Option<Pos>,
        f: F,
        rng: &mut rand::rngs::StdRng,
    ) -> (r: Result<Pos, AgentAction>)
        requires
            world.dims_ok(),
            world.tile_refs_indexable(),
            world.config.wf(),
            world.in_bounds(pos),
            *old(target) is Some ==> world.in_bounds(old(target)->0),
            forall|e: &Entity| #[trigger] f.requires((e,)),
        ensures
            *final(target) is Some ==> world.in_bounds(final(target)->0),
            *old(target) is Some ==> *final(target) == *old(target),
            (*old(target) is None && *final(target) is Some) ==> ({
                let q = final(target)->0;
                world.tiles_entity@[world.idx_spec(q)] is Some && f.ensures(
                    (&world.entities@[world.tiles_entity@[world.idx_spec(q)]->0.as_index_spec()],),
                    true,
                )
            }),
            match r {
                Ok(t) => *final(target) == Some(t) && t.spec_is_adjacent(pos),
                Err(a) => match a {
                    AgentAction::Move(p) => world.in_bounds(p) && self.walk_ok(*world, p),
                    AgentAction::Idle => true,
                    _ => false,
                },
            },
            *old(target) is Some && old(target)->0.spec_is_adjacent(pos) ==> r == Ok::<
                Pos,
                AgentAction,
            >(old(target)->0),
            r == Err::<Pos, AgentAction>(AgentAction::Idle) ==> forall|k: int|
                0 <= k < 8 ==> !self.walk_ok(
                    *world,
                    crate::world::wrap_xy(
                        pos.x + #[trigger] crate::world::neighbor_offset(k).0,
                        pos.y + crate::world::neighbor_offset(k).1,
                        world.width as int,
                        world.height as int,
                    ),
                ),
    {
        if target.is_none() {
            let area = search_area(world);
            *target = world.find_entity_around(pos, area, f);
        }
        self.path_find(pos, *target, world, rng)
    }

    /// Locate the nearest stock of the given resource with units left, and
    /// farm it when adjacent, stepping toward it otherwise.
    pub fn find_and_farm(
        &self,
        world: &World,
        pos: Pos,
        item: ResourceItem,
        rng: &mut rand::rngs::StdRng,
    ) -> (r: AgentAction)
        requires
            world.dims_ok(),
            world.tile_refs_indexable(),
            world.config.wf(),
            world.in_bounds(pos),
        ensures
            match r {
                AgentAction::Farm(p) => world.in_bounds(p) && p.spec_is_adjacent(pos)
                    && world.tiles_entity@[world.idx_spec(p)] is Some && is_stock_of(
                    world.entities@[world.tiles_entity@[world.idx_spec(p)]->0.as_index_spec()],
                    item,
                ),
                AgentAction::Move(p) => world.in_bounds(p) && self.walk_ok(*world, p),
                AgentAction::Idle => true,
                _ => false,
            },
            adjacent_first_stock(
                *world,
                pos,
                item,
                (world.config.search_radius * world.config.search_radius) as int,
            ) ==> r is Farm,
            r == AgentAction::Idle ==> forall|k: int|
                0 <= k < 8 ==> !self.walk_ok(
                    *world,
                    crate::world::wrap_xy(
                        pos.x + #[trigger] crate::world::neighbor_offset(k).0,
                        pos.y + crate::world::neighbor_offset(k).1,
                        world.width as int,
                        world.height as int,
                    ),
                ),
    {
        let area = search_area(world);
        let pred = (|e: &Entity| -> (b: bool)
            ensures
                b == is_stock_of(*e, item),
            {
                match &e.ty {
                    EntityType::Resource(res) => res.produces_item(item) && res.available() > 0,
                    _ => false,
                }
            });
        let target_pos = world.find_entity_around(pos, area, pred);
        proof {
            if adjacent_first_stock(*world, pos, item, area as int) {
                let k = choose|k: int|
                    #![trigger world.spiral_at(pos, k as nat)]
                    0 <= k < area as int && {
                        let q = world.spiral_at(pos, k as nat);
                        &&& world.tiles_entity@[world.idx_spec(q)] is Some
                        &&& is_stock_of(
                            world.entities@[world.tiles_entity@[world.idx_spec(
                                q,
                            )]->0.as_index_spec()],
                            item,
                        )
                        &&& q.spec_is_adjacent(pos)
                        &&& forall|j: int|
                            0 <= j < k ==> stock_misses(
                                *world,
                                #[trigger] world.spiral_at(pos, j as nat),
                                item,
                            )
                    };
                let q = world.spiral_at(pos, k as nat);
                match target_pos {
                    Option::None => {
                        // The search missing everything contradicts the
                        // stock at `q`.
                        assert(crate::world::entity_misses(*world, q, pred));
                        assert(false);
                    },
                    Some(q2) => {
                        let k2 = choose|k2: int|
                            #![trigger world.spiral_at(pos, k2 as nat)]
                            0 <= k2 < area && q2 == world.spiral_at(pos, k2 as nat) && forall|
                                j: int,
                            |
                                0 <= j < k2 ==> crate::world::entity_misses(
                                    *world,
                                    #[trigger] world.spiral_at(pos, j as nat),
                                    pred,
                                );
                        // Two first matches of the same walk coincide.
                        if k2 < k {
                            assert(stock_misses(*world, world.spiral_at(pos, k2 as nat), item));
                            assert(false);
                        }
                        if k < k2 {
                            assert(crate::world::entity_misses(
                                *world,
                                world.spiral_at(pos, k as nat),
                                pred,
                            ));
                            assert(false);
                        }
                        assert(q2 == q);
                        assert(q2.spec_is_adjacent(pos));
                    },
                }
            }
        }
        match self.path_find(pos, target_pos, world, rng) {
            Ok(t) => AgentAction::Farm(t),
            Err(a) => a,
        }
    }

    /// Build the meal plan for the day: nothing when the energy quota is
    /// already met, and otherwise the plan of [`meal_plan_rec`] over the
    /// resources in preference order.
    pub fn make_mealing_plan(&self, market: &Market) -> (r: Option<PerResource<u32>>)
        requires
            forall|it: ResourceItem| (#[trigger] market.market_price.spec_get(it))
                <= crate::market::price_scale_max(),
        ensures
            r is None <==> self.energy >= self.energy_quota,
            self.energy < self.energy_quota ==> r == Some(
                meal_plan_rec(
                    preference_order(self.nutrition, crate::market::int_prices(*market)),
                    self.nutrition,
                    self.inventory,
                    market_avail_of(*market),
                    self.energy_quota - self.energy,
                    PerResource::new_spec(0u32),
                ),
            ),
    {
        if self.energy >= self.energy_quota {
            return None;
        }
        let mut to_ret: PerResource<u32> = PerResource::new(0u32);
        let mut needed: u32 = self.energy_quota - self.energy;
        let items = ResourceItem::sorted(self, market);
        let ghost gitems = items@;
        let ghost needed0 = needed as int;
        proof {
            assert(gitems.skip(0) =~= gitems);
        }
        let n = items.len();
        let mut i: usize = 0;
        while i < n
            invariant
                i <= n,
                n == gitems.len(),
                items@ == gitems,
                self.energy < self.energy_quota,
                needed0 == self.energy_quota - self.energy,
                gitems == preference_order(self.nutrition, crate::market::int_prices(*market)),
                forall|it: ResourceItem| (#[trigger] market.market_price.spec_get(it))
                    <= crate::market::price_scale_max(),
                meal_plan_rec(
                    gitems,
                    self.nutrition,
                    self.inventory,
                    market_avail_of(*market),
                    needed0,
                    PerResource::new_spec(0u32),
                ) == meal_plan_rec(
                    gitems.skip(i as int),
                    self.nutrition,
                    self.inventory,
                    market_avail_of(*market),
                    needed as int,
                    to_ret,
                ),
            decreases n - i,
        {
            proof {
                assert(gitems.skip(i as int)[0] == gitems[i as int]);
                assert(gitems.skip(i as int).drop_first() =~= gitems.skip(i as int + 1));
            }
            let it = items[i];
            let u: u32 = *self.nutrition.get(it) as u32;
            if u != 0 {
                proof {
                    if needed % u != 0 {
                        assert(u >= 2) by {
                            if u == 1 {
                                assert(needed as int % 1int == 0) by (nonlinear_arith);
                            }
                        }
                        vstd::arithmetic::div_mod::lemma_div_is_ordered_by_denominator(
                            needed as int,
                            2,
                            u as int,
                        );
                        assert(needed as int / 2 < u32::MAX);
                    }
                }
                let need: u32 = needed / u + if needed % u != 0 {
                    1
                } else {
                    0
                };
                proof {
                    assert(need == ceil_div(needed as int, u as int));
                }
                let avail_m: u32 = market.availability(it);
                proof {
                    assert(market_avail_of(*market).spec_get(it) == avail_m) by {
                        match it {
                            ResourceItem::Wheat => {},
                            ResourceItem::Berry => {},
                            ResourceItem::Fish => {},
                            ResourceItem::Meat => {},
                        }
                    }
                }
                let avail: u64 = avail_m as u64 + *self.inventory.get(it) as u64;
                let ghost prev_ret = to_ret;
                if avail >= need as u64 {
                    to_ret.set(it, need);
                    proof {
                        assert(to_ret == prev_ret.spec_set(it, need));
                        assert(meal_plan_rec(
                            gitems.skip(i as int),
                            self.nutrition,
                            self.inventory,
                            market_avail_of(*market),
                            needed as int,
                            prev_ret,
                        ) == prev_ret.spec_set(it, need));
                    }
                    return Some(to_ret);
                }
                to_ret.set(it, avail as u32);
                proof {
                    lemma_mul_upper_bound(need as int, u32::MAX as int, u as int, 255);
                    vstd::arithmetic::mul::lemma_mul_nonnegative(need as int, u as int);
                }
                let consumed: u64 = (need as u64) * (u as u64);
                needed = if consumed >= needed as u64 {
                    0
                } else {
                    needed - (consumed as u32)
                };
            }
            i = i + 1;
        }
        proof {
            assert(gitems.skip(n as int) =~= Seq::<ResourceItem>::empty());
        }
        Some(to_ret)
    }

    /// Subtract the inventory from the meal plan to get what must still be
    /// bought; nothing when there is no plan or nothing is missing.
    pub fn make_shopping_list(&self, meal_plan: &Option<PerResource<u32>>) -> (r: Option<
        PerResource<u32>,
    >)
        ensures
            match *meal_plan {
                Option::None => r is None,
                Some(mp) => {
                    let sl = shopping_of(mp, self.inventory);
                    r == if sl == PerResource::new_spec(0u32) {
                        Option::<PerResource<u32>>::None
                    } else {
                        Some(sl)
                    }
                },
            },
    {
        match meal_plan {
            Some(mp) => {
                let sl = PerResource {
                    wheat: mp.wheat.saturating_sub(self.inventory.wheat),
                    berry: mp.berry.saturating_sub(self.inventory.berry),
                    fish: mp.fish.saturating_sub(self.inventory.fish),
                    meat: mp.meat.saturating_sub(self.inventory.meat),
                };
                if sl.wheat == 0 && sl.berry == 0 && sl.fish == 0 && sl.meat == 0 {
                    None
                } else {
                    Some(sl)
                }
            },
            None => None,
        }
    }

    /// Set the next day's quotas on arriving home: keep the energy quota
    /// at the current energy when at or above the baseline, and otherwise
    /// demand a compensating gain; reset the job timeout when the cash
    /// quota was met, give the job up for exploration when the timeout ran
    /// out, and raise the cash quota by the greed share.
    pub fn update_quotas(&mut self, config: &Config)
        requires
            config.wf(),
            old(self).energy <= config.max_energy,
        ensures
            *final(self) == quotas_applied(*old(self), *config),
    {
        if self.energy >= config.initial_energy {
            self.energy_quota = self.energy;
        } else {
            // energy * (10_000 + initial - energy), then the ceiling of the
            // division by 10_000, all within u64 under the config bounds.
            let diff: u64 = (config.initial_energy - self.energy) as u64;
            proof {
                lemma_mul_upper_bound(
                    self.energy as int,
                    1_000_000_000,
                    10_000 + diff as int,
                    1_000_010_000,
                );
                vstd::arithmetic::mul::lemma_mul_nonnegative(
                    self.energy as int,
                    10_000 + diff as int,
                );
            }
            let num: u64 = (self.energy as u64) * (10_000 + diff);
            let quota: u64 = num / 10_000 + if num % 10_000 != 0 {
                1
            } else {
                0
            };
            self.energy_quota = if quota > u32::MAX as u64 {
                u32::MAX
            } else {
                quota as u32
            };
        }

        if self.cash >= self.cash_quota {
            self.timeout_quota = config.timeout_quota;
        }
        if self.timeout_quota == 0 {
            self.job = Job::Explorer { count: 0, observations: PerResource::new(0u32) };
            self.timeout_quota = config.timeout_quota;
        }
        proof {
            lemma_mul_upper_bound(
                self.cash as int,
                u32::MAX as int,
                self.greed as int,
                u32::MAX as int,
            );
            vstd::arithmetic::mul::lemma_mul_nonnegative(self.cash as int, self.greed as int);
        }
        let extra: u64 = (self.cash as u64) * (self.greed as u64) / 100;
        let extra32: u32 = if extra > u32::MAX as u64 {
            u32::MAX
        } else {
            extra as u32
        };
        self.cash_quota = self.cash.saturating_add(extra32);
    }
}

/// A resource entity with units left, whatever it produces.
pub open spec fn is_live_stock(e: Entity) -> bool {
    match e.ty {
        EntityType::Resource(res) => res.amount > 0,
        _ => false,
    }
}

/// A boat building.
pub open spec fn is_boat(e: Entity) -> bool {
    match e.ty {
        EntityType::Building(b) => b is Boat,
        _ => false,
    }
}

/// A market building.
pub open spec fn is_market(e: Entity) -> bool {
    match e.ty {
        EntityType::Building(b) => b is Market,
        _ => false,
    }
}

/// The stock an agent holds beyond its meal plan, per resource; zero
/// without a plan.
pub open spec fn excess_of(a: Agent, it: ResourceItem) -> int {
    match a.meal_plan {
        Some(mp) => if a.inventory.spec_get(it) > mp.spec_get(it) {
            a.inventory.spec_get(it) - mp.spec_get(it)
        } else {
            0
        },
        Option::None => 0,
    }
}

/// The estimated cost of a shopping list at the market's integer prices,
/// clamped to the `u32` range.
#[verifier::opaque]
pub open spec fn shopping_cost(sl: PerResource<u32>, m: Market) -> int {
    crate::market::clamp_u32(
        m.market_price.wheat as int / 10_000 * sl.wheat + m.market_price.berry as int / 10_000
            * sl.berry + m.market_price.fish as int / 10_000 * sl.fish
            + m.market_price.meat as int / 10_000 * sl.meat,
    )
}

/// How much cash the agent would still be short of its quota after buying
/// its whole shopping list.
#[verifier::opaque]
pub open spec fn insufficiency_of(a: Agent, m: Market) -> int {
    let tp: int = match a.shopping_list {
        Some(sl) => shopping_cost(sl, m),
        Option::None => 0,
    };
    let balance: int = if a.cash > tp {
        a.cash - tp
    } else {
        0
    };
    if a.cash_quota - balance < 0 {
        0
    } else {
        a.cash_quota - balance
    }
}

/// The meal plan an agent would build now: nothing at quota, and the
/// preference-ordered walk otherwise.
#[verifier::opaque]
pub open spec fn built_meal_plan(a: Agent, m: Market) -> Option<PerResource<u32>> {
    if a.energy >= a.energy_quota {
        Option::None
    } else {
        Some(
            meal_plan_rec(
                preference_order(a.nutrition, crate::market::int_prices(m)),
                a.nutrition,
                a.inventory,
                market_avail_of(m),
                a.energy_quota - a.energy,
                PerResource::new_spec(0u32),
            ),
        )
    }
}

/// The shopping list an agent would build from a plan: the plan minus the
/// inventory, or nothing when no plan exists or nothing is missing.
#[verifier::opaque]
pub open spec fn built_shopping(mp: Option<PerResource<u32>>, inv: PerResource<u32>) -> Option<
    PerResource<u32>,
> {
    match mp {
        Option::None => Option::None,
        Some(p) => {
            let sl = shopping_of(p, inv);
            if sl == PerResource::new_spec(0u32) {
                Option::None
            } else {
                Some(sl)
            }
        },
    }
}

/// Some resource is held beyond the plan.
pub open spec fn has_excess(a: Agent) -> bool {
    ||| excess_of(a, ResourceItem::Wheat) > 0
    ||| excess_of(a, ResourceItem::Berry) > 0
    ||| excess_of(a, ResourceItem::Fish) > 0
    ||| excess_of(a, ResourceItem::Meat) > 0
}

/// The first resource, in canonical order, held beyond the plan.
pub open spec fn first_excess_item(a: Agent) -> ResourceItem {
    if excess_of(a, ResourceItem::Wheat) > 0 {
        ResourceItem::Wheat
    } else if excess_of(a, ResourceItem::Berry) > 0 {
        ResourceItem::Berry
    } else if excess_of(a, ResourceItem::Fish) > 0 {
        ResourceItem::Fish
    } else {
        ResourceItem::Meat
    }
}

/// An agent in a market sells when it holds excess and its cash would
/// still fall short of the quota after buying the whole shopping list.
pub open spec fn sell_wanted(a: Agent, m: Market) -> bool {
    has_excess(a) && insufficiency_of(a, m) > 0
}

/// The last entry of the shopping list, in canonical order, that still
/// wants units.
pub open spec fn last_wanted(sl: Option<PerResource<u32>>) -> Option<ResourceItem> {
    match sl {
        Option::None => Option::None,
        Some(l) => if l.meat > 0 {
            Some(ResourceItem::Meat)
        } else if l.fish > 0 {
            Some(ResourceItem::Fish)
        } else if l.berry > 0 {
            Some(ResourceItem::Berry)
        } else if l.wheat > 0 {
            Some(ResourceItem::Wheat)
        } else {
            Option::None
        },
    }
}

impl Agent {
    /// What the world guarantees of every live agent between ticks: its
    /// home and any cached market position lie on the grid, and its energy
    /// respects the cap.
    pub open spec fn inv(self, w: World) -> bool {
        &&& w.in_bounds(self.home)
        &&& self.energy <= w.config.max_energy
        &&& match self.state {
            AgentState::GoToMarket(Some(m)) => w.in_bounds(m),
            _ => true,
        }
    }

    /// The sell side of the trading policy: the order that sells the
    /// first excess resource, exactly when the agent holds excess and its
    /// cash would still fall short of the quota.
    #[verifier::rlimit(60)]
    fn sell_decision(&self, world: &World) -> (r: Option<(ResourceItem, u32, u32)>)
        requires
            forall|it: ResourceItem| (#[trigger] world.market.market_price.spec_get(it))
                <= crate::market::price_scale_max(),
        ensures
            sell_wanted(*self, world.market) ==> r == Some(
                (
                    first_excess_item(*self),
                    ceil_div(
                        insufficiency_of(*self, world.market),
                        excess_of(*self, first_excess_item(*self)),
                    ) as u32,
                    excess_of(*self, first_excess_item(*self)) as u32,
                ),
            ) && 0 <= ceil_div(
                insufficiency_of(*self, world.market),
                excess_of(*self, first_excess_item(*self)),
            ) <= u32::MAX && 0 <= excess_of(*self, first_excess_item(*self)) <= u32::MAX,
            !sell_wanted(*self, world.market) ==> r is None,
    {
        let items = ResourceItem::iterator();
        let mut i: usize = 0;
        #[verifier::loop_isolation(false)]
        while i < 4
            invariant
                i <= 4,
                forall|j: ResourceItem|
                    j.index_spec() < i ==> excess_of(*self, j) == 0 || insufficiency_of(
                        *self,
                        world.market,
                    ) == 0,
            decreases 4 - i,
        {
            let it = items[i];
            let excess: u32 = match &self.meal_plan {
                Some(mp) => {
                    let inv = *self.inventory.get(it);
                    let planned = *mp.get(it);
                    if inv > planned {
                        inv - planned
                    } else {
                        0
                    }
                },
                None => 0,
            };
            if excess > 0 {
                let total_price: u32 = match &self.shopping_list {
                    Some(sl) => world.market.total_price(sl),
                    None => 0,
                };
                let balance_after: u32 = if self.cash > total_price {
                    self.cash - total_price
                } else {
                    0
                };
                let insufficiency = self.cash_quota.saturating_sub(balance_after);
                proof {
                    assert(items@[i as int].index_spec() == i as int) by {
                        assert(items@[0].index_spec() == 0);
                        assert(items@[1].index_spec() == 1);
                        assert(items@[2].index_spec() == 2);
                        assert(items@[3].index_spec() == 3);
                    }
                    assert(excess == excess_of(*self, it));
                    assert(match self.shopping_list {
                        Some(sl) => total_price as int == shopping_cost(sl, world.market),
                        Option::None => total_price == 0,
                    }) by {
                        reveal(crate::agent::shopping_cost);
                    }
                    assert(insufficiency == insufficiency_of(*self, world.market)) by {
                        reveal(crate::agent::insufficiency_of);
                    }
                }
                if insufficiency > 0 {
                    proof {
                        if insufficiency % excess != 0 {
                            assert(excess >= 2) by {
                                if excess == 1 {
                                    assert(insufficiency as int % 1int == 0) by (nonlinear_arith);
                                }
                            }
                            vstd::arithmetic::div_mod::lemma_div_is_ordered_by_denominator(
                                insufficiency as int,
                                2,
                                excess as int,
                            );
                            assert(insufficiency as int / 2 < u32::MAX);
                        }
                        assert(first_excess_item(*self) == it);
                        assert(sell_wanted(*self, world.market));
                    }
                    let price: u32 = insufficiency / excess + if insufficiency % excess != 0 {
                        1
                    } else {
                        0
                    };
                    return Some((it, price, excess));
                }
            }
            i = i + 1;
        }
        proof {
            assert(!sell_wanted(*self, world.market)) by {
                if sell_wanted(*self, world.market) {
                    assert(excess_of(*self, ResourceItem::Wheat) == 0 || insufficiency_of(
                        *self,
                        world.market,
                    ) == 0);
                    assert(excess_of(*self, ResourceItem::Berry) == 0 || insufficiency_of(
                        *self,
                        world.market,
                    ) == 0);
                    assert(excess_of(*self, ResourceItem::Fish) == 0 || insufficiency_of(
                        *self,
                        world.market,
                    ) == 0);
                    assert(excess_of(*self, ResourceItem::Meat) == 0 || insufficiency_of(
                        *self,
                        world.market,
                    ) == 0);
                }
            }
        }
        None
    }

    /// The buy side of the trading policy: the last entry of the shopping
    /// list that still wants units, with its quantity.
    fn last_purchase(sl: &PerResource<u32>) -> (r: Option<(ResourceItem, u32)>)
        ensures
            match last_wanted(Some(*sl)) {
                Some(x) => r == Some((x, sl.spec_get(x))) && sl.spec_get(x) > 0,
                Option::None => r is None,
            },
    {
        if sl.meat > 0 {
            Some((ResourceItem::Meat, sl.meat))
        } else if sl.fish > 0 {
            Some((ResourceItem::Fish, sl.fish))
        } else if sl.berry > 0 {
            Some((ResourceItem::Berry, sl.berry))
        } else if sl.wheat > 0 {
            Some((ResourceItem::Wheat, sl.wheat))
        } else {
            None
        }
    }

    /// Select the trade the agent makes while standing in a market: first
    /// sell any stock beyond the meal plan when cash falls short of the
    /// quota, then buy the last outstanding entry of the shopping list;
    /// plans are built here when they are missing.
    #[verifier::rlimit(100)]
    pub fn trade_on_market(&mut self, _pos: Pos, world: &World) -> (r: Option<AgentAction>)
        requires
            world.config.wf(),
            forall|it: ResourceItem| (#[trigger] world.market.market_price.spec_get(it))
                <= crate::market::price_scale_max(),
            old(self).energy <= world.config.max_energy,
        ensures
            final(self).inventory == old(self).inventory,
            final(self).cash == old(self).cash,
            final(self).nutrition == old(self).nutrition,
            final(self).energy == old(self).energy,
            final(self).energy_quota == old(self).energy_quota,
            final(self).cash_quota == old(self).cash_quota,
            final(self).timeout_quota == old(self).timeout_quota,
            final(self).greed == old(self).greed,
            final(self).job == old(self).job,
            final(self).home == old(self).home,
            final(self).state == old(self).state,
            final(self).in_building == old(self).in_building,
            final(self).dead == old(self).dead,
            match r {
                Some(a) => match a {
                    AgentAction::MarketOrder { item, price, amount } => {
                        // Sell exactly the excess of the first resource
                        // held beyond the plan, priced so that the
                        // proceeds would cover the cash shortfall.
                        &&& amount > 0
                        &&& amount <= final(self).inventory.spec_get(item)
                        &&& amount == excess_of(*final(self), item)
                        &&& forall|j: ResourceItem|
                            j.index_spec() < item.index_spec() ==> excess_of(*final(self), j)
                                == 0
                        &&& insufficiency_of(*final(self), world.market) > 0
                        &&& price == ceil_div(
                            insufficiency_of(*final(self), world.market),
                            amount as int,
                        )
                    },
                    AgentAction::MarketPurchase { item, amount } => amount > 0,
                    _ => false,
                },
                Option::None => true,
            },
            ({
                // The whole trading policy, as a function of the plans the
                // agent walks in with (built on the spot when absent).
                let mp1 = if old(self).meal_plan is Some {
                    old(self).meal_plan
                } else {
                    built_meal_plan(*old(self), world.market)
                };
                let sl1 = if old(self).shopping_list is Some {
                    old(self).shopping_list
                } else {
                    built_shopping(mp1, old(self).inventory)
                };
                let a1 = Agent { meal_plan: mp1, shopping_list: sl1, ..*old(self) };
                &&& final(self).meal_plan == mp1
                &&& (sell_wanted(a1, world.market) ==> r == Some(
                    AgentAction::MarketOrder {
                        item: first_excess_item(a1),
                        price: ceil_div(
                            insufficiency_of(a1, world.market),
                            excess_of(a1, first_excess_item(a1)),
                        ) as u32,
                        amount: excess_of(a1, first_excess_item(a1)) as u32,
                    },
                ) && final(self).shopping_list == sl1)
                &&& (!sell_wanted(a1, world.market) && last_wanted(sl1) is Some ==> r == Some(
                    AgentAction::MarketPurchase {
                        item: last_wanted(sl1)->0,
                        amount: sl1->0.spec_get(last_wanted(sl1)->0),
                    },
                ) && final(self).shopping_list == Some(
                    sl1->0.spec_set(last_wanted(sl1)->0, 0u32),
                ))
                &&& (!sell_wanted(a1, world.market) && last_wanted(sl1) is None ==> r is None
                    && final(self).shopping_list is None)
            }),
    {
        let market = &world.market;
        if self.meal_plan.is_none() {
            self.meal_plan = self.make_mealing_plan(market);
        }
        if self.shopping_list.is_none() {
            let mp = self.meal_plan;
            self.shopping_list = self.make_shopping_list(&mp);
        }
        proof {
            let mp1 = if old(self).meal_plan is Some {
                old(self).meal_plan
            } else {
                built_meal_plan(*old(self), world.market)
            };
            let sl1 = if old(self).shopping_list is Some {
                old(self).shopping_list
            } else {
                built_shopping(mp1, old(self).inventory)
            };
            assert(self.meal_plan == mp1) by {
                reveal(crate::agent::built_meal_plan);
            }
            assert(self.shopping_list == sl1) by {
                reveal(crate::agent::built_meal_plan);
                reveal(crate::agent::built_shopping);
            }
        }
        match self.sell_decision(world) {
            Some((item, price, amount)) => {
                proof {
                    let mp1 = if old(self).meal_plan is Some {
                        old(self).meal_plan
                    } else {
                        built_meal_plan(*old(self), world.market)
                    };
                    let sl1 = if old(self).shopping_list is Some {
                        old(self).shopping_list
                    } else {
                        built_shopping(mp1, old(self).inventory)
                    };
                    let a1 = Agent { meal_plan: mp1, shopping_list: sl1, ..*old(self) };
                    assert(a1 == *self);
                    assert(sell_wanted(*self, world.market)) by {
                        if !sell_wanted(*self, world.market) {
                            assert(false);
                        }
                    }
                    assert(item == first_excess_item(*self));
                    assert(amount == excess_of(*self, item));
                    assert(excess_of(*self, item) > 0) by {
                        if excess_of(*self, ResourceItem::Wheat) > 0 {
                        } else if excess_of(*self, ResourceItem::Berry) > 0 {
                        } else if excess_of(*self, ResourceItem::Fish) > 0 {
                        } else {
                            assert(excess_of(*self, ResourceItem::Meat) > 0);
                        }
                    }
                    assert(amount <= self.inventory.spec_get(item));
                    assert forall|j: ResourceItem|
                        j.index_spec() < item.index_spec() implies excess_of(*self, j) == 0 by {
                        if excess_of(*self, ResourceItem::Wheat) > 0 {
                        } else if excess_of(*self, ResourceItem::Berry) > 0 {
                        } else if excess_of(*self, ResourceItem::Fish) > 0 {
                        } else {
                        }
                    }
                }
                Some(AgentAction::MarketOrder { item, price, amount })
            },
            None => {
                proof {
                    let mp1 = if old(self).meal_plan is Some {
                        old(self).meal_plan
                    } else {
                        built_meal_plan(*old(self), world.market)
                    };
                    let sl1 = if old(self).shopping_list is Some {
                        old(self).shopping_list
                    } else {
                        built_shopping(mp1, old(self).inventory)
                    };
                    let a1 = Agent { meal_plan: mp1, shopping_list: sl1, ..*old(self) };
                    assert(a1 == *self);
                    assert(!sell_wanted(a1, world.market));
                }
                let cur = self.shopping_list;
                match cur {
                    Some(sl) => {
                        match Self::last_purchase(&sl) {
                            Some((item, amount)) => {
                                let mut sl2 = sl;
                                sl2.set(item, 0);
                                self.shopping_list = Some(sl2);
                                Some(AgentAction::MarketPurchase { item, amount })
                            },
                            None => {
                                self.shopping_list = None;
                                None
                            },
                        }
                    },
                    None => {
                        self.shopping_list = None;
                        None
                    },
                }
            },
        }
    }

    /// The action that advances the agent's job for one tick: farmers of
    /// every kind locate and farm their resource, fishers manage their
    /// boat and fish from it, and explorers roam, score what they see, and
    /// eventually settle on the most promising job.
    pub fn do_job(&mut self, pos: Pos, world: &World, rng: &mut rand::rngs::StdRng) -> (r:
        AgentAction)
        requires
            world.dims_ok(),
            world.tile_refs_indexable(),
            world.config.wf(),
            world.in_bounds(pos),
        ensures
            final(self).inventory == old(self).inventory,
            final(self).cash == old(self).cash,
            final(self).nutrition == old(self).nutrition,
            final(self).energy == old(self).energy,
            final(self).energy_quota == old(self).energy_quota,
            final(self).cash_quota == old(self).cash_quota,
            final(self).timeout_quota == old(self).timeout_quota,
            final(self).greed == old(self).greed,
            final(self).home == old(self).home,
            final(self).state == old(self).state,
            final(self).meal_plan == old(self).meal_plan,
            final(self).shopping_list == old(self).shopping_list,
            final(self).in_building == old(self).in_building,
            final(self).dead == old(self).dead,
            !(old(self).job is Explorer) ==> final(self).job == old(self).job,
            (match final(self).job {
                Job::Fisher { boat: Some(b) } => old(self).job == (Job::Fisher { boat: Some(b) }),
                _ => true,
            }),
            (match old(self).job {
                Job::Explorer { count, observations } => ({
                    // The explorer scores everything it sees, settles on
                    // the best job when its exploration time is up, and
                    // otherwise keeps roaming.
                    let area = (world.config.search_radius * world.config.search_radius) as int;
                    let scored = explorer_scores_upto(*world, pos, observations, area as nat);
                    let cnt: u16 = if count < u16::MAX {
                        (count + 1) as u16
                    } else {
                        u16::MAX
                    };
                    &&& final(self).job == (if cnt == world.config.exploration_timeout {
                        job_for(best_observed(scored))
                    } else {
                        Job::Explorer { count: cnt, observations: scored }
                    })
                    &&& (r is Move || r is Idle)
                }),
                _ => true,
            }),
            old(self).job == Job::Lumberer && adjacent_first_stock(
                *world,
                pos,
                ResourceItem::Berry,
                (world.config.search_radius * world.config.search_radius) as int,
            ) ==> r is Farm,
            old(self).job == Job::Farmer && adjacent_first_stock(
                *world,
                pos,
                ResourceItem::Wheat,
                (world.config.search_radius * world.config.search_radius) as int,
            ) ==> r is Farm,
            old(self).job == Job::Butcher && adjacent_first_stock(
                *world,
                pos,
                ResourceItem::Meat,
                (world.config.search_radius * world.config.search_radius) as int,
            ) ==> r is Farm,
            (old(self).job == Job::Lumberer || old(self).job == Job::Farmer || old(self).job
                == Job::Butcher) && r == AgentAction::Idle ==> forall|k: int|
                0 <= k < 8 ==> !old(self).walk_ok(
                    *world,
                    crate::world::wrap_xy(
                        pos.x + #[trigger] crate::world::neighbor_offset(k).0,
                        pos.y + crate::world::neighbor_offset(k).1,
                        world.width as int,
                        world.height as int,
                    ),
                ),
            match r {
                AgentAction::Move(p) => world.in_bounds(p) && final(self).walk_ok(*world, p),
                AgentAction::Farm(p) => world.in_bounds(p) && p.spec_is_adjacent(pos)
                    && world.tiles_entity@[world.idx_spec(p)] is Some && is_live_stock(
                    world.entities@[world.tiles_entity@[world.idx_spec(p)]->0.as_index_spec()],
                ),
                AgentAction::EnterBoat(p) => world.in_bounds(p) && p.spec_is_adjacent(pos)
                    && world.tiles_entity@[world.idx_spec(p)] is Some && is_boat(
                    world.entities@[world.tiles_entity@[world.idx_spec(p)]->0.as_index_spec()],
                ) && final(self).job == (Job::Fisher { boat: None }),
                AgentAction::Idle => true,
                _ => false,
            },
    {
        match self.job {
            Job::Lumberer => self.find_and_farm(world, pos, ResourceItem::Berry, rng),
            Job::Farmer => self.find_and_farm(world, pos, ResourceItem::Wheat, rng),
            Job::Butcher => self.find_and_farm(world, pos, ResourceItem::Meat, rng),
            Job::Fisher { boat } => {
                if boat.is_some() {
                    if self.on_sand(pos, world) {
                        // Sail back out: head for the nearest water tile.
                        let area = search_area(world);
                        let target = world.find_tile_of_type_around(pos, area, TileType::Water);
                        match self.path_find(pos, target, world, rng) {
                            Ok(p) => {
                                if self.can_walk_on(p, world) {
                                    AgentAction::Move(p)
                                } else {
                                    AgentAction::Idle
                                }
                            },
                            Err(a) => a,
                        }
                    } else {
                        self.find_and_farm(world, pos, ResourceItem::Fish, rng)
                    }
                } else {
                    // Find a boat on a beach and board it.
                    let area = search_area(world);
                    let pred = (|e: &Entity| -> (b: bool)
                        ensures
                            b == is_boat(*e),
                        {
                            match &e.ty {
                                EntityType::Building(Building::Boat { .. }) => true,
                                _ => false,
                            }
                        });
                    let target_pos = world.find_entity_around(pos, area, pred);
                    match self.path_find(pos, target_pos, world, rng) {
                        Ok(p) => AgentAction::EnterBoat(p),
                        Err(a) => a,
                    }
                }
            },
            Job::Explorer { count, observations } => {
                // Score every entity in the search radius.
                let mut obs = observations;
                let area = search_area(world);
                let ps = world.spiral_positions(pos, area);
                let m = ps.len();
                let mut j: usize = 0;
                while j < m
                    invariant
                        j <= m,
                        m == ps@.len(),
                        m == area,
                        world.dims_ok(),
                        world.tile_refs_indexable(),
                        world.config.wf(),
                        forall|t: int| 0 <= t < m ==> world.in_bounds(#[trigger] ps@[t]),
                        forall|t: int|
                            0 <= t < m ==> #[trigger] ps@[t] == world.spiral_at(pos, t as nat),
                        obs == explorer_scores_upto(*world, pos, observations, j as nat),
                    decreases m - j,
                {
                    let p = ps[j];
                    let ghost prev_obs = obs;
                    match world.entity_at(p) {
                        Some(e) => match &e.ty {
                            EntityType::Resource(res) => {
                                let pts = (res.available() as u32)
                                    / world.config.explorer_resource_divisor;
                                let prod = res.product();
                                let cur = *obs.get(prod);
                                obs.set(prod, cur.saturating_add(pts));
                            },
                            EntityType::Building(Building::Boat { .. }) => {
                                obs.fish = obs.fish.saturating_add(
                                    world.config.explorer_fish_points,
                                );
                            },
                            _ => {},
                        },
                        None => {},
                    }
                    proof {
                        assert(obs == explorer_score_tile(*world, ps@[j as int], prev_obs));
                        assert(obs == explorer_scores_upto(
                            *world,
                            pos,
                            observations,
                            (j + 1) as nat,
                        ));
                    }
                    j = j + 1;
                }
                let cnt = count.saturating_add(1);
                if cnt == world.config.exploration_timeout {
                    // Settle on the job of the highest-scoring resource.
                    let items = ResourceItem::iterator();
                    let mut max_freq: u32 = 0;
                    let mut best = ResourceItem::Berry;
                    let mut t: usize = 0;
                    while t < 4
                        invariant
                            t <= 4,
                            items@ == seq![
                                ResourceItem::Wheat,
                                ResourceItem::Berry,
                                ResourceItem::Fish,
                                ResourceItem::Meat,
                            ],
                            (max_freq, best) == argmax_upto(obs, t as int),
                        decreases 4 - t,
                    {
                        let it = items[t];
                        proof {
                            assert(canonical_item(t as int) == it);
                        }
                        if *obs.get(it) > max_freq {
                            max_freq = *obs.get(it);
                            best = it;
                        }
                        t = t + 1;
                    }
                    proof {
                        assert(best == best_observed(obs));
                    }
                    self.job = match best {
                        ResourceItem::Berry => Job::Lumberer,
                        ResourceItem::Wheat => Job::Farmer,
                        ResourceItem::Fish => Job::Fisher { boat: None },
                        ResourceItem::Meat => Job::Butcher,
                    };
                    proof {
                        assert(self.job == job_for(best_observed(obs)));
                    }
                } else {
                    self.job = Job::Explorer { count: cnt, observations: obs };
                }
                // Wander one step in a random direction.
                let draw = rng_below(rng, 8);
                let dir = Direction::from_draw(draw);
                let target = pos.offset(dir).wrap(world);
                if self.can_walk_on(target, world) {
                    AgentAction::Move(target)
                } else {
                    AgentAction::Idle
                }
            },
        }
    }

    /// Whether the agent stands on sand.
    fn on_sand(&self, pos: Pos, world: &World) -> (r: bool)
        requires
            world.dims_ok(),
            world.in_bounds(pos),
        ensures
            r == (world.tiles_type@[world.idx_spec(pos)] == TileType::Sand),
    {
        world.tile_type(pos) == TileType::Sand
    }

    /// Advance the agent's decision machine by one tick and return the
    /// action to apply. Energy drains first; an agent whose energy runs
    /// out dies. The states walk the agent between its job, the market and
    /// its home.
    pub fn step(&mut self, pos: Pos, world: &World, rng: &mut rand::rngs::StdRng) -> (r:
        AgentAction)
        requires
            world.dims_ok(),
            world.tile_refs_indexable(),
            world.config.wf(),
            world.in_bounds(pos),
            old(self).inv(*world),
            forall|it: ResourceItem| (#[trigger] world.market.market_price.spec_get(it))
                <= crate::market::price_scale_max(),
        ensures
            final(self).inv(*world),
            final(self).home == old(self).home,
            final(self).inventory == old(self).inventory,
            final(self).cash == old(self).cash,
            final(self).nutrition == old(self).nutrition,
            final(self).dead == old(self).dead,
            final(self).greed == old(self).greed,
            final(self).in_building == old(self).in_building,
            final(self).energy <= old(self).energy,
            (match final(self).job {
                Job::Fisher { boat: Some(b) } => old(self).job == (Job::Fisher { boat: Some(b) }),
                _ => true,
            }),
            old(self).dead ==> *final(self) == *old(self) && r == AgentAction::Idle,
            !old(self).dead ==> final(self).energy == sat_sub_u32(
                old(self).energy as int,
                world.config.energy_cost as int,
            ),
            (r == AgentAction::Die) <==> (!old(self).dead && sat_sub_u32(
                old(self).energy as int,
                world.config.energy_cost as int,
            ) == 0),
            ({
                let e1 = sat_sub_u32(old(self).energy as int, world.config.energy_cost as int);
                let t1: u16 = if old(self).timeout_quota > 0 {
                    (old(self).timeout_quota - 1) as u16
                } else {
                    0u16
                };
                &&& (!old(self).dead && e1 > 0 && !(old(self).state is GoHome && r is Enter)
                    ==> final(self).timeout_quota == t1)
                &&& (!old(self).dead && e1 > 0 && old(self).state is GoHome && old(self).home.spec_is_adjacent(pos) ==> r == AgentAction::Enter(old(self).home)
                    && *final(self) == quotas_applied(
                    Agent {
                        energy: e1,
                        timeout_quota: t1,
                        state: AgentState::BeHome,
                        ..*old(self)
                    },
                    world.config,
                ))
                &&& (match old(self).state {
                    AgentState::GoToMarket(Some(m)) => !old(self).dead && e1 > 0
                        && m.spec_is_adjacent(pos) ==> r == AgentAction::Enter(m) && final(self).state == AgentState::TradeOnMarket,
                    _ => true,
                })
                &&& (!old(self).dead && e1 > 0 && old(self).state is BeHome && e1
                    < world.config.initial_energy && old(self).meal_plan is Some && first_edible(
                    old(self).meal_plan->0,
                    old(self).inventory,
                ) is Some ==> ({
                    let it = first_edible(old(self).meal_plan->0, old(self).inventory)->0;
                    let planned = old(self).meal_plan->0.spec_get(it);
                    let held = old(self).inventory.spec_get(it);
                    &&& r == AgentAction::Consume(
                        it,
                        if planned < held {
                            planned
                        } else {
                            held
                        },
                    )
                    &&& *final(self) == Agent { energy: e1, timeout_quota: t1, ..*old(self) }
                }))
            }),
            ({
                // In the working state the job's own forcing carries up:
                // an adjacent stock is farmed, and an explorer advances
                // its exploration exactly as in the job step.
                let e1 = sat_sub_u32(old(self).energy as int, world.config.energy_cost as int);
                let area = (world.config.search_radius * world.config.search_radius) as int;
                &&& (!old(self).dead && e1 > 0 && old(self).state is DoJob && old(self).job
                    == Job::Lumberer && adjacent_first_stock(
                    *world,
                    pos,
                    ResourceItem::Berry,
                    area,
                ) ==> r is Farm)
                &&& (!old(self).dead && e1 > 0 && old(self).state is DoJob && old(self).job
                    == Job::Farmer && adjacent_first_stock(
                    *world,
                    pos,
                    ResourceItem::Wheat,
                    area,
                ) ==> r is Farm)
                &&& (!old(self).dead && e1 > 0 && old(self).state is DoJob && old(self).job
                    == Job::Butcher && adjacent_first_stock(
                    *world,
                    pos,
                    ResourceItem::Meat,
                    area,
                ) ==> r is Farm)
                &&& (match old(self).job {
                    Job::Explorer { count, observations } => !old(self).dead && e1 > 0 && old(
                        self,
                    ).state is DoJob ==> ({
                        let scored = explorer_scores_upto(*world, pos, observations, area as nat);
                        let cnt: u16 = if count < u16::MAX {
                            (count + 1) as u16
                        } else {
                            u16::MAX
                        };
                        final(self).job == (if cnt == world.config.exploration_timeout {
                            job_for(best_observed(scored))
                        } else {
                            Job::Explorer { count: cnt, observations: scored }
                        })
                    }),
                    _ => true,
                })
            }),
            r is Enter ==> final(self).state == AgentState::BeHome || final(self).state
                == AgentState::TradeOnMarket,
            r is Leave ==> final(self).state == AgentState::DoJob || final(self).state
                == (AgentState::GoToMarket(None)) || final(self).state == AgentState::GoHome,
            match r {
                AgentAction::Move(p) => world.in_bounds(p) && final(self).walk_ok(*world, p),
                AgentAction::Farm(p) => world.in_bounds(p) && world.tiles_entity@[world.idx_spec(
                    p,
                )] is Some && is_live_stock(
                    world.entities@[world.tiles_entity@[world.idx_spec(p)]->0.as_index_spec()],
                ),
                AgentAction::Enter(p) => world.in_bounds(p),
                AgentAction::Leave(p) => world.in_bounds(p) && final(self).walk_ok(*world, p),
                AgentAction::EnterBoat(p) => world.in_bounds(p) && world.tiles_entity@[
                    world.idx_spec(p)
                ] is Some && is_boat(
                    world.entities@[world.tiles_entity@[world.idx_spec(p)]->0.as_index_spec()],
                ) && final(self).job == (Job::Fisher { boat: None }),
                AgentAction::LeaveBoat(p) => world.in_bounds(p) && world.walkable_at(p) && final(self).job is Fisher,
                AgentAction::Consume(res, q) => q > 0 && final(self).inventory.spec_get(res) > 0,
                AgentAction::MarketOrder { item, price, amount } => amount > 0 && amount <= final(self).inventory.spec_get(item),
                AgentAction::MarketPurchase { item, amount } => amount > 0,
                AgentAction::Idle => true,
                AgentAction::Die => true,
            },
    {
        if self.dead {
            return AgentAction::Idle;
        }
        self.energy = self.energy.saturating_sub(world.config.energy_cost);
        if self.energy == 0 {
            return AgentAction::Die;
        }
        self.timeout_quota = self.timeout_quota.saturating_sub(1);

        match self.state {
            AgentState::GoHome => {
                let home = self.home;
                match self.path_find(pos, Some(home), world, rng) {
                    Ok(h) => {
                        self.state = AgentState::BeHome;
                        self.update_quotas(&world.config);
                        AgentAction::Enter(h)
                    },
                    Err(a) => {
                        // A fisher still in a boat beaches it before
                        // walking the last stretch home.
                        let sailing = match self.job {
                            Job::Fisher { boat } => boat.is_some(),
                            _ => false,
                        };
                        if sailing && self.on_sand(pos, world) {
                            match world.find_free_tile_around(pos, 9, false) {
                                Some(p) => AgentAction::LeaveBoat(p),
                                None => AgentAction::Idle,
                            }
                        } else {
                            a
                        }
                    },
                }
            },
            AgentState::BeHome => {
                if self.energy < world.config.initial_energy {
                    if self.meal_plan.is_some() {
                        // Eat the first planned resource that is in stock.
                        let plan_opt = self.meal_plan;
                        if let Some(plan) = plan_opt {
                            let items = ResourceItem::iterator();
                            let mut i: usize = 0;
                            #[verifier::loop_isolation(false)]
                            while i < 4
                                invariant
                                    i <= 4,
                                    forall|j: int|
                                        0 <= j < i ==> !((#[trigger] plan.spec_get(items@[j])) > 0
                                            && self.inventory.spec_get(items@[j]) > 0),
                                decreases 4 - i,
                            {
                                let it = items[i];
                                if *plan.get(it) > 0 && *self.inventory.get(it) > 0 {
                                    let planned = *plan.get(it);
                                    let held = *self.inventory.get(it);
                                    let quantity: u32 = if planned < held {
                                        planned
                                    } else {
                                        held
                                    };
                                    proof {
                                        assert(items@[0] == ResourceItem::Wheat);
                                        assert(items@[1] == ResourceItem::Berry);
                                        assert(items@[2] == ResourceItem::Fish);
                                        assert(items@[3] == ResourceItem::Meat);
                                        assert(first_edible(plan, self.inventory) == Some(it));
                                    }
                                    return AgentAction::Consume(it, quantity);
                                }
                                i = i + 1;
                            }
                            proof {
                                assert(items@[0] == ResourceItem::Wheat);
                                assert(items@[1] == ResourceItem::Berry);
                                assert(items@[2] == ResourceItem::Fish);
                                assert(items@[3] == ResourceItem::Meat);
                                assert(first_edible(plan, self.inventory) is None);
                            }
                            self.meal_plan = None;
                        }
                    }
                }
                let sailing = match self.job {
                    Job::Fisher { boat } => boat.is_some(),
                    _ => false,
                };
                match world.find_free_tile_around(pos, 9, sailing) {
                    Some(p) => {
                        // Flip a coin for the next goal: work, or trade.
                        let coin = rng_below(rng, 2);
                        if coin == 0 {
                            self.state = AgentState::DoJob;
                        } else {
                            self.state = AgentState::GoToMarket(None);
                        }
                        AgentAction::Leave(p)
                    },
                    None => AgentAction::Idle,
                }
            },
            AgentState::DoJob => {
                if self.energy < world.config.critical_energy || world.time_of_day()
                    > world.config.closing_time {
                    self.state = AgentState::GoHome;
                }
                self.do_job(pos, world, rng)
            },
            AgentState::GoToMarket(cached) => {
                let mut m = cached;
                let pred = (|e: &Entity| -> (b: bool)
                    ensures
                        b == is_market(*e),
                    {
                        match &e.ty {
                            EntityType::Building(Building::Market) => true,
                            _ => false,
                        }
                    });
                let found = self.find(world, pos, &mut m, pred, rng);
                self.state = AgentState::GoToMarket(m);
                match found {
                    Ok(h) => {
                        self.state = AgentState::TradeOnMarket;
                        AgentAction::Enter(h)
                    },
                    Err(a) => a,
                }
            },
            AgentState::TradeOnMarket => {
                if world.time_of_day() < world.config.closing_time {
                    match self.trade_on_market(pos, world) {
                        Some(action) => {
                            return action;
                        },
                        None => {},
                    }
                }
                let sailing = match self.job {
                    Job::Fisher { boat } => boat.is_some(),
                    _ => false,
                };
                match world.find_free_tile_around(pos, 9, sailing) {
                    Some(p) => {
                        self.state = AgentState::GoHome;
                        AgentAction::Leave(p)
                    },
                    None => AgentAction::Idle,
                }
            },
        }
    }
}

/// All fields but the inventory are unchanged.
pub open spec fn unchanged_but_inventory(a: Agent, b: Agent) -> bool {
    &&& b.job == a.job
    &&& b.home == a.home
    &&& b.state == a.state
    &&& b.nutrition == a.nutrition
    &&& b.shopping_list == a.shopping_list
    &&& b.meal_plan == a.meal_plan
    &&& b.energy_quota == a.energy_quota
    &&& b.energy == a.energy
    &&& b.greed == a.greed
    &&& b.cash == a.cash
    &&& b.cash_quota == a.cash_quota
    &&& b.timeout_quota == a.timeout_quota
    &&& b.in_building == a.in_building
    &&& b.dead == a.dead
}

/// Addition clamped to the `u32` range.
pub open spec fn sat_add_u32(a: int, b: int) -> u32 {
    if a + b > u32::MAX {
        u32::MAX
    } else {
        (a + b) as u32
    }
}

/// Subtraction clamped at zero.
pub open spec fn sat_sub_u32(a: int, b: int) -> u32 {
    if a - b < 0 {
        0u32
    } else {
        (a - b) as u32
    }
}

pub open spec fn min_int(a: int, b: int) -> int {
    if a < b {
        a
    } else {
        b
    }
}

/// The agent after eating `quantity` units of one resource: the stock
/// shrinks, energy rises to at most the cap, the eaten resource loses
/// nutritional value and the others gain some.
pub open spec fn consumed_agent(a: Agent, resource: ResourceItem, quantity: int, config: Config) -> Agent {
    Agent {
        inventory: a.inventory.spec_set(
            resource,
            sat_sub_u32(a.inventory.spec_get(resource) as int, quantity),
        ),
        energy: min_int(
            a.energy + a.nutrition.spec_get(resource) * quantity,
            config.max_energy as int,
        ) as u32,
        nutrition: PerResource {
            wheat: nutrition_after(a.nutrition.wheat, resource == ResourceItem::Wheat, quantity, config),
            berry: nutrition_after(a.nutrition.berry, resource == ResourceItem::Berry, quantity, config),
            fish: nutrition_after(a.nutrition.fish, resource == ResourceItem::Fish, quantity, config),
            meat: nutrition_after(a.nutrition.meat, resource == ResourceItem::Meat, quantity, config),
        },
        ..a
    }
}

/// The nutritional value of one resource after eating `quantity` units of a
/// resource: the eaten one loses `nutrition_sub` per unit, the others gain
/// `nutrition_add` per unit, all with `u8` saturation and the quantity
/// itself capped at 255.
pub open spec fn nutrition_after(n: u8, eaten: bool, quantity: int, config: Config) -> u8 {
    let q = min_int(quantity, 255);
    if eaten {
        let step = if config.nutrition_sub * q > u8::MAX {
            u8::MAX as int
        } else {
            config.nutrition_sub * q
        };
        if n - step < 0 {
            0u8
        } else {
            (n - step) as u8
        }
    } else {
        let step = if config.nutrition_add * q > u8::MAX {
            u8::MAX as int
        } else {
            config.nutrition_add * q
        };
        if n + step > u8::MAX {
            u8::MAX
        } else {
            (n + step) as u8
        }
    }
}

} // verus!
