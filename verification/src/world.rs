//! The world: the tile grid, the entity store, the market, and the per-tick
//! driver that steps every entity and applies agent actions atomically.

use vstd::prelude::*;

use crate::agent::Agent;
use crate::agent::AgentAction;
use crate::agent::AgentState;
use crate::agent::Job;
use crate::resources::PerResource;
use crate::resources::ResourceItem;
use crate::building::Building;
use crate::config::Config;
use crate::entity::Entity;
use crate::entity::EntityId;
use crate::entity::EntityType;
use crate::market::Market;
use crate::market::Order;
use crate::resources::Resource;
use crate::tile::TileType;

use vstd::arithmetic::div_mod::lemma_fundamental_div_mod;
use vstd::arithmetic::div_mod::lemma_fundamental_div_mod_converse;
use vstd::arithmetic::mul::lemma_mul_upper_bound;
use vstd::pervasive::VecAdditionalExecFns;

verus! {

broadcast use vstd::seq_lib::group_to_multiset_ensures;

/// A position on the toroidal grid, as signed 16-bit coordinates. Dead
/// agents are parked at the sentinel `(-1, -1)`.
#[derive(Debug, Clone, Copy, PartialEq, Eq, Structural, Hash)]
pub struct Pos {
    pub x: i16,
    pub y: i16,
}

/// Euclidean remainder: the representative of `v` modulo `m` in `[0, m)`.
fn euclid_rem(v: i64, m: i64) -> (r: i64)
    requires
        1 <= m <= 65536,
        -0x7fff_ffff_ffff_ffff <= v,
    ensures
        r == v as int % m as int,
        0 <= r < m,
{
    if v >= 0 {
        let r = ((v as u64) % (m as u64)) as i64;
        r
    } else {
        let d: u64 = (-v) as u64;
        let rem: u64 = d % (m as u64);
        proof {
            let q = d as int / m as int;
            lemma_fundamental_div_mod(d as int, m as int);
            assert(d as int == q * (m as int) + rem as int) by (nonlinear_arith)
                requires
                    d as int == (m as int) * q + rem as int,
            ;
            if rem == 0 {
                assert(v as int == (-q) * (m as int) + 0) by (nonlinear_arith)
                    requires
                        v as int == -(d as int),
                        d as int == q * (m as int),
                ;
                lemma_fundamental_div_mod_converse(v as int, m as int, -q, 0);
            } else {
                assert(v as int == (-q - 1) * (m as int) + (m as int - rem as int))
                    by (nonlinear_arith)
                    requires
                        v as int == -(d as int),
                        d as int == q * (m as int) + rem as int,
                ;
                lemma_fundamental_div_mod_converse(v as int, m as int, -q - 1, m - rem);
            }
        }
        if rem == 0 {
            0
        } else {
            m - (rem as i64)
        }
    }
}

impl Pos {
    pub fn new(x: i16, y: i16) -> (r: Pos)
        ensures
            r == (Pos { x, y }),
    {
        Pos { x, y }
    }

    /// Chebyshev distance at most one, on the raw coordinates.
    pub open spec fn spec_is_adjacent(self, other: Pos) -> bool {
        -1 <= self.x - other.x <= 1 && -1 <= self.y - other.y <= 1
    }

    /// True when the two positions are at most one step apart on both axes,
    /// without wrapping.
    pub fn is_adjacent(self, other: Pos) -> (r: bool)
        ensures
            r == self.spec_is_adjacent(other),
    {
        let dx: i32 = self.x as i32 - other.x as i32;
        let dy: i32 = self.y as i32 - other.y as i32;
        -1 <= dx && dx <= 1 && -1 <= dy && dy <= 1
    }

    /// The position with both coordinates reduced modulo the world size.
    pub open spec fn spec_wrap(self, width: int, height: int) -> Pos {
        wrap_xy(self.x as int, self.y as int, width, height)
    }

    /// The position one step away in the given direction, not wrapped.
    pub fn offset(self, dir: crate::agent::Direction) -> (r: Pos)
        requires
            -32767 <= self.x <= 32766,
            -32767 <= self.y <= 32766,
        ensures
            r.x == self.x + crate::agent::Direction::dx(dir),
            r.y == self.y + crate::agent::Direction::dy(dir),
    {
        match dir {
            crate::agent::Direction::Up => Pos { x: self.x, y: self.y + 1 },
            crate::agent::Direction::UpRight => Pos { x: self.x + 1, y: self.y + 1 },
            crate::agent::Direction::Right => Pos { x: self.x + 1, y: self.y },
            crate::agent::Direction::DownRight => Pos { x: self.x + 1, y: self.y - 1 },
            crate::agent::Direction::Down => Pos { x: self.x, y: self.y - 1 },
            crate::agent::Direction::DownLeft => Pos { x: self.x - 1, y: self.y - 1 },
            crate::agent::Direction::Left => Pos { x: self.x - 1, y: self.y },
            crate::agent::Direction::UpLeft => Pos { x: self.x - 1, y: self.y + 1 },
        }
    }

    /// Wrap a position onto the world.
    pub fn wrap(self, world: &World) -> (r: Pos)
        requires
            world.dims_ok(),
        ensures
            r == self.spec_wrap(world.width as int, world.height as int),
            world.in_bounds(r),
    {
        Pos {
            x: euclid_rem(self.x as i64, world.width as i64) as i16,
            y: euclid_rem(self.y as i64, world.height as i64) as i16,
        }
    }
}

/// The whole state of one simulation instance.
pub struct World {
    /// The simulation parameters.
    pub config: Config,
    /// The tile type of every tile, row-major, immutable after creation.
    pub tiles_type: Vec<TileType>,
    /// The entity standing on every tile: at most one per tile.
    pub tiles_entity: Vec<Option<EntityId>>,
    /// The entity store. Entities are appended at creation and never
    /// removed; dead agents keep their slot.
    pub entities: Vec<Entity>,
    /// The global market.
    pub market: Market,
    /// Width of the world in tiles.
    pub width: usize,
    /// Height of the world in tiles.
    pub height: usize,
    /// The tick counter.
    pub tick: u32,
    /// Whether stepping is currently enabled.
    pub is_running: bool,
    /// Count of agents alive as of the most recent tick.
    pub alive_count: u32,
    /// Count of agents alive when the world was created.
    pub start_count: u32,
}

impl World {
    /// Grid dimensions the engine's index arithmetic is proved for.
    pub open spec fn dims_ok(self) -> bool {
        &&& 1 <= self.width <= 32767
        &&& 1 <= self.height <= 32767
        &&& self.tiles_type@.len() == self.width * self.height
        &&& self.tiles_entity@.len() == self.width * self.height
    }

    /// The position lies on the grid.
    pub open spec fn in_bounds(self, p: Pos) -> bool {
        0 <= p.x < self.width && 0 <= p.y < self.height
    }

    /// The row-major tile index of a position.
    pub open spec fn idx_spec(self, p: Pos) -> int {
        p.x + p.y * self.width
    }

    /// Get an index into the tile vectors from a position.
    pub fn idx(&self, p: Pos) -> (r: usize)
        requires
            self.dims_ok(),
            self.in_bounds(p),
        ensures
            r == self.idx_spec(p),
            r < self.tiles_entity@.len(),
    {
        let n = self.tiles_entity.len();
        proof {
            lemma_row_major_index(p.x as int, p.y as int, self.width as int, self.height as int);
        }
        (p.x as usize) + (p.y as usize) * self.width
    }

    /// Wrap raw coordinates onto the world.
    pub fn wrap_pos(&self, x: isize, y: isize) -> (r: Pos)
        requires
            self.dims_ok(),
            -0x4000_0000_0000_0000 <= x <= 0x4000_0000_0000_0000,
            -0x4000_0000_0000_0000 <= y <= 0x4000_0000_0000_0000,
        ensures
            r.x == x as int % self.width as int,
            r.y == y as int % self.height as int,
            self.in_bounds(r),
    {
        Pos {
            x: euclid_rem(x as i64, self.width as i64) as i16,
            y: euclid_rem(y as i64, self.height as i64) as i16,
        }
    }

    /// The tile type at a position.
    pub fn tile_type(&self, p: Pos) -> (r: TileType)
        requires
            self.dims_ok(),
            self.in_bounds(p),
        ensures
            r == self.tiles_type@[self.idx_spec(p)],
    {
        let i = self.idx(p);
        self.tiles_type[i]
    }

    /// Every tile occupant names a proper index into the entity store.
    pub open spec fn tile_refs_indexable(self) -> bool {
        forall|t: int|
            0 <= t < self.tiles_entity@.len() && (#[trigger] self.tiles_entity@[t]) is Some
                ==> self.tiles_entity@[t]->0.wf() && self.tiles_entity@[t]->0.as_index_spec()
                < self.entities@.len()
    }

    /// The entity standing at a position, if any.
    pub fn entity_at(&self, pos: Pos) -> (r: Option<&Entity>)
        requires
            self.dims_ok(),
            self.in_bounds(pos),
            self.tile_refs_indexable(),
        ensures
            match r {
                Some(e) => self.tiles_entity@[self.idx_spec(pos)] is Some && *e
                    == self.entities@[self.tiles_entity@[self.idx_spec(pos)]->0.as_index_spec()],
                None => self.tiles_entity@[self.idx_spec(pos)] is None,
            },
    {
        let i = self.idx(pos);
        match self.tiles_entity[i] {
            Some(id) => Some(&self.entities[id.as_index()]),
            None => None,
        }
    }

    /// A reference to an entity by id.
    pub fn entity(&self, id: EntityId) -> (r: &Entity)
        requires
            id.wf(),
            id.as_index_spec() < self.entities@.len(),
        ensures
            *r == self.entities@[id.as_index_spec()],
    {
        &self.entities[id.as_index()]
    }

    /// An agent on foot may stand here: the tile type is walkable and no
    /// entity occupies the tile.
    pub open spec fn walkable_at(self, p: Pos) -> bool {
        self.tiles_type@[self.idx_spec(p)].spec_walkable() && self.tiles_entity@[self.idx_spec(p)]
            is None
    }

    /// A boat may sail here: water or sand, and no entity occupies the tile.
    pub open spec fn sailable_at(self, p: Pos) -> bool {
        (self.tiles_type@[self.idx_spec(p)] == TileType::Water || self.tiles_type@[self.idx_spec(p)]
            == TileType::Sand) && self.tiles_entity@[self.idx_spec(p)] is None
    }

    /// Check whether an agent on foot can walk onto the given tile.
    pub fn tile_is_walkable(&self, p: Pos) -> (r: bool)
        requires
            self.dims_ok(),
            self.in_bounds(p),
            self.tile_refs_indexable(),
        ensures
            r == self.walkable_at(p),
    {
        let i = self.idx(p);
        self.tiles_type[i].walkable() && self.tiles_entity[i].is_none()
    }

    /// Check whether a boat can sail onto the given tile. Boats may also
    /// rest on sand, so that they can be parked on a beach.
    pub fn tile_is_sailable(&self, p: Pos) -> (r: bool)
        requires
            self.dims_ok(),
            self.in_bounds(p),
            self.tile_refs_indexable(),
        ensures
            r == self.sailable_at(p),
    {
        let i = self.idx(p);
        let typ = self.tiles_type[i];
        (typ == TileType::Water || typ == TileType::Sand) && self.tiles_entity[i].is_none()
    }

    /// The tick of the current day. Days start at zero.
    pub fn time_of_day(&self) -> (r: u32)
        requires
            self.config.day_length >= 1,
        ensures
            r == self.tick as int % self.config.day_length as int,
    {
        self.tick % self.config.day_length
    }

    /// All eight neighboring positions, toroidally wrapped.
    pub fn neighbors(&self, pos: Pos) -> (r: [Pos; 8])
        requires
            self.dims_ok(),
            self.in_bounds(pos),
        ensures
            forall|k: int|
                0 <= k < 8 ==> #[trigger] r@[k] == wrap_xy(
                    pos.x + neighbor_offset(k).0,
                    pos.y + neighbor_offset(k).1,
                    self.width as int,
                    self.height as int,
                ),
            forall|k: int| 0 <= k < 8 ==> self.in_bounds(#[trigger] r@[k]),
    {
        let r = [
            self.wrap_pos(pos.x as isize - 1, pos.y as isize + 1),
            self.wrap_pos(pos.x as isize, pos.y as isize + 1),
            self.wrap_pos(pos.x as isize + 1, pos.y as isize + 1),
            self.wrap_pos(pos.x as isize - 1, pos.y as isize),
            self.wrap_pos(pos.x as isize + 1, pos.y as isize),
            self.wrap_pos(pos.x as isize - 1, pos.y as isize - 1),
            self.wrap_pos(pos.x as isize, pos.y as isize - 1),
            self.wrap_pos(pos.x as isize + 1, pos.y as isize - 1),
        ];
        assert forall|k: int| 0 <= k < 8 implies #[trigger] r@[k] == wrap_xy(
            pos.x + neighbor_offset(k).0,
            pos.y + neighbor_offset(k).1,
            self.width as int,
            self.height as int,
        ) by {
            if k == 0 {
            } else if k == 1 {
            } else if k == 2 {
            } else if k == 3 {
            } else if k == 4 {
            } else if k == 5 {
            } else if k == 6 {
            } else {
                assert(k == 7);
            }
        }
        r
    }

    /// The k-th tile of the square-spiral enumeration that starts at `p`,
    /// wrapped onto the world.
    pub open spec fn spiral_at(self, p: Pos, k: nat) -> Pos {
        wrap_xy(
            spiral_state(p, k).0,
            spiral_state(p, k).1,
            self.width as int,
            self.height as int,
        )
    }

    /// The first `n` tiles of the square-spiral enumeration around `p`, in
    /// order, each wrapped onto the world.
    pub fn spiral_positions(&self, p: Pos, n: usize) -> (r: Vec<Pos>)
        requires
            self.dims_ok(),
            n <= 100_000_000,
        ensures
            r@.len() == n,
            forall|k: int| 0 <= k < n ==> #[trigger] r@[k] == self.spiral_at(p, k as nat),
            forall|k: int| 0 <= k < n ==> self.in_bounds(#[trigger] r@[k]),
    {
        let mut out: Vec<Pos> = Vec::new();
        let mut x: i64 = p.x as i64;
        let mut y: i64 = p.y as i64;
        let mut run: usize = 2;
        let mut rem: usize = 1;
        let mut k: usize = 0;
        while k < n
            invariant
                self.dims_ok(),
                n <= 100_000_000,
                k <= n,
                out@.len() == k,
                (x as int, y as int, run as int, rem as int) == spiral_state(p, k as nat),
                forall|j: int| 0 <= j < k ==> #[trigger] out@[j] == self.spiral_at(p, j as nat),
                forall|j: int| 0 <= j < k ==> self.in_bounds(#[trigger] out@[j]),
            decreases n - k,
        {
            proof {
                lemma_spiral_state_bounds(p, k as nat);
            }
            let q = self.wrap_pos(x as isize, y as isize);
            out.push(q);
            let d: usize = (run + 2) % 4;
            if d == 1 {
                x = x + 1;
            } else if d == 3 {
                x = x - 1;
            } else if d == 0 {
                y = y + 1;
            } else {
                y = y - 1;
            }
            if rem <= 1 {
                run = run + 1;
                rem = run / 2;
            } else {
                rem = rem - 1;
            }
            k = k + 1;
        }
        out
    }

    /// The first tile around `p`, in square-spiral order, that an agent on
    /// foot (or, with `sail`, a boat) can move onto.
    pub fn find_free_tile_around(&self, p: Pos, n: usize, sail: bool) -> (r: Option<Pos>)
        requires
            self.dims_ok(),
            self.tile_refs_indexable(),
            n <= 100_000_000,
        ensures
            match r {
                Some(q) => self.in_bounds(q) && (if sail {
                    self.sailable_at(q)
                } else {
                    self.walkable_at(q)
                }) && exists|k: int|
                    #![trigger self.spiral_at(p, k as nat)]
                    0 <= k < n && q == self.spiral_at(p, k as nat) && forall|j: int|
                        0 <= j < k ==> !(if sail {
                            self.sailable_at(#[trigger] self.spiral_at(p, j as nat))
                        } else {
                            self.walkable_at(self.spiral_at(p, j as nat))
                        }),
                None => forall|k: int|
                    0 <= k < n ==> !(if sail {
                        self.sailable_at(#[trigger] self.spiral_at(p, k as nat))
                    } else {
                        self.walkable_at(self.spiral_at(p, k as nat))
                    }),
            },
    {
        let ps = self.spiral_positions(p, n);
        let mut i: usize = 0;
        while i < n
            invariant
                i <= n,
                ps@.len() == n,
                self.dims_ok(),
                self.tile_refs_indexable(),
                forall|k: int| 0 <= k < n ==> #[trigger] ps@[k] == self.spiral_at(p, k as nat),
                forall|k: int| 0 <= k < n ==> self.in_bounds(#[trigger] ps@[k]),
                forall|j: int|
                    0 <= j < i ==> !(if sail {
                        self.sailable_at(#[trigger] self.spiral_at(p, j as nat))
                    } else {
                        self.walkable_at(self.spiral_at(p, j as nat))
                    }),
            decreases n - i,
        {
            let q = ps[i];
            let free = if sail {
                self.tile_is_sailable(q)
            } else {
                self.tile_is_walkable(q)
            };
            if free {
                proof {
                    let ki: int = i as int;
                    assert(0 <= ki < n && q == self.spiral_at(p, ki as nat));
                }
                return Some(q);
            }
            i = i + 1;
        }
        None
    }

    /// The first tile around `p`, in square-spiral order, of the given
    /// tile type.
    pub fn find_tile_of_type_around(&self, p: Pos, n: usize, tt: TileType) -> (r: Option<Pos>)
        requires
            self.dims_ok(),
            n <= 100_000_000,
        ensures
            match r {
                Some(q) => self.in_bounds(q) && self.tiles_type@[self.idx_spec(q)] == tt
                    && exists|k: int|
                    #![trigger self.spiral_at(p, k as nat)]
                    0 <= k < n && q == self.spiral_at(p, k as nat) && forall|j: int|
                        0 <= j < k ==> self.tiles_type@[self.idx_spec(
                            #[trigger] self.spiral_at(p, j as nat),
                        )] != tt,
                None => forall|k: int|
                    0 <= k < n ==> self.tiles_type@[self.idx_spec(
                        #[trigger] self.spiral_at(p, k as nat),
                    )] != tt,
            },
    {
        let ps = self.spiral_positions(p, n);
        let mut i: usize = 0;
        while i < n
            invariant
                i <= n,
                ps@.len() == n,
                self.dims_ok(),
                forall|k: int| 0 <= k < n ==> #[trigger] ps@[k] == self.spiral_at(p, k as nat),
                forall|k: int| 0 <= k < n ==> self.in_bounds(#[trigger] ps@[k]),
                forall|j: int|
                    0 <= j < i ==> self.tiles_type@[self.idx_spec(
                        #[trigger] self.spiral_at(p, j as nat),
                    )] != tt,
            decreases n - i,
        {
            let q = ps[i];
            if self.tile_type(q) == tt {
                proof {
                    let ki: int = i as int;
                    assert(0 <= ki < n && q == self.spiral_at(p, ki as nat));
                }
                return Some(q);
            }
            i = i + 1;
        }
        None
    }

    /// Search the tiles around `p` in square-spiral order, visiting at most
    /// `n` tiles, for the first on which the predicate holds. The start
    /// tile itself is visited first.
    pub fn find_tile_around<F: Fn(Pos) -> bool>(&self, p: Pos, n: usize, f: F) -> (r: Option<
        Pos,
    >)
        requires
            self.dims_ok(),
            n <= 100_000_000,
            forall|q: Pos| self.in_bounds(q) ==> #[trigger] f.requires((q,)),
        ensures
            match r {
                Some(q) => self.in_bounds(q) && f.ensures((q,), true) && exists|k: int|
                    #![trigger self.spiral_at(p, k as nat)]
                    0 <= k < n && q == self.spiral_at(p, k as nat) && forall|j: int|
                        0 <= j < k ==> f.ensures(
                            (#[trigger] self.spiral_at(p, j as nat),),
                            false,
                        ),
                None => forall|k: int|
                    0 <= k < n ==> f.ensures(
                        (#[trigger] self.spiral_at(p, k as nat),),
                        false,
                    ),
            },
    {
        let mut x: i64 = p.x as i64;
        let mut y: i64 = p.y as i64;
        let mut run: usize = 2;
        let mut rem: usize = 1;
        let mut k: usize = 0;
        while k < n
            invariant
                self.dims_ok(),
                n <= 100_000_000,
                forall|q: Pos| self.in_bounds(q) ==> #[trigger] f.requires((q,)),
                k <= n,
                (x as int, y as int, run as int, rem as int) == spiral_state(p, k as nat),
                forall|j: int|
                    0 <= j < k ==> f.ensures((#[trigger] self.spiral_at(p, j as nat),), false),
            decreases n - k,
        {
            proof {
                lemma_spiral_state_bounds(p, k as nat);
            }
            let q = self.wrap_pos(x as isize, y as isize);
            proof {
                assert(q == self.spiral_at(p, k as nat));
            }
            let hit = f(q);
            if hit {
                proof {
                    assert(f.ensures((q,), true));
                    let ki: int = k as int;
                    assert(0 <= ki < n && q == self.spiral_at(p, ki as nat));
                }
                return Some(q);
            }
            let d: usize = (run + 2) % 4;
            if d == 1 {
                x = x + 1;
            } else if d == 3 {
                x = x - 1;
            } else if d == 0 {
                y = y + 1;
            } else {
                y = y - 1;
            }
            if rem <= 1 {
                run = run + 1;
                rem = run / 2;
            } else {
                rem = rem - 1;
            }
            k = k + 1;
        }
        None
    }

    /// Search the tiles around `p` in square-spiral order for the first
    /// whose entity satisfies the predicate; tiles without an entity never
    /// match.
    pub fn find_entity_around<F: Fn(&Entity) -> bool>(&self, p: Pos, n: usize, f: F) -> (r:
        Option<Pos>)
        requires
            self.dims_ok(),
            self.tile_refs_indexable(),
            n <= 100_000_000,
            forall|e: &Entity| #[trigger] f.requires((e,)),
        ensures
            match r {
                Some(q) => self.in_bounds(q) && self.tiles_entity@[self.idx_spec(q)] is Some
                    && f.ensures(
                    (&self.entities@[self.tiles_entity@[self.idx_spec(q)]->0.as_index_spec()],),
                    true,
                ) && exists|k: int|
                    #![trigger self.spiral_at(p, k as nat)]
                    0 <= k < n && q == self.spiral_at(p, k as nat) && forall|j: int|
                        0 <= j < k ==> entity_misses(
                            *self,
                            #[trigger] self.spiral_at(p, j as nat),
                            f,
                        ),
                None => forall|k: int|
                    0 <= k < n ==> entity_misses(*self, #[trigger] self.spiral_at(p, k as nat), f),
            },
    {
        let mut x: i64 = p.x as i64;
        let mut y: i64 = p.y as i64;
        let mut run: usize = 2;
        let mut rem: usize = 1;
        let mut k: usize = 0;
        while k < n
            invariant
                self.dims_ok(),
                self.tile_refs_indexable(),
                n <= 100_000_000,
                forall|e: &Entity| #[trigger] f.requires((e,)),
                k <= n,
                (x as int, y as int, run as int, rem as int) == spiral_state(p, k as nat),
                forall|j: int|
                    0 <= j < k ==> entity_misses(*self, #[trigger] self.spiral_at(p, j as nat), f),
            decreases n - k,
        {
            proof {
                lemma_spiral_state_bounds(p, k as nat);
            }
            let q = self.wrap_pos(x as isize, y as isize);
            proof {
                assert(q == self.spiral_at(p, k as nat));
            }
            match self.entity_at(q) {
                Some(e) => {
                    let hit = f(e);
                    if hit {
                        proof {
                            let ki: int = k as int;
                            assert(0 <= ki < n && q == self.spiral_at(p, ki as nat));
                            assert(f.ensures((e,), true));
                            assert(self.tiles_entity@[self.idx_spec(q)] is Some);
                            assert(*e == self.entities@[self.tiles_entity@[self.idx_spec(
                                q,
                            )]->0.as_index_spec()]);
                        }
                        return Some(q);
                    }
                    proof {
                        assert(entity_misses(*self, q, f));
                    }
                },
                None => {
                    proof {
                        assert(entity_misses(*self, q, f));
                    }
                },
            }
            let d: usize = (run + 2) % 4;
            if d == 1 {
                x = x + 1;
            } else if d == 3 {
                x = x - 1;
            } else if d == 0 {
                y = y + 1;
            } else {
                y = y - 1;
            }
            if rem <= 1 {
                run = run + 1;
                rem = run / 2;
            } else {
                rem = rem - 1;
            }
            k = k + 1;
        }
        None
    }
}

/// One step of the square-spiral walk: the state is the raw coordinates,
/// the index of the current run, and the steps left in it. Runs have the
/// lengths 1, 1, 2, 2, 3, 3, ... and the walk direction cycles up, right,
/// down, left with the run index.
pub open spec fn spiral_step(st: (int, int, int, int)) -> (int, int, int, int) {
    let d = (st.2 + 2) % 4;
    let nx = if d == 1 {
        st.0 + 1
    } else if d == 3 {
        st.0 - 1
    } else {
        st.0
    };
    let ny = if d == 0 {
        st.1 + 1
    } else if d == 2 {
        st.1 - 1
    } else {
        st.1
    };
    if st.3 <= 1 {
        (nx, ny, st.2 + 1, (st.2 + 1) / 2)
    } else {
        (nx, ny, st.2, st.3 - 1)
    }
}

/// The state of the square-spiral walk that starts at `p`, after `k` steps.
pub open spec fn spiral_state(p: Pos, k: nat) -> (int, int, int, int)
    decreases k,
{
    if k == 0 {
        (p.x as int, p.y as int, 2, 1)
    } else {
        spiral_step(spiral_state(p, (k - 1) as nat))
    }
}

/// Each spiral step moves one tile, so after `k` steps the raw coordinates
/// lie within `k` of the start; the run bookkeeping stays in range.
pub proof fn lemma_spiral_state_bounds(p: Pos, k: nat)
    ensures
        ({
            let st = spiral_state(p, k);
            &&& p.x - k <= st.0 <= p.x + k
            &&& p.y - k <= st.1 <= p.y + k
            &&& 2 <= st.2 <= 2 + k
            &&& 1 <= st.3
        }),
    decreases k,
{
    if k > 0 {
        lemma_spiral_state_bounds(p, (k - 1) as nat);
    }
}

/// The entity id that refers to slot `i` of the store.
pub open spec fn id_of(i: int) -> EntityId {
    EntityId { raw: (i + 1) as u32 }
}

/// The agent held by an entity; meaningful only for agent entities.
pub open spec fn agent_of(e: Entity) -> Agent
    recommends
        e.ty is Agent,
{
    match e.ty {
        EntityType::Agent(a) => a,
        _ => arbitrary(),
    }
}

/// The building held by an entity; meaningful only for building entities.
pub open spec fn building_of(e: Entity) -> Building
    recommends
        e.ty is Building,
{
    match e.ty {
        EntityType::Building(b) => b,
        _ => arbitrary(),
    }
}

/// The resource stock held by an entity; meaningful only for resource
/// entities.
pub open spec fn resource_of(e: Entity) -> Resource
    recommends
        e.ty is Resource,
{
    match e.ty {
        EntityType::Resource(r) => r,
        _ => arbitrary(),
    }
}

/// A parked boat: a boat building that no agent is sailing.
pub open spec fn is_parked_boat(e: Entity) -> bool {
    match e.ty {
        EntityType::Building(Building::Boat { has_agent }) => !has_agent,
        _ => false,
    }
}

/// The cash held across a store: every agent's cash, dead or alive, summed.
pub open spec fn sum_cash(es: Seq<Entity>) -> int
    decreases es.len(),
{
    if es.len() == 0 {
        0
    } else {
        sum_cash(es.drop_last()) + cash_of(es.last())
    }
}

/// The cash one entity holds: an agent's cash, and zero for everything
/// else.
pub open spec fn cash_of(e: Entity) -> int {
    match e.ty {
        EntityType::Agent(a) => a.cash as int,
        _ => 0,
    }
}

/// Replacing one entity moves the total cash by the difference at that
/// slot.
pub proof fn lemma_sum_cash_update(es: Seq<Entity>, i: int, e: Entity)
    requires
        0 <= i < es.len(),
    ensures
        sum_cash(es.update(i, e)) == sum_cash(es) - cash_of(es[i]) + cash_of(e),
    decreases es.len(),
{
    let es2 = es.update(i, e);
    if i == es.len() - 1 {
        assert(es2.drop_last() =~= es.drop_last());
        assert(es2.last() == e);
    } else {
        assert(es2.drop_last() =~= es.drop_last().update(i, e));
        assert(es2.last() == es.last());
        lemma_sum_cash_update(es.drop_last(), i, e);
        assert(es.drop_last()[i] == es[i]);
    }
}

/// Raw coordinates reduced modulo the world size.
pub open spec fn wrap_xy(x: int, y: int, width: int, height: int) -> Pos {
    Pos { x: (x % width) as i16, y: (y % height) as i16 }
}

/// The entity search passes a tile by: the tile is empty, or its entity
/// can answer false to the predicate.
pub open spec fn entity_misses<F: Fn(&Entity) -> bool>(w: World, q: Pos, f: F) -> bool {
    w.tiles_entity@[w.idx_spec(q)] is None || f.ensures(
        (&w.entities@[w.tiles_entity@[w.idx_spec(q)]->0.as_index_spec()],),
        false,
    )
}

/// The offset of the k-th entry of [`World::neighbors`].
pub open spec fn neighbor_offset(k: int) -> (int, int) {
    if k == 0 {
        (-1, 1)
    } else if k == 1 {
        (0, 1)
    } else if k == 2 {
        (1, 1)
    } else if k == 3 {
        (-1, 0)
    } else if k == 4 {
        (1, 0)
    } else if k == 5 {
        (-1, -1)
    } else if k == 6 {
        (0, -1)
    } else {
        (1, -1)
    }
}

impl World {
    /// Every tile occupant is a proper reference: to an entity standing
    /// exactly on that tile; an agent so referenced is alive and outdoors,
    /// and a boat so referenced is parked.
    pub open spec fn tile_refs_ok(self) -> bool {
        forall|t: int|
            0 <= t < self.tiles_entity@.len() && (#[trigger] self.tiles_entity@[t]) is Some ==> {
                let id = self.tiles_entity@[t]->0;
                &&& id.wf()
                &&& id.as_index_spec() < self.entities@.len()
                &&& id == id_of(id.as_index_spec())
                &&& self.in_bounds(self.entities@[id.as_index_spec()].pos)
                &&& self.idx_spec(self.entities@[id.as_index_spec()].pos) == t
                &&& match self.entities@[id.as_index_spec()].ty {
                    EntityType::Agent(a) => !a.dead && !a.in_building,
                    EntityType::Building(b) => !(b is Boat) || is_parked_boat(
                        self.entities@[id.as_index_spec()],
                    ),
                    EntityType::Resource(_) => true,
                }
            }
    }

    /// What holds of entity `i` itself: positions on the grid, dead agents
    /// parked at the sentinel, live outdoor agents and live resources
    /// visible on their tile, agents inside a building standing on one,
    /// every hut owned and owning correctly, and every sailed boat sailed
    /// by exactly the fisher that holds its id.
    pub open spec fn entity_ok(self, i: int) -> bool {
        let e = self.entities@[i];
        match e.ty {
            EntityType::Agent(a) => {
                &&& (a.dead ==> e.pos == Pos { x: -1i16, y: -1i16 })
                &&& (!a.dead ==> self.in_bounds(e.pos))
                &&& (!a.dead && !a.in_building ==> self.tiles_entity@[self.idx_spec(e.pos)]
                    == Some(id_of(i)))
                &&& (!a.dead && a.in_building ==> {
                    let slot = self.tiles_entity@[self.idx_spec(e.pos)];
                    &&& slot is Some
                    &&& self.entities@[slot->0.as_index_spec()].ty is Building
                    &&& !(building_of(self.entities@[slot->0.as_index_spec()]) is Boat)
                    &&& (match building_of(self.entities@[slot->0.as_index_spec()]) {
                        Building::Hut { is_agent_in, agent } => agent == id_of(i) && is_agent_in,
                        _ => true,
                    })
                })
                &&& (!a.dead ==> a.inv(self))
                &&& (!a.dead ==> match a.job {
                    Job::Fisher { boat: Some(b) } => {
                        &&& b.wf()
                        &&& b.as_index_spec() < self.entities@.len()
                        &&& self.entities@[b.as_index_spec()].ty == EntityType::Building(
                            Building::Boat { has_agent: true },
                        )
                    },
                    _ => true,
                })
            },
            EntityType::Resource(res) => {
                &&& self.in_bounds(e.pos)
                &&& (res.amount > 0 ==> res.timeout == 0)
                &&& (res.timeout == 0 ==> self.tiles_entity@[self.idx_spec(e.pos)] == Some(
                    id_of(i),
                ))
            },
            EntityType::Building(b) => {
                &&& self.in_bounds(e.pos)
                &&& (!(b is Boat) ==> self.tiles_entity@[self.idx_spec(e.pos)] == Some(
                    id_of(i),
                ))
                &&& match b {
                    Building::Hut { is_agent_in, agent } => {
                        &&& agent.wf()
                        &&& agent.as_index_spec() < self.entities@.len()
                        &&& agent.as_index_spec() != i
                        &&& self.entities@[agent.as_index_spec()].ty is Agent
                        &&& agent_of(self.entities@[agent.as_index_spec()]).home == e.pos
                        &&& (is_agent_in ==> {
                            let ag = self.entities@[agent.as_index_spec()];
                            &&& !agent_of(ag).dead
                            &&& agent_of(ag).in_building
                            &&& ag.pos == e.pos
                        })
                    },
                    Building::Market => true,
                    Building::Boat { .. } => true,
                }
            },
        }
    }

    /// [`World::entity_ok`] for the whole store.
    pub open spec fn entities_ok(self) -> bool {
        forall|i: int| 0 <= i < self.entities@.len() ==> #[trigger] self.entity_ok(i)
    }

    /// No two live fishers sail the same boat.
    pub open spec fn boats_unique(self) -> bool {
        forall|i: int, j: int|
            0 <= i < self.entities@.len() && 0 <= j < self.entities@.len() && i != j
                && #[trigger] sails(self.entities@[i]) is Some && #[trigger] sails(
                self.entities@[j],
            ) is Some ==> sails(self.entities@[i]) != sails(self.entities@[j])
    }

    /// The market's own invariant, its configuration in step with the
    /// world's, and every order's seller an agent of the store.
    pub open spec fn market_ok(self) -> bool {
        &&& self.market.wf_books()
        &&& self.market.config == self.config
        &&& forall|it: ResourceItem, k: int|
            #![trigger self.market.orders.spec_get(it)@[k]]
            0 <= k < self.market.orders.spec_get(it)@.len() ==> {
                let o = self.market.orders.spec_get(it)@[k];
                &&& o.agent.as_index_spec() < self.entities@.len()
                &&& self.entities@[o.agent.as_index_spec()].ty is Agent
            }
    }

    /// The whole engine invariant, preserved by every tick.
    pub open spec fn wf(self) -> bool {
        &&& self.dims_ok()
        &&& self.config.wf()
        &&& self.entities@.len() + 1 < u32::MAX
        &&& self.tile_refs_ok()
        &&& self.entities_ok()
        &&& self.boats_unique()
        &&& self.market_ok()
        &&& sum_cash(self.entities@) <= u32::MAX
    }
}

/// Everything a single agent action leaves alone: the terrain, the grid
/// dimensions, the configuration and the clock.
pub open spec fn frame_eq(w0: World, w1: World) -> bool {
    &&& w1.tiles_type == w0.tiles_type
    &&& w1.config == w0.config
    &&& w1.width == w0.width
    &&& w1.height == w0.height
    &&& w1.tick == w0.tick
    &&& w1.is_running == w0.is_running
    &&& w1.alive_count == w0.alive_count
    &&& w1.start_count == w0.start_count
}

/// A move action can be applied: the agent stands outdoors and the target
/// tile is open to it.
pub open spec fn move_applicable(w: World, id: EntityId, p: Pos) -> bool {
    let a = agent_of(w.entities@[id.as_index_spec()]);
    &&& !a.in_building
    &&& w.in_bounds(p)
    &&& a.walk_ok(w, p)
}

/// The world after a move: the agent stands on `p`, its old tile is
/// cleared, and nothing else moved.
pub open spec fn move_post(w0: World, w1: World, id: EntityId, p: Pos) -> bool {
    let i = id.as_index_spec();
    let e0 = w0.entities@[i];
    &&& w1.entities@ == w0.entities@.update(i, Entity { pos: p, ty: e0.ty })
    &&& w1.tiles_entity@ == w0.tiles_entity@.update(w0.idx_spec(e0.pos), None).update(
        w0.idx_spec(p),
        Some(id),
    )
    &&& w1.market == w0.market
    &&& frame_eq(w0, w1)
}

/// The building after an agent entered it: a hut marks its owner inside;
/// a market keeps no record.
pub open spec fn entered_building(b: Building) -> Building {
    match b {
        Building::Hut { agent, .. } => Building::Hut { is_agent_in: true, agent },
        other => other,
    }
}

/// The building after an agent left it.
pub open spec fn left_building(b: Building) -> Building {
    match b {
        Building::Hut { agent, .. } => Building::Hut { is_agent_in: false, agent },
        other => other,
    }
}

/// An enter action can be applied: the agent stands outdoors, and the
/// target tile holds a hut of its own or a market.
pub open spec fn enter_applicable(w: World, id: EntityId, p: Pos) -> bool {
    let a = agent_of(w.entities@[id.as_index_spec()]);
    &&& !a.in_building
    &&& w.in_bounds(p)
    &&& w.tiles_entity@[w.idx_spec(p)] is Some
    &&& {
        let bi = w.tiles_entity@[w.idx_spec(p)]->0.as_index_spec();
        &&& w.entities@[bi].ty is Building
        &&& !(building_of(w.entities@[bi]) is Boat)
        &&& match building_of(w.entities@[bi]) {
            Building::Hut { agent, .. } => agent == id,
            _ => true,
        }
    }
}

/// The world after an enter: the agent disappears from its tile and stands
/// inside the building at `p`, which records it.
pub open spec fn enter_post(w0: World, w1: World, id: EntityId, p: Pos) -> bool {
    let i = id.as_index_spec();
    let e0 = w0.entities@[i];
    let a0 = agent_of(e0);
    let bi = w0.tiles_entity@[w0.idx_spec(p)]->0.as_index_spec();
    &&& w1.entities@ == w0.entities@.update(
        i,
        Entity { pos: p, ty: EntityType::Agent(Agent { in_building: true, ..a0 }) },
    ).update(
        bi,
        Entity {
            pos: w0.entities@[bi].pos,
            ty: EntityType::Building(entered_building(building_of(w0.entities@[bi]))),
        },
    )
    &&& w1.tiles_entity@ == w0.tiles_entity@.update(w0.idx_spec(e0.pos), None)
    &&& w1.market == w0.market
    &&& frame_eq(w0, w1)
}

/// A leave action can be applied: the agent stands inside a hut or market
/// and the target tile is open to it.
pub open spec fn leave_applicable(w: World, id: EntityId, p: Pos) -> bool {
    let i = id.as_index_spec();
    let e0 = w.entities@[i];
    let a = agent_of(e0);
    &&& a.in_building
    &&& w.in_bounds(p)
    &&& a.walk_ok(w, p)
    &&& w.tiles_entity@[w.idx_spec(e0.pos)] is Some
    &&& {
        let bi = w.tiles_entity@[w.idx_spec(e0.pos)]->0.as_index_spec();
        &&& w.entities@[bi].ty is Building
        &&& !(building_of(w.entities@[bi]) is Boat)
    }
}

/// The world after a leave: the agent stands on `p`, and the building it
/// was in records it gone.
pub open spec fn leave_post(w0: World, w1: World, id: EntityId, p: Pos) -> bool {
    let i = id.as_index_spec();
    let e0 = w0.entities@[i];
    let a0 = agent_of(e0);
    let bi = w0.tiles_entity@[w0.idx_spec(e0.pos)]->0.as_index_spec();
    &&& w1.entities@ == w0.entities@.update(
        i,
        Entity { pos: p, ty: EntityType::Agent(Agent { in_building: false, ..a0 }) },
    ).update(
        bi,
        Entity {
            pos: w0.entities@[bi].pos,
            ty: EntityType::Building(left_building(building_of(w0.entities@[bi]))),
        },
    )
    &&& w1.tiles_entity@ == w0.tiles_entity@.update(w0.idx_spec(p), Some(id))
    &&& w1.market == w0.market
    &&& frame_eq(w0, w1)
}

/// A boarding action can be applied: a fisher without a boat stands
/// outdoors next to a parked boat at `p`.
pub open spec fn enter_boat_applicable(w: World, id: EntityId, p: Pos) -> bool {
    let a = agent_of(w.entities@[id.as_index_spec()]);
    &&& !a.in_building
    &&& a.job == (Job::Fisher { boat: None })
    &&& w.in_bounds(p)
    &&& w.tiles_entity@[w.idx_spec(p)] is Some
    &&& w.entities@[w.tiles_entity@[w.idx_spec(p)]->0.as_index_spec()].ty is Building
    &&& building_of(w.entities@[w.tiles_entity@[w.idx_spec(p)]->0.as_index_spec()]) is Boat
}

/// The world after boarding: the fisher stands on the boat's tile holding
/// the boat's id, and the boat is off the map, marked sailed.
pub open spec fn enter_boat_post(w0: World, w1: World, id: EntityId, p: Pos) -> bool {
    let i = id.as_index_spec();
    let e0 = w0.entities@[i];
    let a0 = agent_of(e0);
    let bid = w0.tiles_entity@[w0.idx_spec(p)]->0;
    let bi = bid.as_index_spec();
    &&& w1.entities@ == w0.entities@.update(
        i,
        Entity {
            pos: p,
            ty: EntityType::Agent(Agent { job: Job::Fisher { boat: Some(bid) }, ..a0 }),
        },
    ).update(
        bi,
        Entity {
            pos: w0.entities@[bi].pos,
            ty: EntityType::Building(Building::Boat { has_agent: true }),
        },
    )
    &&& w1.tiles_entity@ == w0.tiles_entity@.update(w0.idx_spec(e0.pos), None).update(
        w0.idx_spec(p),
        Some(id),
    )
    &&& w1.market == w0.market
    &&& frame_eq(w0, w1)
}

/// A disembarking action can be applied: a fisher sailing a boat stands
/// outdoors, and the tile at `p` is open on foot.
pub open spec fn leave_boat_applicable(w: World, id: EntityId, p: Pos) -> bool {
    let a = agent_of(w.entities@[id.as_index_spec()]);
    &&& !a.in_building
    &&& a.job is Fisher
    &&& (match a.job {
        Job::Fisher { boat } => boat is Some,
        _ => false,
    })
    &&& w.in_bounds(p)
    &&& w.walkable_at(p)
}

/// The world after disembarking: the boat is parked on the tile the fisher
/// left it from, and the fisher stands on `p` without a boat.
pub open spec fn leave_boat_post(w0: World, w1: World, id: EntityId, p: Pos) -> bool {
    let i = id.as_index_spec();
    let e0 = w0.entities@[i];
    let a0 = agent_of(e0);
    let bid = match a0.job {
        Job::Fisher { boat: Some(b) } => b,
        _ => arbitrary(),
    };
    let bi = bid.as_index_spec();
    &&& w1.entities@ == w0.entities@.update(
        i,
        Entity { pos: p, ty: EntityType::Agent(Agent { job: Job::Fisher { boat: None }, ..a0 }) },
    ).update(
        bi,
        Entity { pos: e0.pos, ty: EntityType::Building(Building::Boat { has_agent: false }) },
    )
    &&& w1.tiles_entity@ == w0.tiles_entity@.update(w0.idx_spec(e0.pos), Some(bid)).update(
        w0.idx_spec(p),
        Some(id),
    )
    &&& w1.market == w0.market
    &&& frame_eq(w0, w1)
}

/// One agent equals another up to its cash: every other field agrees.
pub open spec fn agent_eq_but_cash(a0: Agent, a1: Agent) -> bool {
    a1 == Agent { cash: a1.cash, ..a0 }
}

/// Slot `j` keeps its kind, and an agent there keeps its position and
/// whole state but possibly its cash.
pub open spec fn agent_framed_at(es0: Seq<Entity>, es1: Seq<Entity>, j: int) -> bool {
    &&& (es0[j].ty is Agent <==> es1[j].ty is Agent)
    &&& (es0[j].ty is Agent ==> es1[j].pos == es0[j].pos && agent_eq_but_cash(
        agent_of(es0[j]),
        agent_of(es1[j]),
    ))
}

/// Applying one agent's action leaves every other slot's kind alone, and
/// every other agent entirely alone but for its cash (a sale can credit
/// it).
pub open spec fn agents_framed_except(es0: Seq<Entity>, es1: Seq<Entity>, i: int) -> bool {
    forall|j: int| 0 <= j < es0.len() && j != i ==> #[trigger] agent_framed_at(es0, es1, j)
}

/// The agents alive in a store.
pub open spec fn count_alive(es: Seq<Entity>) -> int
    decreases es.len(),
{
    if es.len() == 0 {
        0
    } else {
        count_alive(es.drop_last()) + match es.last().ty {
            EntityType::Agent(a) => if a.dead {
                0int
            } else {
                1int
            },
            _ => 0int,
        }
    }
}

/// A farm action can be applied: the target tile holds a resource stock.
pub open spec fn farm_applicable(w: World, id: EntityId, p: Pos) -> bool {
    &&& w.in_bounds(p)
    &&& w.tiles_entity@[w.idx_spec(p)] is Some
    &&& w.entities@[w.tiles_entity@[w.idx_spec(p)]->0.as_index_spec()].ty is Resource
}

/// The world after a farm: one unit moves from the stock into the farming
/// agent's inventory; a depleted stock yields nothing and changes nothing.
pub open spec fn farm_post(w0: World, w1: World, id: EntityId, p: Pos) -> bool {
    let i = id.as_index_spec();
    let ri = w0.tiles_entity@[w0.idx_spec(p)]->0.as_index_spec();
    let res = resource_of(w0.entities@[ri]);
    let a = agent_of(w0.entities@[i]);
    &&& (res.amount > 0 ==> w1.entities@ == w0.entities@.update(
        ri,
        Entity {
            pos: w0.entities@[ri].pos,
            ty: EntityType::Resource(Resource { amount: (res.amount - 1) as u16, ..res }),
        },
    ).update(
        i,
        Entity {
            pos: w0.entities@[i].pos,
            ty: EntityType::Agent(
                Agent {
                    inventory: a.inventory.spec_set(
                        res.resource,
                        crate::agent::sat_add_u32(a.inventory.spec_get(res.resource) as int, 1),
                    ),
                    ..a
                },
            ),
        },
    ))
    &&& (res.amount == 0 ==> w1.entities@ == w0.entities@)
    &&& w1.tiles_entity == w0.tiles_entity
    &&& w1.market == w0.market
    &&& frame_eq(w0, w1)
}

/// A sell order can be applied: something is offered and the seller holds
/// it.
pub open spec fn order_applicable(w: World, id: EntityId, item: ResourceItem, amount: u32) -> bool {
    &&& amount > 0
    &&& agent_of(w.entities@[id.as_index_spec()]).inventory.spec_get(item) >= amount
}

/// The world after placing a sell order: the seller's inventory is
/// debited and the order stands in its book at the position that keeps it
/// sorted; nothing else moves.
pub open spec fn order_post(
    w0: World,
    w1: World,
    id: EntityId,
    item: ResourceItem,
    price: u32,
    amount: u32,
) -> bool {
    let i = id.as_index_spec();
    let a = agent_of(w0.entities@[i]);
    &&& w1.entities@ == w0.entities@.update(
        i,
        Entity {
            pos: w0.entities@[i].pos,
            ty: EntityType::Agent(
                Agent {
                    inventory: a.inventory.spec_set(
                        item,
                        (a.inventory.spec_get(item) - amount) as u32,
                    ),
                    ..a
                },
            ),
        },
    )
    &&& crate::market::inserted_sorted(
        w0.market.orders.spec_get(item)@,
        w1.market.orders.spec_get(item)@,
        Order {
            cached_price: price,
            value: price,
            amount,
            agent: id,
            expiration: w0.config.default_exp,
            re_eval: w0.config.default_rval,
        },
    )
    &&& forall|it: ResourceItem|
        it != item ==> #[trigger] w1.market.orders.spec_get(it) == w0.market.orders.spec_get(it)
    &&& w1.market.market_price == w0.market.market_price
    &&& w1.market.market_demand == w0.market.market_demand
    &&& w1.market.config == w0.market.config
    &&& w1.tiles_entity == w0.tiles_entity
    &&& frame_eq(w0, w1)
}

/// The store after the sellers of a payment list are credited, in order;
/// a payment to anything but an agent slot is dropped.
pub open spec fn pay_sellers(es: Seq<Entity>, ps: Seq<(EntityId, u32)>) -> Seq<Entity>
    decreases ps.len(),
{
    if ps.len() == 0 {
        es
    } else {
        let j = ps[0].0.as_index_spec();
        let es1 = if 0 <= j < es.len() && es[j].ty is Agent {
            es.update(
                j,
                Entity {
                    pos: es[j].pos,
                    ty: EntityType::Agent(
                        Agent {
                            cash: crate::agent::sat_add_u32(
                                agent_of(es[j]).cash as int,
                                ps[0].1 as int,
                            ),
                            ..agent_of(es[j])
                        },
                    ),
                },
            )
        } else {
            es
        };
        pay_sellers(es1, ps.drop_first())
    }
}

/// The world after a market purchase: the book walked per [`buy_walk`]
/// against the buyer's cash, the buyer credited with the units bought and
/// debited by the payments' total, and each seller credited its payment.
pub open spec fn purchase_post(
    w0: World,
    w1: World,
    id: EntityId,
    item: ResourceItem,
    amount: u32,
) -> bool {
    let i = id.as_index_spec();
    let a0 = agent_of(w0.entities@[i]);
    let walk = crate::market::buy_walk(
        w0.market.orders.spec_get(item)@,
        amount as int,
        a0.cash as int,
        0,
    );
    let bought = Agent {
        inventory: a0.inventory.spec_set(
            item,
            crate::agent::sat_add_u32(a0.inventory.spec_get(item) as int, walk.3),
        ),
        cash: (a0.cash - crate::market::payments_total(walk.0)) as u32,
        ..a0
    };
    &&& w1.entities@ == pay_sellers(
        w0.entities@.update(i, Entity { pos: w0.entities@[i].pos, ty: EntityType::Agent(bought) }),
        walk.0,
    )
    &&& w1.market.orders.spec_get(item)@ == walk.2
    &&& forall|it: ResourceItem|
        it != item ==> #[trigger] w1.market.orders.spec_get(it) == w0.market.orders.spec_get(it)
    &&& w1.market.market_price == w0.market.market_price.spec_set(
        item,
        crate::market::ema_fold(
            w0.market.market_price.spec_get(item) as int,
            walk.1,
            w0.config.market_price_update as int,
        ) as u64,
    )
    &&& w1.market.market_demand == w0.market.market_demand.spec_set(
        item,
        crate::market::demand_fold(w0.market.market_demand.spec_get(item) as int, walk.1) as u32,
    )
    &&& w1.market.config == w0.market.config
    &&& w1.tiles_entity == w0.tiles_entity
    &&& frame_eq(w0, w1)
}

/// Two stores that agree on slot kinds and agent liveness up to `k` hold
/// the same number of live agents in that prefix.
proof fn lemma_count_alive_prefix(es0: Seq<Entity>, es1: Seq<Entity>, k: int)
    requires
        0 <= k <= es0.len(),
        k <= es1.len(),
        forall|j: int|
            0 <= j < k ==> ((#[trigger] es0[j]).ty is Agent <==> es1[j].ty is Agent) && (es0[j].ty
                is Agent ==> agent_of(es0[j]).dead == agent_of(es1[j]).dead),
    ensures
        count_alive(es0.take(k)) == count_alive(es1.take(k)),
    decreases k,
{
    if k > 0 {
        lemma_count_alive_prefix(es0, es1, k - 1);
        assert(es0.take(k).drop_last() =~= es0.take(k - 1));
        assert(es1.take(k).drop_last() =~= es1.take(k - 1));
        assert(es0.take(k).last() == es0[k - 1]);
        assert(es1.take(k).last() == es1[k - 1]);
    } else {
        assert(es0.take(0) =~= Seq::<Entity>::empty());
        assert(es1.take(0) =~= Seq::<Entity>::empty());
    }
}

/// The market and the action frame are untouched.
pub open spec fn same_market_and_frame(w0: World, w1: World) -> bool {
    &&& w1.market == w0.market
    &&& frame_eq(w0, w1)
}

/// The boat a live fisher entity is sailing, if any.
pub open spec fn sails(e: Entity) -> Option<EntityId> {
    match e.ty {
        EntityType::Agent(a) => if !a.dead {
            match a.job {
                Job::Fisher { boat } => boat,
                _ => None,
            }
        } else {
            None
        },
        _ => None,
    }
}

impl World {
    /// Apply a move action: swap the agent's tile reference from its
    /// current tile to the target and update its position. A move whose
    /// preconditions do not hold is ignored; a correct decision phase
    /// never produces one.
    fn apply_move(&mut self, id: EntityId, p: Pos)
        requires
            old(self).wf(),
            id.wf(),
            id.as_index_spec() < old(self).entities@.len(),
            id == id_of(id.as_index_spec()),
            old(self).entities@[id.as_index_spec()].ty is Agent,
            !agent_of(old(self).entities@[id.as_index_spec()]).dead,
        ensures
            final(self).wf(),
            final(self).entities@.len() == old(self).entities@.len(),
            agents_framed_except(
                old(self).entities@,
                final(self).entities@,
                id.as_index_spec(),
            ),
            final(self).entities@[id.as_index_spec()].ty is Agent,
            !agent_of(final(self).entities@[id.as_index_spec()]).dead,
            move_applicable(*old(self), id, p) ==> move_post(*old(self), *final(self), id, p),
            !move_applicable(*old(self), id, p) ==> *final(self) == *old(self),
    {
        let i = id.as_index();
        let e = self.entities[i];
        let a = match e.ty {
            EntityType::Agent(ag) => ag,
            _ => {
                return ;
            },
        };
        proof {
            assert(self.entity_ok(i as int));
        }
        if a.in_building {
            return ;
        }
        let inb = 0 <= p.x && (p.x as usize) < self.width && 0 <= p.y && (p.y as usize)
            < self.height;
        if !inb {
            return ;
        }
        if !a.can_walk_on(p, self) {
            return ;
        }
        let cur = self.idx(e.pos);
        let tgt = self.idx(p);
        self.tiles_entity.set(cur, None);
        self.tiles_entity.set(tgt, Some(id));
        self.entities.set(i, Entity { pos: p, ty: e.ty });
        proof {
            let w0 = *old(self);
            let w1 = *self;
            let ii = i as int;
            w0.lemma_idx(e.pos);
            w0.lemma_idx(p);
            lemma_sum_cash_update(w0.entities@, ii, Entity { pos: p, ty: e.ty });
            assert(w1.tile_refs_ok()) by {
                assert forall|t: int|
                    0 <= t < w1.tiles_entity@.len() && (#[trigger] w1.tiles_entity@[t]) is Some
                        implies {
                    let tid = w1.tiles_entity@[t]->0;
                    &&& tid.wf()
                    &&& tid.as_index_spec() < w1.entities@.len()
                    &&& tid == id_of(tid.as_index_spec())
                    &&& w1.in_bounds(w1.entities@[tid.as_index_spec()].pos)
                    &&& w1.idx_spec(w1.entities@[tid.as_index_spec()].pos) == t
                    &&& match w1.entities@[tid.as_index_spec()].ty {
                        EntityType::Agent(ag) => !ag.dead && !ag.in_building,
                        EntityType::Building(b) => !(b is Boat) || is_parked_boat(
                            w1.entities@[tid.as_index_spec()],
                        ),
                        EntityType::Resource(_) => true,
                    }
                } by {
                    if t == w0.idx_spec(p) {
                        assert(w1.tiles_entity@[t] == Some(id));
                        assert(w1.entities@[id.as_index_spec()].pos == p);
                    } else if t == w0.idx_spec(e.pos) {
                    } else {
                        assert(w1.tiles_entity@[t] == w0.tiles_entity@[t]);
                        let tid = w1.tiles_entity@[t]->0;
                        // The old reference cannot be to the moving agent:
                        // its only reference was on its old tile.
                        if tid.as_index_spec() == ii {
                            assert(w0.idx_spec(w0.entities@[ii].pos) == t);
                            assert(false);
                        }
                        assert(w1.entities@[tid.as_index_spec()] == w0.entities@[
                            tid.as_index_spec()
                        ]);
                    }
                }
            }
            assert(w1.entities_ok()) by {
                assert forall|j: int| 0 <= j < w1.entities@.len() implies #[trigger] w1.entity_ok(
                    j,
                ) by {
                    assert(w0.entity_ok(j));
                    proof_idx_of_entity(w0, j);
                    if j == ii {
                        assert(w1.tiles_entity@[w1.idx_spec(p)] == Some(id_of(ii)));
                        assert(agent_of(w1.entities@[ii]) == a);
                        assert(a.inv(w0));
                        assert(a.inv(w1));
                        match a.job {
                            Job::Fisher { boat: Some(b) } => {
                                assert(w0.entities@[b.as_index_spec()].ty is Building);
                                assert(b.as_index_spec() != ii);
                                assert(w1.entities@[b.as_index_spec()] == w0.entities@[
                                    b.as_index_spec()
                                ]);
                            },
                            _ => {},
                        }
                    } else {
                        let ej = w0.entities@[j];
                        assert(w1.entities@[j] == ej);
                        assert(w1.entities@[j] == ej);
                        match ej.ty {
                            EntityType::Agent(ag) => {
                                if ag.dead {
                                    assert(w1.entity_ok(j));
                                }
                                if !ag.dead && !ag.in_building {
                                    assert(w0.tiles_entity@[w0.idx_spec(ej.pos)] == Some(
                                        id_of(j),
                                    ));
                                    assert(w0.idx_spec(ej.pos) != w0.idx_spec(e.pos));
                                    assert(w0.idx_spec(ej.pos) != w0.idx_spec(p));
                                } else if !ag.dead && ag.in_building {
                                    let slot0 = w0.tiles_entity@[w0.idx_spec(ej.pos)];
                                    assert(slot0 is Some);
                                    assert(w0.entities@[slot0->0.as_index_spec()].ty
                                        is Building);
                                    assert(w0.idx_spec(ej.pos) != w0.idx_spec(e.pos));
                                    assert(w0.idx_spec(ej.pos) != w0.idx_spec(p));
                                    assert(slot0->0.as_index_spec() != ii);
                                    assert(w1.entities@[slot0->0.as_index_spec()]
                                        == w0.entities@[slot0->0.as_index_spec()]);
                                }
                                if !ag.dead {
                                    assert(ag.inv(w1));
                                    match ag.job {
                                        Job::Fisher { boat: Some(b) } => {
                                            assert(w0.entities@[b.as_index_spec()].ty
                                                is Building);
                                            assert(b.as_index_spec() != ii);
                                            assert(w1.entities@[b.as_index_spec()]
                                                == w0.entities@[b.as_index_spec()]);
                                        },
                                        _ => {},
                                    }
                                }
                                assert(w1.entity_ok(j));
                            },
                            EntityType::Resource(res) => {
                                if res.timeout == 0 {
                                    assert(w0.tiles_entity@[w0.idx_spec(ej.pos)] == Some(
                                        id_of(j),
                                    ));
                                    assert(w0.idx_spec(ej.pos) != w0.idx_spec(e.pos));
                                    assert(w0.idx_spec(ej.pos) != w0.idx_spec(p));
                                }
                                assert(w1.entity_ok(j));
                            },
                            EntityType::Building(b) => {
                                match b {
                                    Building::Hut { is_agent_in, agent } => {
                                        assert(agent.as_index_spec() != ii
                                            || w0.entities@[agent.as_index_spec()]
                                            == w0.entities@[ii]);
                                        if agent.as_index_spec() == ii {
                                            // The moving agent is outdoors, so
                                            // it is not marked inside its hut,
                                            // and its home does not change.
                                            assert(!is_agent_in) by {
                                                if is_agent_in {
                                                    assert(agent_of(
                                                        w0.entities@[agent.as_index_spec()],
                                                    ).in_building);
                                                }
                                            }
                                            assert(agent_of(w1.entities@[ii]) == agent_of(
                                                w0.entities@[ii],
                                            ));
                                        }
                                    },
                                    _ => {},
                                }
                                assert(w1.entity_ok(j));
                            },
                        }
                    }
                }
            }
            assert(w1.boats_unique()) by {
                assert forall|x: int, y: int|
                    0 <= x < w1.entities@.len() && 0 <= y < w1.entities@.len() && x != y
                        && #[trigger] sails(w1.entities@[x]) is Some && #[trigger] sails(
                        w1.entities@[y],
                    ) is Some implies sails(w1.entities@[x]) != sails(w1.entities@[y]) by {
                    assert(sails(w1.entities@[x]) == sails(w0.entities@[x]));
                    assert(sails(w1.entities@[y]) == sails(w0.entities@[y]));
                }
            }
        }
    }

    /// Apply a consume action: the agent eats from its own inventory. A
    /// consume of a resource the agent does not hold is ignored.
    fn apply_consume(&mut self, id: EntityId, res: ResourceItem, q: u32)
        requires
            old(self).wf(),
            id.wf(),
            id.as_index_spec() < old(self).entities@.len(),
            old(self).entities@[id.as_index_spec()].ty is Agent,
            !agent_of(old(self).entities@[id.as_index_spec()]).dead,
        ensures
            final(self).wf(),
            final(self).entities@.len() == old(self).entities@.len(),
            agents_framed_except(
                old(self).entities@,
                final(self).entities@,
                id.as_index_spec(),
            ),
            final(self).entities@[id.as_index_spec()].ty is Agent,
            !agent_of(final(self).entities@[id.as_index_spec()]).dead,
            frame_eq(*old(self), *final(self)),
            final(self).tiles_entity == old(self).tiles_entity,
            final(self).market == old(self).market,
            ({
                let i = id.as_index_spec();
                let a0 = agent_of(old(self).entities@[i]);
                if a0.inventory.spec_get(res) > 0 {
                    &&& final(self).entities@ == old(self).entities@.update(
                        i,
                        Entity {
                            pos: old(self).entities@[i].pos,
                            ty: EntityType::Agent(
                                crate::agent::consumed_agent(a0, res, q as int, old(self).config),
                            ),
                        },
                    )
                    &&& same_but_entities(*old(self), *final(self))
                } else {
                    *final(self) == *old(self)
                }
            }),
    {
        let i = id.as_index();
        let e = self.entities[i];
        let mut a = match e.ty {
            EntityType::Agent(ag) => ag,
            _ => {
                return ;
            },
        };
        if *a.inventory.get(res) == 0 {
            return ;
        }
        proof {
            assert(self.entity_ok(i as int));
        }
        let config = self.config;
        a.consume(res, q, &config);
        self.entities.set(i, Entity { pos: e.pos, ty: EntityType::Agent(a) });
        proof {
            let w0 = *old(self);
            let ii = i as int;
            lemma_sum_cash_update(w0.entities@, ii, Entity { pos: e.pos, ty: EntityType::Agent(a) });
            lemma_wf_agent_update(w0, *self, ii, a);
        }
    }

    /// Apply a farm action: take one unit out of the stock at `p` and put
    /// the produced item into the agent's inventory. Farming anything but a
    /// resource tile is ignored; farming an empty stock yields nothing.
    fn apply_farm(&mut self, id: EntityId, p: Pos)
        requires
            old(self).wf(),
            id.wf(),
            id.as_index_spec() < old(self).entities@.len(),
            old(self).entities@[id.as_index_spec()].ty is Agent,
            !agent_of(old(self).entities@[id.as_index_spec()]).dead,
        ensures
            final(self).wf(),
            same_but_entities(*old(self), *final(self)),
            final(self).entities@.len() == old(self).entities@.len(),
            agents_framed_except(
                old(self).entities@,
                final(self).entities@,
                id.as_index_spec(),
            ),
            final(self).entities@[id.as_index_spec()].ty is Agent,
            !agent_of(final(self).entities@[id.as_index_spec()]).dead,
            farm_applicable(*old(self), id, p) ==> farm_post(*old(self), *final(self), id, p),
            !farm_applicable(*old(self), id, p) ==> *final(self) == *old(self),
    {
        let i = id.as_index();
        let inb = 0 <= p.x && (p.x as usize) < self.width && 0 <= p.y && (p.y as usize)
            < self.height;
        if !inb {
            return ;
        }
        let t = self.idx(p);
        let rid = match self.tiles_entity[t] {
            Some(r) => r,
            None => {
                return ;
            },
        };
        let ri = rid.as_index();
        let re = self.entities[ri];
        let mut res = match re.ty {
            EntityType::Resource(r) => r,
            _ => {
                return ;
            },
        };
        proof {
            assert(self.entity_ok(ri as int));
        }
        let ghost res0 = res;
        let farmed = res.farm();
        let ghost w0 = *old(self);
        self.entities.set(ri, Entity { pos: re.pos, ty: EntityType::Resource(res) });
        proof {
            lemma_wf_resource_update(
                w0,
                *self,
                ri as int,
                res,
            );
        }
        if let Some(item) = farmed {
            let e = self.entities[i];
            let mut a = match e.ty {
                EntityType::Agent(ag) => ag,
                _ => {
                    proof {
                        assert(false);
                    }
                    return ;
                },
            };
            proof {
                assert(self.entity_ok(i as int));
                assert(agent_of(self.entities@[i as int]) == a);
            }
            let ghost a0 = a;
            a.collect(item, 1);
            let ghost w1 = *self;
            self.entities.set(i, Entity { pos: e.pos, ty: EntityType::Agent(a) });
            proof {
                let ii = i as int;
                lemma_sum_cash_update(
                    w1.entities@,
                    ii,
                    Entity { pos: e.pos, ty: EntityType::Agent(a) },
                );
                lemma_wf_agent_update(w1, *self, ii, a);
                // The two writes are exactly the stock decrement and the
                // inventory credit of the farm relation.
                assert(item == res0.resource);
                assert(res == Resource { amount: (res0.amount - 1) as u16, ..res0 });
                assert(a == Agent {
                    inventory: a0.inventory.spec_set(
                        res0.resource,
                        crate::agent::sat_add_u32(a0.inventory.spec_get(res0.resource) as int, 1),
                    ),
                    ..a0
                });
                assert(farm_post(w0, *self, id, p));
            }
        } else {
            proof {
                assert(res0.amount == 0);
                assert(res == res0);
                assert(Entity { pos: re.pos, ty: EntityType::Resource(res) } == w0.entities@[
                    ri as int
                ]);
                assert(self.entities@ =~= w0.entities@);
                assert(farm_post(w0, *self, id, p));
            }
        }
    }

    /// Apply a market order action: debit the agent's inventory and place
    /// the order on the book. An order for more than the agent holds is
    /// ignored.
    fn apply_market_order(&mut self, id: EntityId, item: ResourceItem, price: u32, amount: u32)
        requires
            old(self).wf(),
            id.wf(),
            id.as_index_spec() < old(self).entities@.len(),
            old(self).entities@[id.as_index_spec()].ty is Agent,
            !agent_of(old(self).entities@[id.as_index_spec()]).dead,
        ensures
            final(self).wf(),
            final(self).entities@.len() == old(self).entities@.len(),
            agents_framed_except(
                old(self).entities@,
                final(self).entities@,
                id.as_index_spec(),
            ),
            final(self).entities@[id.as_index_spec()].ty is Agent,
            !agent_of(final(self).entities@[id.as_index_spec()]).dead,
            order_applicable(*old(self), id, item, amount) ==> order_post(
                *old(self),
                *final(self),
                id,
                item,
                price,
                amount,
            ),
            !order_applicable(*old(self), id, item, amount) ==> *final(self) == *old(self),
            final(self).tiles_entity == old(self).tiles_entity,
            frame_eq(*old(self), *final(self)),
    {
        let i = id.as_index();
        let e = self.entities[i];
        let mut a = match e.ty {
            EntityType::Agent(ag) => ag,
            _ => {
                return ;
            },
        };
        if amount == 0 {
            return ;
        }
        if *a.inventory.get(item) < amount {
            return ;
        }
        proof {
            assert(self.entity_ok(i as int));
        }
        let held = *a.inventory.get(item);
        a.inventory.set(item, held - amount);
        let ghost w0 = *old(self);
        self.entities.set(i, Entity { pos: e.pos, ty: EntityType::Agent(a) });
        proof {
            let ii = i as int;
            lemma_sum_cash_update(w0.entities@, ii, Entity { pos: e.pos, ty: EntityType::Agent(a) });
            lemma_wf_agent_update(w0, *self, ii, a);
        }
        let ghost w1 = *self;
        self.market.order(id, item, price, amount);
        proof {
            let w2 = *self;
            assert(w2.tile_refs_ok()) by {
                assert(w2.tiles_entity == w1.tiles_entity);
                assert(w2.entities == w1.entities);
                assert forall|t: int|
                    0 <= t < w2.tiles_entity@.len() && (#[trigger] w2.tiles_entity@[t]) is Some
                        implies {
                    let tid = w2.tiles_entity@[t]->0;
                    &&& tid.wf()
                    &&& tid.as_index_spec() < w2.entities@.len()
                    &&& tid == id_of(tid.as_index_spec())
                    &&& w2.in_bounds(w2.entities@[tid.as_index_spec()].pos)
                    &&& w2.idx_spec(w2.entities@[tid.as_index_spec()].pos) == t
                    &&& match w2.entities@[tid.as_index_spec()].ty {
                        EntityType::Agent(ag) => !ag.dead && !ag.in_building,
                        EntityType::Building(b) => !(b is Boat) || is_parked_boat(
                            w2.entities@[tid.as_index_spec()],
                        ),
                        EntityType::Resource(_) => true,
                    }
                } by {}
            }
            assert(w2.entities_ok()) by {
                assert forall|j: int| 0 <= j < w2.entities@.len() implies #[trigger] w2.entity_ok(
                    j,
                ) by {
                    assert(w1.entity_ok(j));
                    match w1.entities@[j].ty {
                        EntityType::Agent(ag) => {
                            if !ag.dead {
                                assert(ag.inv(w2));
                            }
                        },
                        _ => {},
                    }
                }
            }
            assert(w2.boats_unique()) by {
                assert forall|x: int, y: int|
                    0 <= x < w2.entities@.len() && 0 <= y < w2.entities@.len() && x != y
                        && #[trigger] sails(w2.entities@[x]) is Some && #[trigger] sails(
                        w2.entities@[y],
                    ) is Some implies sails(w2.entities@[x]) != sails(w2.entities@[y]) by {}
            }
            // The new book holds the old orders plus the fresh one, whose
            // seller is the acting agent.
            assert(w2.market_ok()) by {
                assert forall|it: ResourceItem, k: int|
                    #![trigger w2.market.orders.spec_get(it)@[k]]
                    0 <= k < w2.market.orders.spec_get(it)@.len() implies {
                    let o = w2.market.orders.spec_get(it)@[k];
                    &&& o.agent.as_index_spec() < w2.entities@.len()
                    &&& w2.entities@[o.agent.as_index_spec()].ty is Agent
                } by {
                    if it == item {
                        let os0 = w1.market.orders.spec_get(item)@;
                        let new_order = Order {
                            cached_price: price,
                            value: price,
                            amount,
                            agent: id,
                            expiration: w1.config.default_exp,
                            re_eval: w1.config.default_rval,
                        };
                        assert(crate::market::inserted_sorted(
                            os0,
                            w2.market.orders.spec_get(item)@,
                            new_order,
                        ));
                        let kk = choose|kk: int|
                            #![trigger os0.insert(kk, new_order)]
                            {
                                &&& 0 <= kk <= os0.len()
                                &&& w2.market.orders.spec_get(item)@ == os0.insert(kk, new_order)
                            };
                        let o = w2.market.orders.spec_get(it)@[k];
                        if k < kk {
                            assert(o == os0[k]);
                        } else if k == kk {
                            assert(o == new_order);
                        } else {
                            assert(o == os0[k - 1]);
                        }
                    } else {
                        assert(w2.market.orders.spec_get(it) == w1.market.orders.spec_get(it));
                    }
                }
            }
            assert(sum_cash(w2.entities@) == sum_cash(w1.entities@));
        }
    }

    /// Apply an enter action: clear the agent's tile and put it inside the
    /// building standing at `p`. Entering anything but a market or the
    /// agent's own hut is ignored.
    fn apply_enter(&mut self, id: EntityId, p: Pos)
        requires
            old(self).wf(),
            id.wf(),
            id.as_index_spec() < old(self).entities@.len(),
            id == id_of(id.as_index_spec()),
            old(self).entities@[id.as_index_spec()].ty is Agent,
            !agent_of(old(self).entities@[id.as_index_spec()]).dead,
        ensures
            final(self).wf(),
            final(self).entities@.len() == old(self).entities@.len(),
            agents_framed_except(
                old(self).entities@,
                final(self).entities@,
                id.as_index_spec(),
            ),
            final(self).entities@[id.as_index_spec()].ty is Agent,
            !agent_of(final(self).entities@[id.as_index_spec()]).dead,
            enter_applicable(*old(self), id, p) ==> enter_post(*old(self), *final(self), id, p),
            !enter_applicable(*old(self), id, p) ==> *final(self) == *old(self),
    {
        let i = id.as_index();
        let e = self.entities[i];
        let mut a = match e.ty {
            EntityType::Agent(ag) => ag,
            _ => {
                return ;
            },
        };
        proof {
            assert(self.entity_ok(i as int));
        }
        if a.in_building {
            return ;
        }
        let inb = 0 <= p.x && (p.x as usize) < self.width && 0 <= p.y && (p.y as usize)
            < self.height;
        if !inb {
            return ;
        }
        let t = self.idx(p);
        let bid = match self.tiles_entity[t] {
            Some(b) => b,
            None => {
                return ;
            },
        };
        let bi = bid.as_index();
        let be = self.entities[bi];
        let mut b = match be.ty {
            EntityType::Building(bb) => bb,
            _ => {
                return ;
            },
        };
        match b {
            Building::Boat { .. } => {
                return ;
            },
            Building::Hut { agent, .. } => {
                if !(agent == id) {
                    return ;
                }
            },
            Building::Market => {},
        }
        proof {
            assert(self.entity_ok(bi as int));
            assert(enter_applicable(*old(self), id, p));
        }
        let cur = self.idx(e.pos);
        self.tiles_entity.set(cur, None);
        a.in_building = true;
        self.entities.set(i, Entity { pos: p, ty: EntityType::Agent(a) });
        b.agent_enter(id);
        self.entities.set(bi, Entity { pos: be.pos, ty: EntityType::Building(b) });
        proof {
            let w0 = *old(self);
            let w1 = *self;
            let ii = i as int;
            let bii = bi as int;
            w0.lemma_idx(e.pos);
            w0.lemma_idx(p);
            w0.lemma_idx_inj(be.pos, p);
            lemma_sum_cash_update(w0.entities@, ii, Entity { pos: p, ty: EntityType::Agent(a) });
            lemma_sum_cash_update(
                w0.entities@.update(ii, Entity { pos: p, ty: EntityType::Agent(a) }),
                bii,
                Entity { pos: be.pos, ty: EntityType::Building(b) },
            );
            assert(w0.idx_spec(e.pos) != w0.idx_spec(p));
            assert(w1.tile_refs_ok()) by {
                assert forall|t2: int|
                    0 <= t2 < w1.tiles_entity@.len() && (#[trigger] w1.tiles_entity@[t2]) is Some
                        implies {
                    let tid = w1.tiles_entity@[t2]->0;
                    &&& tid.wf()
                    &&& tid.as_index_spec() < w1.entities@.len()
                    &&& tid == id_of(tid.as_index_spec())
                    &&& w1.in_bounds(w1.entities@[tid.as_index_spec()].pos)
                    &&& w1.idx_spec(w1.entities@[tid.as_index_spec()].pos) == t2
                    &&& match w1.entities@[tid.as_index_spec()].ty {
                        EntityType::Agent(ag) => !ag.dead && !ag.in_building,
                        EntityType::Building(b2) => !(b2 is Boat) || is_parked_boat(
                            w1.entities@[tid.as_index_spec()],
                        ),
                        EntityType::Resource(_) => true,
                    }
                } by {
                    let tid = w1.tiles_entity@[t2]->0;
                    assert(w1.tiles_entity@[t2] == w0.tiles_entity@[t2]);
                    if tid.as_index_spec() == ii {
                        assert(w0.idx_spec(w0.entities@[ii].pos) == t2);
                        assert(t2 == w0.idx_spec(e.pos));
                        assert(false);
                    } else if tid.as_index_spec() == bii {
                        assert(w1.entities@[bii].pos == be.pos);
                    } else {
                        assert(w1.entities@[tid.as_index_spec()] == w0.entities@[
                            tid.as_index_spec()
                        ]);
                    }
                }
            }
            assert(w1.entities_ok()) by {
                assert forall|j: int| 0 <= j < w1.entities@.len() implies #[trigger] w1.entity_ok(
                    j,
                ) by {
                    assert(w0.entity_ok(j));
                    proof_idx_of_entity(w0, j);
                    if j == ii {
                        assert(w1.tiles_entity@[w1.idx_spec(p)] == Some(bid));
                        assert(w1.entities@[bii].ty is Building);
                        assert(a.inv(w1));
                        match a.job {
                            Job::Fisher { boat: Some(bb) } => {
                                assert(w0.entities@[bb.as_index_spec()].ty is Building);
                                assert(building_of(w0.entities@[bb.as_index_spec()]) is Boat);
                                assert(bb.as_index_spec() != ii);
                                assert(bb.as_index_spec() != bii);
                                assert(w1.entities@[bb.as_index_spec()] == w0.entities@[
                                    bb.as_index_spec()
                                ]);
                            },
                            _ => {},
                        }
                        assert(w1.entity_ok(j));
                    } else if j == bii {
                        assert(w1.tiles_entity@[w1.idx_spec(be.pos)] == Some(bid));
                        match b {
                            Building::Hut { is_agent_in, agent } => {
                                assert(agent == id);
                                assert(be.pos == p);
                                assert(w1.entities@[ii].pos == p);
                                assert(!agent_of(w1.entities@[ii]).dead);
                                assert(agent_of(w1.entities@[ii]).in_building);
                                assert(agent_of(w1.entities@[ii]).home == agent_of(
                                    w0.entities@[ii],
                                ).home);
                            },
                            _ => {},
                        }
                        assert(w1.entity_ok(j));
                    } else {
                        let ej = w0.entities@[j];
                        assert(w1.entities@[j] == ej);
                        match ej.ty {
                            EntityType::Agent(ag) => {
                                if !ag.dead && !ag.in_building {
                                    assert(w0.tiles_entity@[w0.idx_spec(ej.pos)] == Some(
                                        id_of(j),
                                    ));
                                    assert(w0.idx_spec(ej.pos) != w0.idx_spec(e.pos));
                                } else if !ag.dead && ag.in_building {
                                    let slot0 = w0.tiles_entity@[w0.idx_spec(ej.pos)];
                                    assert(slot0 is Some);
                                    assert(w0.entities@[slot0->0.as_index_spec()].ty
                                        is Building);
                                    assert(w0.idx_spec(ej.pos) != w0.idx_spec(e.pos));
                                    assert(slot0->0.as_index_spec() != ii);
                                    if slot0->0.as_index_spec() == bii {
                                        assert(w1.entities@[bii].ty is Building);
                                    } else {
                                        assert(w1.entities@[slot0->0.as_index_spec()]
                                            == w0.entities@[slot0->0.as_index_spec()]);
                                    }
                                }
                                if !ag.dead {
                                    assert(ag.inv(w1));
                                    match ag.job {
                                        Job::Fisher { boat: Some(bb) } => {
                                            assert(w0.entities@[bb.as_index_spec()].ty
                                                is Building);
                                            assert(building_of(w0.entities@[bb.as_index_spec()])
                                                is Boat);
                                            assert(bb.as_index_spec() != ii);
                                            assert(bb.as_index_spec() != bii);
                                            assert(w1.entities@[bb.as_index_spec()]
                                                == w0.entities@[bb.as_index_spec()]);
                                        },
                                        _ => {},
                                    }
                                }
                                assert(w1.entity_ok(j));
                            },
                            EntityType::Resource(res) => {
                                if res.timeout == 0 {
                                    assert(w0.tiles_entity@[w0.idx_spec(ej.pos)] == Some(
                                        id_of(j),
                                    ));
                                    assert(w0.idx_spec(ej.pos) != w0.idx_spec(e.pos));
                                }
                                assert(w1.entity_ok(j));
                            },
                            EntityType::Building(b2) => {
                                if !(b2 is Boat) {
                                    assert(w0.tiles_entity@[w0.idx_spec(ej.pos)] == Some(
                                        id_of(j),
                                    ));
                                    assert(w0.idx_spec(ej.pos) != w0.idx_spec(e.pos));
                                }
                                match b2 {
                                    Building::Hut { is_agent_in, agent } => {
                                        if agent.as_index_spec() == ii {
                                            assert(!is_agent_in) by {
                                                if is_agent_in {
                                                    assert(agent_of(
                                                        w0.entities@[agent.as_index_spec()],
                                                    ).in_building);
                                                }
                                            }
                                            assert(agent_of(w1.entities@[ii]).home == agent_of(
                                                w0.entities@[ii],
                                            ).home);
                                        } else {
                                            assert(agent.as_index_spec() != bii);
                                            assert(w1.entities@[agent.as_index_spec()]
                                                == w0.entities@[agent.as_index_spec()]);
                                        }
                                    },
                                    _ => {},
                                }
                                assert(w1.entity_ok(j));
                            },
                        }
                    }
                }
            }
            assert(w1.boats_unique()) by {
                assert forall|x: int, y: int|
                    0 <= x < w1.entities@.len() && 0 <= y < w1.entities@.len() && x != y
                        && #[trigger] sails(w1.entities@[x]) is Some && #[trigger] sails(
                        w1.entities@[y],
                    ) is Some implies sails(w1.entities@[x]) != sails(w1.entities@[y]) by {
                    assert(sails(w1.entities@[x]) == sails(w0.entities@[x]));
                    assert(sails(w1.entities@[y]) == sails(w0.entities@[y]));
                }
            }
            assert(enter_post(w0, w1, id, p));
        }
    }

    /// Apply a leave action: take the agent out of the building it is in
    /// and stand it on `p`. A leave onto a blocked tile, or out of
    /// anything but a hut or market, is ignored.
    fn apply_leave(&mut self, id: EntityId, p: Pos)
        requires
            old(self).wf(),
            id.wf(),
            id.as_index_spec() < old(self).entities@.len(),
            id == id_of(id.as_index_spec()),
            old(self).entities@[id.as_index_spec()].ty is Agent,
            !agent_of(old(self).entities@[id.as_index_spec()]).dead,
        ensures
            final(self).wf(),
            final(self).entities@.len() == old(self).entities@.len(),
            agents_framed_except(
                old(self).entities@,
                final(self).entities@,
                id.as_index_spec(),
            ),
            final(self).entities@[id.as_index_spec()].ty is Agent,
            !agent_of(final(self).entities@[id.as_index_spec()]).dead,
            leave_applicable(*old(self), id, p) ==> leave_post(*old(self), *final(self), id, p),
            !leave_applicable(*old(self), id, p) ==> *final(self) == *old(self),
    {
        let i = id.as_index();
        let e = self.entities[i];
        let mut a = match e.ty {
            EntityType::Agent(ag) => ag,
            _ => {
                return ;
            },
        };
        proof {
            assert(self.entity_ok(i as int));
        }
        if !a.in_building {
            return ;
        }
        let inb = 0 <= p.x && (p.x as usize) < self.width && 0 <= p.y && (p.y as usize)
            < self.height;
        if !inb {
            return ;
        }
        if !a.can_walk_on(p, self) {
            return ;
        }
        let cur = self.idx(e.pos);
        let bid = match self.tiles_entity[cur] {
            Some(b) => b,
            None => {
                return ;
            },
        };
        let bi = bid.as_index();
        let be = self.entities[bi];
        let mut b = match be.ty {
            EntityType::Building(bb) => bb,
            _ => {
                return ;
            },
        };
        if let Building::Boat { .. } = b {
            return ;
        }
        proof {
            assert(self.entity_ok(bi as int));
            assert(leave_applicable(*old(self), id, p));
        }
        let tgt = self.idx(p);
        a.in_building = false;
        self.entities.set(i, Entity { pos: p, ty: EntityType::Agent(a) });
        self.tiles_entity.set(tgt, Some(id));
        b.agent_leave(id);
        self.entities.set(bi, Entity { pos: be.pos, ty: EntityType::Building(b) });
        proof {
            let w0 = *old(self);
            let w1 = *self;
            let ii = i as int;
            let bii = bi as int;
            w0.lemma_idx(e.pos);
            w0.lemma_idx(p);
            lemma_sum_cash_update(w0.entities@, ii, Entity { pos: p, ty: EntityType::Agent(a) });
            lemma_sum_cash_update(
                w0.entities@.update(ii, Entity { pos: p, ty: EntityType::Agent(a) }),
                bii,
                Entity { pos: be.pos, ty: EntityType::Building(b) },
            );
            assert(w0.idx_spec(e.pos) != w0.idx_spec(p));
            assert(w0.idx_spec(be.pos) == w0.idx_spec(e.pos));
            assert(w1.tile_refs_ok()) by {
                assert forall|t2: int|
                    0 <= t2 < w1.tiles_entity@.len() && (#[trigger] w1.tiles_entity@[t2]) is Some
                        implies {
                    let tid = w1.tiles_entity@[t2]->0;
                    &&& tid.wf()
                    &&& tid.as_index_spec() < w1.entities@.len()
                    &&& tid == id_of(tid.as_index_spec())
                    &&& w1.in_bounds(w1.entities@[tid.as_index_spec()].pos)
                    &&& w1.idx_spec(w1.entities@[tid.as_index_spec()].pos) == t2
                    &&& match w1.entities@[tid.as_index_spec()].ty {
                        EntityType::Agent(ag) => !ag.dead && !ag.in_building,
                        EntityType::Building(b2) => !(b2 is Boat) || is_parked_boat(
                            w1.entities@[tid.as_index_spec()],
                        ),
                        EntityType::Resource(_) => true,
                    }
                } by {
                    let tid = w1.tiles_entity@[t2]->0;
                    if t2 == w0.idx_spec(p) {
                        assert(w1.tiles_entity@[t2] == Some(id));
                        assert(w1.entities@[ii].pos == p);
                    } else {
                        assert(w1.tiles_entity@[t2] == w0.tiles_entity@[t2]);
                        if tid.as_index_spec() == ii {
                            // The leaving agent was in a building, so no tile
                            // referenced it.
                            assert(agent_of(w0.entities@[ii]).in_building);
                            assert(false);
                        } else if tid.as_index_spec() == bii {
                            assert(w1.entities@[bii].pos == be.pos);
                        } else {
                            assert(w1.entities@[tid.as_index_spec()] == w0.entities@[
                                tid.as_index_spec()
                            ]);
                        }
                    }
                }
            }
            assert(w1.entities_ok()) by {
                assert forall|j: int| 0 <= j < w1.entities@.len() implies #[trigger] w1.entity_ok(
                    j,
                ) by {
                    assert(w0.entity_ok(j));
                    proof_idx_of_entity(w0, j);
                    if j == ii {
                        assert(w1.tiles_entity@[w1.idx_spec(p)] == Some(id));
                        assert(a.inv(w1));
                        match a.job {
                            Job::Fisher { boat: Some(bb) } => {
                                assert(w0.entities@[bb.as_index_spec()].ty is Building);
                                assert(building_of(w0.entities@[bb.as_index_spec()]) is Boat);
                                assert(bb.as_index_spec() != ii);
                                assert(bb.as_index_spec() != bii);
                                assert(w1.entities@[bb.as_index_spec()] == w0.entities@[
                                    bb.as_index_spec()
                                ]);
                            },
                            _ => {},
                        }
                        assert(w1.entity_ok(j));
                    } else if j == bii {
                        assert(w0.idx_spec(be.pos) != w0.idx_spec(p));
                        assert(w1.tiles_entity@[w1.idx_spec(be.pos)] == Some(bid));
                        assert(w1.entity_ok(j));
                    } else {
                        let ej = w0.entities@[j];
                        assert(w1.entities@[j] == ej);
                        match ej.ty {
                            EntityType::Agent(ag) => {
                                if !ag.dead && !ag.in_building {
                                    assert(w0.tiles_entity@[w0.idx_spec(ej.pos)] == Some(
                                        id_of(j),
                                    ));
                                    assert(w0.idx_spec(ej.pos) != w0.idx_spec(p));
                                } else if !ag.dead && ag.in_building {
                                    let slot0 = w0.tiles_entity@[w0.idx_spec(ej.pos)];
                                    assert(slot0 is Some);
                                    assert(w0.entities@[slot0->0.as_index_spec()].ty
                                        is Building);
                                    assert(w0.idx_spec(ej.pos) != w0.idx_spec(p));
                                    assert(slot0->0.as_index_spec() != ii);
                                    if slot0->0.as_index_spec() == bii {
                                        assert(w1.entities@[bii].ty is Building);
                                    } else {
                                        assert(w1.entities@[slot0->0.as_index_spec()]
                                            == w0.entities@[slot0->0.as_index_spec()]);
                                    }
                                }
                                if !ag.dead {
                                    assert(ag.inv(w1));
                                    match ag.job {
                                        Job::Fisher { boat: Some(bb) } => {
                                            assert(w0.entities@[bb.as_index_spec()].ty
                                                is Building);
                                            assert(building_of(w0.entities@[bb.as_index_spec()])
                                                is Boat);
                                            assert(bb.as_index_spec() != ii);
                                            assert(bb.as_index_spec() != bii);
                                            assert(w1.entities@[bb.as_index_spec()]
                                                == w0.entities@[bb.as_index_spec()]);
                                        },
                                        _ => {},
                                    }
                                }
                                assert(w1.entity_ok(j));
                            },
                            EntityType::Resource(res) => {
                                if res.timeout == 0 {
                                    assert(w0.tiles_entity@[w0.idx_spec(ej.pos)] == Some(
                                        id_of(j),
                                    ));
                                    assert(w0.idx_spec(ej.pos) != w0.idx_spec(p));
                                }
                                assert(w1.entity_ok(j));
                            },
                            EntityType::Building(b2) => {
                                if !(b2 is Boat) {
                                    assert(w0.tiles_entity@[w0.idx_spec(ej.pos)] == Some(
                                        id_of(j),
                                    ));
                                    assert(w0.idx_spec(ej.pos) != w0.idx_spec(p));
                                }
                                match b2 {
                                    Building::Hut { is_agent_in, agent } => {
                                        if agent.as_index_spec() == ii {
                                            // Only the hut the agent stands in
                                            // can be marked occupied, and that
                                            // hut is the one being left.
                                            assert(!is_agent_in) by {
                                                if is_agent_in {
                                                    assert(ej.pos == w0.entities@[ii].pos);
                                                    assert(w0.tiles_entity@[w0.idx_spec(
                                                        ej.pos,
                                                    )] == Some(id_of(j)));
                                                    assert(j == bii);
                                                }
                                            }
                                            assert(agent_of(w1.entities@[ii]).home == agent_of(
                                                w0.entities@[ii],
                                            ).home);
                                        } else {
                                            assert(agent.as_index_spec() != bii || w0.entities@[
                                                agent.as_index_spec()
                                            ].ty is Agent);
                                            assert(agent.as_index_spec() != bii);
                                            assert(w1.entities@[agent.as_index_spec()]
                                                == w0.entities@[agent.as_index_spec()]);
                                        }
                                    },
                                    _ => {},
                                }
                                assert(w1.entity_ok(j));
                            },
                        }
                    }
                }
            }
            assert(w1.boats_unique()) by {
                assert forall|x: int, y: int|
                    0 <= x < w1.entities@.len() && 0 <= y < w1.entities@.len() && x != y
                        && #[trigger] sails(w1.entities@[x]) is Some && #[trigger] sails(
                        w1.entities@[y],
                    ) is Some implies sails(w1.entities@[x]) != sails(w1.entities@[y]) by {
                    assert(sails(w1.entities@[x]) == sails(w0.entities@[x]));
                    assert(sails(w1.entities@[y]) == sails(w0.entities@[y]));
                }
            }
            assert(leave_post(w0, w1, id, p));
        }
    }

    /// Apply a die action: clear the agent off the map (or out of its
    /// building), park it at the sentinel position and mark it dead. It
    /// will never act again.
    fn apply_die(&mut self, id: EntityId)
        requires
            old(self).wf(),
            id.wf(),
            id.as_index_spec() < old(self).entities@.len(),
            id == id_of(id.as_index_spec()),
            old(self).entities@[id.as_index_spec()].ty is Agent,
            !agent_of(old(self).entities@[id.as_index_spec()]).dead,
        ensures
            final(self).wf(),
            agent_of(final(self).entities@[id.as_index_spec()]).dead,
            final(self).entities@[id.as_index_spec()].pos == (Pos { x: -1i16, y: -1i16 }),
            final(self).entities@.len() == old(self).entities@.len(),
            agents_framed_except(
                old(self).entities@,
                final(self).entities@,
                id.as_index_spec(),
            ),
            final(self).entities@[id.as_index_spec()].ty is Agent,
            forall|t: int|
                0 <= t < final(self).tiles_entity@.len() ==> #[trigger] final(self).tiles_entity@[t] != Some(id),
            same_market_and_frame(*old(self), *final(self)),
    {
        let i = id.as_index();
        let e = self.entities[i];
        let mut a = match e.ty {
            EntityType::Agent(ag) => ag,
            _ => {
                return ;
            },
        };
        proof {
            assert(self.entity_ok(i as int));
        }
        let ghost w0 = *old(self);
        let ghost mut touched_b: Option<int> = None;
        if a.in_building {
            let cur = self.idx(e.pos);
            if let Some(bid) = self.tiles_entity[cur] {
                let bi = bid.as_index();
                let be = self.entities[bi];
                if let EntityType::Building(bb) = be.ty {
                    let mut b = bb;
                    match b {
                        Building::Boat { .. } => {},
                        _ => {
                            b.agent_leave(id);
                            self.entities.set(
                                bi,
                                Entity { pos: be.pos, ty: EntityType::Building(b) },
                            );
                            proof {
                                touched_b = Some(bi as int);
                                assert(self.entities@[bi as int].ty is Building);
                                lemma_sum_cash_update(
                                    w0.entities@,
                                    bi as int,
                                    Entity { pos: be.pos, ty: EntityType::Building(b) },
                                );
                            }
                        },
                    }
                }
            }
        } else {
            let cur = self.idx(e.pos);
            self.tiles_entity.set(cur, None);
        }
        let ghost wmid = *self;
        a.dead = true;
        self.entities.set(i, Entity { pos: Pos { x: -1, y: -1 }, ty: EntityType::Agent(a) });
        proof {
            let w1 = *self;
            let ii = i as int;
            w0.lemma_idx(e.pos);
            lemma_sum_cash_update(
                wmid.entities@,
                ii,
                Entity { pos: Pos { x: -1i16, y: -1i16 }, ty: EntityType::Agent(a) },
            );
            assert(w1.tile_refs_ok()) by {
                assert forall|t2: int|
                    0 <= t2 < w1.tiles_entity@.len() && (#[trigger] w1.tiles_entity@[t2]) is Some
                        implies {
                    let tid = w1.tiles_entity@[t2]->0;
                    &&& tid.wf()
                    &&& tid.as_index_spec() < w1.entities@.len()
                    &&& tid == id_of(tid.as_index_spec())
                    &&& w1.in_bounds(w1.entities@[tid.as_index_spec()].pos)
                    &&& w1.idx_spec(w1.entities@[tid.as_index_spec()].pos) == t2
                    &&& match w1.entities@[tid.as_index_spec()].ty {
                        EntityType::Agent(ag) => !ag.dead && !ag.in_building,
                        EntityType::Building(b2) => !(b2 is Boat) || is_parked_boat(
                            w1.entities@[tid.as_index_spec()],
                        ),
                        EntityType::Resource(_) => true,
                    }
                } by {
                    let tid = w1.tiles_entity@[t2]->0;
                    assert(w1.tiles_entity@[t2] == w0.tiles_entity@[t2]);
                    if tid.as_index_spec() == ii {
                        if agent_of(w0.entities@[ii]).in_building {
                            assert(false);
                        } else {
                            assert(t2 == w0.idx_spec(e.pos));
                            assert(false);
                        }
                    }
                    if touched_b == Some(tid.as_index_spec()) {
                        assert(w1.entities@[tid.as_index_spec()].pos == w0.entities@[
                            tid.as_index_spec()
                        ].pos);
                        assert(w1.entities@[tid.as_index_spec()].ty is Building);
                        assert(!(building_of(w1.entities@[tid.as_index_spec()]) is Boat));
                    }
                }
            }
            assert(w1.entities_ok()) by {
                assert forall|j: int| 0 <= j < w1.entities@.len() implies #[trigger] w1.entity_ok(
                    j,
                ) by {
                    assert(w0.entity_ok(j));
                    proof_idx_of_entity(w0, j);
                    if j == ii {
                        assert(agent_of(w1.entities@[ii]).dead);
                        assert(w1.entity_ok(j));
                    } else if touched_b == Some(j) {
                        // The hut or market the dying agent was in: its
                        // occupant mark is cleared, everything else as it
                        // was.
                        assert(w1.entities@[j].pos == w0.entities@[j].pos);
                        assert(w0.tiles_entity@[w0.idx_spec(w0.entities@[j].pos)] == Some(
                            id_of(j),
                        ));
                        match w1.entities@[j].ty {
                            EntityType::Building(b2) => {
                                match b2 {
                                    Building::Hut { is_agent_in, agent } => {
                                        assert(!is_agent_in);
                                        assert(agent.as_index_spec() != j);
                                        if agent.as_index_spec() == ii {
                                            assert(agent_of(w1.entities@[ii]).home == agent_of(
                                                w0.entities@[ii],
                                            ).home);
                                        } else {
                                            assert(w1.entities@[agent.as_index_spec()]
                                                == w0.entities@[agent.as_index_spec()]);
                                        }
                                    },
                                    _ => {},
                                }
                            },
                            _ => {
                                assert(false);
                            },
                        }
                        assert(w1.entity_ok(j));
                    } else {
                        let ej = w0.entities@[j];
                        assert(w1.entities@[j] == ej);
                        match ej.ty {
                            EntityType::Agent(ag) => {
                                if !ag.dead && !ag.in_building {
                                    assert(w0.tiles_entity@[w0.idx_spec(ej.pos)] == Some(
                                        id_of(j),
                                    ));
                                } else if !ag.dead && ag.in_building {
                                    let slot0 = w0.tiles_entity@[w0.idx_spec(ej.pos)];
                                    assert(slot0 is Some);
                                    assert(w0.entities@[slot0->0.as_index_spec()].ty
                                        is Building);
                                    assert(slot0->0.as_index_spec() != ii);
                                    assert(w1.entities@[slot0->0.as_index_spec()].ty
                                        is Building);
                                }
                                if !ag.dead {
                                    assert(ag.inv(w1));
                                    match ag.job {
                                        Job::Fisher { boat: Some(bb) } => {
                                            assert(w0.entities@[bb.as_index_spec()].ty
                                                is Building);
                                            assert(building_of(w0.entities@[bb.as_index_spec()])
                                                is Boat);
                                            assert(bb.as_index_spec() != ii);
                                            assert(touched_b != Some(bb.as_index_spec()));
                                            assert(w1.entities@[bb.as_index_spec()]
                                                == w0.entities@[bb.as_index_spec()]);
                                        },
                                        _ => {},
                                    }
                                }
                                assert(w1.entity_ok(j));
                            },
                            EntityType::Resource(_) => {
                                assert(w1.entity_ok(j));
                            },
                            EntityType::Building(b2) => {
                                match b2 {
                                    Building::Hut { is_agent_in, agent } => {
                                        if agent.as_index_spec() == ii {
                                            // A hut marked occupied stands
                                            // where its agent is; the agent's
                                            // building was notified, so this
                                            // hut is not still marked.
                                            if is_agent_in && agent_of(
                                                w0.entities@[ii],
                                            ).in_building {
                                                assert(ej.pos == w0.entities@[ii].pos);
                                                assert(w0.tiles_entity@[w0.idx_spec(ej.pos)]
                                                    == Some(id_of(j)));
                                                assert(touched_b == Some(j));
                                                assert(false);
                                            }
                                            if is_agent_in && !agent_of(
                                                w0.entities@[ii],
                                            ).in_building {
                                                assert(false);
                                            }
                                            assert(agent_of(w1.entities@[ii]).home == agent_of(
                                                w0.entities@[ii],
                                            ).home);
                                        } else {
                                            assert(w1.entities@[agent.as_index_spec()]
                                                == w0.entities@[agent.as_index_spec()]);
                                        }
                                    },
                                    _ => {},
                                }
                                assert(w1.entity_ok(j));
                            },
                        }
                    }
                }
            }
            assert(w1.boats_unique()) by {
                assert forall|x: int, y: int|
                    0 <= x < w1.entities@.len() && 0 <= y < w1.entities@.len() && x != y
                        && #[trigger] sails(w1.entities@[x]) is Some && #[trigger] sails(
                        w1.entities@[y],
                    ) is Some implies sails(w1.entities@[x]) != sails(w1.entities@[y]) by {
                    assert(sails(w1.entities@[x]) is Some ==> sails(w1.entities@[x]) == sails(
                        w0.entities@[x],
                    ));
                    assert(sails(w1.entities@[y]) is Some ==> sails(w1.entities@[y]) == sails(
                        w0.entities@[y],
                    ));
                }
            }
        }
    }

    /// Apply a boarding action: the fisher takes the boat off the map and
    /// stands on its tile. Boarding anything but a parked boat, or while
    /// already sailing, is ignored.
    fn apply_enter_boat(&mut self, id: EntityId, p: Pos)
        requires
            old(self).wf(),
            id.wf(),
            id.as_index_spec() < old(self).entities@.len(),
            id == id_of(id.as_index_spec()),
            old(self).entities@[id.as_index_spec()].ty is Agent,
            !agent_of(old(self).entities@[id.as_index_spec()]).dead,
        ensures
            final(self).wf(),
            final(self).entities@.len() == old(self).entities@.len(),
            agents_framed_except(
                old(self).entities@,
                final(self).entities@,
                id.as_index_spec(),
            ),
            final(self).entities@[id.as_index_spec()].ty is Agent,
            !agent_of(final(self).entities@[id.as_index_spec()]).dead,
            enter_boat_applicable(*old(self), id, p) ==> enter_boat_post(
                *old(self),
                *final(self),
                id,
                p,
            ),
            !enter_boat_applicable(*old(self), id, p) ==> *final(self) == *old(self),
    {
        let i = id.as_index();
        let e = self.entities[i];
        let mut a = match e.ty {
            EntityType::Agent(ag) => ag,
            _ => {
                return ;
            },
        };
        proof {
            assert(self.entity_ok(i as int));
        }
        if a.in_building {
            return ;
        }
        match a.job {
            Job::Fisher { boat: None } => {},
            _ => {
                return ;
            },
        }
        let inb = 0 <= p.x && (p.x as usize) < self.width && 0 <= p.y && (p.y as usize)
            < self.height;
        if !inb {
            return ;
        }
        let t = self.idx(p);
        let bid = match self.tiles_entity[t] {
            Some(b) => b,
            None => {
                return ;
            },
        };
        let bi = bid.as_index();
        let be = self.entities[bi];
        match be.ty {
            EntityType::Building(Building::Boat { .. }) => {},
            _ => {
                return ;
            },
        }
        proof {
            assert(self.entity_ok(bi as int));
            assert(enter_boat_applicable(*old(self), id, p));
            // A referenced boat is parked, so no live fisher sails it yet.
            assert(is_parked_boat(self.entities@[bi as int]));
        }
        let cur = self.idx(e.pos);
        self.tiles_entity.set(cur, None);
        self.tiles_entity.set(t, Some(id));
        a.job = Job::Fisher { boat: Some(bid) };
        self.entities.set(i, Entity { pos: p, ty: EntityType::Agent(a) });
        self.entities.set(
            bi,
            Entity { pos: be.pos, ty: EntityType::Building(Building::Boat { has_agent: true }) },
        );
        proof {
            let w0 = *old(self);
            let w1 = *self;
            let ii = i as int;
            let bii = bi as int;
            w0.lemma_idx(e.pos);
            w0.lemma_idx(p);
            lemma_sum_cash_update(w0.entities@, ii, Entity { pos: p, ty: EntityType::Agent(a) });
            lemma_sum_cash_update(
                w0.entities@.update(ii, Entity { pos: p, ty: EntityType::Agent(a) }),
                bii,
                Entity {
                    pos: be.pos,
                    ty: EntityType::Building(Building::Boat { has_agent: true }),
                },
            );
            assert(w0.idx_spec(e.pos) != w0.idx_spec(p));
            // No live fisher sails this boat in the old world.
            assert(forall|x: int|
                0 <= x < w0.entities@.len() ==> #[trigger] sails(w0.entities@[x]) != Some(bid))
                by {
                assert forall|x: int|
                    0 <= x < w0.entities@.len() implies #[trigger] sails(w0.entities@[x])
                        != Some(bid) by {
                    if sails(w0.entities@[x]) == Some(bid) {
                        assert(w0.entity_ok(x));
                        assert(w0.entities@[bii].ty == EntityType::Building(
                            Building::Boat { has_agent: true },
                        ));
                    }
                }
            }
            assert(w1.tile_refs_ok()) by {
                assert forall|t2: int|
                    0 <= t2 < w1.tiles_entity@.len() && (#[trigger] w1.tiles_entity@[t2]) is Some
                        implies {
                    let tid = w1.tiles_entity@[t2]->0;
                    &&& tid.wf()
                    &&& tid.as_index_spec() < w1.entities@.len()
                    &&& tid == id_of(tid.as_index_spec())
                    &&& w1.in_bounds(w1.entities@[tid.as_index_spec()].pos)
                    &&& w1.idx_spec(w1.entities@[tid.as_index_spec()].pos) == t2
                    &&& match w1.entities@[tid.as_index_spec()].ty {
                        EntityType::Agent(ag) => !ag.dead && !ag.in_building,
                        EntityType::Building(b2) => !(b2 is Boat) || is_parked_boat(
                            w1.entities@[tid.as_index_spec()],
                        ),
                        EntityType::Resource(_) => true,
                    }
                } by {
                    let tid = w1.tiles_entity@[t2]->0;
                    if t2 == w0.idx_spec(p) {
                        assert(w1.tiles_entity@[t2] == Some(id));
                        assert(w1.entities@[ii].pos == p);
                    } else if t2 == w0.idx_spec(e.pos) {
                    } else {
                        assert(w1.tiles_entity@[t2] == w0.tiles_entity@[t2]);
                        if tid.as_index_spec() == ii {
                            assert(w0.idx_spec(w0.entities@[ii].pos) == t2);
                            assert(false);
                        } else if tid.as_index_spec() == bii {
                            // The boat's only reference was its own tile.
                            assert(w0.idx_spec(w0.entities@[bii].pos) == t2);
                            assert(w0.idx_spec(be.pos) == w0.idx_spec(p));
                            assert(false);
                        } else {
                            assert(w1.entities@[tid.as_index_spec()] == w0.entities@[
                                tid.as_index_spec()
                            ]);
                        }
                    }
                }
            }
            assert(w1.entities_ok()) by {
                assert forall|j: int| 0 <= j < w1.entities@.len() implies #[trigger] w1.entity_ok(
                    j,
                ) by {
                    assert(w0.entity_ok(j));
                    proof_idx_of_entity(w0, j);
                    if j == ii {
                        assert(w1.tiles_entity@[w1.idx_spec(p)] == Some(id));
                        assert(a.inv(w1));
                        assert(w1.entities@[bii].ty == EntityType::Building(
                            Building::Boat { has_agent: true },
                        ));
                        assert(w1.entity_ok(j));
                    } else if j == bii {
                        assert(w1.entity_ok(j));
                    } else {
                        let ej = w0.entities@[j];
                        assert(w1.entities@[j] == ej);
                        match ej.ty {
                            EntityType::Agent(ag) => {
                                if !ag.dead && !ag.in_building {
                                    assert(w0.tiles_entity@[w0.idx_spec(ej.pos)] == Some(
                                        id_of(j),
                                    ));
                                    assert(w0.idx_spec(ej.pos) != w0.idx_spec(e.pos));
                                    assert(w0.idx_spec(ej.pos) != w0.idx_spec(p));
                                } else if !ag.dead && ag.in_building {
                                    let slot0 = w0.tiles_entity@[w0.idx_spec(ej.pos)];
                                    assert(slot0 is Some);
                                    assert(w0.entities@[slot0->0.as_index_spec()].ty
                                        is Building);
                                    assert(w0.idx_spec(ej.pos) != w0.idx_spec(e.pos));
                                    assert(w0.idx_spec(ej.pos) != w0.idx_spec(p));
                                    assert(slot0->0.as_index_spec() != ii);
                                    if slot0->0.as_index_spec() == bii {
                                        assert(w1.entities@[bii].ty is Building);
                                    } else {
                                        assert(w1.entities@[slot0->0.as_index_spec()]
                                            == w0.entities@[slot0->0.as_index_spec()]);
                                    }
                                }
                                if !ag.dead {
                                    assert(ag.inv(w1));
                                    match ag.job {
                                        Job::Fisher { boat: Some(bb) } => {
                                            assert(sails(w0.entities@[j]) == Some(bb));
                                            assert(bb != bid);
                                            assert(w0.entities@[bb.as_index_spec()].ty
                                                is Building);
                                            assert(bb.as_index_spec() != ii);
                                            assert(bb.as_index_spec() != bii);
                                            assert(w1.entities@[bb.as_index_spec()]
                                                == w0.entities@[bb.as_index_spec()]);
                                        },
                                        _ => {},
                                    }
                                }
                                assert(w1.entity_ok(j));
                            },
                            EntityType::Resource(res) => {
                                if res.timeout == 0 {
                                    assert(w0.tiles_entity@[w0.idx_spec(ej.pos)] == Some(
                                        id_of(j),
                                    ));
                                    assert(w0.idx_spec(ej.pos) != w0.idx_spec(e.pos));
                                    assert(w0.idx_spec(ej.pos) != w0.idx_spec(p));
                                }
                                assert(w1.entity_ok(j));
                            },
                            EntityType::Building(b2) => {
                                if !(b2 is Boat) {
                                    assert(w0.tiles_entity@[w0.idx_spec(ej.pos)] == Some(
                                        id_of(j),
                                    ));
                                    assert(w0.idx_spec(ej.pos) != w0.idx_spec(e.pos));
                                    assert(w0.idx_spec(ej.pos) != w0.idx_spec(p));
                                }
                                match b2 {
                                    Building::Hut { is_agent_in, agent } => {
                                        if agent.as_index_spec() == ii {
                                            assert(!is_agent_in) by {
                                                if is_agent_in {
                                                    assert(agent_of(
                                                        w0.entities@[agent.as_index_spec()],
                                                    ).in_building);
                                                }
                                            }
                                            assert(agent_of(w1.entities@[ii]).home == agent_of(
                                                w0.entities@[ii],
                                            ).home);
                                        } else {
                                            assert(agent.as_index_spec() != bii);
                                            assert(w1.entities@[agent.as_index_spec()]
                                                == w0.entities@[agent.as_index_spec()]);
                                        }
                                    },
                                    _ => {},
                                }
                                assert(w1.entity_ok(j));
                            },
                        }
                    }
                }
            }
            assert(w1.boats_unique()) by {
                assert forall|x: int, y: int|
                    0 <= x < w1.entities@.len() && 0 <= y < w1.entities@.len() && x != y
                        && #[trigger] sails(w1.entities@[x]) is Some && #[trigger] sails(
                        w1.entities@[y],
                    ) is Some implies sails(w1.entities@[x]) != sails(w1.entities@[y]) by {
                    if x != ii && y != ii {
                        assert(sails(w1.entities@[x]) == sails(w0.entities@[x]));
                        assert(sails(w1.entities@[y]) == sails(w0.entities@[y]));
                    } else if x == ii {
                        assert(sails(w1.entities@[ii]) == Some(bid));
                        assert(sails(w1.entities@[y]) == sails(w0.entities@[y]));
                        assert(sails(w0.entities@[y]) != Some(bid));
                    } else {
                        assert(sails(w1.entities@[ii]) == Some(bid));
                        assert(sails(w1.entities@[x]) == sails(w0.entities@[x]));
                        assert(sails(w0.entities@[x]) != Some(bid));
                    }
                }
            }
            assert(enter_boat_post(w0, w1, id, p));
        }
    }

    /// Apply a disembarking action: park the boat on the fisher's current
    /// tile and stand the fisher on `p`. Disembarking without a boat, or
    /// onto a blocked tile, is ignored.
    fn apply_leave_boat(&mut self, id: EntityId, p: Pos)
        requires
            old(self).wf(),
            id.wf(),
            id.as_index_spec() < old(self).entities@.len(),
            id == id_of(id.as_index_spec()),
            old(self).entities@[id.as_index_spec()].ty is Agent,
            !agent_of(old(self).entities@[id.as_index_spec()]).dead,
        ensures
            final(self).wf(),
            final(self).entities@.len() == old(self).entities@.len(),
            agents_framed_except(
                old(self).entities@,
                final(self).entities@,
                id.as_index_spec(),
            ),
            final(self).entities@[id.as_index_spec()].ty is Agent,
            !agent_of(final(self).entities@[id.as_index_spec()]).dead,
            leave_boat_applicable(*old(self), id, p) ==> leave_boat_post(
                *old(self),
                *final(self),
                id,
                p,
            ),
            !leave_boat_applicable(*old(self), id, p) ==> *final(self) == *old(self),
    {
        let i = id.as_index();
        let e = self.entities[i];
        let mut a = match e.ty {
            EntityType::Agent(ag) => ag,
            _ => {
                return ;
            },
        };
        proof {
            assert(self.entity_ok(i as int));
        }
        if a.in_building {
            return ;
        }
        let bid = match a.job {
            Job::Fisher { boat: Some(b) } => b,
            _ => {
                return ;
            },
        };
        let inb = 0 <= p.x && (p.x as usize) < self.width && 0 <= p.y && (p.y as usize)
            < self.height;
        if !inb {
            return ;
        }
        if !self.tile_is_walkable(p) {
            return ;
        }
        proof {
            assert(leave_boat_applicable(*old(self), id, p));
            assert(sails(old(self).entities@[i as int]) == Some(bid));
        }
        let bi = bid.as_index();
        let be = self.entities[bi];
        let cur = self.idx(e.pos);
        let tgt = self.idx(p);
        self.tiles_entity.set(cur, Some(bid));
        self.tiles_entity.set(tgt, Some(id));
        a.job = Job::Fisher { boat: None };
        self.entities.set(i, Entity { pos: p, ty: EntityType::Agent(a) });
        self.entities.set(
            bi,
            Entity { pos: e.pos, ty: EntityType::Building(Building::Boat { has_agent: false }) },
        );
        proof {
            let w0 = *old(self);
            let w1 = *self;
            let ii = i as int;
            let bii = bi as int;
            w0.lemma_idx(e.pos);
            w0.lemma_idx(p);
            lemma_sum_cash_update(w0.entities@, ii, Entity { pos: p, ty: EntityType::Agent(a) });
            lemma_sum_cash_update(
                w0.entities@.update(ii, Entity { pos: p, ty: EntityType::Agent(a) }),
                bii,
                Entity {
                    pos: e.pos,
                    ty: EntityType::Building(Building::Boat { has_agent: false }),
                },
            );
            assert(w0.idx_spec(e.pos) != w0.idx_spec(p));
            assert(bii != ii);
            assert(w1.tile_refs_ok()) by {
                assert forall|t2: int|
                    0 <= t2 < w1.tiles_entity@.len() && (#[trigger] w1.tiles_entity@[t2]) is Some
                        implies {
                    let tid = w1.tiles_entity@[t2]->0;
                    &&& tid.wf()
                    &&& tid.as_index_spec() < w1.entities@.len()
                    &&& tid == id_of(tid.as_index_spec())
                    &&& w1.in_bounds(w1.entities@[tid.as_index_spec()].pos)
                    &&& w1.idx_spec(w1.entities@[tid.as_index_spec()].pos) == t2
                    &&& match w1.entities@[tid.as_index_spec()].ty {
                        EntityType::Agent(ag) => !ag.dead && !ag.in_building,
                        EntityType::Building(b2) => !(b2 is Boat) || is_parked_boat(
                            w1.entities@[tid.as_index_spec()],
                        ),
                        EntityType::Resource(_) => true,
                    }
                } by {
                    let tid = w1.tiles_entity@[t2]->0;
                    if t2 == w0.idx_spec(p) {
                        assert(w1.tiles_entity@[t2] == Some(id));
                        assert(w1.entities@[ii].pos == p);
                    } else if t2 == w0.idx_spec(e.pos) {
                        assert(w1.tiles_entity@[t2] == Some(bid));
                        assert(bid == id_of(bii));
                        assert(w1.entities@[bii].pos == e.pos);
                        assert(is_parked_boat(w1.entities@[bii]));
                    } else {
                        assert(w1.tiles_entity@[t2] == w0.tiles_entity@[t2]);
                        if tid.as_index_spec() == ii {
                            assert(w0.idx_spec(w0.entities@[ii].pos) == t2);
                            assert(false);
                        } else if tid.as_index_spec() == bii {
                            // A sailed boat has no tile reference.
                            assert(match w0.entities@[bii].ty {
                                EntityType::Building(b2) => b2 is Boat && !is_parked_boat(
                                    w0.entities@[bii],
                                ),
                                _ => false,
                            });
                            assert(false);
                        } else {
                            assert(w1.entities@[tid.as_index_spec()] == w0.entities@[
                                tid.as_index_spec()
                            ]);
                        }
                    }
                }
            }
            assert(w1.entities_ok()) by {
                assert forall|j: int| 0 <= j < w1.entities@.len() implies #[trigger] w1.entity_ok(
                    j,
                ) by {
                    assert(w0.entity_ok(j));
                    proof_idx_of_entity(w0, j);
                    if j == ii {
                        assert(w1.tiles_entity@[w1.idx_spec(p)] == Some(id));
                        assert(a.inv(w1));
                        assert(w1.entity_ok(j));
                    } else if j == bii {
                        assert(w1.tiles_entity@[w1.idx_spec(e.pos)] == Some(bid));
                        assert(w1.entity_ok(j));
                    } else {
                        let ej = w0.entities@[j];
                        assert(w1.entities@[j] == ej);
                        match ej.ty {
                            EntityType::Agent(ag) => {
                                if !ag.dead && !ag.in_building {
                                    assert(w0.tiles_entity@[w0.idx_spec(ej.pos)] == Some(
                                        id_of(j),
                                    ));
                                    assert(w0.idx_spec(ej.pos) != w0.idx_spec(e.pos));
                                    assert(w0.idx_spec(ej.pos) != w0.idx_spec(p));
                                } else if !ag.dead && ag.in_building {
                                    let slot0 = w0.tiles_entity@[w0.idx_spec(ej.pos)];
                                    assert(slot0 is Some);
                                    assert(w0.entities@[slot0->0.as_index_spec()].ty
                                        is Building);
                                    assert(w0.idx_spec(ej.pos) != w0.idx_spec(e.pos));
                                    assert(w0.idx_spec(ej.pos) != w0.idx_spec(p));
                                    assert(slot0->0.as_index_spec() != ii);
                                    if slot0->0.as_index_spec() == bii {
                                        assert(!(building_of(
                                            w0.entities@[slot0->0.as_index_spec()],
                                        ) is Boat));
                                        assert(false);
                                    }
                                    assert(w1.entities@[slot0->0.as_index_spec()]
                                        == w0.entities@[slot0->0.as_index_spec()]);
                                }
                                if !ag.dead {
                                    assert(ag.inv(w1));
                                    match ag.job {
                                        Job::Fisher { boat: Some(bb) } => {
                                            assert(sails(w0.entities@[j]) == Some(bb));
                                            assert(sails(w0.entities@[ii]) == Some(bid));
                                            assert(bb != bid);
                                            assert(w0.entities@[bb.as_index_spec()].ty
                                                is Building);
                                            assert(bb.as_index_spec() != ii);
                                            assert(bb.as_index_spec() != bii);
                                            assert(w1.entities@[bb.as_index_spec()]
                                                == w0.entities@[bb.as_index_spec()]);
                                        },
                                        _ => {},
                                    }
                                }
                                assert(w1.entity_ok(j));
                            },
                            EntityType::Resource(res) => {
                                if res.timeout == 0 {
                                    assert(w0.tiles_entity@[w0.idx_spec(ej.pos)] == Some(
                                        id_of(j),
                                    ));
                                    assert(w0.idx_spec(ej.pos) != w0.idx_spec(e.pos));
                                    assert(w0.idx_spec(ej.pos) != w0.idx_spec(p));
                                }
                                assert(w1.entity_ok(j));
                            },
                            EntityType::Building(b2) => {
                                if !(b2 is Boat) {
                                    assert(w0.tiles_entity@[w0.idx_spec(ej.pos)] == Some(
                                        id_of(j),
                                    ));
                                    assert(w0.idx_spec(ej.pos) != w0.idx_spec(e.pos));
                                    assert(w0.idx_spec(ej.pos) != w0.idx_spec(p));
                                }
                                match b2 {
                                    Building::Hut { is_agent_in, agent } => {
                                        if agent.as_index_spec() == ii {
                                            assert(!is_agent_in) by {
                                                if is_agent_in {
                                                    assert(agent_of(
                                                        w0.entities@[agent.as_index_spec()],
                                                    ).in_building);
                                                }
                                            }
                                            assert(agent_of(w1.entities@[ii]).home == agent_of(
                                                w0.entities@[ii],
                                            ).home);
                                        } else {
                                            assert(agent.as_index_spec() != bii);
                                            assert(w1.entities@[agent.as_index_spec()]
                                                == w0.entities@[agent.as_index_spec()]);
                                        }
                                    },
                                    _ => {},
                                }
                                assert(w1.entity_ok(j));
                            },
                        }
                    }
                }
            }
            assert(w1.boats_unique()) by {
                assert forall|x: int, y: int|
                    0 <= x < w1.entities@.len() && 0 <= y < w1.entities@.len() && x != y
                        && #[trigger] sails(w1.entities@[x]) is Some && #[trigger] sails(
                        w1.entities@[y],
                    ) is Some implies sails(w1.entities@[x]) != sails(w1.entities@[y]) by {
                    assert(sails(w1.entities@[x]) is Some ==> sails(w1.entities@[x]) == sails(
                        w0.entities@[x],
                    ));
                    assert(sails(w1.entities@[y]) is Some ==> sails(w1.entities@[y]) == sails(
                        w0.entities@[y],
                    ));
                }
            }
            assert(leave_boat_post(w0, w1, id, p));
        }
    }

    /// Apply a market purchase: walk the book for the requested resource
    /// under the buyer's cash, credit the bought units to the buyer, and
    /// move the money to the sellers. Cash only moves between agents: the
    /// total across the store is unchanged.
    fn apply_market_purchase(&mut self, id: EntityId, item: ResourceItem, amount: u32)
        requires
            old(self).wf(),
            id.wf(),
            id.as_index_spec() < old(self).entities@.len(),
            id == id_of(id.as_index_spec()),
            old(self).entities@[id.as_index_spec()].ty is Agent,
            !agent_of(old(self).entities@[id.as_index_spec()]).dead,
        ensures
            final(self).wf(),
            sum_cash(final(self).entities@) == sum_cash(old(self).entities@),
            final(self).tiles_entity == old(self).tiles_entity,
            frame_eq(*old(self), *final(self)),
            final(self).entities@.len() == old(self).entities@.len(),
            agents_framed_except(
                old(self).entities@,
                final(self).entities@,
                id.as_index_spec(),
            ),
            final(self).entities@[id.as_index_spec()].ty is Agent,
            !agent_of(final(self).entities@[id.as_index_spec()]).dead,
            purchase_post(*old(self), *final(self), id, item, amount),
    {
        let i = id.as_index();
        let e = self.entities[i];
        let mut a = match e.ty {
            EntityType::Agent(ag) => ag,
            _ => {
                return ;
            },
        };
        proof {
            assert(self.entity_ok(i as int));
            lemma_sum_cash_nonneg(old(self).entities@);
        }
        let ghost w0 = *old(self);
        let ghost os0 = self.market.orders.spec_get(item)@;
        let (sellers, gained) = self.market.buy(item, amount, a.cash);
        proof {
            // The surviving orders still name agents of the store, so the
            // market invariant holds against the unchanged entities.
            crate::market::lemma_buy_walk_survivor_agents(
                os0,
                amount as int,
                a.cash as int,
                0,
            );
            crate::market::lemma_buy_walk_agents(os0, amount as int, a.cash as int, 0);
            crate::market::lemma_payments_total_nonneg(sellers@);
            assert(self.market_ok()) by {
                assert forall|it: ResourceItem, k: int|
                    #![trigger self.market.orders.spec_get(it)@[k]]
                    0 <= k < self.market.orders.spec_get(it)@.len() implies {
                    let o = self.market.orders.spec_get(it)@[k];
                    &&& o.agent.as_index_spec() < self.entities@.len()
                    &&& self.entities@[o.agent.as_index_spec()].ty is Agent
                } by {
                    if it == item {
                        let o = self.market.orders.spec_get(it)@[k];
                        let i0 = choose|i0: int| 0 <= i0 < os0.len() && os0[i0].agent == o.agent;
                        assert(w0.market.orders.spec_get(item)@[i0].agent == o.agent);
                    }
                }
            }
            assert(self.wf()) by {
                assert(self.tile_refs_ok()) by {
                    assert forall|t2: int|
                        0 <= t2 < self.tiles_entity@.len() && (#[trigger] self.tiles_entity@[
                            t2
                        ]) is Some implies {
                        let tid = self.tiles_entity@[t2]->0;
                        &&& tid.wf()
                        &&& tid.as_index_spec() < self.entities@.len()
                        &&& tid == id_of(tid.as_index_spec())
                        &&& self.in_bounds(self.entities@[tid.as_index_spec()].pos)
                        &&& self.idx_spec(self.entities@[tid.as_index_spec()].pos) == t2
                        &&& match self.entities@[tid.as_index_spec()].ty {
                            EntityType::Agent(ag) => !ag.dead && !ag.in_building,
                            EntityType::Building(b2) => !(b2 is Boat) || is_parked_boat(
                                self.entities@[tid.as_index_spec()],
                            ),
                            EntityType::Resource(_) => true,
                        }
                    } by {}
                }
                assert(self.entities_ok()) by {
                    assert forall|j: int| 0 <= j < self.entities@.len() implies
                        #[trigger] self.entity_ok(j) by {
                        assert(w0.entity_ok(j));
                        match w0.entities@[j].ty {
                            EntityType::Agent(ag) => {
                                if !ag.dead {
                                    assert(ag.inv(*self));
                                }
                            },
                            _ => {},
                        }
                    }
                }
                assert(self.boats_unique()) by {
                    assert forall|x: int, y: int|
                        0 <= x < self.entities@.len() && 0 <= y < self.entities@.len() && x != y
                            && #[trigger] sails(self.entities@[x]) is Some && #[trigger] sails(
                            self.entities@[y],
                        ) is Some implies sails(self.entities@[x]) != sails(
                        self.entities@[y],
                    ) by {}
                }
            }
        }
        // Total owed across all sellers; capped by the buyer's cash.
        let n = sellers.len();
        let mut total: u64 = 0;
        let mut k: usize = 0;
        while k < n
            invariant
                k <= n,
                n == sellers@.len(),
                total == crate::market::payments_total(sellers@.take(k as int)),
                crate::market::payments_total(sellers@) <= u32::MAX,
            decreases n - k,
        {
            proof {
                crate::market::lemma_take_payments_snoc(sellers@, k as int);
                lemma_payments_prefix_bound(sellers@, k as int + 1);
            }
            total = total + sellers[k].1 as u64;
            k = k + 1;
        }
        proof {
            assert(sellers@.take(n as int) =~= sellers@);
        }
        // Credit the buyer with what was bought and debit the total.
        let ghost a_before = a;
        a.collect(item, gained);
        a.cash = a.cash - total as u32;
        let ghost w1 = *self;
        self.entities.set(i, Entity { pos: e.pos, ty: EntityType::Agent(a) });
        proof {
            let ii = i as int;
            lemma_sum_cash_update(w1.entities@, ii, Entity { pos: e.pos, ty: EntityType::Agent(a) });
            lemma_wf_agent_update(w1, *self, ii, a);
            lemma_sum_cash_nonneg(self.entities@);
            // The buyer write is exactly the credit-and-debit of the
            // purchase relation.
            let walk = crate::market::buy_walk(os0, amount as int, a_before.cash as int, 0);
            assert(gained == walk.3);
            assert(sellers@ == walk.0);
            assert(a == Agent {
                inventory: a_before.inventory.spec_set(
                    item,
                    crate::agent::sat_add_u32(a_before.inventory.spec_get(item) as int, walk.3),
                ),
                cash: (a_before.cash - crate::market::payments_total(walk.0)) as u32,
                ..a_before
            });
        }
        let ghost es_base = self.entities@;
        let ghost sum_target = sum_cash(w0.entities@);
        // Pay every seller.
        let mut k2: usize = 0;
        proof {
            assert(agents_framed_except(old(self).entities@, self.entities@, i as int));
            assert(sellers@.skip(0) =~= sellers@);
        }
        while k2 < n
            invariant
                k2 <= n,
                n == sellers@.len(),
                self.wf(),
                self.tiles_entity == old(self).tiles_entity,
                frame_eq(*old(self), *self),
                self.entities@.len() == old(self).entities@.len(),
                agents_framed_except(old(self).entities@, self.entities@, i as int),
                i as int == id.as_index_spec(),
                (i as int) < self.entities@.len(),
                self.entities@[i as int].ty is Agent,
                !agent_of(self.entities@[i as int]).dead,
                crate::market::payments_total(sellers@) <= u32::MAX,
                forall|k3: int|
                    0 <= k3 < n ==> (#[trigger] sellers@[k3]).0.wf() && sellers@[
                        k3
                    ].0.as_index_spec() < self.entities@.len() && self.entities@[sellers@[
                        k3
                    ].0.as_index_spec()].ty is Agent,
                sum_cash(self.entities@) + crate::market::payments_total(
                    sellers@.skip(k2 as int),
                ) == sum_target,
                sum_target <= u32::MAX,
                pay_sellers(es_base, sellers@) == pay_sellers(
                    self.entities@,
                    sellers@.skip(k2 as int),
                ),
                self.market == w1.market,
            decreases n - k2,
        {
            proof {
                assert(sellers@.skip(k2 as int)[0] == sellers@[k2 as int]);
                assert(sellers@.skip(k2 as int).drop_first() =~= sellers@.skip(k2 as int + 1));
                crate::market::lemma_payments_total_nonneg(sellers@.skip(k2 as int + 1));
            }
            let sid = sellers[k2].0;
            let pay = sellers[k2].1;
            let si = sid.as_index();
            let se = self.entities[si];
            let mut sa = match se.ty {
                EntityType::Agent(ag) => ag,
                _ => {
                    proof {
                        assert(false);
                    }
                    return ;
                },
            };
            proof {
                lemma_cash_le_sum(self.entities@, si as int);
                lemma_sum_cash_nonneg(self.entities@);
            }
            sa.cash = sa.cash + pay;
            let ghost wbefore = *self;
            self.entities.set(si, Entity { pos: se.pos, ty: EntityType::Agent(sa) });
            proof {
                let sii = si as int;
                assert(wbefore.entity_ok(sii));
                lemma_sum_cash_update(
                    wbefore.entities@,
                    sii,
                    Entity { pos: se.pos, ty: EntityType::Agent(sa) },
                );
                lemma_wf_agent_update(wbefore, *self, sii, sa);
                assert forall|j: int|
                    0 <= j < old(self).entities@.len() && j != i as int implies
                    #[trigger] agent_framed_at(old(self).entities@, self.entities@, j) by {
                    assert(agent_framed_at(old(self).entities@, wbefore.entities@, j));
                    if j != sii {
                        assert(self.entities@[j] == wbefore.entities@[j]);
                    } else {
                        assert(agent_of(self.entities@[sii]) == Agent {
                            cash: sa.cash,
                            ..agent_of(wbefore.entities@[sii])
                        });
                    }
                }
                if sii == i as int {
                    assert(self.entities@[i as int].ty is Agent);
                    assert(agent_of(self.entities@[i as int]).dead == agent_of(
                        wbefore.entities@[i as int],
                    ).dead);
                } else {
                    assert(self.entities@[i as int] == wbefore.entities@[i as int]);
                }
                // One spec credit step matches the write just made.
                assert(Entity { pos: se.pos, ty: EntityType::Agent(sa) } == Entity {
                    pos: wbefore.entities@[sii].pos,
                    ty: EntityType::Agent(
                        Agent {
                            cash: crate::agent::sat_add_u32(
                                agent_of(wbefore.entities@[sii]).cash as int,
                                pay as int,
                            ),
                            ..agent_of(wbefore.entities@[sii])
                        },
                    ),
                });
                assert(pay_sellers(wbefore.entities@, sellers@.skip(k2 as int)) == pay_sellers(
                    self.entities@,
                    sellers@.skip(k2 as int + 1),
                ));
                assert forall|k3: int|
                    0 <= k3 < n implies (#[trigger] sellers@[k3]).0.wf() && sellers@[
                    k3
                ].0.as_index_spec() < self.entities@.len() && self.entities@[sellers@[
                    k3
                ].0.as_index_spec()].ty is Agent by {
                    if sellers@[k3].0.as_index_spec() == sii {
                    } else {
                        assert(self.entities@[sellers@[k3].0.as_index_spec()] == wbefore.entities@[
                            sellers@[k3].0.as_index_spec()
                        ]);
                    }
                }
            }
            k2 = k2 + 1;
        }
        proof {
            assert(sellers@.skip(n as int) =~= Seq::<(EntityId, u32)>::empty());
            assert(pay_sellers(self.entities@, Seq::<(EntityId, u32)>::empty())
                == self.entities@);
            assert(self.entities@ == pay_sellers(es_base, sellers@));
            let walk = crate::market::buy_walk(os0, amount as int, a_before.cash as int, 0);
            assert(self.market.orders.spec_get(item)@ == walk.2);
            assert(forall|it: ResourceItem|
                it != item ==> #[trigger] self.market.orders.spec_get(it)
                    == w0.market.orders.spec_get(it));
            assert(self.market.market_price == w0.market.market_price.spec_set(
                item,
                crate::market::ema_fold(
                    w0.market.market_price.spec_get(item) as int,
                    walk.1,
                    w0.config.market_price_update as int,
                ) as u64,
            ));
            assert(self.market.market_demand == w0.market.market_demand.spec_set(
                item,
                crate::market::demand_fold(
                    w0.market.market_demand.spec_get(item) as int,
                    walk.1,
                ) as u32,
            ));
            assert(purchase_post(*old(self), *self, id, item, amount));
        }
    }
}

impl World {
    /// Apply one agent action atomically against the world. Every action
    /// checks its own preconditions and ignores an action that violates
    /// them; a correct decision phase never produces one.
    pub fn apply_action(&mut self, id: EntityId, action: AgentAction)
        requires
            old(self).wf(),
            id.wf(),
            id.as_index_spec() < old(self).entities@.len(),
            id == id_of(id.as_index_spec()),
            old(self).entities@[id.as_index_spec()].ty is Agent,
            !agent_of(old(self).entities@[id.as_index_spec()]).dead,
        ensures
            final(self).wf(),
            final(self).entities@.len() == old(self).entities@.len(),
            agents_framed_except(
                old(self).entities@,
                final(self).entities@,
                id.as_index_spec(),
            ),
            final(self).entities@[id.as_index_spec()].ty is Agent,
            agent_of(final(self).entities@[id.as_index_spec()]).dead ==> action == AgentAction::Die,
            frame_eq(*old(self), *final(self)),
            match action {
                AgentAction::Enter(p) => {
                    &&& enter_applicable(*old(self), id, p) ==> enter_post(
                        *old(self),
                        *final(self),
                        id,
                        p,
                    )
                    &&& !enter_applicable(*old(self), id, p) ==> *final(self) == *old(self)
                },
                AgentAction::Leave(p) => {
                    &&& leave_applicable(*old(self), id, p) ==> leave_post(
                        *old(self),
                        *final(self),
                        id,
                        p,
                    )
                    &&& !leave_applicable(*old(self), id, p) ==> *final(self) == *old(self)
                },
                AgentAction::EnterBoat(p) => {
                    &&& enter_boat_applicable(*old(self), id, p) ==> enter_boat_post(
                        *old(self),
                        *final(self),
                        id,
                        p,
                    )
                    &&& !enter_boat_applicable(*old(self), id, p) ==> *final(self) == *old(self)
                },
                AgentAction::LeaveBoat(p) => {
                    &&& leave_boat_applicable(*old(self), id, p) ==> leave_boat_post(
                        *old(self),
                        *final(self),
                        id,
                        p,
                    )
                    &&& !leave_boat_applicable(*old(self), id, p) ==> *final(self) == *old(self)
                },
                AgentAction::Move(p) => {
                    &&& move_applicable(*old(self), id, p) ==> move_post(
                        *old(self),
                        *final(self),
                        id,
                        p,
                    )
                    &&& !move_applicable(*old(self), id, p) ==> *final(self) == *old(self)
                },
                AgentAction::MarketPurchase { item, amount } => sum_cash(
                    final(self).entities@,
                ) == sum_cash(old(self).entities@) && purchase_post(
                    *old(self),
                    *final(self),
                    id,
                    item,
                    amount,
                ),
                AgentAction::Die => agent_of(
                    final(self).entities@[id.as_index_spec()],
                ).dead && final(self).entities@[id.as_index_spec()].pos == (Pos {
                    x: -1i16,
                    y: -1i16,
                }) && forall|t: int|
                    0 <= t < final(self).tiles_entity@.len() ==> #[trigger] final(self).tiles_entity@[t] != Some(id),
                AgentAction::Farm(p) => {
                    &&& farm_applicable(*old(self), id, p) ==> farm_post(
                        *old(self),
                        *final(self),
                        id,
                        p,
                    )
                    &&& !farm_applicable(*old(self), id, p) ==> *final(self) == *old(self)
                },
                AgentAction::Consume(res, q) => ({
                    let i = id.as_index_spec();
                    let a0 = agent_of(old(self).entities@[i]);
                    if a0.inventory.spec_get(res) > 0 {
                        final(self).entities@ == old(self).entities@.update(
                            i,
                            Entity {
                                pos: old(self).entities@[i].pos,
                                ty: EntityType::Agent(
                                    crate::agent::consumed_agent(
                                        a0,
                                        res,
                                        q as int,
                                        old(self).config,
                                    ),
                                ),
                            },
                        ) && same_market_and_frame(*old(self), *final(self)) && final(self).tiles_entity == old(self).tiles_entity
                    } else {
                        *final(self) == *old(self)
                    }
                }),
                AgentAction::MarketOrder { item, price, amount } => {
                    &&& order_applicable(*old(self), id, item, amount) ==> order_post(
                        *old(self),
                        *final(self),
                        id,
                        item,
                        price,
                        amount,
                    )
                    &&& !order_applicable(*old(self), id, item, amount) ==> *final(self) == *old(self)
                },
                AgentAction::Idle => *final(self) == *old(self),
            },
    {
        match action {
            AgentAction::Idle => {},
            AgentAction::Move(p) => self.apply_move(id, p),
            AgentAction::Farm(p) => self.apply_farm(id, p),
            AgentAction::Enter(p) => self.apply_enter(id, p),
            AgentAction::Leave(p) => self.apply_leave(id, p),
            AgentAction::EnterBoat(p) => self.apply_enter_boat(id, p),
            AgentAction::LeaveBoat(p) => self.apply_leave_boat(id, p),
            AgentAction::Consume(res, q) => self.apply_consume(id, res, q),
            AgentAction::MarketOrder { item, price, amount } => self.apply_market_order(
                id,
                item,
                price,
                amount,
            ),
            AgentAction::MarketPurchase { item, amount } => self.apply_market_purchase(
                id,
                item,
                amount,
            ),
            AgentAction::Die => self.apply_die(id),
        }
    }

    /// Run the respawn bookkeeping of one depleted resource: clear it off
    /// the map, lie dormant for the configured time, and respawn with a
    /// fresh amount drawn by the host once its tile is free.
    fn step_resource<H: crate::host::SimHost>(&mut self, i: usize, host: &mut H)
        requires
            old(self).wf(),
            i < old(self).entities@.len(),
            old(self).entities@[i as int].ty is Resource,
        ensures
            final(self).wf(),
            final(self).entities@.len() == old(self).entities@.len(),
            agents_framed_except(old(self).entities@, final(self).entities@, i as int),
            final(self).entities@[i as int].ty is Resource,
            frame_eq(*old(self), *final(self)),
            final(self).market == old(self).market,
            ({
                // The respawn cycle: a stocked resource rests; depletion
                // starts the countdown and clears the tile; the countdown
                // ticks down; on its last tick the stock returns with a
                // host-drawn amount, only onto a free tile.
                let e = old(self).entities@[i as int];
                let res = resource_of(e);
                let t = old(self).idx_spec(e.pos);
                &&& (res.amount > 0 ==> *final(self) == *old(self))
                &&& (res.amount == 0 && res.timeout == 0 ==> final(self).entities@ == old(
                    self,
                ).entities@.update(
                    i as int,
                    Entity {
                        pos: e.pos,
                        ty: EntityType::Resource(
                            Resource { timeout: old(self).config.resource_timeout, ..res },
                        ),
                    },
                ) && final(self).tiles_entity@ == old(self).tiles_entity@.update(t, None))
                &&& (res.amount == 0 && res.timeout == 1 && old(self).tiles_entity@[t] is None
                    ==> {
                    &&& final(self).tiles_entity@ == old(self).tiles_entity@.update(
                        t,
                        Some(id_of(i as int)),
                    )
                    &&& final(self).entities@[i as int].ty is Resource
                    &&& resource_of(final(self).entities@[i as int]).timeout == 0
                    &&& resource_of(final(self).entities@[i as int]).resource == res.resource
                    &&& final(self).entities@[i as int].pos == e.pos
                    &&& final(self).entities@ == old(self).entities@.update(
                        i as int,
                        final(self).entities@[i as int],
                    )
                })
                &&& (res.amount == 0 && res.timeout == 1 && old(self).tiles_entity@[t] is Some
                    ==> *final(self) == *old(self))
                &&& (res.amount == 0 && res.timeout >= 2 ==> final(self).entities@ == old(
                    self,
                ).entities@.update(
                    i as int,
                    Entity {
                        pos: e.pos,
                        ty: EntityType::Resource(Resource { timeout: (res.timeout - 1) as u16, ..res }),
                    },
                ) && final(self).tiles_entity == old(self).tiles_entity)
            }),
    {
        let e = self.entities[i];
        let mut r = match e.ty {
            EntityType::Resource(rr) => rr,
            _ => {
                proof {
                    assert(false);
                }
                return ;
            },
        };
        proof {
            assert(self.entity_ok(i as int));
        }
        if r.available() != 0 {
            return ;
        }
        let ghost w0 = *old(self);
        if r.timeout == 0 {
            // Depleted: disappear and start the countdown.
            let cur = self.idx(e.pos);
            r.timeout = self.config.resource_timeout;
            self.tiles_entity.set(cur, None);
            self.entities.set(i, Entity { pos: e.pos, ty: EntityType::Resource(r) });
            proof {
                let w1 = *self;
                let ii = i as int;
                w0.lemma_idx(e.pos);
                lemma_sum_cash_update(
                    w0.entities@,
                    ii,
                    Entity { pos: e.pos, ty: EntityType::Resource(r) },
                );
                assert(w1.tile_refs_ok()) by {
                    assert forall|t2: int|
                        0 <= t2 < w1.tiles_entity@.len() && (#[trigger] w1.tiles_entity@[t2])
                            is Some implies {
                        let tid = w1.tiles_entity@[t2]->0;
                        &&& tid.wf()
                        &&& tid.as_index_spec() < w1.entities@.len()
                        &&& tid == id_of(tid.as_index_spec())
                        &&& w1.in_bounds(w1.entities@[tid.as_index_spec()].pos)
                        &&& w1.idx_spec(w1.entities@[tid.as_index_spec()].pos) == t2
                        &&& match w1.entities@[tid.as_index_spec()].ty {
                            EntityType::Agent(ag) => !ag.dead && !ag.in_building,
                            EntityType::Building(b2) => !(b2 is Boat) || is_parked_boat(
                                w1.entities@[tid.as_index_spec()],
                            ),
                            EntityType::Resource(_) => true,
                        }
                    } by {
                        let tid = w1.tiles_entity@[t2]->0;
                        assert(w1.tiles_entity@[t2] == w0.tiles_entity@[t2]);
                        if tid.as_index_spec() == i as int {
                            assert(w0.idx_spec(w0.entities@[i as int].pos) == t2);
                            assert(false);
                        } else {
                            assert(w1.entities@[tid.as_index_spec()] == w0.entities@[
                                tid.as_index_spec()
                            ]);
                        }
                    }
                }
                assert(w1.entities_ok()) by {
                    assert forall|j: int| 0 <= j < w1.entities@.len() implies
                        #[trigger] w1.entity_ok(j) by {
                        assert(w0.entity_ok(j));
                        proof_idx_of_entity(w0, j);
                        if j == i as int {
                            assert(w1.entity_ok(j));
                        } else {
                            let ej = w0.entities@[j];
                            assert(w1.entities@[j] == ej);
                            match ej.ty {
                                EntityType::Agent(ag) => {
                                    if !ag.dead && !ag.in_building {
                                        assert(w0.tiles_entity@[w0.idx_spec(ej.pos)] == Some(
                                            id_of(j),
                                        ));
                                        assert(w0.idx_spec(ej.pos) != w0.idx_spec(e.pos));
                                    } else if !ag.dead && ag.in_building {
                                        let slot0 = w0.tiles_entity@[w0.idx_spec(ej.pos)];
                                        assert(slot0 is Some);
                                        assert(w0.entities@[slot0->0.as_index_spec()].ty
                                            is Building);
                                        assert(w0.idx_spec(ej.pos) != w0.idx_spec(e.pos));
                                        assert(slot0->0.as_index_spec() != i as int);
                                        assert(w1.entities@[slot0->0.as_index_spec()]
                                            == w0.entities@[slot0->0.as_index_spec()]);
                                    }
                                    if !ag.dead {
                                        assert(ag.inv(w1));
                                        match ag.job {
                                            Job::Fisher { boat: Some(bb) } => {
                                                assert(w0.entities@[bb.as_index_spec()].ty
                                                    is Building);
                                                assert(bb.as_index_spec() != i as int);
                                                assert(w1.entities@[bb.as_index_spec()]
                                                    == w0.entities@[bb.as_index_spec()]);
                                            },
                                            _ => {},
                                        }
                                    }
                                    assert(w1.entity_ok(j));
                                },
                                EntityType::Resource(res2) => {
                                    if res2.timeout == 0 {
                                        assert(w0.tiles_entity@[w0.idx_spec(ej.pos)] == Some(
                                            id_of(j),
                                        ));
                                        assert(w0.idx_spec(ej.pos) != w0.idx_spec(e.pos));
                                    }
                                    assert(w1.entity_ok(j));
                                },
                                EntityType::Building(b2) => {
                                    if !(b2 is Boat) {
                                        assert(w0.tiles_entity@[w0.idx_spec(ej.pos)] == Some(
                                            id_of(j),
                                        ));
                                        assert(w0.idx_spec(ej.pos) != w0.idx_spec(e.pos));
                                    }
                                    match b2 {
                                        Building::Hut { agent, .. } => {
                                            assert(agent.as_index_spec() != i as int);
                                            assert(w1.entities@[agent.as_index_spec()]
                                                == w0.entities@[agent.as_index_spec()]);
                                        },
                                        _ => {},
                                    }
                                    assert(w1.entity_ok(j));
                                },
                            }
                        }
                    }
                }
                assert(w1.boats_unique()) by {
                    assert forall|x: int, y: int|
                        0 <= x < w1.entities@.len() && 0 <= y < w1.entities@.len() && x != y
                            && #[trigger] sails(w1.entities@[x]) is Some && #[trigger] sails(
                            w1.entities@[y],
                        ) is Some implies sails(w1.entities@[x]) != sails(w1.entities@[y]) by {
                        assert(sails(w1.entities@[x]) == sails(w0.entities@[x]));
                        assert(sails(w1.entities@[y]) == sails(w0.entities@[y]));
                    }
                }
            }
        } else if r.timeout == 1 {
            let cur = self.idx(e.pos);
            if self.tiles_entity[cur].is_none() {
                // The tile is free again: come back with a fresh stock.
                self.tiles_entity.set(cur, Some(EntityId::new(i)));
                r.timeout = 0;
                r.amount = host.respawn_amount();
                self.entities.set(i, Entity { pos: e.pos, ty: EntityType::Resource(r) });
                proof {
                    let w1 = *self;
                    let ii = i as int;
                    w0.lemma_idx(e.pos);
                    lemma_sum_cash_update(
                        w0.entities@,
                        ii,
                        Entity { pos: e.pos, ty: EntityType::Resource(r) },
                    );
                    assert(w1.tile_refs_ok()) by {
                        assert forall|t2: int|
                            0 <= t2 < w1.tiles_entity@.len() && (#[trigger] w1.tiles_entity@[t2])
                                is Some implies {
                            let tid = w1.tiles_entity@[t2]->0;
                            &&& tid.wf()
                            &&& tid.as_index_spec() < w1.entities@.len()
                            &&& tid == id_of(tid.as_index_spec())
                            &&& w1.in_bounds(w1.entities@[tid.as_index_spec()].pos)
                            &&& w1.idx_spec(w1.entities@[tid.as_index_spec()].pos) == t2
                            &&& match w1.entities@[tid.as_index_spec()].ty {
                                EntityType::Agent(ag) => !ag.dead && !ag.in_building,
                                EntityType::Building(b2) => !(b2 is Boat) || is_parked_boat(
                                    w1.entities@[tid.as_index_spec()],
                                ),
                                EntityType::Resource(_) => true,
                            }
                        } by {
                            let tid = w1.tiles_entity@[t2]->0;
                            if t2 == w0.idx_spec(e.pos) {
                                assert(w1.entities@[ii].pos == e.pos);
                            } else {
                                assert(w1.tiles_entity@[t2] == w0.tiles_entity@[t2]);
                                if tid.as_index_spec() == ii {
                                    assert(w0.idx_spec(w0.entities@[ii].pos) == t2);
                                    assert(false);
                                } else {
                                    assert(w1.entities@[tid.as_index_spec()] == w0.entities@[
                                        tid.as_index_spec()
                                    ]);
                                }
                            }
                        }
                    }
                    assert(w1.entities_ok()) by {
                        assert forall|j: int| 0 <= j < w1.entities@.len() implies
                            #[trigger] w1.entity_ok(j) by {
                            assert(w0.entity_ok(j));
                            proof_idx_of_entity(w0, j);
                            if j == ii {
                                assert(w1.tiles_entity@[w1.idx_spec(e.pos)] == Some(id_of(ii)));
                                assert(w1.entity_ok(j));
                            } else {
                                let ej = w0.entities@[j];
                                assert(w1.entities@[j] == ej);
                                match ej.ty {
                                    EntityType::Agent(ag) => {
                                        if !ag.dead && !ag.in_building {
                                            assert(w0.tiles_entity@[w0.idx_spec(ej.pos)]
                                                == Some(id_of(j)));
                                            assert(w0.idx_spec(ej.pos) != w0.idx_spec(e.pos));
                                        } else if !ag.dead && ag.in_building {
                                            let slot0 = w0.tiles_entity@[w0.idx_spec(ej.pos)];
                                            assert(slot0 is Some);
                                            assert(w0.entities@[slot0->0.as_index_spec()].ty
                                                is Building);
                                            assert(w0.idx_spec(ej.pos) != w0.idx_spec(e.pos));
                                            assert(slot0->0.as_index_spec() != ii);
                                            assert(w1.entities@[slot0->0.as_index_spec()]
                                                == w0.entities@[slot0->0.as_index_spec()]);
                                        }
                                        if !ag.dead {
                                            assert(ag.inv(w1));
                                            match ag.job {
                                                Job::Fisher { boat: Some(bb) } => {
                                                    assert(w0.entities@[bb.as_index_spec()].ty
                                                        is Building);
                                                    assert(bb.as_index_spec() != ii);
                                                    assert(w1.entities@[bb.as_index_spec()]
                                                        == w0.entities@[bb.as_index_spec()]);
                                                },
                                                _ => {},
                                            }
                                        }
                                        assert(w1.entity_ok(j));
                                    },
                                    EntityType::Resource(res2) => {
                                        if res2.timeout == 0 {
                                            assert(w0.tiles_entity@[w0.idx_spec(ej.pos)]
                                                == Some(id_of(j)));
                                            assert(w0.idx_spec(ej.pos) != w0.idx_spec(e.pos));
                                        }
                                        assert(w1.entity_ok(j));
                                    },
                                    EntityType::Building(b2) => {
                                        if !(b2 is Boat) {
                                            assert(w0.tiles_entity@[w0.idx_spec(ej.pos)]
                                                == Some(id_of(j)));
                                            assert(w0.idx_spec(ej.pos) != w0.idx_spec(e.pos));
                                        }
                                        match b2 {
                                            Building::Hut { agent, .. } => {
                                                assert(agent.as_index_spec() != ii);
                                                assert(w1.entities@[agent.as_index_spec()]
                                                    == w0.entities@[agent.as_index_spec()]);
                                            },
                                            _ => {},
                                        }
                                        assert(w1.entity_ok(j));
                                    },
                                }
                            }
                        }
                    }
                    assert(w1.boats_unique()) by {
                        assert forall|x: int, y: int|
                            0 <= x < w1.entities@.len() && 0 <= y < w1.entities@.len() && x != y
                                && #[trigger] sails(w1.entities@[x]) is Some && #[trigger] sails(
                                w1.entities@[y],
                            ) is Some implies sails(w1.entities@[x]) != sails(
                            w1.entities@[y],
                        ) by {
                            assert(sails(w1.entities@[x]) == sails(w0.entities@[x]));
                            assert(sails(w1.entities@[y]) == sails(w0.entities@[y]));
                        }
                    }
                }
            }
        } else {
            r.timeout = r.timeout - 1;
            self.entities.set(i, Entity { pos: e.pos, ty: EntityType::Resource(r) });
            proof {
                lemma_wf_resource_update(w0, *self, i as int, r);
            }
        }
    }
}

impl World {
    /// Advance the whole world by one tick: step the market, step every
    /// entity in insertion order applying each agent's action atomically,
    /// and advance the clock. The engine invariant is preserved.
    pub fn step_once<H: crate::host::SimHost>(
        &mut self,
        rng: &mut rand::rngs::StdRng,
        host: &mut H,
    )
        requires
            old(self).wf(),
            old(self).tick < u32::MAX,
        ensures
            final(self).wf(),
            final(self).tick == old(self).tick + 1,
            final(self).entities@.len() == old(self).entities@.len(),
            final(self).tiles_type == old(self).tiles_type,
            final(self).config == old(self).config,
            final(self).width == old(self).width,
            final(self).height == old(self).height,
            final(self).is_running == old(self).is_running,
            final(self).start_count == old(self).start_count,
            final(self).market.config == old(self).config,
            forall|j: int|
                0 <= j < old(self).entities@.len() && (#[trigger] old(self).entities@[j]).ty
                    is Agent ==> final(self).entities@[j].ty is Agent && (agent_of(
                    old(self).entities@[j],
                ).dead ==> agent_of(final(self).entities@[j]).dead),
            forall|j: int|
                0 <= j < old(self).entities@.len() && (#[trigger] old(self).entities@[j]).ty
                    is Agent && !agent_of(old(self).entities@[j]).dead && agent_of(
                    old(self).entities@[j],
                ).energy <= old(self).config.energy_cost ==> agent_of(
                    final(self).entities@[j],
                ).dead,
            final(self).alive_count == count_alive(final(self).entities@),
    {
        let ghost w0 = *self;
        let tick = self.tick;
        self.market.step(tick);
        proof {
            let w1 = *self;
            assert(w1.market_ok()) by {
                assert forall|it: ResourceItem, k: int|
                    #![trigger w1.market.orders.spec_get(it)@[k]]
                    0 <= k < w1.market.orders.spec_get(it)@.len() implies {
                    let o = w1.market.orders.spec_get(it)@[k];
                    &&& o.agent.as_index_spec() < w1.entities@.len()
                    &&& w1.entities@[o.agent.as_index_spec()].ty is Agent
                } by {
                    let o = w1.market.orders.spec_get(it)@[k];
                    let stepped = crate::market::step_orders(
                        w0.market.orders.spec_get(it)@,
                        (w0.market.market_price.spec_get(it) / 10_000) as u32,
                        w0.config,
                    );
                    assert(w1.market.orders.spec_get(it)@.to_multiset().contains(o));
                    assert(stepped.to_multiset().contains(o));
                    assert(stepped.contains(o));
                    let j = choose|j: int| 0 <= j < stepped.len() && stepped[j] == o;
                    crate::market::lemma_step_orders_agents(
                        w0.market.orders.spec_get(it)@,
                        (w0.market.market_price.spec_get(it) / 10_000) as u32,
                        w0.config,
                    );
                    let j0 = choose|j0: int|
                        0 <= j0 < w0.market.orders.spec_get(it)@.len() && stepped[j].agent
                            == w0.market.orders.spec_get(it)@[j0].agent;
                    assert(w0.market.orders.spec_get(it)@[j0].agent == o.agent);
                }
            }
            assert(w1.tile_refs_ok()) by {
                assert forall|t2: int|
                    0 <= t2 < w1.tiles_entity@.len() && (#[trigger] w1.tiles_entity@[t2]) is Some
                        implies {
                    let tid = w1.tiles_entity@[t2]->0;
                    &&& tid.wf()
                    &&& tid.as_index_spec() < w1.entities@.len()
                    &&& tid == id_of(tid.as_index_spec())
                    &&& w1.in_bounds(w1.entities@[tid.as_index_spec()].pos)
                    &&& w1.idx_spec(w1.entities@[tid.as_index_spec()].pos) == t2
                    &&& match w1.entities@[tid.as_index_spec()].ty {
                        EntityType::Agent(ag) => !ag.dead && !ag.in_building,
                        EntityType::Building(b2) => !(b2 is Boat) || is_parked_boat(
                            w1.entities@[tid.as_index_spec()],
                        ),
                        EntityType::Resource(_) => true,
                    }
                } by {}
            }
            assert(w1.entities_ok()) by {
                assert forall|j: int| 0 <= j < w1.entities@.len() implies #[trigger] w1.entity_ok(
                    j,
                ) by {
                    assert(w0.entity_ok(j));
                    match w0.entities@[j].ty {
                        EntityType::Agent(ag) => {
                            if !ag.dead {
                                assert(ag.inv(w1));
                            }
                        },
                        _ => {},
                    }
                }
            }
            assert(w1.boats_unique()) by {
                assert forall|x: int, y: int|
                    0 <= x < w1.entities@.len() && 0 <= y < w1.entities@.len() && x != y
                        && #[trigger] sails(w1.entities@[x]) is Some && #[trigger] sails(
                        w1.entities@[y],
                    ) is Some implies sails(w1.entities@[x]) != sails(w1.entities@[y]) by {}
            }
            assert(w1.wf());
        }
        let mut alive: u32 = 0;
        let n = self.entities.len();
        let mut i: usize = 0;
        proof {
            assert(self.entities@.take(0) =~= Seq::<Entity>::empty());
        }
        while i < n
            invariant
                i <= n,
                self.wf(),
                n == self.entities@.len(),
                n == old(self).entities@.len(),
                self.tick == old(self).tick,
                self.tiles_type == old(self).tiles_type,
                self.config == old(self).config,
                self.width == old(self).width,
                self.height == old(self).height,
                self.is_running == old(self).is_running,
                self.start_count == old(self).start_count,
                alive <= i,
                forall|j: int|
                    i <= j < n ==> ((#[trigger] old(self).entities@[j]).ty is Agent
                        <==> self.entities@[j].ty is Agent) && (old(self).entities@[j].ty
                        is Agent ==> self.entities@[j].pos == old(self).entities@[j].pos
                        && agent_eq_but_cash(
                        agent_of(old(self).entities@[j]),
                        agent_of(self.entities@[j]),
                    )),
                forall|j: int|
                    0 <= j < i && (#[trigger] old(self).entities@[j]).ty is Agent ==> self.entities@[
                        j
                    ].ty is Agent && (agent_of(old(self).entities@[j]).dead ==> agent_of(
                        self.entities@[j],
                    ).dead) && (!agent_of(old(self).entities@[j]).dead && agent_of(
                        old(self).entities@[j],
                    ).energy <= old(self).config.energy_cost ==> agent_of(
                        self.entities@[j],
                    ).dead),
                alive == count_alive(self.entities@.take(i as int)),
            decreases n - i,
        {
            proof {
                assert(old(self).entities@.take(i as int + 1).drop_last() =~= old(self).entities@.take(i as int));
                assert(old(self).entities@.take(i as int + 1).last() == old(self).entities@[
                    i as int
                ]);
            }
            let ghost wpre = *self;
            let e = self.entities[i];
            let id = EntityId::new(i);
            match e.ty {
                EntityType::Agent(ag) => {
                    let mut a = ag;
                    proof {
                        assert(old(self).entities@[i as int].ty is Agent);
                        assert(a.dead == agent_of(old(self).entities@[i as int]).dead);
                        assert(a.energy == agent_of(old(self).entities@[i as int]).energy);
                    }
                    if !a.dead {
                        proof {
                            assert(self.entity_ok(i as int));
                            assert(self.tile_refs_indexable()) by {
                                assert forall|t: int|
                                    0 <= t < self.tiles_entity@.len() && (
                                    #[trigger] self.tiles_entity@[t]) is Some implies
                                    self.tiles_entity@[t]->0.wf() && self.tiles_entity@[
                                    t
                                ]->0.as_index_spec() < self.entities@.len() by {}
                            }
                        }
                        let action = a.step(e.pos, self, rng);
                        let ghost wmid = *self;
                        self.entities.set(i, Entity { pos: e.pos, ty: EntityType::Agent(a) });
                        proof {
                            lemma_sum_cash_update(
                                wmid.entities@,
                                i as int,
                                Entity { pos: e.pos, ty: EntityType::Agent(a) },
                            );
                            lemma_wf_agent_update(wmid, *self, i as int, a);
                        }
                        let ghost wdec = *self;
                        self.apply_action(id, action);
                        proof {
                            lemma_frame_through(
                                old(self).entities@,
                                wpre.entities@,
                                wdec.entities@,
                                self.entities@,
                                i as int,
                            );
                            if a.energy == 0 {
                                assert(action == AgentAction::Die);
                                assert(agent_of(self.entities@[i as int]).dead);
                            }
                        }
                    }
                    // An agent counts as alive this tick only if it still
                    // lives after its action; the statistics hook runs for
                    // every agent that started the tick alive, so a death
                    // is reported on its tick.
                    let snap = self.entities[i];
                    match snap.ty {
                        EntityType::Agent(ag2) => {
                            if !ag2.dead {
                                alive = alive + 1;
                            }
                            if !ag.dead {
                                let copy = ag2;
                                host.on_agent_step(&copy, i);
                            }
                        },
                        _ => {},
                    }
                    proof {
                        lemma_count_alive_prefix(wpre.entities@, self.entities@, i as int);
                        assert(self.entities@.take(i as int + 1).drop_last()
                            =~= self.entities@.take(i as int));
                        assert(self.entities@.take(i as int + 1).last() == self.entities@[
                            i as int
                        ]);
                    }
                },
                EntityType::Resource(_) => {
                    self.step_resource(i, host);
                    proof {
                        lemma_frame_through(
                            old(self).entities@,
                            wpre.entities@,
                            wpre.entities@,
                            self.entities@,
                            i as int,
                        );
                        lemma_count_alive_prefix(wpre.entities@, self.entities@, i as int);
                        assert(self.entities@.take(i as int + 1).drop_last()
                            =~= self.entities@.take(i as int));
                        assert(self.entities@.take(i as int + 1).last() == self.entities@[
                            i as int
                        ]);
                        assert(self.entities@[i as int].ty is Resource);
                    }
                },
                EntityType::Building(_) => {
                    proof {
                        assert(self.entities@.take(i as int + 1).drop_last()
                            =~= self.entities@.take(i as int));
                        assert(self.entities@.take(i as int + 1).last() == self.entities@[
                            i as int
                        ]);
                    }
                },
            }
            i = i + 1;
        }
        proof {
            assert(self.entities@.take(n as int) =~= self.entities@);
        }
        let ghost wend = *self;
        self.alive_count = alive;
        self.tick = self.tick + 1;
        proof {
            lemma_wf_core(wend, *self);
        }
        host.on_tick(&*self);
    }

    /// Advance one tick, if the simulation is running: the world is
    /// untouched while paused, and otherwise advances exactly as
    /// [`World::step_once`] describes.
    pub fn step<H: crate::host::SimHost>(&mut self, rng: &mut rand::rngs::StdRng, host: &mut H)
        requires
            old(self).wf(),
            old(self).tick < u32::MAX,
        ensures
            final(self).wf(),
            !old(self).is_running ==> *final(self) == *old(self),
            old(self).is_running ==> {
                &&& final(self).tick == old(self).tick + 1
                &&& final(self).entities@.len() == old(self).entities@.len()
                &&& final(self).tiles_type == old(self).tiles_type
                &&& final(self).config == old(self).config
                &&& final(self).width == old(self).width
                &&& final(self).height == old(self).height
                &&& final(self).is_running == old(self).is_running
                &&& forall|j: int|
                    0 <= j < old(self).entities@.len() && (#[trigger] old(self).entities@[j]).ty
                        is Agent ==> final(self).entities@[j].ty is Agent && (agent_of(
                        old(self).entities@[j],
                    ).dead ==> agent_of(final(self).entities@[j]).dead)
                &&& final(self).alive_count == count_alive(final(self).entities@)
            },
    {
        if self.is_running {
            self.step_once(rng, host);
        }
    }

    /// A uniformly random live agent, if any agent is alive.
    pub fn random_alive(&self, rng: &mut rand::rngs::StdRng) -> (r: Option<EntityId>)
        requires
            self.wf(),
        ensures
            match r {
                Some(id) => id.wf() && id.as_index_spec() < self.entities@.len()
                    && self.entities@[id.as_index_spec()].ty is Agent && !agent_of(
                    self.entities@[id.as_index_spec()],
                ).dead,
                None => forall|j: int|
                    0 <= j < self.entities@.len() && (#[trigger] self.entities@[j]).ty is Agent
                        ==> agent_of(self.entities@[j]).dead,
            },
    {
        let n = self.entities.len();
        let mut alive: Vec<EntityId> = Vec::new();
        let mut i: usize = 0;
        while i < n
            invariant
                i <= n,
                n == self.entities@.len(),
                self.entities@.len() + 1 < u32::MAX,
                forall|k: int|
                    0 <= k < alive@.len() ==> (#[trigger] alive@[k]).wf() && alive@[
                        k
                    ].as_index_spec() < self.entities@.len() && self.entities@[alive@[
                        k
                    ].as_index_spec()].ty is Agent && !agent_of(
                        self.entities@[alive@[k].as_index_spec()],
                    ).dead,
                alive@.len() <= i,
                alive@.len() == 0 ==> forall|j: int|
                    0 <= j < i && (#[trigger] self.entities@[j]).ty is Agent ==> agent_of(
                        self.entities@[j],
                    ).dead,
            decreases n - i,
        {
            match &self.entities[i].ty {
                EntityType::Agent(a) => {
                    if !a.dead {
                        alive.push(EntityId::new(i));
                    }
                },
                _ => {},
            }
            i = i + 1;
        }
        if alive.len() == 0 {
            None
        } else {
            let pick = crate::host::rng_below(rng, alive.len() as u32) as usize;
            Some(alive[pick])
        }
    }

    /// Build a world from per-tile samples: the tile type of every tile,
    /// and optionally an entity standing on it. A hut spawns its owning
    /// agent, with a freshly drawn job and greed. The result satisfies the
    /// engine invariant, so it can be stepped.
    pub fn new<H: crate::host::SimHost>(
        width: usize,
        height: usize,
        samples: &Vec<(TileType, Option<EntityType>)>,
        config: Config,
        rng: &mut rand::rngs::StdRng,
        host: &mut H,
    ) -> (r: World)
        requires
            1 <= width <= 32767,
            1 <= height <= 32767,
            samples@.len() == width * height,
            config.wf(),
            forall|k: int| 0 <= k < samples@.len() ==> sample_ok(#[trigger] samples@[k]),
            count_hut_samples(samples@) * (config.initial_cash as int) <= u32::MAX,
        ensures
            r.wf(),
            r.config == config,
            r.width == width,
            r.height == height,
            r.tick == 0,
            r.is_running,
            r.alive_count == 0,
            r.start_count == count_hut_samples(samples@),
            r.tiles_type@.len() == samples@.len(),
            forall|k: int|
                0 <= k < samples@.len() ==> #[trigger] r.tiles_type@[k] == samples@[k].0,
            forall|k: int|
                0 <= k < samples@.len() ==> #[trigger] created_ok(
                    r.tiles_entity@,
                    r.entities@,
                    width as int,
                    samples@,
                    k,
                    config,
                ),
            forall|it: ResourceItem| (#[trigger] r.market.orders.spec_get(it))@.len() == 0,
            forall|it: ResourceItem| (#[trigger] r.market.market_price.spec_get(it)) == 0,
            forall|it: ResourceItem| (#[trigger] r.market.market_demand.spec_get(it)) == 0,
    {
        let total = samples.len();
        proof {
            lemma_mul_upper_bound(width as int, 32767, height as int, 32767);
            vstd::arithmetic::mul::lemma_mul_nonnegative(width as int, height as int);
        }
        let mut tiles_type: Vec<TileType> = Vec::new();
        let mut tiles_entity: Vec<Option<EntityId>> = Vec::new();
        let mut entities: Vec<Entity> = Vec::new();
        let mut start_count: u32 = 0;
        let mut i: usize = 0;
        while i < total
            invariant
                i <= total,
                total == samples@.len(),
                total == width * height,
                total <= 0x4000_0000,
                1 <= width <= 32767,
                1 <= height <= 32767,
                config.wf(),
                forall|k: int| 0 <= k < total ==> sample_ok(#[trigger] samples@[k]),
                count_hut_samples(samples@) * (config.initial_cash as int) <= u32::MAX,
                tiles_type@.len() == i,
                tiles_entity@.len() == i,
                entities@.len() <= 2 * i,
                forall|k: int| 0 <= k < i ==> #[trigger] tiles_type@[k] == samples@[k].0,
                forall|k: int|
                    0 <= k < i ==> #[trigger] created_ok(
                        tiles_entity@,
                        entities@,
                        width as int,
                        samples@,
                        k,
                        config,
                    ),
                forall|j: int|
                    0 <= j < entities@.len() ==> #[trigger] build_entity_ok(
                        tiles_entity@,
                        entities@,
                        width as int,
                        height as int,
                        config,
                        j,
                    ),
                sum_cash(entities@) == count_hut_samples(samples@.take(i as int)) * (
                config.initial_cash as int),
                start_count == count_hut_samples(samples@.take(i as int)),
            decreases total - i,
        {
            let ghost prev_tiles = tiles_entity@;
            let ghost prev_es = entities@;
            let (tt, init) = samples[i];
            tiles_type.push(tt);
            let x = (i % width) as i16;
            proof {
                lemma_mod_below(i as int, width as int);
                lemma_div_grid(i as int, width as int, height as int);
                lemma_fundamental_div_mod(i as int, width as int);
                assert(samples@.take(i as int + 1).drop_last() =~= samples@.take(i as int));
                assert(samples@.take(i as int + 1).last() == samples@[i as int]);
                lemma_count_hut_samples_bounds(samples@, i as int + 1);
                lemma_count_hut_samples_bounds(samples@, i as int);
                lemma_count_hut_samples_nonneg(samples@.take(i as int + 1));
            }
            let y = (i / width) as i16;
            let pos = Pos { x, y };
            proof {
                assert(x as int == i as int % width as int);
                assert(y as int == i as int / width as int);
                assert(pos == pos_of(i as int, width as int));
                assert((i as int) == (width as int) * (i as int / width as int) + (i as int
                    % width as int));
                vstd::arithmetic::mul::lemma_mul_is_commutative(y as int, width as int);
                assert(pos.x + pos.y * (width as int) == i as int);
                assert(sample_ok(samples@[i as int]));
            }
            match init {
                Some(ty) => {
                    match ty {
                        EntityType::Building(Building::Hut { .. }) => {
                            let agent_idx = entities.len();
                            let draw = crate::host::rng_below(rng, 5);
                            let greed = host.greed_sample();
                            let mut ag = Agent::new(&config, draw, greed);
                            ag.in_building = true;
                            ag.state = AgentState::BeHome;
                            ag.home = pos;
                            entities.push(Entity { pos, ty: EntityType::Agent(ag) });
                            start_count = start_count + 1;
                            let hut = Building::Hut {
                                is_agent_in: true,
                                agent: EntityId::new(agent_idx),
                            };
                            entities.push(Entity { pos, ty: EntityType::Building(hut) });
                            tiles_entity.push(Some(EntityId::new(entities.len() - 1)));
                            proof {
                                lemma_sum_cash_push(
                                    prev_es,
                                    Entity { pos, ty: EntityType::Agent(ag) },
                                );
                                lemma_sum_cash_push(
                                    prev_es.push(Entity { pos, ty: EntityType::Agent(ag) }),
                                    Entity { pos, ty: EntityType::Building(hut) },
                                );
                                vstd::arithmetic::mul::lemma_mul_inequality(
                                    count_hut_samples(samples@.take(i as int + 1)),
                                    count_hut_samples(samples@),
                                    config.initial_cash as int,
                                );
                                assert(created_ok(
                                    tiles_entity@,
                                    entities@,
                                    width as int,
                                    samples@,
                                    i as int,
                                    config,
                                ));
                                assert(build_entity_ok(
                                    tiles_entity@,
                                    entities@,
                                    width as int,
                                    height as int,
                                    config,
                                    agent_idx as int,
                                ));
                                assert(build_entity_ok(
                                    tiles_entity@,
                                    entities@,
                                    width as int,
                                    height as int,
                                    config,
                                    agent_idx as int + 1,
                                ));
                                assert((count_hut_samples(samples@.take(i as int)) + 1) * (
                                config.initial_cash as int) == count_hut_samples(
                                    samples@.take(i as int),
                                ) * (config.initial_cash as int) + config.initial_cash)
                                    by (nonlinear_arith);
                                assert forall|k: int| 0 <= k < i + 1 implies
                                    #[trigger] created_ok(
                                    tiles_entity@,
                                    entities@,
                                    width as int,
                                    samples@,
                                    k,
                                    config,
                                ) by {
                                    if k < i {
                                        assert(created_ok(
                                            prev_tiles,
                                            prev_es,
                                            width as int,
                                            samples@,
                                            k,
                                            config,
                                        ));
                                        assert(tiles_entity@[k] == prev_tiles[k]);
                                    }
                                }
                                assert forall|j: int| 0 <= j < entities@.len() implies
                                    #[trigger] build_entity_ok(
                                    tiles_entity@,
                                    entities@,
                                    width as int,
                                    height as int,
                                    config,
                                    j,
                                ) by {
                                    if j < prev_es.len() {
                                        assert(build_entity_ok(
                                            prev_tiles,
                                            prev_es,
                                            width as int,
                                            height as int,
                                            config,
                                            j,
                                        ));
                                        assert(entities@[j] == prev_es[j]);
                                        let e = prev_es[j];
                                        let t = e.pos.x + e.pos.y * (width as int);
                                        assert(0 <= t < prev_tiles.len());
                                        assert(tiles_entity@[t] == prev_tiles[t]);
                                        match e.ty {
                                            EntityType::Agent(_) => {
                                                let bidx = prev_tiles[t]->0.as_index_spec();
                                                assert(entities@[bidx] == prev_es[bidx]);
                                            },
                                            _ => {},
                                        }
                                    }
                                }
                            }
                        },
                        other => {
                            entities.push(Entity { pos, ty: other });
                            tiles_entity.push(Some(EntityId::new(entities.len() - 1)));
                            proof {
                                lemma_sum_cash_push(prev_es, Entity { pos, ty: other });
                                assert(cash_of(Entity { pos, ty: other }) == 0);
                                assert(created_ok(
                                    tiles_entity@,
                                    entities@,
                                    width as int,
                                    samples@,
                                    i as int,
                                    config,
                                ));
                                assert(build_entity_ok(
                                    tiles_entity@,
                                    entities@,
                                    width as int,
                                    height as int,
                                    config,
                                    entities@.len() - 1,
                                ));
                                assert forall|k: int| 0 <= k < i + 1 implies
                                    #[trigger] created_ok(
                                    tiles_entity@,
                                    entities@,
                                    width as int,
                                    samples@,
                                    k,
                                    config,
                                ) by {
                                    if k < i {
                                        assert(created_ok(
                                            prev_tiles,
                                            prev_es,
                                            width as int,
                                            samples@,
                                            k,
                                            config,
                                        ));
                                        assert(tiles_entity@[k] == prev_tiles[k]);
                                    }
                                }
                                assert forall|j: int| 0 <= j < entities@.len() implies
                                    #[trigger] build_entity_ok(
                                    tiles_entity@,
                                    entities@,
                                    width as int,
                                    height as int,
                                    config,
                                    j,
                                ) by {
                                    if j < prev_es.len() {
                                        assert(build_entity_ok(
                                            prev_tiles,
                                            prev_es,
                                            width as int,
                                            height as int,
                                            config,
                                            j,
                                        ));
                                        assert(entities@[j] == prev_es[j]);
                                        let e = prev_es[j];
                                        let t = e.pos.x + e.pos.y * (width as int);
                                        assert(0 <= t < prev_tiles.len());
                                        assert(tiles_entity@[t] == prev_tiles[t]);
                                        match e.ty {
                                            EntityType::Agent(_) => {
                                                let bidx = prev_tiles[t]->0.as_index_spec();
                                                assert(entities@[bidx] == prev_es[bidx]);
                                            },
                                            _ => {},
                                        }
                                    }
                                }
                            }
                        },
                    }
                },
                None => {
                    tiles_entity.push(None);
                    proof {
                                assert forall|k: int| 0 <= k < i + 1 implies
                                    #[trigger] created_ok(
                                    tiles_entity@,
                                    entities@,
                                    width as int,
                                    samples@,
                                    k,
                                    config,
                                ) by {
                                    if k < i {
                                        assert(created_ok(
                                            prev_tiles,
                                            prev_es,
                                            width as int,
                                            samples@,
                                            k,
                                            config,
                                        ));
                                        assert(tiles_entity@[k] == prev_tiles[k]);
                                    }
                                }
                                assert forall|j: int| 0 <= j < entities@.len() implies
                                    #[trigger] build_entity_ok(
                                    tiles_entity@,
                                    entities@,
                                    width as int,
                                    height as int,
                                    config,
                                    j,
                                ) by {
                                    if j < prev_es.len() {
                                        assert(build_entity_ok(
                                            prev_tiles,
                                            prev_es,
                                            width as int,
                                            height as int,
                                            config,
                                            j,
                                        ));
                                        assert(entities@[j] == prev_es[j]);
                                        let e = prev_es[j];
                                        let t = e.pos.x + e.pos.y * (width as int);
                                        assert(0 <= t < prev_tiles.len());
                                        assert(tiles_entity@[t] == prev_tiles[t]);
                                        match e.ty {
                                            EntityType::Agent(_) => {
                                                let bidx = prev_tiles[t]->0.as_index_spec();
                                                assert(entities@[bidx] == prev_es[bidx]);
                                            },
                                            _ => {},
                                        }
                                    }
                                }
                    }
                },
            }
            i = i + 1;
        }
        let w = World {
            config,
            tiles_type,
            tiles_entity,
            entities,
            market: Market::new(config),
            width,
            height,
            tick: 0,
            is_running: true,
            alive_count: 0,
            start_count,
        };
        proof {
            assert(samples@.take(total as int) =~= samples@);
            assert(w.dims_ok());
            assert(w.entities@.len() + 1 < u32::MAX);
            assert(w.tile_refs_ok()) by {
                assert forall|t: int|
                    0 <= t < w.tiles_entity@.len() && (#[trigger] w.tiles_entity@[t]) is Some
                        implies {
                    let tid = w.tiles_entity@[t]->0;
                    &&& tid.wf()
                    &&& tid.as_index_spec() < w.entities@.len()
                    &&& tid == id_of(tid.as_index_spec())
                    &&& w.in_bounds(w.entities@[tid.as_index_spec()].pos)
                    &&& w.idx_spec(w.entities@[tid.as_index_spec()].pos) == t
                    &&& match w.entities@[tid.as_index_spec()].ty {
                        EntityType::Agent(ag) => !ag.dead && !ag.in_building,
                        EntityType::Building(b2) => !(b2 is Boat) || is_parked_boat(
                            w.entities@[tid.as_index_spec()],
                        ),
                        EntityType::Resource(_) => true,
                    }
                } by {
                    assert(created_ok(
                        w.tiles_entity@,
                        w.entities@,
                        width as int,
                        samples@,
                        t,
                        config,
                    ));
                    assert(sample_ok(samples@[t]));
                    lemma_mod_below(t, width as int);
                    lemma_div_grid(t, width as int, height as int);
                    lemma_fundamental_div_mod(t, width as int);
                    let tid = w.tiles_entity@[t]->0;
                    let j = tid.as_index_spec();
                    assert(w.entities@[j].pos == pos_of(t, width as int));
                    assert((t % width as int) < width);
                    assert((t / width as int) < height);
                    assert(t == (width as int) * (t / width as int) + (t % width as int));
                    vstd::arithmetic::mul::lemma_mul_is_commutative(
                        t / width as int,
                        width as int,
                    );
                    assert(w.idx_spec(pos_of(t, width as int)) == t);
                }
            }
            assert(w.entities_ok()) by {
                assert forall|j: int| 0 <= j < w.entities@.len() implies #[trigger] w.entity_ok(
                    j,
                ) by {
                    assert(build_entity_ok(
                        w.tiles_entity@,
                        w.entities@,
                        width as int,
                        height as int,
                        config,
                        j,
                    ));
                    match w.entities@[j].ty {
                        EntityType::Agent(ag) => {
                            assert(ag.inv(w));
                        },
                        _ => {},
                    }
                }
            }
            assert(w.boats_unique()) by {
                assert forall|a: int, b: int|
                    0 <= a < w.entities@.len() && 0 <= b < w.entities@.len() && a != b
                        && #[trigger] sails(w.entities@[a]) is Some && #[trigger] sails(
                        w.entities@[b],
                    ) is Some implies sails(w.entities@[a]) != sails(w.entities@[b]) by {
                    assert(build_entity_ok(
                        w.tiles_entity@,
                        w.entities@,
                        width as int,
                        height as int,
                        config,
                        a,
                    ));
                    assert(sails(w.entities@[a]) is None);
                }
            }
            assert(w.market_ok()) by {
                assert forall|it: ResourceItem, k: int|
                    #![trigger w.market.orders.spec_get(it)@[k]]
                    0 <= k < w.market.orders.spec_get(it)@.len() implies {
                    let o = w.market.orders.spec_get(it)@[k];
                    &&& o.agent.as_index_spec() < w.entities@.len()
                    &&& w.entities@[o.agent.as_index_spec()].ty is Agent
                } by {
                    assert(w.market.orders.spec_get(it)@.len() == 0);
                }
            }
            lemma_count_hut_samples_nonneg(samples@);
            vstd::arithmetic::mul::lemma_mul_nonnegative(
                count_hut_samples(samples@),
                config.initial_cash as int,
            );
        }
        w
    }
}

/// The position of the k-th tile of a row-major grid.
pub open spec fn pos_of(k: int, width: int) -> Pos {
    Pos { x: (k % width) as i16, y: (k / width) as i16 }
}

/// A per-tile sample the world builder accepts: agents are spawned only
/// by their huts, a stocked resource is not dormant, and no boat starts
/// out sailed.
pub open spec fn sample_ok(s: (TileType, Option<EntityType>)) -> bool {
    match s.1 {
        Option::None => true,
        Some(ty) => match ty {
            EntityType::Agent(_) => false,
            EntityType::Resource(res) => res.amount == 0 || res.timeout == 0,
            EntityType::Building(b) => match b {
                Building::Boat { has_agent } => !has_agent,
                _ => true,
            },
        },
    }
}

/// How many samples spawn an agent: one per hut.
pub open spec fn count_hut_samples(s: Seq<(TileType, Option<EntityType>)>) -> int
    decreases s.len(),
{
    if s.len() == 0 {
        0
    } else {
        count_hut_samples(s.drop_last()) + match s.last().1 {
            Some(EntityType::Building(Building::Hut { .. })) => 1int,
            _ => 0int,
        }
    }
}

/// The count of spawning samples is never negative and grows with the
/// prefix.
pub proof fn lemma_count_hut_samples_bounds(s: Seq<(TileType, Option<EntityType>)>, i: int)
    requires
        0 <= i <= s.len(),
    ensures
        0 <= count_hut_samples(s.take(i)) <= count_hut_samples(s),
    decreases s.len() - i,
{
    if i == s.len() {
        assert(s.take(i) =~= s);
        lemma_count_hut_samples_nonneg(s);
    } else {
        lemma_count_hut_samples_bounds(s, i + 1);
        lemma_count_hut_samples_nonneg(s.take(i));
        assert(s.take(i + 1).drop_last() =~= s.take(i));
        assert(s.take(i + 1).last() == s[i]);
        assert(count_hut_samples(s.take(i + 1)) >= count_hut_samples(s.take(i)));
    }
}

/// The count of spawning samples is never negative, and at most the
/// number of samples.
pub proof fn lemma_count_hut_samples_nonneg(s: Seq<(TileType, Option<EntityType>)>)
    ensures
        0 <= count_hut_samples(s) <= s.len(),
    decreases s.len(),
{
    if s.len() > 0 {
        lemma_count_hut_samples_nonneg(s.drop_last());
    }
}

/// What the world builder made of tile `k`: nothing on an empty sample; a
/// hut sample spawned its agent (at home, inside, alive, with the
/// configured stocks) immediately before the hut that owns it; any other
/// sample was placed as given. The tile slot references the created
/// entity, which stands on the tile.
pub open spec fn created_ok(
    tiles: Seq<Option<EntityId>>,
    es: Seq<Entity>,
    width: int,
    samples: Seq<(TileType, Option<EntityType>)>,
    k: int,
    config: Config,
) -> bool {
    let pos = pos_of(k, width);
    match samples[k].1 {
        Option::None => tiles[k] is None,
        Some(ty) => match ty {
            EntityType::Building(Building::Hut { .. }) => {
                &&& tiles[k] is Some
                &&& {
                    let j = tiles[k]->0.as_index_spec();
                    &&& 1 <= j < es.len()
                    &&& es[j] == Entity {
                        pos,
                        ty: EntityType::Building(
                            Building::Hut { is_agent_in: true, agent: id_of(j - 1) },
                        ),
                    }
                    &&& es[j - 1].pos == pos
                    &&& es[j - 1].ty is Agent
                    &&& {
                        let a = agent_of(es[j - 1]);
                        &&& a.home == pos
                        &&& a.in_building
                        &&& !a.dead
                        &&& a.state == AgentState::BeHome
                        &&& a.energy == config.initial_energy
                        &&& a.energy_quota == config.initial_energy
                        &&& a.cash == config.initial_cash
                        &&& a.cash_quota == config.initial_cash
                        &&& a.inventory == PerResource::new_spec(config.initial_inventory)
                        &&& a.nutrition == PerResource::new_spec(config.initial_nutrition)
                        &&& a.timeout_quota == config.timeout_quota
                        &&& a.meal_plan is None
                        &&& a.shopping_list is None
                    }
                }
            },
            other => {
                &&& tiles[k] is Some
                &&& {
                    let j = tiles[k]->0.as_index_spec();
                    &&& 0 <= j < es.len()
                    &&& es[j] == Entity { pos, ty: other }
                }
            },
        },
    }
}

/// What holds of entity `j` of a store under construction, stated against
/// the raw vectors: the counterpart of [`World::entity_ok`] before the
/// world exists.
pub open spec fn build_entity_ok(
    tiles: Seq<Option<EntityId>>,
    es: Seq<Entity>,
    width: int,
    height: int,
    config: Config,
    j: int,
) -> bool {
    let e = es[j];
    let t = e.pos.x + e.pos.y * width;
    match e.ty {
        EntityType::Agent(a) => {
            &&& 0 <= e.pos.x < width
            &&& 0 <= e.pos.y < height
            &&& a.in_building
            &&& !a.dead
            &&& a.home == e.pos
            &&& a.energy <= config.max_energy
            &&& a.state == AgentState::BeHome
            &&& (match a.job {
                Job::Fisher { boat } => boat is None,
                _ => true,
            })
            &&& 0 <= t < tiles.len()
            &&& tiles[t] is Some
            &&& tiles[t]->0.wf()
            &&& tiles[t]->0.as_index_spec() < es.len()
            &&& es[tiles[t]->0.as_index_spec()].ty is Building
            &&& !(building_of(es[tiles[t]->0.as_index_spec()]) is Boat)
            &&& (match building_of(es[tiles[t]->0.as_index_spec()]) {
                Building::Hut { is_agent_in, agent } => agent == id_of(j) && is_agent_in,
                _ => true,
            })
        },
        EntityType::Resource(res) => {
            &&& 0 <= e.pos.x < width
            &&& 0 <= e.pos.y < height
            &&& (res.amount > 0 ==> res.timeout == 0)
            &&& 0 <= t < tiles.len()
            &&& (res.timeout == 0 ==> tiles[t] == Some(id_of(j)))
        },
        EntityType::Building(b) => {
            &&& 0 <= e.pos.x < width
            &&& 0 <= e.pos.y < height
            &&& 0 <= t < tiles.len()
            &&& (!(b is Boat) ==> tiles[t] == Some(id_of(j)))
            &&& match b {
                Building::Hut { is_agent_in, agent } => {
                    &&& agent.wf()
                    &&& agent.as_index_spec() < es.len()
                    &&& agent.as_index_spec() != j
                    &&& es[agent.as_index_spec()].ty is Agent
                    &&& agent_of(es[agent.as_index_spec()]).home == e.pos
                    &&& (is_agent_in ==> {
                        let ag = es[agent.as_index_spec()];
                        &&& !agent_of(ag).dead
                        &&& agent_of(ag).in_building
                        &&& ag.pos == e.pos
                    })
                },
                Building::Market => true,
                Building::Boat { has_agent } => !has_agent,
            }
        },
    }
}

/// Appending one entity adds its cash to the total.
proof fn lemma_sum_cash_push(es: Seq<Entity>, e: Entity)
    ensures
        sum_cash(es.push(e)) == sum_cash(es) + cash_of(e),
{
    assert(es.push(e).drop_last() =~= es);
    assert(es.push(e).last() == e);
}

/// Composing agent frames: when the suffix framing holds from the
/// original store to a state, and two further transitions each leave
/// every agent but `i` alone up to its cash, the framing holds to the
/// final state as well.
proof fn lemma_frame_through(
    es0: Seq<Entity>,
    es1: Seq<Entity>,
    es2: Seq<Entity>,
    es3: Seq<Entity>,
    i: int,
)
    requires
        0 <= i,
        i < es0.len(),
        es1.len() == es0.len(),
        es2.len() == es1.len(),
        es3.len() == es2.len(),
        forall|j: int|
            i <= j < es0.len() ==> ((#[trigger] es0[j]).ty is Agent <==> es1[j].ty is Agent) && (
            es0[j].ty is Agent ==> es1[j].pos == es0[j].pos && agent_eq_but_cash(
                agent_of(es0[j]),
                agent_of(es1[j]),
            )),
        agents_framed_except(es1, es2, i),
        agents_framed_except(es2, es3, i),
    ensures
        forall|j: int|
            i + 1 <= j < es0.len() ==> ((#[trigger] es0[j]).ty is Agent <==> es3[j].ty is Agent)
                && (es0[j].ty is Agent ==> es3[j].pos == es0[j].pos && agent_eq_but_cash(
                agent_of(es0[j]),
                agent_of(es3[j]),
            )),
        forall|j: int|
            0 <= j < i ==> ((#[trigger] es1[j]).ty is Agent <==> es3[j].ty is Agent) && (es1[j].ty
                is Agent ==> es3[j].pos == es1[j].pos && agent_eq_but_cash(
                agent_of(es1[j]),
                agent_of(es3[j]),
            )),
{
    assert forall|j: int|
        i + 1 <= j < es0.len() implies ((#[trigger] es0[j]).ty is Agent <==> es3[j].ty is Agent)
            && (es0[j].ty is Agent ==> es3[j].pos == es0[j].pos && agent_eq_but_cash(
            agent_of(es0[j]),
            agent_of(es3[j]),
        )) by {
        assert(es0[j].ty is Agent <==> es1[j].ty is Agent);
        assert(agent_framed_at(es1, es2, j));
        assert(agent_framed_at(es2, es3, j));
        if es0[j].ty is Agent {
            assert(agent_of(es2[j]) == Agent { cash: agent_of(es2[j]).cash, ..agent_of(es1[j]) });
            assert(agent_of(es3[j]) == Agent { cash: agent_of(es3[j]).cash, ..agent_of(es2[j]) });
        }
    }
    assert forall|j: int|
        0 <= j < i implies ((#[trigger] es1[j]).ty is Agent <==> es3[j].ty is Agent) && (es1[j].ty
            is Agent ==> es3[j].pos == es1[j].pos && agent_eq_but_cash(
            agent_of(es1[j]),
            agent_of(es3[j]),
        )) by {
        assert(agent_framed_at(es1, es2, j));
        assert(agent_framed_at(es2, es3, j));
        if es1[j].ty is Agent {
            assert(agent_of(es2[j]) == Agent { cash: agent_of(es2[j]).cash, ..agent_of(es1[j]) });
            assert(agent_of(es3[j]) == Agent { cash: agent_of(es3[j]).cash, ..agent_of(es2[j]) });
        }
    }
}

/// The invariant does not depend on the clock or the counters: two worlds
/// that agree on the grid, the store, the market and the configuration are
/// equally well-formed.
proof fn lemma_wf_core(w0: World, w1: World)
    requires
        w0.wf(),
        w1.entities == w0.entities,
        w1.tiles_entity == w0.tiles_entity,
        w1.tiles_type == w0.tiles_type,
        w1.market == w0.market,
        w1.config == w0.config,
        w1.width == w0.width,
        w1.height == w0.height,
    ensures
        w1.wf(),
{
    assert(w1.tile_refs_ok()) by {
        assert forall|t2: int|
            0 <= t2 < w1.tiles_entity@.len() && (#[trigger] w1.tiles_entity@[t2]) is Some implies {
            let tid = w1.tiles_entity@[t2]->0;
            &&& tid.wf()
            &&& tid.as_index_spec() < w1.entities@.len()
            &&& tid == id_of(tid.as_index_spec())
            &&& w1.in_bounds(w1.entities@[tid.as_index_spec()].pos)
            &&& w1.idx_spec(w1.entities@[tid.as_index_spec()].pos) == t2
            &&& match w1.entities@[tid.as_index_spec()].ty {
                EntityType::Agent(ag) => !ag.dead && !ag.in_building,
                EntityType::Building(b2) => !(b2 is Boat) || is_parked_boat(
                    w1.entities@[tid.as_index_spec()],
                ),
                EntityType::Resource(_) => true,
            }
        } by {}
    }
    assert(w1.entities_ok()) by {
        assert forall|j: int| 0 <= j < w1.entities@.len() implies #[trigger] w1.entity_ok(j) by {
            assert(w0.entity_ok(j));
            match w0.entities@[j].ty {
                EntityType::Agent(ag) => {
                    if !ag.dead {
                        assert(ag.inv(w1));
                    }
                },
                _ => {},
            }
        }
    }
    assert(w1.boats_unique()) by {
        assert forall|x: int, y: int|
            0 <= x < w1.entities@.len() && 0 <= y < w1.entities@.len() && x != y
                && #[trigger] sails(w1.entities@[x]) is Some && #[trigger] sails(
                w1.entities@[y],
            ) is Some implies sails(w1.entities@[x]) != sails(w1.entities@[y]) by {}
    }
}

/// The remainder by the grid width stays on the row.
#[verifier::nonlinear]
proof fn lemma_mod_below(i: int, w: int)
    requires
        w >= 1,
        i >= 0,
    ensures
        0 <= i % w < w,
{
}

/// The quotient by the grid width stays below the grid height.
#[verifier::nonlinear]
proof fn lemma_div_grid(i: int, w: int, h: int)
    requires
        w >= 1,
        h >= 1,
        0 <= i < w * h,
    ensures
        0 <= i / w < h,
{
}

/// A prefix total never exceeds the whole total.
proof fn lemma_payments_prefix_bound(ps: Seq<(EntityId, u32)>, k: int)
    requires
        0 <= k <= ps.len(),
    ensures
        crate::market::payments_total(ps.take(k)) <= crate::market::payments_total(ps),
    decreases ps.len() - k,
{
    if k == ps.len() {
        assert(ps.take(k) =~= ps);
    } else {
        lemma_payments_prefix_bound(ps, k + 1);
        crate::market::lemma_take_payments_snoc(ps, k);
    }
}


impl World {
    /// The tile index of an in-bounds position is a valid index.
    pub proof fn lemma_idx(self, p: Pos)
        requires
            self.dims_ok(),
            self.in_bounds(p),
        ensures
            0 <= self.idx_spec(p) < self.tiles_entity@.len(),
    {
        lemma_row_major_index(p.x as int, p.y as int, self.width as int, self.height as int);
    }

    /// Two in-bounds positions with the same tile index are the same
    /// position.
    pub proof fn lemma_idx_inj(self, p1: Pos, p2: Pos)
        requires
            self.dims_ok(),
            self.in_bounds(p1),
            self.in_bounds(p2),
            self.idx_spec(p1) == self.idx_spec(p2),
        ensures
            p1 == p2,
    {
        lemma_row_major_injective(
            p1.x as int,
            p1.y as int,
            p2.x as int,
            p2.y as int,
            self.width as int,
        );
    }
}

/// An update of entity `i` that touches none of the facts the world
/// invariant tracks: the entity stays an agent at the same position, with
/// the same liveness, building flag, home and sailed boat, and keeps its
/// own bounds.
pub open spec fn agent_benign_update(w: World, i: int, a1: Agent) -> bool {
    let e0 = w.entities@[i];
    let a0 = agent_of(e0);
    &&& e0.ty is Agent
    &&& a1.dead == a0.dead
    &&& a1.in_building == a0.in_building
    &&& a1.home == a0.home
    &&& (!a1.dead ==> a1.inv(w))
    &&& (sails(Entity { pos: e0.pos, ty: EntityType::Agent(a1) }) == sails(e0) || sails(
        Entity { pos: e0.pos, ty: EntityType::Agent(a1) },
    ) is None)
}

/// The worlds agree on everything but the entity store.
pub open spec fn same_but_entities(w0: World, w1: World) -> bool {
    &&& w1.tiles_entity == w0.tiles_entity
    &&& w1.market == w0.market
    &&& frame_eq(w0, w1)
}

/// Replacing one agent by a benign update preserves the whole invariant,
/// except that the cash bound must be re-established by the caller.
pub proof fn lemma_wf_agent_update(w0: World, w1: World, i: int, a1: Agent)
    requires
        w0.wf(),
        0 <= i < w0.entities@.len(),
        agent_benign_update(w0, i, a1),
        same_but_entities(w0, w1),
        w1.entities@ == w0.entities@.update(
            i,
            Entity { pos: w0.entities@[i].pos, ty: EntityType::Agent(a1) },
        ),
        sum_cash(w1.entities@) <= u32::MAX,
    ensures
        w1.wf(),
{
    let a0 = agent_of(w0.entities@[i]);
    assert(w1.tile_refs_ok()) by {
        assert forall|t: int|
            0 <= t < w1.tiles_entity@.len() && (#[trigger] w1.tiles_entity@[t]) is Some implies {
            let tid = w1.tiles_entity@[t]->0;
            &&& tid.wf()
            &&& tid.as_index_spec() < w1.entities@.len()
            &&& tid == id_of(tid.as_index_spec())
            &&& w1.in_bounds(w1.entities@[tid.as_index_spec()].pos)
            &&& w1.idx_spec(w1.entities@[tid.as_index_spec()].pos) == t
            &&& match w1.entities@[tid.as_index_spec()].ty {
                EntityType::Agent(ag) => !ag.dead && !ag.in_building,
                EntityType::Building(b) => !(b is Boat) || is_parked_boat(
                    w1.entities@[tid.as_index_spec()],
                ),
                EntityType::Resource(_) => true,
            }
        } by {
            let tid = w1.tiles_entity@[t]->0;
            if tid.as_index_spec() == i {
                assert(w1.entities@[i].pos == w0.entities@[i].pos);
            } else {
                assert(w1.entities@[tid.as_index_spec()] == w0.entities@[tid.as_index_spec()]);
            }
        }
    }
    assert(w1.entities_ok()) by {
        assert forall|j: int| 0 <= j < w1.entities@.len() implies #[trigger] w1.entity_ok(j) by {
            assert(w0.entity_ok(j));
            proof_idx_of_entity(w0, j);
            if j == i {
                assert(a1.dead ==> w0.entities@[i].pos == Pos { x: -1i16, y: -1i16 });
                if !a1.dead {
                    assert(a1.inv(w1));
                    match a1.job {
                        Job::Fisher { boat: Some(b) } => {
                            assert(sails(w1.entities@[i]) == Some(b));
                            assert(sails(w0.entities@[i]) == Some(b));
                            assert(sails(w0.entities@[i]) == sails(w1.entities@[i]));
                            assert(w0.entities@[b.as_index_spec()].ty is Building);
                            assert(b.as_index_spec() != i);
                            assert(w1.entities@[b.as_index_spec()] == w0.entities@[
                                b.as_index_spec()
                            ]);
                        },
                        _ => {},
                    }
                }
                assert(w1.entity_ok(j));
            } else {
                let ej = w0.entities@[j];
                assert(w1.entities@[j] == ej);
                match ej.ty {
                    EntityType::Agent(ag) => {
                        if !ag.dead {
                            assert(ag.inv(w1));
                            match ag.job {
                                Job::Fisher { boat: Some(b) } => {
                                    assert(w0.entities@[b.as_index_spec()].ty is Building);
                                    assert(b.as_index_spec() != i);
                                    assert(w1.entities@[b.as_index_spec()] == w0.entities@[
                                        b.as_index_spec()
                                    ]);
                                },
                                _ => {},
                            }
                            if ag.in_building {
                                let slot0 = w0.tiles_entity@[w0.idx_spec(ej.pos)];
                                assert(slot0 is Some);
                                assert(slot0->0.as_index_spec() != i || w0.entities@[
                                    slot0->0.as_index_spec()
                                ].ty is Building);
                                if slot0->0.as_index_spec() != i {
                                    assert(w1.entities@[slot0->0.as_index_spec()]
                                        == w0.entities@[slot0->0.as_index_spec()]);
                                }
                            }
                        }
                        assert(w1.entity_ok(j));
                    },
                    EntityType::Resource(_) => {
                        assert(w1.entity_ok(j));
                    },
                    EntityType::Building(b) => {
                        match b {
                            Building::Hut { is_agent_in, agent } => {
                                if agent.as_index_spec() == i {
                                    assert(agent_of(w1.entities@[i]).home == agent_of(
                                        w0.entities@[i],
                                    ).home);
                                    assert(agent_of(w1.entities@[i]).dead == agent_of(
                                        w0.entities@[i],
                                    ).dead);
                                    assert(agent_of(w1.entities@[i]).in_building == agent_of(
                                        w0.entities@[i],
                                    ).in_building);
                                }
                            },
                            _ => {},
                        }
                        assert(w1.entity_ok(j));
                    },
                }
            }
        }
    }
    assert(w1.boats_unique()) by {
        assert forall|x: int, y: int|
            0 <= x < w1.entities@.len() && 0 <= y < w1.entities@.len() && x != y
                && #[trigger] sails(w1.entities@[x]) is Some && #[trigger] sails(
                w1.entities@[y],
            ) is Some implies sails(w1.entities@[x]) != sails(w1.entities@[y]) by {
            assert(sails(w1.entities@[x]) is Some ==> sails(w1.entities@[x]) == sails(
                w0.entities@[x],
            ));
            assert(sails(w1.entities@[y]) is Some ==> sails(w1.entities@[y]) == sails(
                w0.entities@[y],
            ));
        }
    }
}

/// Every entity's cash is at most the store's total.
pub proof fn lemma_cash_le_sum(es: Seq<Entity>, j: int)
    requires
        0 <= j < es.len(),
    ensures
        cash_of(es[j]) <= sum_cash(es),
        sum_cash(es) >= 0,
    decreases es.len(),
{
    if es.len() > 0 {
        if j == es.len() - 1 {
            lemma_sum_cash_nonneg(es.drop_last());
        } else {
            lemma_cash_le_sum(es.drop_last(), j);
            assert(es.drop_last()[j] == es[j]);
        }
    }
}

/// The total cash is never negative.
pub proof fn lemma_sum_cash_nonneg(es: Seq<Entity>)
    ensures
        sum_cash(es) >= 0,
    decreases es.len(),
{
    if es.len() > 0 {
        lemma_sum_cash_nonneg(es.drop_last());
    }
}

/// Replacing one resource stock, in place and with the respawn countdown
/// untouched, preserves the whole invariant.
pub proof fn lemma_wf_resource_update(w0: World, w1: World, i: int, r1: Resource)
    requires
        w0.wf(),
        0 <= i < w0.entities@.len(),
        w0.entities@[i].ty is Resource,
        r1.timeout == 0 ==> resource_of(w0.entities@[i]).timeout == 0,
        r1.amount > 0 ==> r1.timeout == 0,
        same_but_entities(w0, w1),
        w1.entities@ == w0.entities@.update(
            i,
            Entity { pos: w0.entities@[i].pos, ty: EntityType::Resource(r1) },
        ),
    ensures
        w1.wf(),
{
    lemma_sum_cash_update(
        w0.entities@,
        i,
        Entity { pos: w0.entities@[i].pos, ty: EntityType::Resource(r1) },
    );
    assert(w1.tile_refs_ok()) by {
        assert forall|t: int|
            0 <= t < w1.tiles_entity@.len() && (#[trigger] w1.tiles_entity@[t]) is Some implies {
            let tid = w1.tiles_entity@[t]->0;
            &&& tid.wf()
            &&& tid.as_index_spec() < w1.entities@.len()
            &&& tid == id_of(tid.as_index_spec())
            &&& w1.in_bounds(w1.entities@[tid.as_index_spec()].pos)
            &&& w1.idx_spec(w1.entities@[tid.as_index_spec()].pos) == t
            &&& match w1.entities@[tid.as_index_spec()].ty {
                EntityType::Agent(ag) => !ag.dead && !ag.in_building,
                EntityType::Building(b) => !(b is Boat) || is_parked_boat(
                    w1.entities@[tid.as_index_spec()],
                ),
                EntityType::Resource(_) => true,
            }
        } by {
            let tid = w1.tiles_entity@[t]->0;
            if tid.as_index_spec() == i {
                assert(w1.entities@[i].pos == w0.entities@[i].pos);
            } else {
                assert(w1.entities@[tid.as_index_spec()] == w0.entities@[tid.as_index_spec()]);
            }
        }
    }
    assert(w1.entities_ok()) by {
        assert forall|j: int| 0 <= j < w1.entities@.len() implies #[trigger] w1.entity_ok(j) by {
            assert(w0.entity_ok(j));
            proof_idx_of_entity(w0, j);
            if j == i {
                assert(w1.entity_ok(j));
            } else {
                let ej = w0.entities@[j];
                assert(w1.entities@[j] == ej);
                match ej.ty {
                    EntityType::Agent(ag) => {
                        if !ag.dead {
                            assert(ag.inv(w1));
                            match ag.job {
                                Job::Fisher { boat: Some(b) } => {
                                    assert(w0.entities@[b.as_index_spec()].ty is Building);
                                    assert(b.as_index_spec() != i);
                                    assert(w1.entities@[b.as_index_spec()] == w0.entities@[
                                        b.as_index_spec()
                                    ]);
                                },
                                _ => {},
                            }
                            if ag.in_building {
                                let slot0 = w0.tiles_entity@[w0.idx_spec(ej.pos)];
                                assert(slot0 is Some);
                                assert(w0.entities@[slot0->0.as_index_spec()].ty is Building);
                                assert(slot0->0.as_index_spec() != i);
                                assert(w1.entities@[slot0->0.as_index_spec()] == w0.entities@[
                                    slot0->0.as_index_spec()
                                ]);
                            }
                        }
                        assert(w1.entity_ok(j));
                    },
                    EntityType::Resource(_) => {
                        assert(w1.entity_ok(j));
                    },
                    EntityType::Building(b) => {
                        match b {
                            Building::Hut { agent, .. } => {
                                assert(agent.as_index_spec() != i || w0.entities@[
                                    agent.as_index_spec()
                                ].ty is Agent);
                                assert(agent.as_index_spec() != i);
                                assert(w1.entities@[agent.as_index_spec()] == w0.entities@[
                                    agent.as_index_spec()
                                ]);
                            },
                            _ => {},
                        }
                        assert(w1.entity_ok(j));
                    },
                }
            }
        }
    }
    assert(w1.boats_unique()) by {
        assert forall|x: int, y: int|
            0 <= x < w1.entities@.len() && 0 <= y < w1.entities@.len() && x != y
                && #[trigger] sails(w1.entities@[x]) is Some && #[trigger] sails(
                w1.entities@[y],
            ) is Some implies sails(w1.entities@[x]) != sails(w1.entities@[y]) by {
            assert(sails(w1.entities@[x]) == sails(w0.entities@[x]));
            assert(sails(w1.entities@[y]) == sails(w0.entities@[y]));
        }
    }
}

/// The tile index of an entity's position is valid whenever the position
/// is on the grid.
proof fn proof_idx_of_entity(w: World, j: int)
    requires
        w.dims_ok(),
        0 <= j < w.entities@.len(),
    ensures
        w.in_bounds(w.entities@[j].pos) ==> 0 <= w.idx_spec(w.entities@[j].pos)
            < w.tiles_entity@.len(),
{
    if w.in_bounds(w.entities@[j].pos) {
        w.lemma_idx(w.entities@[j].pos);
    }
}

/// Row-major indexing stays inside the grid.
#[verifier::nonlinear]
proof fn lemma_row_major_index(x: int, y: int, w: int, h: int)
    requires
        0 <= x < w,
        0 <= y < h,
    ensures
        0 <= x + y * w < w * h,
{
}

/// Row-major indexing is injective on the grid.
#[verifier::nonlinear]
proof fn lemma_row_major_injective(x1: int, y1: int, x2: int, y2: int, w: int)
    requires
        0 <= x1 < w,
        0 <= x2 < w,
        x1 + y1 * w == x2 + y2 * w,
    ensures
        x1 == x2,
        y1 == y2,
{
    assert((y1 - y2) * w == x2 - x1);
}

} // verus!
