//! The simulation parameters. All rates are held as integers: the market
//! price update rate in parts per ten thousand, the unstuckifier chance in
//! percent.

use vstd::prelude::*;

verus! {

/// Parameters of one simulation instance.
#[derive(Debug, Clone, Copy, PartialEq, Eq, Hash)]
pub struct Config {
    /// Time of day after which agents leave their job or the market to go home.
    pub closing_time: u32,
    /// At this energy an agent stops doing its job and goes home to eat.
    pub critical_energy: u32,
    /// Length of one day in ticks.
    pub day_length: u32,
    /// Ticks until a market order expires.
    pub default_exp: u32,
    /// Ticks until a market order is re-evaluated.
    pub default_rval: u32,
    /// Ticks an explorer observes its surroundings before settling on a job.
    pub exploration_timeout: u16,
    /// Cash each agent starts with.
    pub initial_cash: u32,
    /// Energy each agent starts with.
    pub initial_energy: u32,
    /// Stock of each resource each agent starts with.
    pub initial_inventory: u32,
    /// Initial nutritional value of every resource, per agent.
    pub initial_nutrition: u8,
    /// Update rate of the market price moving average, in parts per 10000.
    pub market_price_update: u32,
    /// Maximum energy of an agent.
    pub max_energy: u32,
    /// Energy subtracted from every agent every tick.
    pub energy_cost: u32,
    /// Added to the nutritional value of the resources an agent did not just eat.
    pub nutrition_add: u8,
    /// Subtracted from the nutritional value of the resource an agent just ate.
    pub nutrition_sub: u8,
    /// Percentage an order's price decays to when re-evaluated below the market price.
    pub order_price_decay: u32,
    /// Mean of the resource respawn amount distribution.
    pub resource_amount_mean: u32,
    /// Standard deviation of the resource respawn amount distribution.
    pub resource_amount_sd: u32,
    /// Observation points an explorer credits a nearby boat with.
    pub explorer_fish_points: u32,
    /// An explorer divides the amount of a nearby stock by this to score it.
    pub explorer_resource_divisor: u32,
    /// Ticks a depleted resource lies dormant before it respawns.
    pub resource_timeout: u16,
    /// Radius of agent searches; a search visits radius squared tiles.
    pub search_radius: usize,
    /// Ticks without meeting the cash quota before an agent becomes an explorer.
    pub timeout_quota: u16,
    /// Chance in percent that a planned directional step is attempted before
    /// falling back to a random walk.
    pub unstuckifier_chance: u32,
}

impl Config {
    /// The bounds under which the engine's arithmetic is proved exact.
    pub open spec fn wf(self) -> bool {
        &&& self.day_length >= 1
        &&& self.max_energy <= 1_000_000_000
        &&& self.initial_energy <= self.max_energy
        &&& self.market_price_update <= 10_000
        &&& self.order_price_decay <= 100
        &&& self.unstuckifier_chance <= 100
        &&& self.resource_timeout >= 1
        &&& self.explorer_resource_divisor >= 1
        &&& self.search_radius <= 10_000
    }

    /// Whether this configuration satisfies the engine's bounds; mirrors [`Config::wf`].
    pub fn check(&self) -> (r: bool)
        ensures
            r == self.wf(),
    {
        self.day_length >= 1
            && self.max_energy <= 1_000_000_000
            && self.initial_energy <= self.max_energy
            && self.market_price_update <= 10_000
            && self.order_price_decay <= 100
            && self.unstuckifier_chance <= 100
            && self.resource_timeout >= 1
            && self.explorer_resource_divisor >= 1
            && self.search_radius <= 10_000
    }
}

impl Default for Config {
    /// The canonical default parameters of a 200-tick day.
    fn default() -> (r: Config)
        ensures
            r.wf(),
            r.day_length == 200,
            r.initial_energy == 5000,
            r.energy_cost == 2,
            r.initial_cash == 20000,
    {
        Config {
            closing_time: 150,
            critical_energy: 500,
            day_length: 200,
            default_exp: 2000,
            default_rval: 600,
            exploration_timeout: 500,
            initial_cash: 20000,
            initial_energy: 5000,
            initial_inventory: 0,
            initial_nutrition: 100,
            market_price_update: 100,
            max_energy: 10000,
            energy_cost: 2,
            nutrition_add: 4,
            nutrition_sub: 9,
            order_price_decay: 75,
            resource_amount_mean: 20,
            resource_amount_sd: 10,
            explorer_fish_points: 50,
            explorer_resource_divisor: 10,
            resource_timeout: 2000,
            search_radius: 15,
            timeout_quota: 2000,
            unstuckifier_chance: 75,
        }
    }
}

} // verus!
