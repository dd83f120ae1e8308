//! The global market: per-resource order books with time-decayed,
//! periodically repriced limit orders, an integer fixed-point moving average
//! of trade prices, and per-day demand counters.
//!
//! The moving average is held in parts per ten thousand: a stored value of
//! `10_000` stands for a price of one.

use vstd::prelude::*;

use crate::config::Config;
use crate::entity::EntityId;
use crate::resources::PerResource;
use crate::resources::ResourceItem;

use vstd::arithmetic::mul::lemma_mul_nonnegative;
use vstd::arithmetic::mul::lemma_mul_upper_bound;
verus! {

broadcast use vstd::seq_lib::group_to_multiset_ensures;


/// Upper bound of the stored fixed-point market price: the largest unit
/// price, scaled by ten thousand.
pub open spec fn price_scale_max() -> int {
    u32::MAX * 10_000
}

/// One standing offer to sell `amount` units for `cached_price` each.
#[derive(Debug, Clone, Copy, PartialEq, Eq, Structural)]
pub struct Order {
    /// The current price per unit, moved toward the market price whenever
    /// the order is re-evaluated.
    pub cached_price: u32,
    /// The price per unit the placing agent first asked.
    pub value: u32,
    /// Units left in this order; an order leaves the book when this is zero.
    pub amount: u32,
    /// The agent that placed the order and is owed the proceeds.
    pub agent: EntityId,
    /// Ticks until the next re-evaluation.
    pub re_eval: u32,
    /// Ticks until this order expires.
    pub expiration: u32,
}

impl Order {
    /// Count down one tick of this order's lifetime. Returns true when the
    /// order has expired and must leave the book.
    pub fn expire(&mut self) -> (r: bool)
        ensures
            final(self).expiration == if old(self).expiration > 0 {
                (old(self).expiration - 1) as u32
            } else {
                0u32
            },
            r == (final(self).expiration == 0),
            final(self).cached_price == old(self).cached_price,
            final(self).value == old(self).value,
            final(self).amount == old(self).amount,
            final(self).agent == old(self).agent,
            final(self).re_eval == old(self).re_eval,
    {
        if self.expiration > 0 {
            self.expiration = self.expiration - 1;
        }
        self.expiration == 0
    }

    /// The price this order re-evaluates to: halfway down toward the market
    /// price when it stands above it, decayed by a fixed percentage
    /// otherwise.
    pub open spec fn repriced(self, market_price: u32, config: Config) -> u32 {
        if self.cached_price > market_price {
            (self.cached_price - (self.cached_price - market_price) / 2) as u32
        } else {
            ((self.cached_price * config.order_price_decay) / 100) as u32
        }
    }

    /// Count down one tick toward re-evaluation; when the countdown runs
    /// out, reprice and start a fresh countdown.
    pub fn cache_price(&mut self, market_price: u32, config: &Config)
        requires
            config.order_price_decay <= 100,
        ensures
            final(self).cached_price == if old(self).re_eval <= 1 {
                old(self).repriced(market_price, *config)
            } else {
                old(self).cached_price
            },
            final(self).re_eval == if old(self).re_eval <= 1 {
                config.default_rval
            } else {
                (old(self).re_eval - 1) as u32
            },
            final(self).value == old(self).value,
            final(self).amount == old(self).amount,
            final(self).agent == old(self).agent,
            final(self).expiration == old(self).expiration,
    {
        if self.re_eval > 0 {
            self.re_eval = self.re_eval - 1;
        }
        if self.re_eval == 0 {
            if self.cached_price > market_price {
                let diff = self.cached_price - market_price;
                self.cached_price = self.cached_price - diff / 2;
            } else {
                proof {
                    lemma_mul_upper_bound(
                        self.cached_price as int,
                        u32::MAX as int,
                        config.order_price_decay as int,
                        100,
                    );
                }
                let decayed: u64 = (self.cached_price as u64) * (config.order_price_decay as u64)
                    / 100;
                assert(decayed <= u32::MAX) by (nonlinear_arith)
                    requires
                        decayed == self.cached_price as int * config.order_price_decay as int
                            / 100,
                        self.cached_price <= u32::MAX,
                        config.order_price_decay <= 100,
                ;
                self.cached_price = decayed as u32;
            }
            self.re_eval = config.default_rval;
        }
    }

    /// Take up to `amount` units out of this order. Returns the price per
    /// unit and the units actually taken.
    pub fn fulfill(&mut self, amount: u32) -> (r: (u32, u32))
        ensures
            final(self).amount == if amount >= old(self).amount {
                0u32
            } else {
                (old(self).amount - amount) as u32
            },
            r.0 == old(self).cached_price,
            r.1 == if amount >= old(self).amount {
                old(self).amount
            } else {
                amount
            },
            final(self).cached_price == old(self).cached_price,
            final(self).value == old(self).value,
            final(self).agent == old(self).agent,
            final(self).re_eval == old(self).re_eval,
            final(self).expiration == old(self).expiration,
    {
        let taken: u32 = if amount >= self.amount {
            self.amount
        } else {
            amount
        };
        self.amount = self.amount - taken;
        (self.cached_price, taken)
    }
}

/// An order list sorted ascending by `cached_price`.
pub open spec fn sorted_by_price(os: Seq<Order>) -> bool {
    forall|i: int, j: int|
        0 <= i < j < os.len() ==> os[i].cached_price <= os[j].cached_price
}

/// Every order in the list is live (has units left) and names a proper
/// entity id. That the id refers to an agent of the store is part of the
/// world's own invariant.
pub open spec fn orders_live(os: Seq<Order>) -> bool {
    forall|i: int| 0 <= i < os.len() ==> (#[trigger] os[i]).amount > 0 && os[i].agent.wf()
}

/// One step of the fixed-point moving average: mix the old value with a
/// trade at unit price `p`, at a rate of `upd` parts per ten thousand.
pub open spec fn ema_step(e: int, p: int, upd: int) -> int {
    (e * (10_000 - upd) + p * 10_000 * upd) / 10_000
}

/// The moving average after a sequence of fills, applied oldest first.
pub open spec fn ema_fold(e: int, fills: Seq<(u32, u32)>, upd: int) -> int
    decreases fills.len(),
{
    if fills.len() == 0 {
        e
    } else {
        ema_step(ema_fold(e, fills.drop_last(), upd), fills.last().0 as int, upd)
    }
}

/// The demand counter after a sequence of fills, added with saturation.
pub open spec fn demand_fold(d: int, fills: Seq<(u32, u32)>) -> int
    decreases fills.len(),
{
    if fills.len() == 0 {
        d
    } else {
        let prev = demand_fold(d, fills.drop_last());
        if prev + fills.last().1 > u32::MAX {
            u32::MAX as int
        } else {
            prev + fills.last().1
        }
    }
}

/// How many units of the front order a walk takes: no more than the order
/// offers, no more than are still wanted, and no more than the budget
/// left pays for at the order's price.
pub open spec fn take_of(o: Order, amt: int, cash: int, acc: int) -> int {
    let q_want: int = if o.amount <= amt {
        o.amount as int
    } else {
        amt
    };
    if o.cached_price == 0 {
        q_want
    } else if (cash - acc) / (o.cached_price as int) < q_want {
        (cash - acc) / (o.cached_price as int)
    } else {
        q_want
    }
}

/// The outcome of walking an order list from the cheapest order with a
/// budget: the payments owed `(seller, total)`, the fills `(price, units)`,
/// the surviving orders, and the units bought. Each order is filled as far
/// as the budget reaches; the walk stops at the first order of which not
/// even one unit is affordable.
pub open spec fn buy_walk(os: Seq<Order>, amt: int, cash: int, acc: int) -> (
    Seq<(EntityId, u32)>,
    Seq<(u32, u32)>,
    Seq<Order>,
    int,
)
    decreases os.len(),
{
    if amt <= 0 || os.len() == 0 {
        (Seq::empty(), Seq::empty(), os, 0)
    } else {
        let o = os[0];
        let q: int = take_of(o, amt, cash, acc);
        let cost: int = q * o.cached_price;
        if q <= 0 {
            (Seq::empty(), Seq::empty(), os, 0)
        } else {
            let rest = buy_walk(os.drop_first(), amt - q, cash, acc + cost);
            let survivors: Seq<Order> = if q == o.amount {
                rest.2
            } else {
                seq![Order { amount: (o.amount - q) as u32, ..o }] + rest.2
            };
            (
                seq![(o.agent, cost as u32)] + rest.0,
                seq![(o.cached_price, q as u32)] + rest.1,
                survivors,
                q + rest.3,
            )
        }
    }
}

/// What the walk takes of the front order never costs more than the
/// budget left.
pub proof fn lemma_take_cost(o: Order, amt: int, cash: int, acc: int)
    requires
        0 <= acc <= cash,
    ensures
        0 <= take_of(o, amt, cash, acc) * o.cached_price <= cash - acc || take_of(
            o,
            amt,
            cash,
            acc,
        ) <= 0,
{
    let q = take_of(o, amt, cash, acc);
    if q > 0 {
        lemma_mul_nonnegative(q, o.cached_price as int);
        if o.cached_price == 0 {
            assert(q * o.cached_price == 0) by (nonlinear_arith)
                requires
                    o.cached_price == 0,
            ;
        } else {
            let p = o.cached_price as int;
            let afford = (cash - acc) / p;
            assert(q <= afford);
            vstd::arithmetic::div_mod::lemma_fundamental_div_mod(cash - acc, p);
            assert(p * afford <= cash - acc);
            vstd::arithmetic::mul::lemma_mul_inequality(q, afford, p);
            assert(q * p <= afford * p);
            assert(afford * p == p * afford) by (nonlinear_arith);
        }
    }
}

/// The total of a payment list.
pub open spec fn payments_total(ps: Seq<(EntityId, u32)>) -> int
    decreases ps.len(),
{
    if ps.len() == 0 {
        0
    } else {
        ps[0].1 + payments_total(ps.drop_first())
    }
}

/// Every payment of a walk names the agent of some order in the list.
pub proof fn lemma_buy_walk_agents(os: Seq<Order>, amt: int, cash: int, acc: int)
    ensures
        forall|k: int|
            0 <= k < buy_walk(os, amt, cash, acc).0.len() ==> exists|i: int|
                0 <= i < os.len() && os[i].agent == #[trigger] buy_walk(
                    os,
                    amt,
                    cash,
                    acc,
                ).0[k].0,
    decreases os.len(),
{
    if amt <= 0 || os.len() == 0 {
    } else {
        let o = os[0];
        let q: int = take_of(o, amt, cash, acc);
        let cost: int = q * o.cached_price;
        if q <= 0 {
        } else {
            lemma_buy_walk_agents(os.drop_first(), amt - q, cash, acc + cost);
            let rest = buy_walk(os.drop_first(), amt - q, cash, acc + cost);
            let whole = buy_walk(os, amt, cash, acc);
            assert forall|k: int| 0 <= k < whole.0.len() implies exists|i: int|
                0 <= i < os.len() && os[i].agent == #[trigger] whole.0[k].0 by {
                if k == 0 {
                    assert(whole.0[0].0 == os[0].agent);
                } else {
                    assert(whole.0[k] == rest.0[k - 1]);
                    let i0 = choose|i: int|
                        0 <= i < os.drop_first().len() && os.drop_first()[i].agent == rest.0[k
                            - 1].0;
                    assert(os[i0 + 1].agent == whole.0[k].0);
                }
            }
        }
    }
}

/// The total of a prefix one longer: add the next entry.
pub proof fn lemma_take_payments_snoc(ps: Seq<(EntityId, u32)>, k: int)
    requires
        0 <= k < ps.len(),
    ensures
        payments_total(ps.take(k + 1)) == payments_total(ps.take(k)) + ps[k].1,
{
    lemma_payments_total_snoc_pub(ps.take(k + 1));
    assert(ps.take(k + 1).drop_last() =~= ps.take(k));
    assert(ps.take(k + 1).last() == ps[k]);
}

/// `payments_total` with the last entry split off.
pub proof fn lemma_payments_total_snoc_pub(ps: Seq<(EntityId, u32)>)
    requires
        ps.len() > 0,
    ensures
        payments_total(ps) == payments_total(ps.drop_last()) + ps.last().1,
{
    lemma_payments_total_snoc(ps);
}

/// A payment list total is never negative, and bounds each entry.
pub proof fn lemma_payments_total_nonneg(ps: Seq<(EntityId, u32)>)
    ensures
        payments_total(ps) >= 0,
        forall|k: int| 0 <= k < ps.len() ==> payments_total(ps.skip(k)) >= 0,
    decreases ps.len(),
{
    if ps.len() > 0 {
        lemma_payments_total_nonneg(ps.drop_first());
        assert forall|k: int| 0 <= k < ps.len() implies payments_total(ps.skip(k)) >= 0 by {
            if k == 0 {
                assert(ps.skip(0) =~= ps);
            } else {
                assert(ps.skip(k) =~= ps.drop_first().skip(k - 1));
            }
        }
    }
}

/// Every surviving order of a walk keeps the agent of some original order.
pub proof fn lemma_buy_walk_survivor_agents(os: Seq<Order>, amt: int, cash: int, acc: int)
    ensures
        forall|k: int|
            0 <= k < buy_walk(os, amt, cash, acc).2.len() ==> exists|i: int|
                0 <= i < os.len() && os[i].agent == (#[trigger] buy_walk(
                    os,
                    amt,
                    cash,
                    acc,
                ).2[k]).agent,
    decreases os.len(),
{
    if amt <= 0 || os.len() == 0 {
        assert forall|k: int| 0 <= k < buy_walk(os, amt, cash, acc).2.len() implies exists|i: int|
            0 <= i < os.len() && os[i].agent == (#[trigger] buy_walk(os, amt, cash, acc).2[
                k
            ]).agent by {
            assert(buy_walk(os, amt, cash, acc).2[k] == os[k]);
        }
    } else {
        let o = os[0];
        let q: int = take_of(o, amt, cash, acc);
        let cost: int = q * o.cached_price;
        if q <= 0 {
            assert forall|k: int| 0 <= k < buy_walk(os, amt, cash, acc).2.len() implies exists|
                i: int,
            | 0 <= i < os.len() && os[i].agent == (#[trigger] buy_walk(os, amt, cash, acc).2[
                k
            ]).agent by {
                assert(buy_walk(os, amt, cash, acc).2[k] == os[k]);
            }
        } else {
            lemma_buy_walk_survivor_agents(os.drop_first(), amt - q, cash, acc + cost);
            let rest = buy_walk(os.drop_first(), amt - q, cash, acc + cost);
            let whole = buy_walk(os, amt, cash, acc);
            assert forall|k: int| 0 <= k < whole.2.len() implies exists|i: int|
                0 <= i < os.len() && os[i].agent == (#[trigger] whole.2[k]).agent by {
                if q != o.amount && k == 0 {
                    assert(whole.2[0].agent == os[0].agent);
                } else {
                    let kr = if q != o.amount {
                        k - 1
                    } else {
                        k
                    };
                    assert(whole.2[k] == rest.2[kr]);
                    let i0 = choose|i: int|
                        0 <= i < os.drop_first().len() && os.drop_first()[i].agent == rest.2[
                            kr
                        ].agent;
                    assert(os[i0 + 1].agent == whole.2[k].agent);
                }
            }
        }
    }
}

/// The survivors of a walk over a live, sorted list are live and sorted.
pub proof fn lemma_buy_walk_survivors(os: Seq<Order>, amt: int, cash: int, acc: int)
    requires
        sorted_by_price(os),
        orders_live(os),
    ensures
        sorted_by_price(buy_walk(os, amt, cash, acc).2),
        orders_live(buy_walk(os, amt, cash, acc).2),
    decreases os.len(),
{
    if amt <= 0 || os.len() == 0 {
    } else {
        let o = os[0];
        let q: int = take_of(o, amt, cash, acc);
        let cost: int = q * o.cached_price;
        if q <= 0 {
        } else {
            assert(os[0] == o);
            assert(forall|i: int|
                0 <= i < os.drop_first().len() ==> os.drop_first()[i] == os[i + 1]);
            lemma_buy_walk_survivors(os.drop_first(), amt - q, cash, acc + cost);
            let rest = buy_walk(os.drop_first(), amt - q, cash, acc + cost);
            if q != o.amount {
                // A partial fill happens only when the want or the budget
                // runs out; either way the walk takes nothing further, so
                // the tail of the book survives unchanged behind the
                // reduced head order.
                let head = Order { amount: (o.amount - q) as u32, ..o };
                let s = buy_walk(os, amt, cash, acc).2;
                assert(s == seq![head] + rest.2);
                assert(rest.2 == os.drop_first()) by {
                    if amt - q > 0 && os.drop_first().len() > 0 {
                        // The budget ran out: what is left of it does not
                        // pay for one unit at any later (higher) price.
                        let p = o.cached_price as int;
                        assert(o.cached_price != 0);
                        assert(q == (cash - acc) / p);
                        let o2 = os.drop_first()[0];
                        let p2 = o2.cached_price as int;
                        assert(p2 >= p);
                        assert(p2 >= 1);
                        vstd::arithmetic::div_mod::lemma_fundamental_div_mod(cash - acc, p);
                        vstd::arithmetic::div_mod::lemma_mod_bound(cash - acc, p);
                        assert(cost == q * p);
                        assert(p * q == q * p) by (nonlinear_arith);
                        let left = cash - (acc + cost);
                        assert(left == (cash - acc) % p);
                        assert(0 <= left < p2);
                        vstd::arithmetic::div_mod::lemma_fundamental_div_mod_converse(
                            left,
                            p2,
                            0,
                            left,
                        );
                        assert(left / p2 == 0);
                        assert(take_of(o2, amt - q, cash, acc + cost) <= 0);
                    }
                }
                assert(forall|i: int| 1 <= i < s.len() ==> s[i] == os[i]);
            }
        }
    }
}

/// The global market. This is the trading backend behind every market
/// building on the map.
#[derive(Debug, Clone)]
pub struct Market {
    /// Moving average of trade prices, in parts per ten thousand.
    pub market_price: PerResource<u64>,
    /// Units of each resource sold since the last day boundary.
    pub market_demand: PerResource<u32>,
    /// The open orders for each resource, sorted from cheapest to most
    /// expensive.
    pub orders: PerResource<Vec<Order>>,
    /// The simulation parameters.
    pub config: Config,
}

impl Market {
    /// A fresh market with no orders, no demand, and all moving averages at
    /// zero.
    pub fn new(config: Config) -> (r: Market)
        ensures
            r.config == config,
            forall|it: ResourceItem| (#[trigger] r.orders.spec_get(it))@.len() == 0,
            forall|it: ResourceItem| (#[trigger] r.market_price.spec_get(it)) == 0,
            forall|it: ResourceItem| (#[trigger] r.market_demand.spec_get(it)) == 0,
            r.wf_books(),
    {
        let r = Market {
            market_price: PerResource::new(0u64),
            market_demand: PerResource::new(0u32),
            orders: PerResource {
                wheat: Vec::new(),
                berry: Vec::new(),
                fish: Vec::new(),
                meat: Vec::new(),
            },
            config,
        };
        assert(forall|it: ResourceItem| (#[trigger] r.orders.spec_get(it))@.len() == 0) by {
            assert(r.orders.spec_get(ResourceItem::Wheat)@.len() == 0);
            assert(r.orders.spec_get(ResourceItem::Berry)@.len() == 0);
            assert(r.orders.spec_get(ResourceItem::Fish)@.len() == 0);
            assert(r.orders.spec_get(ResourceItem::Meat)@.len() == 0);
        }
        r
    }

    /// The current integer price estimate for one resource.
    pub fn market_price(&self, resource_item: ResourceItem) -> (r: u32)
        requires
            self.market_price.spec_get(resource_item) <= price_scale_max(),
        ensures
            r == self.market_price.spec_get(resource_item) / 10_000,
    {
        (*self.market_price.get(resource_item) / 10_000) as u32
    }

    /// The currently cheapest offered price per resource, where any order
    /// stands.
    pub fn cheapest_prices(&self) -> (r: PerResource<Option<u32>>)
        ensures
            forall|it: ResourceItem|
                #[trigger] r.spec_get(it) == if self.orders.spec_get(it)@.len() == 0 {
                    Option::<u32>::None
                } else {
                    Some(self.orders.spec_get(it)@[0].cached_price)
                },
    {
        PerResource {
            wheat: if self.orders.wheat.len() == 0 {
                None
            } else {
                Some(self.orders.wheat[0].cached_price)
            },
            berry: if self.orders.berry.len() == 0 {
                None
            } else {
                Some(self.orders.berry[0].cached_price)
            },
            fish: if self.orders.fish.len() == 0 {
                None
            } else {
                Some(self.orders.fish[0].cached_price)
            },
            meat: if self.orders.meat.len() == 0 {
                None
            } else {
                Some(self.orders.meat[0].cached_price)
            },
        }
    }

    /// Total units offered across all orders for one resource, clamped to
    /// the `u32` range.
    pub fn availability(&self, resource_item: ResourceItem) -> (r: u32)
        ensures
            r == clamp_u32(sum_amounts(self.orders.spec_get(resource_item)@)),
    {
        let os = self.orders.get(resource_item);
        let n = os.len();
        let mut total: u32 = 0;
        let mut i: usize = 0;
        while i < n
            invariant
                i <= n,
                n == os@.len(),
                total == clamp_u32(sum_amounts(os@.take(i as int))),
            decreases n - i,
        {
            proof {
                lemma_sum_amounts_snoc(os@.take(i as int + 1));
                assert(os@.take(i as int + 1).drop_last() =~= os@.take(i as int));
            }
            total = total.saturating_add(os[i].amount);
            i = i + 1;
        }
        proof {
            assert(os@.take(n as int) =~= os@);
        }
        total
    }

    /// Total units offered per resource, clamped to the `u32` range.
    pub fn volume(&self) -> (r: PerResource<u32>)
        ensures
            forall|it: ResourceItem|
                #[trigger] r.spec_get(it) == clamp_u32(sum_amounts(self.orders.spec_get(it)@)),
    {
        let r = PerResource {
            wheat: self.availability(ResourceItem::Wheat),
            berry: self.availability(ResourceItem::Berry),
            fish: self.availability(ResourceItem::Fish),
            meat: self.availability(ResourceItem::Meat),
        };
        assert forall|it: ResourceItem|
            #[trigger] r.spec_get(it) == clamp_u32(sum_amounts(self.orders.spec_get(it)@)) by {
            match it {
                ResourceItem::Wheat => {},
                ResourceItem::Berry => {},
                ResourceItem::Fish => {},
                ResourceItem::Meat => {},
            }
        }
        r
    }

    /// An estimate of the cost of buying a set of resources at the current
    /// market prices, clamped to the `u32` range.
    pub fn total_price(&self, meals: &PerResource<u32>) -> (r: u32)
        requires
            forall|it: ResourceItem| (#[trigger] self.market_price.spec_get(it))
                <= price_scale_max(),
        ensures
            r == clamp_u32(
                self.market_price.spec_get(ResourceItem::Wheat) as int / 10_000 * meals.spec_get(
                    ResourceItem::Wheat,
                ) + self.market_price.spec_get(ResourceItem::Berry) as int / 10_000
                    * meals.spec_get(ResourceItem::Berry) + self.market_price.spec_get(
                    ResourceItem::Fish,
                ) as int / 10_000 * meals.spec_get(ResourceItem::Fish)
                    + self.market_price.spec_get(ResourceItem::Meat) as int / 10_000
                    * meals.spec_get(ResourceItem::Meat),
            ),
    {
        let pw: u64 = mul_u32(self.market_price(ResourceItem::Wheat), meals.wheat);
        let pb: u64 = mul_u32(self.market_price(ResourceItem::Berry), meals.berry);
        let pf: u64 = mul_u32(self.market_price(ResourceItem::Fish), meals.fish);
        let pm: u64 = mul_u32(self.market_price(ResourceItem::Meat), meals.meat);
        let s1: u64 = pw.saturating_add(pb);
        let s2: u64 = s1.saturating_add(pf);
        let s3: u64 = s2.saturating_add(pm);
        proof {
            assert(pw <= u32::MAX * u32::MAX);
            assert(pb <= u32::MAX * u32::MAX);
            assert(pf <= u32::MAX * u32::MAX);
            assert(pm <= u32::MAX * u32::MAX);
        }
        if s3 > u32::MAX as u64 {
            u32::MAX
        } else {
            s3 as u32
        }
    }

    /// Count down one tick of the market: reset the demand at every day
    /// boundary, expire orders past their lifetime, re-evaluate order
    /// prices, and restore each book's sort order.
    pub fn step(&mut self, tick: u32)
        requires
            old(self).wf_books(),
            old(self).config.wf(),
        ensures
            final(self).wf_books(),
            final(self).config == old(self).config,
            final(self).market_price == old(self).market_price,
            final(self).market_demand == if tick as int % old(self).config.day_length as int
                == 0 {
                PerResource::new_spec(0u32)
            } else {
                old(self).market_demand
            },
            forall|it: ResourceItem| (#[trigger] final(self).orders.spec_get(it))@.to_multiset()
                == step_orders(
                old(self).orders.spec_get(it)@,
                (old(self).market_price.spec_get(it) / 10_000) as u32,
                old(self).config,
            ).to_multiset(),
            forall|it: ResourceItem| (#[trigger] final(self).orders.spec_get(it))@ == sort_book(
                step_orders(
                    old(self).orders.spec_get(it)@,
                    (old(self).market_price.spec_get(it) / 10_000) as u32,
                    old(self).config,
                ),
            ),
    {
        if tick % self.config.day_length == 0 {
            self.market_demand = PerResource::new(0u32);
        }
        let mp_w = self.market_price(ResourceItem::Wheat);
        let mp_b = self.market_price(ResourceItem::Berry);
        let mp_f = self.market_price(ResourceItem::Fish);
        let mp_m = self.market_price(ResourceItem::Meat);
        let config = self.config;
        proof {
            assert(sorted_by_price(self.orders.spec_get(ResourceItem::Wheat)@));
            assert(sorted_by_price(self.orders.spec_get(ResourceItem::Berry)@));
            assert(sorted_by_price(self.orders.spec_get(ResourceItem::Fish)@));
            assert(sorted_by_price(self.orders.spec_get(ResourceItem::Meat)@));
        }
        step_one_book(&mut self.orders.wheat, mp_w, &config);
        step_one_book(&mut self.orders.berry, mp_b, &config);
        step_one_book(&mut self.orders.fish, mp_f, &config);
        step_one_book(&mut self.orders.meat, mp_m, &config);
        assert forall|it: ResourceItem| (#[trigger] self.orders.spec_get(it))@.to_multiset()
            == step_orders(
            old(self).orders.spec_get(it)@,
            (old(self).market_price.spec_get(it) / 10_000) as u32,
            old(self).config,
        ).to_multiset() by {
            match it {
                ResourceItem::Wheat => {},
                ResourceItem::Berry => {},
                ResourceItem::Fish => {},
                ResourceItem::Meat => {},
            }
        }
        assert forall|it: ResourceItem|
            sorted_by_price((#[trigger] self.orders.spec_get(it))@) && orders_live(
                self.orders.spec_get(it)@,
            ) by {
            lemma_step_orders_live(
                old(self).orders.spec_get(it)@,
                (old(self).market_price.spec_get(it) / 10_000) as u32,
                old(self).config,
            );
            let stepped = step_orders(
                old(self).orders.spec_get(it)@,
                (old(self).market_price.spec_get(it) / 10_000) as u32,
                old(self).config,
            );
            assert(self.orders.spec_get(it)@.to_multiset() == stepped.to_multiset());
            assert forall|i: int| 0 <= i < self.orders.spec_get(it)@.len() implies (
            #[trigger] self.orders.spec_get(it)@[i]).amount > 0 && self.orders.spec_get(
                it,
            )@[i].agent.wf() by {
                let o = self.orders.spec_get(it)@[i];
                assert(self.orders.spec_get(it)@.to_multiset().contains(o));
                assert(stepped.to_multiset().contains(o));
                assert(stepped.contains(o));
                let j = choose|j: int| 0 <= j < stepped.len() && stepped[j] == o;
            }
            match it {
                ResourceItem::Wheat => {},
                ResourceItem::Berry => {},
                ResourceItem::Fish => {},
                ResourceItem::Meat => {},
            }
        }
    }

    /// Every book sorted and live; the price bound and the configuration
    /// bounds are stated separately so that this can be re-established
    /// piecewise.
    pub open spec fn wf_books(self) -> bool {
        &&& forall|r: ResourceItem|
            sorted_by_price((#[trigger] self.orders.spec_get(r))@) && orders_live(
                self.orders.spec_get(r)@,
            )
        &&& forall|r: ResourceItem| (#[trigger] self.market_price.spec_get(r))
            <= price_scale_max()
    }

    /// Place an order on the market: insert it into the book for `item` at
    /// the position that keeps the book sorted, behind any order of the
    /// same price. The caller has already debited the seller's inventory.
    pub fn order(&mut self, agent: EntityId, item: ResourceItem, price: u32, amount: u32)
        requires
            old(self).wf_books(),
            amount > 0,
            agent.wf(),
        ensures
            final(self).wf_books(),
            final(self).config == old(self).config,
            final(self).market_price == old(self).market_price,
            final(self).market_demand == old(self).market_demand,
            forall|it: ResourceItem|
                it != item ==> #[trigger] final(self).orders.spec_get(it) == old(
                    self,
                ).orders.spec_get(it),
            inserted_sorted(
                old(self).orders.spec_get(item)@,
                final(self).orders.spec_get(item)@,
                Order {
                    cached_price: price,
                    value: price,
                    amount,
                    agent,
                    expiration: old(self).config.default_exp,
                    re_eval: old(self).config.default_rval,
                },
            ),
    {
        let new_order = Order {
            cached_price: price,
            value: price,
            amount,
            agent,
            expiration: self.config.default_exp,
            re_eval: self.config.default_rval,
        };
        proof {
            assert(sorted_by_price(self.orders.spec_get(ResourceItem::Wheat)@));
            assert(sorted_by_price(self.orders.spec_get(ResourceItem::Berry)@));
            assert(sorted_by_price(self.orders.spec_get(ResourceItem::Fish)@));
            assert(sorted_by_price(self.orders.spec_get(ResourceItem::Meat)@));
            assert(orders_live(self.orders.spec_get(ResourceItem::Wheat)@));
            assert(orders_live(self.orders.spec_get(ResourceItem::Berry)@));
            assert(orders_live(self.orders.spec_get(ResourceItem::Fish)@));
            assert(orders_live(self.orders.spec_get(ResourceItem::Meat)@));
        }
        match item {
            ResourceItem::Wheat => insert_order(&mut self.orders.wheat, new_order),
            ResourceItem::Berry => insert_order(&mut self.orders.berry, new_order),
            ResourceItem::Fish => insert_order(&mut self.orders.fish, new_order),
            ResourceItem::Meat => insert_order(&mut self.orders.meat, new_order),
        }
        assert forall|it: ResourceItem|
            sorted_by_price((#[trigger] self.orders.spec_get(it))@) && orders_live(
                self.orders.spec_get(it)@,
            ) by {
            match it {
                ResourceItem::Wheat => {},
                ResourceItem::Berry => {},
                ResourceItem::Fish => {},
                ResourceItem::Meat => {},
            }
        }
    }

    /// Buy up to `amount` units of one resource, walking the book from the
    /// cheapest order under a strict per-order budget cap. Returns the
    /// payments owed to each seller and the units actually bought; orders
    /// that were fully taken leave the book.
    pub fn buy(&mut self, resource: ResourceItem, amount: u32, cash_available: u32) -> (r: (
        Vec<(EntityId, u32)>,
        u32,
    ))
        requires
            old(self).wf_books(),
            old(self).config.wf(),
        ensures
            ({
                let walk = buy_walk(
                    old(self).orders.spec_get(resource)@,
                    amount as int,
                    cash_available as int,
                    0,
                );
                &&& r.0@ == walk.0
                &&& r.1 == walk.3
                &&& r.1 <= amount
                &&& payments_total(r.0@) <= cash_available
                &&& final(self).orders.spec_get(resource)@ == walk.2
                &&& forall|it: ResourceItem|
                    it != resource ==> #[trigger] final(self).orders.spec_get(it) == old(
                        self,
                    ).orders.spec_get(it)
                &&& final(self).market_price == old(self).market_price.spec_set(
                    resource,
                    ema_fold(
                        old(self).market_price.spec_get(resource) as int,
                        walk.1,
                        old(self).config.market_price_update as int,
                    ) as u64,
                )
                &&& final(self).market_demand == old(self).market_demand.spec_set(
                    resource,
                    demand_fold(old(self).market_demand.spec_get(resource) as int, walk.1) as u32,
                )
                &&& final(self).config == old(self).config
                &&& final(self).wf_books()
            }),
    {
        let ghost os0 = self.orders.spec_get(resource)@;
        let upd: u32 = self.config.market_price_update;
        let mut sellers: Vec<(EntityId, u32)> = Vec::new();
        let mut kept: Vec<Order> = Vec::new();
        let mut am_left: u32 = amount;
        let mut acc: u64 = 0;
        let mut ema: u64 = *self.market_price.get(resource);
        let mut demand: u32 = *self.market_demand.get(resource);
        let ghost mut fills: Seq<(u32, u32)> = Seq::empty();
        let n = self.orders.get(resource).len();
        let mut i: usize = 0;
        proof {
            assert(os0.skip(0) =~= os0);
            let whole = buy_walk(os0, amount as int, cash_available as int, 0);
            assert(Seq::<(EntityId, u32)>::empty() + whole.0 =~= whole.0);
            assert(Seq::<(u32, u32)>::empty() + whole.1 =~= whole.1);
            assert(Seq::<Order>::empty() + whole.2 =~= whole.2);
            assert(payments_total(Seq::<(EntityId, u32)>::empty()) == 0);
        }
        loop
            invariant_except_break
                i <= n,
                n == os0.len(),
                os0 == self.orders.spec_get(resource)@,
                self.config == old(self).config,
                self.market_price == old(self).market_price,
                self.market_demand == old(self).market_demand,
                self.orders == old(self).orders,
                upd == old(self).config.market_price_update,
                old(self).config.wf(),
                old(self).wf_books(),
                acc <= cash_available,
                am_left <= amount,
                ema <= price_scale_max(),
                ema == ema_fold(
                    old(self).market_price.spec_get(resource) as int,
                    fills,
                    upd as int,
                ),
                demand == demand_fold(old(self).market_demand.spec_get(resource) as int, fills),
                payments_total(sellers@) == acc,
                ({
                    let w = buy_walk(
                        os0.skip(i as int),
                        am_left as int,
                        cash_available as int,
                        acc as int,
                    );
                    let whole = buy_walk(os0, amount as int, cash_available as int, 0);
                    &&& whole.0 == sellers@ + w.0
                    &&& whole.1 == fills + w.1
                    &&& whole.2 == kept@ + w.2
                    &&& whole.3 == amount - am_left + w.3
                }),
            ensures
                i <= n,
                n == os0.len(),
                os0 == self.orders.spec_get(resource)@,
                self.config == old(self).config,
                self.market_price == old(self).market_price,
                self.market_demand == old(self).market_demand,
                self.orders == old(self).orders,
                acc <= cash_available,
                am_left <= amount,
                ema <= price_scale_max(),
                ema == ema_fold(
                    old(self).market_price.spec_get(resource) as int,
                    fills,
                    upd as int,
                ),
                demand == demand_fold(old(self).market_demand.spec_get(resource) as int, fills),
                payments_total(sellers@) == acc,
                ({
                    let whole = buy_walk(os0, amount as int, cash_available as int, 0);
                    &&& whole.0 == sellers@
                    &&& whole.1 == fills
                    &&& whole.2 == kept@ + os0.skip(i as int)
                    &&& whole.3 == amount - am_left
                }),
            decreases n - i,
        {
            let ghost w_here = buy_walk(
                os0.skip(i as int),
                am_left as int,
                cash_available as int,
                acc as int,
            );
            if i == n {
                proof {
                    assert(os0.skip(i as int) =~= Seq::<Order>::empty());
                    assert(sellers@ + Seq::<(EntityId, u32)>::empty() =~= sellers@);
                    assert(fills + Seq::<(u32, u32)>::empty() =~= fills);
                }
                break;
            }
            proof {
                assert(os0.skip(i as int).len() > 0);
                assert(os0.skip(i as int)[0] == os0[i as int]);
                assert(os0.skip(i as int).drop_first() =~= os0.skip(i as int + 1));
            }
            let o: Order = self.orders.get(resource)[i];
            if am_left == 0 {
                proof {
                    assert(w_here == (
                        Seq::<(EntityId, u32)>::empty(),
                        Seq::<(u32, u32)>::empty(),
                        os0.skip(i as int),
                        0int,
                    ));
                    assert(sellers@ + Seq::<(EntityId, u32)>::empty() =~= sellers@);
                    assert(fills + Seq::<(u32, u32)>::empty() =~= fills);
                }
                break;
            }
            let q_want: u32 = if o.amount <= am_left {
                o.amount
            } else {
                am_left
            };
            let q: u32 = if o.cached_price == 0 {
                q_want
            } else {
                let afford: u64 = (cash_available as u64 - acc) / (o.cached_price as u64);
                if afford < q_want as u64 {
                    afford as u32
                } else {
                    q_want
                }
            };
            proof {
                assert(q == take_of(o, am_left as int, cash_available as int, acc as int));
            }
            if q == 0 {
                proof {
                    assert(w_here == (
                        Seq::<(EntityId, u32)>::empty(),
                        Seq::<(u32, u32)>::empty(),
                        os0.skip(i as int),
                        0int,
                    ));
                    assert(sellers@ + Seq::<(EntityId, u32)>::empty() =~= sellers@);
                    assert(fills + Seq::<(u32, u32)>::empty() =~= fills);
                }
                break;
            }
            proof {
                lemma_mul_upper_bound(
                    q as int,
                    u32::MAX as int,
                    o.cached_price as int,
                    u32::MAX as int,
                );
                lemma_mul_nonnegative(q as int, o.cached_price as int);
                lemma_take_cost(o, am_left as int, cash_available as int, acc as int);
            }
            let cost: u64 = (q as u64) * (o.cached_price as u64);
            // Take q units out of this order.
            let ghost w_next = buy_walk(
                os0.skip(i as int + 1),
                am_left as int - q as int,
                cash_available as int,
                acc as int + cost as int,
            );
            proof {
                assert(w_here.0 == seq![(o.agent, cost as u32)] + w_next.0);
                assert(w_here.1 == seq![(o.cached_price, q)] + w_next.1);
                assert(w_here.3 == q + w_next.3);
            }
            acc = acc + cost;
            am_left = am_left - q;
            let ghost sellers_prev = sellers@;
            sellers.push((o.agent, cost as u32));
            proof {
                lemma_payments_total_snoc(sellers@);
                assert(sellers@.drop_last() =~= sellers_prev);
                assert(sellers@ =~= sellers_prev.push((o.agent, cost as u32)));
                assert(sellers_prev + (seq![(o.agent, cost as u32)] + w_next.0) =~= sellers@
                    + w_next.0);
            }
            let ghost kept_prev = kept@;
            if q < o.amount {
                kept.push(Order { amount: o.amount - q, ..o });
                proof {
                    assert(w_here.2 == seq![Order { amount: (o.amount - q) as u32, ..o }]
                        + w_next.2);
                    assert(kept_prev + (seq![Order { amount: (o.amount - q) as u32, ..o }]
                        + w_next.2) =~= kept@ + w_next.2);
                }
            } else {
                proof {
                    assert(q == o.amount);
                    assert(w_here.2 == w_next.2);
                }
            }
            let ghost fills_prev = fills;
            proof {
                fills = fills.push((o.cached_price, q));
                assert(fills.drop_last() =~= fills_prev);
                assert(fills.last() == (o.cached_price, q));
                assert(fills_prev + (seq![(o.cached_price, q)] + w_next.1) =~= fills + w_next.1);
            }
            ema = ema_step_exec(ema, o.cached_price, upd);
            demand = demand.saturating_add(q);
            i = i + 1;
        }
        // Keep every order the walk did not reach.
        while i < n
            invariant
                i <= n,
                n == os0.len(),
                os0 == self.orders.spec_get(resource)@,
                self.config == old(self).config,
                self.market_price == old(self).market_price,
                self.market_demand == old(self).market_demand,
                self.orders == old(self).orders,
                ({
                    let whole = buy_walk(os0, amount as int, cash_available as int, 0);
                    whole.2 == kept@ + os0.skip(i as int)
                }),
            decreases n - i,
        {
            proof {
                assert(os0.skip(i as int)[0] == os0[i as int]);
                assert(os0.skip(i as int).drop_first() =~= os0.skip(i as int + 1));
                assert(kept@.push(os0[i as int]) + os0.skip(i as int + 1) =~= kept@ + os0.skip(
                    i as int,
                ));
            }
            let o: Order = self.orders.get(resource)[i];
            kept.push(o);
            i = i + 1;
        }
        proof {
            assert(os0.skip(n as int) =~= Seq::<Order>::empty());
            assert(kept@ + Seq::<Order>::empty() =~= kept@);
        }
        let ghost walk = buy_walk(os0, amount as int, cash_available as int, 0);
        self.orders.set(resource, kept);
        self.market_price.set(resource, ema);
        self.market_demand.set(resource, demand);
        proof {
            lemma_buy_walk_survivors(os0, amount as int, cash_available as int, 0);
            assert forall|it: ResourceItem|
                sorted_by_price((#[trigger] self.orders.spec_get(it))@) && orders_live(
                    self.orders.spec_get(it)@,
                ) by {
                crate::resources::lemma_per_resource_frame(
                    old(self).orders,
                    resource,
                    self.orders.spec_get(resource),
                    it,
                );
            }
            assert forall|it: ResourceItem| (#[trigger] self.market_price.spec_get(it))
                <= price_scale_max() by {
                crate::resources::lemma_per_resource_frame(
                    old(self).market_price,
                    resource,
                    ema,
                    it,
                );
            }
        }
        (sellers, amount - am_left)
    }
}

/// The exact product of two `u32` values, computed in 64 bits.
fn mul_u32(a: u32, b: u32) -> (r: u64)
    ensures
        r == a * b,
        r <= u32::MAX * u32::MAX,
{
    proof {
        lemma_mul_upper_bound(a as int, u32::MAX as int, b as int, u32::MAX as int);
        lemma_mul_nonnegative(a as int, b as int);
    }
    (a as u64) * (b as u64)
}

/// One step of the moving average, in executable fixed-point arithmetic.
fn ema_step_exec(e: u64, p: u32, upd: u32) -> (r: u64)
    requires
        e <= price_scale_max(),
        upd <= 10_000,
    ensures
        r == ema_step(e as int, p as int, upd as int),
        r <= price_scale_max(),
{
    proof {
        lemma_mul_upper_bound(e as int, price_scale_max(), (10_000 - upd) as int, 10_000);
        lemma_mul_nonnegative(e as int, (10_000 - upd) as int);
        lemma_mul_upper_bound(p as int, u32::MAX as int, 10_000, 10_000);
        lemma_mul_nonnegative(p as int, 10_000);
        lemma_mul_upper_bound(
            (p as int) * 10_000,
            u32::MAX * 10_000,
            upd as int,
            10_000,
        );
        lemma_mul_nonnegative((p as int) * 10_000, upd as int);
    }
    let a: u64 = e * ((10_000 - upd) as u64);
    let b: u64 = (p as u64) * 10_000 * (upd as u64);
    let r: u64 = (a + b) / 10_000;
    proof {
        lemma_ema_step_bound(e as int, p as int, upd as int);
    }
    r
}

/// The moving average stays within the fixed-point range.
#[verifier::nonlinear]
proof fn lemma_ema_step_bound(e: int, p: int, upd: int)
    requires
        0 <= e <= price_scale_max(),
        0 <= p <= u32::MAX,
        0 <= upd <= 10_000,
    ensures
        0 <= ema_step(e, p, upd) <= price_scale_max(),
{
    assert(e * (10_000 - upd) <= price_scale_max() * (10_000 - upd));
    assert(p * 10_000 * upd <= u32::MAX * 10_000 * upd);
    assert(e * (10_000 - upd) + p * 10_000 * upd <= price_scale_max() * 10_000);
}

/// `payments_total` over a list with its last element split off.
proof fn lemma_payments_total_snoc(ps: Seq<(EntityId, u32)>)
    requires
        ps.len() > 0,
    ensures
        payments_total(ps) == payments_total(ps.drop_last()) + ps.last().1,
    decreases ps.len(),
{
    if ps.len() == 1 {
        assert(ps.drop_last() =~= Seq::<(EntityId, u32)>::empty());
        assert(ps.drop_first() =~= Seq::<(EntityId, u32)>::empty());
        assert(payments_total(Seq::<(EntityId, u32)>::empty()) == 0);
    } else {
        lemma_payments_total_snoc(ps.drop_first());
        assert(ps.drop_first().drop_last() =~= ps.drop_last().drop_first());
        assert(ps.drop_last()[0] == ps[0]);
        assert(ps.drop_first().last() == ps.last());
    }
}

/// Sum of the units left across a list of orders.
pub open spec fn sum_amounts(os: Seq<Order>) -> int
    decreases os.len(),
{
    if os.len() == 0 {
        0
    } else {
        sum_amounts(os.drop_last()) + os.last().amount
    }
}

/// `sum_amounts` unfolded at the last element.
proof fn lemma_sum_amounts_snoc(os: Seq<Order>)
    requires
        os.len() > 0,
    ensures
        sum_amounts(os) == sum_amounts(os.drop_last()) + os.last().amount,
{
}

/// Insert one order into a sorted book, behind every order of at most its
/// price.
fn insert_order(os: &mut Vec<Order>, new_order: Order)
    requires
        sorted_by_price(old(os)@),
        orders_live(old(os)@),
        new_order.amount > 0,
        new_order.agent.wf(),
    ensures
        sorted_by_price(final(os)@),
        orders_live(final(os)@),
        inserted_sorted(old(os)@, final(os)@, new_order),
{
    let price = new_order.cached_price;
    let n = os.len();
    let mut k: usize = 0;
    while k < n && os[k].cached_price <= price
        invariant
            k <= n,
            n == os@.len(),
            os@ == old(os)@,
            forall|j: int| 0 <= j < k ==> (#[trigger] os@[j]).cached_price <= price,
        decreases n - k,
    {
        k = k + 1;
    }
    proof {
        assert forall|j: int| k <= j < os@.len() implies (#[trigger] os@[j]).cached_price
            > price by {
            assert(os@[k as int].cached_price > price);
        }
    }
    os.insert(k, new_order);
    proof {
        assert(os@ == old(os)@.insert(k as int, new_order));
        let osv = os@;
        assert forall|a: int, b: int| 0 <= a < b < osv.len() implies (#[trigger] osv[
            a
        ]).cached_price <= (#[trigger] osv[b]).cached_price by {
            assert(forall|j: int| 0 <= j < k ==> osv[j] == old(os)@[j]);
            assert(osv[k as int] == new_order);
            assert(forall|j: int| k < j < osv.len() ==> osv[j] == old(os)@[j - 1]);
        }
    }
}

/// The new book arises from the old one by inserting `o` at the position
/// behind every order of at most its price and before every strictly more
/// expensive order.
pub open spec fn inserted_sorted(os0: Seq<Order>, os1: Seq<Order>, o: Order) -> bool {
    exists|k: int|
        #![trigger os0.insert(k, o)]
        {
            &&& 0 <= k <= os0.len()
            &&& os1 == os0.insert(k, o)
            &&& forall|j: int| 0 <= j < k ==> os0[j].cached_price <= o.cached_price
            &&& forall|j: int| k <= j < os0.len() ==> os0[j].cached_price > o.cached_price
        }
}

/// The integer price estimate of every resource, as the agents see it.
pub open spec fn int_prices(m: Market) -> PerResource<u32> {
    PerResource {
        wheat: (m.market_price.wheat as int / 10_000) as u32,
        berry: (m.market_price.berry as int / 10_000) as u32,
        fish: (m.market_price.fish as int / 10_000) as u32,
        meat: (m.market_price.meat as int / 10_000) as u32,
    }
}

/// An integer clamped to the `u32` range.
pub open spec fn clamp_u32(v: int) -> int {
    if v > u32::MAX {
        u32::MAX as int
    } else {
        v
    }
}

/// One tick of one resource's book: every order ages one tick; those whose
/// lifetime runs out leave; the rest count down toward re-evaluation and
/// reprice when it is due.
pub open spec fn step_orders(os: Seq<Order>, mp: u32, config: Config) -> Seq<Order>
    decreases os.len(),
{
    if os.len() == 0 {
        os
    } else {
        let o = os[0];
        let rest = step_orders(os.drop_first(), mp, config);
        if o.expiration <= 1 {
            rest
        } else {
            let aged = Order { expiration: (o.expiration - 1) as u32, ..o };
            let processed = if aged.re_eval <= 1 {
                Order { cached_price: aged.repriced(mp, config), re_eval: config.default_rval, ..aged }
            } else {
                Order { re_eval: (aged.re_eval - 1) as u32, ..aged }
            };
            seq![processed] + rest
        }
    }
}

/// Stepping a book preserves every order's amount and agent.
pub proof fn lemma_step_orders_live(os: Seq<Order>, mp: u32, config: Config)
    ensures
        forall|k: int|
            0 <= k < step_orders(os, mp, config).len() ==> exists|j: int|
                0 <= j < os.len() && (#[trigger] step_orders(os, mp, config)[k]).amount == os[
                    j
                ].amount && step_orders(os, mp, config)[k].agent == os[j].agent,
    decreases os.len(),
{
    if os.len() == 0 {
    } else {
        let o = os[0];
        let rest = step_orders(os.drop_first(), mp, config);
        lemma_step_orders_live(os.drop_first(), mp, config);
        let whole = step_orders(os, mp, config);
        if o.expiration <= 1 {
            assert forall|k: int| 0 <= k < whole.len() implies exists|j: int|
                0 <= j < os.len() && (#[trigger] whole[k]).amount == os[j].amount && whole[
                    k
                ].agent == os[j].agent by {
                let j0 = choose|j: int|
                    0 <= j < os.drop_first().len() && rest[k].amount == os.drop_first()[j].amount
                        && rest[k].agent == os.drop_first()[j].agent;
                assert(whole[k] == rest[k]);
                assert(os[j0 + 1].amount == whole[k].amount && os[j0 + 1].agent == whole[k].agent);
            }
        } else {
            assert forall|k: int| 0 <= k < whole.len() implies exists|j: int|
                0 <= j < os.len() && (#[trigger] whole[k]).amount == os[j].amount && whole[
                    k
                ].agent == os[j].agent by {
                if k == 0 {
                    assert(whole[0].amount == os[0].amount && whole[0].agent == os[0].agent);
                } else {
                    assert(whole[k] == rest[k - 1]);
                    let j0 = choose|j: int|
                        0 <= j < os.drop_first().len() && rest[k - 1].amount == os.drop_first()[
                            j
                        ].amount && rest[k - 1].agent == os.drop_first()[j].agent;
                    assert(os[j0 + 1].amount == whole[k].amount && os[j0 + 1].agent == whole[
                        k
                    ].agent);
                }
            }
        }
    }
}

/// Every stepped order keeps the agent of some original order.
pub proof fn lemma_step_orders_agents(os: Seq<Order>, mp: u32, config: Config)
    ensures
        forall|k: int|
            0 <= k < step_orders(os, mp, config).len() ==> exists|j: int|
                0 <= j < os.len() && (#[trigger] step_orders(os, mp, config)[k]).agent == os[
                    j
                ].agent,
{
    lemma_step_orders_live(os, mp, config);
    assert forall|k: int| 0 <= k < step_orders(os, mp, config).len() implies exists|j: int|
        0 <= j < os.len() && (#[trigger] step_orders(os, mp, config)[k]).agent == os[j].agent by {
        let j0 = choose|j: int|
            0 <= j < os.len() && (step_orders(os, mp, config)[k]).amount == os[j].amount && (
            step_orders(os, mp, config)[k]).agent == os[j].agent;
        assert(step_orders(os, mp, config)[k].agent == os[j0].agent);
    }
}

/// `step_orders` over a book with its last order split off.
proof fn lemma_step_orders_snoc(os: Seq<Order>, o: Order, mp: u32, config: Config)
    ensures
        step_orders(os.push(o), mp, config) == step_orders(os, mp, config) + step_orders(
            seq![o],
            mp,
            config,
        ),
    decreases os.len(),
{
    if os.len() == 0 {
        assert(os.push(o)[0] == o);
        assert(os.push(o).drop_first() =~= Seq::<Order>::empty());
        assert(seq![o][0] == o);
        assert(seq![o].drop_first() =~= Seq::<Order>::empty());
        assert(step_orders(Seq::<Order>::empty(), mp, config) =~= Seq::<Order>::empty());
        assert(step_orders(os.push(o), mp, config) =~= step_orders(os, mp, config) + step_orders(
            seq![o],
            mp,
            config,
        ));
    } else {
        assert(os.push(o)[0] == os[0]);
        assert(os.push(o).drop_first() =~= os.drop_first().push(o));
        lemma_step_orders_snoc(os.drop_first(), o, mp, config);
        assert(step_orders(os.push(o), mp, config) =~= step_orders(os, mp, config) + step_orders(
            seq![o],
            mp,
            config,
        ));
    }
}

/// Insert one order into a price-sorted book behind every order of at
/// most its price: the insertion step of a stable sort.
pub open spec fn insert_sorted_order(s: Seq<Order>, o: Order) -> Seq<Order>
    decreases s.len(),
{
    if s.len() == 0 {
        seq![o]
    } else if o.cached_price < s[0].cached_price {
        seq![o] + s
    } else {
        seq![s[0]] + insert_sorted_order(s.drop_first(), o)
    }
}

/// A book sorted by price with an insertion sort, keeping the original
/// order of equal-priced orders.
pub open spec fn sort_book(s: Seq<Order>) -> Seq<Order>
    decreases s.len(),
{
    if s.len() == 0 {
        s
    } else {
        insert_sorted_order(sort_book(s.drop_last()), s.last())
    }
}

/// Where the first strictly more expensive position is `k`, the stable
/// insertion lands exactly there.
proof fn lemma_insert_sorted_at(s: Seq<Order>, o: Order, k: int)
    requires
        0 <= k <= s.len(),
        forall|j: int| 0 <= j < k ==> (#[trigger] s[j]).cached_price <= o.cached_price,
        k < s.len() ==> s[k].cached_price > o.cached_price,
    ensures
        insert_sorted_order(s, o) == s.take(k) + seq![o] + s.skip(k),
    decreases s.len(),
{
    if s.len() == 0 {
        assert(insert_sorted_order(s, o) =~= s.take(0) + seq![o] + s.skip(0));
    } else if o.cached_price < s[0].cached_price {
        assert(k == 0);
        assert(insert_sorted_order(s, o) =~= s.take(0) + seq![o] + s.skip(0));
    } else {
        assert(k >= 1);
        assert(forall|i: int| 0 <= i < k - 1 ==> s.drop_first()[i] == s[i + 1]);
        lemma_insert_sorted_at(s.drop_first(), o, k - 1);
        assert(insert_sorted_order(s, o) =~= s.take(k) + seq![o] + s.skip(k));
    }
}

/// Apply one tick to every order of one book and restore its sort order.
fn step_one_book(os: &mut Vec<Order>, mp: u32, config: &Config)
    requires
        config.wf(),
    ensures
        final(os)@.to_multiset() == step_orders(old(os)@, mp, *config).to_multiset(),
        sorted_by_price(final(os)@),
        final(os)@ == sort_book(step_orders(old(os)@, mp, *config)),
{
    let n = os.len();
    let mut built: Vec<Order> = Vec::new();
    let mut i: usize = 0;
    while i < n
        invariant
            i <= n,
            n == os@.len(),
            config.wf(),
            built@ == step_orders(os@.take(i as int), mp, *config),
        decreases n - i,
    {
        proof {
            assert(os@.take(i as int + 1).drop_last() =~= os@.take(i as int));
            assert(os@.take(i as int + 1) =~= os@.take(i as int).push(os@[i as int]));
            lemma_step_orders_snoc(os@.take(i as int), os@[i as int], mp, *config);
        }
        let mut o: Order = os[i];
        proof {
            let x = os@[i as int];
            let one = seq![x];
            assert(one[0] == x);
            assert(one.drop_first() =~= Seq::<Order>::empty());
            assert(step_orders(Seq::<Order>::empty(), mp, *config) == Seq::<Order>::empty());
        }
        let expired = o.expire();
        if !expired {
            o.cache_price(mp, config);
            built.push(o);
            proof {
                let x = os@[i as int];
                let single = step_orders(seq![x], mp, *config);
                assert(x.expiration > 1);
                assert(seq![x].drop_first() =~= Seq::<Order>::empty());
                let aged = Order { expiration: (x.expiration - 1) as u32, ..x };
                let processed = if aged.re_eval <= 1 {
                    Order {
                        cached_price: aged.repriced(mp, *config),
                        re_eval: config.default_rval,
                        ..aged
                    }
                } else {
                    Order { re_eval: (aged.re_eval - 1) as u32, ..aged }
                };
                assert(single =~= seq![processed] + Seq::<Order>::empty());
                assert(processed == o);
                assert(single =~= seq![o]);
                assert(built@ =~= step_orders(os@.take(i as int), mp, *config) + single);
            }
        } else {
            proof {
                let x = os@[i as int];
                let single = step_orders(seq![x], mp, *config);
                assert(x.expiration <= 1);
                assert(seq![x].drop_first() =~= Seq::<Order>::empty());
                assert(single =~= Seq::<Order>::empty());
                assert(built@ + single =~= built@);
                assert(built@ =~= step_orders(os@.take(i as int), mp, *config) + single);
            }
        }
        i = i + 1;
    }
    proof {
        assert(os@.take(n as int) =~= os@);
    }
    sort_orders(&mut built);
    *os = built;
}

/// Sort a book ascending by price with a stable insertion sort: the
/// result is exactly [`sort_book`] of the input, so equal-priced orders
/// keep their original order.
fn sort_orders(v: &mut Vec<Order>)
    ensures
        sorted_by_price(final(v)@),
        final(v)@.to_multiset() == old(v)@.to_multiset(),
        final(v)@ == sort_book(old(v)@),
{
    let n = v.len();
    let mut i: usize = 1;
    if n == 0 {
        proof {
            assert(v@ =~= sort_book(old(v)@));
        }
        return ;
    }
    proof {
        assert(old(v)@.take(1).drop_last() =~= Seq::<Order>::empty());
        assert(old(v)@.take(1).last() == old(v)@[0]);
        assert(sort_book(Seq::<Order>::empty()) =~= Seq::<Order>::empty());
        assert(insert_sorted_order(Seq::<Order>::empty(), old(v)@[0]) == seq![old(v)@[0]]);
        assert(sort_book(old(v)@.take(1)) =~= seq![old(v)@[0]]);
        assert(v@.take(1) =~= seq![old(v)@[0]]);
    }
    while i < n
        invariant
            1 <= i <= n,
            n == v@.len(),
            n == old(v)@.len(),
            v@.to_multiset() == old(v)@.to_multiset(),
            sorted_by_price(v@.take(i as int)),
            v@.skip(i as int) == old(v)@.skip(i as int),
            v@.take(i as int) == sort_book(old(v)@.take(i as int)),
        decreases n - i,
    {
        let x: Order = v[i];
        let mut k: usize = 0;
        while k < i && v[k].cached_price <= x.cached_price
            invariant
                k <= i < n,
                n == v@.len(),
                forall|j: int| 0 <= j < k ==> (#[trigger] v@[j]).cached_price <= x.cached_price,
            decreases i - k,
        {
            k = k + 1;
        }
        // Everything from k up to i is strictly more expensive than x:
        // removing x at i and re-inserting it at k keeps the prefix sorted.
        proof {
            assert(sorted_by_price(v@.take(i as int)));
            if k < i {
                assert(v@[k as int].cached_price > x.cached_price);
                assert forall|j: int| k <= j < i implies (#[trigger] v@[j]).cached_price
                    > x.cached_price by {
                    assert(v@.take(i as int)[k as int] == v@[k as int]);
                    assert(v@.take(i as int)[j] == v@[j]);
                }
            }
        }
        let ghost before = v@;
        let removed = v.remove(i);
        proof {
            assert(removed == x);
        }
        v.insert(k, x);
        proof {
            let after = v@;
            // Multiset preserved: remove then insert of the same element.
            assert(before.remove(i as int).to_multiset() == before.to_multiset().remove(x));
            assert(after.to_multiset() == before.remove(i as int).to_multiset().insert(x));
            assert(before.to_multiset().contains(x)) by {
                assert(before[i as int] == x);
            }
            assert(after.to_multiset() =~= before.to_multiset());
            // Sorted prefix grew by one.
            assert forall|a: int, b: int| 0 <= a < b < i + 1 implies (#[trigger] after[a]).cached_price
                <= (#[trigger] after[b]).cached_price by {
                assert(forall|j: int| 0 <= j < k ==> after[j] == before[j]);
                assert(after[k as int] == x);
                assert(forall|j: int| k < j < i + 1 ==> after[j] == before[j - 1]);
            }
            // The move is exactly the stable-insertion step.
            assert(old(v)@.take(i as int + 1).drop_last() =~= old(v)@.take(i as int));
            assert(old(v)@.take(i as int + 1).last() == old(v)@[i as int]);
            assert(before.skip(i as int)[0] == before[i as int]);
            assert(old(v)@.skip(i as int)[0] == old(v)@[i as int]);
            assert(x == old(v)@[i as int]);
            lemma_insert_sorted_at(before.take(i as int), x, k as int);
            assert(after.take(i as int + 1) =~= before.take(i as int).take(k as int) + seq![x]
                + before.take(i as int).skip(k as int));
            assert(after.take(i as int + 1) == insert_sorted_order(before.take(i as int), x));
            assert(after.take(i as int + 1) == sort_book(old(v)@.take(i as int + 1)));
            assert(after.skip(i as int + 1) =~= before.skip(i as int + 1));
            assert(before.skip(i as int + 1) =~= before.skip(i as int).drop_first());
            assert(old(v)@.skip(i as int + 1) =~= old(v)@.skip(i as int).drop_first());
            assert(after.skip(i as int + 1) == old(v)@.skip(i as int + 1));
        }
        i = i + 1;
    }
    proof {
        assert(v@.take(n as int) =~= v@);
        assert(old(v)@.take(n as int) =~= old(v)@);
    }
}

} // verus!
