//! Order book behavior: placement, expiry, repricing, and the
//! budget-capped purchase walk.

use ecosim::config::Config;
use ecosim::entity::EntityId;
use ecosim::market::Market;
use ecosim::resources::PerResource;
use ecosim::resources::ResourceItem;

fn test_config() -> Config {
    let mut c = Config::default();
    c.default_exp = 20;
    c.default_rval = 5;
    c
}

#[test]
fn order_is_placed_sorted() {
    let mut m = Market::new(test_config());
    let a = EntityId::new(0);
    m.order(a, ResourceItem::Wheat, 30, 5);
    m.order(a, ResourceItem::Wheat, 10, 5);
    m.order(a, ResourceItem::Wheat, 20, 5);
    let prices: Vec<u32> = m.orders.wheat.iter().map(|o| o.cached_price).collect();
    assert_eq!(prices, vec![10, 20, 30]);
    assert_eq!(m.orders.berry.len(), 0);
}

#[test]
fn order_lifecycle_reprices_and_expires() {
    // An order placed at price 100 with the market price at zero is
    // repriced halfway down when its re-evaluation runs out, and leaves
    // the book when its lifetime runs out.
    let mut m = Market::new(test_config());
    let a = EntityId::new(0);
    m.order(a, ResourceItem::Wheat, 100, 10);
    assert_eq!(m.market_price(ResourceItem::Wheat), 0);
    for t in 1..=4u32 {
        m.step(t);
        assert_eq!(m.orders.wheat[0].cached_price, 100);
    }
    m.step(5);
    // 100 > 0, so the price moves halfway toward the market price.
    assert_eq!(m.orders.wheat[0].cached_price, 50);
    for t in 6..=19u32 {
        m.step(t);
        assert_eq!(m.orders.wheat.len(), 1);
    }
    m.step(20);
    assert_eq!(m.orders.wheat.len(), 0);
}

#[test]
fn buy_with_budget_cap() {
    // Two orders at 10 and 30, five units each. A buyer wanting 8 units
    // with 100 cash takes all five cheap units (50), then one unit at 30
    // (80); the next unit would cost 110, so the walk stops at 6 units.
    let mut m = Market::new(test_config());
    let s1 = EntityId::new(1);
    let s2 = EntityId::new(2);
    m.order(s1, ResourceItem::Berry, 10, 5);
    m.order(s2, ResourceItem::Berry, 30, 5);
    let (payments, units) = m.buy(ResourceItem::Berry, 8, 100);
    assert_eq!(units, 6);
    assert_eq!(payments.len(), 2);
    assert_eq!(payments[0], (s1, 50));
    assert_eq!(payments[1], (s2, 30));
    // The cheap order is gone; the partially filled order stays.
    assert_eq!(m.orders.berry.len(), 1);
    assert_eq!(m.orders.berry[0].amount, 4);
    assert_eq!(m.orders.berry[0].cached_price, 30);
    // Demand counts the units sold today.
    assert_eq!(*m.market_demand.get(ResourceItem::Berry), 6);
}

#[test]
fn buy_does_not_take_an_unaffordable_first_order() {
    let mut m = Market::new(test_config());
    let s1 = EntityId::new(1);
    m.order(s1, ResourceItem::Fish, 200, 3);
    let (payments, units) = m.buy(ResourceItem::Fish, 1, 100);
    assert_eq!(units, 0);
    assert!(payments.is_empty());
    assert_eq!(m.orders.fish.len(), 1);
    assert_eq!(m.orders.fish[0].amount, 3);
}

#[test]
fn availability_sums_units() {
    let mut m = Market::new(test_config());
    let a = EntityId::new(0);
    m.order(a, ResourceItem::Meat, 10, 4);
    m.order(a, ResourceItem::Meat, 12, 6);
    assert_eq!(m.availability(ResourceItem::Meat), 10);
    assert_eq!(m.availability(ResourceItem::Wheat), 0);
    let v = m.volume();
    assert_eq!(*v.get(ResourceItem::Meat), 10);
}

#[test]
fn cheapest_prices_reports_front_orders() {
    let mut m = Market::new(test_config());
    let a = EntityId::new(0);
    m.order(a, ResourceItem::Wheat, 25, 1);
    m.order(a, ResourceItem::Wheat, 15, 1);
    let cp = m.cheapest_prices();
    assert_eq!(*cp.get(ResourceItem::Wheat), Some(15));
    assert_eq!(*cp.get(ResourceItem::Berry), None);
}

#[test]
fn total_price_uses_integer_market_prices() {
    let mut m = Market::new(test_config());
    // A stored fixed-point value of 100_000 is an integer price of 10.
    m.market_price = PerResource::new(100_000u64);
    let meals = PerResource { wheat: 2u32, berry: 0, fish: 1, meat: 0 };
    assert_eq!(m.total_price(&meals), 30);
}

#[test]
fn purchase_moves_the_moving_average() {
    let mut m = Market::new(test_config());
    // With the update rate at 100 parts in 10_000, one fill at price 100
    // moves the average from 0 to 1 (in integer terms).
    let a = EntityId::new(0);
    m.order(a, ResourceItem::Wheat, 100, 1);
    let (_payments, units) = m.buy(ResourceItem::Wheat, 1, 1000);
    assert_eq!(units, 1);
    assert_eq!(m.market_price(ResourceItem::Wheat), 1);
}

#[test]
fn day_boundary_resets_demand() {
    let mut m = Market::new(test_config());
    let a = EntityId::new(0);
    m.order(a, ResourceItem::Berry, 10, 5);
    let (_p, units) = m.buy(ResourceItem::Berry, 5, 1000);
    assert_eq!(units, 5);
    assert_eq!(*m.market_demand.get(ResourceItem::Berry), 5);
    m.step(1);
    assert_eq!(*m.market_demand.get(ResourceItem::Berry), 5);
    // Tick 200 is a day boundary with the default day length.
    m.step(200);
    assert_eq!(*m.market_demand.get(ResourceItem::Berry), 0);
}
