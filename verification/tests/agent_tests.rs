//! Agent-side logic: meal planning, shopping lists, quota updates, eating,
//! and the resource preference order.

use ecosim::agent::Agent;
use ecosim::config::Config;
use ecosim::entity::EntityId;
use ecosim::market::Market;
use ecosim::resources::PerResource;
use ecosim::resources::ResourceItem;

fn base_agent() -> Agent {
    // Job index 1 is a farmer; the greed value is arbitrary here.
    Agent::new(&Config::default(), 1, 5)
}

#[test]
fn meal_plan_prefers_energy_per_coin() {
    // Nutrition (wheat 100, berry 50, fish 0, meat 50), all prices 10:
    // wheat has the best energy per coin, so the whole need of 200 energy
    // is planned as two wheat units.
    let mut a = base_agent();
    a.nutrition = PerResource { wheat: 100u8, berry: 50, fish: 0, meat: 50 };
    a.inventory = PerResource::new(0u32);
    a.energy = 0;
    a.energy_quota = 200;
    let mut m = Market::new(Config::default());
    m.market_price = PerResource::new(100_000u64);
    let seller = EntityId::new(9);
    m.order(seller, ResourceItem::Wheat, 10, 100);
    m.order(seller, ResourceItem::Berry, 10, 100);
    m.order(seller, ResourceItem::Fish, 10, 100);
    m.order(seller, ResourceItem::Meat, 10, 100);
    let plan = a.make_mealing_plan(&m).expect("energy below quota");
    assert_eq!(*plan.get(ResourceItem::Wheat), 2);
    assert_eq!(*plan.get(ResourceItem::Berry), 0);
    assert_eq!(*plan.get(ResourceItem::Fish), 0);
    assert_eq!(*plan.get(ResourceItem::Meat), 0);
}

#[test]
fn meal_plan_is_none_at_quota() {
    let mut a = base_agent();
    a.energy = 5000;
    a.energy_quota = 5000;
    let m = Market::new(Config::default());
    assert!(a.make_mealing_plan(&m).is_none());
}

#[test]
fn meal_plan_spills_to_next_resource() {
    // Only one wheat unit is available, so the rest of the need spills
    // over to the next-preferred resource.
    let mut a = base_agent();
    a.nutrition = PerResource { wheat: 100u8, berry: 50, fish: 0, meat: 0 };
    a.inventory = PerResource::new(0u32);
    a.energy = 0;
    a.energy_quota = 300;
    let mut m = Market::new(Config::default());
    let seller = EntityId::new(9);
    m.order(seller, ResourceItem::Wheat, 10, 1);
    m.order(seller, ResourceItem::Berry, 10, 100);
    let plan = a.make_mealing_plan(&m).expect("energy below quota");
    // Need 300/100 = 3 wheat, only 1 available: take it, then cover the
    // remaining 0 (300 minus the 3 planned units' energy, clamped) ...
    assert_eq!(*plan.get(ResourceItem::Wheat), 1);
    // the remaining need (300 - 300 = 0, saturating) plans no berries.
    assert_eq!(*plan.get(ResourceItem::Berry), 0);
}

#[test]
fn shopping_list_subtracts_inventory() {
    let mut a = base_agent();
    a.inventory = PerResource { wheat: 1u32, berry: 5, fish: 0, meat: 0 };
    let plan = PerResource { wheat: 3u32, berry: 2, fish: 0, meat: 0 };
    let sl = a.make_shopping_list(&Some(plan)).expect("wheat is missing");
    assert_eq!(*sl.get(ResourceItem::Wheat), 2);
    assert_eq!(*sl.get(ResourceItem::Berry), 0);
}

#[test]
fn shopping_list_empty_when_stocked() {
    let mut a = base_agent();
    a.inventory = PerResource::new(10u32);
    let plan = PerResource::new(5u32);
    assert!(a.make_shopping_list(&Some(plan)).is_none());
    assert!(a.make_shopping_list(&None).is_none());
}

#[test]
fn quotas_above_baseline_keep_energy() {
    let c = Config::default();
    let mut a = base_agent();
    a.energy = 6000;
    a.cash = 777;
    a.cash_quota = 3;
    a.greed = 5;
    a.update_quotas(&c);
    // At or above the baseline the quota is just the current energy.
    assert_eq!(a.energy_quota, 6000);
    // The cash steps run on every arrival: the quota was met, so the job
    // timeout resets, and the cash quota grows by the greed share.
    assert_eq!(a.timeout_quota, c.timeout_quota);
    assert_eq!(a.cash_quota, 777 + 777 * 5 / 100);
}

#[test]
fn quotas_below_baseline_compensate() {
    let c = Config::default();
    let mut a = base_agent();
    // 1000 points below the baseline of 5000: the quota rises by ten
    // percent, to 4400.
    a.energy = 4000;
    a.cash = 1000;
    a.greed = 5;
    a.cash_quota = 2000;
    a.update_quotas(&c);
    assert_eq!(a.energy_quota, 4400);
    // Cash quota: cash plus the greed share, 1000 + 1000 * 5 / 100.
    assert_eq!(a.cash_quota, 1050);
}

#[test]
fn unmet_cash_quota_turns_agent_into_explorer() {
    let c = Config::default();
    let mut a = base_agent();
    a.energy = 4000;
    a.cash = 10;
    a.cash_quota = 1000;
    a.timeout_quota = 0;
    a.update_quotas(&c);
    match a.job {
        ecosim::agent::Job::Explorer { count, .. } => assert_eq!(count, 0),
        other => panic!("expected an explorer, got {:?}", other),
    }
    assert_eq!(a.timeout_quota, c.timeout_quota);
}

#[test]
fn consume_moves_energy_and_nutrition() {
    let c = Config::default();
    let mut a = base_agent();
    a.inventory = PerResource { wheat: 3u32, berry: 0, fish: 0, meat: 0 };
    a.nutrition = PerResource::new(100u8);
    a.energy = 1000;
    a.consume(ResourceItem::Wheat, 1, &c);
    assert_eq!(*a.inventory.get(ResourceItem::Wheat), 2);
    assert_eq!(a.energy, 1100);
    // The eaten resource loses 9 per unit, every other one gains 4.
    assert_eq!(*a.nutrition.get(ResourceItem::Wheat), 91);
    assert_eq!(*a.nutrition.get(ResourceItem::Berry), 104);
    assert_eq!(*a.nutrition.get(ResourceItem::Fish), 104);
    assert_eq!(*a.nutrition.get(ResourceItem::Meat), 104);
}

#[test]
fn consume_clamps_at_max_energy() {
    let c = Config::default();
    let mut a = base_agent();
    a.inventory = PerResource::new(1000u32);
    a.nutrition = PerResource::new(100u8);
    a.energy = 9990;
    a.consume(ResourceItem::Berry, 500, &c);
    assert_eq!(a.energy, c.max_energy);
    assert_eq!(*a.inventory.get(ResourceItem::Berry), 500);
}

#[test]
fn collect_saturates() {
    let mut a = base_agent();
    a.inventory = PerResource::new(u32::MAX - 1);
    a.collect(ResourceItem::Fish, 10);
    assert_eq!(*a.inventory.get(ResourceItem::Fish), u32::MAX);
}

#[test]
fn sorted_resources_follow_benefit() {
    let mut a = base_agent();
    a.nutrition = PerResource { wheat: 100u8, berry: 50, fish: 0, meat: 50 };
    let m = Market::new(Config::default());
    let order = ResourceItem::sorted(&a, &m);
    // Ties between berry and meat keep the canonical order; fish at zero
    // nutrition comes last.
    assert_eq!(
        order,
        vec![ResourceItem::Wheat, ResourceItem::Berry, ResourceItem::Meat, ResourceItem::Fish]
    );
}

#[test]
fn resource_iteration_order_is_canonical() {
    let items = ResourceItem::iterator();
    assert_eq!(
        items.to_vec(),
        vec![ResourceItem::Wheat, ResourceItem::Berry, ResourceItem::Fish, ResourceItem::Meat]
    );
    assert_eq!(ResourceItem::from_index(2), ResourceItem::Fish);
}

#[test]
fn consume_never_underflows_inventory() {
    // Eating more than is held empties the stock instead of wrapping.
    let c = Config::default();
    let mut a = base_agent();
    a.inventory = PerResource { wheat: 0u32, berry: 2, fish: 0, meat: 0 };
    a.energy = 0;
    a.consume(ResourceItem::Berry, 5, &c);
    assert_eq!(*a.inventory.get(ResourceItem::Berry), 0);
}

#[test]
fn per_resource_map_and_combine() {
    let a = PerResource { wheat: 1u32, berry: 2, fish: 3, meat: 4 };
    let doubled = a.map(|v: &u32| v * 2);
    assert_eq!(doubled, PerResource { wheat: 2u32, berry: 4, fish: 6, meat: 8 });
    let b = PerResource { wheat: 10u32, berry: 20, fish: 30, meat: 40 };
    let sums = a.combine(&b, |x: &u32, y: &u32| x + y);
    assert_eq!(sums, PerResource { wheat: 11u32, berry: 22, fish: 33, meat: 44 });
}
