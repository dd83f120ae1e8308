//! The four food resources, the per-resource container, and resource
//! entities as they stand in the world.

use vstd::prelude::*;

verus! {

/// The four kinds of food resource in the world.
#[derive(Debug, Clone, Copy, Hash, PartialEq, Eq, Structural)]
pub enum ResourceItem {
    Wheat,
    Berry,
    Fish,
    Meat,
}

impl ResourceItem {
    /// The canonical position of this resource in the fixed iteration order
    /// `[Wheat, Berry, Fish, Meat]`.
    pub open spec fn index_spec(self) -> int {
        match self {
            ResourceItem::Wheat => 0,
            ResourceItem::Berry => 1,
            ResourceItem::Fish => 2,
            ResourceItem::Meat => 3,
        }
    }

    /// All four resources in canonical order.
    pub fn iterator() -> (r: [ResourceItem; 4])
        ensures
            r@ == seq![
                ResourceItem::Wheat,
                ResourceItem::Berry,
                ResourceItem::Fish,
                ResourceItem::Meat,
            ],
    {
        [
            ResourceItem::Wheat,
            ResourceItem::Berry,
            ResourceItem::Fish,
            ResourceItem::Meat,
        ]
    }

    /// The four resources sorted by the agent's preference for meal
    /// planning: highest projected energy per coin first, ties in
    /// canonical order.
    pub fn sorted(agent: &crate::agent::Agent, market: &crate::market::Market) -> (r: Vec<
        ResourceItem,
    >)
        requires
            forall|it: ResourceItem| (#[trigger] market.market_price.spec_get(it))
                <= crate::market::price_scale_max(),
        ensures
            r@ == preference_order(agent.nutrition, crate::market::int_prices(*market)),
    {
        let prices = PerResource {
            wheat: market.market_price(ResourceItem::Wheat),
            berry: market.market_price(ResourceItem::Berry),
            fish: market.market_price(ResourceItem::Fish),
            meat: market.market_price(ResourceItem::Meat),
        };
        proof {
            assert(prices == crate::market::int_prices(*market));
        }
        let mut out: Vec<ResourceItem> = Vec::new();
        insert_preferred_exec(&mut out, ResourceItem::Wheat, &agent.nutrition, &prices);
        insert_preferred_exec(&mut out, ResourceItem::Berry, &agent.nutrition, &prices);
        insert_preferred_exec(&mut out, ResourceItem::Fish, &agent.nutrition, &prices);
        insert_preferred_exec(&mut out, ResourceItem::Meat, &agent.nutrition, &prices);
        out
    }

    /// The resource at a canonical index.
    pub fn from_index(index: u8) -> (r: ResourceItem)
        requires
            index < 4,
        ensures
            r.index_spec() == index as int,
    {
        match index {
            0 => ResourceItem::Wheat,
            1 => ResourceItem::Berry,
            2 => ResourceItem::Fish,
            _ => ResourceItem::Meat,
        }
    }
}

/// The projected energy per projected coin of one resource: its
/// nutritional value, scaled by one million, per unit of price (plus one,
/// so that a free resource does not divide by zero).
pub open spec fn benefit(nutrition: u8, price: int) -> int {
    nutrition * 1_000_000 / (price + 1)
}

/// The strict order in which an agent considers resources when planning
/// meals: higher benefit first, ties in canonical order.
pub open spec fn prefer(a: ResourceItem, b: ResourceItem, nutrition: PerResource<u8>, prices: PerResource<u32>) -> bool {
    let ka = benefit(nutrition.spec_get(a), prices.spec_get(a) as int);
    let kb = benefit(nutrition.spec_get(b), prices.spec_get(b) as int);
    ka > kb || (ka == kb && a.index_spec() < b.index_spec())
}

/// Insert one resource into a preference-sorted list, before the first
/// entry it is preferred to.
pub open spec fn insert_preferred(
    s: Seq<ResourceItem>,
    x: ResourceItem,
    nutrition: PerResource<u8>,
    prices: PerResource<u32>,
) -> Seq<ResourceItem>
    decreases s.len(),
{
    if s.len() == 0 {
        seq![x]
    } else if prefer(x, s[0], nutrition, prices) {
        seq![x] + s
    } else {
        seq![s[0]] + insert_preferred(s.drop_first(), x, nutrition, prices)
    }
}

/// The four resources in the order an agent prefers them for meal
/// planning.
pub open spec fn preference_order(nutrition: PerResource<u8>, prices: PerResource<u32>) -> Seq<
    ResourceItem,
> {
    let s0 = insert_preferred(Seq::empty(), ResourceItem::Wheat, nutrition, prices);
    let s1 = insert_preferred(s0, ResourceItem::Berry, nutrition, prices);
    let s2 = insert_preferred(s1, ResourceItem::Fish, nutrition, prices);
    insert_preferred(s2, ResourceItem::Meat, nutrition, prices)
}

/// Whether the agent prefers `a` over `b`; mirror of [`prefer`].
fn prefer_exec(a: ResourceItem, b: ResourceItem, nutrition: &PerResource<u8>, prices: &PerResource<
    u32,
>) -> (r: bool)
    ensures
        r == prefer(a, b, *nutrition, *prices),
{
    let ka: u64 = (*nutrition.get(a) as u64) * 1_000_000 / (*prices.get(a) as u64 + 1);
    let kb: u64 = (*nutrition.get(b) as u64) * 1_000_000 / (*prices.get(b) as u64 + 1);
    let ia: u8 = match a {
        ResourceItem::Wheat => 0,
        ResourceItem::Berry => 1,
        ResourceItem::Fish => 2,
        ResourceItem::Meat => 3,
    };
    let ib: u8 = match b {
        ResourceItem::Wheat => 0,
        ResourceItem::Berry => 1,
        ResourceItem::Fish => 2,
        ResourceItem::Meat => 3,
    };
    ka > kb || (ka == kb && ia < ib)
}

/// Insert one resource into a preference-sorted list at the position
/// [`insert_preferred`] describes.
fn insert_preferred_exec(
    v: &mut Vec<ResourceItem>,
    x: ResourceItem,
    nutrition: &PerResource<u8>,
    prices: &PerResource<u32>,
)
    ensures
        final(v)@ == insert_preferred(old(v)@, x, *nutrition, *prices),
{
    let n = v.len();
    let mut j: usize = 0;
    while j < n && !prefer_exec(x, v[j], nutrition, prices)
        invariant
            j <= n,
            n == v@.len(),
            v@ == old(v)@,
            forall|i: int| 0 <= i < j ==> !prefer(x, #[trigger] v@[i], *nutrition, *prices),
        decreases n - j,
    {
        j = j + 1;
    }
    proof {
        lemma_insert_preferred_at(v@, x, *nutrition, *prices, j as int);
    }
    v.insert(j, x);
    proof {
        assert(v@ =~= old(v)@.take(j as int) + seq![x] + old(v)@.skip(j as int));
    }
}

/// Where the first preferred position is `j`, inserting lands exactly
/// there.
proof fn lemma_insert_preferred_at(
    s: Seq<ResourceItem>,
    x: ResourceItem,
    nutrition: PerResource<u8>,
    prices: PerResource<u32>,
    j: int,
)
    requires
        0 <= j <= s.len(),
        forall|i: int| 0 <= i < j ==> !prefer(x, #[trigger] s[i], nutrition, prices),
        j < s.len() ==> prefer(x, s[j], nutrition, prices),
    ensures
        insert_preferred(s, x, nutrition, prices) == s.take(j) + seq![x] + s.skip(j),
    decreases s.len(),
{
    if s.len() == 0 {
        assert(insert_preferred(s, x, nutrition, prices) =~= s.take(0) + seq![x] + s.skip(0));
    } else if prefer(x, s[0], nutrition, prices) {
        assert(j == 0);
        assert(insert_preferred(s, x, nutrition, prices) =~= s.take(0) + seq![x] + s.skip(0));
    } else {
        assert(j >= 1);
        assert(forall|i: int|
            0 <= i < j - 1 ==> s.drop_first()[i] == s[i + 1]);
        lemma_insert_preferred_at(s.drop_first(), x, nutrition, prices, j - 1);
        assert(insert_preferred(s, x, nutrition, prices) =~= s.take(j) + seq![x] + s.skip(j));
    }
}

/// A value of type `T` for each of the four resources.
#[derive(Debug, Clone, Copy, Hash, PartialEq, Eq, Structural)]
pub struct PerResource<T> {
    pub wheat: T,
    pub berry: T,
    pub fish: T,
    pub meat: T,
}

impl<T> PerResource<T> {
    /// The field selected by a resource.
    pub open spec fn spec_get(self, r: ResourceItem) -> T {
        match r {
            ResourceItem::Wheat => self.wheat,
            ResourceItem::Berry => self.berry,
            ResourceItem::Fish => self.fish,
            ResourceItem::Meat => self.meat,
        }
    }

    /// The container with the field selected by `r` replaced by `v`.
    pub open spec fn spec_set(self, r: ResourceItem, v: T) -> PerResource<T> {
        match r {
            ResourceItem::Wheat => PerResource { wheat: v, ..self },
            ResourceItem::Berry => PerResource { berry: v, ..self },
            ResourceItem::Fish => PerResource { fish: v, ..self },
            ResourceItem::Meat => PerResource { meat: v, ..self },
        }
    }

    /// Borrow the entry for one resource.
    pub fn get(&self, r: ResourceItem) -> (v: &T)
        ensures
            *v == self.spec_get(r),
    {
        match r {
            ResourceItem::Wheat => &self.wheat,
            ResourceItem::Berry => &self.berry,
            ResourceItem::Fish => &self.fish,
            ResourceItem::Meat => &self.meat,
        }
    }

    /// Replace the entry for one resource.
    pub fn set(&mut self, r: ResourceItem, v: T)
        ensures
            *final(self) == old(self).spec_set(r, v),
    {
        match r {
            ResourceItem::Wheat => self.wheat = v,
            ResourceItem::Berry => self.berry = v,
            ResourceItem::Fish => self.fish = v,
            ResourceItem::Meat => self.meat = v,
        }
    }
}

impl<T> PerResource<T> {
    /// The container holding `v` for all four resources, as a spec value.
    pub open spec fn new_spec(v: T) -> PerResource<T> {
        PerResource { wheat: v, berry: v, fish: v, meat: v }
    }
}

/// Setting one resource's entry leaves the other entries as they were.
pub proof fn lemma_per_resource_frame<T>(s: PerResource<T>, r: ResourceItem, v: T, r2: ResourceItem)
    ensures
        r2 != r ==> s.spec_set(r, v).spec_get(r2) == s.spec_get(r2),
        s.spec_set(r, v).spec_get(r) == v,
{
}

impl<T> PerResource<T> {
    /// Transform every entry with the same function.
    pub fn map<U, F: Fn(&T) -> U>(&self, f: F) -> (r: PerResource<U>)
        requires
            forall|t: &T| #[trigger] f.requires((t,)),
        ensures
            f.ensures((&self.wheat,), r.wheat),
            f.ensures((&self.berry,), r.berry),
            f.ensures((&self.fish,), r.fish),
            f.ensures((&self.meat,), r.meat),
    {
        PerResource {
            wheat: f(&self.wheat),
            berry: f(&self.berry),
            fish: f(&self.fish),
            meat: f(&self.meat),
        }
    }

    /// Combine two containers entrywise.
    pub fn combine<V, U, F: Fn(&T, &V) -> U>(&self, other: &PerResource<V>, f: F) -> (r:
        PerResource<U>)
        requires
            forall|a: &T, b: &V| #[trigger] f.requires((a, b)),
        ensures
            f.ensures((&self.wheat, &other.wheat), r.wheat),
            f.ensures((&self.berry, &other.berry), r.berry),
            f.ensures((&self.fish, &other.fish), r.fish),
            f.ensures((&self.meat, &other.meat), r.meat),
    {
        PerResource {
            wheat: f(&self.wheat, &other.wheat),
            berry: f(&self.berry, &other.berry),
            fish: f(&self.fish, &other.fish),
            meat: f(&self.meat, &other.meat),
        }
    }
}

impl<T: Copy> PerResource<T> {
    /// The same value for all four resources.
    pub fn new(val: T) -> (r: PerResource<T>)
        ensures
            r == PerResource::new_spec(val),
            forall|it: ResourceItem| r.spec_get(it) == val,
    {
        PerResource { wheat: val, berry: val, fish: val, meat: val }
    }
}

/// A resource entity as it stands in the world: a stock of one resource
/// kind, farmed down by agents and periodically respawned.
#[derive(Debug, Clone, Copy, Hash, PartialEq, Eq, Structural)]
pub struct Resource {
    /// Units left in this stock; zero means depleted.
    pub amount: u16,
    /// Ticks left of the respawn countdown; zero while the stock is live.
    pub timeout: u16,
    /// The kind of resource this stock produces.
    pub resource: ResourceItem,
}

impl Resource {
    pub fn new(resource: ResourceItem, amount: u16) -> (r: Resource)
        ensures
            r == (Resource { amount, timeout: 0u16, resource }),
    {
        Resource { amount, resource, timeout: 0 }
    }

    /// Gather one item from this resource. Returns the item produced, or
    /// nothing when the stock is depleted.
    pub fn farm(&mut self) -> (r: Option<ResourceItem>)
        ensures
            old(self).amount > 0 ==> r == Some(old(self).resource)
                && final(self).amount == old(self).amount - 1,
            old(self).amount == 0 ==> r is None && *final(self) == *old(self),
            final(self).timeout == old(self).timeout,
            final(self).resource == old(self).resource,
    {
        if self.amount > 0 {
            self.amount = self.amount - 1;
            Some(self.resource)
        } else {
            None
        }
    }

    /// The resource kind this stock produces.
    pub fn product(&self) -> (r: ResourceItem)
        ensures
            r == self.resource,
    {
        self.resource
    }

    /// Whether this stock produces the given item.
    pub fn produces_item(&self, item: ResourceItem) -> (r: bool)
        ensures
            r == (self.resource == item),
    {
        self.product() == item
    }

    /// Units currently left in the stock.
    pub fn available(&self) -> (r: u16)
        ensures
            r == self.amount,
    {
        self.amount
    }
}

} // verus!
