//! The two hash maps of the order book, kept in `rustc_hash::FxHashMap`.
//!
//! The maps are held behind small wrappers whose contracts state, over the
//! map's contents, what each `FxHashMap` call does.
use crate::order_book::OrderInfo;
use crate::price_level::PriceLevel;
use rustc_hash::FxHashMap;
use vstd::prelude::*;

verus! {

/// Price levels of one side of the book, keyed by price.
#[verifier::external_body]
pub struct LevelMap {
    map: FxHashMap<u64, PriceLevel>,
}

/// What a `LevelMap` holds.
pub uninterp spec fn level_entries(m: LevelMap) -> Map<u64, PriceLevel>;

impl LevelMap {
    /// Relies on `FxHashMap::with_capacity_and_hasher`: the new map is empty.
    /// It panics when the table size for `levels` overflows `usize`, which
    /// the bound rules out.
    #[verifier::external_body]
    pub(crate) fn with_capacity(levels: usize) -> (r: Self)
        requires
            levels <= 4294967295,
        ensures
            level_entries(r).dom() == Set::<u64>::empty(),
    {
        LevelMap { map: FxHashMap::with_capacity_and_hasher(levels, Default::default()) }
    }

    /// Relies on `HashMap::get`: the level stored under `price`, if any.
    #[verifier::external_body]
    pub(crate) fn get(&self, price: u64) -> (r: Option<&PriceLevel>)
        ensures
            match r {
                Some(l) => level_entries(*self).contains_key(price) && *l == level_entries(*self)[price],
                None => !level_entries(*self).contains_key(price),
            },
    {
        self.map.get(&price)
    }

    /// Relies on `HashMap::entry` and `Entry::or_insert_with`: the level
    /// stored under `price`, first storing an empty one where there is none;
    /// what the caller leaves behind the reference is stored under `price`.
    #[verifier::external_body]
    pub(crate) fn get_or_insert_empty(&mut self, price: u64) -> (r: &mut PriceLevel)
        ensures
            *r == (if level_entries(*old(self)).contains_key(price) {
                level_entries(*old(self))[price]
            } else {
                PriceLevel::empty_spec()
            }),
            level_entries(*final(self)) == level_entries(*old(self)).insert(price, *final(r)),
    {
        self.map.entry(price).or_insert_with(PriceLevel::new)
    }

    /// Relies on `HashMap::get_mut`: the level stored under `price`, if any;
    /// what the caller leaves behind the reference is stored under `price`.
    #[verifier::external_body]
    pub(crate) fn get_mut(&mut self, price: u64) -> (r: Option<&mut PriceLevel>)
        ensures
            level_entries(*old(self)).contains_key(price) <==> r is Some,
            r is Some ==> *r.unwrap() == level_entries(*old(self))[price] && level_entries(*final(self))
                == level_entries(*old(self)).insert(price, *final(r.unwrap())),
            r is None ==> level_entries(*final(self)) == level_entries(*old(self)),
    {
        self.map.get_mut(&price)
    }

    /// Relies on `HashMap::insert`: `price` now maps to `level`.
    #[verifier::external_body]
    pub(crate) fn insert(&mut self, price: u64, level: PriceLevel)
        ensures
            level_entries(*final(self)) == level_entries(*old(self)).insert(price, level),
    {
        self.map.insert(price, level);
    }

    /// Relies on `HashMap::remove`: `price` no longer maps to anything.
    #[verifier::external_body]
    pub(crate) fn remove(&mut self, price: u64)
        ensures
            level_entries(*final(self)) == level_entries(*old(self)).remove(price),
    {
        self.map.remove(&price);
    }

    /// Relies on `HashMap::len`: the number of keys.
    #[verifier::external_body]
    pub(crate) fn len(&self) -> (r: usize)
        ensures
            r == level_entries(*self).dom().len(),
    {
        self.map.len()
    }

    /// Relies on `HashMap::keys`: every key once, in an unspecified order.
    #[verifier::external_body]
    pub(crate) fn keys(&self) -> (r: Vec<u64>)
        ensures
            r@.to_set() == level_entries(*self).dom(),
            r@.no_duplicates(),
    {
        self.map.keys().copied().collect()
    }

    /// Relies on `HashMap::clear`: the map becomes empty.
    #[verifier::external_body]
    pub(crate) fn clear(&mut self)
        ensures
            level_entries(*final(self)).dom() == Set::<u64>::empty(),
    {
        self.map.clear();
    }
}

/// Locator of the resting orders, keyed by order id.
#[verifier::external_body]
pub struct OrderMap {
    map: FxHashMap<u64, OrderInfo>,
}

/// What an `OrderMap` holds.
pub uninterp spec fn order_entries(m: OrderMap) -> Map<u64, OrderInfo>;

impl OrderMap {
    /// Relies on `FxHashMap::with_capacity_and_hasher`: the new map is empty.
    /// It panics when the table size for `orders` overflows `usize`, which
    /// the bound rules out.
    #[verifier::external_body]
    pub(crate) fn with_capacity(orders: usize) -> (r: Self)
        requires
            orders <= 4294967295,
        ensures
            order_entries(r).dom() == Set::<u64>::empty(),
    {
        OrderMap { map: FxHashMap::with_capacity_and_hasher(orders, Default::default()) }
    }

    /// Relies on `HashMap::get`: the entry stored under `order_id`, if any.
    #[verifier::external_body]
    pub(crate) fn get(&self, order_id: u64) -> (r: Option<&OrderInfo>)
        ensures
            match r {
                Some(info) => order_entries(*self).contains_key(order_id) && *info == order_entries(*self)[order_id],
                None => !order_entries(*self).contains_key(order_id),
            },
    {
        self.map.get(&order_id)
    }

    /// Relies on `HashMap::contains_key`.
    #[verifier::external_body]
    pub(crate) fn contains_key(&self, order_id: u64) -> (r: bool)
        ensures
            r == order_entries(*self).contains_key(order_id),
    {
        self.map.contains_key(&order_id)
    }

    /// Relies on `HashMap::insert`: `order_id` now maps to `info`.
    #[verifier::external_body]
    pub(crate) fn insert(&mut self, order_id: u64, info: OrderInfo)
        ensures
            order_entries(*final(self)) == order_entries(*old(self)).insert(order_id, info),
    {
        self.map.insert(order_id, info);
    }

    /// Relies on `HashMap::remove`: the entry is taken out and returned.
    #[verifier::external_body]
    pub(crate) fn remove(&mut self, order_id: u64) -> (r: Option<OrderInfo>)
        ensures
            order_entries(*final(self)) == order_entries(*old(self)).remove(order_id),
            r == (if order_entries(*old(self)).contains_key(order_id) {
                Some(order_entries(*old(self))[order_id])
            } else {
                None
            }),
    {
        self.map.remove(&order_id)
    }

    /// Relies on `HashMap::len`: the number of keys.
    #[verifier::external_body]
    pub(crate) fn len(&self) -> (r: usize)
        ensures
            r == order_entries(*self).dom().len(),
    {
        self.map.len()
    }

    /// Relies on `HashMap::clear`: the map becomes empty.
    #[verifier::external_body]
    pub(crate) fn clear(&mut self)
        ensures
            order_entries(*final(self)).dom() == Set::<u64>::empty(),
    {
        self.map.clear();
    }
}

} // verus!
