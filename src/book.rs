use vstd::prelude::*;

use std::collections::HashMap;

use crate::error::BookError;
use crate::limit::{admitted, has_id, ids_distinct, sum_sizes, Limit};
use crate::order::{is_random_uuid, Order, OrderType};

verus! {

broadcast use vstd::std_specs::hash::group_hash_axioms;

/// The levels of one side stand in strictly ascending order of price.
pub open spec fn ascending(levels: Seq<Limit>) -> bool {
    forall|a: int, b: int|
        0 <= a < b < levels.len() ==> (#[trigger] levels[a]).price < (#[trigger] levels[b]).price
}

/// The level at `price` among `levels`, if there is one.
pub open spec fn level_in(levels: Seq<Limit>, price: u64) -> Option<Limit> {
    if exists|i: int| 0 <= i < levels.len() && (#[trigger] levels[i]).price == price {
        Some(levels[choose|i: int| 0 <= i < levels.len() && (#[trigger] levels[i]).price == price])
    } else {
        None
    }
}

/// The orders resting at `price` among `levels`, in arrival order.
pub open spec fn queue_in(levels: Seq<Limit>, price: u64) -> Seq<Order> {
    match level_in(levels, price) {
        Some(l) => l.orders@,
        None => Seq::empty(),
    }
}

/// The aggregate volume at `price` among `levels`.
pub open spec fn volume_in(levels: Seq<Limit>, price: u64) -> nat {
    match level_in(levels, price) {
        Some(l) => l.total_volume as nat,
        None => 0,
    }
}

proof fn lemma_level_at(levels: Seq<Limit>, i: int)
    requires
        ascending(levels),
        0 <= i < levels.len(),
    ensures
        level_in(levels, levels[i].price) == Some(levels[i]),
{
    let p = levels[i].price;
    assert(levels[i].price == p);
    let j = choose|j: int| 0 <= j < levels.len() && (#[trigger] levels[j]).price == p;
    assert(j == i) by {
        if j < i {
            assert(levels[j].price < levels[i].price);
        } else if i < j {
            assert(levels[i].price < levels[j].price);
        }
    }
}

proof fn lemma_level_index(levels: Seq<Limit>, price: u64) -> (i: int)
    requires
        level_in(levels, price) is Some,
    ensures
        0 <= i < levels.len(),
        levels[i].price == price,
        level_in(levels, price) == Some(levels[i]),
{
    choose|i: int| 0 <= i < levels.len() && (#[trigger] levels[i]).price == price
}

/// Whether `l` is one of `levels`.
spec fn stands_in(levels: Seq<Limit>, l: Limit) -> bool {
    exists|j: int| 0 <= j < levels.len() && levels[j] == l
}

/// Two ascending sequences of levels that hold the same levels away from
/// `price` find the same level at every other price.
proof fn lemma_frame(before: Seq<Limit>, after: Seq<Limit>, price: u64)
    requires
        ascending(before),
        ascending(after),
        forall|j: int|
            0 <= j < before.len() && before[j].price != price ==> stands_in(after, #[trigger] before[j]),
        forall|j: int|
            0 <= j < after.len() && after[j].price != price ==> stands_in(before, #[trigger] after[j]),
    ensures
        forall|p: u64| p != price ==> #[trigger] level_in(after, p) == level_in(before, p),
{
    assert forall|p: u64| p != price implies #[trigger] level_in(after, p) == level_in(before, p) by {
        if level_in(before, p) is Some {
            let j = lemma_level_index(before, p);
            assert(stands_in(after, before[j]));
            let k = choose|k: int| 0 <= k < after.len() && after[k] == before[j];
            lemma_level_at(after, k);
        } else if level_in(after, p) is Some {
            let k = lemma_level_index(after, p);
            assert(stands_in(before, after[k]));
            let j = choose|j: int| 0 <= j < before.len() && before[j] == after[k];
            lemma_level_at(before, j);
        }
    }
}

/// Binary search for `price`: `Ok` with its index, or `Err` with the index at
/// which a level at `price` would keep the order.
fn find_level(levels: &Vec<Limit>, price: u64) -> (r: Result<usize, usize>)
    requires
        ascending(levels@),
    ensures
        r matches Ok(i) ==> i < levels@.len() && levels@[i as int].price == price,
        r matches Err(i) ==> i <= levels@.len() && (forall|j: int|
            0 <= j < i ==> (#[trigger] levels@[j]).price < price) && (forall|j: int|
            i <= j < levels@.len() ==> (#[trigger] levels@[j]).price > price),
{
    let mut lo: usize = 0;
    let mut hi: usize = levels.len();
    while lo < hi
        invariant
            0 <= lo <= hi <= levels@.len(),
            ascending(levels@),
            forall|j: int| 0 <= j < lo ==> (#[trigger] levels@[j]).price < price,
            forall|j: int| hi <= j < levels@.len() ==> (#[trigger] levels@[j]).price > price,
        decreases hi - lo,
    {
        let mid = lo + (hi - lo) / 2;
        let mp = levels[mid].price;
        if mp == price {
            return Ok(mid);
        } else if mp < price {
            lo = mid + 1;
        } else {
            hi = mid;
        }
    }
    Err(lo)
}

/// Every level of the sequence is well formed.
pub open spec fn all_wf(levels: Seq<Limit>) -> bool {
    forall|j: int| 0 <= j < levels.len() ==> (#[trigger] levels[j]).wf()
}

/// Admits `order` at `price`, into the level there or into a new one put in
/// its place in price order.
fn place(levels: &mut Vec<Limit>, price: u64, order: Order)
    requires
        ascending(old(levels)@),
        all_wf(old(levels)@),
        level_in(old(levels)@, price) matches Some(l) ==> !has_id(l.orders@, order.id)
            && l.total_volume + order.size <= u64::MAX,
    ensures
        ascending(final(levels)@),
        all_wf(final(levels)@),
        forall|p: u64| p != price ==> level_in(final(levels)@, p) == level_in(old(levels)@, p),
        level_in(final(levels)@, price) matches Some(l) && l.price == price && l.orders@
            == queue_in(old(levels)@, price).push(admitted(order, l.id)) && l.total_volume
            == volume_in(old(levels)@, price) + order.size,
        level_in(old(levels)@, price) matches Some(ol) ==> level_in(final(levels)@, price) matches Some(l) && l.id == ol.id,
{
    let ghost before = levels@;
    match find_level(levels, price) {
        Ok(i) => {
            proof {
                lemma_level_at(before, i as int);
            }
            levels[i].add_order(order);
            proof {
                let after = levels@;
                assert forall|a: int| 0 <= a < after.len() implies #[trigger] after[a].price
                    == before[a].price && (a != i ==> after[a] == before[a]) by {}
                assert(ascending(after));
                lemma_level_at(after, i as int);
                assert forall|j: int| 0 <= j < before.len() && before[j].price != price implies stands_in(
                    after, #[trigger] before[j]) by {
                    assert(after[j] == before[j]);
                }
                assert forall|j: int| 0 <= j < after.len() && after[j].price != price implies stands_in(
                    before, #[trigger] after[j]) by {
                    assert(after[j] == before[j]);
                }
                lemma_frame(before, after, price);
            }
        },
        Err(i) => {
            let mut l = Limit::new(price);
            let ghost empty = l.orders@;
            l.add_order(order);
            proof {
                assert(empty =~= Seq::<Order>::empty());
            }
            levels.insert(i, l);
            proof {
                let after = levels@;
                assert(after[i as int].price == price);
                assert forall|a: int, b: int| 0 <= a < b < after.len() implies (#[trigger] after[a]).price < (#[trigger] after[b]).price by {
                    if b < i {
                        assert(after[a] == before[a] && after[b] == before[b]);
                    } else if b == i {
                        assert(after[a] == before[a]);
                    } else if a > i {
                        assert(after[a] == before[a - 1] && after[b] == before[b - 1]);
                    } else if a == i {
                        assert(after[b] == before[b - 1]);
                    } else {
                        assert(after[a] == before[a] && after[b] == before[b - 1]);
                    }
                }
                assert forall|j: int| 0 <= j < after.len() implies (#[trigger] after[j]).wf() by {
                    if j < i {
                        assert(after[j] == before[j]);
                    } else if j > i {
                        assert(after[j] == before[j - 1]);
                    }
                }
                lemma_level_at(after, i as int);
                assert forall|j: int| 0 <= j < before.len() implies (#[trigger] before[j]).price != price by {}
                assert(level_in(before, price) is None);
                assert forall|j: int| 0 <= j < before.len() && before[j].price != price implies stands_in(
                    after, #[trigger] before[j]) by {
                    let j2 = if j < i { j } else { j + 1 };
                    assert(after[j2] == before[j]);
                }
                assert forall|j: int| 0 <= j < after.len() && after[j].price != price implies stands_in(
                    before, #[trigger] after[j]) by {
                    if j < i {
                        assert(after[j] == before[j]);
                    } else {
                        assert(after[j] == before[j - 1]);
                    }
                }
                lemma_frame(before, after, price);
            }
        },
    }
}

/// Removes the order `order_id` from the level at `price`, and the level
/// itself once it holds no order.
fn take_from(levels: &mut Vec<Limit>, price: u64, order_id: u128)
    requires
        ascending(old(levels)@),
        all_wf(old(levels)@),
        level_in(old(levels)@, price) matches Some(l) && has_id(l.orders@, order_id),
    ensures
        ascending(final(levels)@),
        all_wf(final(levels)@),
        forall|p: u64| p != price ==> level_in(final(levels)@, p) == level_in(old(levels)@, p),
        exists|k: int|
            0 <= k < queue_in(old(levels)@, price).len() && (#[trigger] queue_in(old(levels)@, price)[k]).id
                == order_id && queue_in(final(levels)@, price) == queue_in(old(levels)@, price).remove(k)
                && volume_in(final(levels)@, price) + queue_in(old(levels)@, price)[k].size
                == volume_in(old(levels)@, price),
        level_in(final(levels)@, price) matches Some(l) ==> (l.price == price && l.orders@.len() > 0
            && (level_in(old(levels)@, price) matches Some(ol) && l.id == ol.id)),
{
    let ghost before = levels@;
    match find_level(levels, price) {
        Ok(i) => {
            proof {
                lemma_level_at(before, i as int);
            }
            let r = levels[i].remove_order(order_id);
            let ghost mid = levels@;
            let ghost k = choose|k: int|
                0 <= k < before[i as int].orders@.len()
                    && #[trigger] before[i as int].orders@[k].id == order_id
                    && mid[i as int].orders@ == before[i as int].orders@.remove(k)
                    && mid[i as int].total_volume == before[i as int].total_volume
                    - before[i as int].orders@[k].size;
            proof {
                assert(queue_in(before, price)[k].id == order_id);
                assert forall|a: int| 0 <= a < mid.len() implies #[trigger] mid[a].price
                    == before[a].price && (a != i ==> mid[a] == before[a]) by {}
                assert(ascending(mid));
                lemma_level_at(mid, i as int);
                assert forall|j: int| 0 <= j < before.len() && before[j].price != price implies stands_in(
                    mid, #[trigger] before[j]) by {
                    assert(mid[j] == before[j]);
                }
                assert forall|j: int| 0 <= j < mid.len() && mid[j].price != price implies stands_in(
                    before, #[trigger] mid[j]) by {
                    assert(mid[j] == before[j]);
                }
                lemma_frame(before, mid, price);
            }
            if levels[i].orders.len() == 0 {
                let _ = levels.remove(i);
                proof {
                    let after = levels@;
                    assert forall|a: int, b: int| 0 <= a < b < after.len() implies (#[trigger] after[a]).price < (#[trigger] after[b]).price by {
                        let a0 = if a < i { a } else { a + 1 };
                        let b0 = if b < i { b } else { b + 1 };
                        assert(after[a] == mid[a0] && after[b] == mid[b0]);
                    }
                    assert forall|j: int| 0 <= j < after.len() implies (#[trigger] after[j]).wf() by {
                        let j0 = if j < i { j } else { j + 1 };
                        assert(after[j] == mid[j0]);
                    }
                    assert forall|j: int| 0 <= j < after.len() implies (#[trigger] after[j]).price != price by {
                        let j0 = if j < i { j } else { j + 1 };
                        assert(after[j] == mid[j0]);
                        if j0 < i {
                            assert(mid[j0].price < mid[i as int].price);
                        } else {
                            assert(mid[i as int].price < mid[j0].price);
                        }
                    }
                    assert(level_in(after, price) is None);
                    assert(queue_in(after, price) =~= mid[i as int].orders@);
                    assert(volume_in(after, price) == mid[i as int].total_volume);
                    assert forall|j: int| 0 <= j < mid.len() && mid[j].price != price implies stands_in(
                        after, #[trigger] mid[j]) by {
                        let j2 = if j < i { j } else { j - 1 };
                        assert(after[j2] == mid[j]);
                    }
                    assert forall|j: int| 0 <= j < after.len() && after[j].price != price implies stands_in(
                        mid, #[trigger] after[j]) by {
                        let j0 = if j < i { j } else { j + 1 };
                        assert(after[j] == mid[j0]);
                    }
                    lemma_frame(mid, after, price);
                }
            }
        },
        Err(_) => {
            // The level at `price` exists, so the search cannot miss it.
            proof {
                lemma_level_index(before, price);
            }
        },
    }
}

/// Where the book finds a resting order: its side and its price.
pub type Location = (OrderType, u64);

/// A level fit to stand on `side` of a book whose order locations are `loc`:
/// well formed, not empty, and each member on that side, of positive size,
/// and located at this level's price.
pub open spec fn level_ok(l: Limit, side: OrderType, loc: Map<u128, Location>) -> bool {
    &&& l.wf()
    &&& l.orders@.len() > 0
    &&& forall|k: int|
        0 <= k < l.orders@.len() ==> (#[trigger] l.orders@[k]).order_type == side
            && l.orders@[k].size > 0 && loc.contains_key(l.orders@[k].id) && loc[l.orders@[k].id]
            == (side, l.price)
}

/// A limit order book: per side, the non-empty price levels in ascending order
/// of price, and for every resting order the side and price it rests at.
pub struct OrderBook {
    bids: Vec<Limit>,
    asks: Vec<Limit>,
    locations: HashMap<u128, Location>,
}

impl OrderBook {
    /// The levels of `side`, in ascending order of price.
    pub closed spec fn levels(&self, side: OrderType) -> Seq<Limit> {
        match side {
            OrderType::Bid => self.bids@,
            OrderType::Ask => self.asks@,
        }
    }

    /// The side and price recorded for each resting order.
    pub closed spec fn locations(&self) -> Map<u128, Location> {
        self.locations@
    }

    /// The level at `price` on `side`, if any order rests there.
    pub closed spec fn level(&self, side: OrderType, price: u64) -> Option<Limit> {
        level_in(self.levels(side), price)
    }

    /// The prices of `side` that have a level, in ascending order.
    pub closed spec fn prices(&self, side: OrderType) -> Seq<u64> {
        self.levels(side).map_values(|l: Limit| l.price)
    }

    /// The orders resting at `price` on `side`, in arrival order.
    pub open spec fn queue(&self, side: OrderType, price: u64) -> Seq<Order> {
        match self.level(side, price) {
            Some(l) => l.orders@,
            None => Seq::empty(),
        }
    }

    /// The aggregate volume at `price` on `side`.
    pub open spec fn volume(&self, side: OrderType, price: u64) -> nat {
        match self.level(side, price) {
            Some(l) => l.total_volume as nat,
            None => 0,
        }
    }

    /// Whether an order with identity `id` rests anywhere in the book.
    pub open spec fn holds(&self, id: u128) -> bool {
        exists|s: OrderType, p: u64| has_id(#[trigger] self.queue(s, p), id)
    }

    /// Both sides ascend by price and hold only fit levels, and every
    /// recorded location leads to a level that holds the order.
    pub closed spec fn wf(&self) -> bool {
        &&& forall|s: OrderType| #[trigger] ascending(self.levels(s))
        &&& forall|s: OrderType, i: int|
            0 <= i < self.levels(s).len() ==> level_ok(
                #[trigger] self.levels(s)[i],
                s,
                self.locations@,
            )
        &&& forall|id: u128| #[trigger]
            self.locations@.contains_key(id) ==> has_id(
                self.queue(self.locations@[id].0, self.locations@[id].1),
                id,
            )
    }

    /// `after` is this book with `order` admitted at `price` on its side,
    /// behind the orders already resting there.
    pub open spec fn admits(&self, after: OrderBook, price: u64, order: Order) -> bool {
        let side = order.order_type;
        &&& forall|s: OrderType, p: u64|
            !(s == side && p == price) ==> #[trigger] after.level(s, p) == self.level(s, p)
        &&& after.level(side, price) matches Some(l) && l.orders@ == self.queue(side, price).push(
            admitted(order, l.id),
        ) && l.total_volume == self.volume(side, price) + order.size
        &&& self.level(side, price) matches Some(ol) ==> after.level(side, price)->Some_0.id
            == ol.id
    }

    /// `after` is this book with the order `id` taken out of the level where it
    /// rested, the others there keeping their arrival order.
    pub open spec fn cancels(&self, after: OrderBook, id: u128) -> bool {
        exists|s: OrderType, p: u64, k: int|
            0 <= k < self.queue(s, p).len() && (#[trigger] self.queue(s, p)[k]).id == id
                && after.queue(s, p) == self.queue(s, p).remove(k) && after.volume(s, p)
                + self.queue(s, p)[k].size == self.volume(s, p) && (forall|s2: OrderType, p2: u64|
                !(s2 == s && p2 == p) ==> #[trigger] after.level(s2, p2) == self.level(s2, p2))
                && (after.level(s, p) matches Some(l) ==> self.level(s, p) matches Some(ol)
                && l.id == ol.id)
    }

    proof fn lemma_level_ok(&self, s: OrderType, p: u64)
        requires
            self.wf(),
            self.level(s, p) is Some,
        ensures
            level_ok(self.level(s, p)->Some_0, s, self.locations@),
            self.level(s, p)->Some_0.price == p,
            ascending(self.levels(s)),
    {
        let i = lemma_level_index(self.levels(s), p);
        assert(ascending(self.levels(s)));
        assert(level_ok(self.levels(s)[i], s, self.locations@));
    }

    /// The recorded locations are exactly the identities held.
    proof fn lemma_holds(&self, id: u128)
        requires
            self.wf(),
        ensures
            self.holds(id) <==> self.locations@.contains_key(id),
    {
        if self.holds(id) {
            let (s, p) = choose|s: OrderType, p: u64| has_id(#[trigger] self.queue(s, p), id);
            assert(self.queue(s, p).len() > 0);
            self.lemma_level_ok(s, p);
            let l = self.level(s, p)->Some_0;
            let k = choose|k: int| 0 <= k < l.orders@.len() && (#[trigger] l.orders@[k]).id == id;
            assert(l.orders@[k].id == id);
        }
        if self.locations@.contains_key(id) {
            let s = self.locations@[id].0;
            let p = self.locations@[id].1;
            assert(has_id(self.queue(s, p), id));
        }
    }

    fn side_levels(&self, side: OrderType) -> (r: &Vec<Limit>)
        ensures
            r@ == self.levels(side),
    {
        match side {
            OrderType::Bid => &self.bids,
            OrderType::Ask => &self.asks,
        }
    }

    /// An empty book.
    pub fn new() -> (r: OrderBook)
        ensures
            r.wf(),
            forall|s: OrderType, p: u64| #[trigger] r.level(s, p) is None,
            forall|s: OrderType| #[trigger] r.prices(s).len() == 0,
    {
        let r = OrderBook { bids: Vec::new(), asks: Vec::new(), locations: HashMap::new() };
        assert(r.locations@ =~= Map::<u128, Location>::empty());
        r
    }

    /// Admits `order` at `price` on its side: into the level there, behind the
    /// orders already resting, or into a new level, and returns the order's
    /// identity. Fails, changing nothing, with `InvalidSize` for an order of
    /// size zero, then with `VolumeOverflow` where the level's volume would
    /// pass `u64::MAX`, then with `DuplicateOrder` where an order with the same
    /// identity already rests.
    pub fn add_order(&mut self, price: u64, order: Order) -> (r: Result<u128, BookError>)
        requires
            old(self).wf(),
        ensures
            final(self).wf(),
            r == Err::<u128, BookError>(BookError::InvalidSize) <==> order.size == 0,
            r == Err::<u128, BookError>(BookError::VolumeOverflow) <==> order.size > 0 && old(
                self,
            ).volume(order.order_type, price) + order.size > u64::MAX,
            r == Err::<u128, BookError>(BookError::DuplicateOrder) <==> order.size > 0 && old(
                self,
            ).volume(order.order_type, price) + order.size <= u64::MAX && old(self).holds(
                order.id,
            ),
            r == Ok::<u128, BookError>(order.id) <==> order.size > 0 && old(self).volume(
                order.order_type,
                price,
            ) + order.size <= u64::MAX && !old(self).holds(order.id),
            r is Err ==> *final(self) == *old(self),
            r is Ok ==> old(self).admits(*final(self), price, order),
    {
        if order.size == 0 {
            return Err(BookError::InvalidSize);
        }
        let side = order.order_type;
        let vol = self.volume_at(side, price);
        if order.size > u64::MAX - vol {
            return Err(BookError::VolumeOverflow);
        }
        proof {
            self.lemma_holds(order.id);
        }
        if self.locations.contains_key(&order.id) {
            return Err(BookError::DuplicateOrder);
        }
        let ghost pre = *self;
        proof {
            assert(ascending(pre.levels(side)));
            assert forall|j: int| 0 <= j < pre.levels(side).len() implies (#[trigger] pre.levels(side)[j]).wf() by {
                assert(level_ok(pre.levels(side)[j], side, pre.locations@));
            }
            if pre.level(side, price) is Some {
                let l = pre.level(side, price)->Some_0;
                assert(pre.queue(side, price) == l.orders@);
                if has_id(l.orders@, order.id) {
                    assert(has_id(pre.queue(side, price), order.id));
                }
            }
        }
        match side {
            OrderType::Bid => place(&mut self.bids, price, order),
            OrderType::Ask => place(&mut self.asks, price, order),
        }
        self.locations.insert(order.id, (side, price));
        proof {
            self.lemma_admit_keeps_wf(pre, price, order);
        }
        Ok(order.id)
    }

    proof fn lemma_admit_keeps_wf(&self, pre: OrderBook, price: u64, order: Order)
        requires
            pre.wf(),
            order.size > 0,
            !pre.locations@.contains_key(order.id),
            self.locations@ == pre.locations@.insert(order.id, (order.order_type, price)),
            forall|s: OrderType| s != order.order_type ==> #[trigger] self.levels(s) == pre.levels(s),
            ascending(self.levels(order.order_type)),
            all_wf(self.levels(order.order_type)),
            forall|p: u64| p != price ==> level_in(self.levels(order.order_type), p) == level_in(pre.levels(order.order_type), p),
            level_in(self.levels(order.order_type), price) matches Some(l) && l.price == price && l.orders@
                == queue_in(pre.levels(order.order_type), price).push(admitted(order, l.id)) && l.total_volume
                == volume_in(pre.levels(order.order_type), price) + order.size,
            level_in(pre.levels(order.order_type), price) matches Some(ol) ==> level_in(self.levels(order.order_type), price) matches Some(l) && l.id == ol.id,
        ensures
            self.wf(),
            pre.admits(*self, price, order),
    {
        let side = order.order_type;
        let loc0 = pre.locations@;
        let loc1 = self.locations@;
        assert forall|s: OrderType| #[trigger] ascending(self.levels(s)) by {
            if s != side {
                assert(ascending(pre.levels(s)));
            }
        }
        assert forall|s: OrderType, p: u64| !(s == side && p == price) implies #[trigger] self.level(s, p) == pre.level(s, p) by {}
        let nl = self.level(side, price)->Some_0;
        assert forall|s: OrderType, i: int| 0 <= i < self.levels(s).len() implies level_ok(
            #[trigger] self.levels(s)[i], s, loc1) by {
            let l = self.levels(s)[i];
            let p = l.price;
            lemma_level_at(self.levels(s), i);
            if s == side && p == price {
                assert(l == nl);
                let q0 = pre.queue(side, price);
                assert(q0 == queue_in(pre.levels(side), price));
                if q0.len() > 0 {
                    pre.lemma_level_ok(side, price);
                }
                assert(l.wf());
                assert forall|k: int| 0 <= k < l.orders@.len() implies (#[trigger] l.orders@[k]).order_type == s
                    && l.orders@[k].size > 0 && loc1.contains_key(l.orders@[k].id) && loc1[l.orders@[k].id]
                    == (s, l.price) by {
                    if k < q0.len() {
                        let ol = pre.level(side, price)->Some_0;
                        assert(l.orders@[k] == ol.orders@[k]);
                        assert(loc0.contains_key(ol.orders@[k].id));
                    } else {
                        assert(l.orders@[k] == admitted(order, l.id));
                    }
                }
            } else {
                assert(self.level(s, p) == pre.level(s, p));
                pre.lemma_level_ok(s, p);
                assert forall|k: int| 0 <= k < l.orders@.len() implies (#[trigger] l.orders@[k]).order_type == s
                    && l.orders@[k].size > 0 && loc1.contains_key(l.orders@[k].id) && loc1[l.orders@[k].id]
                    == (s, l.price) by {
                    assert(loc0.contains_key(l.orders@[k].id));
                }
            }
        }
        assert forall|id: u128| #[trigger] loc1.contains_key(id) implies has_id(
            self.queue(loc1[id].0, loc1[id].1), id) by {
            if id == order.id {
                let last = nl.orders@.len() - 1;
                assert(nl.orders@[last].id == id);
            } else {
                assert(loc0.contains_key(id));
                let s2 = loc0[id].0;
                let p2 = loc0[id].1;
                assert(has_id(pre.queue(s2, p2), id));
                let k2 = choose|k: int| 0 <= k < pre.queue(s2, p2).len() && (#[trigger] pre.queue(s2, p2)[k]).id == id;
                if s2 == side && p2 == price {
                    assert(self.queue(s2, p2)[k2] == pre.queue(s2, p2)[k2]);
                } else {
                    assert(self.queue(s2, p2) == pre.queue(s2, p2));
                }
                assert(self.queue(s2, p2)[k2].id == id);
            }
        }
    }

    /// Cancels the resting order `order_id`: it leaves its level, the others
    /// there keep their arrival order, and a level left empty is pruned.
    /// Fails with `OrderNotFound`, changing nothing, where no such order rests.
    pub fn cancel(&mut self, order_id: u128) -> (r: Result<(), BookError>)
        requires
            old(self).wf(),
        ensures
            final(self).wf(),
            r is Ok <==> old(self).holds(order_id),
            r is Err ==> r == Err::<(), BookError>(BookError::OrderNotFound) && *final(self) == *old(
                self,
            ),
            r is Ok ==> old(self).cancels(*final(self), order_id),
    {
        proof {
            self.lemma_holds(order_id);
        }
        let found: Option<Location> = match self.locations.get(&order_id) {
            Some(at) => Some(*at),
            None => None,
        };
        match found {
            None => Err(BookError::OrderNotFound),
            Some((side, price)) => {
                let ghost pre = *self;
                proof {
                    assert(has_id(pre.queue(side, price), order_id));
                    pre.lemma_level_ok(side, price);
                    assert forall|j: int| 0 <= j < pre.levels(side).len() implies (#[trigger] pre.levels(side)[j]).wf() by {
                        assert(level_ok(pre.levels(side)[j], side, pre.locations@));
                    }
                }
                match side {
                    OrderType::Bid => take_from(&mut self.bids, price, order_id),
                    OrderType::Ask => take_from(&mut self.asks, price, order_id),
                }
                let _ = self.locations.remove(&order_id);
                proof {
                    self.lemma_cancel_keeps_wf(pre, side, price, order_id);
                }
                Ok(())
            },
        }
    }

    proof fn lemma_cancel_keeps_wf(&self, pre: OrderBook, side: OrderType, price: u64, id: u128)
        requires
            pre.wf(),
            pre.locations@.contains_key(id),
            pre.locations@[id] == (side, price),
            self.locations@ == pre.locations@.remove(id),
            forall|s: OrderType| s != side ==> #[trigger] self.levels(s) == pre.levels(s),
            ascending(self.levels(side)),
            all_wf(self.levels(side)),
            forall|p: u64| p != price ==> level_in(self.levels(side), p) == level_in(pre.levels(side), p),
            exists|k: int|
                0 <= k < queue_in(pre.levels(side), price).len() && (#[trigger] queue_in(pre.levels(side), price)[k]).id
                    == id && queue_in(self.levels(side), price) == queue_in(pre.levels(side), price).remove(k)
                    && volume_in(self.levels(side), price) + queue_in(pre.levels(side), price)[k].size
                    == volume_in(pre.levels(side), price),
            level_in(self.levels(side), price) matches Some(l) ==> (l.price == price && l.orders@.len() > 0
                && (level_in(pre.levels(side), price) matches Some(ol) && l.id == ol.id)),
        ensures
            self.wf(),
            pre.cancels(*self, id),
    {
        let loc0 = pre.locations@;
        let loc1 = self.locations@;
        let q0 = pre.queue(side, price);
        let q1 = self.queue(side, price);
        let k = choose|k: int|
            0 <= k < queue_in(pre.levels(side), price).len() && (#[trigger] queue_in(pre.levels(side), price)[k]).id
                == id && queue_in(self.levels(side), price) == queue_in(pre.levels(side), price).remove(k)
                && volume_in(self.levels(side), price) + queue_in(pre.levels(side), price)[k].size
                == volume_in(pre.levels(side), price);
        assert(q0.len() > 0);
        pre.lemma_level_ok(side, price);
        let ol = pre.level(side, price)->Some_0;
        assert(ids_distinct(ol.orders@));
        assert forall|s: OrderType| #[trigger] ascending(self.levels(s)) by {
            if s != side {
                assert(ascending(pre.levels(s)));
            }
        }
        assert forall|s2: OrderType, p2: u64| !(s2 == side && p2 == price) implies #[trigger] self.level(s2, p2) == pre.level(s2, p2) by {}
        assert forall|s: OrderType, i: int| 0 <= i < self.levels(s).len() implies level_ok(
            #[trigger] self.levels(s)[i], s, loc1) by {
            let l = self.levels(s)[i];
            let p = l.price;
            lemma_level_at(self.levels(s), i);
            if s == side && p == price {
                assert(l.orders@ == q0.remove(k));
                assert forall|j: int| 0 <= j < l.orders@.len() implies (#[trigger] l.orders@[j]).order_type == s
                    && l.orders@[j].size > 0 && loc1.contains_key(l.orders@[j].id) && loc1[l.orders@[j].id]
                    == (s, l.price) by {
                    let j0 = if j < k { j } else { j + 1 };
                    assert(l.orders@[j] == ol.orders@[j0]);
                    assert(ol.orders@[j0].id != id);
                }
            } else {
                assert(self.level(s, p) == pre.level(s, p));
                pre.lemma_level_ok(s, p);
                assert forall|j: int| 0 <= j < l.orders@.len() implies (#[trigger] l.orders@[j]).order_type == s
                    && l.orders@[j].size > 0 && loc1.contains_key(l.orders@[j].id) && loc1[l.orders@[j].id]
                    == (s, l.price) by {
                    assert(loc0[l.orders@[j].id] == (s, p));
                }
            }
        }
        assert forall|id2: u128| #[trigger] loc1.contains_key(id2) implies has_id(
            self.queue(loc1[id2].0, loc1[id2].1), id2) by {
            assert(loc0.contains_key(id2) && id2 != id);
            let s2 = loc0[id2].0;
            let p2 = loc0[id2].1;
            assert(has_id(pre.queue(s2, p2), id2));
            let k2 = choose|k2: int| 0 <= k2 < pre.queue(s2, p2).len() && (#[trigger] pre.queue(s2, p2)[k2]).id == id2;
            if s2 == side && p2 == price {
                let j = if k2 < k { k2 } else { k2 - 1 };
                assert(k2 != k);
                assert(q1[j] == q0[k2]);
                assert(q1.len() > 0);
                assert(self.queue(s2, p2)[j].id == id2);
            } else {
                assert(self.queue(s2, p2) == pre.queue(s2, p2));
                assert(self.queue(s2, p2)[k2].id == id2);
            }
        }
        assert(q0[k].id == id);
    }

    /// The aggregate volume at `price` on `side`; zero where no order rests.
    pub fn volume_at(&self, side: OrderType, price: u64) -> (r: u64)
        requires
            self.wf(),
        ensures
            r == self.volume(side, price),
    {
        let levels = self.side_levels(side);
        assert(ascending(levels@));
        match find_level(levels, price) {
            Ok(i) => {
                proof {
                    lemma_level_at(levels@, i as int);
                }
                levels[i].total_volume
            },
            Err(_) => {
                proof {
                    if self.level(side, price) is Some {
                        lemma_level_index(levels@, price);
                    }
                }
                0
            },
        }
    }
    /// Submits a new order of `size` at `price` on `side`, with a random
    /// identity and the current time, and returns its identity. Fails,
    /// changing nothing, as `add_order` does; `DuplicateOrder` comes only where
    /// the random identity is already resting.
    pub fn insert(&mut self, side: OrderType, price: u64, size: u64) -> (r: Result<u128, BookError>)
        requires
            old(self).wf(),
        ensures
            final(self).wf(),
            r == Err::<u128, BookError>(BookError::InvalidSize) <==> size == 0,
            r == Err::<u128, BookError>(BookError::VolumeOverflow) <==> size > 0 && old(self).volume(
                side,
                price,
            ) + size > u64::MAX,
            r == Err::<u128, BookError>(BookError::DuplicateOrder) ==> exists|id: u128|
                is_random_uuid(id) && #[trigger] old(self).holds(id),
            r matches Err(e) ==> e != BookError::OrderNotFound && *final(self) == *old(self),
            r matches Ok(id) ==> is_random_uuid(id) && !old(self).holds(id) && exists|o: Order|
                o.id == id && o.order_type == side && o.size == size && o.limit_id is None
                    && #[trigger] old(self).admits(*final(self), price, o),
    {
        let order = match Order::new(side, size) {
            Ok(o) => o,
            Err(e) => return Err(e),
        };
        self.add_order(price, order)
    }

    /// The best resting price of `side`: the highest bid or the lowest ask;
    /// `None` where the side is empty.
    pub fn best_price(&self, side: OrderType) -> (r: Option<u64>)
        requires
            self.wf(),
        ensures
            r is None <==> forall|p: u64| #[trigger] self.level(side, p) is None,
            r matches Some(b) ==> self.level(side, b) is Some && forall|p: u64|
                #[trigger] self.level(side, p) is Some ==> (side == OrderType::Bid ==> p <= b) && (
                side == OrderType::Ask ==> b <= p),
    {
        let levels = self.side_levels(side);
        assert(ascending(levels@));
        let n = levels.len();
        if n == 0 {
            proof {
                assert forall|p: u64| #[trigger] self.level(side, p) is None by {
                    if self.level(side, p) is Some {
                        lemma_level_index(levels@, p);
                    }
                }
            }
            None
        } else {
            let i: usize = match side {
                OrderType::Bid => n - 1,
                OrderType::Ask => 0,
            };
            let b = levels[i].price;
            proof {
                lemma_level_at(levels@, i as int);
                assert forall|p: u64| #[trigger] self.level(side, p) is Some implies (side
                    == OrderType::Bid ==> p <= b) && (side == OrderType::Ask ==> b <= p) by {
                    let j = lemma_level_index(levels@, p);
                    if j != i {
                        assert(levels@[j].price == p);
                    }
                }
            }
            Some(b)
        }
    }

    /// The number of price levels on `side`.
    pub fn limit_count(&self, side: OrderType) -> (r: usize)
        ensures
            r == self.prices(side).len(),
    {
        self.side_levels(side).len()
    }

    /// The level at `price` on `side`, for reading its orders in arrival order.
    pub fn limit_at(&self, side: OrderType, price: u64) -> (r: Option<&Limit>)
        requires
            self.wf(),
        ensures
            match r {
                Some(l) => self.level(side, price) == Some(*l),
                None => self.level(side, price) is None,
            },
    {
        let levels = self.side_levels(side);
        assert(ascending(levels@));
        match find_level(levels, price) {
            Ok(i) => {
                proof {
                    lemma_level_at(levels@, i as int);
                }
                Some(&levels[i])
            },
            Err(_) => {
                proof {
                    if self.level(side, price) is Some {
                        lemma_level_index(levels@, price);
                    }
                }
                None
            },
        }
    }
}

/// Every level's aggregate volume equals the sum of the sizes of the orders
/// resting in it.
pub proof fn lemma_volume_conservation(book: OrderBook)
    requires
        book.wf(),
    ensures
        forall|s: OrderType, p: u64| #[trigger] book.volume(s, p) == sum_sizes(book.queue(s, p)),
{
    assert forall|s: OrderType, p: u64| #[trigger] book.volume(s, p) == sum_sizes(book.queue(s, p)) by {
        if book.level(s, p) is Some {
            book.lemma_level_ok(s, p);
        }
    }
}

/// No two resting orders share an identity, within a level or across levels
/// and sides.
pub proof fn lemma_unique_identities(book: OrderBook)
    requires
        book.wf(),
    ensures
        forall|s1: OrderType, p1: u64, k1: int, s2: OrderType, p2: u64, k2: int|
            0 <= k1 < book.queue(s1, p1).len() && 0 <= k2 < book.queue(s2, p2).len() && (
            #[trigger] book.queue(s1, p1)[k1]).id == (#[trigger] book.queue(s2, p2)[k2]).id ==> s1
                == s2 && p1 == p2 && k1 == k2,
{
    assert forall|s1: OrderType, p1: u64, k1: int, s2: OrderType, p2: u64, k2: int|
        0 <= k1 < book.queue(s1, p1).len() && 0 <= k2 < book.queue(s2, p2).len() && (
        #[trigger] book.queue(s1, p1)[k1]).id == (#[trigger] book.queue(s2, p2)[k2]).id implies s1
            == s2 && p1 == p2 && k1 == k2 by {
        book.lemma_level_ok(s1, p1);
        book.lemma_level_ok(s2, p2);
        let l1 = book.level(s1, p1)->Some_0;
        let l2 = book.level(s2, p2)->Some_0;
        assert(book.locations@[l1.orders@[k1].id] == (s1, p1));
        assert(book.locations@[l2.orders@[k2].id] == (s2, p2));
        assert(ids_distinct(l1.orders@));
    }
}

/// The index resolves each price exactly: a level is found at a price only
/// if it stands at that price and holds an order, the prices with a level
/// are exactly those listed for the side, and they ascend.
pub proof fn lemma_index_consistency(book: OrderBook)
    requires
        book.wf(),
    ensures
        forall|s: OrderType, p: u64| #[trigger]
            book.level(s, p) matches Some(l) ==> l.price == p && l.orders@.len() > 0 && l.wf(),
        forall|s: OrderType, p: u64| book.prices(s).contains(p) <==> #[trigger] book.level(s, p) is Some,
        forall|s: OrderType, a: int, b: int|
            0 <= a < b < book.prices(s).len() ==> #[trigger] book.prices(s)[a] < #[trigger] book.prices(s)[b],
{
    assert forall|s: OrderType, p: u64| #[trigger] book.level(s, p) is Some implies {
        let l = book.level(s, p)->Some_0;
        l.price == p && l.orders@.len() > 0 && l.wf()
    } by {
        book.lemma_level_ok(s, p);
    }
    assert forall|s: OrderType, p: u64| book.prices(s).contains(p) <==> #[trigger] book.level(s, p) is Some by {
        assert(ascending(book.levels(s)));
        if book.prices(s).contains(p) {
            let i = choose|i: int| 0 <= i < book.prices(s).len() && book.prices(s)[i] == p;
            lemma_level_at(book.levels(s), i);
        }
        if book.level(s, p) is Some {
            let i = lemma_level_index(book.levels(s), p);
            assert(book.prices(s)[i] == p);
        }
    }
    assert forall|s: OrderType, a: int, b: int|
        0 <= a < b < book.prices(s).len() implies #[trigger] book.prices(s)[a] < #[trigger] book.prices(s)[b] by {
        assert(ascending(book.levels(s)));
        assert(book.levels(s)[a].price < book.levels(s)[b].price);
    }
}

/// Admitting an order adds exactly its size to the volume at its price and
/// side, and leaves the volume at every other price and side unchanged.
pub proof fn lemma_admit_volumes(before: OrderBook, after: OrderBook, price: u64, order: Order)
    requires
        before.admits(after, price, order),
    ensures
        after.volume(order.order_type, price) == before.volume(order.order_type, price) + order.size,
        forall|s: OrderType, p: u64|
            !(s == order.order_type && p == price) ==> #[trigger] after.volume(s, p) == before.volume(
                s,
                p,
            ),
{
    assert forall|s: OrderType, p: u64|
        !(s == order.order_type && p == price) implies #[trigger] after.volume(s, p) == before.volume(
            s,
            p,
        ) by {
        assert(after.level(s, p) == before.level(s, p));
    }
}

/// Admitting an order adds exactly its identity to those held: every
/// identity held before is still held, and no other appears.
pub proof fn lemma_admit_identities(before: OrderBook, after: OrderBook, price: u64, order: Order)
    requires
        before.admits(after, price, order),
    ensures
        forall|id: u128| #[trigger] after.holds(id) <==> before.holds(id) || id == order.id,
{
    let side = order.order_type;
    let q0 = before.queue(side, price);
    let q1 = after.queue(side, price);
    assert(q1 == q0.push(admitted(order, after.level(side, price)->Some_0.id)));
    assert forall|id: u128| #[trigger] after.holds(id) <==> before.holds(id) || id == order.id by {
        if after.holds(id) {
            let (s, p) = choose|s: OrderType, p: u64| has_id(#[trigger] after.queue(s, p), id);
            let k = choose|k: int| 0 <= k < after.queue(s, p).len() && (#[trigger] after.queue(s, p)[k]).id == id;
            if s == side && p == price {
                if k < q0.len() {
                    assert(q0[k].id == id);
                    assert(has_id(before.queue(s, p), id));
                }
            } else {
                assert(after.level(s, p) == before.level(s, p));
                assert(has_id(before.queue(s, p), id));
            }
        }
        if before.holds(id) {
            let (s, p) = choose|s: OrderType, p: u64| has_id(#[trigger] before.queue(s, p), id);
            let k = choose|k: int| 0 <= k < before.queue(s, p).len() && (#[trigger] before.queue(s, p)[k]).id == id;
            if s == side && p == price {
                assert(q1[k] == q0[k]);
                assert(has_id(after.queue(s, p), id));
            } else {
                assert(after.level(s, p) == before.level(s, p));
                assert(has_id(after.queue(s, p), id));
            }
        }
        if id == order.id {
            assert(q1[q0.len() as int].id == id);
            assert(has_id(after.queue(side, price), id));
        }
    }
}

/// Once an order has been cancelled it no longer rests in the book, so
/// cancelling the same identity again fails with `OrderNotFound`.
pub proof fn lemma_cancel_once(before: OrderBook, after: OrderBook, id: u128)
    requires
        before.wf(),
        before.cancels(after, id),
    ensures
        !after.holds(id),
{
    lemma_unique_identities(before);
    let (s, p, k) = choose|s: OrderType, p: u64, k: int|
        0 <= k < before.queue(s, p).len() && (#[trigger] before.queue(s, p)[k]).id == id
            && after.queue(s, p) == before.queue(s, p).remove(k) && after.volume(s, p)
            + before.queue(s, p)[k].size == before.volume(s, p) && (forall|s2: OrderType, p2: u64|
            !(s2 == s && p2 == p) ==> #[trigger] after.level(s2, p2) == before.level(s2, p2))
            && (after.level(s, p) matches Some(l) ==> before.level(s, p) matches Some(ol)
            && l.id == ol.id);
    if after.holds(id) {
        let (s2, p2) = choose|s2: OrderType, p2: u64| has_id(#[trigger] after.queue(s2, p2), id);
        let k2 = choose|k2: int| 0 <= k2 < after.queue(s2, p2).len() && (#[trigger] after.queue(s2, p2)[k2]).id == id;
        if s2 == s && p2 == p {
            let j0 = if k2 < k { k2 } else { k2 + 1 };
            assert(after.queue(s, p)[k2] == before.queue(s, p)[j0]);
        } else {
            assert(after.level(s2, p2) == before.level(s2, p2));
            assert(after.queue(s2, p2) == before.queue(s2, p2));
            assert(before.queue(s2, p2)[k2].id == before.queue(s, p)[k].id);
        }
    }
}

/// Orders admitted one after another at one price are queued in arrival
/// order, and cancelling the middle one of three leaves the other two in
/// their relative order.
pub proof fn lemma_time_priority(
    b0: OrderBook,
    b1: OrderBook,
    b2: OrderBook,
    b3: OrderBook,
    b4: OrderBook,
    price: u64,
    first: Order,
    second: Order,
    third: Order,
)
    requires
        second.order_type == first.order_type,
        third.order_type == first.order_type,
        b0.admits(b1, price, first),
        b1.admits(b2, price, second),
        b2.admits(b3, price, third),
        b3.wf(),
        b3.cancels(b4, second.id),
    ensures
        exists|lid: u128|
            b4.queue(first.order_type, price) == b0.queue(first.order_type, price).push(
                admitted(first, lid),
            ).push(admitted(third, lid)),
{
    let side = first.order_type;
    let lid = b1.level(side, price)->Some_0.id;
    let q0 = b0.queue(side, price);
    let q3 = b3.queue(side, price);
    let n = q0.len() as int;
    assert(q3 == q0.push(admitted(first, lid)).push(admitted(second, lid)).push(admitted(third, lid)));
    assert(q3[n + 1].id == second.id);
    lemma_unique_identities(b3);
    let (s, p, k) = choose|s: OrderType, p: u64, k: int|
        0 <= k < b3.queue(s, p).len() && (#[trigger] b3.queue(s, p)[k]).id == second.id
            && b4.queue(s, p) == b3.queue(s, p).remove(k) && b4.volume(s, p)
            + b3.queue(s, p)[k].size == b3.volume(s, p) && (forall|s2: OrderType, p2: u64|
            !(s2 == s && p2 == p) ==> #[trigger] b4.level(s2, p2) == b3.level(s2, p2))
            && (b4.level(s, p) matches Some(l) ==> b3.level(s, p) matches Some(ol)
            && l.id == ol.id);
    assert(s == side && p == price && k == n + 1);
    assert(b4.queue(side, price) =~= q0.push(admitted(first, lid)).push(admitted(third, lid)));
}

} // verus!
