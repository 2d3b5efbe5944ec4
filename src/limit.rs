use vstd::prelude::*;

use crate::error::BookError;
use crate::order::{is_random_uuid, random_identity, Order};

verus! {

/// The total size of a sequence of orders.
pub open spec fn sum_sizes(orders: Seq<Order>) -> nat
    decreases orders.len(),
{
    if orders.len() == 0 {
        0
    } else {
        sum_sizes(orders.drop_last()) + orders.last().size as nat
    }
}

/// Whether some order of the sequence has identity `id`.
pub open spec fn has_id(orders: Seq<Order>, id: u128) -> bool {
    exists|k: int| 0 <= k < orders.len() && (#[trigger] orders[k]).id == id
}

/// No two orders of the sequence share an identity.
pub open spec fn ids_distinct(orders: Seq<Order>) -> bool {
    forall|a: int, b: int|
        0 <= a < orders.len() && 0 <= b < orders.len() && (#[trigger] orders[a]).id == (
        #[trigger] orders[b]).id ==> a == b
}

/// `o` as it stands once admitted into the level with identity `limit_id`.
pub open spec fn admitted(o: Order, limit_id: u128) -> Order {
    Order { limit_id: Some(limit_id), ..o }
}

/// Removing the order at `i` takes exactly its size off the total.
pub proof fn lemma_sum_remove(orders: Seq<Order>, i: int)
    requires
        0 <= i < orders.len(),
    ensures
        sum_sizes(orders) == sum_sizes(orders.remove(i)) + orders[i].size,
    decreases orders.len(),
{
    if i == orders.len() - 1 {
        assert(orders.remove(i) =~= orders.drop_last());
    } else {
        let rest = orders.drop_last();
        lemma_sum_remove(rest, i);
        assert(orders.remove(i).drop_last() =~= rest.remove(i));
        assert(orders.remove(i).last() == orders.last());
    }
}

/// Appending an order adds exactly its size to the total.
pub proof fn lemma_sum_push(orders: Seq<Order>, o: Order)
    ensures
        sum_sizes(orders.push(o)) == sum_sizes(orders) + o.size,
{
    assert(orders.push(o).drop_last() =~= orders);
}

/// Appending an order whose identity is new keeps the identities distinct.
pub proof fn lemma_distinct_push(orders: Seq<Order>, o: Order)
    requires
        ids_distinct(orders),
        !has_id(orders, o.id),
    ensures
        ids_distinct(orders.push(o)),
{
    let s = orders.push(o);
    assert forall|a: int, b: int|
        0 <= a < s.len() && 0 <= b < s.len() && (#[trigger] s[a]).id == (#[trigger] s[b]).id implies a
            == b by {
        if a < orders.len() && b == orders.len() {
            assert(orders[a].id == o.id);
        } else if b < orders.len() && a == orders.len() {
            assert(orders[b].id == o.id);
        }
    }
}

/// All the orders resting at one price on one side, in arrival order.
pub struct Limit {
    pub id: u128,
    pub price: u64,
    pub orders: Vec<Order>,
    pub total_volume: u64,
}

impl Limit {
    /// The aggregate volume is the sum of the members' sizes.
    pub open spec fn volume_ok(&self) -> bool {
        self.total_volume == sum_sizes(self.orders@)
    }

    /// Every member points back at this level.
    pub open spec fn linked(&self) -> bool {
        forall|k: int|
            0 <= k < self.orders@.len() ==> (#[trigger] self.orders@[k]).limit_id == Some(self.id)
    }

    /// The volume is the sum of the sizes, every member points back at this
    /// level, and no two members share an identity.
    pub open spec fn wf(&self) -> bool {
        &&& self.volume_ok()
        &&& self.linked()
        &&& ids_distinct(self.orders@)
    }

    /// An empty level at `price`, with a random identity.
    pub fn new(price: u64) -> (r: Limit)
        ensures
            r.wf(),
            is_random_uuid(r.id),
            r.price == price,
            r.orders@.len() == 0,
            r.total_volume == 0,
    {
        Limit { id: random_identity(), price, orders: Vec::new(), total_volume: 0 }
    }

    /// Appends `o` behind the current members, points it at this level and
    /// adds its size to the aggregate volume. The volume stays the sum of the
    /// sizes and the members stay linked; identities stay distinct where `o`'s
    /// is new to the level.
    pub fn add_order(&mut self, o: Order)
        requires
            old(self).total_volume + o.size <= u64::MAX,
        ensures
            old(self).volume_ok() ==> final(self).volume_ok(),
            old(self).linked() ==> final(self).linked(),
            ids_distinct(old(self).orders@) && !has_id(old(self).orders@, o.id) ==> ids_distinct(
                final(self).orders@,
            ),
            old(self).wf() && !has_id(old(self).orders@, o.id) ==> final(self).wf(),
            final(self).id == old(self).id,
            final(self).price == old(self).price,
            final(self).orders@ == old(self).orders@.push(admitted(o, old(self).id)),
            final(self).total_volume == old(self).total_volume + o.size,
    {
        let mut o = o;
        o.limit_id = Some(self.id);
        self.total_volume = self.total_volume + o.size;
        self.orders.push(o);
        proof {
            lemma_sum_push(old(self).orders@, o);
            if ids_distinct(old(self).orders@) && !has_id(old(self).orders@, o.id) {
                lemma_distinct_push(old(self).orders@, o);
            }
        }
    }

    /// Removes the member with identity `order_id`, keeping the others in
    /// arrival order, and takes its size off the aggregate volume. Fails with
    /// `OrderNotFound`, changing nothing, when no member has that identity.
    pub fn remove_order(&mut self, order_id: u128) -> (r: Result<(), BookError>)
        requires
            old(self).wf(),
        ensures
            final(self).wf(),
            final(self).id == old(self).id,
            final(self).price == old(self).price,
            r is Ok <==> has_id(old(self).orders@, order_id),
            r is Err ==> r == Err::<(), BookError>(BookError::OrderNotFound) && *final(self)
                == *old(self),
            r is Ok ==> exists|i: int|
                0 <= i < old(self).orders@.len() && #[trigger] old(self).orders@[i].id == order_id
                    && final(self).orders@ == old(self).orders@.remove(i)
                    && final(self).total_volume == old(self).total_volume - old(
                    self,
                ).orders@[i].size,
    {
        let n = self.orders.len();
        let mut i: usize = 0;
        while i < n
            invariant
                *self == *old(self),
                self.wf(),
                n == self.orders@.len(),
                0 <= i <= n,
                forall|k: int| 0 <= k < i ==> (#[trigger] self.orders@[k]).id != order_id,
            decreases n - i,
        {
            if self.orders[i].id == order_id {
                let ghost before = self.orders@;
                proof {
                    lemma_sum_remove(before, i as int);
                }
                let removed = self.orders.remove(i);
                self.total_volume = self.total_volume - removed.size;
                proof {
                    let after = self.orders@;
                    assert forall|a: int, b: int|
                        0 <= a < after.len() && 0 <= b < after.len() && (#[trigger] after[a]).id
                            == (#[trigger] after[b]).id implies a == b by {
                        let a0 = if a < i { a } else { a + 1 };
                        let b0 = if b < i { b } else { b + 1 };
                        assert(after[a] == before[a0]);
                        assert(after[b] == before[b0]);
                        assert(before[a0].id == before[b0].id);
                    }
                    assert forall|k: int| 0 <= k < after.len() implies (
                    #[trigger] after[k]).limit_id == Some(self.id) by {
                        let k0 = if k < i { k } else { k + 1 };
                        assert(after[k] == before[k0]);
                    }
                }
                return Ok(());
            }
            i = i + 1;
        }
        Err(BookError::OrderNotFound)
    }

    /// The number of resting members.
    pub fn len(&self) -> (r: usize)
        ensures
            r == self.orders@.len(),
    {
        self.orders.len()
    }

    /// The members in arrival order.
    pub fn orders(&self) -> (r: &Vec<Order>)
        ensures
            r@ == self.orders@,
    {
        &self.orders
    }
}

} // verus!
