use vstd::prelude::*;

use crate::error::BookError;

verus! {

/// The side of the book an order rests on.
#[derive(Debug, Clone, Copy, PartialEq, Eq, Hash, Structural)]
pub enum OrderType {
    /// Buy interest.
    Bid,
    /// Sell interest.
    Ask,
}

/// A single resting unit of size.
///
/// `limit_id` is the identity of the price level that holds the order, and is
/// `None` while the order is outside any level.
#[derive(Debug, Clone, Copy, PartialEq, Eq, Structural)]
pub struct Order {
    pub id: u128,
    pub order_type: OrderType,
    pub size: u64,
    pub timestamp: i64,
    pub limit_id: Option<u128>,
}

/// The bits that mark a random (version 4, RFC 4122 variant) UUID.
pub open spec fn is_random_uuid(v: u128) -> bool {
    v & 0xF000_C000_0000_0000_0000 == 0x4000_8000_0000_0000_0000
}

/// Relies on `uuid::Uuid::new_v4` and `Uuid::as_u128`: a fresh random UUID,
/// whose version nibble is 4 and whose variant bits are `10`.
#[verifier::external_body]
pub(crate) fn random_identity() -> (r: u128)
    ensures
        is_random_uuid(r),
{
    uuid::Uuid::new_v4().as_u128()
}

/// Relies on `time::OffsetDateTime::now_utc` and `unix_timestamp`: the wall
/// clock in whole seconds since the Unix epoch. Nothing is known of its value.
#[verifier::external_body]
fn now_unix_timestamp() -> (r: i64) {
    time::OffsetDateTime::now_utc().unix_timestamp()
}

impl Order {
    /// An order with the given identity and creation time, outside any level.
    /// Fails with `InvalidSize` exactly when `size` is zero.
    pub fn with_identity(id: u128, order_type: OrderType, size: u64, timestamp: i64) -> (r: Result<
        Order,
        BookError,
    >)
        ensures
            size == 0 <==> r == Err::<Order, BookError>(BookError::InvalidSize),
            size > 0 <==> r == Ok::<Order, BookError>(
                (Order { id, order_type, size, timestamp, limit_id: None }),
            ),
    {
        if size == 0 {
            Err(BookError::InvalidSize)
        } else {
            Ok(Order { id, order_type, size, timestamp, limit_id: None })
        }
    }

    /// A new order with a random identity, stamped with the current time.
    /// Fails with `InvalidSize` exactly when `size` is zero.
    pub fn new(order_type: OrderType, size: u64) -> (r: Result<Order, BookError>)
        ensures
            size == 0 <==> r == Err::<Order, BookError>(BookError::InvalidSize),
            size > 0 <==> r is Ok,
            r matches Ok(o) ==> {
                &&& o.order_type == order_type
                &&& o.size == size
                &&& o.limit_id is None
                &&& is_random_uuid(o.id)
            },
    {
        let id = random_identity();
        let timestamp = now_unix_timestamp();
        Order::with_identity(id, order_type, size, timestamp)
    }
}

} // verus!
