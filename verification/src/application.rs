//! Use case and output port. The interface belongs to the inner layer.

use vstd::prelude::*;
use crate::domain::{Order, OrderError, OrderView, order_spec, order_total};
use crate::text::{chars_of, push_text, string_of};

verus! {

/// An order repository could not save an order.
#[derive(Debug, Clone, Copy, PartialEq, Eq)]
pub struct RepositoryError;

impl RepositoryError {
    /// The message that describes the error.
    pub fn message(&self) -> (r: String)
        ensures
            r@ == "order could not be saved"@,
    {
        string_of(&chars_of("order could not be saved"))
    }
}

/// Storage for orders, implemented by an outer layer.
pub trait OrderRepository {
    /// Saves an order and gives its identifier.
    fn save(&mut self, order: &Order) -> Result<u64, RepositoryError>;
}

/// What a customer asks for.
pub struct PlaceOrderInput {
    pub product: String,
    pub quantity: u32,
    pub unit_price_yen: u64,
}

/// The outcome of a placed order.
#[derive(Debug, PartialEq, Eq)]
pub struct Receipt {
    pub order_id: u64,
    pub total_yen: u64,
}

/// Why an order was not placed.
#[derive(Debug, PartialEq, Eq)]
pub enum PlaceOrderError {
    /// The order itself is refused.
    InvalidOrder(OrderError),
    /// The repository failed to save it.
    Persistence(RepositoryError),
}

impl PlaceOrderError {
    /// The message that describes the error.
    pub fn message(&self) -> (r: String)
        ensures
            r@ == match self {
                PlaceOrderError::InvalidOrder(e) => "invalid order: "@ + match e {
                    OrderError::EmptyProduct => "product must not be empty"@,
                    OrderError::ZeroQuantity => "quantity must be positive"@,
                    OrderError::TotalOverflow => "order total exceeds the supported range"@,
                },
                PlaceOrderError::Persistence(_) => "persistence failed: order could not be saved"@,
            },
    {
        match self {
            PlaceOrderError::InvalidOrder(e) => {
                let mut out = chars_of("invalid order: ");
                let m = e.message();
                push_text(&mut out, m.as_str());
                string_of(&out)
            },
            PlaceOrderError::Persistence(e) => {
                let mut out = chars_of("persistence failed: ");
                let m = e.message();
                push_text(&mut out, m.as_str());
                proof {
                    reveal_strlit("persistence failed: ");
                    reveal_strlit("order could not be saved");
                    reveal_strlit("persistence failed: order could not be saved");
                }
                string_of(&out)
            },
        }
    }
}

/// What placing an order gives once the repository answered `saved`.
pub open spec fn receipt_spec(order: OrderView, saved: Result<u64, RepositoryError>) -> Result<
    Receipt,
    PlaceOrderError,
> {
    match saved {
        Ok(id) => Ok(Receipt { order_id: id, total_yen: order_total(order) as u64 }),
        Err(e) => Err(PlaceOrderError::Persistence(e)),
    }
}

/// The receipt for an order that the repository answered with `saved`: its
/// identifier and the total, or the repository's failure.
pub fn receipt_for(order: &Order, saved: Result<u64, RepositoryError>) -> (r: Result<
    Receipt,
    PlaceOrderError,
>)
    ensures
        r == receipt_spec(order@, saved),
{
    match saved {
        Ok(order_id) => Ok(Receipt { order_id, total_yen: order.total_yen() }),
        Err(e) => Err(PlaceOrderError::Persistence(e)),
    }
}

/// What placing an order of `product`, `quantity` and `unit_price_yen` may
/// give, with the repository `before` the call and `after` it: a refused
/// order leaves the repository as it was and gives its error; a valid one
/// gives the receipt for whatever the repository answered.
pub open spec fn placed<R>(
    product: Seq<char>,
    quantity: u32,
    unit_price_yen: u64,
    before: R,
    after: R,
    r: Result<Receipt, PlaceOrderError>,
) -> bool {
    match order_spec(product, quantity, unit_price_yen) {
        Err(e) => r == Err::<Receipt, PlaceOrderError>(PlaceOrderError::InvalidOrder(e)) && after
            == before,
        Ok(o) => exists|saved: Result<u64, RepositoryError>| r == receipt_spec(o, saved),
    }
}

/// Places an order (see `placed`): a refused order never reaches the
/// repository; a valid one is saved once, and the receipt carries the
/// identifier that the repository gave and the order's total.
pub fn place_order<R: OrderRepository>(repository: &mut R, input: PlaceOrderInput) -> (r: Result<
    Receipt,
    PlaceOrderError,
>)
    ensures
        placed(
            input.product@,
            input.quantity,
            input.unit_price_yen,
            *old(repository),
            *final(repository),
            r,
        ),
{
    let order = match Order::new(input.product, input.quantity, input.unit_price_yen) {
        Ok(order) => order,
        Err(e) => {
            return Err(PlaceOrderError::InvalidOrder(e));
        },
    };
    let saved = repository.save(&order);
    receipt_for(&order, saved)
}

} // verus!
