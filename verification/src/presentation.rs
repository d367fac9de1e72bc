//! A framework-free input adapter. It never chooses a concrete repository.

use vstd::prelude::*;
use crate::application::{
    OrderRepository, PlaceOrderError, PlaceOrderInput, Receipt, RepositoryError, place_order,
    receipt_spec, placed,
};
use crate::domain::order_spec;
use crate::graph::owned;
use crate::text::{chars_of, decimal, push_decimal, push_text, string_of};

verus! {

/// The line that confirms a placed order.
pub open spec fn receipt_text(r: Receipt) -> Seq<char> {
    "order #"@ + decimal(r.order_id as nat) + ": "@ + decimal(r.total_yen as nat) + " JPY"@
}

/// The line that confirms a placed order (see `receipt_text`).
pub fn render_receipt(receipt: &Receipt) -> (r: String)
    ensures
        r@ == receipt_text(*receipt),
{
    let mut out = chars_of("order #");
    push_decimal(&mut out, receipt.order_id);
    push_text(&mut out, ": ");
    push_decimal(&mut out, receipt.total_yen);
    push_text(&mut out, " JPY");
    string_of(&out)
}

/// An outcome of placing an order, with a receipt rendered as its line.
pub open spec fn rendered(r: Result<String, PlaceOrderError>, p: Result<Receipt, PlaceOrderError>) -> bool {
    match (r, p) {
        (Ok(s), Ok(receipt)) => s@ == receipt_text(receipt),
        (Err(e), Err(f)) => e == f,
        _ => false,
    }
}

/// Places an order from plain request values and confirms it in one line:
/// the outcome of `place_order` on the same repository and input, with a
/// receipt rendered as its line and an error passed on unchanged.
pub fn submit_order<R: OrderRepository>(
    repository: &mut R,
    product: &str,
    quantity: u32,
    unit_price_yen: u64,
) -> (r: Result<String, PlaceOrderError>)
    ensures
        match order_spec(product@, quantity, unit_price_yen) {
            Err(e) => r == Err::<String, PlaceOrderError>(PlaceOrderError::InvalidOrder(e))
                && *final(repository) == *old(repository),
            Ok(o) => exists|saved: Result<u64, RepositoryError>|
                #![trigger receipt_spec(o, saved)]
                match (r, receipt_spec(o, saved)) {
                    (Ok(s), Ok(receipt)) => s@ == receipt_text(receipt),
                    (Err(e), Err(f)) => e == f,
                    _ => false,
                },
        },
        exists|p: Result<Receipt, PlaceOrderError>|
            placed(product@, quantity, unit_price_yen, *old(repository), *final(repository), p)
                && rendered(r, p),
{
    let input = PlaceOrderInput { product: owned(product), quantity, unit_price_yen };
    let outcome = place_order(repository, input);
    let ghost p = outcome;
    let receipt = match outcome {
        Ok(receipt) => receipt,
        Err(e) => {
            assert(rendered(Err(e), p));
            return Err(e);
        },
    };
    let r = render_receipt(&receipt);
    assert(rendered(Ok(r), p));
    Ok(r)
}

} // verus!
