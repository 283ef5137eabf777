//! Tiered service fees for a shopping cart.
//!
//! A merchant writes fee tiers as text, one per line: `MIN-MAX=PERCENT%`.
//! Given a cart, the library adds up the subtotal of all lines but the one
//! that carries the fee, finds the first tier whose range holds the
//! subtotal, takes that percentage of the subtotal, rounds it to cents, and
//! says what unit price the fee line is to get.
//!
//! Amounts are fixed-point integers throughout: prices, tier bounds and
//! percentages in millionths, fees in cents.

pub mod cart;
pub mod decimal;
pub mod fee;
pub mod rules;
pub mod text;
pub mod transform;

pub use crate::cart::{compute_subtotal, quantity_of, CartLine, Merchandise, Subtotal};
pub use crate::decimal::Decimal;
pub use crate::fee::{compute_fee, round_to_2, Fee};
pub use crate::rules::{find_percent, parse_rules, Rule};
pub use crate::transform::{
    build_operation, cart_transform_run, evaluate, CartInput, Operation, Outcome,
};
