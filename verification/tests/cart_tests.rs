use custom_fee_plus::cart::{compute_subtotal, quantity_of, CartLine, Merchandise, Subtotal};
use custom_fee_plus::decimal::Decimal;

const FEE_VARIANT: &str = "gid://shopify/ProductVariant/999";

fn variant_line(id: &str, variant: &str, price_micros: u64, quantity: u32) -> CartLine {
    CartLine {
        id: id.to_string(),
        quantity,
        unit_price: Decimal { micros: price_micros },
        merchandise: Merchandise::ProductVariant { id: variant.to_string() },
    }
}

fn other_line(id: &str, price_micros: u64, quantity: u32) -> CartLine {
    CartLine {
        id: id.to_string(),
        quantity,
        unit_price: Decimal { micros: price_micros },
        merchandise: Merchandise::Other,
    }
}

#[test]
fn subtotal_excludes_the_fee_line() {
    let lines = vec![
        variant_line("line-a", "gid://shopify/ProductVariant/1", 10_000_000, 2),
        variant_line("line-fee", FEE_VARIANT, 0, 1),
        variant_line("line-b", "gid://shopify/ProductVariant/2", 5_000_000, 3),
    ];
    assert_eq!(
        compute_subtotal(&lines, FEE_VARIANT),
        Subtotal {
            amount: Some(Decimal { micros: 35_000_000 }),
            fee_line_id: Some("line-fee".to_string()),
        }
    );
}

#[test]
fn fee_line_adds_nothing_whatever_its_price() {
    let lines = vec![
        variant_line("line-a", "gid://shopify/ProductVariant/1", 10_000_000, 2),
        variant_line("line-fee", FEE_VARIANT, 99_990_000, 7),
        variant_line("line-b", "gid://shopify/ProductVariant/2", 5_000_000, 3),
    ];
    assert_eq!(compute_subtotal(&lines, FEE_VARIANT).amount, Some(Decimal { micros: 35_000_000 }));
}

#[test]
fn last_fee_line_wins_and_all_are_excluded() {
    let lines = vec![
        variant_line("fee-1", FEE_VARIANT, 1_000_000, 1),
        variant_line("line-a", "gid://shopify/ProductVariant/1", 10_000_000, 1),
        variant_line("fee-2", FEE_VARIANT, 2_000_000, 1),
        variant_line("line-b", "gid://shopify/ProductVariant/2", 2_500_000, 2),
    ];
    assert_eq!(
        compute_subtotal(&lines, FEE_VARIANT),
        Subtotal {
            amount: Some(Decimal { micros: 15_000_000 }),
            fee_line_id: Some("fee-2".to_string()),
        }
    );
}

#[test]
fn other_merchandise_counts() {
    let lines = vec![
        other_line("custom", 4_000_000, 2),
        variant_line("line-a", "gid://shopify/ProductVariant/1", 10_000_000, 1),
    ];
    assert_eq!(
        compute_subtotal(&lines, FEE_VARIANT),
        Subtotal { amount: Some(Decimal { micros: 18_000_000 }), fee_line_id: None }
    );
}

#[test]
fn cart_without_fee_line() {
    let lines = vec![variant_line("line-a", "gid://shopify/ProductVariant/1", 10_000_000, 2)];
    assert_eq!(
        compute_subtotal(&lines, FEE_VARIANT),
        Subtotal { amount: Some(Decimal { micros: 20_000_000 }), fee_line_id: None }
    );
    assert_eq!(
        compute_subtotal(&[], FEE_VARIANT),
        Subtotal { amount: Some(Decimal { micros: 0 }), fee_line_id: None }
    );
}

#[test]
fn fee_variant_is_matched_exactly() {
    let lines = vec![
        variant_line("upper", "GID://SHOPIFY/PRODUCTVARIANT/999", 1_000_000, 1),
        variant_line("longer", "gid://shopify/ProductVariant/9990", 1_000_000, 1),
        variant_line("shorter", "gid://shopify/ProductVariant/99", 1_000_000, 1),
        variant_line("padded", " gid://shopify/ProductVariant/999", 1_000_000, 1),
    ];
    assert_eq!(
        compute_subtotal(&lines, FEE_VARIANT),
        Subtotal { amount: Some(Decimal { micros: 4_000_000 }), fee_line_id: None }
    );
}

#[test]
fn zero_quantity_adds_nothing() {
    let lines = vec![
        variant_line("line-a", "gid://shopify/ProductVariant/1", 10_000_000, 0),
        variant_line("line-b", "gid://shopify/ProductVariant/2", 1_500_000, 1),
    ];
    assert_eq!(compute_subtotal(&lines, FEE_VARIANT).amount, Some(Decimal { micros: 1_500_000 }));
}

#[test]
fn subtotal_at_and_over_the_limit() {
    let at_limit = vec![
        variant_line("line-a", "gid://shopify/ProductVariant/1", u64::MAX - 3, 1),
        variant_line("line-b", "gid://shopify/ProductVariant/2", 1, 3),
    ];
    assert_eq!(compute_subtotal(&at_limit, FEE_VARIANT).amount, Some(Decimal { micros: u64::MAX }));
    let over = vec![
        variant_line("line-a", "gid://shopify/ProductVariant/1", u64::MAX - 3, 1),
        variant_line("line-b", "gid://shopify/ProductVariant/2", 1, 4),
        variant_line("line-fee", FEE_VARIANT, 0, 1),
        variant_line("line-c", "gid://shopify/ProductVariant/3", 1, 1),
    ];
    assert_eq!(
        compute_subtotal(&over, FEE_VARIANT),
        Subtotal { amount: None, fee_line_id: Some("line-fee".to_string()) }
    );
    let huge = vec![variant_line("line-a", "gid://shopify/ProductVariant/1", u64::MAX, u32::MAX)];
    assert_eq!(compute_subtotal(&huge, FEE_VARIANT).amount, None);
}

#[test]
fn merchandise_is_variant() {
    let fee = FEE_VARIANT.to_string();
    assert!(Merchandise::ProductVariant { id: FEE_VARIANT.to_string() }.is_variant(&fee));
    assert!(!Merchandise::ProductVariant { id: "gid://shopify/ProductVariant/1".to_string() }.is_variant(&fee));
    assert!(!Merchandise::Other.is_variant(&fee));
}

#[test]
fn quantity_of_a_signed_count() {
    assert_eq!(quantity_of(0), 0);
    assert_eq!(quantity_of(3), 3);
    assert_eq!(quantity_of(i32::MAX), 2_147_483_647);
    assert_eq!(quantity_of(-1), 0);
    assert_eq!(quantity_of(i32::MIN), 0);
}
