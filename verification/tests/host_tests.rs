use custom_fee_plus::cart::{CartLine, Merchandise};
use custom_fee_plus::decimal::Decimal;
use custom_fee_plus::fee::Fee;
use custom_fee_plus::transform::{cart_transform_run, CartInput, Operation};
use shopify_function::scalars::Decimal as HostDecimal;

fn amount_from_host(value: f64) -> Decimal {
    Decimal::parse_or_zero(&HostDecimal(value).to_string())
}

#[test]
fn host_prices_are_read_from_their_text() {
    assert_eq!(amount_from_host(10.0), Decimal { micros: 10_000_000 });
    assert_eq!(amount_from_host(19.99), Decimal { micros: 19_990_000 });
    assert_eq!(amount_from_host(0.0), Decimal { micros: 0 });
    assert_eq!(amount_from_host(33.333), Decimal { micros: 33_333_000 });
    assert_eq!(amount_from_host(100.01), Decimal { micros: 100_010_000 });
    assert_eq!(amount_from_host(1234567.89), Decimal { micros: 1_234_567_890_000 });
    assert_eq!(amount_from_host(0.00001), Decimal { micros: 10 });
}

#[test]
fn host_prices_beyond_six_digits_are_cut() {
    assert_eq!(amount_from_host(0.1 + 0.2), Decimal { micros: 300_000 });
    assert_eq!(amount_from_host(1.0 / 3.0), Decimal { micros: 333_333 });
    assert_eq!(amount_from_host(2.0 / 3.0), Decimal { micros: 666_666 });
}

#[test]
fn host_prices_that_cannot_be_held_count_as_zero() {
    assert_eq!(amount_from_host(-5.0), Decimal { micros: 0 });
    assert_eq!(amount_from_host(f64::NAN), Decimal { micros: 0 });
    assert_eq!(amount_from_host(f64::INFINITY), Decimal { micros: 0 });
    assert_eq!(amount_from_host(1e-7), Decimal { micros: 0 });
    assert_eq!(amount_from_host(1e21), Decimal { micros: 0 });
}

#[test]
fn host_cart_gets_its_fee() {
    let line = |id: &str, variant: &str, price: f64, quantity: u32| CartLine {
        id: id.to_string(),
        quantity,
        unit_price: amount_from_host(price),
        merchandise: Merchandise::ProductVariant { id: variant.to_string() },
    };
    let input = CartInput {
        fee_rules: Some("0-100=5\n100.01-500=3.5%".to_string()),
        fee_variant_gid: Some("gid://shopify/ProductVariant/999".to_string()),
        lines: vec![
            line("gid://shopify/CartLine/1", "gid://shopify/ProductVariant/1", 19.99, 3),
            line("gid://shopify/CartLine/2", "gid://shopify/ProductVariant/999", 0.0, 1),
            line("gid://shopify/CartLine/3", "gid://shopify/ProductVariant/2", 0.1, 1),
            line("gid://shopify/CartLine/4", "gid://shopify/ProductVariant/3", 0.2, 1),
        ],
    };
    let operations = cart_transform_run(&input);
    assert_eq!(
        operations,
        vec![Operation {
            cart_line_id: "gid://shopify/CartLine/2".to_string(),
            price_per_unit: Fee { cents: 301 },
        }]
    );
    let price = HostDecimal::from(operations[0].price_per_unit.cents as f64 / 100.0);
    assert_eq!(price.to_string(), "3.01");
}
