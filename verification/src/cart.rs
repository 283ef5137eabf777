//! The cart as the fee sees it: its lines, the one that carries the fee,
//! and the subtotal of all the others.
//!
//! The fee line is the line whose merchandise is the product variant named
//! as the fee's. It is left out of the subtotal, so that a fee is never
//! charged on itself. Should several lines name that variant, all of them
//! are left out, and the last one is the line that carries the fee.

use crate::decimal::Decimal;
use vstd::prelude::*;

verus! {

/// What a cart line sells.
#[derive(Clone, Debug, PartialEq, Eq)]
pub enum Merchandise {
    ProductVariant { id: String },
    Other,
}

/// Merchandise as values.
pub enum MerchandiseView {
    ProductVariant { id: Seq<char> },
    Other,
}

impl View for Merchandise {
    type V = MerchandiseView;

    open spec fn view(&self) -> MerchandiseView {
        match self {
            Merchandise::ProductVariant { id } => MerchandiseView::ProductVariant { id: id@ },
            Merchandise::Other => MerchandiseView::Other,
        }
    }
}

impl DeepView for Merchandise {
    type V = MerchandiseView;

    open spec fn deep_view(&self) -> MerchandiseView {
        self@
    }
}

/// One line of the cart.
#[derive(Clone, Debug, PartialEq, Eq)]
pub struct CartLine {
    pub id: String,
    pub quantity: u32,
    pub unit_price: Decimal,
    pub merchandise: Merchandise,
}

/// A cart line as values: the price in millionths.
pub struct CartLineView {
    pub id: Seq<char>,
    pub quantity: nat,
    pub unit_price: nat,
    pub merchandise: MerchandiseView,
}

impl View for CartLine {
    type V = CartLineView;

    open spec fn view(&self) -> CartLineView {
        CartLineView {
            id: self.id@,
            quantity: self.quantity as nat,
            unit_price: self.unit_price@,
            merchandise: self.merchandise@,
        }
    }
}

impl DeepView for CartLine {
    type V = CartLineView;

    open spec fn deep_view(&self) -> CartLineView {
        self@
    }
}

/// What scanning the cart gives: the subtotal without the fee line, or
/// `None` where it is too large to be held, and the fee line's identifier,
/// or `None` where the cart has no fee line.
#[derive(Clone, Debug, PartialEq, Eq)]
pub struct Subtotal {
    pub amount: Option<Decimal>,
    pub fee_line_id: Option<String>,
}

impl CartLineView {
    /// Whether the line sells the variant `fee_variant_id`.
    pub open spec fn is_fee_line(self, fee_variant_id: Seq<char>) -> bool {
        self.merchandise == (MerchandiseView::ProductVariant { id: fee_variant_id })
    }

    /// What the line adds to the subtotal, in millionths: price times
    /// quantity, and nothing for a fee line.
    pub open spec fn amount(self, fee_variant_id: Seq<char>) -> nat {
        if self.is_fee_line(fee_variant_id) {
            0
        } else {
            self.unit_price * self.quantity
        }
    }
}

/// The subtotal of the cart in millionths, without its fee lines.
pub open spec fn subtotal_of(lines: Seq<CartLineView>, fee_variant_id: Seq<char>) -> nat
    decreases lines.len(),
{
    if lines.len() == 0 {
        0
    } else {
        subtotal_of(lines.drop_last(), fee_variant_id) + lines.last().amount(fee_variant_id)
    }
}

/// The identifier of the last fee line of the cart, if it has one.
pub open spec fn fee_line_id_of(lines: Seq<CartLineView>, fee_variant_id: Seq<char>) -> Option<
    Seq<char>,
>
    decreases lines.len(),
{
    if lines.len() == 0 {
        None
    } else if lines.last().is_fee_line(fee_variant_id) {
        Some(lines.last().id)
    } else {
        fee_line_id_of(lines.drop_last(), fee_variant_id)
    }
}

/// A fee line adds nothing to the subtotal, whatever its price and quantity:
/// the cart without it has the same subtotal.
pub proof fn lemma_fee_line_excluded(
    before: Seq<CartLineView>,
    line: CartLineView,
    after: Seq<CartLineView>,
    fee_variant_id: Seq<char>,
)
    requires
        line.is_fee_line(fee_variant_id),
    ensures
        subtotal_of(before + seq![line] + after, fee_variant_id) == subtotal_of(
            before + after,
            fee_variant_id,
        ),
    decreases after.len(),
{
    if after.len() == 0 {
        assert(before + seq![line] + after =~= before + seq![line]);
        assert((before + seq![line]).drop_last() =~= before);
        assert(before + after =~= before);
    } else {
        lemma_fee_line_excluded(before, line, after.drop_last(), fee_variant_id);
        assert((before + seq![line] + after).drop_last() =~= before + seq![line]
            + after.drop_last());
        assert((before + after).drop_last() =~= before + after.drop_last());
    }
}

/// The cart has a fee line exactly where one of its lines sells the fee's
/// variant.
pub proof fn lemma_fee_line_found(lines: Seq<CartLineView>, fee_variant_id: Seq<char>)
    ensures
        fee_line_id_of(lines, fee_variant_id) is Some <==> exists|i: int|
            0 <= i < lines.len() && (#[trigger] lines[i]).is_fee_line(fee_variant_id),
    decreases lines.len(),
{
    if lines.len() > 0 {
        let front = lines.drop_last();
        lemma_fee_line_found(front, fee_variant_id);
        if lines.last().is_fee_line(fee_variant_id) {
            assert(lines[lines.len() - 1].is_fee_line(fee_variant_id));
        } else if fee_line_id_of(front, fee_variant_id) is Some {
            let i = choose|i: int|
                0 <= i < front.len() && (#[trigger] front[i]).is_fee_line(fee_variant_id);
            assert(lines[i] == front[i]);
        } else {
            assert forall|i: int| 0 <= i < lines.len() implies !(#[trigger] lines[i]).is_fee_line(
                fee_variant_id,
            ) by {
                if i < front.len() {
                    assert(lines[i] == front[i]);
                }
            }
        }
    }
}

/// The quantity that a signed count stands for: a count below zero is no
/// quantity, and counts as none.
pub fn quantity_of(count: i32) -> (quantity: u32)
    ensures
        quantity == if count < 0 {
            0
        } else {
            count
        },
{
    if count < 0 {
        0
    } else {
        count as u32
    }
}

impl Merchandise {
    /// Tells whether this is the product variant `variant_id`.
    pub fn is_variant(&self, variant_id: &String) -> (b: bool)
        ensures
            b == (self@ == (MerchandiseView::ProductVariant { id: variant_id@ })),
    {
        match self {
            Merchandise::ProductVariant { id } => *id == *variant_id,
            Merchandise::Other => false,
        }
    }
}

/// Scans the cart once, in its order: finds the fee line and adds up price
/// times quantity over all other lines.
pub fn compute_subtotal(lines: &[CartLine], fee_variant_id: &str) -> (r: Subtotal)
    ensures
        r.fee_line_id.deep_view() == fee_line_id_of(lines.deep_view(), fee_variant_id@),
        match r.amount {
            Some(amount) => amount@ == subtotal_of(lines.deep_view(), fee_variant_id@),
            None => subtotal_of(lines.deep_view(), fee_variant_id@) > u64::MAX,
        },
{
    let target: String = fee_variant_id.to_owned();
    let ghost all = lines.deep_view();
    let ghost fee = fee_variant_id@;
    let mut sum: u64 = 0;
    let mut too_large = false;
    let mut fee_line_id: Option<String> = None;
    let mut i: usize = 0;
    assert(all.take(0) =~= Seq::<CartLineView>::empty());
    while i < lines.len()
        invariant
            i <= lines.len(),
            all == lines.deep_view(),
            fee == fee_variant_id@,
            target@ == fee,
            fee_line_id.deep_view() == fee_line_id_of(all.take(i as int), fee),
            !too_large ==> sum == subtotal_of(all.take(i as int), fee),
            too_large ==> subtotal_of(all.take(i as int), fee) > u64::MAX,
        decreases lines.len() - i,
    {
        let line = &lines[i];
        proof {
            assert(all.take(i + 1).drop_last() =~= all.take(i as int));
            assert(all.take(i + 1).last() == line@);
        }
        if line.merchandise.is_variant(&target) {
            fee_line_id = Some(line.id.clone());
        } else if !too_large {
            assert(line.unit_price.micros * line.quantity <= u64::MAX * u32::MAX)
                by (nonlinear_arith)
                requires
                    line.unit_price.micros <= u64::MAX,
                    line.quantity <= u32::MAX,
            ;
            let amount: u128 = line.unit_price.micros as u128 * line.quantity as u128;
            let next: u128 = sum as u128 + amount;
            if next > u64::MAX as u128 {
                too_large = true;
            } else {
                sum = next as u64;
            }
        }
        i += 1;
    }
    proof {
        assert(all.take(i as int) =~= all);
    }
    Subtotal {
        amount: if too_large {
            None
        } else {
            Some(Decimal { micros: sum })
        },
        fee_line_id,
    }
}

} // verus!
