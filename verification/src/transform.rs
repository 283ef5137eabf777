//! From a cart to the instruction that prices its fee line.
//!
//! The cart brings two attributes, the rule text and the identifier of the
//! fee's product variant, and its lines. A run goes through its stages in a
//! fixed order and stops at the first that has nothing to go on:
//!
//! 1. the rule text is missing or blank;
//! 2. the rule text writes no tier;
//! 3. the fee's variant is missing or blank;
//! 4. no line of the cart sells the fee's variant.
//!
//! A run that stops gives no instruction. A run that gets through gives
//! one: it sets the unit price of the fee line to the fee, which is zero
//! where no tier holds the subtotal. A subtotal too large for a `Decimal`
//! is such a subtotal: a tier's bounds are held as `Decimal`s, so none is
//! held beyond the largest of them.

use crate::cart::{
    compute_subtotal, fee_line_id_of, lemma_fee_line_found, subtotal_of, CartLine, CartLineView,
};
use crate::decimal::Decimal;
use crate::fee::{compute_fee, fee_cents, lemma_fee_cents_zero, Fee};
use crate::rules::{
    find_percent, lemma_beyond_every_tier, lemma_empty_text_no_rules, lemma_no_tier_no_percent,
    parse_rules, percent_for, rules_of_text, RuleView,
};
use crate::text::{is_whitespace, trim_str, trimmed};
use vstd::prelude::*;

verus! {

/// What the cart hands over.
#[derive(Clone, Debug, PartialEq, Eq)]
pub struct CartInput {
    pub fee_rules: Option<String>,
    pub fee_variant_gid: Option<String>,
    pub lines: Vec<CartLine>,
}

/// The cart as values.
pub struct CartInputView {
    pub fee_rules: Option<Seq<char>>,
    pub fee_variant_gid: Option<Seq<char>>,
    pub lines: Seq<CartLineView>,
}

impl View for CartInput {
    type V = CartInputView;

    open spec fn view(&self) -> CartInputView {
        CartInputView {
            fee_rules: self.fee_rules.deep_view(),
            fee_variant_gid: self.fee_variant_gid.deep_view(),
            lines: self.lines.deep_view(),
        }
    }
}

impl DeepView for CartInput {
    type V = CartInputView;

    open spec fn deep_view(&self) -> CartInputView {
        self@
    }
}

/// The instruction to set a cart line's unit price to a fixed amount.
/// Nothing else about the line changes.
#[derive(Clone, Debug, PartialEq, Eq)]
pub struct Operation {
    pub cart_line_id: String,
    pub price_per_unit: Fee,
}

/// An instruction as values: the price in cents.
pub struct OperationView {
    pub cart_line_id: Seq<char>,
    pub price_per_unit: nat,
}

impl View for Operation {
    type V = OperationView;

    open spec fn view(&self) -> OperationView {
        OperationView { cart_line_id: self.cart_line_id@, price_per_unit: self.price_per_unit@ }
    }
}

impl DeepView for Operation {
    type V = OperationView;

    open spec fn deep_view(&self) -> OperationView {
        self@
    }
}

/// How a run ended: at which stage it stopped, or what it found.
#[derive(Clone, Debug, PartialEq, Eq)]
pub enum Outcome {
    /// The rule text is missing or blank.
    NoRules,
    /// The rule text writes no tier.
    NoValidRule,
    /// The fee's variant is missing or blank.
    NoFeeTarget,
    /// No line of the cart sells the fee's variant.
    NoFeeLine,
    /// The fee line gets its price. `subtotal` is `None` where the
    /// subtotal is too large for a `Decimal`. `percent` is `None` where no
    /// tier holds the subtotal; the fee is then zero.
    Priced { fee_line_id: String, subtotal: Option<Decimal>, percent: Option<Decimal>, fee: Fee },
}

/// An outcome as values: subtotal and percentage in millionths, the fee in cents.
pub enum OutcomeView {
    NoRules,
    NoValidRule,
    NoFeeTarget,
    NoFeeLine,
    Priced { fee_line_id: Seq<char>, subtotal: Option<nat>, percent: Option<nat>, fee: nat },
}

impl View for Outcome {
    type V = OutcomeView;

    open spec fn view(&self) -> OutcomeView {
        match self {
            Outcome::NoRules => OutcomeView::NoRules,
            Outcome::NoValidRule => OutcomeView::NoValidRule,
            Outcome::NoFeeTarget => OutcomeView::NoFeeTarget,
            Outcome::NoFeeLine => OutcomeView::NoFeeLine,
            Outcome::Priced { fee_line_id, subtotal, percent, fee } => OutcomeView::Priced {
                fee_line_id: fee_line_id@,
                subtotal: subtotal.deep_view(),
                percent: percent.deep_view(),
                fee: fee@,
            },
        }
    }
}

impl DeepView for Outcome {
    type V = OutcomeView;

    open spec fn deep_view(&self) -> OutcomeView {
        self@
    }
}

/// What an attribute says: its text without the white space around it, and
/// nothing where the attribute is missing.
pub open spec fn attribute_text(attribute: Option<Seq<char>>) -> Seq<char> {
    match attribute {
        Some(text) => trimmed(text),
        None => Seq::empty(),
    }
}

/// Whether an attribute is missing or holds white space only.
pub open spec fn is_blank(attribute: Option<Seq<char>>) -> bool {
    match attribute {
        Some(text) => forall|i: int| 0 <= i < text.len() ==> is_whitespace(#[trigger] text[i]),
        None => true,
    }
}

/// The percentage of the first tier that holds `subtotal`, in millionths.
pub open spec fn tier_percent(rules: Seq<RuleView>, subtotal: nat) -> Option<nat> {
    match percent_for(rules, subtotal as int) {
        Some(percent) if percent >= 0 => Some(percent as nat),
        _ => None,
    }
}

/// The percentage charged: that of the tier, and zero where there is none.
pub open spec fn applied_percent(percent: Option<nat>) -> nat {
    match percent {
        Some(percent) => percent,
        None => 0,
    }
}

/// A subtotal as a `Decimal` holds it: nothing where it is too large.
pub open spec fn held(subtotal: nat) -> Option<nat> {
    if subtotal <= u64::MAX {
        Some(subtotal)
    } else {
        None
    }
}

/// How the run on a cart ends.
pub open spec fn outcome_for(input: CartInputView) -> OutcomeView {
    let rules_text = attribute_text(input.fee_rules);
    let rules = rules_of_text(rules_text);
    let target = attribute_text(input.fee_variant_gid);
    let subtotal = subtotal_of(input.lines, target);
    if rules_text.len() == 0 {
        OutcomeView::NoRules
    } else if rules.len() == 0 {
        OutcomeView::NoValidRule
    } else if target.len() == 0 {
        OutcomeView::NoFeeTarget
    } else {
        match fee_line_id_of(input.lines, target) {
            None => OutcomeView::NoFeeLine,
            Some(fee_line_id) => OutcomeView::Priced {
                fee_line_id,
                subtotal: held(subtotal),
                percent: tier_percent(rules, subtotal),
                fee: fee_cents(subtotal, applied_percent(tier_percent(rules, subtotal))),
            },
        }
    }
}

/// The instructions that an outcome asks for: one where the fee line gets
/// its price, none otherwise.
pub open spec fn operations_of(outcome: OutcomeView) -> Seq<OperationView> {
    match outcome {
        OutcomeView::Priced { fee_line_id, fee, .. } => seq![
            OperationView { cart_line_id: fee_line_id, price_per_unit: fee },
        ],
        _ => Seq::empty(),
    }
}

/// The instructions that a cart gives rise to.
pub open spec fn operations_for(input: CartInputView) -> Seq<OperationView> {
    operations_of(outcome_for(input))
}

/// Trimming white space leaves nothing.
pub proof fn lemma_blank_is_empty(text: Seq<char>)
    requires
        forall|i: int| 0 <= i < text.len() ==> is_whitespace(#[trigger] text[i]),
    ensures
        trimmed(text).len() == 0,
    decreases text.len(),
{
    if text.len() > 0 {
        lemma_blank_is_empty(text.skip(1));
    }
}

/// A cart whose subtotal lies outside every tier still gets its instruction:
/// the fee line is there, and its price is set to zero.
pub proof fn lemma_no_tier_charges_nothing(input: CartInputView)
    requires
        rules_of_text(attribute_text(input.fee_rules)).len() > 0,
        attribute_text(input.fee_variant_gid).len() > 0,
        fee_line_id_of(input.lines, attribute_text(input.fee_variant_gid)) is Some,
        forall|i: int|
            0 <= i < rules_of_text(attribute_text(input.fee_rules)).len() ==> !(
            #[trigger] rules_of_text(attribute_text(input.fee_rules))[i]).holds(
                subtotal_of(input.lines, attribute_text(input.fee_variant_gid)) as int,
            ),
    ensures
        outcome_for(input) == (OutcomeView::Priced {
            fee_line_id: fee_line_id_of(input.lines, attribute_text(input.fee_variant_gid))->0,
            subtotal: held(subtotal_of(input.lines, attribute_text(input.fee_variant_gid))),
            percent: None,
            fee: 0,
        }),
        operations_for(input) == seq![
            OperationView {
                cart_line_id: fee_line_id_of(
                    input.lines,
                    attribute_text(input.fee_variant_gid),
                )->0,
                price_per_unit: 0,
            },
        ],
{
    let rules = rules_of_text(attribute_text(input.fee_rules));
    let target = attribute_text(input.fee_variant_gid);
    let subtotal = subtotal_of(input.lines, target);
    lemma_no_tier_no_percent(rules, subtotal as int);
    lemma_fee_cents_zero(subtotal, 0);
    if attribute_text(input.fee_rules).len() == 0 {
        lemma_empty_text_no_rules(attribute_text(input.fee_rules));
    }
}

/// The instructions depend on nothing but the cart: two runs on carts that
/// hold the same values give the same instructions.
pub proof fn lemma_same_cart_same_operations(
    first: CartInput,
    second: CartInput,
    first_operations: Vec<Operation>,
    second_operations: Vec<Operation>,
)
    requires
        first.deep_view() == second.deep_view(),
        first_operations.deep_view() == operations_for(first.deep_view()),
        second_operations.deep_view() == operations_for(second.deep_view()),
    ensures
        first_operations.deep_view() == second_operations.deep_view(),
{
}

/// Without the fee's variant, missing or blank, there is no instruction,
/// whatever the rule text and the lines hold.
pub proof fn lemma_blank_target_no_operation(input: CartInputView)
    requires
        is_blank(input.fee_variant_gid),
    ensures
        operations_for(input).len() == 0,
{
    match input.fee_variant_gid {
        Some(text) => {
            lemma_blank_is_empty(text);
        },
        None => {},
    }
}

/// Without a rule text, missing or blank, there is no instruction.
pub proof fn lemma_blank_rules_no_operation(input: CartInputView)
    requires
        is_blank(input.fee_rules),
    ensures
        outcome_for(input) == OutcomeView::NoRules,
        operations_for(input).len() == 0,
{
    match input.fee_rules {
        Some(text) => {
            lemma_blank_is_empty(text);
        },
        None => {},
    }
}

/// There is never more than one instruction, and there is one exactly
/// where the rule text writes a tier, the fee's variant is named, and a
/// line of the cart sells it.
pub proof fn lemma_one_operation_exactly(input: CartInputView)
    ensures
        operations_for(input).len() <= 1,
        operations_for(input).len() == 1 <==> {
            &&& rules_of_text(attribute_text(input.fee_rules)).len() > 0
            &&& attribute_text(input.fee_variant_gid).len() > 0
            &&& exists|i: int|
                0 <= i < input.lines.len() && (#[trigger] input.lines[i]).is_fee_line(
                    attribute_text(input.fee_variant_gid),
                )
        },
{
    lemma_fee_line_found(input.lines, attribute_text(input.fee_variant_gid));
    if attribute_text(input.fee_rules).len() == 0 {
        lemma_empty_text_no_rules(attribute_text(input.fee_rules));
    }
}

/// Reads an attribute: its text trimmed, and the empty text where it is missing.
pub fn attribute_value(attribute: &Option<String>) -> (text: &str)
    ensures
        text@ == attribute_text(attribute.deep_view()),
{
    match attribute {
        Some(value) => trim_str(value.as_str()),
        None => {
            proof {
                reveal_strlit("");
            }
            ""
        },
    }
}

/// Makes the instruction that sets the unit price of the line `fee_line_id`
/// to `fee_amount`.
pub fn build_operation(fee_line_id: String, fee_amount: Fee) -> (operation: Operation)
    ensures
        operation@ == (OperationView { cart_line_id: fee_line_id@, price_per_unit: fee_amount@ }),
{
    Operation { cart_line_id: fee_line_id, price_per_unit: fee_amount }
}

/// Runs the stages on a cart and says how the run ended.
pub fn evaluate(input: &CartInput) -> (outcome: Outcome)
    ensures
        outcome@ == outcome_for(input@),
{
    let rules_text = attribute_value(&input.fee_rules);
    if rules_text.is_empty() {
        return Outcome::NoRules;
    }
    let rules = parse_rules(rules_text);
    if rules.len() == 0 {
        return Outcome::NoValidRule;
    }
    let fee_variant_gid = attribute_value(&input.fee_variant_gid);
    if fee_variant_gid.is_empty() {
        return Outcome::NoFeeTarget;
    }
    let scan = compute_subtotal(input.lines.as_slice(), fee_variant_gid);
    let fee_line_id = match scan.fee_line_id {
        Some(id) => id,
        None => {
            return Outcome::NoFeeLine;
        },
    };
    let subtotal = match scan.amount {
        Some(amount) => amount,
        None => {
            proof {
                let beyond = subtotal_of(input@.lines, fee_variant_gid@);
                lemma_beyond_every_tier(rules_text@, beyond as int);
                lemma_fee_cents_zero(beyond, 0);
            }
            return Outcome::Priced {
                fee_line_id,
                subtotal: None,
                percent: None,
                fee: Fee::from_cents(0),
            };
        },
    };
    let percent = find_percent(rules.as_slice(), subtotal);
    let applied = match percent {
        Some(percent) => percent,
        None => Decimal::zero(),
    };
    Outcome::Priced {
        fee_line_id,
        subtotal: Some(subtotal),
        percent,
        fee: compute_fee(subtotal, applied),
    }
}

impl Outcome {
    /// The instructions that the outcome asks for.
    pub fn into_operations(self) -> (operations: Vec<Operation>)
        ensures
            operations.deep_view() == operations_of(self@),
    {
        let mut operations: Vec<Operation> = Vec::new();
        match self {
            Outcome::Priced { fee_line_id, subtotal: _, percent: _, fee } => {
                operations.push(build_operation(fee_line_id, fee));
            },
            _ => {},
        }
        assert(operations.deep_view() =~= operations_of(self@));
        operations
    }
}

/// Works out the fee of a cart and the instruction that prices its fee line.
pub fn cart_transform_run(input: &CartInput) -> (operations: Vec<Operation>)
    ensures
        operations.deep_view() == operations_for(input.deep_view()),
{
    evaluate(input).into_operations()
}

} // verus!
