//! Fee tiers: reading them from text and finding the one that applies.
//!
//! A rule text holds one tier per line, written `MIN-MAX=PERCENT%`, where the
//! percent sign may be left out; a second percent sign spoils the line.
//! Blank lines and lines that start with `#` say nothing. A line that is
//! not a tier is passed over: it never spoils the tiers around it. The
//! tiers keep the order in which they were written, and where several hold
//! a subtotal, the first one applies.
//!
//! A line is a tier only if `MAX` is at least `MIN` and `PERCENT` is not
//! below zero. Both are asked of the numbers as they are written, with all
//! their digits and whatever their size. The tier then holds each number
//! as a `Decimal` does: to six fractional digits, and as the largest
//! `Decimal` where the number is larger. So a tier whose upper bound is a
//! long run of nines holds every subtotal that can be held from its lower
//! bound on.

use crate::decimal::{
    has_minus, held_number, is_number, is_written_negative, lemma_not_negative_held,
    lemma_written_ge_held, parse_number, written_at_least, written_ge, written_negative, Decimal,
};
use crate::text::{
    chars_of, find, free_of, index_of, join_lines, lemma_index_of, lemma_split_join,
    lemma_trimmed_is_subrange, split_lines, split_once, strip_last, trim, trimmed,
    trimmed_start, without_last,
};
use vstd::prelude::*;
use vstd::slice::slice_subrange;

verus! {

/// One tier: subtotals from `min` to `max`, both included, pay `percent`
/// per cent. The range of a tier is never empty: `max` is at least `min`.
#[derive(Clone, Copy, Debug, PartialEq, Eq)]
pub struct Rule {
    min: Decimal,
    max: Decimal,
    percent: Decimal,
}

/// A tier as numbers: each field in millionths.
pub struct RuleView {
    pub min: int,
    pub max: int,
    pub percent: int,
}

impl View for Rule {
    type V = RuleView;

    closed spec fn view(&self) -> RuleView {
        RuleView { min: self.min@ as int, max: self.max@ as int, percent: self.percent@ as int }
    }
}

impl DeepView for Rule {
    type V = RuleView;

    open spec fn deep_view(&self) -> RuleView {
        self@
    }
}

impl Rule {
    #[verifier::type_invariant]
    spec fn range_not_empty(self) -> bool {
        self.min@ <= self.max@
    }

    /// Makes a tier, unless its range would be empty.
    pub fn new(min: Decimal, max: Decimal, percent: Decimal) -> (r: Option<Rule>)
        ensures
            r is Some <==> max@ >= min@,
            r matches Some(rule) ==> rule@ == (RuleView {
                min: min@ as int,
                max: max@ as int,
                percent: percent@ as int,
            }),
    {
        if max.micros >= min.micros {
            Some(Rule { min, max, percent })
        } else {
            None
        }
    }

    /// The lower end of the range.
    pub fn min(&self) -> (d: Decimal)
        ensures
            d@ == self@.min,
            self@.well_formed(),
    {
        proof {
            use_type_invariant(self);
        }
        self.min
    }

    /// The upper end of the range.
    pub fn max(&self) -> (d: Decimal)
        ensures
            d@ == self@.max,
            self@.well_formed(),
    {
        proof {
            use_type_invariant(self);
        }
        self.max
    }

    /// The percentage charged on a subtotal in the range.
    pub fn percent(&self) -> (d: Decimal)
        ensures
            d@ == self@.percent,
            self@.well_formed(),
    {
        proof {
            use_type_invariant(self);
        }
        self.percent
    }
}

impl RuleView {
    /// The range is not empty, and the percentage is not below zero.
    pub open spec fn well_formed(self) -> bool {
        self.max >= self.min && self.percent >= 0
    }

    /// Whether the tier's range holds `subtotal`.
    pub open spec fn holds(self, subtotal: int) -> bool {
        self.min <= subtotal <= self.max
    }
}

/// Whether a line is meant as a tier: it is neither blank nor a comment.
pub open spec fn is_candidate(raw: Seq<char>) -> bool {
    let line = trimmed(raw);
    line.len() > 0 && line[0] != '#'
}

/// The three numbers of a line as they are written.
pub struct RuleTokens {
    pub min: Seq<char>,
    pub max: Seq<char>,
    pub percent: Seq<char>,
}

/// Takes a line of the shape `MIN-MAX=PERCENT%` apart: at the first `=`,
/// and what stands before it at its first `-`. One percent sign at the end
/// is dropped, and each piece is trimmed.
pub open spec fn tokens_of_line(line: Seq<char>) -> Option<RuleTokens> {
    let eq = index_of(line, '=');
    if 0 <= eq < line.len() {
        let range = line.take(eq);
        let dash = index_of(range, '-');
        if 0 <= dash < range.len() {
            Some(
                RuleTokens {
                    min: trimmed(range.take(dash)),
                    max: trimmed(range.skip(dash + 1)),
                    percent: trimmed(without_last(line.skip(eq + 1), '%')),
                },
            )
        } else {
            None
        }
    } else {
        None
    }
}

/// The tier that three tokens write, if they write one: each is a number,
/// the range is not empty and the percentage is not below zero. Both tests
/// are made on the numbers as they are written, whatever their size.
///
/// The tier then holds each number as a `Decimal` does: to six fractional
/// digits, and as the largest `Decimal` where the number is larger. A bound
/// too large to be held so stands for a bound at the end of what can be held.
pub open spec fn rule_of_tokens(tokens: RuleTokens) -> Option<RuleView> {
    if is_number(tokens.min) && is_number(tokens.max) && is_number(tokens.percent) && written_ge(
        tokens.max,
        tokens.min,
    ) && !written_negative(tokens.percent) {
        Some(
            RuleView {
                min: held_number(tokens.min),
                max: held_number(tokens.max),
                percent: held_number(tokens.percent),
            },
        )
    } else {
        None
    }
}

/// Whether a line is a tier: it is meant as one, it has the shape
/// `MIN-MAX=PERCENT%`, its three tokens are numbers, `MAX` is at least
/// `MIN` and `PERCENT` is not below zero. Nothing else is asked: how large
/// a number is does not enter.
pub open spec fn is_tier_line(raw: Seq<char>) -> bool {
    &&& is_candidate(raw)
    &&& tokens_of_line(trimmed(raw)) matches Some(tokens)
    &&& is_number(tokens.min)
    &&& is_number(tokens.max)
    &&& is_number(tokens.percent)
    &&& written_ge(tokens.max, tokens.min)
    &&& !written_negative(tokens.percent)
}

/// The tier that a line writes, if it writes one.
pub open spec fn rule_of_line(raw: Seq<char>) -> Option<RuleView> {
    if is_candidate(raw) {
        match tokens_of_line(trimmed(raw)) {
            Some(tokens) => rule_of_tokens(tokens),
            None => None,
        }
    } else {
        None
    }
}

/// The tiers that the lines write, in the order of the lines.
pub open spec fn rules_of_lines(lines: Seq<Seq<char>>) -> Seq<RuleView>
    decreases lines.len(),
{
    if lines.len() == 0 {
        Seq::empty()
    } else {
        let rest = rules_of_lines(lines.skip(1));
        match rule_of_line(lines[0]) {
            Some(rule) => seq![rule] + rest,
            None => rest,
        }
    }
}

/// The tiers that a rule text writes.
pub open spec fn rules_of_text(text: Seq<char>) -> Seq<RuleView> {
    rules_of_lines(split_lines(text))
}

/// How many of the lines are meant as tiers.
pub open spec fn candidate_count(lines: Seq<Seq<char>>) -> nat
    decreases lines.len(),
{
    if lines.len() == 0 {
        0
    } else {
        candidate_count(lines.skip(1)) + if is_candidate(lines[0]) {
            1nat
        } else {
            0nat
        }
    }
}

/// The percentage of the first tier that holds `subtotal`, if one does.
pub open spec fn percent_for(rules: Seq<RuleView>, subtotal: int) -> Option<int>
    decreases rules.len(),
{
    if rules.len() == 0 {
        None
    } else if rules[0].holds(subtotal) {
        Some(rules[0].percent)
    } else {
        percent_for(rules.skip(1), subtotal)
    }
}

/// A token cut out of a text without `-` has no minus sign.
proof fn lemma_no_minus(part: Seq<char>)
    requires
        free_of(part, '-'),
    ensures
        !has_minus(trimmed(part)),
{
    let bounds = lemma_trimmed_is_subrange(part);
    if trimmed(part).len() > 0 {
        assert(trimmed(part)[0] == part[bounds.0]);
    }
}

/// Reads one line of a rule text.
pub fn parse_line(raw: &[char]) -> (r: Option<Rule>)
    ensures
        r.deep_view() == rule_of_line(raw@),
{
    let line = trim(raw);
    if line.len() == 0 || line[0] == '#' {
        return None;
    }
    let (range, percent_part) = match split_once(line, '=') {
        Some(parts) => parts,
        None => {
            return None;
        },
    };
    let (min_part, max_part) = match split_once(range, '-') {
        Some(parts) => parts,
        None => {
            return None;
        },
    };
    let min_token = trim(min_part);
    let max_token = trim(max_part);
    let percent_token = trim(strip_last(percent_part, '%'));
    proof {
        lemma_index_of(line@, '=');
        lemma_index_of(range@, '-');
        lemma_no_minus(min_part@);
    }
    match (parse_number(min_token), parse_number(max_token), parse_number(percent_token)) {
        (Some(min), Some(max), Some(percent)) => {
            if written_at_least(max_token, min_token) && !is_written_negative(percent_token) {
                proof {
                    lemma_written_ge_held(max_token@, min_token@);
                    lemma_not_negative_held(percent_token@);
                }
                Some(Rule { min: min.magnitude, max: max.magnitude, percent: percent.magnitude })
            } else {
                None
            }
        },
        _ => None,
    }
}

/// A rule text writes no more tiers than it has lines that are meant as tiers.
pub proof fn lemma_rules_within_candidates(lines: Seq<Seq<char>>)
    ensures
        rules_of_lines(lines).len() <= candidate_count(lines),
    decreases lines.len(),
{
    if lines.len() > 0 {
        lemma_rules_within_candidates(lines.skip(1));
    }
}

/// Every tier read from a rule text has a range that is not empty and a
/// percentage that is not below zero.
pub proof fn lemma_rules_well_formed(lines: Seq<Seq<char>>)
    ensures
        forall|i: int|
            0 <= i < rules_of_lines(lines).len() ==> (#[trigger] rules_of_lines(
                lines,
            )[i]).well_formed(),
    decreases lines.len(),
{
    if lines.len() > 0 {
        lemma_rules_well_formed(lines.skip(1));
        let rest = rules_of_lines(lines.skip(1));
        assert forall|i: int| 0 <= i < rules_of_lines(lines).len() implies (
        #[trigger] rules_of_lines(lines)[i]).well_formed() by {
            match rule_of_line(lines[0]) {
                Some(rule) => {
                    let tokens = tokens_of_line(trimmed(lines[0]))->0;
                    lemma_written_ge_held(tokens.max, tokens.min);
                    lemma_not_negative_held(tokens.percent);
                    if i > 0 {
                        assert(rules_of_lines(lines)[i] == rest[i - 1]);
                    }
                },
                None => {},
            }
        }
    }
}

/// No tier read from a rule text is held beyond the largest `Decimal`.
pub proof fn lemma_rules_in_range(lines: Seq<Seq<char>>)
    ensures
        forall|i: int|
            0 <= i < rules_of_lines(lines).len() ==> (#[trigger] rules_of_lines(lines)[i]).max
                <= u64::MAX,
    decreases lines.len(),
{
    if lines.len() > 0 {
        lemma_rules_in_range(lines.skip(1));
        let rest = rules_of_lines(lines.skip(1));
        assert forall|i: int| 0 <= i < rules_of_lines(lines).len() implies (
        #[trigger] rules_of_lines(lines)[i]).max <= u64::MAX by {
            match rule_of_line(lines[0]) {
                Some(rule) => {
                    if i > 0 {
                        assert(rules_of_lines(lines)[i] == rest[i - 1]);
                    }
                },
                None => {},
            }
        }
    }
}

/// A subtotal beyond the largest `Decimal` lies outside every tier as it
/// is held.
pub proof fn lemma_beyond_every_tier(text: Seq<char>, subtotal: int)
    requires
        subtotal > u64::MAX,
    ensures
        percent_for(rules_of_text(text), subtotal) is None,
{
    lemma_rules_in_range(split_lines(text));
    lemma_no_tier_no_percent(rules_of_text(text), subtotal);
}

/// A line that writes no tier leaves no trace: the tiers are those of the
/// lines without it.
pub proof fn lemma_invalid_line_dropped(lines: Seq<Seq<char>>, k: int)
    requires
        0 <= k < lines.len(),
        rule_of_line(lines[k]) is None,
    ensures
        rules_of_lines(lines) == rules_of_lines(lines.remove(k)),
    decreases lines.len(),
{
    if k == 0 {
        assert(lines.remove(0) =~= lines.skip(1));
    } else {
        lemma_invalid_line_dropped(lines.skip(1), k - 1);
        assert(lines.remove(k).skip(1) =~= lines.skip(1).remove(k - 1));
        assert(lines.remove(k)[0] == lines[0]);
    }
}

/// Where every line writes a tier, there is one tier for each line, in
/// the order of the lines.
pub proof fn lemma_valid_lines_kept(lines: Seq<Seq<char>>)
    requires
        forall|i: int| 0 <= i < lines.len() ==> rule_of_line(#[trigger] lines[i]) is Some,
    ensures
        rules_of_lines(lines).len() == lines.len(),
        forall|i: int|
            0 <= i < lines.len() ==> rule_of_line(lines[i]) == Some(
                #[trigger] rules_of_lines(lines)[i],
            ),
    decreases lines.len(),
{
    if lines.len() > 0 {
        let rest = lines.skip(1);
        assert forall|i: int| 0 <= i < rest.len() implies rule_of_line(#[trigger] rest[i])
            is Some by {
            assert(rest[i] == lines[i + 1]);
        }
        lemma_valid_lines_kept(rest);
        assert(rule_of_line(lines[0]) is Some);
        assert forall|i: int| 0 <= i < lines.len() implies rule_of_line(lines[i]) == Some(
            #[trigger] rules_of_lines(lines)[i],
        ) by {
            if i > 0 {
                assert(rest[i - 1] == lines[i]);
                assert(rules_of_lines(lines)[i] == rules_of_lines(rest)[i - 1]);
            }
        }
    }
}

/// A line gives a tier exactly where it is a tier line.
pub proof fn lemma_tier_lines(raw: Seq<char>)
    ensures
        rule_of_line(raw) is Some <==> is_tier_line(raw),
{
}

/// A text of no characters writes no tier.
pub proof fn lemma_empty_text_no_rules(text: Seq<char>)
    requires
        text.len() == 0,
    ensures
        rules_of_text(text).len() == 0,
{
    reveal_with_fuel(rules_of_lines, 2);
    reveal_with_fuel(trimmed_start, 1);
}

/// One line that is no tier line among lines that each are one: the text
/// of all these lines writes what the text without the odd line writes,
/// one tier for each of the other lines and in their order, wherever the
/// odd line stands.
pub proof fn lemma_one_invalid_line(lines: Seq<Seq<char>>, k: int)
    requires
        0 <= k < lines.len(),
        !is_tier_line(lines[k]),
        forall|i: int| 0 <= i < lines.len() && i != k ==> is_tier_line(#[trigger] lines[i]),
        forall|i: int| 0 <= i < lines.len() ==> free_of(#[trigger] lines[i], '\n'),
    ensures
        rules_of_text(join_lines(lines)) == rules_of_text(join_lines(lines.remove(k))),
        rules_of_text(join_lines(lines)).len() == lines.len() - 1,
        forall|i: int|
            0 <= i < lines.len() - 1 ==> rule_of_line(lines.remove(k)[i]) == Some(
                #[trigger] rules_of_text(join_lines(lines))[i],
            ),
{
    let others = lines.remove(k);
    lemma_split_join(lines);
    lemma_invalid_line_dropped(lines, k);
    assert forall|i: int| 0 <= i < others.len() implies rule_of_line(#[trigger] others[i])
        is Some by {
        if i < k {
            assert(others[i] == lines[i]);
        } else {
            assert(others[i] == lines[i + 1]);
        }
    }
    lemma_valid_lines_kept(others);
    if others.len() > 0 {
        assert forall|i: int| 0 <= i < others.len() implies free_of(
            #[trigger] others[i],
            '\n',
        ) by {
            if i < k {
                assert(others[i] == lines[i]);
            } else {
                assert(others[i] == lines[i + 1]);
            }
        }
        lemma_split_join(others);
    } else {
        lemma_empty_text_no_rules(join_lines(others));
        assert(rules_of_text(join_lines(others)) =~= rules_of_lines(others));
    }
}

/// The first tier that holds the subtotal gives the percentage, whatever
/// the tiers after it say.
pub proof fn lemma_first_tier_applies(rules: Seq<RuleView>, subtotal: int, k: int)
    requires
        0 <= k < rules.len(),
        rules[k].holds(subtotal),
        forall|j: int| 0 <= j < k ==> !(#[trigger] rules[j]).holds(subtotal),
    ensures
        percent_for(rules, subtotal) == Some(rules[k].percent),
    decreases rules.len(),
{
    if k > 0 {
        assert(!rules[0].holds(subtotal));
        let rest = rules.skip(1);
        assert forall|j: int| 0 <= j < k - 1 implies !(#[trigger] rest[j]).holds(subtotal) by {
            assert(rest[j] == rules[j + 1]);
        }
        assert(rest[k - 1] == rules[k]);
        lemma_first_tier_applies(rest, subtotal, k - 1);
    }
}

/// Where no tier holds the subtotal, there is no percentage for it.
pub proof fn lemma_no_tier_no_percent(rules: Seq<RuleView>, subtotal: int)
    requires
        forall|i: int| 0 <= i < rules.len() ==> !(#[trigger] rules[i]).holds(subtotal),
    ensures
        percent_for(rules, subtotal) is None,
    decreases rules.len(),
{
    if rules.len() > 0 {
        assert(!rules[0].holds(subtotal));
        assert forall|i: int| 0 <= i < rules.skip(1).len() implies !(#[trigger] rules.skip(
            1,
        )[i]).holds(subtotal) by {
            assert(rules.skip(1)[i] == rules[i + 1]);
        }
        lemma_no_tier_no_percent(rules.skip(1), subtotal);
    }
}

/// Reads the tiers of a rule text held as characters.
pub fn parse_rule_chars(text: &[char]) -> (rules: Vec<Rule>)
    ensures
        rules.deep_view() == rules_of_text(text@),
        rules.len() <= candidate_count(split_lines(text@)),
        forall|i: int| 0 <= i < rules.len() ==> (#[trigger] rules[i])@.well_formed(),
{
    let mut rules: Vec<Rule> = Vec::new();
    let mut pos: usize = 0;
    let mut done = false;
    assert(text@.skip(0) =~= text@);
    assert(rules.deep_view() + rules_of_text(text@) =~= rules_of_text(text@));
    while !done
        invariant
            pos <= text.len(),
            done ==> rules.deep_view() == rules_of_text(text@),
            !done ==> rules_of_text(text@) == rules.deep_view() + rules_of_text(
                text@.skip(pos as int),
            ),
        decreases
                text.len() - pos + if done {
                    0int
                } else {
                    1int
                },
    {
        let rest = slice_subrange(text, pos, text.len());
        let n = find(rest, '\n');
        let ghost before = rules.deep_view();
        let ghost lines = split_lines(rest@);
        proof {
            lemma_index_of(rest@, '\n');
            assert(rest@ =~= text@.skip(pos as int));
            assert(lines[0] == rest@.take(n as int)) by {
                if n >= rest@.len() {
                    assert(rest@.take(n as int) =~= rest@);
                }
            }
        }
        match parse_line(slice_subrange(rest, 0, n)) {
            Some(rule) => {
                rules.push(rule);
                assert(rules.deep_view() =~= before + seq![rule@]);
            },
            None => {},
        }
        if n < rest.len() {
            proof {
                assert(lines.skip(1) =~= split_lines(rest@.skip(n + 1)));
                assert(rest@.skip(n + 1) =~= text@.skip(pos + n + 1));
                assert(rules_of_text(text@) =~= rules.deep_view() + rules_of_text(
                    text@.skip(pos + n + 1),
                ));
            }
            pos = pos + n + 1;
        } else {
            proof {
                assert(lines.skip(1) =~= Seq::<Seq<char>>::empty());
                assert(rules_of_lines(lines.skip(1)) =~= Seq::<RuleView>::empty());
                assert(rules_of_text(text@) =~= rules.deep_view());
            }
            done = true;
        }
    }
    proof {
        lemma_rules_within_candidates(split_lines(text@));
        lemma_rules_well_formed(split_lines(text@));
        assert forall|i: int| 0 <= i < rules.len() implies (#[trigger] rules[i])@.well_formed() by {
            assert(rules[i]@ == rules.deep_view()[i]);
        }
    }
    rules
}

/// Reads the tiers of a rule text. Lines that are not tiers are left out;
/// the others keep their order.
pub fn parse_rules(rules_text: &str) -> (rules: Vec<Rule>)
    ensures
        rules.deep_view() == rules_of_text(rules_text@),
        rules.len() <= candidate_count(split_lines(rules_text@)),
        forall|i: int| 0 <= i < rules.len() ==> (#[trigger] rules[i])@.well_formed(),
{
    let chars = chars_of(rules_text);
    parse_rule_chars(chars.as_slice())
}

/// Finds the percentage for `subtotal`: that of the first tier whose range
/// holds it, both ends included.
pub fn find_percent(rules: &[Rule], subtotal: Decimal) -> (r: Option<Decimal>)
    ensures
        match r {
            Some(percent) => percent_for(rules.deep_view(), subtotal@ as int) == Some(
                percent@ as int,
            ),
            None => percent_for(rules.deep_view(), subtotal@ as int) is None,
        },
{
    let mut i: usize = 0;
    assert(rules.deep_view().skip(0) =~= rules.deep_view());
    while i < rules.len()
        invariant
            i <= rules.len(),
            percent_for(rules.deep_view(), subtotal@ as int) == percent_for(
                rules.deep_view().skip(i as int),
                subtotal@ as int,
            ),
        decreases rules.len() - i,
    {
        let rule = rules[i];
        assert(rules.deep_view().skip(i as int)[0] == rule@);
        if rule.min.micros <= subtotal.micros && subtotal.micros <= rule.max.micros {
            return Some(rule.percent);
        }
        assert(rules.deep_view().skip(i as int).skip(1) =~= rules.deep_view().skip(i + 1));
        i += 1;
    }
    None
}

} // verus!
