use custom_fee_plus::decimal::Decimal;
use custom_fee_plus::rules::{find_percent, parse_line, parse_rule_chars, parse_rules, Rule};

fn tier(min: u64, max: u64, percent: u64) -> Rule {
    Rule::new(Decimal { micros: min }, Decimal { micros: max }, Decimal { micros: percent })
        .unwrap()
}

fn line_chars(s: &str) -> Vec<char> {
    s.chars().collect()
}

#[test]
fn parse_the_wire_format() {
    let rules = parse_rules("# comment lines start with '#'\n0-100=5\n100.01-500=3.5%");
    assert_eq!(
        rules,
        vec![tier(0, 100_000_000, 5_000_000), tier(100_010_000, 500_000_000, 3_500_000)]
    );
}

#[test]
fn parse_skips_blank_lines_and_comments() {
    let text = "\n# tiers\n\n0-100=5\n   \n  # indented comment\n\t\n100.01-500=3.5%\n\n";
    assert_eq!(
        parse_rules(text),
        vec![tier(0, 100_000_000, 5_000_000), tier(100_010_000, 500_000_000, 3_500_000)]
    );
    assert_eq!(parse_rules(""), vec![]);
    assert_eq!(parse_rules("\n\n\n"), vec![]);
    assert_eq!(parse_rules("# only a comment"), vec![]);
}

#[test]
fn malformed_line_among_valid_lines_is_dropped() {
    let valid = ["0-100=5", "100.01-500=3.5%", "500.01-1000=2", "1000.01-5000=1.25%"];
    let expected = vec![
        tier(0, 100_000_000, 5_000_000),
        tier(100_010_000, 500_000_000, 3_500_000),
        tier(500_010_000, 1_000_000_000, 2_000_000),
        tier(1_000_010_000, 5_000_000_000, 1_250_000),
    ];
    let malformed = [
        "this is not a rule",
        "0-100",
        "0=5",
        "=",
        "-",
        "a-b=c",
        "10-5=3",
        "0-10=-1",
        "0-10=",
        "-5-10=3",
        "0-10=5%x",
        "0-10=5%%",
        "0-10=5 %%",
        "0-10=5 % %",
        "0-10=-0.0000001",
        "0.0000002-0.0000001=5",
        "0.0000001--0=5",
        "0-10=5 # five per cent",
        "1e2-2e2=5",
        "0-inf=5",
        "0-10=NaN",
        "0..5-10=5",
        "99999999999999999999-0=5",
        "99999999999999999999-99999999999999999998=5",
        "0-10=-99999999999999999999",
    ];
    for bad in malformed {
        for place in 0..=valid.len() {
            let mut lines: Vec<&str> = valid.to_vec();
            lines.insert(place, bad);
            let rules = parse_rules(&lines.join("\n"));
            assert_eq!(rules, expected, "with {:?} at line {}", bad, place);
        }
    }
}

#[test]
fn parse_trims_around_tokens() {
    assert_eq!(parse_rules("  0 - 10 = 5 %  "), vec![tier(0, 10_000_000, 5_000_000)]);
    assert_eq!(parse_rules("\t0\t-\t10\t=\t5\t"), vec![tier(0, 10_000_000, 5_000_000)]);
    assert_eq!(parse_rules("0 -10= 5%"), vec![tier(0, 10_000_000, 5_000_000)]);
}

#[test]
fn parse_percent_sign_is_optional() {
    assert_eq!(parse_rules("0-10=5"), vec![tier(0, 10_000_000, 5_000_000)]);
    assert_eq!(parse_rules("0-10=5%"), vec![tier(0, 10_000_000, 5_000_000)]);
    assert_eq!(parse_rules("0-10=5 %"), vec![tier(0, 10_000_000, 5_000_000)]);
    assert_eq!(parse_rules("0-100=5%%"), vec![]);
    assert_eq!(parse_rules("0-100=5%%%"), vec![]);
    assert_eq!(parse_rules("0-100=5% %"), vec![]);
    assert_eq!(parse_rules("0-10=%5"), vec![]);
    assert_eq!(parse_rules("0-10=%"), vec![]);
}

#[test]
fn parse_checks_range_and_percent() {
    assert_eq!(parse_rules("5-5=1"), vec![tier(5_000_000, 5_000_000, 1_000_000)]);
    assert_eq!(parse_rules("5-4.999999=1"), vec![]);
    assert_eq!(parse_rules("0-10=0"), vec![tier(0, 10_000_000, 0)]);
    assert_eq!(parse_rules("0-10=-0"), vec![tier(0, 10_000_000, 0)]);
    assert_eq!(parse_rules("0-10=-0.000001"), vec![]);
    assert_eq!(parse_rules("0-10=-0.0000000"), vec![tier(0, 10_000_000, 0)]);
    assert_eq!(parse_rules("0--0=5"), vec![tier(0, 0, 5_000_000)]);
    assert_eq!(parse_rules("0--1=5"), vec![]);
    assert_eq!(parse_rules("0-+10=+5"), vec![tier(0, 10_000_000, 5_000_000)]);
    assert_eq!(parse_rules("+1-10=5"), vec![tier(1_000_000, 10_000_000, 5_000_000)]);
}

#[test]
fn parse_tests_the_numbers_as_written() {
    assert_eq!(parse_rules("0-10=-0.0000001"), vec![]);
    assert_eq!(parse_rules("0-10=-0.00000000000000000000000000001"), vec![]);
    assert_eq!(parse_rules("0.0000002-0.0000001=5"), vec![]);
    assert_eq!(parse_rules("0.0000001-0.0000002=5"), vec![tier(0, 0, 5_000_000)]);
    assert_eq!(parse_rules("0.0000001-0.0000001=5"), vec![tier(0, 0, 5_000_000)]);
    assert_eq!(parse_rules("0.00000010-0.0000001=5"), vec![tier(0, 0, 5_000_000)]);
    assert_eq!(parse_rules("0.0000001-0.00000010000=5"), vec![tier(0, 0, 5_000_000)]);
    assert_eq!(parse_rules("0.00000010001-0.0000001=5"), vec![]);
    assert_eq!(parse_rules("1.2345678-1.23456779=5"), vec![]);
    assert_eq!(parse_rules("1.2345678-1.23456781=5"), vec![tier(1_234_567, 1_234_567, 5_000_000)]);
    assert_eq!(parse_rules("1.9999999-2=5"), vec![tier(1_999_999, 2_000_000, 5_000_000)]);
    assert_eq!(parse_rules("2-1.9999999=5"), vec![]);
    assert_eq!(parse_rules("0--0.0000000=5"), vec![tier(0, 0, 5_000_000)]);
    assert_eq!(parse_rules("0.0000001--0=5"), vec![]);
    assert_eq!(parse_rules("0--0.0000001=5"), vec![]);
    assert_eq!(parse_rules("0-10=0.0000001"), vec![tier(0, 10_000_000, 0)]);
}

#[test]
fn parse_keeps_tiers_with_large_numbers() {
    let most = u64::MAX;
    assert_eq!(parse_rules("0-99999999999999=5"), vec![tier(0, most, 5_000_000)]);
    assert_eq!(parse_rules("0-99999999999999999999=5"), vec![tier(0, most, 5_000_000)]);
    assert_eq!(
        parse_rules("500.01-9999999999999999999999999999999999999999=2%"),
        vec![tier(500_010_000, most, 2_000_000)]
    );
    assert_eq!(parse_rules("0-18446744073709.551616=5"), vec![tier(0, most, 5_000_000)]);
    assert_eq!(
        parse_rules("99999999999999999998-99999999999999999999=5"),
        vec![tier(most, most, 5_000_000)]
    );
    assert_eq!(
        parse_rules("99999999999999999999-99999999999999999999.0000000=5"),
        vec![tier(most, most, 5_000_000)]
    );
    assert_eq!(parse_rules("99999999999999999999-99999999999999999998=5"), vec![]);
    assert_eq!(parse_rules("99999999999999999999.0000001-99999999999999999999=5"), vec![]);
    assert_eq!(parse_rules("18446744073709.551616-18446744073709.551615=5"), vec![]);
    assert_eq!(parse_rules("100000000000000000000-99999999999999999999=5"), vec![]);
    assert_eq!(
        parse_rules("99999999999999999999-100000000000000000000=5"),
        vec![tier(most, most, 5_000_000)]
    );
    assert_eq!(
        parse_rules("000000000000000000000000000005-6=1"),
        vec![tier(5_000_000, 6_000_000, 1_000_000)]
    );
    assert_eq!(parse_rules("7-000000000000000000000000000006=1"), vec![]);
    assert_eq!(parse_rules("0-10=99999999999999999999"), vec![tier(0, 10_000_000, most)]);
    assert_eq!(parse_rules("0-10=-99999999999999999999"), vec![]);
}

#[test]
fn parse_splits_at_the_first_separators() {
    assert_eq!(parse_rules("0-10=5=6"), vec![]);
    assert_eq!(parse_rules("0-10-20=5"), vec![]);
    assert_eq!(parse_rules("0=5-10"), vec![]);
}

#[test]
fn parse_keeps_order_and_duplicates() {
    assert_eq!(
        parse_rules("50-60=1\n0-10=2\n50-60=1\n0-100=3"),
        vec![
            tier(50_000_000, 60_000_000, 1_000_000),
            tier(0, 10_000_000, 2_000_000),
            tier(50_000_000, 60_000_000, 1_000_000),
            tier(0, 100_000_000, 3_000_000),
        ]
    );
}

#[test]
fn parse_takes_carriage_returns_as_white_space() {
    assert_eq!(
        parse_rules("0-100=5\r\n# note\r\n100.01-500=3.5%\r\n"),
        vec![tier(0, 100_000_000, 5_000_000), tier(100_010_000, 500_000_000, 3_500_000)]
    );
    assert_eq!(parse_rules("0-100=5\r100.01-500=3.5%"), vec![]);
}

#[test]
fn parse_gives_no_more_rules_than_candidate_lines() {
    let texts = [
        "0-100=5\n100.01-500=3.5%",
        "# a\n\nx\n0-1=1\ny\n",
        "a\nb\nc",
        "",
        "0-1=1\n0-1=1\n0-1=1\n# c\n   \n1-0=1",
    ];
    for text in texts {
        let candidates = text
            .lines()
            .filter(|line| !line.trim().is_empty() && !line.trim().starts_with('#'))
            .count();
        let rules = parse_rules(text);
        assert!(rules.len() <= candidates, "{:?}", text);
        for rule in &rules {
            assert!(rule.max().micros >= rule.min().micros, "{:?}", text);
        }
    }
}

#[test]
fn parse_line_reads_one_tier() {
    assert_eq!(parse_line(&line_chars("0-100=5")), Some(tier(0, 100_000_000, 5_000_000)));
    assert_eq!(parse_line(&line_chars("  100.01-500=3.5%  ")), Some(tier(100_010_000, 500_000_000, 3_500_000)));
    assert_eq!(parse_line(&line_chars("# 0-100=5")), None);
    assert_eq!(parse_line(&line_chars("")), None);
    assert_eq!(parse_line(&line_chars("0-100")), None);
}

#[test]
fn parse_rule_chars_agrees_with_parse_rules() {
    let text = "0-100=5\nbad\n100.01-500=3.5%\n";
    assert_eq!(parse_rule_chars(&line_chars(text)), parse_rules(text));
}

#[test]
fn first_matching_tier_wins() {
    let rules = parse_rules("0-100=5%\n50-150=10%");
    assert_eq!(rules.len(), 2);
    assert_eq!(
        find_percent(&rules, Decimal { micros: 75_000_000 }),
        Some(Decimal { micros: 5_000_000 })
    );
    let swapped = parse_rules("50-150=10%\n0-100=5%");
    assert_eq!(
        find_percent(&swapped, Decimal { micros: 75_000_000 }),
        Some(Decimal { micros: 10_000_000 })
    );
}

#[test]
fn tier_bounds_are_inclusive() {
    let rules = parse_rules("0-100=5%\n50-150=10%");
    assert_eq!(find_percent(&rules, Decimal { micros: 0 }), Some(Decimal { micros: 5_000_000 }));
    assert_eq!(
        find_percent(&rules, Decimal { micros: 100_000_000 }),
        Some(Decimal { micros: 5_000_000 })
    );
    assert_eq!(
        find_percent(&rules, Decimal { micros: 100_000_001 }),
        Some(Decimal { micros: 10_000_000 })
    );
    assert_eq!(
        find_percent(&rules, Decimal { micros: 150_000_000 }),
        Some(Decimal { micros: 10_000_000 })
    );
    assert_eq!(find_percent(&rules, Decimal { micros: 150_000_001 }), None);
}

#[test]
fn no_tier_means_no_percent() {
    let rules = parse_rules("10-20=5\n30-40=6");
    assert_eq!(find_percent(&rules, Decimal { micros: 9_999_999 }), None);
    assert_eq!(find_percent(&rules, Decimal { micros: 25_000_000 }), None);
    assert_eq!(find_percent(&rules, Decimal { micros: 40_000_001 }), None);
    assert_eq!(find_percent(&[], Decimal { micros: 0 }), None);
}

#[test]
fn gap_between_tiers() {
    let rules = parse_rules("0-100=5\n100.01-500=3.5%");
    assert_eq!(find_percent(&rules, Decimal { micros: 100_005_000 }), None);
    assert_eq!(
        find_percent(&rules, Decimal { micros: 100_010_000 }),
        Some(Decimal { micros: 3_500_000 })
    );
}

#[test]
fn rule_new_refuses_an_empty_range() {
    let low = Decimal { micros: 1_000_000 };
    let high = Decimal { micros: 2_000_000 };
    let percent = Decimal { micros: 5_000_000 };
    assert_eq!(Rule::new(high, low, percent), None);
    assert!(Rule::new(low, low, percent).is_some());
    let rule = Rule::new(low, high, percent).unwrap();
    assert_eq!(rule.min(), low);
    assert_eq!(rule.max(), high);
    assert_eq!(rule.percent(), percent);
}

#[test]
fn parsed_rules_give_their_fields() {
    let rules = parse_rules("100.01-500=3.5%");
    assert_eq!(rules.len(), 1);
    assert_eq!(rules[0].min(), Decimal { micros: 100_010_000 });
    assert_eq!(rules[0].max(), Decimal { micros: 500_000_000 });
    assert_eq!(rules[0].percent(), Decimal { micros: 3_500_000 });
}
