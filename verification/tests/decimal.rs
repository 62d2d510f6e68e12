use human_repr::decimals;
use human_repr::large_repr;
use human_repr::rounded;
use human_repr::Dec;
use human_repr::HumanCount;
use human_repr::HumanCountData;
use human_repr::ReprCount;
use human_repr::Sep;
use human_repr::System;

fn render(v: f64, unit: &str, sys: System, sep: Sep, alternate: bool) -> String {
    let d = Dec::parse(&format!("{}", v)).unwrap();
    large_repr(&d, unit, Some(sys), sep, alternate)
}

#[test]
fn parse_rejects_bad_texts() {
    assert!(Dec::parse("").is_none());
    assert!(Dec::parse("-").is_none());
    assert!(Dec::parse("abc").is_none());
    assert!(Dec::parse("1..2").is_none());
    assert!(Dec::parse("1.2.3").is_none());
    assert!(Dec::parse(".5").is_none());
    assert!(Dec::parse("5.").is_none());
    assert!(Dec::parse("--1").is_none());
    assert!(Dec::parse("1e5").is_none());
    assert!(Dec::parse("1 2").is_none());
    assert!(Dec::parse("１２").is_none()); // full-width digits are refused
}

#[test]
fn parse_accepts_plain_decimals() {
    assert!(Dec::parse("0").is_some());
    assert!(Dec::parse("-0.5").is_some());
    assert!(Dec::parse("123.456").is_some());
    assert!(Dec::parse("000.100").is_some());
}

#[test]
fn rounding_is_half_away_from_zero() {
    let quarter = Dec::parse("1.25").unwrap();
    let r = rounded(&quarter, 1);
    assert_eq!("1.3", r.mantissa_text());

    let neg = Dec::parse("-1.25").unwrap();
    let r = rounded(&neg, 1);
    assert_eq!("-1.3", r.mantissa_text());

    let down = Dec::parse("1.24").unwrap();
    assert_eq!("1.2", rounded(&down, 1).mantissa_text());
}

#[test]
fn decimals_counts_needed_digits() {
    assert_eq!(0, decimals(&Dec::parse("5").unwrap()));
    assert_eq!(0, decimals(&Dec::parse("5.0").unwrap()));
    assert_eq!(1, decimals(&Dec::parse("5.10").unwrap()));
    assert_eq!(2, decimals(&Dec::parse("5.12").unwrap()));
}

#[test]
fn decimals_caps_at_two() {
    assert_eq!(2, decimals(&Dec::parse("0.12345").unwrap()));
    assert_eq!(2, decimals(&Dec::parse("3.14159").unwrap()));
}

#[test]
fn parse_is_canonical() {
    let plain = HumanCountData { val: Dec::parse("1").unwrap(), unit: String::new(), repr: None };
    let dotted = HumanCountData { val: Dec::parse("1.0").unwrap(), unit: String::new(), repr: None };
    assert_eq!(plain, dotted);
    assert_eq!("1", large_repr(&Dec::parse("1.0").unwrap(), "", Some(System::SI), Sep::NoSep, true));

    let zero = HumanCountData { val: Dec::parse("0").unwrap(), unit: String::new(), repr: None };
    let negzero = HumanCountData { val: Dec::parse("-0.0").unwrap(), unit: String::new(), repr: None };
    assert_eq!(zero, negzero);
    assert_eq!("0", large_repr(&Dec::parse("-0.0").unwrap(), "", Some(System::SI), Sep::NoSep, false));
}

#[test]
fn wide_integer_counts() {
    assert_eq!("18.45E", 18446744073709551616u128.human_count().to_text(false));
    assert_eq!("-1k", (-1025i128).human_count().to_text(false));
    let iec = 1048576u128.human_count_with("", Some(ReprCount::new(Some(System::IEC), None)));
    assert_eq!("1Mi", iec.to_text(false));
    assert_eq!("-170141183.46Q", i128::MIN.human_count().to_text(false));
}

#[test]
fn from_u64_matches_parse() {
    let a = Dec::from_u64(123456);
    assert_eq!("123456", a.mantissa_text());
    assert_eq!("0", Dec::from_u64(0).mantissa_text());
}

#[test]
fn determinism_scenario() {
    let first = render(4221432.0, "", System::SI, Sep::NoSep, false);
    let second = render(4221432.0, "", System::SI, Sep::NoSep, false);
    assert_eq!(first, second);
    assert_eq!("4.2M", first);
}

#[test]
fn sign_preservation_scenario() {
    let pos = render(1025.0, "B", System::SI, Sep::NoSep, false);
    let neg = render(-1025.0, "B", System::SI, Sep::NoSep, false);
    assert_eq!(format!("-{}", pos), neg);
}

#[test]
fn tier_monotonicity_scenario() {
    assert_eq!("1.5", render(1.5, "", System::SI, Sep::NoSep, false));
    assert_eq!("1.5k", render(1.5e3, "", System::SI, Sep::NoSep, false));
    assert_eq!("1.5M", render(1.5e6, "", System::SI, Sep::NoSep, false));
    assert_eq!("1.5G", render(1.5e9, "", System::SI, Sep::NoSep, false));
}

#[test]
fn no_dangling_separator_scenario() {
    let t = render(999.0, "", System::SI, Sep::NoSep, false);
    assert_eq!("999", t);
    assert!(!t.ends_with(' '));
    let spaced = render(999.0, "", System::SI, Sep::WithSep, false);
    assert_eq!("999", spaced);
}

#[test]
fn binary_si_prefixes() {
    assert_eq!("1K", render(1024.0, "", System::SI2, Sep::NoSep, false));
    assert_eq!("1M", render(1048576.0, "", System::SI2, Sep::NoSep, false));
    assert_eq!("1023", render(1023.0, "", System::SI2, Sep::NoSep, false));
}

#[test]
fn top_tier_never_carries() {
    assert_eq!("1123456Q", render(1.123456e36, "", System::SI, Sep::NoSep, false));
}

#[test]
fn repr_options_pick_system_and_separator() {
    let h = 1048576u32.human_count_with("B", Some(ReprCount::new(Some(System::IEC), Some(Sep::WithSep))));
    assert_eq!("1 MiB", h.to_text(false));
    let d = 1048576u32.human_count();
    assert_eq!("1M", d.to_text(false));
}

#[test]
fn resolve_separator_text() {
    assert_eq!(" ", Sep::WithSep.resolve());
    assert_eq!("", Sep::NoSep.resolve());
}

#[test]
fn streaming_compare_matches_pieces() {
    let mut cmp = human_repr::HeapLessCompare::new("12.3k°C");
    cmp.feed("12.3");
    cmp.feed("k");
    cmp.feed("°C");
    assert!(cmp.finished());

    let mut partial = human_repr::HeapLessCompare::new("12.3k°C");
    partial.feed("12.3");
    assert!(!partial.finished());

    let mut wrong = human_repr::HeapLessCompare::new("12.3k°C");
    wrong.feed("12.4");
    wrong.feed("k°C");
    assert!(!wrong.finished());
}

#[test]
fn repr_count_text() {
    assert_eq!("", ReprCount::new(None, None).to_text());
    assert_eq!("SI2", ReprCount::new(Some(System::SI2), None).to_text());
    assert_eq!("WithSep", ReprCount::new(None, Some(Sep::WithSep)).to_text());
    assert_eq!("IEC(NoSep)", ReprCount::new(Some(System::IEC), Some(Sep::NoSep)).to_text());
}

#[test]
fn compare_display_rejects_other_texts() {
    let h: HumanCountData = 1025u16.human_count_bytes();
    assert!(human_repr::compare_display("1kB", &h));
    assert!(!human_repr::compare_display("1.0kB", &h));
    assert!(!human_repr::compare_display("1k", &h));
    assert!(!human_repr::compare_display("", &h));
}
