use human_repr::large_repr;
use human_repr::Dec;
use human_repr::Sep;
use human_repr::System;

fn base(v: f64, unit: &str, sys: System, sep: Sep, alternate: bool) -> String {
    let d = Dec::parse(&format!("{}", v)).unwrap();
    large_repr(&d, unit, Some(sys), sep, alternate)
}

fn case(v: f64) -> String {
    base(v, "", System::SI, Sep::NoSep, false)
}

fn case_precise(v: f64) -> String {
    base(v, "", System::SI, Sep::NoSep, true)
}

#[test]
fn metric_prefix_operation() {
    assert_eq!("123k", case(123000_u64 as f64));
    assert_eq!("123.5k", case(123456_u64 as f64));
    assert_eq!("1k", case(999.96));
    assert_eq!("23", case(23u8 as f64));
    assert_eq!("23", case(23i8 as f64));
    assert_eq!("23.5", case(23.5123));
    assert_eq!("-23", case(-23i8 as f64));
    assert_eq!("1k", case(1025u16 as f64));
    assert_eq!("-1k", case(-1025i16 as f64));
    assert_eq!("43.2M", case(43214321u32 as f64));
    assert_eq!("23.4G", case(23403454432_u64 as f64));
    assert_eq!("0.2", case(0.23403454432));
    assert_eq!("23.43G", case(23433454432_u64 as f64));
    assert_eq!("18.45E", case(u64::MAX as f64));
    assert_eq!("9.22E", case(i64::MAX as f64));
    assert_eq!("-9.22E", case(i64::MIN as f64));
    assert_eq!("1R", case(999.999e24));
    assert_eq!("1.12R", case(1.123456e27));
    assert_eq!("1.12Q", case(1.123456e30));
    assert_eq!("1123.46Q", case(1.123456e33));
}

#[test]
fn metric_prefix_precision() {
    assert_eq!("123k", case_precise(123000_u64 as f64));
    assert_eq!("123.456k", case_precise(123456_u64 as f64));
    assert_eq!("23.5123", case_precise(23.5123));
    assert_eq!("-23", case_precise(-23i8 as f64));
    assert_eq!("1.025k", case_precise(1025u16 as f64));
    assert_eq!("0.23403454432", case_precise(0.23403454432));
    assert_eq!("23G", case_precise(23e9));
    assert_eq!("23.000000001G", case_precise(23e9 + 1.));
    assert_eq!("0.999999999999R", case_precise(999.999999999e24));
    assert_eq!("1.123456R", case_precise(1.123456e27));
}

#[test]
fn units() {
    let u = |v: f64, unit: &str| base(v, unit, System::SI, Sep::NoSep, false);
    assert_eq!("123", u(123.0, ""));
    assert_eq!("123Crabs", u(123.0, "Crabs"));
    assert_eq!("123🦀", u(123.0, "🦀"));
    assert_eq!("123°C", u(123.0, "°C"));

    assert_eq!("123.5", u(123.5, ""));
    assert_eq!("123.5Crabs", u(123.5, "Crabs"));
    assert_eq!("123.5🦀", u(123.5, "🦀"));
    assert_eq!("123.5°C", u(123.5, "°C"));

    assert_eq!("123k", u(123e3, ""));
    assert_eq!("123kCrabs", u(123e3, "Crabs"));
    assert_eq!("123k🦀", u(123e3, "🦀"));
    assert_eq!("123k°C", u(123e3, "°C"));

    assert_eq!("123.5M", u(123.5e6, ""));
    assert_eq!("123.5MCrabs", u(123.5e6, "Crabs"));
    assert_eq!("123.5M🦀", u(123.5e6, "🦀"));
    assert_eq!("123.5M°C", u(123.5e6, "°C"));
}

#[test]
fn separators() {
    let u = |v: f64, unit: &str| base(v, unit, System::SI, Sep::WithSep, false);
    assert_eq!("123", u(123.0, ""));
    assert_eq!("123 Crabs", u(123.0, "Crabs"));
    assert_eq!("123 🦀", u(123.0, "🦀"));
    assert_eq!("123 °C", u(123.0, "°C"));

    assert_eq!("123.5", u(123.5, ""));
    assert_eq!("123.5 Crabs", u(123.5, "Crabs"));
    assert_eq!("123.5 🦀", u(123.5, "🦀"));
    assert_eq!("123.5 °C", u(123.5, "°C"));

    assert_eq!("123 k", u(123e3, ""));
    assert_eq!("123 kCrabs", u(123e3, "Crabs"));
    assert_eq!("123 k🦀", u(123e3, "🦀"));
    assert_eq!("123 k°C", u(123e3, "°C"));

    assert_eq!("123.5 M", u(123.5e6, ""));
    assert_eq!("123.5 MCrabs", u(123.5e6, "Crabs"));
    assert_eq!("123.5 M🦀", u(123.5e6, "🦀"));
    assert_eq!("123.5 M°C", u(123.5e6, "°C"));
}

#[test]
fn systems() {
    let u = |v: f64, sys: System| base(v, "", sys, Sep::NoSep, false);
    assert_eq!("1Ki", u(1024.0, System::IEC));
    assert_eq!("1Mi", u(1048576.0, System::IEC));
    assert_eq!("1Gi", u(1073741824.0, System::IEC));
    assert_eq!("1Ti", u(1099511627776u64 as f64, System::IEC));
    assert_eq!("1Pi", u(1125899906842624u64 as f64, System::IEC));
    assert_eq!("1Ei", u(1152921504606846976u64 as f64, System::IEC));

    assert_eq!("1k", u(1024.0, System::SI));
    assert_eq!("1M", u(1048576.0, System::SI));
    assert_eq!("1.07G", u(1073741824.0, System::SI));
    assert_eq!("1.1T", u(1099511627776u64 as f64, System::SI));
    assert_eq!("1.13P", u(1125899906842624u64 as f64, System::SI));
    assert_eq!("1.15E", u(1152921504606846976u64 as f64, System::SI));
}
