use human_repr::compare_display;
use human_repr::Dec;
use human_repr::HumanCount;
use human_repr::HumanCountData;

fn count_with_f64(v: f64, unit: &str) -> HumanCountData {
    HumanCountData { val: Dec::parse(&format!("{}", v)).unwrap(), unit: unit.to_string(), repr: None }
}

fn count_bytes_f64(v: f64) -> HumanCountData {
    count_with_f64(v, "B")
}

fn precise(h: &HumanCountData) -> String {
    h.to_text(true)
}

#[test]
fn mod_operation() {
    assert!(compare_display("123kB", &123000_u64.human_count_bytes()));
    assert!(compare_display("123.5kB", &123456_u64.human_count_bytes()));
    assert!(compare_display("1kB", &count_bytes_f64(999.96)));
    assert!(compare_display("23B", &23u8.human_count_bytes()));
    assert!(compare_display("23B", &23i8.human_count_bytes()));
    assert!(compare_display("23.5B", &count_bytes_f64(23.5123)));
    assert!(compare_display("-23B", &(-23i8).human_count_bytes()));
    assert!(compare_display("1kB", &1025u16.human_count_bytes()));
    assert!(compare_display("-1kB", &(-1025i16).human_count_bytes()));
    assert!(compare_display("43.2MB", &43214321u32.human_count_bytes()));
    assert!(compare_display("23.4GB", &23403454432_u64.human_count_bytes()));
    assert!(compare_display("0.2B", &count_bytes_f64(0.23403454432)));
    assert!(compare_display("23.43GB", &23433454432_u64.human_count_bytes()));
    assert!(compare_display("18.45EB", &u64::MAX.human_count_bytes()));
    assert!(compare_display("9.22EB", &i64::MAX.human_count_bytes()));
    assert!(compare_display("-9.22EB", &i64::MIN.human_count_bytes()));
    assert!(compare_display("1RB", &count_bytes_f64(999.999e24)));
    assert!(compare_display("1.12RB", &count_bytes_f64(1.123456e27)));
    assert!(compare_display("1.12QB", &count_bytes_f64(1.123456e30)));
    assert!(compare_display("1123.46QB", &count_bytes_f64(1.123456e33)));
}

#[test]
fn mod_precision() {
    assert_eq!("123kB", precise(&123000_u64.human_count_bytes()));
    assert_eq!("123.456kB", precise(&123456_u64.human_count_bytes()));
    assert_eq!("23.5123B", precise(&count_bytes_f64(23.5123)));
    assert_eq!("-23B", precise(&(-23i8).human_count_bytes()));
    assert_eq!("1.025kB", precise(&1025u16.human_count_bytes()));
    assert_eq!("0.23403454432B", precise(&count_bytes_f64(0.23403454432)));
    assert_eq!("23GB", precise(&count_bytes_f64(23e9)));
    assert_eq!("23.000000001GB", precise(&count_bytes_f64(23e9 + 1.)));
    assert_eq!("0.999999999999RB", precise(&count_bytes_f64(999.999999999e24)));
    assert_eq!("1.123456RB", precise(&count_bytes_f64(1.123456e27)));
}

#[test]
fn flexibility() {
    assert!(compare_display("123MCrabs", &count_with_f64(123e6, "Crabs")));
    assert!(compare_display("123k🦀", &count_with_f64(123e3, "🦀")));
    assert!(compare_display("12.3k°C", &count_with_f64(123e2, "°C")));
}

#[test]
fn ownership() {
    let mut a = 42000;
    assert!(compare_display("42kB", &a.human_count_bytes()));
    assert!(compare_display("42kB", &(&a).human_count_bytes()));
    assert!(compare_display("42kB", &(&mut a).human_count_bytes()));
}

#[test]
fn symmetric() {
    assert_eq!(123000_u64.human_count_bytes().to_text(false), "123kB");
}

#[test]
fn eq() {
    let c1 = count_with_f64(0.23403454432, "");
    assert!(compare_display("0.2", &c1));
    let c2 = count_with_f64(0.234034, "");
    assert!(compare_display("0.2", &c2)); // same repr.
    assert_ne!(c1, c2); // but different.

    let c3 = count_bytes_f64(0.234034); // same value.
    assert!(compare_display("0.2B", &c3)); // different unit.
    assert_ne!(c2, c3); // also different.
}
