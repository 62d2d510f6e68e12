//! Human-friendly counts: the data object and the trait that numeric
//! types use to reach the renderer.

use crate::decimal::Dec;
use crate::decimal::DecView;
use crate::metric_prefix::large_repr;
use crate::metric_prefix::spec_render;
use crate::metric_prefix::sys_or_default;
use crate::metric_prefix::System;
use crate::repr::Sep;
use crate::Sealed;
use vstd::prelude::*;
use vstd::string::StringExecFns;

verus! {

/// Representation options for a human count.
#[derive(Debug, Copy, Clone)]
pub struct ReprCount {
    pub sys: Option<System>,
    pub sep: Option<Sep>,
}

impl ReprCount {
    /// Options from an optional system and an optional separator.
    pub fn new(system: Option<System>, sep: Option<Sep>) -> (r: ReprCount)
        ensures
            r.sys == system,
            r.sep == sep,
    {
        ReprCount { sys: system, sep }
    }
}

impl ReprCount {
    /// The characters these options describe themselves with: the system's
    /// name, the separator's name in parentheses after it, either alone,
    /// or nothing when both are absent.
    pub open spec fn text_chars(self) -> Seq<char> {
        match (self.sys, self.sep) {
            (Some(system), None) => system.name_chars(),
            (Some(system), Some(sep)) => system.name_chars() + seq!['('] + sep.name_chars()
                + seq![')'],
            (None, Some(sep)) => sep.name_chars(),
            (None, None) => Seq::<char>::empty(),
        }
    }

    /// Describe these options as text.
    pub fn to_text(&self) -> (r: String)
        ensures
            r@ == self.text_chars(),
    {
        let mut r = String::new();
        proof {
            reveal_strlit("(");
            reveal_strlit(")");
        }
        match (self.sys, self.sep) {
            (Some(system), None) => { r.append(system.name()) },
            (Some(system), Some(sep)) => {
                r.append(system.name());
                r.append("(");
                r.append(sep.name());
                r.append(")");
            },
            (None, Some(sep)) => { r.append(sep.name()) },
            (None, None) => {},
        }
        proof {
            assert(r@ =~= self.text_chars());
        }
        r
    }
}

impl Default for ReprCount {
    fn default() -> (r: Self)
        ensures
            r.sys is None,
            r.sep is None,
    {
        ReprCount { sys: None, sep: None }
    }
}

impl From<Sep> for ReprCount {
    fn from(sep: Sep) -> (r: Self) {
        ReprCount { sys: None, sep: Some(sep) }
    }
}

impl vstd::std_specs::convert::FromSpecImpl<Sep> for ReprCount {
    open spec fn obeys_from_spec() -> bool {
        true
    }

    open spec fn from_spec(sep: Sep) -> Self {
        ReprCount { sys: None, sep: Some(sep) }
    }
}

impl From<System> for Option<ReprCount> {
    fn from(system: System) -> (r: Self) {
        Some(ReprCount { sys: Some(system), sep: None })
    }
}

impl vstd::std_specs::convert::FromSpecImpl<System> for Option<ReprCount> {
    open spec fn obeys_from_spec() -> bool {
        true
    }

    open spec fn from_spec(system: System) -> Self {
        Some(ReprCount { sys: Some(system), sep: None })
    }
}

/// The human count data object, ready to render its text.
#[derive(Debug)]
pub struct HumanCountData {
    pub val: Dec,
    pub unit: String,
    pub repr: Option<ReprCount>,
}

impl HumanCountData {
    /// The magnitude is fit to feed the renderer.
    pub open spec fn wf(&self) -> bool {
        self.val.wf() && self.val.room() >= 132
    }

    /// The options this value renders under: explicit ones, or the
    /// defaults (SI system, no separator).
    pub open spec fn options(&self) -> (Option<System>, Sep) {
        let rc = match self.repr {
            Some(r) => r,
            None => ReprCount { sys: None, sep: None },
        };
        let sep = match rc.sep {
            Some(s) => s,
            None => Sep::NoSep,
        };
        (rc.sys, sep)
    }

    /// The characters of the default (rounded) rendering.
    pub open spec fn display_chars(&self) -> Seq<char> {
        spec_render(
            self.val@,
            self.unit@,
            sys_or_default(self.options().0),
            self.options().1,
            false,
        )
    }

    /// The characters of the alternate (full precision) rendering.
    pub open spec fn display_chars_alternate(&self) -> Seq<char> {
        spec_render(
            self.val@,
            self.unit@,
            sys_or_default(self.options().0),
            self.options().1,
            true,
        )
    }

    /// Render the text; `alternate` selects full precision.
    pub fn to_text(&self, alternate: bool) -> (r: String)
        requires
            self.wf(),
        ensures
            r@ == if alternate {
                self.display_chars_alternate()
            } else {
                self.display_chars()
            },
    {
        let rc = match self.repr {
            Some(r) => r,
            None => ReprCount { sys: None, sep: None },
        };
        let sep = match rc.sep {
            Some(s) => s,
            None => Sep::NoSep,
        };
        large_repr(&self.val, self.unit.as_str(), rc.sys, sep, alternate)
    }
}

impl PartialEq for HumanCountData {
    fn eq(&self, other: &Self) -> (r: bool) {
        self.val.same_rep(&other.val) && crate::utils::str_eq_chars(
            self.unit.as_str(),
            other.unit.as_str(),
        ) && repr_opt_eq(&self.repr, &other.repr)
    }
}

impl vstd::std_specs::cmp::PartialEqSpecImpl for HumanCountData {
    open spec fn obeys_eq_spec() -> bool {
        true
    }

    open spec fn eq_spec(&self, other: &Self) -> bool {
        self.val.rep_eq(other.val) && self.unit@ == other.unit@ && self.repr == other.repr
    }
}

/// Structural equality of optional representation options.
fn repr_opt_eq(a: &Option<ReprCount>, b: &Option<ReprCount>) -> (r: bool)
    ensures
        r == (a == b),
{
    match (a, b) {
        (Option::None, Option::None) => true,
        (Option::Some(x), Option::Some(y)) => {
            let sys_same = match (x.sys, y.sys) {
                (Option::None, Option::None) => true,
                (Option::Some(System::SI), Option::Some(System::SI)) => true,
                (Option::Some(System::SI2), Option::Some(System::SI2)) => true,
                (Option::Some(System::IEC), Option::Some(System::IEC)) => true,
                _ => false,
            };
            let sep_same = match (x.sep, y.sep) {
                (Option::None, Option::None) => true,
                (Option::Some(Sep::WithSep), Option::Some(Sep::WithSep)) => true,
                (Option::Some(Sep::NoSep), Option::Some(Sep::NoSep)) => true,
                _ => false,
            };
            sys_same && sep_same
        },
        _ => false,
    }
}

/// Generate beautiful human-friendly counts.
pub trait HumanCount: Sealed + Sized {
    /// The exact magnitude this number stands for.
    spec fn magnitude(self) -> DecView;

    /// A human-friendly count with automatic prefixes, a custom unit and
    /// custom representation options.
    fn human_count_with(self, unit: &str, repr: Option<ReprCount>) -> (r: HumanCountData)
        ensures
            r.wf(),
            r.val@ == self.magnitude(),
            r.unit@ == unit@,
            r.repr == repr,
    ;

    /// A human-friendly count with automatic prefixes.
    fn human_count(self) -> (r: HumanCountData)
        ensures
            r.wf(),
            r.val@ == self.magnitude(),
            r.unit@.len() == 0,
            r.repr is None,
    {
        proof {
            reveal_strlit("");
        }
        self.human_count_with("", None)
    }

    /// A human-friendly count with automatic prefixes and `"B"` (bytes)
    /// unit.
    fn human_count_bytes(self) -> (r: HumanCountData)
        ensures
            r.wf(),
            r.val@ == self.magnitude(),
            r.unit@ == "B"@,
            r.repr is None,
    {
        self.human_count_of("B")
    }

    /// A human-friendly count with automatic prefixes and a custom unit.
    fn human_count_of(self, unit: &str) -> (r: HumanCountData)
        ensures
            r.wf(),
            r.val@ == self.magnitude(),
            r.unit@ == unit@,
            r.repr is None,
    {
        self.human_count_with(unit, None)
    }
}

impl HumanCount for u8 {
    open spec fn magnitude(self) -> DecView {
        DecView { neg: false, n: self as nat, s: 0 }
    }

    fn human_count_with(self, unit: &str, repr: Option<ReprCount>) -> (r: HumanCountData) {
        HumanCountData { val: Dec::from_u64(self as u64), unit: String::from_str(unit), repr }
    }
}

impl HumanCount for u16 {
    open spec fn magnitude(self) -> DecView {
        DecView { neg: false, n: self as nat, s: 0 }
    }

    fn human_count_with(self, unit: &str, repr: Option<ReprCount>) -> (r: HumanCountData) {
        HumanCountData { val: Dec::from_u64(self as u64), unit: String::from_str(unit), repr }
    }
}

impl HumanCount for u32 {
    open spec fn magnitude(self) -> DecView {
        DecView { neg: false, n: self as nat, s: 0 }
    }

    fn human_count_with(self, unit: &str, repr: Option<ReprCount>) -> (r: HumanCountData) {
        HumanCountData { val: Dec::from_u64(self as u64), unit: String::from_str(unit), repr }
    }
}

impl HumanCount for u64 {
    open spec fn magnitude(self) -> DecView {
        DecView { neg: false, n: self as nat, s: 0 }
    }

    fn human_count_with(self, unit: &str, repr: Option<ReprCount>) -> (r: HumanCountData) {
        HumanCountData { val: Dec::from_u64(self), unit: String::from_str(unit), repr }
    }
}

impl HumanCount for u128 {
    open spec fn magnitude(self) -> DecView {
        DecView { neg: false, n: self as nat, s: 0 }
    }

    fn human_count_with(self, unit: &str, repr: Option<ReprCount>) -> (r: HumanCountData) {
        HumanCountData { val: Dec::from_u128(self), unit: String::from_str(unit), repr }
    }
}

impl HumanCount for usize {
    open spec fn magnitude(self) -> DecView {
        DecView { neg: false, n: self as nat, s: 0 }
    }

    fn human_count_with(self, unit: &str, repr: Option<ReprCount>) -> (r: HumanCountData) {
        HumanCountData { val: Dec::from_u64(self as u64), unit: String::from_str(unit), repr }
    }
}

impl HumanCount for i8 {
    open spec fn magnitude(self) -> DecView {
        DecView {
            neg: self < 0,
            n: (if self < 0 {
                -(self as int)
            } else {
                self as int
            }) as nat,
            s: 0,
        }
    }

    fn human_count_with(self, unit: &str, repr: Option<ReprCount>) -> (r: HumanCountData) {
        let val = signed_magnitude(self as i64);
        HumanCountData { val, unit: String::from_str(unit), repr }
    }
}

impl HumanCount for i16 {
    open spec fn magnitude(self) -> DecView {
        DecView {
            neg: self < 0,
            n: (if self < 0 {
                -(self as int)
            } else {
                self as int
            }) as nat,
            s: 0,
        }
    }

    fn human_count_with(self, unit: &str, repr: Option<ReprCount>) -> (r: HumanCountData) {
        let val = signed_magnitude(self as i64);
        HumanCountData { val, unit: String::from_str(unit), repr }
    }
}

impl HumanCount for i32 {
    open spec fn magnitude(self) -> DecView {
        DecView {
            neg: self < 0,
            n: (if self < 0 {
                -(self as int)
            } else {
                self as int
            }) as nat,
            s: 0,
        }
    }

    fn human_count_with(self, unit: &str, repr: Option<ReprCount>) -> (r: HumanCountData) {
        let val = signed_magnitude(self as i64);
        HumanCountData { val, unit: String::from_str(unit), repr }
    }
}

impl HumanCount for i64 {
    open spec fn magnitude(self) -> DecView {
        DecView {
            neg: self < 0,
            n: (if self < 0 {
                -(self as int)
            } else {
                self as int
            }) as nat,
            s: 0,
        }
    }

    fn human_count_with(self, unit: &str, repr: Option<ReprCount>) -> (r: HumanCountData) {
        let val = signed_magnitude(self);
        HumanCountData { val, unit: String::from_str(unit), repr }
    }
}

impl HumanCount for i128 {
    open spec fn magnitude(self) -> DecView {
        DecView {
            neg: self < 0,
            n: (if self < 0 {
                -(self as int)
            } else {
                self as int
            }) as nat,
            s: 0,
        }
    }

    fn human_count_with(self, unit: &str, repr: Option<ReprCount>) -> (r: HumanCountData) {
        let val = signed_magnitude_wide(self);
        HumanCountData { val, unit: String::from_str(unit), repr }
    }
}

impl HumanCount for isize {
    open spec fn magnitude(self) -> DecView {
        DecView {
            neg: self < 0,
            n: (if self < 0 {
                -(self as int)
            } else {
                self as int
            }) as nat,
            s: 0,
        }
    }

    fn human_count_with(self, unit: &str, repr: Option<ReprCount>) -> (r: HumanCountData) {
        let val = signed_magnitude(self as i64);
        HumanCountData { val, unit: String::from_str(unit), repr }
    }
}

/// The exact magnitude of a wide signed integer, sign split off.
fn signed_magnitude_wide(v: i128) -> (r: Dec)
    ensures
        r.wf(),
        r.room() >= 132,
        r@ == (DecView {
            neg: v < 0,
            n: (if v < 0 {
                -(v as int)
            } else {
                v as int
            }) as nat,
            s: 0,
        }),
{
    if v >= 0 {
        Dec::from_u128(v as u128)
    } else if v == i128::MIN {
        Dec::from_u128(170141183460469231731687303715884105728u128).with_neg(true)
    } else {
        Dec::from_u128((-v) as u128).with_neg(true)
    }
}

/// The exact magnitude of a signed integer, sign split off.
fn signed_magnitude(v: i64) -> (r: Dec)
    ensures
        r.wf(),
        r.room() >= 132,
        r@ == (DecView {
            neg: v < 0,
            n: (if v < 0 {
                -(v as int)
            } else {
                v as int
            }) as nat,
            s: 0,
        }),
{
    if v >= 0 {
        Dec::from_u64(v as u64)
    } else if v == i64::MIN {
        Dec::from_u64(9223372036854775808u64).with_neg(true)
    } else {
        Dec::from_u64((-v) as u64).with_neg(true)
    }
}

} // verus!
