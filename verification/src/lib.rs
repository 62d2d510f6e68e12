//! Human-readable metric-prefix formatting for numeric magnitudes.
//!
//! A magnitude is held as an exact decimal (`Dec`); the tiered renderer
//! walks the prefix ladder of the chosen `System`, rounds with carry
//! across tier boundaries, and produces strings such as `"4.2M"` or
//! `"1Ki"`.
#![allow(unused_imports)]

use vstd::prelude::*;

mod decimal;
mod human_count;
mod metric_prefix;
mod repr;
mod utils;

pub use decimal::Dec;
pub use decimal::DecView;
pub use human_count::HumanCount;
pub use human_count::HumanCountData;
pub use human_count::ReprCount;
pub use metric_prefix::large_repr;
pub use metric_prefix::small_repr;
pub use metric_prefix::System;
pub use repr::Sep;
pub use utils::compare_display;
pub use utils::decimals;
pub use utils::rounded;
pub use utils::HeapLessCompare;

verus! {

/// Marker trait bounding the numeric types that can feed a count.
pub trait Sealed {}

impl Sealed for u8 {}

impl Sealed for u16 {}

impl Sealed for u32 {}

impl Sealed for u64 {}

impl Sealed for u128 {}

impl Sealed for usize {}

impl Sealed for i8 {}

impl Sealed for i16 {}

impl Sealed for i32 {}

impl Sealed for i64 {}

impl Sealed for i128 {}

impl Sealed for isize {}

} // verus!
