//! Metric-prefix tier selection and rendering.
//!
//! The renderer walks the prefix ladder from the bottom: at each tier it
//! rounds the remaining magnitude to that tier's decimal count and, if the
//! rounded magnitude still reaches the divisor and a higher tier exists,
//! carries into the next tier by dividing the exact value by the divisor.
//! The mantissa is then written rounded (with the fewest decimals needed)
//! or, in alternate mode, with its full remaining precision.

use crate::decimal::mantissa_chars;
use crate::decimal::pow10;
use crate::decimal::round_nat;
use crate::decimal::Dec;
use crate::decimal::DecView;
use crate::decimal::lemma_pow10_adds;
use crate::decimal::lemma_pow10_pos;
use crate::repr::Sep;
use vstd::arithmetic::div_mod::*;
use vstd::prelude::*;
use vstd::string::StringExecFns;

verus! {

/// The system used to represent prefixes.
#[derive(Debug, Copy, Clone, PartialEq, Eq, Structural)]
pub enum System {
    /// SI system (1000 divisor).
    SI,
    /// SI system with binary prefix (1024 divisor).
    SI2,
    /// IEC system (1024 divisor).
    IEC,
}

impl System {
    /// The characters of this system's name.
    pub open spec fn name_chars(self) -> Seq<char> {
        match self {
            System::SI => seq!['S', 'I'],
            System::SI2 => seq!['S', 'I', '2'],
            System::IEC => seq!['I', 'E', 'C'],
        }
    }

    /// This system's name.
    pub fn name(&self) -> (r: &'static str)
        ensures
            r@ == self.name_chars(),
    {
        let r: &'static str = match self {
            System::SI => "SI",
            System::SI2 => "SI2",
            System::IEC => "IEC",
        };
        proof {
            reveal_strlit("SI");
            reveal_strlit("SI2");
            reveal_strlit("IEC");
            assert(r@ =~= self.name_chars());
        }
        r
    }
}

/// The magnitude ratio between adjacent tiers.
pub open spec fn divisor(sys: System) -> nat {
    match sys {
        System::SI => 1000,
        System::SI2 => 1024,
        System::IEC => 1024,
    }
}

/// Dividing by the divisor is multiplying the digits by this factor and
/// raising the scale by `divisor_shift`: `divisor * divisor_mul` is
/// exactly `10^divisor_shift`.
pub open spec fn divisor_mul(sys: System) -> nat {
    match sys {
        System::SI => 1,
        System::SI2 => 9765625,
        System::IEC => 9765625,
    }
}

/// The power of ten matching `divisor * divisor_mul`.
pub open spec fn divisor_shift(sys: System) -> nat {
    match sys {
        System::SI => 3,
        System::SI2 => 10,
        System::IEC => 10,
    }
}

/// The decimal places a tier rounds to: one for the lowest three tiers,
/// two above them.
pub open spec fn dec_at(t: nat) -> nat {
    if t <= 2 {
        1
    } else {
        2
    }
}

/// Whether the magnitude, rounded at tier `t`, still reaches the divisor.
pub open spec fn overflows(n: nat, s: nat, sys: System, t: nat) -> bool {
    let r = round_nat(n, s, dec_at(t));
    r.0 >= divisor(sys) * pow10(r.1)
}

/// Walk the tiers from `t` upward: the result is the selected tier
/// together with the exact remaining magnitude there.  The walk stops at
/// the first tier whose rounded magnitude is below the divisor, or at the
/// highest tier.
pub open spec fn walk(n: nat, s: nat, sys: System, t: nat) -> (nat, nat, nat)
    decreases 10 - t,
{
    if t < 10 && overflows(n, s, sys, t) {
        walk(n * divisor_mul(sys), s + divisor_shift(sys), sys, t + 1)
    } else {
        (t, n, s)
    }
}

/// The base letter of a tier's prefix, as the SI system writes it.
pub open spec fn si_letter(t: nat) -> char {
    if t == 1 {
        'k'
    } else if t == 2 {
        'M'
    } else if t == 3 {
        'G'
    } else if t == 4 {
        'T'
    } else if t == 5 {
        'P'
    } else if t == 6 {
        'E'
    } else if t == 7 {
        'Z'
    } else if t == 8 {
        'Y'
    } else if t == 9 {
        'R'
    } else {
        'Q'
    }
}

/// The prefix text of a tier under a system.  Tier zero has no prefix;
/// the binary-SI system capitalises `k`; the IEC system appends `i`.
pub open spec fn prefix_chars(sys: System, t: nat) -> Seq<char> {
    if t == 0 {
        Seq::<char>::empty()
    } else {
        match sys {
            System::SI => seq![si_letter(t)],
            System::SI2 => if t == 1 {
                seq!['K']
            } else {
                seq![si_letter(t)]
            },
            System::IEC => if t == 1 {
                seq!['K', 'i']
            } else {
                seq![si_letter(t), 'i']
            },
        }
    }
}

/// The system an explicit request resolves to; absent a request, SI.
pub open spec fn sys_or_default(sys: Option<System>) -> System {
    match sys {
        Some(s) => s,
        None => System::SI,
    }
}

/// The full rendered text of a magnitude: the mantissa at the selected
/// tier (rounded, or exact in alternate mode), then, unless both the
/// prefix and the unit are empty, the separator, the prefix and the unit.
pub open spec fn spec_render(
    v: DecView,
    unit: Seq<char>,
    sys: System,
    sep: Sep,
    alternate: bool,
) -> Seq<char> {
    let w = walk(v.n, v.s, sys, 0);
    let mant = if alternate {
        mantissa_chars(v.neg, w.1, w.2)
    } else {
        let r = round_nat(w.1, w.2, dec_at(w.0));
        mantissa_chars(v.neg, r.0, r.1)
    };
    let prefix = prefix_chars(sys, w.0);
    if prefix.len() > 0 || unit.len() > 0 {
        mant + sep.chars() + prefix + unit
    } else {
        mant
    }
}

/// The prefix text of a tier under a system.
pub(crate) fn prefix_str(sys: System, t: usize) -> (r: &'static str)
    requires
        t <= 10,
    ensures
        r@ == prefix_chars(sys, t as nat),
{
    let r: &'static str = match sys {
        System::SI => match t {
            0 => "",
            1 => "k",
            2 => "M",
            3 => "G",
            4 => "T",
            5 => "P",
            6 => "E",
            7 => "Z",
            8 => "Y",
            9 => "R",
            _ => "Q",
        },
        System::SI2 => match t {
            0 => "",
            1 => "K",
            2 => "M",
            3 => "G",
            4 => "T",
            5 => "P",
            6 => "E",
            7 => "Z",
            8 => "Y",
            9 => "R",
            _ => "Q",
        },
        System::IEC => match t {
            0 => "",
            1 => "Ki",
            2 => "Mi",
            3 => "Gi",
            4 => "Ti",
            5 => "Pi",
            6 => "Ei",
            7 => "Zi",
            8 => "Yi",
            9 => "Ri",
            _ => "Qi",
        },
    };
    proof {
        reveal_strlit("");
        reveal_strlit("k");
        reveal_strlit("K");
        reveal_strlit("M");
        reveal_strlit("G");
        reveal_strlit("T");
        reveal_strlit("P");
        reveal_strlit("E");
        reveal_strlit("Z");
        reveal_strlit("Y");
        reveal_strlit("R");
        reveal_strlit("Q");
        reveal_strlit("Ki");
        reveal_strlit("Mi");
        reveal_strlit("Gi");
        reveal_strlit("Ti");
        reveal_strlit("Pi");
        reveal_strlit("Ei");
        reveal_strlit("Zi");
        reveal_strlit("Yi");
        reveal_strlit("Ri");
        reveal_strlit("Qi");
        assert(r@ =~= prefix_chars(sys, t as nat));
    }
    r
}

/// Human metric prefix representation for large values.
///
/// The magnitude walks the prefix tiers of the chosen system; the text is
/// the mantissa at the selected tier followed by separator, prefix and
/// unit where a prefix or unit exists.
pub fn large_repr(val: &Dec, unit: &str, sys: Option<System>, sep: Sep, alternate: bool) -> (r:
    String)
    requires
        val.wf(),
        val.room() >= 132,
    ensures
        r@ == spec_render(val@, unit@, sys_or_default(sys), sep, alternate),
{
    let system = match sys {
        Some(s) => s,
        None => System::SI,
    };
    let (mut text, t) = render_mantissa_tier(val, system, alternate);
    let prefix = prefix_str(system, t);
    if !prefix.is_empty() || !unit.is_empty() {
        text.append(sep.resolve());
        text.append(prefix);
        text.append(unit);
    }
    proof {
        assert(text@ =~= spec_render(val@, unit@, system, sep, alternate));
    }
    text
}

/// The mantissa text at the selected tier, and that tier: the pieces the
/// full rendering and the streaming comparison assemble.
pub(crate) fn render_mantissa_tier(val: &Dec, system: System, alternate: bool) -> (r: (
    String,
    usize,
))
    requires
        val.wf(),
        val.room() >= 132,
    ensures
        r.1 <= 10,
        r.1 as nat == walk(val@.n, val@.s, system, 0).0,
        r.0@ == ({
            let w = walk(val@.n, val@.s, system, 0);
            if alternate {
                mantissa_chars(val@.neg, w.1, w.2)
            } else {
                mantissa_chars(
                    val@.neg,
                    round_nat(w.1, w.2, dec_at(w.0)).0,
                    round_nat(w.1, w.2, dec_at(w.0)).1,
                )
            }
        }),
{
    let mul: u64 = match system {
        System::SI => 1,
        _ => 9765625,
    };
    let shift: usize = match system {
        System::SI => 3,
        _ => 10,
    };
    let div: u64 = match system {
        System::SI => 1000,
        _ => 1024,
    };
    let mut cur = val.dup();
    let mut t: usize = 0;
    loop
        invariant
            cur.wf(),
            cur@.neg == val@.neg,
            t <= 10,
            cur.room() >= 12 * (11 - t),
            mul == divisor_mul(system),
            shift == divisor_shift(system),
            div == divisor(system),
            walk(val@.n, val@.s, system, 0) == walk(cur@.n, cur@.s, system, t as nat),
        decreases 10 - t,
    {
        let dec: usize = if t <= 2 {
            1
        } else {
            2
        };
        let rounded = cur.round_to(dec);
        let over = t < 10 && rounded.magnitude_reaches(div);
        proof {
            assert(over == (t < 10 && overflows(cur@.n, cur@.s, system, t as nat)));
        }
        if over {
            cur = cur.div_step(mul, shift);
            t = t + 1;
        } else {
            let text = if alternate {
                cur.mantissa_text()
            } else {
                rounded.mantissa_text()
            };
            proof {
                assert(walk(cur@.n, cur@.s, system, t as nat) == (t as nat, cur@.n, cur@.s));
            }
            return (text, t);
        }
    }
}

/// Determinism: the rendered text is a function of the magnitude, unit,
/// system, separator and precision mode alone, so two renderings of the
/// same inputs are the same text.
pub proof fn lemma_render_deterministic(
    v: DecView,
    unit: Seq<char>,
    sys: System,
    sep: Sep,
    alternate: bool,
    r1: Seq<char>,
    r2: Seq<char>,
)
    requires
        r1 == spec_render(v, unit, sys, sep, alternate),
        r2 == spec_render(v, unit, sys, sep, alternate),
    ensures
        r1 == r2,
{
}

/// Sign preservation: a negative magnitude renders as a minus sign
/// followed by the rendering of the same positive magnitude.
pub proof fn lemma_sign_preservation(
    v: DecView,
    unit: Seq<char>,
    sys: System,
    sep: Sep,
    alternate: bool,
)
    requires
        v.neg,
        v.n > 0,
    ensures
        spec_render(v, unit, sys, sep, alternate) == seq!['-'] + spec_render(
            DecView { neg: false, ..v },
            unit,
            sys,
            sep,
            alternate,
        ),
{
    let pos = DecView { neg: false, ..v };
    let w = walk(v.n, v.s, sys, 0);
    assert(walk(pos.n, pos.s, sys, 0) == w);
    let (mn, ms): (nat, nat) = if alternate {
        (w.1, w.2)
    } else {
        (round_nat(w.1, w.2, dec_at(w.0)).0, round_nat(w.1, w.2, dec_at(w.0)).1)
    };
    assert(mantissa_chars(true, mn, ms) =~= seq!['-'] + mantissa_chars(false, mn, ms));
    assert(spec_render(v, unit, sys, sep, alternate) =~= seq!['-'] + spec_render(
        pos,
        unit,
        sys,
        sep,
        alternate,
    ));
}

/// The walk never selects a tier below the one it starts from.
pub proof fn lemma_walk_tier_ge(n: nat, s: nat, sys: System, t: nat)
    ensures
        walk(n, s, sys, t).0 >= t,
    decreases 10 - t,
{
    if t < 10 && overflows(n, s, sys, t) {
        lemma_walk_tier_ge(n * divisor_mul(sys), s + divisor_shift(sys), sys, t + 1);
    }
}

/// No dangling separator: a magnitude that stays in the bottom tier,
/// rendered without a unit, is the bare mantissa; no separator and no
/// prefix character follow it.
pub proof fn lemma_no_dangling_separator(v: DecView, sys: System, sep: Sep)
    requires
        walk(v.n, v.s, sys, 0).0 == 0,
    ensures
        spec_render(v, Seq::<char>::empty(), sys, sep, false) == mantissa_chars(
            v.neg,
            round_nat(v.n, v.s, 1).0,
            round_nat(v.n, v.s, 1).1,
        ),
{
    let w = walk(v.n, v.s, sys, 0);
    if overflows(v.n, v.s, sys, 0) {
        lemma_walk_tier_ge(v.n * divisor_mul(sys), v.s + divisor_shift(sys), sys, 1);
    }
    assert(w == (0nat, v.n, v.s));
}

/// Whether a magnitude lies in the decision window just below the
/// divisor, where rounding can push it over: `divisor - 1/20 <= n/10^s <
/// divisor`.  Inside this window the selected tier depends on the tier's
/// decimal count; outside it, only on whether the magnitude reaches the
/// divisor.
pub open spec fn near_divisor(n: nat, s: nat, sys: System) -> bool {
    20 * n >= (20 * divisor(sys) - 1) * pow10(s) && n < divisor(sys) * pow10(s)
}

/// Whether the walk from tier `t` stays clear of the decision window at
/// every tier it visits.
pub open spec fn clear_path(n: nat, s: nat, sys: System, t: nat) -> bool
    decreases 10 - t,
{
    &&& !near_divisor(n, s, sys)
    &&& (t < 10 && n >= divisor(sys) * pow10(s) ==> clear_path(
        n * divisor_mul(sys),
        s + divisor_shift(sys),
        sys,
        t + 1,
    ))
}

/// The divisor times its digit factor is the power of ten of its shift.
proof fn lemma_divisor_pow(sys: System)
    ensures
        divisor(sys) * divisor_mul(sys) == pow10(divisor_shift(sys)),
{
    reveal_with_fuel(pow10, 11);
}

/// Outside the decision window, a tier overflows exactly when the
/// magnitude reaches the divisor, whatever the tier's decimal count.
proof fn lemma_decision(n: nat, s: nat, sys: System, t: nat)
    requires
        !near_divisor(n, s, sys),
    ensures
        overflows(n, s, sys, t) == (n >= divisor(sys) * pow10(s)),
{
    let dec = dec_at(t);
    let div = divisor(sys);
    if s <= dec {
        lemma_pow10_adds((dec - s) as nat, s);
        if s < dec {
            assert(pow10(dec) == pow10((dec - s) as nat) * pow10(s));
            lemma_pow10_pos((dec - s) as nat);
            assert(div * pow10(dec) >= div * pow10(s)) by (nonlinear_arith)
                requires
                    pow10(dec) >= pow10(s),
                    div > 0,
            ;
        }
        // the rounded pair is the value itself, compared at its own scale
        assert(overflows(n, s, sys, t) == (n >= div * pow10(s)));
    } else {
        let p = pow10((s - dec) as nat);
        let h = 5 * pow10((s - dec - 1) as nat);
        let q = (n + h) / p;
        let dd = div * pow10(dec);
        lemma_pow10_pos((s - dec - 1) as nat);
        lemma_pow10_adds(dec, (s - dec) as nat);
        assert(pow10(s) == pow10(dec) * p);
        assert(p == 10 * pow10((s - dec - 1) as nat));
        assert(dd * p == div * pow10(s)) by (nonlinear_arith)
            requires
                dd == div * pow10(dec),
                pow10(s) == pow10(dec) * p,
        ;
        assert(overflows(n, s, sys, t) == (q >= dd));
        if n >= div * pow10(s) {
            assert(n + h >= dd * p);
            lemma_div_is_ordered(dd * p as int, (n + h) as int, p as int);
            lemma_div_by_multiple(dd as int, p as int);
            assert(q >= dd);
        } else {
            assert(20 * n < (20 * div - 1) * pow10(s));
            // twenty times the midpoint offset is one decimal step, at most
            // one twentieth of the scale
            assert(20 * h == 10 * p);
            assert(10 * p <= pow10(s)) by {
                lemma_pow10_adds((dec - 1) as nat, (s - dec + 1) as nat);
                lemma_pow10_pos((dec - 1) as nat);
                assert(pow10((s - dec + 1) as nat) == 10 * p);
                assert(pow10(s) == pow10((dec - 1) as nat) * (10 * p));
                assert(pow10((dec - 1) as nat) * (10 * p) >= 1 * (10 * p)) by (nonlinear_arith)
                    requires
                        pow10((dec - 1) as nat) >= 1,
                ;
            };
            assert((20 * div - 1) * pow10(s) + pow10(s) == 20 * div * pow10(s)) by (nonlinear_arith);
            assert(20 * (div * pow10(s)) == 20 * div * pow10(s)) by (nonlinear_arith);
            assert(20 * (n + h) < 20 * (div * pow10(s)));
            assert(n + h < dd * p);
            lemma_div_is_ordered((n + h) as int, (dd * p - 1) as int, p as int);
            lemma_div_by_multiple(dd as int, p as int);
            // the quotient of anything below dd*p stays below dd
            assert((dd * p - 1) / (p as int) <= dd - 1) by {
                lemma_fundamental_div_mod((dd * p - 1) as int, p as int);
                lemma_mod_bound((dd * p - 1) as int, p as int);
                let qq = (dd * p - 1) as int / (p as int);
                if qq >= dd {
                    assert(qq * p >= dd * p) by (nonlinear_arith)
                        requires
                            qq >= dd,
                            p >= 1,
                    ;
                }
            };
            assert(q < dd);
        }
    }
}

/// Both the decision window and the divisor comparison see only the
/// magnitude, not the scale it is written at.
proof fn lemma_shift_facts(n: nat, s: nat, j: nat, sys: System)
    ensures
        near_divisor(n * pow10(j), s + j, sys) == near_divisor(n, s, sys),
        (n * pow10(j) >= divisor(sys) * pow10(s + j)) == (n >= divisor(sys) * pow10(s)),
{
    let pj = pow10(j);
    lemma_pow10_pos(j);
    lemma_pow10_adds(s, j);
    assert(pow10(s + j) == pow10(s) * pj);
    let div = divisor(sys);
    assert((20 * (n * pj) >= (20 * div - 1) * (pow10(s) * pj)) == (20 * n >= (20 * div - 1)
        * pow10(s))) by (nonlinear_arith)
        requires
            pj >= 1,
    ;
    assert((n * pj < div * (pow10(s) * pj)) == (n < div * pow10(s))) by (nonlinear_arith)
        requires
            pj >= 1,
    ;
    assert((n * pj >= div * (pow10(s) * pj)) == (n >= div * pow10(s))) by (nonlinear_arith)
        requires
            pj >= 1,
    ;
}

/// The selected tier does not depend on the scale a clear magnitude is
/// written at.
proof fn lemma_walk_shift_invariant(n: nat, s: nat, j: nat, sys: System, t: nat)
    requires
        clear_path(n, s, sys, t),
    ensures
        walk(n * pow10(j), s + j, sys, t).0 == walk(n, s, sys, t).0,
    decreases 10 - t,
{
    let div = divisor(sys);
    let k = divisor_mul(sys);
    let sh = divisor_shift(sys);
    lemma_shift_facts(n, s, j, sys);
    lemma_decision(n, s, sys, t);
    lemma_decision(n * pow10(j), s + j, sys, t);
    if t < 10 && n >= div * pow10(s) {
        lemma_walk_shift_invariant(n * k, s + sh, j, sys, t + 1);
        assert((n * pow10(j)) * k == (n * k) * pow10(j)) by (nonlinear_arith);
    }
}

/// Stepping clear of the window at one tier keeps the path clear from the
/// next tier on.
proof fn lemma_clear_path_shift(n: nat, s: nat, sys: System, t: nat)
    requires
        clear_path(n, s, sys, t),
    ensures
        clear_path(n, s, sys, t + 1),
    decreases 10 - t,
{
    if t + 1 < 10 && n >= divisor(sys) * pow10(s) {
        lemma_clear_path_shift(n * divisor_mul(sys), s + divisor_shift(sys), sys, t + 1);
    }
}

/// Starting a clear walk one tier higher lands one tier higher, as long
/// as the lower start does not reach the top tier.
proof fn lemma_walk_start_shift(n: nat, s: nat, sys: System, t: nat)
    requires
        clear_path(n, s, sys, t),
        t + 1 <= 10,
        walk(n, s, sys, t).0 < 10,
    ensures
        walk(n, s, sys, t + 1).0 == walk(n, s, sys, t).0 + 1,
    decreases 10 - t,
{
    let div = divisor(sys);
    let k = divisor_mul(sys);
    let sh = divisor_shift(sys);
    lemma_decision(n, s, sys, t);
    lemma_decision(n, s, sys, t + 1);
    if n >= div * pow10(s) {
        // both walks overflow here (t < 10 since the lower walk moves on,
        // and t + 1 < 10 since the lower walk ends below the top)
        assert(t < 10);
        lemma_walk_tier_ge(n * k, s + sh, sys, t + 1);
        assert(walk(n, s, sys, t) == walk(n * k, s + sh, sys, t + 1));
        assert(t + 1 < 10);
        lemma_walk_start_shift(n * k, s + sh, sys, t + 1);
    } else {
        assert(walk(n, s, sys, t).0 == t);
        assert(walk(n, s, sys, t + 1).0 == t + 1);
    }
}

/// Tier monotonicity: for a magnitude of at least one that selects a tier
/// below the top and whose walk stays clear of the rounding window at
/// every tier, multiplying the magnitude by the divisor advances the
/// selected tier by exactly one.
pub proof fn lemma_tier_monotonic(n: nat, s: nat, sys: System)
    requires
        n >= pow10(s),
        clear_path(n, s, sys, 0),
        walk(n, s, sys, 0).0 < 10,
    ensures
        walk(n * divisor(sys), s, sys, 0).0 == walk(n, s, sys, 0).0 + 1,
{
    let div = divisor(sys);
    let k = divisor_mul(sys);
    let sh = divisor_shift(sys);
    lemma_pow10_pos(s);
    // the scaled magnitude reaches the divisor, and is clear of the window
    assert(n * div >= pow10(s) * div) by (nonlinear_arith)
        requires
            n >= pow10(s),
            div >= 1,
    ;
    assert(!near_divisor(n * div, s, sys));
    lemma_decision(n * div, s, sys, 0);
    // so the scaled walk carries once, landing on the same magnitude
    assert(walk(n * div, s, sys, 0) == walk((n * div) * k, s + sh, sys, 1));
    lemma_divisor_pow(sys);
    assert((n * div) * k == n * pow10(sh)) by (nonlinear_arith)
        requires
            div * k == pow10(sh),
    ;
    // which, written back at the lower scale, walks one tier behind
    lemma_clear_path_shift(n, s, sys, 0);
    lemma_walk_shift_invariant(n, s, sh, sys, 1);
    lemma_walk_start_shift(n, s, sys, 0);
}

/// Human metric prefix representation for small values: the tier walk
/// already handles them, so this is the same rendering.
pub fn small_repr(val: &Dec, unit: &str, sys: Option<System>, sep: Sep, alternate: bool) -> (r:
    String)
    requires
        val.wf(),
        val.room() >= 132,
    ensures
        r@ == spec_render(val@, unit@, sys_or_default(sys), sep, alternate),
{
    large_repr(val, unit, sys, sep, alternate)
}

} // verus!
