//! Rounding and display-comparison helpers.

use crate::decimal::round_nat;
use crate::decimal::trim;
use crate::decimal::Dec;
use crate::human_count::HumanCountData;
use crate::human_count::ReprCount;
use crate::metric_prefix::prefix_str;
use crate::metric_prefix::render_mantissa_tier;
use crate::metric_prefix::sys_or_default;
use crate::metric_prefix::System;
use crate::repr::Sep;
use vstd::prelude::*;
use vstd::string::StrSliceExecFns;

verus! {

/// Round a value to the given number of decimals, half away from zero.
/// The per-tier decimal table never asks for more than two decimals, and
/// larger counts are out of this helper's domain.
pub fn rounded(val: &Dec, dec: usize) -> (r: Dec)
    requires
        val.wf(),
        dec <= 2,
    ensures
        r.wf(),
        r@.neg == val@.neg,
        r@.n == round_nat(val@.n, val@.s, dec as nat).0,
        r@.s == round_nat(val@.n, val@.s, dec as nat).1,
{
    val.round_to(dec)
}

/// The minimum number of decimals to display a value, capped at two: zero
/// for a whole number, one when a single decimal shows it exactly, else
/// two.
pub fn decimals(r: &Dec) -> (d: usize)
    requires
        r.wf(),
    ensures
        d as nat == (if trim(r@.n, r@.s).1 <= 2 {
            trim(r@.n, r@.s).1
        } else {
            2nat
        }),
{
    let t = r.fraction_digits();
    if t > 2 {
        2
    } else {
        t
    }
}

/// Character-by-character equality of two texts.
pub(crate) fn str_eq_chars(a: &str, b: &str) -> (r: bool)
    ensures
        r == (a@ == b@),
{
    let la = a.unicode_len();
    let lb = b.unicode_len();
    if la != lb {
        proof {
            assert(a@ != b@);
        }
        return false;
    }
    let mut i: usize = 0;
    while i < la
        invariant
            i <= la,
            la == a@.len(),
            la == b@.len(),
            forall|k: int| 0 <= k < i ==> a@[k] == b@[k],
        decreases la - i,
    {
        if a.get_char(i) != b.get_char(i) {
            return false;
        }
        i = i + 1;
    }
    proof {
        assert(a@ =~= b@);
    }
    true
}

/// A streaming comparator: pieces of a rendering are fed in order and
/// matched against an expected text, character by character, without
/// assembling them.
pub struct HeapLessCompare<'a> {
    expected: &'a str,
    pos: usize,
    ok: bool,
}

impl<'a> HeapLessCompare<'a> {
    /// The text the pieces are compared against.
    pub closed spec fn expected_chars(&self) -> Seq<char> {
        self.expected@
    }

    /// How many characters have matched so far.
    pub closed spec fn matched(&self) -> nat {
        self.pos as nat
    }

    /// Whether every piece so far has matched.
    pub closed spec fn matching(&self) -> bool {
        self.ok
    }

    /// A comparator at the start of `expected`.
    pub fn new(expected: &'a str) -> (r: Self)
        ensures
            r.expected_chars() == expected@,
            r.matched() == 0,
            r.matching(),
    {
        HeapLessCompare { expected, pos: 0, ok: true }
    }

    /// Feed the next piece: it matches when the comparator was still
    /// matching and the piece equals the expected text at the current
    /// position.
    pub fn feed(&mut self, s: &str)
        ensures
            final(self).expected_chars() == old(self).expected_chars(),
            final(self).matching() == (old(self).matching() && old(self).matched() + s@.len()
                <= old(self).expected_chars().len() && s@ == old(self).expected_chars().subrange(
                old(self).matched() as int,
                old(self).matched() + s@.len() as int,
            )),
            final(self).matched() == if final(self).matching() {
                old(self).matched() + s@.len()
            } else {
                old(self).matched()
            },
    {
        if !self.ok {
            return ;
        }
        let piece_len = s.unicode_len();
        let total = self.expected.unicode_len();
        if self.pos > total || piece_len > total - self.pos {
            self.ok = false;
            return ;
        }
        let mut i: usize = 0;
        while i < piece_len
            invariant
                i <= piece_len,
                piece_len == s@.len(),
                total == self.expected@.len(),
                self.pos + piece_len <= total,
                self == old(self),
                forall|k: int| 0 <= k < i ==> self.expected@[self.pos + k] == s@[k],
            decreases piece_len - i,
        {
            if self.expected.get_char(self.pos + i) != s.get_char(i) {
                self.ok = false;
                proof {
                    let sub = old(self).expected_chars().subrange(
                        old(self).matched() as int,
                        old(self).matched() + s@.len() as int,
                    );
                    assert(sub[i as int] != s@[i as int]);
                }
                return ;
            }
            i = i + 1;
        }
        proof {
            assert(s@ =~= old(self).expected_chars().subrange(
                old(self).matched() as int,
                old(self).matched() + s@.len() as int,
            ));
        }
        self.pos = self.pos + piece_len;
    }

    /// Whether the pieces fed so far are exactly the expected text.
    pub fn finished(&self) -> (b: bool)
        ensures
            b == (self.matching() && self.matched() == self.expected_chars().len()),
    {
        self.ok && self.pos == self.expected.unicode_len()
    }
}

/// A prefix of a text extends by one more piece exactly when the piece
/// follows the already-matched prefix in the text.
proof fn lemma_prefix_extend(e: Seq<char>, c: Seq<char>, p: Seq<char>)
    requires
        c.len() + p.len() <= e.len(),
    ensures
        (e.subrange(0, (c.len() + p.len()) as int) == c + p) == (e.subrange(0, c.len() as int) == c
            && e.subrange(c.len() as int, (c.len() + p.len()) as int) == p),
{
    let l1 = c.len() as int;
    let l2: int = (c.len() + p.len()) as int;
    if e.subrange(0, l2) == c + p {
        assert(e.subrange(0, l1) =~= (c + p).subrange(0, l1));
        assert((c + p).subrange(0, l1) =~= c);
        assert(e.subrange(l1, l2) =~= (c + p).subrange(l1, l2));
        assert((c + p).subrange(l1, l2) =~= p);
    }
    if e.subrange(0, l1) == c && e.subrange(l1, l2) == p {
        assert(e.subrange(0, l2) =~= c + p);
    }
}

/// Compare an expected text against a value's rendering, piece by piece:
/// the mantissa, separator, prefix and unit are matched in turn, and the
/// full rendering is never assembled.
pub fn compare_display(expected: &str, human: &HumanCountData) -> (b: bool)
    requires
        human.wf(),
    ensures
        b == (expected@ == human.display_chars()),
{
    let rc = match human.repr {
        Some(r) => r,
        None => ReprCount { sys: None, sep: None },
    };
    let sep = match rc.sep {
        Some(s) => s,
        None => Sep::NoSep,
    };
    let system = match rc.sys {
        Some(s) => s,
        None => System::SI,
    };
    proof {
        assert(system == sys_or_default(human.options().0));
        assert(sep == human.options().1);
    }
    let (mant, tier) = render_mantissa_tier(&human.val, system, false);
    let mut cmp = HeapLessCompare::new(expected);
    let ghost c0 = cmp;
    cmp.feed(mant.as_str());
    let ghost c1 = cmp;
    let prefix = prefix_str(system, tier);
    let ghost e = expected@;
    let ghost m = mant@;
    if !prefix.is_empty() || !human.unit.as_str().is_empty() {
        cmp.feed(sep.resolve());
        let ghost c2 = cmp;
        cmp.feed(prefix);
        let ghost c3 = cmp;
        cmp.feed(human.unit.as_str());
        let ghost c4 = cmp;
        let b = cmp.finished();
        proof {
            let s2 = sep.chars();
            let p = prefix@;
            let u = human.unit@;
            let full = m + s2 + p + u;
            assert(human.display_chars() == full);
            let l1 = m.len() as int;
            let l2 = l1 + s2.len();
            let l3 = l2 + p.len();
            let l4 = l3 + u.len();
            if b {
                assert(c4.matching() && c4.matched() == e.len());
                assert(c3.matching() && c2.matching() && c1.matching());
                assert(c1.matched() == l1 && c2.matched() == l2 && c3.matched() == l3
                    && c4.matched() == l4);
                assert(e.len() == l4);
                lemma_prefix_extend(e, m, s2);
                lemma_prefix_extend(e, m + s2, p);
                lemma_prefix_extend(e, m + s2 + p, u);
                assert(e.subrange(0, l4) =~= e);
                assert(e =~= full);
            } else if e == full {
                assert(e.len() == l4);
                assert(e.subrange(0, l4) =~= e);
                lemma_prefix_extend(e, m + s2 + p, u);
                lemma_prefix_extend(e, m + s2, p);
                lemma_prefix_extend(e, m, s2);
                // every piece followed the matched prefix, so the
                // comparator ended matching and complete
                assert(c1.matching() && c1.matched() == l1);
                assert(c2.matching() && c2.matched() == l2);
                assert(c3.matching() && c3.matched() == l3);
                assert(c4.matching() && c4.matched() == l4);
                assert(false);
            }
        }
        b
    } else {
        let b = cmp.finished();
        proof {
            assert(human.display_chars() == m);
            if e.len() == m.len() {
                assert(e.subrange(0, m.len() as int) =~= e);
            }
            if b {
                assert(e =~= m);
            }
        }
        b
    }
}

} // verus!
