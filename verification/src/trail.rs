//! The fading trail: a bounded history of reconstructed points, most recent
//! first, with linearly decreasing render opacity over adjacent pairs.

use vstd::prelude::*;

verus! {

use vstd::arithmetic::div_mod::{
    lemma_div_is_ordered, lemma_div_multiples_vanish, lemma_div_pos_is_pos,
};

use crate::complex::Complex;

/// The effective fade span: the trail length, capped by the visual cap.
pub open spec fn trail_eff(len: int, cap: int) -> int {
    if len < cap {
        len
    } else {
        cap
    }
}

/// Opacity of pair `i` (1-based) over an effective span of `eff` pairs:
/// full at the newest pair, falling linearly to near zero at the oldest.
pub open spec fn fade_alpha(i: int, eff: int) -> int
    recommends
        1 <= i < eff,
{
    ((eff - i) * 255) / eff
}

/// A bounded ordered sequence of points, most recent first.
pub struct Trail {
    pub points: Vec<Complex>,
}

impl Trail {
    /// An empty trail.
    pub fn new() -> (t: Trail)
        ensures
            t.points@.len() == 0,
    {
        Trail { points: Vec::new() }
    }

    /// Prepends `point`; once the length would exceed `max_length`, the
    /// oldest (last) entry is evicted. So a trail that respects the bound
    /// keeps respecting it, and the newest point always comes first.
    pub fn update(&mut self, point: Complex, max_length: usize)
        ensures
            old(self).points@.len() + 1 <= max_length ==> final(self).points@ == seq![point]
                + old(self).points@,
            old(self).points@.len() + 1 > max_length ==> final(self).points@ == (seq![point]
                + old(self).points@).drop_last(),
            old(self).points@.len() <= max_length ==> final(self).points@.len() <= max_length,
            final(self).points@.len() > 0 ==> final(self).points@[0] == point,
    {
        self.points.insert(0, point);
        proof {
            assert(self.points@ =~= seq![point] + old(self).points@);
        }
        if self.points.len() > max_length {
            self.points.pop();
        }
    }

    /// One render segment per adjacent pair of trail points, newest first,
    /// each with its fade opacity: pair `i` carries
    /// `floor((eff - i) * 255 / eff)` where `eff` is the effective span.
    /// A trail shorter than two points yields no segments.
    pub fn render_weights(&self, visual_cap: usize) -> (out: Vec<(Complex, Complex, u8)>)
        ensures
            out@.len() == (if trail_eff(self.points@.len() as int, visual_cap as int) < 2 {
                0int
            } else {
                trail_eff(self.points@.len() as int, visual_cap as int) - 1
            }),
            forall|i: int|
                0 <= i < out@.len() ==> (#[trigger] out@[i]).0 == self.points@[i] && out@[i].1
                    == self.points@[i + 1] && out@[i].2 as int == fade_alpha(
                    i + 1,
                    trail_eff(self.points@.len() as int, visual_cap as int),
                ),
    {
        let eff: usize = if self.points.len() < visual_cap {
            self.points.len()
        } else {
            visual_cap
        };
        let mut out: Vec<(Complex, Complex, u8)> = Vec::new();
        if eff < 2 {
            return out;
        }
        let mut i: usize = 1;
        while i < eff
            invariant
                2 <= eff,
                eff as int == trail_eff(self.points@.len() as int, visual_cap as int),
                eff <= self.points@.len(),
                1 <= i <= eff,
                out@.len() == i - 1,
                forall|p: int|
                    0 <= p < out@.len() ==> (#[trigger] out@[p]).0 == self.points@[p] && out@[p].1
                        == self.points@[p + 1] && out@[p].2 as int == fade_alpha(
                        p + 1,
                        eff as int,
                    ),
            decreases eff - i,
        {
            let num = ((eff - i) as u128) * 255;
            proof {
                lemma_div_pos_is_pos(num as int, eff as int);
                lemma_div_is_ordered(num as int, (eff as int) * 255, eff as int);
                lemma_div_multiples_vanish(255, eff as int);
            }
            let a = (num / (eff as u128)) as u8;
            out.push((self.points[i - 1], self.points[i], a));
            i += 1;
        }
        out
    }
}

} // verus!
