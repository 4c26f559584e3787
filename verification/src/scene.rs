//! One animated reconstruction: a path's frequency components (fixed at
//! construction), a center offset, an opaque display identifier for the
//! renderer, and the fading trail. A scene is a collection of these,
//! advanced by an external drive loop with an explicit shared time value.

use vstd::prelude::*;

verus! {

use crate::complex::{
    c_add, c_bounded, c_div_int, c_mag_sq, c_sub, c_zero, CNum, Complex,
};
use crate::dft::{
    coefs_bounded, components_from_dft, compute_dft, dominates, freq_sorted, seq_model,
    FourierComponent, SIG_BOUND,
};
use crate::series::{
    eval_prefix, eval_spec, evaluate_chain, lemma_eval_prefix_bound, table_ok,
};
use crate::trail::{fade_alpha, trail_eff, Trail};
use crate::arith::lemma_div_trunc_bound;

/// Largest coordinate magnitude accepted for raw path points; after
/// centering, coordinates stay within `SIG_BOUND`.
pub const PATH_BOUND: i128 = 0x80_0000_0000;

/// The running sum of the first `i` points.
pub open spec fn sum_points(points: Seq<Complex>, i: int) -> CNum
    decreases i,
{
    if i <= 0 {
        c_zero()
    } else {
        c_add(sum_points(points, i - 1), points[i - 1]@)
    }
}

/// The centroid of a non-empty point sequence: the truncating mean of the
/// coordinates.
pub open spec fn centroid(points: Seq<Complex>) -> CNum
    recommends
        points.len() > 0,
{
    c_div_int(sum_points(points, points.len() as int), points.len() as int)
}

/// The signal handed to the DFT: every point, translated by the centroid so
/// the frequency-zero coefficient is near zero.
pub open spec fn centered(points: Seq<Complex>) -> Seq<CNum> {
    Seq::new(points.len(), |i: int| c_sub(points[i]@, centroid(points)))
}

/// Admissible construction inputs: a path with its same-length twiddle
/// table, coordinates within `PATH_BOUND`.
pub open spec fn path_input_ok(points: Seq<Complex>, twiddles: Seq<Complex>) -> bool {
    &&& twiddles.len() == points.len()
    &&& points.len() <= 0x1_0000_0000
    &&& forall|i: int|
        0 <= i < points.len() ==> c_bounded((#[trigger] points[i])@, PATH_BOUND as int)
    &&& forall|i: int|
        0 <= i < twiddles.len() ==> c_bounded(
            (#[trigger] twiddles[i])@,
            crate::dft::TWID_BOUND as int,
        )
}

/// Advances the shared time by one step of `1 / period` of a cycle,
/// wrapping to the start exactly at the period boundary — the wrap
/// coincides with the reconstruction's own period, so the traced loop
/// closes without a seam.
pub fn advance_time(t_num: u64, period: u64) -> (r: u64)
    requires
        1 <= period,
        t_num < period,
    ensures
        t_num + 1 < period ==> r == t_num + 1,
        t_num + 1 >= period ==> r == 0,
        r < period,
{
    if t_num + 1 < period {
        t_num + 1
    } else {
        0
    }
}

/// One animated path reconstruction.
pub struct PathFourier {
    pub components: Vec<FourierComponent>,
    pub center: Complex,
    pub display_id: u32,
    pub trail: Trail,
}

impl PathFourier {
    /// Well-formedness: the component list is bounded as the engine built
    /// it, and the center offset is an ordinary coordinate.
    pub open spec fn wf(self) -> bool {
        &&& coefs_bounded(self.components@)
        &&& self.components@.len() <= 0x1_0000_0000
        &&& c_bounded(self.center@, SIG_BOUND as int)
    }

    /// Builds a reconstruction from a closed path: subtracts the path's
    /// centroid, runs the DFT over the given twiddle table, and keeps the
    /// `num_components` most significant components in frequency order.
    /// An empty path yields an empty component set.
    pub fn new(
        path_points: &Vec<Complex>,
        twiddles: &Vec<Complex>,
        center: Complex,
        display_id: u32,
        num_components: usize,
    ) -> (s: PathFourier)
        requires
            path_input_ok(path_points@, twiddles@),
            c_bounded(center@, SIG_BOUND as int),
        ensures
            s.wf(),
            s.center == center,
            s.display_id == display_id,
            s.trail.points@.len() == 0,
            s.components@.len() == (if num_components <= path_points@.len() {
                num_components as int
            } else {
                path_points@.len() as int
            }),
            components_from_dft(s.components@, centered(path_points@), seq_model(twiddles@)),
            freq_sorted(s.components@),
            dominates(s.components@, centered(path_points@), seq_model(twiddles@)),
            forall|j: int|
                0 <= j < s.components@.len() ==> -(path_points@.len() as int) < 2 * ((
                #[trigger] s.components@[j]).freq as int) <= path_points@.len() as int,
    {
        let n = path_points.len();
        if n == 0 {
            let s = PathFourier {
                components: Vec::new(),
                center,
                display_id,
                trail: Trail::new(),
            };
            return s;
        }
        let mut sum = Complex::new(0, 0);
        let mut i: usize = 0;
        while i < n
            invariant
                path_input_ok(path_points@, twiddles@),
                n == path_points@.len(),
                1 <= n <= 0x1_0000_0000,
                i <= n,
                sum@ == sum_points(path_points@, i as int),
                c_bounded(sum@, (i as int) * 0x80_0000_0000),
            decreases n - i,
        {
            proof {
                assert((i as int) * 0x80_0000_0000 <= 0x1_0000_0000 * 0x80_0000_0000)
                    by (nonlinear_arith)
                    requires
                        0 <= i as int <= 0x1_0000_0000,
                ;
            }
            sum = sum.add(&path_points[i]);
            i += 1;
        }
        proof {
            lemma_div_trunc_bound(sum@.re, n as int, 0x80_0000_0000);
            lemma_div_trunc_bound(sum@.im, n as int, 0x80_0000_0000);
        }
        let ctr = sum.div_int(n as i128);
        let mut sig: Vec<Complex> = Vec::new();
        let mut i: usize = 0;
        while i < n
            invariant
                path_input_ok(path_points@, twiddles@),
                n == path_points@.len(),
                1 <= n <= 0x1_0000_0000,
                i <= n,
                ctr@ == centroid(path_points@),
                c_bounded(ctr@, 0x80_0000_0000),
                sig@.len() == i,
                forall|p: int|
                    0 <= p < i ==> (#[trigger] sig@[p])@ == c_sub(
                        path_points@[p]@,
                        centroid(path_points@),
                    ),
            decreases n - i,
        {
            sig.push(path_points[i].sub(&ctr));
            i += 1;
        }
        proof {
            assert forall|p: int| 0 <= p < sig@.len() implies c_bounded(
                (#[trigger] sig@[p])@,
                SIG_BOUND as int,
            ) by {
                assert(c_bounded(path_points@[p]@, PATH_BOUND as int));
            }
            assert(seq_model(sig@) =~= centered(path_points@));
        }
        let components = compute_dft(&sig, twiddles, num_components);
        PathFourier { components, center, display_id, trail: Trail::new() }
    }

    /// The reconstructed point at time `t_num / table.len()`: the series
    /// value translated by the center offset.
    pub fn evaluate(&self, table: &Vec<Complex>, t_num: u64) -> (p: Complex)
        requires
            self.wf(),
            table_ok(table@),
            t_num <= 0x1_0000_0000_0000,
        ensures
            p@ == c_add(self.center@, eval_spec(self.components@, table@, t_num as int)),
    {
        let s = crate::series::evaluate(&self.components, table, t_num);
        proof {
            assert(self.components@.len() as int * 0x4_0000_0000_0000_0000_0000 <= 0x1_0000_0000
                * 0x4_0000_0000_0000_0000_0000) by (nonlinear_arith)
                requires
                    self.components@.len() as int <= 0x1_0000_0000,
            ;
        }
        self.center.add(&s)
    }

    /// The epicycle chain at time `t_num / table.len()`: for each component,
    /// in listed order, the translated start and end of its rotating arm and
    /// the arm's radius (the integer square root of the coefficient's
    /// squared magnitude).
    pub fn epicycle_chain(&self, table: &Vec<Complex>, t_num: u64) -> (out: Vec<
        (Complex, Complex, u128),
    >)
        requires
            self.wf(),
            table_ok(table@),
            t_num <= 0x1_0000_0000_0000,
        ensures
            out@.len() == self.components@.len(),
            forall|j: int|
                0 <= j < out@.len() ==> (#[trigger] out@[j]).0@ == c_add(
                    self.center@,
                    eval_prefix(self.components@, table@, t_num as int, j),
                ) && out@[j].1@ == c_add(
                    self.center@,
                    eval_prefix(self.components@, table@, t_num as int, j + 1),
                ) && (out@[j].2 as int) * (out@[j].2 as int) <= c_mag_sq(
                    self.components@[j].coef@,
                ) && (out@[j].2 as int + 1) * (out@[j].2 as int + 1) > c_mag_sq(
                    self.components@[j].coef@,
                ),
    {
        let chain = evaluate_chain(&self.components, table, t_num);
        let mut out: Vec<(Complex, Complex, u128)> = Vec::new();
        let mut j: usize = 0;
        while j < chain.len()
            invariant
                self.wf(),
                table_ok(table@),
                t_num <= 0x1_0000_0000_0000,
                chain@.len() == self.components@.len(),
                forall|i: int|
                    0 <= i < chain@.len() ==> (#[trigger] chain@[i]).0@ == eval_prefix(
                        self.components@,
                        table@,
                        t_num as int,
                        i,
                    ) && chain@[i].1@ == eval_prefix(self.components@, table@, t_num as int, i + 1),
                j <= chain@.len(),
                out@.len() == j,
                forall|i: int|
                    0 <= i < j ==> (#[trigger] out@[i]).0@ == c_add(
                        self.center@,
                        eval_prefix(self.components@, table@, t_num as int, i),
                    ) && out@[i].1@ == c_add(
                        self.center@,
                        eval_prefix(self.components@, table@, t_num as int, i + 1),
                    ) && (out@[i].2 as int) * (out@[i].2 as int) <= c_mag_sq(
                        self.components@[i].coef@,
                    ) && (out@[i].2 as int + 1) * (out@[i].2 as int + 1) > c_mag_sq(
                        self.components@[i].coef@,
                    ),
            decreases chain@.len() - j,
        {
            let pair = chain[j];
            proof {
                lemma_eval_prefix_bound(self.components@, table@, t_num as int, j as int);
                lemma_eval_prefix_bound(self.components@, table@, t_num as int, j as int + 1);
                assert((j as int + 1) * 0x4_0000_0000_0000_0000_0000 <= 0x1_0000_0001
                    * 0x4_0000_0000_0000_0000_0000) by (nonlinear_arith)
                    requires
                        0 <= j as int + 1 <= 0x1_0000_0001,
                ;
            }
            let a = self.center.add(&pair.0);
            let b = self.center.add(&pair.1);
            let r = self.components[j].coef.magnitude();
            out.push((a, b, r));
            j += 1;
        }
        out
    }

    /// Prepends the newest reconstructed point to the trail, evicting the
    /// oldest entry once `max_path_length` is exceeded. Nothing else of the
    /// reconstruction changes.
    pub fn update_path(&mut self, point: Complex, max_path_length: usize)
        ensures
            final(self).components@ == old(self).components@,
            final(self).center == old(self).center,
            final(self).display_id == old(self).display_id,
            old(self).wf() ==> final(self).wf(),
            old(self).trail.points@.len() + 1 <= max_path_length ==> final(self).trail.points@
                == seq![point] + old(self).trail.points@,
            old(self).trail.points@.len() + 1 > max_path_length ==> final(self).trail.points@ == (
            seq![point] + old(self).trail.points@).drop_last(),
            old(self).trail.points@.len() <= max_path_length ==> final(self).trail.points@.len()
                <= max_path_length,
            final(self).trail.points@.len() > 0 ==> final(self).trail.points@[0] == point,
    {
        self.trail.update(point, max_path_length);
    }

    /// The trail's render segments with their fade opacities.
    pub fn trail_segments(&self, visual_cap: usize) -> (out: Vec<(Complex, Complex, u8)>)
        ensures
            out@.len() == (if trail_eff(self.trail.points@.len() as int, visual_cap as int) < 2 {
                0int
            } else {
                trail_eff(self.trail.points@.len() as int, visual_cap as int) - 1
            }),
            forall|i: int|
                0 <= i < out@.len() ==> (#[trigger] out@[i]).0 == self.trail.points@[i]
                    && out@[i].1 == self.trail.points@[i + 1] && out@[i].2 as int == fade_alpha(
                    i + 1,
                    trail_eff(self.trail.points@.len() as int, visual_cap as int),
                ),
    {
        self.trail.render_weights(visual_cap)
    }
}

} // verus!
