//! The discrete Fourier transform engine: converts a closed point sequence
//! into frequency components, keeps the most significant ones, and orders
//! them by frequency.
//!
//! The transcendental twiddle factors `e^{-2*pi*i*m/n}` are supplied by the
//! caller as a table of `n` fixed-point unit vectors; everything here is
//! exact integer arithmetic over that table.

use vstd::prelude::*;

verus! {

use crate::arith::lemma_div_trunc_bound;
use crate::complex::{
    c_add, c_bounded, c_div_int, c_mag_sq, c_mul, c_zero, lemma_c_mul_bound, CNum, Complex,
};

broadcast use {vstd::seq_lib::group_to_multiset_ensures, vstd::multiset::group_multiset_axioms};

/// Largest coordinate magnitude accepted for signal samples.
pub const SIG_BOUND: i128 = 0x100_0000_0000;

/// Largest coordinate magnitude accepted for twiddle-table entries (the
/// nominal unit length is `FP_ONE`, far below this).
pub const TWID_BOUND: i128 = 0x10_0000;

/// Bound on the coordinates of every coefficient the engine produces.
pub const COEF_BOUND: i128 = 0x2000_0000_0000_0000;

/// One frequency component of the decomposition: a signed cycle count and a
/// complex coefficient carrying amplitude and initial phase.
#[derive(Clone, Copy, PartialEq, Eq, Structural, Debug)]
pub struct FourierComponent {
    pub freq: i64,
    pub coef: Complex,
}

/// The mathematical model of a component.
pub struct CompV {
    pub freq: int,
    pub coef: CNum,
}

impl View for FourierComponent {
    type V = CompV;

    open spec fn view(&self) -> CompV {
        CompV { freq: self.freq as int, coef: self.coef@ }
    }
}

/// The model of a point sequence.
pub open spec fn seq_model(s: Seq<Complex>) -> Seq<CNum> {
    s.map_values(|c: Complex| c@)
}

/// Signed frequency for DFT index `k` of an `n`-point signal: indices above
/// `n / 2` fold onto negative frequencies.
pub open spec fn fold_freq(k: int, n: int) -> int {
    if k <= n / 2 {
        k
    } else {
        k - n
    }
}

/// The first `i` terms of the DFT sum for index `k`:
/// `sum_{j < i} twid[(k*j) mod n] * sig[j]`.
pub open spec fn dft_sum(sig: Seq<CNum>, twid: Seq<CNum>, k: int, i: int) -> CNum
    decreases i,
{
    if i <= 0 {
        c_zero()
    } else {
        c_add(
            dft_sum(sig, twid, k, i - 1),
            c_mul(twid[(k * (i - 1)) % (sig.len() as int)], sig[i - 1]),
        )
    }
}

/// The DFT coefficient for index `k`: the full sum scaled by `1 / n`.
pub open spec fn dft_coef(sig: Seq<CNum>, twid: Seq<CNum>, k: int) -> CNum {
    c_div_int(dft_sum(sig, twid, k, sig.len() as int), sig.len() as int)
}

/// The component the full DFT assigns to index `k`.
pub open spec fn dft_component(sig: Seq<CNum>, twid: Seq<CNum>, k: int) -> CompV {
    CompV { freq: fold_freq(k, sig.len() as int), coef: dft_coef(sig, twid, k) }
}

/// The sorting key used to pick significant components.
pub open spec fn mag_key(c: FourierComponent) -> int {
    c_mag_sq(c.coef@)
}

/// All coefficients bounded by `COEF_BOUND`.
pub open spec fn coefs_bounded(s: Seq<FourierComponent>) -> bool {
    forall|i: int| 0 <= i < s.len() ==> c_bounded((#[trigger] s[i]).coef@, COEF_BOUND as int)
}

/// Some entry carries frequency `f`.
pub open spec fn freq_present(s: Seq<FourierComponent>, f: int) -> bool {
    exists|j: int| 0 <= j < s.len() && (#[trigger] s[j]).freq as int == f
}

/// `c` is a component the full DFT of `sig` assigns to some index.
pub open spec fn is_dft_member(c: FourierComponent, sig: Seq<CNum>, twid: Seq<CNum>) -> bool {
    exists|k: int| 0 <= k < sig.len() && c@ == #[trigger] dft_component(sig, twid, k)
}

/// Every entry of `out` is a genuine component of the full DFT of `sig`.
pub open spec fn components_from_dft(
    out: Seq<FourierComponent>,
    sig: Seq<CNum>,
    twid: Seq<CNum>,
) -> bool {
    forall|j: int| 0 <= j < out.len() ==> is_dft_member(#[trigger] out[j], sig, twid)
}

/// Entries come in ascending frequency order.
pub open spec fn freq_sorted(out: Seq<FourierComponent>) -> bool {
    forall|j1: int, j2: int|
        0 <= j1 < j2 < out.len() ==> #[trigger] out[j1].freq <= #[trigger] out[j2].freq
}

/// `out` is a most-significant selection: every component of the full DFT
/// whose frequency is absent from `out` has squared magnitude no greater
/// than that of any kept entry.
pub open spec fn dominates(out: Seq<FourierComponent>, sig: Seq<CNum>, twid: Seq<CNum>) -> bool {
    forall|k: int, j: int|
        #![trigger dft_coef(sig, twid, k), out[j]]
        0 <= k < sig.len() && 0 <= j < out.len() && !freq_present(
            out,
            fold_freq(k, sig.len() as int),
        ) ==> c_mag_sq(dft_coef(sig, twid, k)) <= c_mag_sq(out[j].coef@)
}

/// Admissible inputs for the engine: a signal with its same-length twiddle
/// table, both coordinate-bounded.
pub open spec fn dft_input_ok(signal: Seq<Complex>, twiddles: Seq<Complex>) -> bool {
    &&& twiddles.len() == signal.len()
    &&& signal.len() <= 0x1_0000_0000
    &&& forall|i: int|
        0 <= i < signal.len() ==> c_bounded((#[trigger] signal[i])@, SIG_BOUND as int)
    &&& forall|i: int|
        0 <= i < twiddles.len() ==> c_bounded((#[trigger] twiddles[i])@, TWID_BOUND as int)
}

/// The folded frequency of an `n`-point signal always lies in `(-n/2, n/2]`.
pub proof fn lemma_fold_freq_range(k: int, n: int)
    requires
        0 <= k < n,
    ensures
        -n < 2 * fold_freq(k, n) <= n,
{
    vstd::arithmetic::div_mod::lemma_fundamental_div_mod(n, 2);
    vstd::arithmetic::div_mod::lemma_mod_division_less_than_divisor(n, 2);
}

/// Computes all `n` components of the DFT, in index order.
fn dft_full(signal: &Vec<Complex>, twiddles: &Vec<Complex>) -> (full: Vec<FourierComponent>)
    requires
        dft_input_ok(signal@, twiddles@),
        signal@.len() >= 1,
    ensures
        full@.len() == signal@.len(),
        forall|k: int|
            0 <= k < full@.len() ==> (#[trigger] full@[k])@ == dft_component(
                seq_model(signal@),
                seq_model(twiddles@),
                k,
            ),
        coefs_bounded(full@),
{
    let ghost sigm = seq_model(signal@);
    let ghost twidm = seq_model(twiddles@);
    let n = signal.len();
    let mut full: Vec<FourierComponent> = Vec::new();
    let mut k: usize = 0;
    while k < n
        invariant
            dft_input_ok(signal@, twiddles@),
            sigm == seq_model(signal@),
            twidm == seq_model(twiddles@),
            n == signal@.len(),
            1 <= n <= 0x1_0000_0000,
            k <= n,
            full@.len() == k,
            forall|k2: int|
                0 <= k2 < k ==> (#[trigger] full@[k2])@ == dft_component(sigm, twidm, k2),
            coefs_bounded(full@),
        decreases n - k,
    {
        let mut sum = Complex::new(0, 0);
        let mut i: usize = 0;
        while i < n
            invariant
                dft_input_ok(signal@, twiddles@),
                sigm == seq_model(signal@),
                twidm == seq_model(twiddles@),
                n == signal@.len(),
                1 <= n <= 0x1_0000_0000,
                k < n,
                i <= n,
                sum@ == dft_sum(sigm, twidm, k as int, i as int),
                c_bounded(sum@, (i as int) * 0x2000_0000_0000_0000),
            decreases n - i,
        {
            proof {
                assert((k as u64) * (i as u64) <= 0xFFFF_FFFFu64 * 0xFFFF_FFFFu64)
                    by (nonlinear_arith)
                    requires
                        k as u64 <= 0xFFFF_FFFFu64,
                        i as u64 <= 0xFFFF_FFFFu64,
                ;
            }
            let idx64 = ((k as u64) * (i as u64)) % (n as u64);
            let idx = idx64 as usize;
            proof {
                vstd::arithmetic::div_mod::lemma_mod_division_less_than_divisor(
                    (k as int) * (i as int),
                    n as int,
                );
                assert(twidm[idx as int] == twiddles@[idx as int]@);
                assert(sigm[i as int] == signal@[i as int]@);
            }
            let term = twiddles[idx].multiply(&signal[i]);
            proof {
                lemma_c_mul_bound(
                    twiddles@[idx as int]@,
                    signal@[i as int]@,
                    0x10_0000,
                    0x100_0000_0000,
                );
                assert((i as int) * 0x2000_0000_0000_0000 <= 0x1_0000_0000
                    * 0x2000_0000_0000_0000) by (nonlinear_arith)
                    requires
                        0 <= i as int <= 0x1_0000_0000,
                ;
            }
            sum = sum.add(&term);
            i += 1;
        }
        proof {
            assert(c_bounded(sum@, (n as int) * 0x2000_0000_0000_0000));
            lemma_div_trunc_bound(sum@.re, n as int, 0x2000_0000_0000_0000);
            lemma_div_trunc_bound(sum@.im, n as int, 0x2000_0000_0000_0000);
        }
        let coef = sum.div_int(n as i128);
        let freq: i64 = if k <= n / 2 {
            k as i64
        } else {
            (k as i64) - (n as i64)
        };
        full.push(FourierComponent { freq, coef });
        k += 1;
    }
    full
}

/// Stable-order-free insertion sort by descending squared magnitude.
fn sort_by_mag_desc(v: &Vec<FourierComponent>) -> (out: Vec<FourierComponent>)
    requires
        coefs_bounded(v@),
    ensures
        out@.len() == v@.len(),
        out@.to_multiset() == v@.to_multiset(),
        coefs_bounded(out@),
        forall|i: int, j: int|
            0 <= i < j < out@.len() ==> mag_key(#[trigger] out@[j]) <= mag_key(#[trigger] out@[i]),
{
    let mut out: Vec<FourierComponent> = Vec::new();
    let mut idx: usize = 0;
    while idx < v.len()
        invariant
            coefs_bounded(v@),
            idx <= v@.len(),
            out@.len() == idx,
            out@.to_multiset() == v@.take(idx as int).to_multiset(),
            coefs_bounded(out@),
            forall|i: int, j: int|
                0 <= i < j < out@.len() ==> mag_key(#[trigger] out@[j]) <= mag_key(
                    #[trigger] out@[i],
                ),
        decreases v@.len() - idx,
    {
        let x = v[idx];
        let xm = x.coef.magnitude_sq();
        let mut j: usize = 0;
        let mut scanning = true;
        while scanning
            invariant
                coefs_bounded(out@),
                j <= out@.len(),
                xm == mag_key(x),
                forall|i: int| 0 <= i < j ==> mag_key(#[trigger] out@[i]) >= xm,
                !scanning ==> (j == out@.len() || mag_key(out@[j as int]) < xm),
            decreases out@.len() - j, (if scanning { 1int } else { 0int }),
        {
            if j < out.len() {
                let m = out[j].coef.magnitude_sq();
                if m >= xm {
                    j += 1;
                } else {
                    scanning = false;
                }
            } else {
                scanning = false;
            }
        }
        let ghost pre = out@;
        out.insert(j, x);
        proof {
            pre.insert_ensures(j as int, x);
            assert(v@.take(idx as int + 1) =~= v@.take(idx as int).push(x));
            assert forall|i1: int, i2: int| 0 <= i1 < i2 < out@.len() implies mag_key(
                #[trigger] out@[i2],
            ) <= mag_key(#[trigger] out@[i1]) by {
                if i2 < j as int {
                } else if i2 == j as int {
                    assert(mag_key(pre[i1]) >= xm);
                } else if i1 == j as int {
                    assert(mag_key(pre[i2 - 1]) <= mag_key(pre[j as int]));
                } else if i1 < j as int {
                    assert(mag_key(pre[i2 - 1]) <= mag_key(pre[i1]));
                } else {
                    assert(mag_key(pre[i2 - 1]) <= mag_key(pre[i1 - 1]));
                }
            }
            assert forall|i: int| 0 <= i < out@.len() implies c_bounded(
                (#[trigger] out@[i]).coef@,
                COEF_BOUND as int,
            ) by {
                if i < j as int {
                    assert(out@[i] == pre[i]);
                } else if i == j as int {
                } else {
                    assert(out@[i] == pre[i - 1]);
                }
            }
        }
        idx += 1;
    }
    proof {
        assert(v@.take(v@.len() as int) =~= v@);
    }
    out
}

/// Insertion sort by ascending frequency.
fn sort_by_freq_asc(v: &Vec<FourierComponent>) -> (out: Vec<FourierComponent>)
    requires
        coefs_bounded(v@),
    ensures
        out@.len() == v@.len(),
        out@.to_multiset() == v@.to_multiset(),
        coefs_bounded(out@),
        freq_sorted(out@),
{
    let mut out: Vec<FourierComponent> = Vec::new();
    let mut idx: usize = 0;
    while idx < v.len()
        invariant
            coefs_bounded(v@),
            idx <= v@.len(),
            out@.len() == idx,
            out@.to_multiset() == v@.take(idx as int).to_multiset(),
            coefs_bounded(out@),
            freq_sorted(out@),
        decreases v@.len() - idx,
    {
        let x = v[idx];
        let xf = x.freq;
        let mut j: usize = 0;
        let mut scanning = true;
        while scanning
            invariant
                j <= out@.len(),
                forall|i: int| 0 <= i < j ==> (#[trigger] out@[i]).freq <= xf,
                !scanning ==> (j == out@.len() || out@[j as int].freq > xf),
            decreases out@.len() - j, (if scanning { 1int } else { 0int }),
        {
            if j < out.len() {
                if out[j].freq <= xf {
                    j += 1;
                } else {
                    scanning = false;
                }
            } else {
                scanning = false;
            }
        }
        let ghost pre = out@;
        out.insert(j, x);
        proof {
            pre.insert_ensures(j as int, x);
            assert(v@.take(idx as int + 1) =~= v@.take(idx as int).push(x));
            assert forall|i1: int, i2: int| 0 <= i1 < i2 < out@.len() implies #[trigger] out@[i1].freq
                <= #[trigger] out@[i2].freq by {
                if i2 < j as int {
                } else if i2 == j as int {
                    assert(pre[i1].freq <= xf);
                } else if i1 == j as int {
                    assert(pre[i2 - 1].freq >= pre[j as int].freq);
                } else if i1 < j as int {
                    assert(pre[i1].freq <= xf);
                    assert(pre[i2 - 1].freq >= pre[j as int].freq);
                } else {
                    assert(pre[i1 - 1].freq <= pre[i2 - 1].freq);
                }
            }
            assert forall|i: int| 0 <= i < out@.len() implies c_bounded(
                (#[trigger] out@[i]).coef@,
                COEF_BOUND as int,
            ) by {
                if i < j as int {
                    assert(out@[i] == pre[i]);
                } else if i == j as int {
                } else {
                    assert(out@[i] == pre[i - 1]);
                }
            }
        }
        idx += 1;
    }
    proof {
        assert(v@.take(v@.len() as int) =~= v@);
    }
    out
}

/// Computes the DFT of `signal`, keeps the (at most) `max_components` most
/// significant components, and returns them in ascending frequency order.
///
/// An empty signal yields an empty component set, as does
/// `max_components == 0`.
pub fn compute_dft(
    signal: &Vec<Complex>,
    twiddles: &Vec<Complex>,
    max_components: usize,
) -> (out: Vec<FourierComponent>)
    requires
        dft_input_ok(signal@, twiddles@),
    ensures
        out@.len() == (if max_components <= signal@.len() {
            max_components as int
        } else {
            signal@.len() as int
        }),
        components_from_dft(out@, seq_model(signal@), seq_model(twiddles@)),
        freq_sorted(out@),
        dominates(out@, seq_model(signal@), seq_model(twiddles@)),
        coefs_bounded(out@),
        forall|j: int|
            0 <= j < out@.len() ==> -(signal@.len() as int) < 2 * ((#[trigger] out@[j]).freq as int)
                <= signal@.len() as int,
{
    let ghost sigm = seq_model(signal@);
    let ghost twidm = seq_model(twiddles@);
    let n = signal.len();
    if n == 0 {
        let out: Vec<FourierComponent> = Vec::new();
        return out;
    }
    let full = dft_full(signal, twiddles);
    let sorted = sort_by_mag_desc(&full);
    let m = if max_components < n {
        max_components
    } else {
        n
    };
    let mut kept: Vec<FourierComponent> = Vec::new();
    let mut j: usize = 0;
    while j < m
        invariant
            j <= m,
            m <= sorted@.len(),
            kept@ == sorted@.take(j as int),
        decreases m - j,
    {
        proof {
            assert(sorted@.take(j as int + 1) =~= sorted@.take(j as int).push(sorted@[j as int]));
        }
        kept.push(sorted[j]);
        j += 1;
    }
    proof {
        assert forall|i: int| 0 <= i < kept@.len() implies c_bounded(
            (#[trigger] kept@[i]).coef@,
            COEF_BOUND as int,
        ) by {
            assert(kept@[i] == sorted@[i]);
        }
    }
    let out = sort_by_freq_asc(&kept);
    proof {
        lemma_selection_ok(out@, kept@, sorted@, full@, sigm, twidm, m as int);
    }
    out
}

/// The assembly argument for `compute_dft`: membership, frequency range and
/// dominance carry from the sorted full transform to the final selection.
proof fn lemma_selection_ok(
    out: Seq<FourierComponent>,
    kept: Seq<FourierComponent>,
    sorted: Seq<FourierComponent>,
    full: Seq<FourierComponent>,
    sigm: Seq<CNum>,
    twidm: Seq<CNum>,
    m: int,
)
    requires
        full.len() == sigm.len(),
        forall|k: int|
            0 <= k < full.len() ==> (#[trigger] full[k])@ == dft_component(sigm, twidm, k),
        sorted.len() == full.len(),
        sorted.to_multiset() == full.to_multiset(),
        forall|i: int, j: int|
            0 <= i < j < sorted.len() ==> mag_key(#[trigger] sorted[j]) <= mag_key(
                #[trigger] sorted[i],
            ),
        0 <= m <= sorted.len(),
        kept == sorted.take(m),
        out.len() == kept.len(),
        out.to_multiset() == kept.to_multiset(),
    ensures
        components_from_dft(out, sigm, twidm),
        dominates(out, sigm, twidm),
        forall|j: int|
            0 <= j < out.len() ==> -(sigm.len() as int) < 2 * ((#[trigger] out[j]).freq as int)
                <= sigm.len() as int,
{
    let n = sigm.len() as int;
    assert forall|j: int| 0 <= j < out.len() implies is_dft_member(
        #[trigger] out[j],
        sigm,
        twidm,
    ) by {
        let x = out[j];
        assert(out.contains(x));
        assert(out.to_multiset().count(x) > 0);
        assert(kept.to_multiset().count(x) > 0);
        assert(kept.contains(x));
        let i = choose|i: int| 0 <= i < kept.len() && kept[i] == x;
        assert(sorted[i] == x);
        assert(sorted.contains(x));
        assert(sorted.to_multiset().count(x) > 0);
        assert(full.to_multiset().count(x) > 0);
        assert(full.contains(x));
        let k = choose|k: int| 0 <= k < full.len() && full[k] == x;
        assert(x@ == dft_component(sigm, twidm, k));
        assert(is_dft_member(x, sigm, twidm));
    }
    assert forall|j: int| 0 <= j < out.len() implies -(sigm.len() as int) < 2 * ((
    #[trigger] out[j]).freq as int) <= sigm.len() as int by {
        assert(is_dft_member(out[j], sigm, twidm));
        let k = choose|k: int|
            0 <= k < sigm.len() && (out[j])@ == #[trigger] dft_component(sigm, twidm, k);
        lemma_fold_freq_range(k, n);
    }
    assert forall|k: int, j: int|
        #![trigger dft_coef(sigm, twidm, k), out[j]]
        0 <= k < sigm.len() && 0 <= j < out.len() && !freq_present(
            out,
            fold_freq(k, sigm.len() as int),
        ) implies c_mag_sq(dft_coef(sigm, twidm, k)) <= c_mag_sq(out[j].coef@) by {
        let x = full[k];
        assert(full.contains(x));
        assert(full.to_multiset().count(x) > 0);
        assert(sorted.to_multiset().count(x) > 0);
        assert(sorted.contains(x));
        let si = choose|si: int| 0 <= si < sorted.len() && sorted[si] == x;
        let y = out[j];
        assert(out.contains(y));
        assert(out.to_multiset().count(y) > 0);
        assert(kept.to_multiset().count(y) > 0);
        assert(kept.contains(y));
        let oi = choose|oi: int| 0 <= oi < kept.len() && kept[oi] == y;
        assert(sorted[oi] == y);
        if si < m {
            assert(kept[si] == x);
            assert(kept.contains(x));
            assert(kept.to_multiset().count(x) > 0);
            assert(out.to_multiset().count(x) > 0);
            assert(out.contains(x));
            let jx = choose|jx: int| 0 <= jx < out.len() && out[jx] == x;
            assert(out[jx].freq as int == fold_freq(k, sigm.len() as int));
            assert(freq_present(out, fold_freq(k, sigm.len() as int)));
            assert(false);
        } else {
            if oi < si {
                assert(mag_key(sorted[si]) <= mag_key(sorted[oi]));
            }
            assert(x.coef@ == dft_coef(sigm, twidm, k));
        }
    }
}

} // verus!
