//! Evaluation of a truncated Fourier series at a rational time `num / den`,
//! where `den` is the length of a caller-supplied table of unit vectors
//! (`table[m]` standing for `e^{2*pi*i*m/den}`), and the epicycle chain of
//! partial sums used for visualization.

use vstd::prelude::*;

verus! {

use crate::arith::lemma_mod_neg;
use crate::complex::{c_add, c_bounded, c_mul, c_zero, lemma_c_mul_bound, CNum, Complex};
use crate::dft::{coefs_bounded, FourierComponent, TWID_BOUND};

/// Table index of the rotation for frequency `freq` at time `num / den`:
/// the euclidean remainder of `freq * num` by `den`.
pub open spec fn rot_index(freq: int, num: int, den: int) -> int {
    (freq * num) % den
}

/// One term of the series at time `num / table.len()`: the component's
/// coefficient rotated by its frequency times the elapsed time.
pub open spec fn term_of(c: FourierComponent, table: Seq<Complex>, num: int) -> CNum {
    c_mul(c.coef@, table[rot_index(c.freq as int, num, table.len() as int)]@)
}

/// The sum of the first `j` terms of the series at time `num / table.len()`.
pub open spec fn eval_prefix(
    comps: Seq<FourierComponent>,
    table: Seq<Complex>,
    num: int,
    j: int,
) -> CNum
    decreases j,
{
    if j <= 0 {
        c_zero()
    } else {
        c_add(eval_prefix(comps, table, num, j - 1), term_of(comps[j - 1], table, num))
    }
}

/// The value of the whole series at time `num / table.len()`.
pub open spec fn eval_spec(comps: Seq<FourierComponent>, table: Seq<Complex>, num: int) -> CNum {
    eval_prefix(comps, table, num, comps.len() as int)
}

/// A well-formed unit-vector table: one entry per time step of the period,
/// all entries coordinate-bounded.
pub open spec fn table_ok(table: Seq<Complex>) -> bool {
    &&& 1 <= table.len() <= 0x1_0000_0000
    &&& forall|i: int|
        0 <= i < table.len() ==> c_bounded((#[trigger] table[i])@, TWID_BOUND as int)
}

/// Admissible inputs for the evaluator.
pub open spec fn eval_input_ok(
    comps: Seq<FourierComponent>,
    table: Seq<Complex>,
    num: u64,
) -> bool {
    &&& table_ok(table)
    &&& coefs_bounded(comps)
    &&& comps.len() <= 0x1_0000_0000
    &&& num <= 0x1_0000_0000_0000
}

/// Computes the table index of the rotation for `freq` at time
/// `num / table_len`.
fn rot_index_exec(freq: i64, num: u64, table_len: usize) -> (idx: usize)
    requires
        1 <= table_len <= 0x1_0000_0000,
        num <= 0x1_0000_0000_0000,
    ensures
        idx as int == rot_index(freq as int, num as int, table_len as int),
        idx < table_len,
{
    let d = table_len as u128;
    if freq >= 0 {
        proof {
            assert((freq as u128) * (num as u128) <= 0x8000_0000_0000_0000u128
                * 0x1_0000_0000_0000u128) by (nonlinear_arith)
                requires
                    freq as u128 <= 0x8000_0000_0000_0000u128,
                    num as u128 <= 0x1_0000_0000_0000u128,
            ;
            vstd::arithmetic::div_mod::lemma_mod_division_less_than_divisor(
                (freq as int) * (num as int),
                d as int,
            );
        }
        let r = ((freq as u128) * (num as u128)) % d;
        r as usize
    } else {
        let nf = (-(freq as i128)) as u128;
        proof {
            assert(nf * (num as u128) <= 0x8000_0000_0000_0000u128 * 0x1_0000_0000_0000u128)
                by (nonlinear_arith)
                requires
                    nf <= 0x8000_0000_0000_0000u128,
                    num as u128 <= 0x1_0000_0000_0000u128,
            ;
        }
        let a = nf * (num as u128);
        let r = a % d;
        proof {
            assert((freq as int) * (num as int) == -((nf as int) * (num as int)))
                by (nonlinear_arith)
                requires
                    nf as int == -(freq as int),
            ;
            vstd::arithmetic::div_mod::lemma_mod_division_less_than_divisor(
                (nf as int) * (num as int),
                d as int,
            );
            lemma_mod_neg((nf as int) * (num as int), d as int);
        }
        if r == 0 {
            0
        } else {
            (d - r) as usize
        }
    }
}

/// Evaluates the truncated series at time `t_num / table.len()`: the sum of
/// every coefficient rotated by its frequency times the elapsed time. This
/// is the reconstructed point (before any center offset).
pub fn evaluate(components: &Vec<FourierComponent>, table: &Vec<Complex>, t_num: u64) -> (r:
    Complex)
    requires
        eval_input_ok(components@, table@, t_num),
    ensures
        r@ == eval_spec(components@, table@, t_num as int),
        c_bounded(r@, components@.len() as int * 0x4_0000_0000_0000_0000_0000),
{
    let mut sum = Complex::new(0, 0);
    let mut j: usize = 0;
    while j < components.len()
        invariant
            eval_input_ok(components@, table@, t_num),
            j <= components@.len(),
            sum@ == eval_prefix(components@, table@, t_num as int, j as int),
            c_bounded(sum@, (j as int) * 0x4_0000_0000_0000_0000_0000),
        decreases components@.len() - j,
    {
        let c = components[j];
        let idx = rot_index_exec(c.freq, t_num, table.len());
        let rot = c.coef.rotate_by(&table[idx]);
        proof {
            lemma_c_mul_bound(c.coef@, table@[idx as int]@, 0x2000_0000_0000_0000, 0x10_0000);
            assert((j as int) * 0x4_0000_0000_0000_0000_0000 <= 0x1_0000_0000
                * 0x4_0000_0000_0000_0000_0000) by (nonlinear_arith)
                requires
                    0 <= j as int <= 0x1_0000_0000,
            ;
        }
        sum = sum.add(&rot);
        j += 1;
    }
    sum
}

/// Evaluates the series and records every intermediate partial sum: entry
/// `j` of the chain is the pair (sum of the first `j` terms, sum of the
/// first `j + 1` terms), in the order the components are listed.
pub fn evaluate_chain(
    components: &Vec<FourierComponent>,
    table: &Vec<Complex>,
    t_num: u64,
) -> (chain: Vec<(Complex, Complex)>)
    requires
        eval_input_ok(components@, table@, t_num),
    ensures
        chain@.len() == components@.len(),
        forall|j: int|
            0 <= j < chain@.len() ==> (#[trigger] chain@[j]).0@ == eval_prefix(
                components@,
                table@,
                t_num as int,
                j,
            ) && chain@[j].1@ == eval_prefix(components@, table@, t_num as int, j + 1),
{
    let mut chain: Vec<(Complex, Complex)> = Vec::new();
    let mut sum = Complex::new(0, 0);
    let mut j: usize = 0;
    while j < components.len()
        invariant
            eval_input_ok(components@, table@, t_num),
            j <= components@.len(),
            chain@.len() == j,
            sum@ == eval_prefix(components@, table@, t_num as int, j as int),
            c_bounded(sum@, (j as int) * 0x4_0000_0000_0000_0000_0000),
            forall|i: int|
                0 <= i < j ==> (#[trigger] chain@[i]).0@ == eval_prefix(
                    components@,
                    table@,
                    t_num as int,
                    i,
                ) && chain@[i].1@ == eval_prefix(components@, table@, t_num as int, i + 1),
        decreases components@.len() - j,
    {
        let c = components[j];
        let idx = rot_index_exec(c.freq, t_num, table.len());
        let rot = c.coef.rotate_by(&table[idx]);
        proof {
            lemma_c_mul_bound(c.coef@, table@[idx as int]@, 0x2000_0000_0000_0000, 0x10_0000);
            assert((j as int) * 0x4_0000_0000_0000_0000_0000 <= 0x1_0000_0000
                * 0x4_0000_0000_0000_0000_0000) by (nonlinear_arith)
                requires
                    0 <= j as int <= 0x1_0000_0000,
            ;
        }
        let prev = sum;
        sum = sum.add(&rot);
        chain.push((prev, sum));
        j += 1;
    }
    chain
}

/// Every partial sum of the series is coordinate-bounded in proportion to
/// the number of terms it adds.
pub proof fn lemma_eval_prefix_bound(
    comps: Seq<FourierComponent>,
    table: Seq<Complex>,
    num: int,
    j: int,
)
    requires
        coefs_bounded(comps),
        table_ok(table),
        0 <= j <= comps.len(),
    ensures
        c_bounded(eval_prefix(comps, table, num, j), j * 0x4_0000_0000_0000_0000_0000),
    decreases j,
{
    if j > 0 {
        lemma_eval_prefix_bound(comps, table, num, j - 1);
        let idx = rot_index(comps[j - 1].freq as int, num, table.len() as int);
        vstd::arithmetic::div_mod::lemma_mod_division_less_than_divisor(
            (comps[j - 1].freq as int) * num,
            table.len() as int,
        );
        lemma_c_mul_bound(comps[j - 1].coef@, table[idx]@, 0x2000_0000_0000_0000, 0x10_0000);
    }
}

/// Chain-consistency law: the `end` of the last chain entry — the sum of
/// all `comps.len()` terms — is exactly the value `evaluate` returns for
/// the same components, table and time.
pub proof fn lemma_chain_consistency(
    comps: Seq<FourierComponent>,
    table: Seq<Complex>,
    num: int,
)
    ensures
        eval_prefix(comps, table, num, comps.len() as int) == eval_spec(comps, table, num),
{
}

proof fn lemma_periodicity_prefix(
    comps: Seq<FourierComponent>,
    table: Seq<Complex>,
    num: int,
    j: int,
)
    requires
        table.len() >= 1,
    ensures
        eval_prefix(comps, table, num + table.len() as int, j) == eval_prefix(
            comps,
            table,
            num,
            j,
        ),
    decreases j,
{
    if j > 0 {
        lemma_periodicity_prefix(comps, table, num, j - 1);
        let f = comps[j - 1].freq as int;
        let d = table.len() as int;
        assert(f * (num + d) == d * f + f * num) by (nonlinear_arith);
        vstd::arithmetic::div_mod::lemma_mod_multiples_vanish(f, f * num, d);
        assert(rot_index(f, num + d, d) == rot_index(f, num, d));
    }
}

/// Periodicity law: advancing time by one full period (`table.len()` steps,
/// that is by `1.0` in units of the cycle) leaves the series value
/// unchanged, for every integer-frequency component set.
pub proof fn lemma_periodicity(comps: Seq<FourierComponent>, table: Seq<Complex>, num: int)
    requires
        table.len() >= 1,
    ensures
        eval_spec(comps, table, num + table.len() as int) == eval_spec(comps, table, num),
{
    lemma_periodicity_prefix(comps, table, num, comps.len() as int);
}

proof fn lemma_eval_prefix_congruence(
    a: Seq<FourierComponent>,
    b: Seq<FourierComponent>,
    table: Seq<Complex>,
    num: int,
    j: int,
)
    requires
        j <= a.len(),
        j <= b.len(),
        forall|i: int| 0 <= i < j ==> a[i] == b[i],
    ensures
        eval_prefix(a, table, num, j) == eval_prefix(b, table, num, j),
    decreases j,
{
    if j > 0 {
        lemma_eval_prefix_congruence(a, b, table, num, j - 1);
    }
}

proof fn lemma_eval_remove(s: Seq<FourierComponent>, table: Seq<Complex>, num: int, i: int)
    requires
        0 <= i < s.len(),
    ensures
        eval_spec(s, table, num) == c_add(
            eval_spec(s.remove(i), table, num),
            term_of(s[i], table, num),
        ),
    decreases s.len(),
{
    let n = s.len() as int;
    if i == n - 1 {
        assert(s.remove(i) =~= s.drop_last());
        lemma_eval_prefix_congruence(s, s.remove(i), table, num, n - 1);
    } else {
        let t = s.drop_last();
        lemma_eval_prefix_congruence(s, t, table, num, n - 1);
        lemma_eval_remove(t, table, num, i);
        assert(s.remove(i).drop_last() =~= t.remove(i));
        assert(s.remove(i)[n - 2] == s[n - 1]);
        lemma_eval_prefix_congruence(s.remove(i), t.remove(i), table, num, n - 2);
    }
}

/// Order-irrelevance law: component order does not affect the reconstructed
/// value. Fixed-point vector addition is exact, commutative and
/// associative, so any permutation of the component set sums to the same
/// point; the frequency-ascending order the engine produces is a choice
/// for the visualization only.
pub proof fn lemma_evaluation_order_irrelevant(
    a: Seq<FourierComponent>,
    b: Seq<FourierComponent>,
    table: Seq<Complex>,
    num: int,
)
    requires
        a.to_multiset() == b.to_multiset(),
    ensures
        eval_spec(a, table, num) == eval_spec(b, table, num),
    decreases a.len(),
{
    broadcast use vstd::seq_lib::group_to_multiset_ensures;

    if a.len() == 0 {
        assert(b.to_multiset().len() == 0);
    } else {
        let n = a.len() as int;
        let x = a[n - 1];
        assert(a.contains(x));
        assert(a.to_multiset().count(x) > 0);
        assert(b.to_multiset().count(x) > 0);
        assert(b.contains(x));
        let i = choose|i: int| 0 <= i < b.len() && b[i] == x;
        lemma_eval_remove(b, table, num, i);
        assert(a.remove(n - 1) =~= a.drop_last());
        assert(a.drop_last().to_multiset() == a.to_multiset().remove(x));
        assert(b.remove(i).to_multiset() == b.to_multiset().remove(x));
        lemma_eval_prefix_congruence(a, a.drop_last(), table, num, n - 1);
        lemma_evaluation_order_irrelevant(a.drop_last(), b.remove(i), table, num);
    }
}

} // verus!
