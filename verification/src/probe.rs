//! The triangular probe sequence.
//!
//! Within one generation a probe starts at the group picked by the high
//! hash bits and advances by a growing stride: after `n` steps it stands
//! `n * (n + 1) / 2` groups past the start. Over a power-of-two group
//! count this walk visits every group exactly once in the first `ng`
//! steps, which is what makes a full probe a definitive miss and lets an
//! insert always find the empty slot that the load bound guarantees.

use vstd::arithmetic::div_mod::{
    lemma_add_mod_noop, lemma_fundamental_div_mod, lemma_fundamental_div_mod_converse,
    lemma_mod_bound, lemma_mod_multiples_basic, lemma_small_mod, lemma_sub_mod_noop,
};
use vstd::arithmetic::power2::{lemma2_to64, lemma_pow2_adds, lemma_pow2_pos, pow2};
use vstd::prelude::*;
use vstd::set_lib::{lemma_int_range, lemma_len_subset, set_int_range};

verus! {

/// The `n`-th triangular number: the group offset after `n` probe steps.
pub open spec fn tri(n: nat) -> nat {
    (n * (n + 1) / 2) as nat
}

/// The group visited at probe step `n`, starting from group `start`.
pub open spec fn probe_group(start: int, n: nat, ng: int) -> int {
    (start + tri(n)) % ng
}

/// Twice a triangular number is the underlying product.
pub proof fn lemma_tri_double(n: nat)
    ensures
        2 * tri(n) == n * (n + 1),
{
    lemma_fundamental_div_mod(n as int, 2);
    let q = n as int / 2;
    let r = n as int % 2;
    lemma_mod_bound(n as int, 2);
    if r == 0 {
        assert(n * (n + 1) == 2 * (q * (n + 1))) by (nonlinear_arith)
            requires
                n == 2 * q,
        ;
        lemma_fundamental_div_mod_converse(n as int * (n + 1), 2, q * (n + 1), 0);
    } else {
        assert(n * (n + 1) == 2 * ((q + 1) * n)) by (nonlinear_arith)
            requires
                n == 2 * q + 1,
        ;
        lemma_fundamental_div_mod_converse(n as int * (n + 1), 2, (q + 1) * n as int, 0);
    }
}

/// Each probe step advances the group by the step's stride.
pub proof fn lemma_tri_next(n: nat)
    ensures
        tri(n + 1) == tri(n) + n + 1,
{
    lemma_tri_double(n);
    lemma_tri_double(n + 1);
    assert((n + 1) * (n + 2) == n * (n + 1) + 2 * (n + 1)) by (nonlinear_arith);
}

/// The probe's next group is the current group plus the next stride.
pub proof fn lemma_probe_step(start: int, n: nat, ng: int)
    requires
        0 < ng,
    ensures
        probe_group(start, n + 1, ng) == (probe_group(start, n, ng) + (n + 1) as int % ng) % ng,
{
    lemma_tri_next(n);
    lemma_add_mod_noop(start + tri(n), n + 1 as int, ng);
}

/// An odd factor can be cancelled from a product divisible by a power of
/// two.
pub proof fn lemma_odd_pow2_factor(t: nat, x: int, y: int)
    requires
        x % 2 == 1,
        y >= 0,
        (x * y) % pow2(t) as int == 0,
    ensures
        y % pow2(t) as int == 0,
    decreases t,
{
    lemma_pow2_pos(t);
    if t == 0 {
        lemma2_to64();
        lemma_small_mod(0, 1);
        lemma_fundamental_div_mod(y, 1);
        lemma_mod_bound(y, 1);
    } else {
        let p = pow2((t - 1) as nat) as int;
        lemma_pow2_pos((t - 1) as nat);
        lemma_pow2_adds(1, (t - 1) as nat);
        lemma2_to64();
        lemma_fundamental_div_mod(x * y, pow2(t) as int);
        let k = (x * y) / pow2(t) as int;
        assert(x * y == pow2(t) as int * k);
        assert(x * y == 2 * (p * k)) by (nonlinear_arith)
            requires
                x * y == pow2(t) as int * k,
                pow2(t) as int == 2 * p,
        ;
        lemma_fundamental_div_mod(x, 2);
        let a = x / 2;
        let y2 = p * k - a * y;
        assert(y == 2 * y2) by (nonlinear_arith)
            requires
                x == 2 * a + 1,
                x * y == 2 * (p * k),
                y2 == p * k - a * y,
        ;
        assert(y2 >= 0);
        assert(x * y2 == p * k) by (nonlinear_arith)
            requires
                x * y == 2 * (p * k),
                y == 2 * y2,
        ;
        lemma_mod_multiples_basic(k, p);
        assert((x * y2) % p == 0);
        lemma_odd_pow2_factor((t - 1) as nat, x, y2);
        lemma_fundamental_div_mod(y2, p);
        let m = y2 / p;
        assert(y == pow2(t) * m) by (nonlinear_arith)
            requires
                y == 2 * y2,
                y2 == p * m,
                pow2(t) == 2 * p,
        ;
        lemma_mod_multiples_basic(m, pow2(t) as int);
    }
}

/// Distinct probe steps within the first `ng` visit distinct groups.
pub proof fn lemma_probe_distinct(start: int, k: nat, i: nat, j: nat)
    requires
        i < j < pow2(k),
    ensures
        probe_group(start, i, pow2(k) as int) != probe_group(start, j, pow2(k) as int),
{
    lemma_pow2_pos(k);
    let ng = pow2(k) as int;
    if probe_group(start, i, ng) == probe_group(start, j, ng) {
        lemma_sub_mod_noop(start + tri(j), start + tri(i), ng);
        lemma_mod_multiples_basic(0, ng);
        let d: int = tri(j) - tri(i);
        assert(d % ng == 0);
        lemma_tri_double(i);
        lemma_tri_double(j);
        let d1: int = j - i;
        let s: int = i + j + 1 as int;
        assert(2 * d == d1 * s) by (nonlinear_arith)
            requires
                2 * tri(j) == j * (j + 1),
                2 * tri(i) == i * (i + 1),
                d == tri(j) - tri(i),
                d1 == j - i,
                s == i + j + 1,
        ;
        lemma_fundamental_div_mod(d, ng);
        let q = d / ng;
        lemma_pow2_adds(1, k);
        lemma2_to64();
        assert(d1 * s == pow2((k + 1) as nat) * q) by (nonlinear_arith)
            requires
                2 * d == d1 * s,
                d == ng * q,
                pow2((k + 1) as nat) == 2 * ng,
        ;
        lemma_mod_multiples_basic(q, pow2((k + 1) as nat) as int);
        assert((d1 * s) % pow2((k + 1) as nat) as int == 0);
        lemma_fundamental_div_mod(d1, 2);
        lemma_mod_bound(d1, 2);
        let c = d1 / 2;
        if d1 % 2 == 1 {
            lemma_odd_pow2_factor((k + 1) as nat, d1, s);
            lemma_small_mod(s as nat, pow2((k + 1) as nat));
        } else {
            lemma_fundamental_div_mod_converse(s, 2, (j - c), 1);
            assert(s % 2 == 1);
            assert(s * d1 == d1 * s) by (nonlinear_arith);
            lemma_odd_pow2_factor((k + 1) as nat, s, d1);
            lemma_small_mod(d1 as nat, pow2((k + 1) as nat));
        }
    }
}

/// The set of groups visited in the first `m` probe steps.
pub open spec fn probe_image(start: int, ng: int, m: nat) -> Set<int> {
    Set::new(|g: int| exists|n: nat| n < m && probe_group(start, n, ng) == g)
}

/// The first `m` probe steps visit `m` distinct groups.
pub proof fn lemma_probe_image_len(start: int, k: nat, m: nat)
    requires
        m <= pow2(k),
    ensures
        probe_image(start, pow2(k) as int, m).finite(),
        probe_image(start, pow2(k) as int, m).len() == m,
    decreases m,
{
    let ng = pow2(k) as int;
    if m == 0 {
        assert(probe_image(start, ng, 0) =~= Set::empty());
    } else {
        let prev = (m - 1) as nat;
        lemma_probe_image_len(start, k, prev);
        let g = probe_group(start, prev, ng);
        assert(probe_image(start, ng, m) =~= probe_image(start, ng, prev).insert(g)) by {
            assert forall|g2: int| probe_image(start, ng, m).contains(g2) implies probe_image(
                start,
                ng,
                prev,
            ).insert(g).contains(g2) by {
                let n = choose|n: nat| n < m && probe_group(start, n, ng) == g2;
                if n < prev {
                    assert(probe_image(start, ng, prev).contains(g2));
                }
            }
            assert forall|g2: int|
                probe_image(start, ng, prev).insert(g).contains(g2) implies probe_image(
                start,
                ng,
                m,
            ).contains(g2) by {
                if probe_image(start, ng, prev).contains(g2) {
                    let n = choose|n: nat| n < prev && probe_group(start, n, ng) == g2;
                    assert(n < m && probe_group(start, n, ng) == g2);
                } else {
                    assert(prev < m && probe_group(start, prev, ng) == g);
                }
            }
        }
        if probe_image(start, ng, prev).contains(g) {
            let n = choose|n: nat| n < prev && probe_group(start, n, ng) == g;
            lemma_probe_distinct(start, k, n, prev);
        }
    }
}

/// Every group is visited within the first `ng` probe steps.
pub proof fn lemma_probe_covers(start: int, k: nat, g: int)
    requires
        0 <= start < pow2(k),
        0 <= g < pow2(k),
    ensures
        exists|n: nat| n < pow2(k) && probe_group(start, n, pow2(k) as int) == g,
{
    lemma_pow2_pos(k);
    let ng = pow2(k) as int;
    let image = probe_image(start, ng, pow2(k));
    lemma_probe_image_len(start, k, pow2(k));
    let range = set_int_range(0, ng);
    lemma_int_range(0, ng);
    assert forall|g2: int| image.contains(g2) implies range.contains(g2) by {
        let n = choose|n: nat| n < pow2(k) && probe_group(start, n, ng) == g2;
        lemma_mod_bound(start + tri(n), ng);
    }
    if !image.contains(g) {
        assert(image.subset_of(range.remove(g)));
        lemma_len_subset(image, range.remove(g));
    }
}

} // verus!
