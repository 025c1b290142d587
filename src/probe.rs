//! The probe walk of the hash map: from a start slot, each step goes from slot
//! `i` to slot `(5 * i + 1) mod capacity`.
//!
//! That recurrence reaches every slot from every start only for some
//! capacities. `lemma_power_of_two_full_cycle` shows that powers of two are
//! among them: substituting `y = 4 * i + 1` turns a step into `y -> 5 * y`
//! modulo `4 * capacity`, and `5` raised to `2^n` is `1 + 2^(n+2)` modulo
//! `2^(n+3)`.
use vstd::arithmetic::div_mod::{
    lemma_add_mod_noop,
    lemma_fundamental_div_mod,
    lemma_fundamental_div_mod_converse,
    lemma_mod_mod,
    lemma_mod_multiples_vanish,
    lemma_mul_mod_noop_right,
};
use vstd::arithmetic::power::{lemma_pow_adds, lemma_pow_positive, pow};
use vstd::prelude::*;

verus! {

/// One step of the probe walk.
pub open spec fn probe_next(i: int, cap: int) -> int {
    (5 * i + 1) % cap
}

/// The slot that a probe walk from `start` reaches after `step` steps.
pub open spec fn probe_slot(start: int, cap: int, step: nat) -> int
    decreases step,
{
    if step == 0 {
        start
    } else {
        probe_next(probe_slot(start, cap, (step - 1) as nat), cap)
    }
}

/// Whether the probe walk from slot `s` reaches slot `t` in fewer than `cap` steps.
pub open spec fn reaches(s: int, t: int, cap: int) -> bool {
    exists|j: nat| j < cap && #[trigger] probe_slot(s, cap, j) == t
}

/// Whether, over `cap` slots, the probe walk from any slot reaches every slot
/// in fewer than `cap` steps.
pub open spec fn full_cycle(cap: int) -> bool {
    forall|s: int, t: int| 0 <= s < cap && 0 <= t < cap ==> #[trigger] reaches(s, t, cap)
}

/// A probe walk stays among the slots.
pub proof fn lemma_probe_slot_bound(start: int, cap: int, step: nat)
    requires
        0 <= start < cap,
    ensures
        0 <= probe_slot(start, cap, step) < cap,
    decreases step,
{
    if step > 0 {
        lemma_probe_slot_bound(start, cap, (step - 1) as nat);
    }
}

/// Walking `a` steps and then `b` steps is walking `a + b` steps.
proof fn lemma_compose(s: int, cap: int, a: nat, b: nat)
    ensures
        probe_slot(s, cap, a + b) == probe_slot(probe_slot(s, cap, a), cap, b),
    decreases b,
{
    if b > 0 {
        lemma_compose(s, cap, a, (b - 1) as nat);
        assert((a + b - 1) as nat == a + (b - 1) as nat);
    }
}

/// A walk over `2 * m` slots, taken modulo `m`, is the walk over `m` slots.
proof fn lemma_reduce(s: int, m: int, j: nat)
    requires
        0 < m,
    ensures
        probe_slot(s, 2 * m, j) % m == probe_slot(s % m, m, j),
    decreases j,
{
    if j > 0 {
        let p = probe_slot(s, 2 * m, (j - 1) as nat);
        lemma_reduce(s, m, (j - 1) as nat);
        assert(m * 2 == 2 * m);
        lemma_mod_mod(5 * p + 1, m, 2);
        lemma_mul_mod_noop_right(5, p, m);
        lemma_add_mod_noop(5 * (p % m), 1, m);
        lemma_add_mod_noop(5 * p, 1, m);
    }
}

/// In the substituted form `y = 4 * i + 1`, a walk of `j` steps multiplies by
/// `5^j` modulo `4 * cap`.
proof fn lemma_lift(s: int, cap: int, j: nat)
    requires
        0 < cap,
    ensures
        (4 * probe_slot(s, cap, j) + 1) % (4 * cap) == (pow(5, j) * (4 * s + 1)) % (4 * cap),
    decreases j,
{
    reveal(pow);
    if j == 0 {
        assert(pow(5, 0) == 1);
    } else {
        let k = (j - 1) as nat;
        let p = probe_slot(s, cap, k);
        let x = 5 * p + 1;
        let m = 4 * cap;
        lemma_lift(s, cap, k);
        lemma_fundamental_div_mod(x, cap);
        let d = x / cap;
        let r = x % cap;
        assert(4 * r + 1 == m * (-d) + (4 * x + 1)) by (nonlinear_arith)
            requires
                x == cap * d + r,
                m == 4 * cap,
        ;
        lemma_mod_multiples_vanish(-(x / cap), 4 * x + 1, m);
        assert(4 * x + 1 == 5 * (4 * p + 1));
        lemma_mul_mod_noop_right(5, 4 * p + 1, m);
        lemma_mul_mod_noop_right(5, pow(5, k) * (4 * s + 1), m);
        assert(pow(5, j) == 5 * pow(5, k));
        assert(5 * (pow(5, k) * (4 * s + 1)) == pow(5, j) * (4 * s + 1)) by (nonlinear_arith)
            requires
                pow(5, j) == 5 * pow(5, k),
        ;
    }
}

/// `5^(2^n)` is `1 + 2^(n+2)` modulo `2^(n+3)`.
proof fn lemma_five_pow(n: nat)
    ensures
        pow(5, pow(2, n) as nat) % pow(2, n + 3) == 1 + pow(2, n + 2),
    decreases n,
{
    reveal(pow);
    if n == 0 {
        assert(pow(2, 0) == 1);
        assert(pow(2, 1) == 2);
        assert(pow(2, 2) == 4);
        assert(pow(2, 3) == 8);
        assert(pow(5, 0) == 1);
        assert(pow(5, 1) == 5);
    } else {
        let k = (n - 1) as nat;
        lemma_five_pow(k);
        lemma_pow_positive(2, k);
        let mm = pow(2, k);
        let big = pow(2, k + 2);
        assert(pow(2, k + 1) == 2 * mm);
        assert(pow(2, k + 2) == 2 * pow(2, k + 1));
        assert(pow(2, k + 3) == 2 * pow(2, k + 2));
        assert(pow(2, k + 4) == 2 * pow(2, k + 3));
        assert(n + 2 == k + 3 && n + 3 == k + 4 && n == k + 1);
        let a = pow(5, mm as nat);
        lemma_pow_positive(5, mm as nat);
        lemma_pow_adds(5, mm as nat, mm as nat);
        assert(pow(2, n) as nat == mm as nat + mm as nat);
        let q = a / (2 * big);
        lemma_fundamental_div_mod(a, 2 * big);
        assert(a == 2 * big * q + 1 + big);
        let c = q + mm * (1 + 2 * q) * (1 + 2 * q);
        assert(a * a == c * (4 * big) + (1 + 2 * big)) by (nonlinear_arith)
            requires
                a == 2 * big * q + 1 + big,
                big == 4 * mm,
                c == q + mm * (1 + 2 * q) * (1 + 2 * q),
        ;
        lemma_fundamental_div_mod_converse(a * a, 4 * big, c, 1 + 2 * big);
    }
}

/// Over `2^(n+1)` slots, `2^n` steps move every slot on by `2^n`.
proof fn lemma_half_turn(n: nat, x: int)
    requires
        0 <= x < 2 * pow(2, n),
    ensures
        probe_slot(x, 2 * pow(2, n), pow(2, n) as nat) == (x + pow(2, n)) % (2 * pow(2, n)),
{
    reveal(pow);
    let mm = pow(2, n);
    lemma_pow_positive(2, n);
    let cap = 2 * mm;
    let m8 = 8 * mm;
    assert(pow(2, n + 1) == 2 * mm);
    assert(pow(2, n + 2) == 2 * pow(2, n + 1));
    assert(pow(2, n + 3) == 2 * pow(2, n + 2));
    let p = probe_slot(x, cap, mm as nat);
    lemma_probe_slot_bound(x, cap, mm as nat);
    lemma_lift(x, cap, mm as nat);
    lemma_five_pow(n);
    let a = pow(5, mm as nat);
    lemma_pow_positive(5, mm as nat);
    let q = a / m8;
    lemma_fundamental_div_mod(a, m8);
    let w = 2 * x + q * (4 * x + 1);
    assert(a * (4 * x + 1) == m8 * w + (4 * (x + mm) + 1)) by (nonlinear_arith)
        requires
            a == m8 * q + 1 + 4 * mm,
            m8 == 8 * mm,
            w == 2 * x + q * (4 * x + 1),
    ;
    lemma_mod_multiples_vanish(w, 4 * (x + mm) + 1, m8);
    lemma_fundamental_div_mod_converse(4 * p + 1, m8, 0, 4 * p + 1);
    if x + mm < cap {
        lemma_fundamental_div_mod_converse(4 * (x + mm) + 1, m8, 0, 4 * (x + mm) + 1);
        lemma_fundamental_div_mod_converse(x + mm, cap, 0, x + mm);
    } else {
        lemma_fundamental_div_mod_converse(4 * (x + mm) + 1, m8, 1, 4 * (x + mm) + 1 - m8);
        lemma_fundamental_div_mod_converse(x + mm, cap, 1, x + mm - cap);
    }
}

/// Over a power of two of slots, the probe walk from any slot reaches every
/// slot in fewer steps than there are slots.
pub proof fn lemma_power_of_two_full_cycle(n: nat)
    ensures
        full_cycle(pow(2, n)),
    decreases n,
{
    reveal(pow);
    lemma_pow_positive(2, n);
    if n == 0 {
        assert(pow(2, 0) == 1);
        assert forall|s: int, t: int| 0 <= s < 1 && 0 <= t < 1 implies #[trigger] reaches(s, t, 1) by {
            assert(probe_slot(s, 1, 0) == t);
        }
    } else {
        let k = (n - 1) as nat;
        lemma_power_of_two_full_cycle(k);
        let mm = pow(2, k);
        lemma_pow_positive(2, k);
        let cap = pow(2, n);
        assert(cap == 2 * mm);
        assert forall|s: int, t: int| 0 <= s < cap && 0 <= t < cap implies #[trigger] reaches(s, t, cap) by {
            lemma_fundamental_div_mod(s, mm);
            lemma_fundamental_div_mod(t, mm);
            assert(reaches(s % mm, t % mm, mm));
            let j = choose|j: nat| j < mm && #[trigger] probe_slot(s % mm, mm, j) == t % mm;
            lemma_reduce(s, mm, j);
            let x = probe_slot(s, cap, j);
            lemma_probe_slot_bound(s, cap, j);
            if x == t {
                assert(probe_slot(s, cap, j) == t);
            } else {
                lemma_fundamental_div_mod(x, mm);
                let xd = x / mm;
                let td = t / mm;
                let xr = x % mm;
                let tr = t % mm;
                assert(xr == tr);
                assert(0 <= xd < 2) by (nonlinear_arith)
                    requires
                        x == mm * xd + xr,
                        0 <= xr < mm,
                        0 <= x < 2 * mm,
                ;
                assert(0 <= td < 2) by (nonlinear_arith)
                    requires
                        t == mm * td + tr,
                        0 <= tr < mm,
                        0 <= t < 2 * mm,
                ;
                if xd == 0 {
                    assert(x == xr) by (nonlinear_arith)
                        requires
                            x == mm * xd + xr,
                            xd == 0,
                    ;
                } else {
                    assert(x == mm + xr) by (nonlinear_arith)
                        requires
                            x == mm * xd + xr,
                            xd == 1,
                    ;
                }
                if td == 0 {
                    assert(t == tr) by (nonlinear_arith)
                        requires
                            t == mm * td + tr,
                            td == 0,
                    ;
                } else {
                    assert(t == mm + tr) by (nonlinear_arith)
                        requires
                            t == mm * td + tr,
                            td == 1,
                    ;
                }
                lemma_half_turn(k, x);
                lemma_compose(s, cap, j, mm as nat);
                if x < t {
                    assert(x + mm == t);
                    lemma_fundamental_div_mod_converse(x + mm, cap, 0, t);
                } else {
                    assert(x == t + mm);
                    lemma_fundamental_div_mod_converse(x + mm, cap, 1, t);
                }
                assert(probe_slot(s, cap, j + mm as nat) == t);
            }
        }
    }
}

} // verus!
